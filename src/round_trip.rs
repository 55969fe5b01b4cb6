use vstd::prelude::*;
use crate::chunk::{
    CodecState, OP_DIFF, OP_LUMA, OP_RUN, OP_RGB, in_diff_range, lemma_diff_boundary, lemma_index_only_on_hit, RUN_MAX, start_state, decode_pixels, encode_chunks, encode_step, next_pixel, run_chunk, biased_delta, decode_chunk, diff_pixel, fits_diff, fits_luma, luma_delta,
    luma_pixel, pixel_chunk, wrap_add,
};
use crate::decode::{bytes_of, decode_spec, pixel_bytes, prepend};
use crate::encode::{cache_after, encode_spec, max_encoded_size, end_marker, pixel_at, pixels_of, raw_size};
use crate::error::Error;
use crate::header::{Header, header_bytes, header_of, header_valid, lemma_header_round_trip, magic_of, pixel_count};
use crate::pixel::{Pixel, hash_of};

verus! {

proof fn lemma_wrap_delta(x: u8, y: u8, k: int)
    requires
        0 <= k < 256,
    ensures
        wrap_add(y, biased_delta(x, y, k) - k) == x,
{
    reveal(biased_delta);
    let v = x as int - y as int + k;
    vstd::arithmetic::div_mod::lemma_fundamental_div_mod(v, 256);
    let q = v / 256;
    assert(y as int + biased_delta(x, y, k) - k == x as int + 256 * (-q));
    vstd::arithmetic::div_mod::lemma_mod_multiples_vanish(-q, x as int, 256);
}

proof fn lemma_wrap_luma(x: u8, g: u8, y: u8, pg: u8)
    ensures
        wrap_add(y, (biased_delta(g, pg, 32) - 32) - 8 + luma_delta(x, g, y, pg)) == x,
{
    reveal(biased_delta);
    reveal(luma_delta);
    let v1 = g as int - pg as int + 32;
    let v2 = (x as int - y as int) - (g as int - pg as int) + 8;
    vstd::arithmetic::div_mod::lemma_fundamental_div_mod(v1, 256);
    vstd::arithmetic::div_mod::lemma_fundamental_div_mod(v2, 256);
    let q1 = v1 / 256;
    let q2 = v2 / 256;
    assert(y as int + (biased_delta(g, pg, 32) - 32) - 8 + luma_delta(x, g, y, pg) == x as int + 256
        * (-q1 - q2)) by (nonlinear_arith)
        requires
            biased_delta(g, pg, 32) == v1 - 256 * q1,
            luma_delta(x, g, y, pg) == v2 - 256 * q2,
            v1 == g as int - pg as int + 32,
            v2 == (x as int - y as int) - (g as int - pg as int) + 8,
    ;
    vstd::arithmetic::div_mod::lemma_mod_multiples_vanish(-q1 - q2, x as int, 256);
}

proof fn lemma_diff_byte(vr: int, vg: int, vb: int)
    requires
        0 <= vr < 4,
        0 <= vg < 4,
        0 <= vb < 4,
    ensures
        ((64 + vr * 16 + vg * 4 + vb) / 16) % 4 == vr,
        ((64 + vr * 16 + vg * 4 + vb) / 4) % 4 == vg,
        (64 + vr * 16 + vg * 4 + vb) % 4 == vb,
{
    assert(((64 + vr * 16 + vg * 4 + vb) / 16) % 4 == vr) by (nonlinear_arith)
        requires 0 <= vr < 4, 0 <= vg < 4, 0 <= vb < 4;
    assert(((64 + vr * 16 + vg * 4 + vb) / 4) % 4 == vg) by (nonlinear_arith)
        requires 0 <= vr < 4, 0 <= vg < 4, 0 <= vb < 4;
    assert((64 + vr * 16 + vg * 4 + vb) % 4 == vb) by (nonlinear_arith)
        requires 0 <= vr < 4, 0 <= vg < 4, 0 <= vb < 4;
}

proof fn lemma_luma_byte(lr: int, lb: int)
    requires
        0 <= lr < 16,
        0 <= lb < 16,
    ensures
        (lr * 16 + lb) / 16 == lr,
        (lr * 16 + lb) % 16 == lb,
{
    assert((lr * 16 + lb) / 16 == lr) by (nonlinear_arith)
        requires 0 <= lr < 16, 0 <= lb < 16;
    assert((lr * 16 + lb) % 16 == lb) by (nonlinear_arith)
        requires 0 <= lr < 16, 0 <= lb < 16;
}

proof fn lemma_delta_bounds(x: u8, y: u8, k: int)
    ensures
        0 <= biased_delta(x, y, k) < 256,
{
    reveal(biased_delta);
}

proof fn lemma_luma_bounds(x: u8, g: u8, y: u8, pg: u8)
    ensures
        0 <= luma_delta(x, g, y, pg) < 256,
{
    reveal(luma_delta);
}

proof fn lemma_diff_case(st: CodecState, px: Pixel, b: u8)
    requires
        px.a == st.prev.a,
        fits_diff(st.prev, px),
        b as int == 64 + biased_delta(px.r, st.prev.r, 2) * 16 + biased_delta(px.g, st.prev.g, 2) * 4
            + biased_delta(px.b, st.prev.b, 2),
    ensures
        64 <= b < 128,
        diff_pixel(st.prev, b) == px,
{
    let prev = st.prev;
    lemma_delta_bounds(px.r, prev.r, 2);
    lemma_delta_bounds(px.g, prev.g, 2);
    lemma_delta_bounds(px.b, prev.b, 2);
    lemma_diff_byte(biased_delta(px.r, prev.r, 2), biased_delta(px.g, prev.g, 2), biased_delta(px.b, prev.b, 2));
    lemma_wrap_delta(px.r, prev.r, 2);
    lemma_wrap_delta(px.g, prev.g, 2);
    lemma_wrap_delta(px.b, prev.b, 2);
}

#[verifier::rlimit(40)]
proof fn lemma_luma_case(st: CodecState, px: Pixel, b1: u8, b2: u8)
    requires
        px.a == st.prev.a,
        fits_luma(st.prev, px),
        b1 as int == 128 + biased_delta(px.g, st.prev.g, 32),
        b2 as int == luma_delta(px.r, px.g, st.prev.r, st.prev.g) * 16 + luma_delta(px.b, px.g, st.prev.b, st.prev.g),
    ensures
        128 <= b1 < 192,
        luma_pixel(st.prev, b1, b2) == px,
{
    let prev = st.prev;
    lemma_delta_bounds(px.g, prev.g, 32);
    lemma_luma_bounds(px.r, px.g, prev.r, prev.g);
    lemma_luma_bounds(px.b, px.g, prev.b, prev.g);
    lemma_luma_byte(luma_delta(px.r, px.g, prev.r, prev.g), luma_delta(px.b, px.g, prev.b, prev.g));
    lemma_wrap_delta(px.g, prev.g, 32);
    lemma_wrap_luma(px.r, px.g, prev.r, prev.g);
    lemma_wrap_luma(px.b, px.g, prev.b, prev.g);
}

/// Decoding the chunk that encodes a pixel other than the previous one gives
/// that pixel, and both sides end in the same state.
proof fn lemma_chunk_round_trip(st: CodecState, px: Pixel, data: Seq<u8>, pos: int)
    requires
        st.cache.len() == 64,
        st.run == 0,
        px != st.prev,
        0 <= pos,
        pos + pixel_chunk(st.prev, st.cache, px).len() <= data.len(),
        data.subrange(pos, pos + pixel_chunk(st.prev, st.cache, px).len()) == pixel_chunk(
            st.prev,
            st.cache,
            px,
        ),
    ensures
        decode_chunk(st, data, pos) == Some(
            (
                CodecState { prev: px, cache: cache_after(st.cache, px), run: 0 },
                px,
                pos + pixel_chunk(st.prev, st.cache, px).len(),
            ),
        ),
{
    let prev = st.prev;
    let c = pixel_chunk(prev, st.cache, px);
    let h = hash_of(px);
    assert(forall|j: int| 0 <= j < c.len() ==> data[pos + j] == c[j]) by {
        assert forall|j: int| 0 <= j < c.len() implies data[pos + j] == c[j] by {
            assert(data.subrange(pos, pos + c.len())[j] == data[pos + j]);
        }
    }
    if st.cache[h] == px {
        assert(data[pos] == c[0]);
        reveal(decode_chunk);
    } else if px.a != prev.a {
        assert(data[pos] == c[0] && data[pos + 1] == c[1] && data[pos + 2] == c[2] && data[pos + 3]
            == c[3] && data[pos + 4] == c[4]);
        reveal(decode_chunk);
    } else if fits_diff(prev, px) {
        lemma_delta_bounds(px.r, prev.r, 2);
        lemma_delta_bounds(px.g, prev.g, 2);
        lemma_delta_bounds(px.b, prev.b, 2);
        assert(data[pos] == c[0]);
        lemma_diff_case(st, px, data[pos]);
        reveal(decode_chunk);
    } else if fits_luma(prev, px) {
        lemma_delta_bounds(px.g, prev.g, 32);
        lemma_luma_bounds(px.r, px.g, prev.r, prev.g);
        lemma_luma_bounds(px.b, px.g, prev.b, prev.g);
        assert(data[pos] == c[0] && data[pos + 1] == c[1]);
        lemma_luma_case(st, px, data[pos], data[pos + 1]);
        reveal(decode_chunk);
    } else {
        assert(data[pos] == c[0] && data[pos + 1] == c[1] && data[pos + 2] == c[2] && data[pos + 3]
            == c[3]);
        reveal(decode_chunk);
    }
}
proof fn lemma_unfold(st: CodecState, data: Seq<u8>, pos: int, n: nat, st2: CodecState, px: Pixel, pos2: int)
    requires
        n > 0,
        next_pixel(st, data, pos) == Some((st2, px, pos2)),
    ensures
        decode_pixels(st, data, pos, n) == prepend(seq![px], decode_pixels(st2, data, pos2, (n - 1) as nat)),
{
}

proof fn lemma_prepend_twice(a: Seq<Pixel>, b: Seq<Pixel>, x: Option<(Seq<Pixel>, int)>)
    ensures
        prepend(a, prepend(b, x)) == prepend(a + b, x),
{
    match x {
        None => {},
        Some((ps, e)) => {
            assert(a + (b + ps) =~= (a + b) + ps);
        },
    }
}

/// `k` copies of pixel `p`.
pub open spec fn repeat(p: Pixel, k: nat) -> Seq<Pixel> {
    Seq::new(k, |i: int| p)
}

/// A pending run of `r` yields `r` copies of the previous pixel and reads
/// nothing.
proof fn lemma_drain(st: CodecState, data: Seq<u8>, pos: int, n: nat)
    requires
        st.run <= n,
    ensures
        decode_pixels(st, data, pos, n) == prepend(
            repeat(st.prev, st.run),
            decode_pixels(CodecState { run: 0, ..st }, data, pos, (n - st.run) as nat),
        ),
    decreases st.run,
{
    if st.run == 0 {
        assert(repeat(st.prev, 0) + Seq::<Pixel>::empty() =~= Seq::<Pixel>::empty());
        assert(st == CodecState { run: 0, ..st });
        match decode_pixels(st, data, pos, n) {
            None => {},
            Some((ps, e)) => {
                assert(repeat(st.prev, 0) + ps =~= ps);
            },
        }
    } else {
        let st1 = CodecState { run: (st.run - 1) as nat, ..st };
        lemma_unfold(st, data, pos, n, st1, st.prev, pos);
        lemma_drain(st1, data, pos, (n - 1) as nat);
        assert(CodecState { run: 0, ..st1 } == CodecState { run: 0, ..st });
        lemma_prepend_twice(
            seq![st.prev],
            repeat(st.prev, st1.run),
            decode_pixels(CodecState { run: 0, ..st }, data, pos, (n - st.run) as nat),
        );
        assert(seq![st.prev] + repeat(st.prev, st1.run) =~= repeat(st.prev, st.run));
    }
}

proof fn lemma_split(data: Seq<u8>, pos: int, a: Seq<u8>, b: Seq<u8>)
    requires
        0 <= pos,
        pos + a.len() + b.len() <= data.len(),
        data.subrange(pos, pos + a.len() + b.len()) == a + b,
    ensures
        data.subrange(pos, pos + a.len()) == a,
        data.subrange(pos + a.len(), pos + a.len() + b.len()) == b,
        forall|j: int| 0 <= j < a.len() ==> data[pos + j] == a[j],
{
    let s = data.subrange(pos, pos + a.len() + b.len());
    assert forall|j: int| 0 <= j < a.len() implies data[pos + j] == a[j] by {
        assert(s[j] == data[pos + j]);
        assert((a + b)[j] == a[j]);
    }
    assert(data.subrange(pos, pos + a.len()) =~= a);
    assert forall|j: int| 0 <= j < b.len() implies data[pos + a.len() + j] == b[j] by {
        assert(s[a.len() + j] == data[pos + a.len() + j]);
        assert((a + b)[a.len() + j] == b[j]);
    }
    assert(data.subrange(pos + a.len(), pos + a.len() + b.len()) =~= b);
}

/// Reading a run chunk of length `k + 1` when no run is pending.
proof fn lemma_run_chunk(st: CodecState, data: Seq<u8>, pos: int, k: nat)
    requires
        k < RUN_MAX,
        st.run == 0,
        0 <= pos < data.len(),
        data[pos] == run_chunk(k + 1),
    ensures
        next_pixel(st, data, pos) == Some((CodecState { run: k, ..st }, st.prev, pos + 1)),
{
    reveal(decode_chunk);
}

/// The chunks of a pixel equal to the previous one decode to the pending run
/// followed by the rest.
proof fn lemma_repeat_step(st: CodecState, pxs: Seq<Pixel>, data: Seq<u8>, pos: int)
    requires
        st.cache.len() == 64,
        st.run < RUN_MAX,
        pxs.len() > 0,
        pxs[0] == st.prev,
        0 <= pos,
        pos + encode_chunks(st, pxs).len() <= data.len(),
        data.subrange(pos, pos + encode_chunks(st, pxs).len()) == encode_chunks(st, pxs),
    ensures
        decode_pixels(CodecState { run: 0, ..st }, data, pos, st.run + pxs.len()) == Some(
            (repeat(st.prev, st.run) + pxs, pos + encode_chunks(st, pxs).len()),
        ),
    decreases pxs.len(), 0nat,
{
    let d = CodecState { run: 0, ..st };
    let k = st.run;
    let px = pxs[0];
    let rest = pxs.drop_first();
    let last = pxs.len() == 1;
    let (st2, out) = encode_step(st, px, last);
    let tail = encode_chunks(st2, rest);
    assert(encode_chunks(st, pxs) == out + tail);
    lemma_split(data, pos, out, tail);
    if k + 1 == RUN_MAX || last {
        assert(st2 == d);
        assert(data[pos] == out[0]);
        lemma_run_chunk(d, data, pos, k);
        let d1 = CodecState { run: k, ..d };
        lemma_unfold(d, data, pos, k + pxs.len(), d1, st.prev, pos + 1);
        lemma_drain(d1, data, pos + 1, (k + pxs.len() - 1) as nat);
        assert(CodecState { run: 0, ..d1 } == d);
        lemma_encode_decode(st2, rest, data, pos + 1);
        lemma_prepend_twice(seq![st.prev], repeat(st.prev, k), decode_pixels(d, data, pos + 1, rest.len()));
        assert(seq![st.prev] + repeat(st.prev, k) + (repeat(st.prev, 0) + rest) =~= repeat(st.prev, k)
            + pxs);
    } else {
        assert(out.len() == 0);
        assert(tail =~= encode_chunks(st, pxs));
        assert(CodecState { run: 0, ..st2 } == d);
        lemma_encode_decode(st2, rest, data, pos);
        assert(repeat(st.prev, k + 1) + rest =~= repeat(st.prev, k) + pxs);
    }
}

/// The chunks of a pixel other than the previous one decode to the pending run
/// followed by the rest.
proof fn lemma_change_step(st: CodecState, pxs: Seq<Pixel>, data: Seq<u8>, pos: int)
    requires
        st.cache.len() == 64,
        st.run < RUN_MAX,
        pxs.len() > 0,
        pxs[0] != st.prev,
        0 <= pos,
        pos + encode_chunks(st, pxs).len() <= data.len(),
        data.subrange(pos, pos + encode_chunks(st, pxs).len()) == encode_chunks(st, pxs),
    ensures
        decode_pixels(CodecState { run: 0, ..st }, data, pos, st.run + pxs.len()) == Some(
            (repeat(st.prev, st.run) + pxs, pos + encode_chunks(st, pxs).len()),
        ),
    decreases pxs.len(), 0nat,
{
    let d = CodecState { run: 0, ..st };
    let k = st.run;
    let px = pxs[0];
    let rest = pxs.drop_first();
    let last = pxs.len() == 1;
    let (st2, out) = encode_step(st, px, last);
    let tail = encode_chunks(st2, rest);
    let flush = if k > 0 { seq![run_chunk(k)] } else { Seq::<u8>::empty() };
    let chunk = pixel_chunk(st.prev, st.cache, px);
    assert(out == flush + chunk);
    assert(encode_chunks(st, pxs) == flush + (chunk + tail)) by {
        assert(out + tail =~= flush + (chunk + tail));
    }
    lemma_split(data, pos, flush, chunk + tail);
    let p1 = pos + flush.len();
    lemma_split(data, p1, chunk, tail);
    let p2 = p1 + chunk.len();
    lemma_chunk_round_trip(d, px, data, p1);
    assert(st2 == CodecState { prev: px, cache: cache_after(st.cache, px), run: 0 });
    lemma_unfold(d, data, p1, pxs.len(), st2, px, p2);
    lemma_encode_decode(st2, rest, data, p2);
    assert(seq![px] + (repeat(px, 0) + rest) =~= pxs);
    if k > 0 {
        assert(data[pos] == flush[0]);
        lemma_run_chunk(d, data, pos, (k - 1) as nat);
        let d1 = CodecState { run: (k - 1) as nat, ..d };
        lemma_unfold(d, data, pos, k + pxs.len(), d1, st.prev, pos + 1);
        lemma_drain(d1, data, pos + 1, (k + pxs.len() - 1) as nat);
        assert(CodecState { run: 0, ..d1 } == d);
        lemma_prepend_twice(seq![st.prev], repeat(st.prev, (k - 1) as nat), decode_pixels(d, data, p1, pxs.len()));
        assert(seq![st.prev] + repeat(st.prev, (k - 1) as nat) =~= repeat(st.prev, k));
    } else {
        assert(repeat(st.prev, 0) + pxs =~= pxs);
    }
}

/// Decoding what the encoder wrote from state `st` gives back the pending run
/// and the pixels, and stops right after the chunks.
proof fn lemma_encode_decode(st: CodecState, pxs: Seq<Pixel>, data: Seq<u8>, pos: int)
    requires
        st.cache.len() == 64,
        st.run < RUN_MAX,
        pxs.len() == 0 ==> st.run == 0,
        0 <= pos,
        pos + encode_chunks(st, pxs).len() <= data.len(),
        data.subrange(pos, pos + encode_chunks(st, pxs).len()) == encode_chunks(st, pxs),
    ensures
        decode_pixels(CodecState { run: 0, ..st }, data, pos, st.run + pxs.len()) == Some(
            (repeat(st.prev, st.run) + pxs, pos + encode_chunks(st, pxs).len()),
        ),
    decreases pxs.len(), 1nat,
{
    if pxs.len() == 0 {
        assert(repeat(st.prev, 0) + pxs =~= Seq::<Pixel>::empty());
    } else if pxs[0] == st.prev {
        lemma_repeat_step(st, pxs, data, pos);
    } else {
        lemma_change_step(st, pxs, data, pos);
    }
}

/// Turning the first `k` pixels of a raw buffer back into bytes gives its first
/// `k * ch` bytes.
proof fn lemma_bytes_of_pixels(data: Seq<u8>, ch: nat, k: int)
    requires
        ch == 3 || ch == 4,
        data.len() as int % (ch as int) == 0,
        0 <= k <= data.len() as int / (ch as int),
    ensures
        bytes_of(pixels_of(data, ch).subrange(0, k), ch) == data.subrange(0, k * ch),
    decreases k,
{
    let pxs = pixels_of(data, ch);
    if k == 0 {
        assert(data.subrange(0, 0) =~= Seq::<u8>::empty());
    } else {
        lemma_bytes_of_pixels(data, ch, k - 1);
        let s = pxs.subrange(0, k);
        assert(s.drop_last() =~= pxs.subrange(0, k - 1));
        assert(s.last() == pixel_at(data, ch, k - 1));
        if ch == 3 {
            assert(data.subrange(0, k * 3) =~= data.subrange(0, (k - 1) * 3) + pixel_bytes(
                pixel_at(data, ch, k - 1),
                ch,
            ));
        } else {
            assert(data.subrange(0, k * 4) =~= data.subrange(0, (k - 1) * 4) + pixel_bytes(
                pixel_at(data, ch, k - 1),
                ch,
            ));
        }
    }
}

/// A raw buffer read as pixels and written back is unchanged.
proof fn lemma_pixels_bytes(data: Seq<u8>, ch: nat)
    requires
        ch == 3 || ch == 4,
        data.len() as int % (ch as int) == 0,
    ensures
        bytes_of(pixels_of(data, ch), ch) == data,
        pixels_of(data, ch).len() * ch == data.len(),
{
    let n = data.len() as int / (ch as int);
    vstd::arithmetic::div_mod::lemma_fundamental_div_mod(data.len() as int, ch as int);
    lemma_bytes_of_pixels(data, ch, n);
    assert(pixels_of(data, ch).subrange(0, n) =~= pixels_of(data, ch));
    assert(n * ch == ch * n) by (nonlinear_arith);
    assert(data.subrange(0, n * ch) =~= data);
}

/// The stream that encoding gives, spelled out part by part.
proof fn lemma_stream_parts(data: Seq<u8>, h: Header)
    requires
        header_valid(h),
        data.len() == raw_size(h),
    ensures
        encode_spec(data, h) == Ok::<Seq<u8>, Error>(
            header_bytes(h) + encode_chunks(start_state(), pixels_of(data, h.channels as nat)) + end_marker(),
        ),
        pixels_of(data, h.channels as nat).len() == pixel_count(h),
        bytes_of(pixels_of(data, h.channels as nat), h.channels as nat) == data,
{
    let ch = h.channels as nat;
    assert(data.len() == pixel_count(h) * ch);
    vstd::arithmetic::div_mod::lemma_mod_multiples_basic(pixel_count(h), ch as int);
    vstd::arithmetic::div_mod::lemma_div_multiples_vanish(pixel_count(h), ch as int);
    assert(pixel_count(h) * ch == ch * pixel_count(h)) by (nonlinear_arith);
    lemma_pixels_bytes(data, ch);
}

/// A stream made of a valid header, the chunks of its pixels, and then `tail`
/// decodes to those pixels exactly when `tail` is the end marker, and is
/// refused for its padding otherwise.
proof fn lemma_decode_stream(h: Header, pxs: Seq<Pixel>, tail: Seq<u8>)
    requires
        header_valid(h),
        pxs.len() == pixel_count(h),
        tail.len() + 14 + encode_chunks(start_state(), pxs).len() >= 22,
    ensures
        decode_spec(header_bytes(h) + encode_chunks(start_state(), pxs) + tail) == (if tail
            == end_marker() {
            Ok::<(Seq<u8>, Header), Error>((bytes_of(pxs, h.channels as nat), h))
        } else {
            Err(Error::InvalidPadding)
        }),
{
    let c = encode_chunks(start_state(), pxs);
    let hb = header_bytes(h);
    let b = hb + c + tail;
    lemma_header_round_trip(h);
    assert(forall|j: int| 0 <= j < 14 ==> b[j] == hb[j]);
    assert(magic_of(b) == magic_of(hb));
    assert(header_of(b) == header_of(hb));
    assert(b.subrange(14, 14 + c.len() as int) =~= c);
    assert(CodecState { run: 0, ..start_state() } == start_state());
    lemma_encode_decode(start_state(), pxs, b, 14);
    assert(repeat(start_state().prev, 0) + pxs =~= pxs);
    assert(b.subrange(14 + c.len() as int, b.len() as int) =~= tail);
}

proof fn lemma_chunks_nonempty(st: CodecState, pxs: Seq<Pixel>)
    requires
        st.run < RUN_MAX,
        pxs.len() > 0,
    ensures
        encode_chunks(st, pxs).len() > 0,
    decreases pxs.len(),
{
    let (st2, out) = encode_step(st, pxs[0], pxs.len() == 1);
    if out.len() == 0 {
        lemma_chunks_nonempty(st2, pxs.drop_first());
    }
}

/// Decoding what encoding gives returns the raw buffer and the header it was
/// encoded with.
pub proof fn lemma_round_trip(data: Seq<u8>, h: Header)
    requires
        header_valid(h),
        data.len() == raw_size(h),
    ensures
        encode_spec(data, h) is Ok,
        decode_spec(encode_spec(data, h)->Ok_0) == Ok::<(Seq<u8>, Header), Error>((data, h)),
{
    lemma_stream_parts(data, h);
    lemma_decode_stream(h, pixels_of(data, h.channels as nat), end_marker());
}

/// A valid stream cut short by the last byte of its end marker is refused for
/// its padding.
pub proof fn lemma_truncated_end_marker(data: Seq<u8>, h: Header)
    requires
        header_valid(h),
        data.len() == raw_size(h),
    ensures
        encode_spec(data, h) is Ok,
        decode_spec(encode_spec(data, h)->Ok_0.drop_last()) == Err::<(Seq<u8>, Header), Error>(
            Error::InvalidPadding,
        ),
{
    lemma_stream_parts(data, h);
    let pxs = pixels_of(data, h.channels as nat);
    let c = encode_chunks(start_state(), pxs);
    assert(h.width as int * h.height as int > 0) by (nonlinear_arith)
        requires
            h.width > 0,
            h.height > 0,
    ;
    lemma_chunks_nonempty(start_state(), pxs);
    let tail = end_marker().drop_last();
    assert((header_bytes(h) + c + end_marker()).drop_last() =~= header_bytes(h) + c + tail);
    lemma_header_round_trip(h);
    lemma_decode_stream(h, pxs, tail);
}

/// Every pixel costs at most `ch + 1` bytes of chunks, a pending run one more
/// byte, and, in an image without alpha (every alpha 255), the first change
/// away from a previous pixel of another alpha one more byte.
pub proof fn lemma_chunks_size(st: CodecState, pxs: Seq<Pixel>, ch: nat)
    requires
        st.cache.len() == 64,
        st.run < RUN_MAX,
        ch == 3 || ch == 4,
        ch == 3 ==> forall|i: int| 0 <= i < pxs.len() ==> pxs[i].a == 255,
    ensures
        encode_chunks(st, pxs).len() <= (ch + 1) * pxs.len() + (if st.run > 0 { 1int } else { 0 }) + (
        if ch == 3 && st.prev.a != 255 {
            1int
        } else {
            0
        }),
    decreases pxs.len(),
{
    if pxs.len() > 0 {
        let px = pxs[0];
        let rest = pxs.drop_first();
        let (st2, out) = encode_step(st, px, pxs.len() == 1);
        assert forall|i: int| 0 <= i < rest.len() implies rest[i] == pxs[i + 1] by {}
        lemma_chunks_size(st2, rest, ch);
        assert((ch + 1) * pxs.len() == (ch + 1) * rest.len() + ch + 1) by (nonlinear_arith)
            requires
                pxs.len() == rest.len() + 1,
        ;
    }
}

/// The encoded stream is never longer than header, end marker, and `ch + 1`
/// bytes per pixel.
pub proof fn lemma_encoded_size(data: Seq<u8>, h: Header)
    requires
        header_valid(h),
        data.len() == raw_size(h),
    ensures
        encode_spec(data, h) is Ok,
        encode_spec(data, h)->Ok_0.len() <= max_encoded_size(h),
{
    lemma_stream_parts(data, h);
    let ch = h.channels as nat;
    let pxs = pixels_of(data, ch);
    lemma_header_round_trip(h);
    lemma_chunks_size(start_state(), pxs, ch);
    assert((ch + 1) * pxs.len() == pixel_count(h) * (h.channels + 1)) by (nonlinear_arith)
        requires
            pxs.len() == pixel_count(h),
            ch == h.channels,
    ;
}

/// `m` more copies of the previous pixel that still fit in the pending run
/// end up as one run chunk.
proof fn lemma_short_run(st: CodecState, m: nat)
    requires
        st.run < RUN_MAX,
        m >= 1,
        st.run + m <= RUN_MAX,
    ensures
        encode_chunks(st, repeat(st.prev, m)) == seq![run_chunk(st.run + m)],
    decreases m,
{
    let pxs = repeat(st.prev, m);
    assert(pxs.drop_first() =~= repeat(st.prev, (m - 1) as nat));
    let (st2, out) = encode_step(st, pxs[0], m == 1);
    if m == 1 {
        assert(encode_chunks(st2, pxs.drop_first()) =~= Seq::<u8>::empty());
        assert(out + Seq::<u8>::empty() =~= out);
    } else {
        lemma_short_run(st2, (m - 1) as nat);
        assert(Seq::<u8>::empty() + seq![run_chunk(st.run + m)] =~= seq![run_chunk(st.run + m)]);
    }
}

/// Copies of the previous pixel that overflow the pending run close it at
/// the longest run and start afresh.
proof fn lemma_long_run(st: CodecState, m: nat)
    requires
        st.run < RUN_MAX,
        st.run + m > RUN_MAX,
    ensures
        encode_chunks(st, repeat(st.prev, m)) == seq![run_chunk(RUN_MAX as nat)] + encode_chunks(
            CodecState { run: 0, ..st },
            repeat(st.prev, (st.run + m - RUN_MAX) as nat),
        ),
    decreases m,
{
    let pxs = repeat(st.prev, m);
    assert(pxs.drop_first() =~= repeat(st.prev, (m - 1) as nat));
    let (st2, out) = encode_step(st, pxs[0], m == 1);
    if st.run + 1 == RUN_MAX {
    } else {
        lemma_long_run(st2, (m - 1) as nat);
        assert(Seq::<u8>::empty() + encode_chunks(st2, pxs.drop_first()) =~= encode_chunks(
            st2,
            pxs.drop_first(),
        ));
    }
}

/// The run chunks for `n` repeats: `n / 62` of the longest length, then one of
/// the remainder where there is one.
pub open spec fn run_chunks(n: nat) -> Seq<u8> {
    Seq::new(n / 62, |i: int| run_chunk(62)) + (if n % 62 == 0 {
        Seq::<u8>::empty()
    } else {
        seq![run_chunk(n % 62)]
    })
}

/// `n` copies of the previous pixel, with no run pending, encode to
/// `n / 62` runs of the longest length and, where `n` is no multiple of 62,
/// one run of the remainder.
pub proof fn lemma_run_saturation(st: CodecState, n: nat)
    requires
        st.run == 0,
    ensures
        encode_chunks(st, repeat(st.prev, n)) == run_chunks(n),
    decreases n,
{
    if n == 0 {
        assert(Seq::new(0, |i: int| run_chunk(62)) + Seq::<u8>::empty() =~= Seq::<u8>::empty());
        assert(repeat(st.prev, 0) =~= Seq::<Pixel>::empty());
    } else if n <= 62 {
        lemma_short_run(st, n);
        if n == 62 {
            assert(Seq::new(1, |i: int| run_chunk(62)) + Seq::<u8>::empty() =~= seq![run_chunk(62)]);
        } else {
            assert(Seq::new(0, |i: int| run_chunk(62)) + seq![run_chunk(n % 62)] =~= seq![
                run_chunk(n),
            ]);
        }
    } else {
        lemma_long_run(st, n);
        assert(CodecState { run: 0, ..st } == st);
        lemma_run_saturation(st, (n - 62) as nat);
        let m = (n - 62) as nat;
        assert(m / 62 == n / 62 - 1 && m % 62 == n % 62) by {
            vstd::arithmetic::div_mod::lemma_fundamental_div_mod(n as int, 62);
            vstd::arithmetic::div_mod::lemma_fundamental_div_mod(m as int, 62);
            let (q, r, q2, r2) = (n as int / 62, n as int % 62, m as int / 62, m as int % 62);
            assert(q == q2 + 1 && r == r2) by (nonlinear_arith)
                requires
                    n == 62 * q + r,
                    m == 62 * q2 + r2,
                    0 <= r < 62,
                    0 <= r2 < 62,
                    n == m + 62,
            ;
        }
        assert(seq![run_chunk(62)] + (Seq::new(m / 62, |i: int| run_chunk(62)) + (if m % 62 == 0 {
            Seq::<u8>::empty()
        } else {
            seq![run_chunk(m % 62)]
        })) =~= Seq::new(n / 62, |i: int| run_chunk(62)) + (if n % 62 == 0 {
            Seq::<u8>::empty()
        } else {
            seq![run_chunk(n % 62)]
        }));
    }
}

/// An RGBA image whose every pixel is the transparent start pixel encodes to
/// nothing but run chunks, and decodes back to the same pixels.
pub proof fn lemma_uniform_image(data: Seq<u8>, h: Header)
    requires
        header_valid(h),
        h.channels == 4,
        data.len() == raw_size(h),
        forall|j: int| 0 <= j < data.len() ==> data[j] == 0,
    ensures
        encode_spec(data, h) == Ok::<Seq<u8>, Error>(
            header_bytes(h) + run_chunks(pixel_count(h) as nat) + end_marker(),
        ),
        decode_spec(encode_spec(data, h)->Ok_0) == Ok::<(Seq<u8>, Header), Error>((data, h)),
{
    lemma_stream_parts(data, h);
    lemma_round_trip(data, h);
    let pxs = pixels_of(data, 4);
    let n = pixel_count(h) as nat;
    assert forall|i: int| 0 <= i < pxs.len() implies pxs[i] == start_state().prev by {
        assert(4 * i + 3 < data.len()) by (nonlinear_arith)
            requires
                0 <= i < pxs.len(),
                pxs.len() * 4 == data.len(),
        ;
    }
    assert(pxs =~= repeat(start_state().prev, n));
    lemma_run_saturation(start_state(), n);
}

/// The encoder after its first `i` pixels: its state and the bytes written.
pub open spec fn encode_prefix(st: CodecState, pxs: Seq<Pixel>, i: nat) -> (CodecState, Seq<u8>)
    decreases i,
{
    if i == 0 || i > pxs.len() {
        (st, Seq::empty())
    } else {
        let (s1, out1) = encode_prefix(st, pxs, (i - 1) as nat);
        let (s2, out2) = encode_step(s1, pxs[i - 1], i == pxs.len());
        (s2, out1 + out2)
    }
}

proof fn lemma_prefix_split(st: CodecState, pxs: Seq<Pixel>, i: nat)
    requires
        st.cache.len() == 64,
        st.run < RUN_MAX,
        i <= pxs.len(),
    ensures
        encode_chunks(st, pxs) == encode_prefix(st, pxs, i).1 + encode_chunks(
            encode_prefix(st, pxs, i).0,
            pxs.subrange(i as int, pxs.len() as int),
        ),
        encode_prefix(st, pxs, i).0.cache.len() == 64,
        encode_prefix(st, pxs, i).0.run < RUN_MAX,
        i > 0 ==> encode_prefix(st, pxs, i).0.prev == pxs[i - 1],
    decreases i,
{
    if i == 0 {
        assert(pxs.subrange(0, pxs.len() as int) =~= pxs);
        assert(Seq::<u8>::empty() + encode_chunks(st, pxs) =~= encode_chunks(st, pxs));
    } else {
        lemma_prefix_split(st, pxs, (i - 1) as nat);
        let (s1, out1) = encode_prefix(st, pxs, (i - 1) as nat);
        let rest = pxs.subrange(i - 1, pxs.len() as int);
        assert(rest[0] == pxs[i - 1]);
        assert(rest.drop_first() =~= pxs.subrange(i as int, pxs.len() as int));
        let (s2, out2) = encode_step(s1, pxs[i - 1], i == pxs.len());
        assert(encode_chunks(s1, rest) == out2 + encode_chunks(s2, rest.drop_first()));
        assert(out1 + (out2 + encode_chunks(s2, rest.drop_first())) =~= (out1 + out2) + encode_chunks(
            s2,
            rest.drop_first(),
        ));
    }
}

/// In the encoded chunks, pixel `i` that differs from the pixel before it (the
/// start pixel for the first) is written right after the bytes of the pixels
/// before it: first the run it closes, if any, then
/// `pixel_chunk(previous pixel, cache so far, pixel)`.
pub proof fn lemma_pixel_chunk_in_stream(st: CodecState, pxs: Seq<Pixel>, i: nat)
    requires
        st.cache.len() == 64,
        st.run < RUN_MAX,
        i < pxs.len(),
        pxs[i as int] != (if i == 0 { st.prev } else { pxs[i - 1] }),
    ensures
        ({
            let (s, out) = encode_prefix(st, pxs, i);
            let flush = if s.run > 0 { seq![run_chunk(s.run)] } else { Seq::<u8>::empty() };
            &&& s.prev == (if i == 0 { st.prev } else { pxs[i - 1] })
            &&& s.cache.len() == 64
            &&& encode_chunks(st, pxs) == out + flush + pixel_chunk(s.prev, s.cache, pxs[i as int])
                + encode_chunks(encode_prefix(st, pxs, (i + 1) as nat).0, pxs.subrange(i + 1int, pxs.len() as int))
        }),
{
    lemma_prefix_split(st, pxs, i);
    lemma_prefix_split(st, pxs, (i + 1) as nat);
    let (s, out) = encode_prefix(st, pxs, i);
    let (s2, out2) = encode_step(s, pxs[i as int], i + 1 == pxs.len());
    let flush = if s.run > 0 { seq![run_chunk(s.run)] } else { Seq::<u8>::empty() };
    assert(encode_prefix(st, pxs, (i + 1) as nat) == (s2, out + out2));
    assert(out2 == flush + pixel_chunk(s.prev, s.cache, pxs[i as int]));
    assert((out + out2) + encode_chunks(s2, pxs.subrange(i + 1int, pxs.len() as int)) =~= out + flush
        + pixel_chunk(s.prev, s.cache, pxs[i as int]) + encode_chunks(
        s2,
        pxs.subrange(i + 1int, pxs.len() as int),
    ));
}

/// Every cache slot after the first `i` pixels holds what it held at the start
/// or one of those pixels.
proof fn lemma_prefix_cache(st: CodecState, pxs: Seq<Pixel>, i: nat)
    requires
        st.cache.len() == 64,
        i <= pxs.len(),
    ensures
        encode_prefix(st, pxs, i).0.cache.len() == 64,
        forall|j: int|
            0 <= j < 64 ==> encode_prefix(st, pxs, i).0.cache[j] == st.cache[j] || exists|k: int|
                0 <= k < i && pxs[k] == #[trigger] encode_prefix(st, pxs, i).0.cache[j],
    decreases i,
{
    if i > 0 {
        lemma_prefix_cache(st, pxs, (i - 1) as nat);
        let s1 = encode_prefix(st, pxs, (i - 1) as nat).0;
        let s2 = encode_prefix(st, pxs, i).0;
        assert forall|j: int| 0 <= j < 64 implies s2.cache[j] == st.cache[j] || exists|k: int|
            0 <= k < i && pxs[k] == #[trigger] s2.cache[j] by {
            if s2.cache[j] != s1.cache[j] {
                assert(pxs[i - 1] == s2.cache[j]);
            } else if s1.cache[j] != st.cache[j] {
                let k = choose|k: int| 0 <= k < i - 1 && pxs[k] == s1.cache[j];
                assert(pxs[k] == s2.cache[j]);
            }
        }
    }
}

/// A pixel met for the first time, found in no starting cache slot, that
/// differs from the pixel before it but keeps its alpha, is written in the
/// stream, after any run it closes, as a one-byte delta chunk exactly when
/// its red, green and blue deltas all lie in `-2..=1`, else as a luma chunk
/// or a literal; never as an index chunk, so it is not read back as another
/// pixel sharing its slot.
pub proof fn lemma_diff_boundary_in_stream(st: CodecState, pxs: Seq<Pixel>, i: nat)
    requires
        st.cache.len() == 64,
        st.run < RUN_MAX,
        i < pxs.len(),
        pxs[i as int] != (if i == 0 { st.prev } else { pxs[i - 1] }),
        pxs[i as int].a == (if i == 0 { st.prev } else { pxs[i - 1] }).a,
        forall|k: int| 0 <= k < i ==> pxs[k] != pxs[i as int],
        forall|j: int| 0 <= j < 64 ==> st.cache[j] != pxs[i as int],
    ensures
        ({
            let prev = if i == 0 { st.prev } else { pxs[i - 1] };
            let (s, out) = encode_prefix(st, pxs, i);
            let flush = if s.run > 0 { seq![run_chunk(s.run)] } else { Seq::<u8>::empty() };
            let c = pixel_chunk(prev, s.cache, pxs[i as int]);
            &&& encode_chunks(st, pxs) == out + flush + c + encode_chunks(
                encode_prefix(st, pxs, (i + 1) as nat).0,
                pxs.subrange(i + 1int, pxs.len() as int),
            )
            &&& c[0] >= OP_DIFF
            &&& in_diff_range(prev, pxs[i as int]) <==> (c.len() == 1 && OP_DIFF <= c[0] < OP_LUMA)
            &&& !in_diff_range(prev, pxs[i as int]) ==> (c.len() == 2 && OP_LUMA <= c[0] < OP_RUN)
                || c == seq![OP_RGB, pxs[i as int].r, pxs[i as int].g, pxs[i as int].b]
        }),
{
    let q = pxs[i as int];
    let prev = if i == 0 { st.prev } else { pxs[i - 1] };
    lemma_pixel_chunk_in_stream(st, pxs, i);
    lemma_prefix_cache(st, pxs, i);
    let s = encode_prefix(st, pxs, i).0;
    let h = crate::pixel::hash_of(q);
    assert(s.cache[h] != q) by {
        if s.cache[h] != st.cache[h] {
            let k = choose|k: int| 0 <= k < i && pxs[k] == s.cache[h];
        }
    }
    lemma_index_only_on_hit(prev, s.cache, q);
    lemma_diff_boundary(prev, s.cache, q);
}

} // verus!
