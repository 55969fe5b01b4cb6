use vstd::prelude::*;
use crate::chunk::{
    CodecState, encode_step, OP_DIFF, OP_INDEX, OP_LUMA, OP_RGB, OP_RGBA, OP_RUN, RUN_MAX, biased_delta, encode_chunks,
    luma_delta, pixel_chunk, run_chunk, start_state,
};
use crate::error::Error;
use crate::header::{END_MARKER_SIZE, HEADER_SIZE, Header, PIXELS_MAX, header_bytes, header_error, header_valid, pixel_count};
use crate::pixel::{Pixel, hash_of};

verus! {

/// The 8 bytes that close every stream: seven zeros and a one.
pub open spec fn end_marker() -> Seq<u8> {
    seq![0u8, 0u8, 0u8, 0u8, 0u8, 0u8, 0u8, 1u8]
}

/// Pixel `i` of a raw buffer with `ch` bytes per pixel; alpha is 255 when
/// there are three.
pub open spec fn pixel_at(data: Seq<u8>, ch: nat, i: int) -> Pixel {
    Pixel {
        r: data[ch * i],
        g: data[ch * i + 1],
        b: data[ch * i + 2],
        a: if ch == 4 { data[ch * i + 3] } else { 255u8 },
    }
}

/// The pixels of a raw buffer, in row-major order.
pub open spec fn pixels_of(data: Seq<u8>, ch: nat) -> Seq<Pixel> {
    Seq::new(data.len() / ch, |i: int| pixel_at(data, ch, i))
}

/// The number of raw bytes an image with header `h` holds.
pub open spec fn raw_size(h: Header) -> int {
    pixel_count(h) * h.channels as int
}

/// What encoding `data` under header `h` gives: the first header error, a
/// size mismatch, or header, chunks and end marker.
pub open spec fn encode_spec(data: Seq<u8>, h: Header) -> Result<Seq<u8>, Error> {
    match header_error(h) {
        Some(e) => Err(e),
        None => if data.len() != raw_size(h) {
            Err(Error::BadEncodingDataSize { size: data.len() as usize, expected: raw_size(h) as usize })
        } else {
            Ok(
                header_bytes(h) + encode_chunks(start_state(), pixels_of(data, h.channels as nat))
                    + end_marker(),
            )
        },
    }
}

/// The most bytes an image with header `h` can encode to: header, end marker,
/// a literal for every pixel, and, without alpha, one byte more for the first
/// pixel, which changes alpha from the transparent start.
pub open spec fn max_encoded_size(h: Header) -> int {
    HEADER_SIZE + END_MARKER_SIZE + pixel_count(h) * (h.channels + 1) + if h.channels == 3 {
        1int
    } else {
        0
    }
}

/// The cache after `px` has been encoded or decoded without a run.
pub open spec fn cache_after(cache: Seq<Pixel>, px: Pixel) -> Seq<Pixel> {
    if cache[hash_of(px)] == px {
        cache
    } else {
        cache.update(hash_of(px), px)
    }
}

fn delta(x: u8, y: u8, bias: u16) -> (r: u16)
    requires
        bias < 256,
    ensures
        r as int == biased_delta(x, y, bias as int),
        r < 256,
{
    proof {
        reveal(biased_delta);
        vstd::arithmetic::div_mod::lemma_mod_add_multiples_vanish(
            x as int - y as int + bias as int,
            256,
        );
    }
    (x as u16 + 256 + bias - y as u16) % 256
}

fn green_relative(x: u8, x_g: u8, y: u8, y_g: u8) -> (r: u16)
    ensures
        r as int == luma_delta(x, x_g, y, y_g),
        r < 256,
{
    let ghost v = (x as int - y as int) - (x_g as int - y_g as int) + 8;
    proof {
        reveal(luma_delta);
        vstd::arithmetic::div_mod::lemma_mod_add_multiples_vanish(v, 256);
        vstd::arithmetic::div_mod::lemma_mod_add_multiples_vanish(v + 256, 256);
    }
    (x as u16 + y_g as u16 + 520 - y as u16 - x_g as u16) % 256
}

/// Appends the chunk for a pixel that differs from `prev`, and files it in the
/// cache.
fn write_pixel_chunk(out: &mut Vec<u8>, cache: &mut Vec<Pixel>, prev: Pixel, px: Pixel)
    requires
        old(cache)@.len() == 64,
    ensures
        final(out)@ == old(out)@ + pixel_chunk(prev, old(cache)@, px),
        final(cache)@ == cache_after(old(cache)@, px),
{
    let h = px.hash_index();
    if cache[h] == px {
        out.push(OP_INDEX + h as u8);
        assert(final(out)@ =~= old(out)@ + pixel_chunk(prev, old(cache)@, px));
        return;
    }
    cache.set(h, px);
    if px.a != prev.a {
        out.push(OP_RGBA);
        out.push(px.r);
        out.push(px.g);
        out.push(px.b);
        out.push(px.a);
        assert(final(out)@ =~= old(out)@ + pixel_chunk(prev, old(cache)@, px));
        return;
    }
    let vr = delta(px.r, prev.r, 2);
    let vg = delta(px.g, prev.g, 2);
    let vb = delta(px.b, prev.b, 2);
    if vr < 4 && vg < 4 && vb < 4 {
        out.push((OP_DIFF as u16 + vr * 16 + vg * 4 + vb) as u8);
        assert(final(out)@ =~= old(out)@ + pixel_chunk(prev, old(cache)@, px));
        return;
    }
    let lg = delta(px.g, prev.g, 32);
    let lr = green_relative(px.r, px.g, prev.r, prev.g);
    let lb = green_relative(px.b, px.g, prev.b, prev.g);
    if lg < 64 && lr < 16 && lb < 16 {
        out.push((OP_LUMA as u16 + lg) as u8);
        out.push((lr * 16 + lb) as u8);
    } else {
        out.push(OP_RGB);
        out.push(px.r);
        out.push(px.g);
        out.push(px.b);
    }
    assert(final(out)@ =~= old(out)@ + pixel_chunk(prev, old(cache)@, px));
}

fn read_pixel(data: &[u8], ch: usize, off: usize) -> (p: Pixel)
    requires
        ch == 3 || ch == 4,
        off + ch <= data.len(),
    ensures
        p == (Pixel {
            r: data@[off as int],
            g: data@[off + 1],
            b: data@[off + 2],
            a: if ch == 4 { data@[off + 3] } else { 255u8 },
        }),
{
    let a = if ch == 4 { data[off + 3] } else { 255u8 };
    Pixel { r: data[off], g: data[off + 1], b: data[off + 2], a }
}

fn push_end_marker(out: &mut Vec<u8>)
    ensures
        final(out)@ == old(out)@ + end_marker(),
{
    let mut k: usize = 0;
    while k < 7
        invariant
            k <= 7,
            out@ == old(out)@ + Seq::new(k as nat, |j: int| 0u8),
        decreases 7 - k,
    {
        out.push(0u8);
        k += 1;
        assert(out@ =~= old(out)@ + Seq::new(k as nat, |j: int| 0u8));
    }
    out.push(1u8);
    assert(out@ =~= old(out)@ + end_marker());
}

/// Encodes a raw buffer of `width * height * channels` bytes under `header`
/// into a stream: header, chunks, end marker.
pub fn encode(data: &[u8], header: &Header) -> (r: Result<Vec<u8>, Error>)
    ensures
        match encode_spec(data@, *header) {
            Ok(bytes) => r is Ok && r->Ok_0@ == bytes,
            Err(e) => r == Err::<Vec<u8>, Error>(e),
        },
        header.channels != 3 && header.channels != 4 ==> r == Err::<Vec<u8>, Error>(
            Error::InvalidChannels { channels: header.channels },
        ),
        header_valid(*header) && data@.len() == raw_size(*header) ==> r is Ok,
        header.channels == 3 || header.channels == 4 ==> header.colorspace <= 1 ==> header.width > 0
            ==> header.height > 0 ==> pixel_count(*header) > PIXELS_MAX ==> r == Err::<Vec<u8>, Error>(
            Error::ImageTooLarge { width: header.width, height: header.height },
        ),
{
    match header.validate() {
        Err(e) => {
            return Err(e);
        },
        Ok(()) => {},
    }
    let n = header.n_pixels();
    let ch = header.channels as usize;
    proof {
        assert(n * ch <= PIXELS_MAX * 4) by (nonlinear_arith)
            requires
                n <= PIXELS_MAX,
                ch <= 4,
        ;
    }
    let n = n as usize;
    let expected = n * ch;
    if data.len() != expected {
        return Err(Error::BadEncodingDataSize { size: data.len(), expected });
    }
    let ghost pxs = pixels_of(data@, ch as nat);
    proof {
        vstd::arithmetic::div_mod::lemma_div_by_multiple(n as int, ch as int);
        assert(n * ch == ch * n) by (nonlinear_arith);
    }
    let ghost target = header_bytes(*header) + encode_chunks(start_state(), pxs) + end_marker();
    let mut out: Vec<u8> = Vec::new();
    header.write_to(&mut out);
    let mut cache: Vec<Pixel> = Vec::new();
    let zero = Pixel { r: 0, g: 0, b: 0, a: 0 };
    while cache.len() < 64
        invariant
            cache@.len() <= 64,
            forall|j: int| 0 <= j < cache@.len() ==> cache@[j] == zero,
        decreases 64 - cache@.len(),
    {
        cache.push(zero);
    }
    assert(cache@ =~= start_state().cache);
    let mut prev = zero;
    let mut run: u8 = 0;
    let mut i: usize = 0;
    let mut off: usize = 0;
    assert(pxs.subrange(0, n as int) =~= pxs);
    while i < n
        invariant
            ch == 3 || ch == 4,
            pxs.len() == n,
            data@.len() == n * ch,
            data.len() == n * ch,
            pxs == pixels_of(data@, ch as nat),
            i <= n,
            off == ch * i,
            cache@.len() == 64,
            run < RUN_MAX,
            out@ + encode_chunks(CodecState { prev, cache: cache@, run: run as nat }, pxs.subrange(i as int, n as int)) + end_marker() == target,
        decreases n - i,
    {
        proof {
            assert(ch * i + ch <= ch * n) by (nonlinear_arith)
                requires
                    i < n,
            ;
            assert(ch * n == n * ch) by (nonlinear_arith);
        }
        let px = read_pixel(data, ch, off);
        let ghost st = CodecState { prev, cache: cache@, run: run as nat };
        let ghost rest = pxs.subrange(i as int, n as int);
        let ghost out0 = out@;
        assert(px == pxs[i as int]);
        assert(rest[0] == px);
        assert(rest.drop_first() =~= pxs.subrange(i + 1, n as int));
        let ghost step = encode_step(st, px, i + 1 == n);
        if px == prev {
            run = run + 1;
            if run == RUN_MAX || i + 1 == n {
                out.push(OP_RUN + run - 1);
                run = 0;
            }
        } else {
            if run > 0 {
                out.push(OP_RUN + run - 1);
                run = 0;
            }
            write_pixel_chunk(&mut out, &mut cache, prev, px);
            prev = px;
        }
        assert(out@ =~= out0 + step.1);
        assert(step.0 == CodecState { prev, cache: cache@, run: run as nat });
        i = i + 1;
        off = off + ch;
    }
    push_end_marker(&mut out);
    assert(pxs.subrange(n as int, n as int) =~= Seq::<Pixel>::empty());
    assert(out@ =~= target);
    Ok(out)
}

/// Encodes into a buffer of the caller's, which must hold `max_encoded_size`
/// bytes; returns how many bytes were written. On an error the buffer is left
/// as it was.
pub fn encode_to_buf(data: &[u8], header: &Header, buf: &mut [u8]) -> (r: Result<usize, Error>)
    ensures
        final(buf)@.len() == old(buf)@.len(),
        match encode_spec(data@, *header) {
            Err(e) => r == Err::<usize, Error>(e) && final(buf)@ == old(buf)@,
            Ok(bytes) => if old(buf)@.len() < max_encoded_size(*header) {
                r == Err::<usize, Error>(
                    Error::OutputBufferTooSmall {
                        size: old(buf)@.len() as usize,
                        required: max_encoded_size(*header) as usize,
                    },
                ) && final(buf)@ == old(buf)@
            } else {
                r == Ok::<usize, Error>(bytes.len() as usize) && final(buf)@ == bytes + old(buf)@.subrange(
                    bytes.len() as int,
                    old(buf)@.len() as int,
                )
            },
        },
{
    match header.validate() {
        Err(e) => {
            return Err(e);
        },
        Ok(()) => {},
    }
    let n = header.n_pixels();
    let ch = header.channels as usize;
    proof {
        assert(n * (ch + 1) <= PIXELS_MAX * 5) by (nonlinear_arith)
            requires
                n <= PIXELS_MAX,
                ch <= 4,
        ;
        assert(n * ch <= n * (ch + 1)) by (nonlinear_arith);
    }
    let n = n as usize;
    let expected = n * ch;
    if data.len() != expected {
        return Err(Error::BadEncodingDataSize { size: data.len(), expected });
    }
    let required = HEADER_SIZE + END_MARKER_SIZE + n * (ch + 1) + if ch == 3 {
        1
    } else {
        0
    };
    if buf.len() < required {
        return Err(Error::OutputBufferTooSmall { size: buf.len(), required });
    }
    proof {
        crate::round_trip::lemma_encoded_size(data@, *header);
    }
    let bytes = match encode(data, header) {
        Ok(v) => v,
        Err(e) => {
            return Err(e);
        },
    };
    let mut k: usize = 0;
    while k < bytes.len()
        invariant
            k <= bytes@.len() <= buf@.len(),
            buf@.len() == old(buf)@.len(),
            forall|j: int| 0 <= j < k ==> buf@[j] == bytes@[j],
            forall|j: int| k <= j < buf@.len() ==> buf@[j] == old(buf)@[j],
        decreases bytes.len() - k,
    {
        buf[k] = bytes[k];
        k += 1;
    }
    assert(buf@ =~= bytes@ + old(buf)@.subrange(bytes@.len() as int, old(buf)@.len() as int));
    Ok(bytes.len())
}

} // verus!
