use vstd::prelude::*;
use crate::pixel::{Pixel, hash_of};

verus! {

pub const OP_INDEX: u8 = 0x00;
pub const OP_DIFF: u8 = 0x40;
pub const OP_LUMA: u8 = 0x80;
pub const OP_RUN: u8 = 0xc0;
pub const OP_RGB: u8 = 0xfe;
pub const OP_RGBA: u8 = 0xff;
/// Longest run one chunk can carry; the two larger lengths would spell the
/// literal tags.
pub const RUN_MAX: u8 = 62;

/// What both directions carry from one pixel to the next: the previous pixel,
/// the 64-slot color cache, and the length of the run in progress.
pub struct CodecState {
    pub prev: Pixel,
    pub cache: Seq<Pixel>,
    pub run: nat,
}

/// The previous pixel a pass starts from: all channels zero, fully
/// transparent.
pub open spec fn start_pixel() -> Pixel {
    Pixel { r: 0, g: 0, b: 0, a: 0 }
}

/// What every cache slot holds before it is first written: all channels zero.
pub open spec fn unseen_pixel() -> Pixel {
    Pixel { r: 0, g: 0, b: 0, a: 0 }
}

pub open spec fn start_state() -> CodecState {
    CodecState { prev: start_pixel(), cache: Seq::new(64, |i: int| unseen_pixel()), run: 0 }
}

pub open spec fn state_wf(st: CodecState) -> bool {
    st.cache.len() == 64
}

/// `x - y` as a wrapped 8-bit difference, shifted up by `bias`.
#[verifier::opaque]
pub open spec fn biased_delta(x: u8, y: u8, bias: int) -> int {
    (x as int - y as int + bias) % 256
}

pub open spec fn fits_diff(prev: Pixel, px: Pixel) -> bool {
    &&& biased_delta(px.r, prev.r, 2) < 4
    &&& biased_delta(px.g, prev.g, 2) < 4
    &&& biased_delta(px.b, prev.b, 2) < 4
}

/// Red (or blue) delta minus green delta, wrapped and shifted by 8.
#[verifier::opaque]
pub open spec fn luma_delta(x: u8, px_g: u8, y: u8, prev_g: u8) -> int {
    ((x as int - y as int) - (px_g as int - prev_g as int) + 8) % 256
}

pub open spec fn fits_luma(prev: Pixel, px: Pixel) -> bool {
    &&& biased_delta(px.g, prev.g, 32) < 64
    &&& luma_delta(px.r, px.g, prev.r, prev.g) < 16
    &&& luma_delta(px.b, px.g, prev.b, prev.g) < 16
}

pub open spec fn run_chunk(len: nat) -> u8 {
    (OP_RUN as int + len - 1) as u8
}

/// The chunk that encodes `px` when it differs from the previous pixel, in the
/// order of precedence: cache hit, small delta, luma delta, literal.
pub open spec fn pixel_chunk(prev: Pixel, cache: Seq<Pixel>, px: Pixel) -> Seq<u8> {
    let h = hash_of(px);
    if cache[h] == px {
        seq![(OP_INDEX as int + h) as u8]
    } else if px.a != prev.a {
        seq![OP_RGBA, px.r, px.g, px.b, px.a]
    } else if fits_diff(prev, px) {
        seq![
            (OP_DIFF as int + biased_delta(px.r, prev.r, 2) * 16 + biased_delta(px.g, prev.g, 2) * 4
                + biased_delta(px.b, prev.b, 2)) as u8,
        ]
    } else if fits_luma(prev, px) {
        seq![
            (OP_LUMA as int + biased_delta(px.g, prev.g, 32)) as u8,
            (luma_delta(px.r, px.g, prev.r, prev.g) * 16 + luma_delta(px.b, px.g, prev.b, prev.g)) as u8,
        ]
    } else {
        seq![OP_RGB, px.r, px.g, px.b]
    }
}

/// One encoder step: the new state and the bytes emitted for pixel `px`;
/// `last` tells whether it ends the image.
pub open spec fn encode_step(st: CodecState, px: Pixel, last: bool) -> (CodecState, Seq<u8>) {
    if px == st.prev {
        let run = st.run + 1;
        if run == RUN_MAX || last {
            (CodecState { run: 0, ..st }, seq![run_chunk(run)])
        } else {
            (CodecState { run, ..st }, Seq::empty())
        }
    } else {
        let flush = if st.run > 0 { seq![run_chunk(st.run)] } else { Seq::<u8>::empty() };
        let h = hash_of(px);
        let cache = if st.cache[h] == px { st.cache } else { st.cache.update(h, px) };
        (CodecState { prev: px, cache, run: 0 }, flush + pixel_chunk(st.prev, st.cache, px))
    }
}

/// The chunks that encode `pxs` from state `st`, the last pixel of `pxs`
/// ending the image.
pub open spec fn encode_chunks(st: CodecState, pxs: Seq<Pixel>) -> Seq<u8>
    decreases pxs.len(),
{
    if pxs.len() == 0 {
        Seq::empty()
    } else {
        let (st2, out) = encode_step(st, pxs[0], pxs.len() == 1);
        out + encode_chunks(st2, pxs.drop_first())
    }
}

/// `x + d` wrapped to 8 bits.
pub open spec fn wrap_add(x: u8, d: int) -> u8 {
    ((x as int + d) % 256) as u8
}

/// The pixel after `prev` that a one-byte delta chunk `b` spells.
pub open spec fn diff_pixel(prev: Pixel, b: u8) -> Pixel {
    Pixel {
        r: wrap_add(prev.r, (b as int / 16) % 4 - 2),
        g: wrap_add(prev.g, (b as int / 4) % 4 - 2),
        b: wrap_add(prev.b, b as int % 4 - 2),
        a: prev.a,
    }
}

/// The pixel after `prev` that a luma chunk `b1 b2` spells.
pub open spec fn luma_pixel(prev: Pixel, b1: u8, b2: u8) -> Pixel {
    let dg = b1 as int % 64 - 32;
    Pixel {
        r: wrap_add(prev.r, dg - 8 + b2 as int / 16),
        g: wrap_add(prev.g, dg),
        b: wrap_add(prev.b, dg - 8 + b2 as int % 16),
        a: prev.a,
    }
}

/// A decoded pixel becomes the previous pixel and fills its cache slot.
pub open spec fn after_pixel(st: CodecState, px: Pixel) -> CodecState {
    CodecState { prev: px, cache: st.cache.update(hash_of(px), px), run: 0 }
}

/// Reads the chunk at `pos` when no run is pending: the new state, the pixel,
/// and the position after the chunk; `None` where the chunk runs past the end
/// of `data`.
#[verifier::opaque]
pub open spec fn decode_chunk(st: CodecState, data: Seq<u8>, pos: int) -> Option<
    (CodecState, Pixel, int),
> {
    if pos < 0 || pos >= data.len() {
        None
    } else {
        let b = data[pos];
        if b == OP_RGB {
            if pos + 4 > data.len() {
                None
            } else {
                let px = Pixel { r: data[pos + 1], g: data[pos + 2], b: data[pos + 3], a: st.prev.a };
                Some((after_pixel(st, px), px, pos + 4))
            }
        } else if b == OP_RGBA {
            if pos + 5 > data.len() {
                None
            } else {
                let px = Pixel {
                    r: data[pos + 1],
                    g: data[pos + 2],
                    b: data[pos + 3],
                    a: data[pos + 4],
                };
                Some((after_pixel(st, px), px, pos + 5))
            }
        } else if b < OP_DIFF {
            let px = st.cache[b as int];
            Some((CodecState { prev: px, ..st }, px, pos + 1))
        } else if b < OP_LUMA {
            let px = diff_pixel(st.prev, b);
            Some((after_pixel(st, px), px, pos + 1))
        } else if b < OP_RUN {
            if pos + 2 > data.len() {
                None
            } else {
                let px = luma_pixel(st.prev, b, data[pos + 1]);
                Some((after_pixel(st, px), px, pos + 2))
            }
        } else {
            Some((CodecState { run: (b - OP_RUN) as nat, ..st }, st.prev, pos + 1))
        }
    }
}

/// The step that produces one pixel: from the pending run if there is one,
/// else from the chunk at `pos`.
pub open spec fn next_pixel(st: CodecState, data: Seq<u8>, pos: int) -> Option<(CodecState, Pixel, int)> {
    if st.run > 0 {
        Some((CodecState { run: (st.run - 1) as nat, ..st }, st.prev, pos))
    } else {
        decode_chunk(st, data, pos)
    }
}

/// Decodes `n` pixels from `data` at `pos`: the pixels and the position after
/// the last chunk read; `None` where a chunk runs past the end of `data`.
pub open spec fn decode_pixels(st: CodecState, data: Seq<u8>, pos: int, n: nat) -> Option<
    (Seq<Pixel>, int),
>
    decreases n,
{
    if n == 0 {
        Some((Seq::empty(), pos))
    } else {
        let next = next_pixel(st, data, pos);
        match next {
            None => None,
            Some((st2, px, pos2)) => match decode_pixels(st2, data, pos2, (n - 1) as nat) {
                None => None,
                Some((rest, end)) => Some((seq![px] + rest, end)),
            },
        }
    }
}

/// `x - y` as a signed 8-bit difference, in `-128..=127`.
pub open spec fn signed_delta(x: u8, y: u8) -> int {
    let d = (x as int - y as int) % 256;
    if d >= 128 {
        d - 256
    } else {
        d
    }
}

pub open spec fn in_diff_range(prev: Pixel, px: Pixel) -> bool {
    &&& -2 <= signed_delta(px.r, prev.r) <= 1
    &&& -2 <= signed_delta(px.g, prev.g) <= 1
    &&& -2 <= signed_delta(px.b, prev.b) <= 1
}

proof fn lemma_diff_range(x: u8, y: u8)
    ensures
        biased_delta(x, y, 2) < 4 <==> -2 <= signed_delta(x, y) <= 1,
        0 <= biased_delta(x, y, 2) < 256,
{
    reveal(biased_delta);
    let v = x as int - y as int;
    if v >= 0 {
        assert(v % 256 == v);
        if v <= 253 {
            assert((v + 2) % 256 == v + 2);
        } else {
            assert((v + 2) % 256 == v + 2 - 256);
        }
    } else {
        assert(v % 256 == v + 256);
        if v >= -2 {
            assert((v + 2) % 256 == v + 2);
        } else {
            assert((v + 2) % 256 == v + 2 + 256);
        }
    }
}

/// A pixel that misses the cache and keeps alpha is written as a one-byte
/// delta chunk exactly when each of its red, green and blue deltas lies in
/// `-2..=1`; otherwise it falls to a two-byte luma chunk or a literal.
pub proof fn lemma_diff_boundary(prev: Pixel, cache: Seq<Pixel>, px: Pixel)
    requires
        cache.len() == 64,
        cache[hash_of(px)] != px,
        px.a == prev.a,
    ensures
        in_diff_range(prev, px) <==> (pixel_chunk(prev, cache, px).len() == 1 && OP_DIFF
            <= pixel_chunk(prev, cache, px)[0] < OP_LUMA),
        !in_diff_range(prev, px) ==> (if fits_luma(prev, px) {
            pixel_chunk(prev, cache, px).len() == 2 && OP_LUMA <= pixel_chunk(prev, cache, px)[0]
                < OP_RUN
        } else {
            pixel_chunk(prev, cache, px) == seq![OP_RGB, px.r, px.g, px.b]
        }),
{
    lemma_diff_range(px.r, prev.r);
    lemma_diff_range(px.g, prev.g);
    lemma_diff_range(px.b, prev.b);
    reveal(biased_delta);
}

/// An index chunk is written for a pixel only when its cache slot holds that
/// very pixel, so a different pixel sharing the slot is never read back from it.
pub proof fn lemma_index_only_on_hit(prev: Pixel, cache: Seq<Pixel>, px: Pixel)
    requires
        cache.len() == 64,
        px != prev,
    ensures
        pixel_chunk(prev, cache, px)[0] < OP_DIFF <==> cache[hash_of(px)] == px,
        cache[hash_of(px)] == px ==> pixel_chunk(prev, cache, px) == seq![hash_of(px) as u8],
{
    reveal(biased_delta);
    reveal(luma_delta);
}

} // verus!
