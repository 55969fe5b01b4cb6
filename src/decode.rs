use vstd::prelude::*;
use crate::chunk::{
    CodecState, next_pixel, OP_DIFF, OP_LUMA, OP_RGB, OP_RGBA, OP_RUN, after_pixel, decode_chunk,
    decode_pixels, diff_pixel, luma_pixel, start_state, wrap_add,
};
use crate::encode::end_marker;
use crate::error::Error;
use crate::header::{
    END_MARKER_SIZE, HEADER_SIZE, Header, MAGIC, header_error, header_of, magic_of, pixel_count,
    read_magic,
};
use crate::pixel::{Pixel, hash_of};

verus! {

/// The raw bytes of one pixel: red, green, blue, and alpha when `ch` is 4.
pub open spec fn pixel_bytes(px: Pixel, ch: nat) -> Seq<u8> {
    if ch == 4 {
        seq![px.r, px.g, px.b, px.a]
    } else {
        seq![px.r, px.g, px.b]
    }
}

/// The raw buffer of a pixel sequence, `ch` bytes per pixel.
pub open spec fn bytes_of(pxs: Seq<Pixel>, ch: nat) -> Seq<u8>
    decreases pxs.len(),
{
    if pxs.len() == 0 {
        Seq::empty()
    } else {
        bytes_of(pxs.drop_last(), ch) + pixel_bytes(pxs.last(), ch)
    }
}

/// The smallest stream there is: a header and an end marker.
pub open spec fn min_stream_size() -> int {
    HEADER_SIZE + END_MARKER_SIZE
}

/// What decoding a stream gives: the raw pixels and the header, or the first
/// error met; the color space is checked before the rest of the header.
/// Chunks are read until the header's pixel count is reached; one
/// that runs past the end of the data is `UnexpectedBufferEnd`, and what
/// follows the last chunk must be exactly the end marker.
pub open spec fn decode_spec(data: Seq<u8>) -> Result<(Seq<u8>, Header), Error> {
    if data.len() < min_stream_size() {
        Err(Error::InputBufferTooSmall { size: data.len() as usize, required: min_stream_size() as usize })
    } else if magic_of(data) != MAGIC {
        Err(Error::InvalidMagic { magic: magic_of(data) })
    } else if header_of(data).colorspace > 1 {
        Err(Error::InvalidColorSpace { colorspace: header_of(data).colorspace })
    } else {
        let h = header_of(data);
        match header_error(h) {
            Some(e) => Err(e),
            None => match decode_pixels(start_state(), data, HEADER_SIZE as int, pixel_count(h) as nat) {
                None => Err(Error::UnexpectedBufferEnd),
                Some((pxs, end)) => if data.subrange(end, data.len() as int) == end_marker() {
                    Ok((bytes_of(pxs, h.channels as nat), h))
                } else {
                    Err(Error::InvalidPadding)
                },
            },
        }
    }
}

/// `x + d - bias` wrapped to 8 bits.
fn add_wrapped(x: u8, d: u16, bias: u16) -> (r: u8)
    requires
        d < 256,
        bias <= 256,
    ensures
        r == wrap_add(x, d - bias),
{
    proof {
        vstd::arithmetic::div_mod::lemma_mod_add_multiples_vanish(x as int + d - bias, 256);
    }
    ((x as u16 + d + 256 - bias) % 256) as u8
}

/// Reads the chunk at `pos` when no run is pending; on success the cache and
/// `run` hold the new state's.
fn read_chunk(data: &[u8], pos: usize, prev: Pixel, cache: &mut Vec<Pixel>, run: &mut u8) -> (r:
    Option<(Pixel, usize)>)
    requires
        old(cache)@.len() == 64,
    ensures
        match decode_chunk(CodecState { prev, cache: old(cache)@, run: 0 }, data@, pos as int) {
            None => r is None,
            Some((st, px, p)) => r matches Some((q, e)) && q == px && e as int == p && final(cache)@ == st.cache
                && *final(run) as nat == st.run && st.prev == px,
        },
        final(cache)@.len() == 64,
        r matches Some((_, p)) ==> p <= data@.len(),
{
    let ghost st = CodecState { prev, cache: cache@, run: 0 };
    reveal(decode_chunk);
    if pos >= data.len() {
        return None;
    }
    let b = data[pos];
    if b == OP_RGB {
        if data.len() - pos < 4 {
            return None;
        }
        let px = Pixel { r: data[pos + 1], g: data[pos + 2], b: data[pos + 3], a: prev.a };
        cache.set(px.hash_index(), px);
        *run = 0;
        Some((px, pos + 4))
    } else if b == OP_RGBA {
        if data.len() - pos < 5 {
            return None;
        }
        let px = Pixel { r: data[pos + 1], g: data[pos + 2], b: data[pos + 3], a: data[pos + 4] };
        cache.set(px.hash_index(), px);
        *run = 0;
        Some((px, pos + 5))
    } else if b < OP_DIFF {
        let px = cache[b as usize];
        *run = 0;
        Some((px, pos + 1))
    } else if b < OP_LUMA {
        let px = Pixel {
            r: add_wrapped(prev.r, (b as u16 / 16) % 4, 2),
            g: add_wrapped(prev.g, (b as u16 / 4) % 4, 2),
            b: add_wrapped(prev.b, b as u16 % 4, 2),
            a: prev.a,
        };
        assert(px == diff_pixel(prev, b));
        cache.set(px.hash_index(), px);
        *run = 0;
        Some((px, pos + 1))
    } else if b < OP_RUN {
        if data.len() - pos < 2 {
            return None;
        }
        let b2 = data[pos + 1];
        let dg = b as u16 % 64;
        let px = Pixel {
            r: add_wrapped(prev.r, dg + b2 as u16 / 16, 40),
            g: add_wrapped(prev.g, dg, 32),
            b: add_wrapped(prev.b, dg + b2 as u16 % 16, 40),
            a: prev.a,
        };
        assert(px == luma_pixel(prev, b, b2));
        cache.set(px.hash_index(), px);
        *run = 0;
        Some((px, pos + 2))
    } else {
        *run = b - OP_RUN;
        Some((prev, pos + 1))
    }
}

/// Puts decoded pixels in front of what the rest of the stream decodes to.
pub open spec fn prepend(done: Seq<Pixel>, rest: Option<(Seq<Pixel>, int)>) -> Option<(Seq<Pixel>, int)> {
    match rest {
        None => None,
        Some((pxs, end)) => Some((done + pxs, end)),
    }
}

fn push_pixel(out: &mut Vec<u8>, px: Pixel, ch: usize)
    requires
        ch == 3 || ch == 4,
    ensures
        final(out)@ == old(out)@ + pixel_bytes(px, ch as nat),
{
    out.push(px.r);
    out.push(px.g);
    out.push(px.b);
    if ch == 4 {
        out.push(px.a);
    }
    assert(final(out)@ =~= old(out)@ + pixel_bytes(px, ch as nat));
}

fn is_end_marker(data: &[u8], pos: usize) -> (r: bool)
    requires
        pos <= data@.len(),
    ensures
        r == (data@.subrange(pos as int, data@.len() as int) == end_marker()),
{
    if data.len() - pos != 8 {
        assert(data@.subrange(pos as int, data@.len() as int).len() != end_marker().len());
        return false;
    }
    let r = data[pos] == 0 && data[pos + 1] == 0 && data[pos + 2] == 0 && data[pos + 3] == 0
        && data[pos + 4] == 0 && data[pos + 5] == 0 && data[pos + 6] == 0 && data[pos + 7] == 1;
    if r {
        assert(data@.subrange(pos as int, data@.len() as int) =~= end_marker());
    } else {
        assert(data@.subrange(pos as int, data@.len() as int) != end_marker()) by {
            let t = data@.subrange(pos as int, data@.len() as int);
            assert(t[0] == data@[pos as int] && t[1] == data@[pos + 1] && t[2] == data@[pos + 2]
                && t[3] == data@[pos + 3] && t[4] == data@[pos + 4] && t[5] == data@[pos + 5]
                && t[6] == data@[pos + 6] && t[7] == data@[pos + 7]);
        }
    }
    r
}

/// Decodes a stream into its raw pixels (`channels` bytes each, as the header
/// says) and its header.
pub fn decode(data: &[u8]) -> (r: Result<(Vec<u8>, Header), Error>)
    ensures
        match decode_spec(data@) {
            Ok((bytes, h)) => r is Ok && r->Ok_0.0@ == bytes && r->Ok_0.1 == h,
            Err(e) => r == Err::<(Vec<u8>, Header), Error>(e),
        },
{
    if data.len() < HEADER_SIZE + END_MARKER_SIZE {
        return Err(
            Error::InputBufferTooSmall { size: data.len(), required: HEADER_SIZE + END_MARKER_SIZE },
        );
    }
    let magic = read_magic(data);
    if magic != MAGIC {
        return Err(Error::InvalidMagic { magic });
    }
    let header = Header::read_from(data);
    if header.colorspace > 1 {
        return Err(Error::InvalidColorSpace { colorspace: header.colorspace });
    }
    match header.validate() {
        Err(e) => {
            return Err(e);
        },
        Ok(()) => {},
    }
    let n = header.n_pixels() as usize;
    let ch = header.channels as usize;
    assert(header == header_of(data@));
    assert(n as int == pixel_count(header));
    assert(data@.len() >= min_stream_size());
    assert(magic_of(data@) == MAGIC);
    assert(header_error(header_of(data@)) is None);
    let ghost total = decode_pixels(start_state(), data@, HEADER_SIZE as int, n as nat);
    let mut out: Vec<u8> = Vec::new();
    let mut cache: Vec<Pixel> = Vec::new();
    let zero = Pixel { r: 0, g: 0, b: 0, a: 0 };
    while cache.len() < 64
        invariant
            cache@.len() <= 64,
            forall|j: int| 0 <= j < cache@.len() ==> cache@[j] == zero,
        decreases 64 - cache@.len(),
    {
        cache.push(zero);
    }
    assert(cache@ =~= start_state().cache);
    let mut prev = zero;
    let mut run: u8 = 0;
    let mut pos: usize = HEADER_SIZE;
    let mut i: usize = 0;
    let ghost mut done: Seq<Pixel> = Seq::empty();
    assert(done + Seq::<Pixel>::empty() =~= Seq::<Pixel>::empty());
    while i < n
        invariant
            ch == 3 || ch == 4,
            ch == header.channels,
            data@.len() >= min_stream_size(),
            magic_of(data@) == MAGIC,
            header == header_of(data@),
            header.colorspace <= 1,
            header_error(header) is None,
            total == decode_pixels(start_state(), data@, HEADER_SIZE as int, pixel_count(header) as nat),
            i <= n,
            cache@.len() == 64,
            pos <= data@.len(),
            out@ == bytes_of(done, ch as nat),
            total == prepend(done, decode_pixels(CodecState { prev, cache: cache@, run: run as nat }, data@, pos as int, (n - i) as nat)),
        decreases n - i,
    {
        let ghost st = CodecState { prev, cache: cache@, run: run as nat };
        let ghost d0 = done;
        let ghost old_pos = pos;
        let px;
        if run > 0 {
            run = run - 1;
            px = prev;
        } else {
            match read_chunk(data, pos, prev, &mut cache, &mut run) {
                None => {
                    assert(next_pixel(st, data@, pos as int) is None);
                    assert(decode_pixels(st, data@, pos as int, (n - i) as nat) is None);
                    assert(total is None);
                    assert(decode_spec(data@) == Err::<(Seq<u8>, Header), Error>(Error::UnexpectedBufferEnd));
                    return Err(Error::UnexpectedBufferEnd);
                },
                Some((p, next)) => {
                    px = p;
                    pos = next;
                    prev = p;
                },
            }
        }
        push_pixel(&mut out, px, ch);
        proof {
            let st2 = CodecState { prev, cache: cache@, run: run as nat };
            assert(next_pixel(st, data@, old_pos as int) == Some((st2, px, pos as int)));
            done = done.push(px);
            assert(done.drop_last() =~= d0);
            let rest = decode_pixels(CodecState { prev, cache: cache@, run: run as nat }, data@, pos as int, (n - i - 1) as nat);
            match rest {
                None => {},
                Some((ps, e)) => {
                    assert(d0 + (seq![px] + ps) =~= done + ps);
                },
            }
        }
        i = i + 1;
    }
    assert(done + Seq::<Pixel>::empty() =~= done);
    if !is_end_marker(data, pos) {
        return Err(Error::InvalidPadding);
    }
    Ok((out, header))
}

} // verus!
