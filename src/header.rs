use vstd::prelude::*;
use crate::error::Error;

verus! {

/// The four magic bytes `qoif` read as a big-endian integer.
pub const MAGIC: u32 = 0x716f6966;
/// Size of the encoded header in bytes.
pub const HEADER_SIZE: usize = 14;
/// Size of the end marker in bytes.
pub const END_MARKER_SIZE: usize = 8;
/// The largest number of pixels an image may hold.
pub const PIXELS_MAX: u64 = 400_000_000;

/// Width, height, channel count (3 or 4) and color space tag (0 or 1).
#[derive(Clone, Copy, Debug, PartialEq, Eq, Structural)]
pub struct Header {
    pub width: u32,
    pub height: u32,
    pub channels: u8,
    pub colorspace: u8,
}

pub open spec fn pixel_count(h: Header) -> int {
    h.width as int * h.height as int
}

/// The error a header is refused with, checked in this order:
/// channel count, color space, emptiness, size.
pub open spec fn header_error(h: Header) -> Option<Error> {
    if h.channels != 3 && h.channels != 4 {
        Some(Error::InvalidChannels { channels: h.channels })
    } else if h.colorspace > 1 {
        Some(Error::InvalidColorSpace { colorspace: h.colorspace })
    } else if h.width == 0 || h.height == 0 {
        Some(Error::EmptyImage { width: h.width, height: h.height })
    } else if pixel_count(h) > PIXELS_MAX {
        Some(Error::ImageTooLarge { width: h.width, height: h.height })
    } else {
        None
    }
}

pub open spec fn header_valid(h: Header) -> bool {
    header_error(h) is None
}

/// Big-endian bytes of a 32-bit integer.
pub open spec fn be_bytes(x: u32) -> Seq<u8> {
    seq![(x >> 24) as u8, (x >> 16) as u8, (x >> 8) as u8, x as u8]
}

/// The integer that four big-endian bytes spell.
pub open spec fn be_value(b0: u8, b1: u8, b2: u8, b3: u8) -> u32 {
    (b0 as u32) << 24 | (b1 as u32) << 16 | (b2 as u32) << 8 | b3 as u32
}

pub open spec fn header_bytes(h: Header) -> Seq<u8> {
    be_bytes(MAGIC) + be_bytes(h.width) + be_bytes(h.height) + seq![h.channels, h.colorspace]
}

/// The header that the first 14 bytes of `b` spell (magic not checked).
pub open spec fn header_of(b: Seq<u8>) -> Header {
    Header {
        width: be_value(b[4], b[5], b[6], b[7]),
        height: be_value(b[8], b[9], b[10], b[11]),
        channels: b[12],
        colorspace: b[13],
    }
}

pub open spec fn magic_of(b: Seq<u8>) -> u32 {
    be_value(b[0], b[1], b[2], b[3])
}

pub proof fn lemma_be_round_trip(x: u32)
    ensures
        be_value(be_bytes(x)[0], be_bytes(x)[1], be_bytes(x)[2], be_bytes(x)[3]) == x,
{
    assert(((x >> 24) as u8 as u32) << 24 | ((x >> 16) as u8 as u32) << 16 | ((x >> 8) as u8 as u32)
        << 8 | (x as u8 as u32) == x) by (bit_vector);
}

/// Reading the bytes of a header back gives the header and the magic.
pub proof fn lemma_header_round_trip(h: Header)
    ensures
        header_bytes(h).len() == HEADER_SIZE,
        header_of(header_bytes(h)) == h,
        magic_of(header_bytes(h)) == MAGIC,
{
    lemma_be_round_trip(MAGIC);
    lemma_be_round_trip(h.width);
    lemma_be_round_trip(h.height);
    let b = header_bytes(h);
    assert(b[4] == be_bytes(h.width)[0] && b[5] == be_bytes(h.width)[1] && b[6] == be_bytes(h.width)[2]
        && b[7] == be_bytes(h.width)[3]);
    assert(b[8] == be_bytes(h.height)[0] && b[9] == be_bytes(h.height)[1] && b[10] == be_bytes(
        h.height,
    )[2] && b[11] == be_bytes(h.height)[3]);
}

fn push_be(out: &mut Vec<u8>, x: u32)
    ensures
        final(out)@ == old(out)@ + be_bytes(x),
{
    out.push((x >> 24) as u8);
    out.push((x >> 16) as u8);
    out.push((x >> 8) as u8);
    out.push(x as u8);
    assert(final(out)@ =~= old(out)@ + be_bytes(x));
}

fn read_be(b0: u8, b1: u8, b2: u8, b3: u8) -> (r: u32)
    ensures
        r == be_value(b0, b1, b2, b3),
{
    (b0 as u32) << 24 | (b1 as u32) << 16 | (b2 as u32) << 8 | b3 as u32
}

impl Header {
    pub fn new(width: u32, height: u32, channels: u8, colorspace: u8) -> (h: Header)
        ensures
            h == (Header { width, height, channels, colorspace }),
    {
        Header { width, height, channels, colorspace }
    }

    /// Number of pixels, `width * height`.
    pub fn n_pixels(&self) -> (n: u64)
        ensures
            n as int == pixel_count(*self),
    {
        proof {
            vstd::arithmetic::mul::lemma_mul_upper_bound(
                self.width as int,
                u32::MAX as int,
                self.height as int,
                u32::MAX as int,
            );
        }
        self.width as u64 * self.height as u64
    }

    /// Checks the header's fields; returns the first error of `header_error`.
    pub fn validate(&self) -> (r: Result<(), Error>)
        ensures
            match header_error(*self) {
                Some(e) => r == Err::<(), Error>(e),
                None => r is Ok,
            },
    {
        if self.channels != 3 && self.channels != 4 {
            Err(Error::InvalidChannels { channels: self.channels })
        } else if self.colorspace > 1 {
            Err(Error::InvalidColorSpace { colorspace: self.colorspace })
        } else if self.width == 0 || self.height == 0 {
            Err(Error::EmptyImage { width: self.width, height: self.height })
        } else if self.n_pixels() > PIXELS_MAX {
            Err(Error::ImageTooLarge { width: self.width, height: self.height })
        } else {
            Ok(())
        }
    }

    /// Appends the 14 header bytes to `out`.
    pub fn write_to(&self, out: &mut Vec<u8>)
        ensures
            final(out)@ == old(out)@ + header_bytes(*self),
    {
        push_be(out, MAGIC);
        push_be(out, self.width);
        push_be(out, self.height);
        out.push(self.channels);
        out.push(self.colorspace);
        assert(final(out)@ =~= old(out)@ + header_bytes(*self));
    }

    /// Reads the header fields from the first 14 bytes (magic not checked).
    pub fn read_from(b: &[u8]) -> (h: Header)
        requires
            b@.len() >= HEADER_SIZE,
        ensures
            h == header_of(b@),
    {
        Header {
            width: read_be(b[4], b[5], b[6], b[7]),
            height: read_be(b[8], b[9], b[10], b[11]),
            channels: b[12],
            colorspace: b[13],
        }
    }
}

pub fn read_magic(b: &[u8]) -> (m: u32)
    requires
        b@.len() >= HEADER_SIZE,
    ensures
        m == magic_of(b@),
{
    read_be(b[0], b[1], b[2], b[3])
}

} // verus!
