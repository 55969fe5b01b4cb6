use std::fmt::Write;
use vstd::prelude::*;
use crate::header::PIXELS_MAX;

verus! {

/// Declares `std::io::Error` so that an I/O failure of a collaborator can be
/// carried through this crate's error type unchanged.
#[verifier::external_type_specification]
#[verifier::external_body]
pub struct ExIoError(std::io::Error);

/// Every condition under which encoding or decoding is refused.
#[derive(Debug)]
pub enum Error {
    InvalidChannels { channels: u8 },
    EmptyImage { width: u32, height: u32 },
    ImageTooLarge { width: u32, height: u32 },
    BadEncodingDataSize { size: usize, expected: usize },
    InputBufferTooSmall { size: usize, required: usize },
    OutputBufferTooSmall { size: usize, required: usize },
    InvalidMagic { magic: u32 },
    UnexpectedBufferEnd,
    InvalidColorSpace { colorspace: u8 },
    InvalidPadding,
    IoError(std::io::Error),
}

pub type Result<T> = core::result::Result<T, Error>;

impl From<std::io::Error> for Error {
    fn from(err: std::io::Error) -> (r: Error)
        ensures
            r == Error::IoError(err),
    {
        Error::IoError(err)
    }
}

impl vstd::std_specs::convert::FromSpecImpl<std::io::Error> for Error {
    open spec fn obeys_from_spec() -> bool {
        true
    }

    open spec fn from_spec(err: std::io::Error) -> Error {
        Error::IoError(err)
    }
}

/// The decimal digit `d` as text.
pub open spec fn digit_text(d: nat) -> Seq<char> {
    if d == 0 { "0"@ }
    else if d == 1 { "1"@ }
    else if d == 2 { "2"@ }
    else if d == 3 { "3"@ }
    else if d == 4 { "4"@ }
    else if d == 5 { "5"@ }
    else if d == 6 { "6"@ }
    else if d == 7 { "7"@ }
    else if d == 8 { "8"@ }
    else { "9"@ }
}

/// `n` written in decimal, without leading zeros.
pub open spec fn decimal(n: nat) -> Seq<char>
    decreases n,
{
    if n < 10 {
        digit_text(n)
    } else {
        decimal(n / 10) + digit_text(n % 10)
    }
}

fn digit_str(d: u64) -> (s: &'static str)
    requires
        d < 10,
    ensures
        s@ == digit_text(d as nat),
{
    if d == 0 { "0" }
    else if d == 1 { "1" }
    else if d == 2 { "2" }
    else if d == 3 { "3" }
    else if d == 4 { "4" }
    else if d == 5 { "5" }
    else if d == 6 { "6" }
    else if d == 7 { "7" }
    else if d == 8 { "8" }
    else { "9" }
}

/// Appends `n` in decimal.
fn push_decimal(s: &mut String, n: u64)
    ensures
        final(s)@ == old(s)@ + decimal(n as nat),
    decreases n,
{
    if n >= 10 {
        push_decimal(s, n / 10);
    }
    s.append(digit_str(n % 10));
    proof {
        if n >= 10 {
            assert(final(s)@ =~= old(s)@ + decimal(n as nat));
        }
    }
}

/// The largest image, in millions of pixels, as its message states it.
pub const MEGAPIXELS_MAX: u64 = PIXELS_MAX / 1_000_000;

/// The text that describes an error; for an I/O error, what follows the
/// prefix is the underlying error's own description.
pub open spec fn message_of(e: Error) -> Seq<char> {
    match e {
        Error::InvalidChannels { channels } => "invalid number of channels: "@ + decimal(channels as nat),
        Error::EmptyImage { width, height } => "image contains no pixels: "@ + decimal(width as nat) + "x"@
            + decimal(height as nat),
        Error::ImageTooLarge { width, height } => "image is too large: "@ + decimal(width as nat) + "x"@
            + decimal(height as nat) + " (max="@ + decimal(MEGAPIXELS_MAX as nat) + "Mp)"@,
        Error::BadEncodingDataSize { size, expected } => "bad data size when encoding: "@ + decimal(
            size as nat,
        ) + " (expected: "@ + decimal(expected as nat) + ")"@,
        Error::InputBufferTooSmall { size, required } => "input buffer size too small: "@ + decimal(
            size as nat,
        ) + " (minimum required: "@ + decimal(required as nat) + ")"@,
        Error::OutputBufferTooSmall { size, required } => "output buffer size too small: "@ + decimal(
            size as nat,
        ) + " (minimum required: "@ + decimal(required as nat) + ")"@,
        Error::InvalidMagic { magic } => "invalid magic: expected "@ + decimal(
            crate::header::MAGIC as nat,
        ) + ", got "@ + decimal(magic as nat),
        Error::UnexpectedBufferEnd => "unexpected input buffer end while decoding"@,
        Error::InvalidColorSpace { colorspace } => "invalid color space: "@ + decimal(colorspace as nat)
            + " (expected 0 or 1)"@,
        Error::InvalidPadding => "invalid padding (stream end marker)"@,
        Error::IoError(_) => "i/o error: "@,
    }
}

/// Relies on `std::io::Error`'s `Display`: its description as text, or `None`
/// where formatting reports an error. Nothing is stated of the text, which may
/// come from the operating system.
#[verifier::external_body]
fn io_error_text(err: &std::io::Error) -> (s: Option<String>) {
    let mut s = String::new();
    match write!(s, "{}", err) {
        Ok(()) => Some(s),
        Err(_) => None,
    }
}

impl Error {
    /// Describes the error in one line of text.
    pub fn message(&self) -> (s: String)
        ensures
            match *self {
                Error::IoError(_) => s@.len() >= message_of(*self).len() && s@.subrange(
                    0,
                    message_of(*self).len() as int,
                ) == message_of(*self),
                _ => s@ == message_of(*self),
            },
    {
        match self {
            Error::InvalidChannels { channels } => {
                let mut s = String::from_str("invalid number of channels: ");
                push_decimal(&mut s, *channels as u64);
                s
            },
            Error::EmptyImage { width, height } => {
                let mut s = String::from_str("image contains no pixels: ");
                push_decimal(&mut s, *width as u64);
                s.append("x");
                push_decimal(&mut s, *height as u64);
                s
            },
            Error::ImageTooLarge { width, height } => {
                let mut s = String::from_str("image is too large: ");
                push_decimal(&mut s, *width as u64);
                s.append("x");
                push_decimal(&mut s, *height as u64);
                s.append(" (max=");
                push_decimal(&mut s, MEGAPIXELS_MAX);
                s.append("Mp)");
                s
            },
            Error::BadEncodingDataSize { size, expected } => {
                let mut s = String::from_str("bad data size when encoding: ");
                push_decimal(&mut s, *size as u64);
                s.append(" (expected: ");
                push_decimal(&mut s, *expected as u64);
                s.append(")");
                s
            },
            Error::InputBufferTooSmall { size, required } => {
                let mut s = String::from_str("input buffer size too small: ");
                push_decimal(&mut s, *size as u64);
                s.append(" (minimum required: ");
                push_decimal(&mut s, *required as u64);
                s.append(")");
                s
            },
            Error::OutputBufferTooSmall { size, required } => {
                let mut s = String::from_str("output buffer size too small: ");
                push_decimal(&mut s, *size as u64);
                s.append(" (minimum required: ");
                push_decimal(&mut s, *required as u64);
                s.append(")");
                s
            },
            Error::InvalidMagic { magic } => {
                let mut s = String::from_str("invalid magic: expected ");
                push_decimal(&mut s, crate::header::MAGIC as u64);
                s.append(", got ");
                push_decimal(&mut s, *magic as u64);
                s
            },
            Error::UnexpectedBufferEnd => String::from_str("unexpected input buffer end while decoding"),
            Error::InvalidColorSpace { colorspace } => {
                let mut s = String::from_str("invalid color space: ");
                push_decimal(&mut s, *colorspace as u64);
                s.append(" (expected 0 or 1)");
                s
            },
            Error::InvalidPadding => String::from_str("invalid padding (stream end marker)"),
            Error::IoError(err) => {
                let mut s = String::from_str("i/o error: ");
                match io_error_text(err) {
                    Some(t) => s.append(t.as_str()),
                    None => {},
                }
                assert(s@.subrange(0, message_of(*self).len() as int) =~= message_of(*self));
                s
            },
        }
    }
}

} // verus!
