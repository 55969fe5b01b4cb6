use qoi::decode::decode;
use qoi::encode::{encode, encode_to_buf};
use qoi::header::Header;
use qoi::{Error, Pixel};

const MARKER: [u8; 8] = [0, 0, 0, 0, 0, 0, 0, 1];

fn header_bytes(w: u32, h: u32, ch: u8, cs: u8) -> Vec<u8> {
    let mut v = vec![b'q', b'o', b'i', b'f'];
    v.extend_from_slice(&w.to_be_bytes());
    v.extend_from_slice(&h.to_be_bytes());
    v.push(ch);
    v.push(cs);
    v
}

fn stream(w: u32, h: u32, ch: u8, chunks: &[u8]) -> Vec<u8> {
    let mut v = header_bytes(w, h, ch, 0);
    v.extend_from_slice(chunks);
    v.extend_from_slice(&MARKER);
    v
}

fn gradient(w: u32, h: u32, ch: u8) -> Vec<u8> {
    let mut v = Vec::new();
    for i in 0..(w * h) {
        let k = i as u8;
        v.push(k.wrapping_mul(7));
        v.push(if i % 5 == 0 { 200 } else { k });
        v.push(k / 3);
        if ch == 4 {
            v.push(if i % 11 < 6 { 255 } else { k.wrapping_mul(13) });
        }
    }
    v
}

#[test]
fn round_trip_rgba() {
    let h = Header::new(13, 7, 4, 0);
    let data = gradient(13, 7, 4);
    let enc = encode(&data, &h).unwrap();
    let (dec, h2) = decode(&enc).unwrap();
    assert_eq!(dec, data);
    assert_eq!(h2, h);
}

#[test]
fn round_trip_rgb_linear() {
    let h = Header::new(9, 11, 3, 1);
    let data = gradient(9, 11, 3);
    let enc = encode(&data, &h).unwrap();
    let (dec, h2) = decode(&enc).unwrap();
    assert_eq!(dec, data);
    assert_eq!(h2, h);
}

#[test]
fn encoded_stream_is_framed() {
    let h = Header::new(2, 1, 3, 0);
    let enc = encode(&[10, 20, 30, 10, 20, 30], &h).unwrap();
    assert_eq!(&enc[..14], &header_bytes(2, 1, 3, 0)[..]);
    assert_eq!(&enc[enc.len() - 8..], &MARKER[..]);
    // an alpha literal away from the transparent start, then a run of one
    assert_eq!(&enc[14..enc.len() - 8], &[0xff, 10, 20, 30, 255, 0xc0][..]);
}

#[test]
fn run_saturation() {
    let h = Header::new(200, 1, 4, 0);
    let data: Vec<u8> = [0u8, 0, 0, 0].repeat(200);
    let enc = encode(&data, &h).unwrap();
    assert_eq!(enc, stream(200, 1, 4, &[0xc0 + 61, 0xc0 + 61, 0xc0 + 61, 0xc0 + 13]));
    let (dec, _) = decode(&enc).unwrap();
    assert_eq!(dec.len(), 800);
    assert_eq!(dec, data);
}

#[test]
fn run_of_exactly_62_then_one_more() {
    let h = Header::new(63, 1, 4, 0);
    let data: Vec<u8> = [0u8, 0, 0, 0].repeat(63);
    let enc = encode(&data, &h).unwrap();
    assert_eq!(enc, stream(63, 1, 4, &[0xc0 + 61, 0xc0]));
}

#[test]
fn index_aliasing() {
    let p = Pixel::new(64, 0, 0, 0);
    let q = Pixel::new(0, 128, 0, 0);
    assert_eq!(p.hash_index(), q.hash_index());
    assert_ne!(p, q);
    let h = Header::new(6, 1, 4, 0);
    let mut data = Vec::new();
    for i in 0..6 {
        let x = if i % 2 == 0 { p } else { q };
        data.extend_from_slice(&[x.r, x.g, x.b, x.a]);
    }
    let enc = encode(&data, &h).unwrap();
    let (dec, _) = decode(&enc).unwrap();
    assert_eq!(dec, data);
    // every pixel comes back as a literal, never from the shared slot
    let chunks = &enc[14..enc.len() - 8];
    assert_eq!(chunks.len(), 6 * 4);
    for k in 0..6 {
        assert_eq!(chunks[4 * k], 0xfe);
    }
}

#[test]
fn index_hit_is_used() {
    let h = Header::new(3, 1, 3, 0);
    let data = [100u8, 50, 25, 1, 2, 3, 100, 50, 25];
    let enc = encode(&data, &h).unwrap();
    let slot = Pixel::new(100, 50, 25, 255).hash_index() as u8;
    assert_eq!(enc, stream(3, 1, 3, &[0xff, 100, 50, 25, 255, 0xfe, 1, 2, 3, slot]));
    assert_eq!(decode(&enc).unwrap().0, data.to_vec());
}

#[test]
fn truncated_stream() {
    let h = Header::new(4, 4, 4, 0);
    let data = gradient(4, 4, 4);
    let mut enc = encode(&data, &h).unwrap();
    enc.pop();
    assert!(matches!(decode(&enc), Err(Error::InvalidPadding)));
}

#[test]
fn trailing_byte_is_refused() {
    let h = Header::new(2, 2, 3, 0);
    let mut enc = encode(&gradient(2, 2, 3), &h).unwrap();
    enc.push(0);
    assert!(matches!(decode(&enc), Err(Error::InvalidPadding)));
}

#[test]
fn oversized_image() {
    let h = Header::new(400_000_001, 1, 4, 0);
    match encode(&[], &h) {
        Err(Error::ImageTooLarge { width, height }) => {
            assert_eq!(width, 400_000_001);
            assert_eq!(height, 1);
        }
        _ => panic!("expected ImageTooLarge"),
    }
    let h = Header::new(20_000, 20_001, 3, 0);
    assert!(matches!(
        encode(&[], &h),
        Err(Error::ImageTooLarge { width: 20_000, height: 20_001 })
    ));
}

#[test]
fn largest_image_is_not_too_large() {
    let h = Header::new(20_000, 20_000, 3, 0);
    assert!(matches!(
        encode(&[], &h),
        Err(Error::BadEncodingDataSize { size: 0, expected: 1_200_000_000 })
    ));
}

#[test]
fn diff_boundary() {
    let h = Header::new(1, 1, 4, 0);
    // red +1, green -2, blue +1 from the transparent start
    let enc = encode(&[1, 254, 1, 0], &h).unwrap();
    assert_eq!(enc, stream(1, 1, 4, &[0x40 | (3 << 4) | (0 << 2) | 3]));
    assert_eq!(decode(&enc).unwrap().0, vec![1, 254, 1, 0]);
    // red +2 leaves the delta range and falls to the luma chunk
    let enc = encode(&[2, 254, 1, 0], &h).unwrap();
    assert_eq!(enc, stream(1, 1, 4, &[0x80 + 30, (12 << 4) | 11]));
    assert_eq!(decode(&enc).unwrap().0, vec![2, 254, 1, 0]);
    // green -3 leaves the delta range too
    let enc = encode(&[255, 253, 255, 0], &h).unwrap();
    assert_eq!(enc, stream(1, 1, 4, &[0x80 + 29, (10 << 4) | 10]));
}

#[test]
fn luma_boundary_falls_to_literal() {
    let h = Header::new(1, 1, 4, 0);
    // green +32 is one past the luma range
    let enc = encode(&[32, 32, 32, 0], &h).unwrap();
    assert_eq!(enc, stream(1, 1, 4, &[0xfe, 32, 32, 32]));
    // green +31 still fits
    let enc = encode(&[31, 31, 31, 0], &h).unwrap();
    assert_eq!(enc, stream(1, 1, 4, &[0x80 + 63, (8 << 4) | 8]));
}

#[test]
fn alpha_change_is_rgba_literal() {
    let h = Header::new(1, 1, 4, 0);
    let enc = encode(&[1, 2, 3, 4], &h).unwrap();
    assert_eq!(enc, stream(1, 1, 4, &[0xff, 1, 2, 3, 4]));
    assert_eq!(decode(&enc).unwrap().0, vec![1, 2, 3, 4]);
}

#[test]
fn hash_formula() {
    assert_eq!(Pixel::new(1, 2, 3, 4).hash_index(), 14);
    assert_eq!(Pixel::new(255, 255, 255, 255).hash_index(), (255 * 26) % 64);
    assert_eq!(Pixel::new(0, 0, 0, 0).hash_index(), 0);
}

#[test]
fn invalid_channels_on_encode() {
    for ch in [0u8, 1, 2, 5, 255] {
        let h = Header::new(1, 1, ch, 7);
        match encode(&[0, 0, 0], &h) {
            Err(Error::InvalidChannels { channels }) => assert_eq!(channels, ch),
            _ => panic!("expected InvalidChannels"),
        }
    }
}

#[test]
fn empty_image() {
    let h = Header::new(0, 5, 3, 0);
    assert!(matches!(encode(&[], &h), Err(Error::EmptyImage { width: 0, height: 5 })));
    let s = stream(3, 0, 4, &[]);
    assert!(matches!(decode(&s), Err(Error::EmptyImage { width: 3, height: 0 })));
}

#[test]
fn invalid_colorspace() {
    let h = Header::new(1, 1, 3, 2);
    assert!(matches!(encode(&[0, 0, 0], &h), Err(Error::InvalidColorSpace { colorspace: 2 })));
    let mut s = stream(1, 1, 3, &[0xc0]);
    s[13] = 9;
    assert!(matches!(decode(&s), Err(Error::InvalidColorSpace { colorspace: 9 })));
}

#[test]
fn bad_encoding_data_size() {
    let h = Header::new(2, 2, 4, 0);
    assert!(matches!(
        encode(&[0; 15], &h),
        Err(Error::BadEncodingDataSize { size: 15, expected: 16 })
    ));
}

#[test]
fn input_buffer_too_small() {
    let s = vec![0u8; 21];
    assert!(matches!(
        decode(&s),
        Err(Error::InputBufferTooSmall { size: 21, required: 22 })
    ));
}

#[test]
fn invalid_magic() {
    let mut s = stream(1, 1, 3, &[0xc0]);
    s[0] = b'x';
    assert!(matches!(decode(&s), Err(Error::InvalidMagic { magic: 0x786f6966 })));
}

#[test]
fn invalid_channels_on_decode() {
    let mut s = stream(1, 1, 3, &[0xc0]);
    s[12] = 2;
    assert!(matches!(decode(&s), Err(Error::InvalidChannels { channels: 2 })));
}

#[test]
fn unexpected_buffer_end() {
    // 2x2 RGBA needs four pixels; the stream holds two literals of which the
    // second runs into the end of the data
    let mut s = header_bytes(2, 2, 4, 0);
    s.extend_from_slice(&[0xff, 1, 2, 3, 4, 0xfe, 9, 9, 9, 0xfe, 1, 2]);
    assert!(matches!(decode(&s), Err(Error::UnexpectedBufferEnd)));
}

#[test]
fn decode_known_stream() {
    // index of the unseen slot 0, a delta chunk, a run of two
    let s = stream(4, 1, 4, &[0x00, 0x40 | (3 << 4) | (2 << 2) | 1, 0xc1]);
    let (px, h) = decode(&s).unwrap();
    assert_eq!(h, Header::new(4, 1, 4, 0));
    assert_eq!(px, vec![0, 0, 0, 0, 1, 0, 255, 0, 1, 0, 255, 0, 1, 0, 255, 0]);
}

#[test]
fn io_error_converts() {
    let e: Error = std::io::Error::new(std::io::ErrorKind::Other, "boom").into();
    assert!(matches!(e, Error::IoError(_)));
}

#[test]
fn messages() {
    assert_eq!(Error::InvalidChannels { channels: 5 }.message(), "invalid number of channels: 5");
    assert_eq!(
        Error::EmptyImage { width: 0, height: 12 }.message(),
        "image contains no pixels: 0x12"
    );
    assert_eq!(
        Error::ImageTooLarge { width: 400_000_001, height: 1 }.message(),
        "image is too large: 400000001x1 (max=400Mp)"
    );
    assert_eq!(
        Error::BadEncodingDataSize { size: 15, expected: 16 }.message(),
        "bad data size when encoding: 15 (expected: 16)"
    );
    assert_eq!(
        Error::InputBufferTooSmall { size: 3, required: 22 }.message(),
        "input buffer size too small: 3 (minimum required: 22)"
    );
    assert_eq!(
        Error::OutputBufferTooSmall { size: 10, required: 26 }.message(),
        "output buffer size too small: 10 (minimum required: 26)"
    );
    assert_eq!(
        Error::InvalidMagic { magic: 0 }.message(),
        "invalid magic: expected 1903126886, got 0"
    );
    assert_eq!(
        Error::UnexpectedBufferEnd.message(),
        "unexpected input buffer end while decoding"
    );
    assert_eq!(
        Error::InvalidColorSpace { colorspace: 200 }.message(),
        "invalid color space: 200 (expected 0 or 1)"
    );
    assert_eq!(Error::InvalidPadding.message(), "invalid padding (stream end marker)");
    let io = Error::IoError(std::io::Error::new(std::io::ErrorKind::Other, "disk on fire"));
    assert_eq!(io.message(), "i/o error: disk on fire");
}

#[test]
fn encode_to_buf_writes_stream() {
    let h = Header::new(2, 1, 3, 0);
    let data = [10u8, 20, 30, 10, 20, 30];
    let mut buf = [0xaau8; 40];
    let n = encode_to_buf(&data, &h, &mut buf).unwrap();
    let v = encode(&data, &h).unwrap();
    assert_eq!(n, v.len());
    assert_eq!(&buf[..n], &v[..]);
    assert!(buf[n..].iter().all(|&b| b == 0xaa));
}

#[test]
fn encode_to_buf_too_small() {
    let h = Header::new(2, 1, 3, 0);
    let data = [10u8, 20, 30, 10, 20, 30];
    // the stream needs only 28 bytes, but the worst case is 14 + 8 + 2 * 4 + 1
    let mut buf = [0x55u8; 30];
    assert!(matches!(
        encode_to_buf(&data, &h, &mut buf),
        Err(Error::OutputBufferTooSmall { size: 30, required: 31 })
    ));
    assert!(buf.iter().all(|&b| b == 0x55));
    let mut buf = [0u8; 31];
    assert_eq!(encode_to_buf(&data, &h, &mut buf).unwrap(), 28);
}

#[test]
fn encode_to_buf_bad_header_leaves_buffer() {
    let h = Header::new(1, 1, 2, 0);
    let mut buf = [7u8; 64];
    assert!(matches!(
        encode_to_buf(&[0, 0], &h, &mut buf),
        Err(Error::InvalidChannels { channels: 2 })
    ));
    assert!(buf.iter().all(|&b| b == 7));
}

#[test]
fn decode_checks_colorspace_before_channels() {
    let mut s = stream(1, 1, 3, &[0xc0]);
    s[12] = 7;
    s[13] = 2;
    assert!(matches!(decode(&s), Err(Error::InvalidColorSpace { colorspace: 2 })));
}

#[test]
fn worst_case_rgb_stream_fits_bound() {
    // every pixel a literal; the first also changes alpha from the start
    let h = Header::new(3, 1, 3, 0);
    let data = [200u8, 10, 90, 10, 200, 30, 90, 30, 200];
    let enc = encode(&data, &h).unwrap();
    assert_eq!(enc.len(), 14 + 8 + 5 + 4 + 4);
    let mut buf = [0u8; 14 + 8 + 3 * 4 + 1];
    assert_eq!(encode_to_buf(&data, &h, &mut buf).unwrap(), enc.len());
}

#[test]
fn runs_of_exact_multiple() {
    let h = Header::new(62, 2, 4, 1);
    let data: Vec<u8> = vec![0u8; 62 * 2 * 4];
    let enc = encode(&data, &h).unwrap();
    let mut expected = header_bytes(62, 2, 4, 1);
    expected.extend_from_slice(&[0xfd, 0xfd]);
    expected.extend_from_slice(&MARKER);
    assert_eq!(enc, expected);
    assert_eq!(decode(&enc).unwrap(), (data, h));
}
