use vstp::frame::{decode_frame, encode_frame, try_decode_frame, DEFAULT_MAX_FRAME_SIZE};
use vstp::types::{Flags, Frame, FrameType, Header, VstpError};

fn sample() -> Frame {
    Frame::new(FrameType::Data)
        .with_header(b"content-type", b"text/plain")
        .with_header(b"user-id", b"12345")
        .with_header(b"user-id", b"67890")
        .with_payload(b"hello world".to_vec())
        .with_flag(Flags::crc())
}

#[test]
fn hello_handshake_bytes() {
    let f = Frame::new(FrameType::Hello);
    let b = encode_frame(&f).unwrap();
    assert_eq!(b, vec![0x56, 0x54, 0x01, 0x01, 0x00, 0x00, 0x00, 0x00, 0x00, 0x00, 0x00, 0x00]);
    let (g, n) = decode_frame(&b, DEFAULT_MAX_FRAME_SIZE).unwrap().unwrap();
    assert_eq!(n, 12);
    assert_eq!(g, f);
}

#[test]
fn crc_protected_data_is_42_bytes_and_detects_a_flip() {
    let f = Frame::new(FrameType::Data)
        .with_flag(Flags::crc())
        .with_header(b"content-type", b"text/plain")
        .with_payload(b"hi".to_vec());
    let b = encode_frame(&f).unwrap();
    assert_eq!(b.len(), 42);
    assert_eq!(&b[5..7], &[24, 0]);
    assert_eq!(&b[7..11], &[0, 0, 0, 2]);
    let (g, _) = decode_frame(&b, DEFAULT_MAX_FRAME_SIZE).unwrap().unwrap();
    assert_eq!(g, f);
    let mut bad = b.clone();
    bad[12 + 24] ^= 0x01;
    assert_eq!(decode_frame(&bad, DEFAULT_MAX_FRAME_SIZE), Err(VstpError::CrcMismatch));
}

#[test]
fn crc_trailer_is_ieee_crc32() {
    let f = Frame::new(FrameType::Data).with_flag(Flags::crc()).with_payload(b"123456789".to_vec());
    let b = encode_frame(&f).unwrap();
    assert_eq!(&b[b.len() - 4..], &[0xCB, 0xF4, 0x39, 0x26]);
}

#[test]
fn mixed_endianness_of_length_fields() {
    let f = Frame::new(FrameType::Data).with_header(b"k", b"v").with_payload(vec![7u8; 258]);
    let b = encode_frame(&f).unwrap();
    assert_eq!(&b[5..7], &[4, 0]);
    assert_eq!(&b[7..11], &[0, 0, 1, 2]);
    assert_eq!(b[11], 0);
    assert_eq!(b.len(), 12 + 4 + 258);
}

#[test]
fn round_trip_with_headers_and_crc() {
    let f = sample();
    let b = encode_frame(&f).unwrap();
    let (g, n) = decode_frame(&b, DEFAULT_MAX_FRAME_SIZE).unwrap().unwrap();
    assert_eq!(g, f);
    assert_eq!(n, b.len());
    assert_eq!(encode_frame(&g).unwrap(), b);
}

#[test]
fn round_trip_without_crc_has_no_trailer() {
    let f = Frame::new(FrameType::Ping).with_header(b"a", b"b").with_payload(vec![1, 2, 3]);
    let b = encode_frame(&f).unwrap();
    assert_eq!(b.len(), 12 + 4 + 3);
    let (g, _) = decode_frame(&b, DEFAULT_MAX_FRAME_SIZE).unwrap().unwrap();
    assert_eq!(g, f);
}

#[test]
fn every_frame_type_round_trips() {
    let types = [
        FrameType::Hello,
        FrameType::Welcome,
        FrameType::Data,
        FrameType::Ping,
        FrameType::Pong,
        FrameType::Bye,
        FrameType::Ack,
        FrameType::Error,
    ];
    for (i, t) in types.iter().enumerate() {
        let b = encode_frame(&Frame::new(*t)).unwrap();
        assert_eq!(b[3] as usize, i + 1);
        let (g, _) = decode_frame(&b, DEFAULT_MAX_FRAME_SIZE).unwrap().unwrap();
        assert_eq!(g.typ, *t);
    }
}

#[test]
fn streaming_one_byte_at_a_time() {
    let f = sample();
    let b = encode_frame(&f).unwrap();
    let mut buf: Vec<u8> = Vec::new();
    let mut got = Vec::new();
    for (i, byte) in b.iter().enumerate() {
        buf.push(*byte);
        match try_decode_frame(&mut buf, DEFAULT_MAX_FRAME_SIZE).unwrap() {
            Some(g) => {
                assert_eq!(i, b.len() - 1);
                got.push(g);
            }
            None => assert_eq!(buf.len(), i + 1),
        }
    }
    assert_eq!(got, vec![f]);
    assert!(buf.is_empty());
    assert_eq!(try_decode_frame(&mut buf, DEFAULT_MAX_FRAME_SIZE), Ok(None));
}

#[test]
fn every_proper_prefix_needs_more() {
    let b = encode_frame(&sample()).unwrap();
    for k in 0..b.len() {
        let mut buf = b[..k].to_vec();
        assert_eq!(try_decode_frame(&mut buf, DEFAULT_MAX_FRAME_SIZE), Ok(None));
        assert_eq!(buf, b[..k].to_vec());
    }
}

#[test]
fn two_frames_in_one_buffer_come_out_in_order() {
    let f1 = Frame::new(FrameType::Ping);
    let f2 = sample();
    let mut buf = encode_frame(&f1).unwrap();
    buf.extend(encode_frame(&f2).unwrap());
    assert_eq!(try_decode_frame(&mut buf, DEFAULT_MAX_FRAME_SIZE), Ok(Some(f1)));
    assert_eq!(try_decode_frame(&mut buf, DEFAULT_MAX_FRAME_SIZE), Ok(Some(f2)));
    assert!(buf.is_empty());
}

#[test]
fn any_single_bit_flip_is_caught_by_crc() {
    let f = Frame::new(FrameType::Data)
        .with_flag(Flags::crc())
        .with_header(b"k", b"value")
        .with_payload(b"payload bytes".to_vec());
    let b = encode_frame(&f).unwrap();
    let body_end = b.len() - 4;
    for pos in 12..body_end {
        for bit in 0..8 {
            let mut bad = b.clone();
            bad[pos] ^= 1 << bit;
            assert_eq!(decode_frame(&bad, DEFAULT_MAX_FRAME_SIZE), Err(VstpError::CrcMismatch));
        }
    }
}

#[test]
fn bad_magic_is_rejected() {
    let mut b = encode_frame(&Frame::new(FrameType::Hello)).unwrap();
    b[0] = 0;
    b[1] = 0;
    let mut buf = b.clone();
    assert_eq!(try_decode_frame(&mut buf, DEFAULT_MAX_FRAME_SIZE), Err(VstpError::BadMagic));
    assert_eq!(buf, b);
}

#[test]
fn unsupported_version_is_rejected() {
    let mut b = encode_frame(&Frame::new(FrameType::Hello)).unwrap();
    b[2] = 2;
    assert_eq!(decode_frame(&b, DEFAULT_MAX_FRAME_SIZE), Err(VstpError::UnsupportedVersion));
}

#[test]
fn unknown_type_is_rejected() {
    let mut b = encode_frame(&Frame::new(FrameType::Hello)).unwrap();
    b[3] = 0x09;
    assert_eq!(decode_frame(&b, DEFAULT_MAX_FRAME_SIZE), Err(VstpError::UnknownType));
    b[3] = 0x00;
    assert_eq!(decode_frame(&b, DEFAULT_MAX_FRAME_SIZE), Err(VstpError::UnknownType));
}

#[test]
fn partial_header_entry_is_malformed() {
    // HDR_LEN = 3 holding KLEN=1, KEY="a", VLEN=5 with no value bytes.
    let b = vec![0x56, 0x54, 1, 3, 0, 3, 0, 0, 0, 0, 0, 0, 1, b'a', 5];
    assert_eq!(decode_frame(&b, DEFAULT_MAX_FRAME_SIZE), Err(VstpError::MalformedHeader));
}

#[test]
fn zero_length_payload_and_no_headers() {
    let f = Frame::new(FrameType::Data);
    let b = encode_frame(&f).unwrap();
    assert_eq!(b.len(), 12);
    assert_eq!(decode_frame(&b, DEFAULT_MAX_FRAME_SIZE).unwrap().unwrap().0, f);
}

#[test]
fn empty_key_and_empty_value() {
    let f = Frame::new(FrameType::Data).with_header(b"", b"");
    let b = encode_frame(&f).unwrap();
    assert_eq!(b.len(), 14);
    assert_eq!(&b[12..14], &[0, 0]);
    let (g, _) = decode_frame(&b, DEFAULT_MAX_FRAME_SIZE).unwrap().unwrap();
    assert_eq!(g.headers, vec![Header { key: vec![], value: vec![] }]);
}

#[test]
fn header_section_of_exactly_65535_bytes() {
    let mut f = Frame::new(FrameType::Data);
    for _ in 0..127 {
        f = f.with_header(&[b'k'; 255], &[b'v'; 255]);
    }
    f = f.with_header(&[b'k'; 255], &[b'v'; 254]);
    let b = encode_frame(&f).unwrap();
    assert_eq!(&b[5..7], &[0xFF, 0xFF]);
    let (g, _) = decode_frame(&b, DEFAULT_MAX_FRAME_SIZE).unwrap().unwrap();
    assert_eq!(g, f);
    let too_big = f.with_header(b"", b"");
    assert_eq!(encode_frame(&too_big), Err(VstpError::FrameTooLarge));
}

#[test]
fn overlong_key_or_value_is_too_large() {
    let f = Frame::new(FrameType::Data).with_header(&[0u8; 256], b"v");
    assert_eq!(encode_frame(&f), Err(VstpError::FrameTooLarge));
    let g = Frame::new(FrameType::Data).with_header(b"k", &[0u8; 256]);
    assert_eq!(encode_frame(&g), Err(VstpError::FrameTooLarge));
}

#[test]
fn payload_of_exactly_max_frame_size() {
    let f = Frame::new(FrameType::Data).with_payload(vec![9u8; DEFAULT_MAX_FRAME_SIZE]);
    let b = encode_frame(&f).unwrap();
    let (g, n) = decode_frame(&b, DEFAULT_MAX_FRAME_SIZE).unwrap().unwrap();
    assert_eq!(n, 12 + DEFAULT_MAX_FRAME_SIZE);
    assert_eq!(g, f);
}

#[test]
fn declared_size_over_the_limit_is_too_large() {
    // HDR_LEN = 101 against a limit of 100; rejected before the bytes arrive.
    let b = vec![0x56, 0x54, 1, 3, 0, 101, 0, 0, 0, 0, 0, 0];
    assert_eq!(decode_frame(&b, 100), Err(VstpError::FrameTooLarge));
    let ok = vec![0x56, 0x54, 1, 3, 0, 100, 0, 0, 0, 0, 0, 0];
    assert_eq!(decode_frame(&ok, 100), Ok(None));
}

#[test]
fn unknown_flag_bits_are_preserved() {
    let f = Frame::new(FrameType::Data).with_flag(Flags::from_bits(0xF0)).with_payload(vec![1]);
    let b = encode_frame(&f).unwrap();
    assert_eq!(b[4], 0xF0);
    let (g, _) = decode_frame(&b, DEFAULT_MAX_FRAME_SIZE).unwrap().unwrap();
    assert_eq!(g.flags.bits(), 0xF0);
    assert_eq!(encode_frame(&g).unwrap(), b);
}

#[test]
fn flags_operations() {
    let f = Flags::req_ack().union(Flags::crc());
    assert_eq!(f.bits(), 0x03);
    assert!(f.contains(Flags::crc()));
    assert!(!f.contains(Flags::frag()));
    assert_eq!(f.without(Flags::req_ack()).bits(), 0x02);
    assert_eq!(Flags::comp().bits(), 0x08);
    assert_eq!(Flags::empty().bits(), 0);
}

#[test]
fn frame_type_codes() {
    assert_eq!(FrameType::Ack.to_u8(), 7);
    assert_eq!(FrameType::from_u8(8), Some(FrameType::Error));
    assert_eq!(FrameType::from_u8(9), None);
}

#[test]
fn error_descriptions_differ() {
    assert_eq!(VstpError::CrcMismatch.describe(), "CRC mismatch");
    assert_ne!(VstpError::BadMagic.describe(), VstpError::UnknownType.describe());
}
