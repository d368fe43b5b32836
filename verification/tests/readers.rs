use std::io::{ErrorKind, Read};

use rb64::{encode, reader, Base64Encoder};

#[test]
fn encoder_small_buffers() {
    let input = b"any carnal pleasure.";
    let expected = encode(input);
    for size in 1..9 {
        let mut enc = Base64Encoder::new(&input[..]);
        let mut out = Vec::new();
        let mut buf = vec![0_u8; size];
        loop {
            let n = enc.read(&mut buf).unwrap();
            if n == 0 {
                break;
            }
            assert!(n <= size);
            out.extend_from_slice(&buf[..n]);
        }
        assert_eq!(String::from_utf8(out).unwrap(), expected);
        assert_eq!(enc.read(&mut buf).unwrap(), 0);
    }
}

#[test]
fn encoder_empty_input_and_empty_buffer() {
    let mut enc = Base64Encoder::new(&b""[..]);
    let mut buf = [0_u8; 8];
    assert_eq!(enc.read(&mut buf).unwrap(), 0);
    let mut enc = Base64Encoder::new(&b"abc"[..]);
    assert_eq!(enc.read(&mut []).unwrap(), 0);
    assert_eq!(enc.read(&mut buf).unwrap(), 4);
    assert_eq!(&buf[..4], b"YWJj");
}

#[test]
fn group_reader_hands_out_whole_groups() {
    let mut r = reader::Base64Encoder::new(&b"abcdefg"[..]);
    let mut buf = [0_u8; 8];
    assert_eq!(r.read(&mut buf).unwrap(), 4);
    assert_eq!(&buf[..4], b"YWJj");
    assert_eq!(r.read(&mut buf).unwrap(), 4);
    assert_eq!(&buf[..4], b"ZGVm");
    assert_eq!(r.read(&mut buf).unwrap(), 4);
    assert_eq!(&buf[..4], b"Zw==");
    assert_eq!(r.read(&mut buf).unwrap(), 0);
}

#[test]
fn group_reader_larger_buffer() {
    let mut r = reader::Base64Encoder::new(&b"abcdefghi"[..]);
    let mut buf = [0_u8; 64];
    assert_eq!(r.read(&mut buf).unwrap(), 12);
    assert_eq!(&buf[..12], b"YWJjZGVmZ2hp");
    assert_eq!(r.read(&mut buf).unwrap(), 0);
}

#[test]
fn group_reader_rejects_small_buffers() {
    let mut r = reader::Base64Encoder::new(&b"abc"[..]);
    let mut buf = [0_u8; 3];
    let err = r.read(&mut buf).unwrap_err();
    assert_eq!(err.kind(), ErrorKind::InvalidInput);
    assert_eq!(err.to_string(), "Buffer too small");
}

#[test]
fn encoder_serves_pending_bytes_first() {
    let mut enc = Base64Encoder::new(&b"abcdef"[..]);
    let mut one = [0_u8; 1];
    assert_eq!(enc.read(&mut one).unwrap(), 1);
    assert_eq!(&one, b"Y");
    let mut three = [0_u8; 3];
    assert_eq!(enc.read(&mut three).unwrap(), 3);
    assert_eq!(&three, b"WJj");
    let mut rest = [0_u8; 10];
    assert_eq!(enc.read(&mut rest).unwrap(), 4);
    assert_eq!(&rest[..4], b"ZGVm");
    assert_eq!(&rest[4..], &[0_u8; 6]);
}

#[test]
fn group_reader_small_buffer_is_untouched() {
    let mut r = reader::Base64Encoder::new(&b"abc"[..]);
    let mut buf = [7_u8; 2];
    assert!(r.read(&mut buf).is_err());
    assert_eq!(buf, [7, 7]);
    let mut buf = [0_u8; 4];
    assert_eq!(r.read(&mut buf).unwrap(), 4);
    assert_eq!(&buf, b"YWJj");
}
