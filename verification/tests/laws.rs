use rb64::{decode, encode};

#[test]
fn round_trip_every_byte_value() {
    let bytes: Vec<u8> = (0..=255u8).collect();
    for len in 0..bytes.len() {
        let enc = encode(&bytes[..len]);
        assert_eq!(enc.len(), 4 * ((len + 2) / 3));
        assert_eq!(decode(&enc).unwrap(), &bytes[..len]);
    }
}

#[test]
fn unpadded_text_decodes() {
    assert_eq!(decode("aGk").unwrap(), b"hi");
    assert_eq!(decode("aGVsbG8").unwrap(), b"hello");
    let enc = encode(b"abcd");
    assert_eq!(enc, "YWJjZA==");
    assert_eq!(decode(enc.trim_end_matches('=')).unwrap(), b"abcd");
}

#[test]
fn decoding_stops_at_the_first_pad() {
    assert_eq!(decode("aGk=").unwrap(), b"hi");
    assert_eq!(decode("aGk=!!! not base64").unwrap(), b"hi");
    assert_eq!(decode("=abc").unwrap(), b"");
}

#[test]
fn line_breaks_are_skipped() {
    assert_eq!(decode("SGVs\nbG8g\r\nd29y\nbGQh").unwrap(), b"Hello world!");
    assert_eq!(decode("\n\n\r").unwrap(), b"");
    assert_eq!(decode("S\nG\nV\ns").unwrap(), decode("SGVs").unwrap());
}

#[test]
fn encoding_uses_the_alphabet_and_pads() {
    let bytes: Vec<u8> = (0..=255u8).rev().collect();
    let enc = encode(&bytes);
    let body = enc.trim_end_matches('=');
    assert_eq!(enc.len() - body.len(), 2);
    assert!(body
        .chars()
        .all(|c| c.is_ascii_alphanumeric() || c == '+' || c == '/'));
}

#[test]
fn empty_input() {
    assert_eq!(encode(b""), "");
    assert_eq!(decode("").unwrap(), b"");
}

#[test]
fn group_formulas() {
    assert_eq!(encode(&[0xff, 0xff, 0xff]), "////");
    assert_eq!(encode(&[0xfb, 0xef, 0xbe]), "++++");
    assert_eq!(encode(&[0]), "AA==");
    assert_eq!(encode(&[0, 0]), "AAA=");
    assert_eq!(decode("////").unwrap(), [0xff, 0xff, 0xff]);
    assert_eq!(decode("++++").unwrap(), [0xfb, 0xef, 0xbe]);
}

#[test]
fn lone_digit_gives_one_byte() {
    assert_eq!(decode("Q").unwrap(), [64]);
    assert_eq!(decode("/").unwrap(), [252]);
    assert_eq!(decode("aGk=Q").unwrap(), b"hi");
    assert_eq!(decode("aGVsQ").unwrap(), [b'h', b'e', b'l', 64]);
}

#[test]
fn unknown_character_errors() {
    assert_eq!(decode("ab-d").unwrap_err(), "Unknown character to decode: '-'");
    assert_eq!(decode("a b").unwrap_err(), "Unknown character to decode: ' '");
    assert_eq!(decode("ab\tc").unwrap_err(), "Unknown character to decode: '\t'");
    assert_eq!(decode("*=").unwrap_err(), "Unknown character to decode: '*'");
}

#[test]
fn encoding_concatenates_at_group_boundaries() {
    let a = b"abcdef";
    let b = b"gh";
    let ab: Vec<u8> = [&a[..], &b[..]].concat();
    assert_eq!(encode(&ab), encode(a) + encode(b).as_str());
    assert_eq!(encode(&ab), "YWJjZGVmZ2g=");
}
