use rb64::{decode, encode};

#[test]
fn test_hello_world() {
    let msg = b"Hello world!";
    let enc = encode(msg);
    let dec = decode(&enc).unwrap();
    assert_eq!(msg, &*dec);
}
