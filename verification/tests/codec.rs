use telemetry::codec::{decode, decode_byte, encode, encode_byte};

#[test]
fn involution_on_bytes() {
    for b in 0..=255u8 {
        assert_eq!(decode_byte(encode_byte(b)), b);
        assert_eq!(encode_byte(decode_byte(b)), b);
    }
}

#[test]
fn involution_on_text() {
    let s = String::from("hello world");
    let enc = encode(&s);
    assert_eq!(decode(&enc).unwrap(), s);
}

#[test]
fn involution_on_empty() {
    let s = String::new();
    let enc = encode(&s);
    assert_eq!(enc.len(), 0);
    assert_eq!(decode(&enc).unwrap(), s);
}

#[test]
fn transform_is_xor_with_key() {
    let s = String::from("A");
    let enc = encode(&s);
    assert_eq!(enc, vec![b'A' ^ 0x11]);
}

#[test]
fn non_text_bytes_are_rejected() {
    // 0xee ^ 0x11 == 0xff, which can never occur in UTF-8 text
    let r = decode(&[0xeeu8]);
    assert!(r.is_err());
}

#[test]
fn arbitrary_octets_round_trip_as_bytes() {
    let raw: Vec<u8> = vec![0x00, 0x11, 0x7f, 0x80, 0xff];
    let once: Vec<u8> = raw.iter().map(|b| encode_byte(*b)).collect();
    let twice: Vec<u8> = once.iter().map(|b| decode_byte(*b)).collect();
    assert_eq!(twice, raw);
}
