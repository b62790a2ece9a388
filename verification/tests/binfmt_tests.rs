use snotra_core::binfmt::{deserialize_with_header, serialize_with_header};

fn value_payload(value: u32) -> Vec<u8> {
    value.to_le_bytes().to_vec()
}

#[test]
fn roundtrip_with_header() {
    let input = value_payload(42);
    let bytes = serialize_with_header(*b"TEST", 1, &input);
    let output = deserialize_with_header(&bytes, *b"TEST", 1).expect("deserialize");
    assert_eq!(input, output);
}

#[test]
fn deserialize_fails_on_magic_mismatch() {
    let input = value_payload(1);
    let bytes = serialize_with_header(*b"GOOD", 1, &input);
    let output = deserialize_with_header(&bytes, *b"BAD!", 1);
    assert!(output.is_none());
}

#[test]
fn deserialize_fails_on_version_mismatch() {
    let input = value_payload(1);
    let bytes = serialize_with_header(*b"TEST", 1, &input);
    let output = deserialize_with_header(&bytes, *b"TEST", 2);
    assert!(output.is_none());
}

#[test]
fn deserialize_fails_on_short_buffer() {
    let bytes = vec![1u8, 2, 3];
    assert!(deserialize_with_header(&bytes, *b"TEST", 1).is_none());
}

#[test]
fn header_layout_is_magic_then_version() {
    let payload = vec![9u8];
    let bytes = serialize_with_header(*b"ABCD", 7, &payload);
    assert_eq!(&bytes[0..4], b"ABCD");
    assert_eq!(&bytes[4..8], &7u32.to_le_bytes());
    assert_eq!(&bytes[8..], &[9u8]);
}
