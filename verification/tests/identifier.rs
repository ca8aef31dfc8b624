use logical_clocks_rs::Identifier;

#[test]
fn generated_identifiers_are_sixteen_bytes() {
    let id = Identifier::new();
    assert_eq!(id.0.len(), 16);
    let other = Identifier::default();
    assert_eq!(other.0.len(), 16);
}

#[test]
fn from_bytes_keeps_the_bytes() {
    let id = Identifier::from_bytes(vec![1, 2, 3]);
    assert_eq!(id.0, vec![1, 2, 3]);
    let empty = Identifier::from_bytes(vec![]);
    assert_eq!(empty.0, Vec::<u8>::new());
}

#[test]
fn sixteen_byte_identifiers_render_as_uuid_text() {
    let id = Identifier::from_bytes(vec![
        0x00, 0x01, 0x02, 0x03, 0x04, 0x05, 0x06, 0x07, 0x08, 0x09, 0x0a, 0x0b, 0x0c, 0x0d, 0x0e,
        0x0f,
    ]);
    assert_eq!(id.to_string(), "00010203-0405-0607-0809-0a0b0c0d0e0f");
}

#[test]
fn other_identifiers_render_as_base64_text() {
    let id = Identifier::from_bytes(vec![b'h', b'e', b'l', b'l', b'o']);
    assert_eq!(id.to_string(), "aGVsbG8=");
    let short = Identifier::from_bytes(vec![0xff]);
    assert_eq!(short.to_string(), "/w==");
}
