use state_store::codec::{decode_hex, encode_hex};

#[test]
fn bytes_render_as_prefixed_lowercase_hex() {
    assert_eq!(encode_hex(&vec![0xde, 0xad, 0x00, 0x0f]), b"0xdead000f".to_vec());
    assert_eq!(encode_hex(&vec![]), b"0x".to_vec());
}

#[test]
fn hex_text_reads_back() {
    assert_eq!(decode_hex(&b"0x01ff".to_vec()), Some(vec![0x01, 0xff]));
    assert_eq!(decode_hex(&b"0x".to_vec()), Some(vec![]));
    let bytes: Vec<u8> = (0..=255u8).collect();
    assert_eq!(decode_hex(&encode_hex(&bytes)), Some(bytes));
}

#[test]
fn malformed_hex_is_refused() {
    assert_eq!(decode_hex(&b"01ff".to_vec()), None);
    assert_eq!(decode_hex(&b"0x1".to_vec()), None);
    assert_eq!(decode_hex(&b"0xzz".to_vec()), None);
    assert_eq!(decode_hex(&b"0xAB".to_vec()), None);
    assert_eq!(decode_hex(&b"".to_vec()), None);
}
