use ebml::content::{ElementContent, Utf8Error};

#[test]
fn binary_returns_bytes_unchanged() {
    let bytes = vec![1u8, 2, 3, 255, 0];
    assert_eq!(ElementContent::new(bytes.clone()).into_binary(), bytes);
    let empty: Vec<u8> = Vec::new();
    assert_eq!(ElementContent::new(empty.clone()).into_binary(), empty);
}

#[test]
fn uint_reads_big_endian() {
    assert_eq!(ElementContent::new(vec![0x01, 0x00]).into_uint(), 256);
    assert_eq!(ElementContent::new(vec![0xFF]).into_uint(), 255);
    assert_eq!(ElementContent::new(Vec::new()).into_uint(), 0);
    let full = vec![0x12, 0x34, 0x56, 0x78, 0x9A, 0xBC, 0xDE, 0xF0];
    assert_eq!(ElementContent::new(full).into_uint(), 0x123456789ABCDEF0);
}

#[test]
fn uint_oversized_buffer_keeps_trailing_bytes() {
    // nine bytes: the leading one falls outside the 64-bit window
    let bytes = vec![0xAB, 0x01, 0x02, 0x03, 0x04, 0x05, 0x06, 0x07, 0x08];
    assert_eq!(ElementContent::new(bytes).into_uint(), 0x0102030405060708);
}

#[test]
fn int_is_not_sign_extended_below_full_width() {
    assert_eq!(ElementContent::new(vec![0xFF]).into_int(), 255);
    assert_eq!(ElementContent::new(vec![0x01, 0x00]).into_int(), 256);
}

#[test]
fn int_at_full_width_reads_twos_complement() {
    assert_eq!(ElementContent::new(vec![0xFF; 8]).into_int(), -1);
    let lowest = vec![0x80, 0, 0, 0, 0, 0, 0, 0];
    assert_eq!(ElementContent::new(lowest).into_int(), i64::MIN);
}

#[test]
fn utf8_returns_the_original_text() {
    let text = "EBML — Extensible Binary Meta Language";
    let content = ElementContent::new(text.as_bytes().to_vec());
    assert_eq!(content.into_utf8().unwrap(), text);
}

#[test]
fn utf8_rejects_invalid_bytes() {
    let content = ElementContent::new(vec![0xFF, 0xFE]);
    assert_eq!(content.into_utf8(), Err(Utf8Error));
}

#[test]
fn float_bit_pattern_reads_back() {
    let bits = (1.5f64).to_bits();
    let content = ElementContent::new(bits.to_be_bytes().to_vec());
    assert_eq!(content.into_uint(), bits);
    assert_eq!(f64::from_bits(bits), 1.5);
}
