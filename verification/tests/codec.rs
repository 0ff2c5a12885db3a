use ebml::element::{
    read_element, read_element_info, write_element, write_element_info, Element, ElementInfo,
};
use ebml::varint::{decode, encode, header_len};

#[test]
fn varint_literal_encodings() {
    assert_eq!(encode(0), vec![0x80]);
    assert_eq!(encode(127), vec![0xFF]);
    assert_eq!(encode(128), vec![0x40, 0x80]);
    assert_eq!(encode(16383), vec![0x7F, 0xFF]);
    assert_eq!(encode(16384), vec![0x20, 0x40, 0x00]);
}

#[test]
fn varint_round_trip_at_length_boundaries() {
    let values: Vec<i64> = vec![
        0,
        1,
        127,
        128,
        16383,
        16384,
        2097151,
        2097152,
        268435455,
        268435456,
        34359738367,
        34359738368,
        4398046511103,
        4398046511104,
        562949953421311,
        562949953421312,
        72057594037927935,
    ];
    for &v in values.iter() {
        let bytes = encode(v);
        let (value, end) = decode(&bytes, 0).expect("a complete varint decodes");
        assert_eq!(value, v);
        assert_eq!(end, bytes.len());
    }
}

#[test]
fn varint_minimal_lengths() {
    assert_eq!(encode(127).len(), 1);
    assert_eq!(encode(128).len(), 2);
    assert_eq!(encode(2097151).len(), 3);
    assert_eq!(encode(2097152).len(), 4);
    assert_eq!(encode(72057594037927935).len(), 8);
}

#[test]
fn varint_reencode_non_minimal() {
    // a two-byte encoding of 5 decodes like the minimal one-byte form
    let wide = vec![0x40, 0x05];
    let (value, end) = decode(&wide, 0).unwrap();
    assert_eq!(value, 5);
    assert_eq!(end, 2);
    let minimal = encode(value);
    assert_eq!(minimal, vec![0x85]);
    let (again, _) = decode(&minimal, 0).unwrap();
    assert_eq!(again, value);
}

#[test]
fn varint_degenerate_zero_first_byte() {
    // a first byte of 0x00 declares no length: read as one byte of value 0
    let buf = vec![0x00, 0x7F];
    let (value, end) = decode(&buf, 0).unwrap();
    assert_eq!(value, 0);
    assert_eq!(end, 1);
}

#[test]
fn varint_decode_needs_whole_encoding() {
    let empty: Vec<u8> = Vec::new();
    assert!(decode(&empty, 0).is_none());
    assert!(decode(&vec![0x40], 0).is_none());
    assert!(decode(&vec![0x85], 1).is_none());
}

#[test]
fn header_len_matches_marker() {
    assert_eq!(header_len(0x80), 1);
    assert_eq!(header_len(0xFF), 1);
    assert_eq!(header_len(0x40), 2);
    assert_eq!(header_len(0x20), 3);
    assert_eq!(header_len(0x01), 8);
    assert_eq!(header_len(0x00), 1);
}

#[test]
fn element_round_trip() {
    let info = ElementInfo { id: 0x1A45DFA3, size: 4 };
    let elem = Element { info, data: vec![0x00, 0x00, 0x00, 0x01] };
    let bytes = write_element(elem);
    let (back, end) = read_element(&bytes, 0).expect("a complete element reads back");
    assert_eq!(back.info.id, 0x1A45DFA3);
    assert_eq!(back.info.size, 4);
    assert_eq!(back.data, vec![0x00, 0x00, 0x00, 0x01]);
    assert_eq!(end, bytes.len());
}

#[test]
fn element_info_round_trip() {
    let info = ElementInfo { id: 0x3F, size: 300 };
    let bytes = write_element_info(&info);
    let (back, end) = read_element_info(&bytes, 0).unwrap();
    assert_eq!(back, info);
    assert_eq!(end, bytes.len());
}

#[test]
fn element_read_stops_on_short_payload() {
    // the header declares 4 payload bytes but only 2 follow
    let info = ElementInfo { id: 1, size: 4 };
    let mut bytes = write_element_info(&info);
    bytes.push(0xAA);
    bytes.push(0xBB);
    assert!(read_element(&bytes, 0).is_none());
    assert!(read_element_info(&bytes, 0).is_some());
}

#[test]
fn elements_read_in_sequence() {
    let first = Element { info: ElementInfo { id: 5, size: 1 }, data: vec![0x11] };
    let second = Element { info: ElementInfo { id: 6, size: 2 }, data: vec![0x22, 0x33] };
    let mut bytes = write_element(first);
    bytes.extend(write_element(second));
    let (e1, mid) = read_element(&bytes, 0).unwrap();
    let (e2, end) = read_element(&bytes, mid).unwrap();
    assert_eq!(e1.info.id, 5);
    assert_eq!(e1.data, vec![0x11]);
    assert_eq!(e2.info.id, 6);
    assert_eq!(e2.data, vec![0x22, 0x33]);
    assert_eq!(end, bytes.len());
}
