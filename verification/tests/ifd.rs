use oxideav_tiff::ifd::{parse_header, parse_ifd, parse_ifd_in, ByteOrder};

fn header(le: bool) -> Vec<u8> {
    let mut v = Vec::new();
    if le {
        v.extend_from_slice(b"II");
        v.extend_from_slice(&42u16.to_le_bytes());
        v.extend_from_slice(&8u32.to_le_bytes());
    } else {
        v.extend_from_slice(b"MM");
        v.extend_from_slice(&42u16.to_be_bytes());
        v.extend_from_slice(&8u32.to_be_bytes());
    }
    v
}

#[test]
fn header_little_endian() {
    let h = header(true);
    let p = parse_header(&h).unwrap();
    assert!(matches!(p.byte_order, ByteOrder::Little));
    assert_eq!(p.first_ifd_offset, 8);
}

#[test]
fn header_big_endian() {
    let h = header(false);
    let p = parse_header(&h).unwrap();
    assert!(matches!(p.byte_order, ByteOrder::Big));
    assert_eq!(p.first_ifd_offset, 8);
}

#[test]
fn header_rejects_bad_magic() {
    let mut h = header(true);
    h[2] = 99;
    assert!(parse_header(&h).is_err());
}

#[test]
fn entry_inline_short() {
    let mut v = Vec::new();
    v.extend_from_slice(b"II");
    v.extend_from_slice(&42u16.to_le_bytes());
    v.extend_from_slice(&8u32.to_le_bytes());
    v.extend_from_slice(&1u16.to_le_bytes());
    v.extend_from_slice(&256u16.to_le_bytes());
    v.extend_from_slice(&3u16.to_le_bytes());
    v.extend_from_slice(&1u32.to_le_bytes());
    v.extend_from_slice(&[0x40, 0x00, 0x00, 0x00]);
    v.extend_from_slice(&0u32.to_le_bytes());
    let h = parse_header(&v).unwrap();
    let (entries, next) = parse_ifd(&v, h.byte_order, h.first_ifd_offset).unwrap();
    assert_eq!(next, 0);
    assert_eq!(entries.len(), 1);
    let e = &entries[0];
    assert_eq!(e.tag, 256);
    assert_eq!(e.field_type, 3);
    assert_eq!(e.count, 1);
    assert_eq!(e.as_u32(h.byte_order).unwrap(), 0x40);
}

#[test]
fn entry_offset_long_array() {
    let mut v = Vec::new();
    v.extend_from_slice(b"II");
    v.extend_from_slice(&42u16.to_le_bytes());
    v.extend_from_slice(&8u32.to_le_bytes());
    v.extend_from_slice(&1u16.to_le_bytes());
    v.extend_from_slice(&273u16.to_le_bytes());
    v.extend_from_slice(&4u16.to_le_bytes());
    v.extend_from_slice(&2u32.to_le_bytes());
    v.extend_from_slice(&26u32.to_le_bytes());
    v.extend_from_slice(&0u32.to_le_bytes());
    v.extend_from_slice(&100u32.to_le_bytes());
    v.extend_from_slice(&200u32.to_le_bytes());
    let h = parse_header(&v).unwrap();
    let (entries, _next) = parse_ifd(&v, h.byte_order, h.first_ifd_offset).unwrap();
    let vs = entries[0].as_u32_vec(h.byte_order).unwrap();
    assert_eq!(vs, vec![100, 200]);
}

#[test]
fn values_of_an_unknown_type_are_not_read() {
    let mut f = b"II\x2a\x00\x08\x00\x00\x00".to_vec();
    f.extend_from_slice(&[1, 0, 0x34, 0x12, 99, 0, 2, 0, 0, 0, 1, 2, 3, 4, 0, 0, 0, 0]);
    let header = parse_header(&f).unwrap();
    let (entries, next) = parse_ifd_in(&f, header.byte_order, header.variant, header.first_ifd_offset).unwrap();
    assert_eq!(next, 0);
    assert_eq!((entries[0].tag, entries[0].field_type, entries[0].count), (0x1234, 99, 2));
    assert!(entries[0].data.is_empty());
}
