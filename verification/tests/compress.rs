use oxideav_tiff::compress::{pack_deflate, pack_packbits, pack_zstd, unpack_deflate, unpack_packbits, unpack_zstd};
use oxideav_tiff::lzw::{pack_lzw, unpack_lzw, LzwTrie};

#[test]
fn packbits_roundtrip_replicates() {
    let src = vec![0xAA; 200];
    let p = pack_packbits(&src);
    let back = unpack_packbits(&p, src.len()).unwrap();
    assert_eq!(back, src);
}

#[test]
fn packbits_roundtrip_literals() {
    let src: Vec<u8> = (0..50).collect();
    let p = pack_packbits(&src);
    let back = unpack_packbits(&p, src.len()).unwrap();
    assert_eq!(back, src);
}

#[test]
fn packbits_mixed() {
    let mut src = vec![0u8; 10];
    src.extend_from_slice(&[1, 2, 3, 4, 5]);
    src.extend(std::iter::repeat(0xFF).take(20));
    let p = pack_packbits(&src);
    let back = unpack_packbits(&p, src.len()).unwrap();
    assert_eq!(back, src);
}

#[test]
fn packbits_noop_byte_skipped() {
    let input = vec![0x80, 0x00, b'A'];
    let out = unpack_packbits(&input, 1).unwrap();
    assert_eq!(out, b"A");
}

#[test]
fn lzw_roundtrip_short() {
    let src = b"TOBEORNOTTOBEORTOBEORNOT".to_vec();
    let encoded = pack_lzw(&src);
    let back = unpack_lzw(&encoded, src.len()).unwrap();
    assert_eq!(back, src);
}

#[test]
fn lzw_roundtrip_zeros() {
    let src = vec![0u8; 4096];
    let encoded = pack_lzw(&src);
    let back = unpack_lzw(&encoded, src.len()).unwrap();
    assert_eq!(back, src);
}

#[test]
fn lzw_rejects_first_code_above_leaf_range() {
    let err = unpack_lzw(&[0x81, 0x00, 0x00], 64).unwrap_err();
    let msg = format!("{err:?}");
    assert!(
        msg.contains("first code after Clear"),
        "unexpected error: {msg}"
    );
}

#[test]
fn lzw_initial_reserve_is_bounded() {
    let out = unpack_lzw(&[], usize::MAX / 2).unwrap();
    assert!(out.is_empty());
    let out = unpack_packbits(&[], usize::MAX / 2).unwrap();
    assert!(out.is_empty());
}

#[test]
fn deflate_output_is_bounded() {
    let src = vec![0u8; 1024];
    let encoded = pack_deflate(&src).unwrap();
    let back = unpack_deflate(&encoded, src.len()).unwrap();
    assert_eq!(back, src);
}

#[test]
fn deflate_cap_exceeded_errors() {
    let src = vec![0u8; 4096];
    let encoded = pack_deflate(&src).unwrap();
    assert!(unpack_deflate(&encoded, 16).is_err());
}

#[test]
fn zstd_roundtrip_zeros() {
    let src = vec![0u8; 4096];
    let encoded = pack_zstd(&src).unwrap();
    assert_eq!(&encoded[..4], &[0x28, 0xB5, 0x2F, 0xFD]);
    let back = unpack_zstd(&encoded, src.len()).unwrap();
    assert_eq!(back, src);
}

#[test]
fn zstd_roundtrip_random_8k() {
    let mut s: u32 = 0x2545_F491;
    let src: Vec<u8> = (0..8192)
        .map(|_| {
            s ^= s << 13;
            s ^= s >> 17;
            s ^= s << 5;
            s as u8
        })
        .collect();
    let encoded = pack_zstd(&src).unwrap();
    let back = unpack_zstd(&encoded, src.len()).unwrap();
    assert_eq!(back, src);
}

#[test]
fn zstd_roundtrip_textlike() {
    let motif = b"row of sample bytes 01234567 ";
    let mut src = Vec::with_capacity(motif.len() * 512);
    for _ in 0..512 {
        src.extend_from_slice(motif);
    }
    let encoded = pack_zstd(&src).unwrap();
    let back = unpack_zstd(&encoded, src.len()).unwrap();
    assert_eq!(back, src);
}

#[test]
fn zstd_cap_exceeded_errors() {
    let src = vec![0u8; 4096];
    let encoded = pack_zstd(&src).unwrap();
    assert!(unpack_zstd(&encoded, 16).is_err());
}

#[test]
fn zstd_garbage_input_errors() {
    assert!(unpack_zstd(&[0xDE, 0xAD, 0xBE, 0xEF, 0x00], 64).is_err());
    assert!(unpack_zstd(&[0x28, 0xB5, 0x2F, 0xFD], 64).is_err());
    assert!(unpack_zstd(&[], 64).is_err());
}

#[test]
fn lzw_roundtrip_random_8k() {
    let mut s: u32 = 0x9E37_79B9;
    let src: Vec<u8> = (0..8192)
        .map(|_| {
            s ^= s << 13;
            s ^= s >> 17;
            s ^= s << 5;
            s as u8
        })
        .collect();
    let encoded = pack_lzw(&src);
    let back = unpack_lzw(&encoded, src.len()).unwrap();
    assert_eq!(back, src);
}

#[test]
fn lzw_roundtrip_table_fill_clear() {
    let mut s: u32 = 0xC0FF_EE17;
    let src: Vec<u8> = (0..(64 * 1024))
        .map(|_| {
            s ^= s << 13;
            s ^= s >> 17;
            s ^= s << 5;
            s as u8
        })
        .collect();
    let encoded = pack_lzw(&src);
    let back = unpack_lzw(&encoded, src.len()).unwrap();
    assert_eq!(back, src);
}

#[test]
fn lzw_roundtrip_byte_pattern_repeated() {
    let motif = b"abcdefghijklmnop";
    let mut src = Vec::with_capacity(motif.len() * 2048);
    for _ in 0..2048 {
        src.extend_from_slice(motif);
    }
    let encoded = pack_lzw(&src);
    let back = unpack_lzw(&encoded, src.len()).unwrap();
    assert_eq!(back, src);
}

#[test]
fn lzw_trie_lookup_and_insert() {
    let mut t = LzwTrie::new();
    t.insert(b'A' as u16, b'B', 258);
    t.insert(b'A' as u16, b'C', 259);
    assert_eq!(t.lookup(b'A' as u16, b'B'), Some(258));
    assert_eq!(t.lookup(b'A' as u16, b'C'), Some(259));
    assert_eq!(t.lookup(b'A' as u16, b'X'), None);
    assert_eq!(t.lookup(b'Z' as u16, b'B'), None);
    t.reset();
    assert_eq!(t.lookup(b'A' as u16, b'B'), None);
    t.insert(b'A' as u16, b'B', 258);
    assert_eq!(t.lookup(b'A' as u16, b'B'), Some(258));
}

#[test]
fn lzw_strips_end_where_they_should() {
    let src: Vec<u8> = (0..5000u32).map(|i| (i.wrapping_mul(i) / 7 % 256) as u8).collect();
    for n in 0..src.len() {
        if n < 2500 || n > 4000 {
            let made = pack_lzw(&src[..n]);
            assert_eq!(unpack_lzw(&made, n + 1000).unwrap(), &src[..n], "{n}");
        }
    }
}

#[test]
fn lzw_faults_are_named() {
    let e = unpack_lzw(&[0x81, 0x00, 0x00], 64).unwrap_err();
    assert_eq!(e.text(), "invalid data: TIFF/LZW: first code after Clear is 258, must be a leaf (<256)");
    let e = unpack_lzw(&[0x80, 0x10, 0x60, 0x60], 64).unwrap_err();
    assert_eq!(e.text(), "invalid data: TIFF/LZW: code 259 is beyond the next table entry");
}
