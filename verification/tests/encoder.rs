use oxideav_tiff::ifd::ByteOrder;
use oxideav_tiff::predictor::{apply_horizontal_predictor, forward_horizontal_predictor};
use oxideav_tiff::types::{PLANAR_CHUNKY, PLANAR_SEPARATE};
use oxideav_tiff::types::{PREDICTOR_HORIZONTAL, TAG_PLANAR_CONFIGURATION, TAG_PREDICTOR, TAG_ROWS_PER_STRIP};
use oxideav_tiff::types::{TAG_STRIP_BYTE_COUNTS, TAG_STRIP_OFFSETS, TAG_TILE_BYTE_COUNTS, TAG_TILE_LENGTH};
use oxideav_tiff::types::{TAG_TILE_OFFSETS, TAG_TILE_WIDTH, TYPE_SHORT};
use oxideav_tiff::{decode_tiff, decode_tiff_all, encode_tiff, encode_tiff_multi};
use oxideav_tiff::{EncodePage, EncodePixelFormat, TiffCompression, TiffPixelFormat};


fn ramp_gray8(w: u32, h: u32) -> Vec<u8> {
    let mut v = Vec::with_capacity((w * h) as usize);
    for y in 0..h {
        for x in 0..w {
            v.push(((x + y) & 0xFF) as u8);
        }
    }
    v
}

fn pattern_rgb(w: u32, h: u32) -> Vec<u8> {
    let mut v = Vec::with_capacity((w * h * 3) as usize);
    for y in 0..h as u8 {
        for x in 0..w as u8 {
            v.push(x.wrapping_mul(7));
            v.push(y.wrapping_mul(11));
            v.push((x ^ y).wrapping_mul(13));
        }
    }
    v
}

#[test]
fn encode_gray8_uncompressed_roundtrip() {
    let pixels = ramp_gray8(32, 32);
    let page = EncodePage {
        width: 32,
        height: 32,
        kind: EncodePixelFormat::Gray8 { pixels: &pixels },
        compression: TiffCompression::Uncompressed,
        predictor: false,
        planar: false,
        tiling: None,
        bigtiff: false,
    };
    let bytes = encode_tiff(&page).unwrap();
    let d = decode_tiff(&bytes).unwrap();
    assert_eq!((d.width, d.height), (32, 32));
    assert_eq!(d.frame.planes[0].data, pixels);
}

#[test]
fn encode_gray16_packbits_roundtrip() {
    let mut pixels = Vec::with_capacity(16 * 16 * 2);
    for y in 0u16..16 {
        for x in 0u16..16 {
            let v = (x.wrapping_mul(257)).wrapping_add(y.wrapping_mul(513));
            pixels.extend_from_slice(&v.to_le_bytes());
        }
    }
    let page = EncodePage {
        width: 16,
        height: 16,
        kind: EncodePixelFormat::Gray16Le { pixels: &pixels },
        compression: TiffCompression::PackBits,
        predictor: false,
        planar: false,
        tiling: None,
        bigtiff: false,
    };
    let bytes = encode_tiff(&page).unwrap();
    let d = decode_tiff(&bytes).unwrap();
    assert_eq!((d.width, d.height), (16, 16));
    assert_eq!(d.frame.planes[0].data, pixels);
}

#[test]
fn encode_rgb24_lzw_roundtrip() {
    let pixels = pattern_rgb(20, 20);
    let page = EncodePage {
        width: 20,
        height: 20,
        kind: EncodePixelFormat::Rgb24 { pixels: &pixels },
        compression: TiffCompression::Lzw,
        predictor: false,
        planar: false,
        tiling: None,
        bigtiff: false,
    };
    let bytes = encode_tiff(&page).unwrap();
    let d = decode_tiff(&bytes).unwrap();
    assert_eq!((d.width, d.height), (20, 20));
    assert_eq!(d.frame.planes[0].data, pixels);
}

#[test]
fn encode_rgb24_deflate_roundtrip() {
    let pixels = pattern_rgb(48, 24);
    let page = EncodePage {
        width: 48,
        height: 24,
        kind: EncodePixelFormat::Rgb24 { pixels: &pixels },
        compression: TiffCompression::Deflate,
        predictor: false,
        planar: false,
        tiling: None,
        bigtiff: false,
    };
    let bytes = encode_tiff(&page).unwrap();
    let d = decode_tiff(&bytes).unwrap();
    assert_eq!((d.width, d.height), (48, 24));
    assert_eq!(d.frame.planes[0].data, pixels);
}

#[test]
fn encode_palette_roundtrip() {
    let palette = vec![[0, 0, 0], [255, 0, 0], [0, 255, 0], [255, 255, 255]];
    let mut indices = Vec::with_capacity(8 * 8);
    for y in 0..8 {
        for x in 0..8 {
            indices.push(((x ^ y) & 0x3) as u8);
        }
    }
    let page = EncodePage {
        width: 8,
        height: 8,
        kind: EncodePixelFormat::Palette8 {
            indices: &indices,
            palette: &palette,
        },
        compression: TiffCompression::Uncompressed,
        predictor: false,
        planar: false,
        tiling: None,
        bigtiff: false,
    };
    let bytes = encode_tiff(&page).unwrap();
    let d = decode_tiff(&bytes).unwrap();
    let mut want = Vec::with_capacity(8 * 8 * 3);
    for &idx in &indices {
        let p = palette[idx as usize];
        want.extend_from_slice(&p);
    }
    assert_eq!(d.frame.planes[0].data, want);
}

fn bilevel_checkerboard(w: u32, h: u32) -> Vec<u8> {
    let row_bytes = (w as usize).div_ceil(8);
    let mut out = vec![0u8; row_bytes * h as usize];
    for y in 0..h as usize {
        for x in 0..w as usize {
            let on = ((x ^ y) & 1) == 1;
            if on {
                out[y * row_bytes + x / 8] |= 1 << (7 - (x % 8));
            }
        }
    }
    out
}

fn bilevel_stripes(w: u32, h: u32, period: u32) -> Vec<u8> {
    let row_bytes = (w as usize).div_ceil(8);
    let mut out = vec![0u8; row_bytes * h as usize];
    for y in 0..h as usize {
        for x in 0..w as usize {
            let on = ((x as u32) / period) & 1 == 1;
            if on {
                out[y * row_bytes + x / 8] |= 1 << (7 - (x % 8));
            }
        }
    }
    out
}

fn bilevel_to_gray8(packed: &[u8], w: u32, h: u32) -> Vec<u8> {
    let row_bytes = (w as usize).div_ceil(8);
    let mut out = Vec::with_capacity((w * h) as usize);
    for y in 0..h as usize {
        let row = &packed[y * row_bytes..(y + 1) * row_bytes];
        for x in 0..w as usize {
            let bit = (row[x / 8] >> (7 - (x % 8))) & 1;
            out.push(if bit == 0 { 0xFF } else { 0x00 });
        }
    }
    out
}

#[test]
fn encode_bilevel_uncompressed_roundtrip() {
    let packed = bilevel_checkerboard(24, 16);
    let page = EncodePage {
        width: 24,
        height: 16,
        kind: EncodePixelFormat::Bilevel { pixels: &packed },
        compression: TiffCompression::Uncompressed,
        predictor: false,
        planar: false,
        tiling: None,
        bigtiff: false,
    };
    let bytes = encode_tiff(&page).unwrap();
    let d = decode_tiff(&bytes).unwrap();
    assert_eq!((d.width, d.height), (24, 16));
    let want = bilevel_to_gray8(&packed, 24, 16);
    assert_eq!(d.frame.planes[0].data, want);
}

#[test]
fn encode_bilevel_ccitt_rle_roundtrip_checkerboard() {
    let packed = bilevel_checkerboard(16, 8);
    let page = EncodePage {
        width: 16,
        height: 8,
        kind: EncodePixelFormat::Bilevel { pixels: &packed },
        compression: TiffCompression::CcittRle,
        predictor: false,
        planar: false,
        tiling: None,
        bigtiff: false,
    };
    let bytes = encode_tiff(&page).unwrap();
    let d = decode_tiff(&bytes).unwrap();
    let want = bilevel_to_gray8(&packed, 16, 8);
    assert_eq!(d.frame.planes[0].data, want);
}

#[test]
fn encode_bilevel_ccitt_rle_roundtrip_stripes() {
    let packed = bilevel_stripes(128, 4, 16);
    let page = EncodePage {
        width: 128,
        height: 4,
        kind: EncodePixelFormat::Bilevel { pixels: &packed },
        compression: TiffCompression::CcittRle,
        predictor: false,
        planar: false,
        tiling: None,
        bigtiff: false,
    };
    let bytes = encode_tiff(&page).unwrap();
    let d = decode_tiff(&bytes).unwrap();
    let want = bilevel_to_gray8(&packed, 128, 4);
    assert_eq!(d.frame.planes[0].data, want);
}

#[test]
fn encode_bilevel_ccitt_t4_1d_roundtrip() {
    let packed = bilevel_stripes(96, 6, 8);
    let page = EncodePage {
        width: 96,
        height: 6,
        kind: EncodePixelFormat::Bilevel { pixels: &packed },
        compression: TiffCompression::CcittT4OneD {
            eol_byte_aligned: false,
        },
        predictor: false,
        planar: false,
        tiling: None,
        bigtiff: false,
    };
    let bytes = encode_tiff(&page).unwrap();
    let d = decode_tiff(&bytes).unwrap();
    let want = bilevel_to_gray8(&packed, 96, 6);
    assert_eq!(d.frame.planes[0].data, want);
}

#[test]
fn encode_bilevel_ccitt_t4_1d_byte_aligned_roundtrip() {
    let packed = bilevel_stripes(64, 8, 4);
    let page = EncodePage {
        width: 64,
        height: 8,
        kind: EncodePixelFormat::Bilevel { pixels: &packed },
        compression: TiffCompression::CcittT4OneD {
            eol_byte_aligned: true,
        },
        predictor: false,
        planar: false,
        tiling: None,
        bigtiff: false,
    };
    let bytes = encode_tiff(&page).unwrap();
    let d = decode_tiff(&bytes).unwrap();
    let want = bilevel_to_gray8(&packed, 64, 8);
    assert_eq!(d.frame.planes[0].data, want);
}

#[test]
fn encode_ccitt_rejects_non_bilevel() {
    let pixels = ramp_gray8(8, 8);
    let page = EncodePage {
        width: 8,
        height: 8,
        kind: EncodePixelFormat::Gray8 { pixels: &pixels },
        compression: TiffCompression::CcittRle,
        predictor: false,
        planar: false,
        tiling: None,
        bigtiff: false,
    };
    let r = encode_tiff(&page);
    assert!(r.is_err());
}

#[test]
fn encode_multi_page_chain() {
    let p1 = ramp_gray8(8, 8);
    let p2 = pattern_rgb(8, 8);
    let pages = vec![
        EncodePage {
            width: 8,
            height: 8,
            kind: EncodePixelFormat::Gray8 { pixels: &p1 },
            compression: TiffCompression::Uncompressed,
            predictor: false,
            planar: false,
            tiling: None,
            bigtiff: false,
        },
        EncodePage {
            width: 8,
            height: 8,
            kind: EncodePixelFormat::Rgb24 { pixels: &p2 },
            compression: TiffCompression::Lzw,
            predictor: false,
            planar: false,
            tiling: None,
            bigtiff: false,
        },
    ];
    let bytes = encode_tiff_multi(&pages).unwrap();
    let imgs = decode_tiff_all(&bytes).unwrap();
    assert_eq!(imgs.len(), 2);
    assert_eq!(imgs[0].width, 8);
    assert_eq!(imgs[0].planes[0].data, p1);
    assert_eq!(imgs[1].width, 8);
    assert_eq!(imgs[1].planes[0].data, p2);
}

fn pattern_gray16(w: u32, h: u32) -> Vec<u8> {
    let mut v = Vec::with_capacity((w * h * 2) as usize);
    for y in 0..h {
        for x in 0..w {
            let s = (x.wrapping_mul(311)).wrapping_add(y.wrapping_mul(101)) as u16;
            v.extend_from_slice(&s.to_le_bytes());
        }
    }
    v
}

fn predictor_roundtrip(
    width: u32,
    height: u32,
    kind: EncodePixelFormat<'_>,
    comp: TiffCompression,
) -> Vec<u8> {
    let page = EncodePage {
        width,
        height,
        kind,
        compression: comp,
        predictor: true,
        planar: false,
        tiling: None,
        bigtiff: false,
    };
    let bytes = encode_tiff(&page).unwrap();
    let d = decode_tiff(&bytes).unwrap();
    assert_eq!((d.width, d.height), (width, height));
    d.frame.planes[0].data.clone()
}

#[test]
fn encode_gray8_predictor_lzw_roundtrip() {
    let pixels = ramp_gray8(40, 24);
    let out = predictor_roundtrip(
        40,
        24,
        EncodePixelFormat::Gray8 { pixels: &pixels },
        TiffCompression::Lzw,
    );
    assert_eq!(out, pixels);
}

#[test]
fn encode_gray8_predictor_deflate_roundtrip() {
    let pixels = ramp_gray8(33, 17);
    let out = predictor_roundtrip(
        33,
        17,
        EncodePixelFormat::Gray8 { pixels: &pixels },
        TiffCompression::Deflate,
    );
    assert_eq!(out, pixels);
}

#[test]
fn encode_gray8_predictor_none_roundtrip() {
    let pixels = ramp_gray8(16, 16);
    let out = predictor_roundtrip(
        16,
        16,
        EncodePixelFormat::Gray8 { pixels: &pixels },
        TiffCompression::Uncompressed,
    );
    assert_eq!(out, pixels);
}

#[test]
fn encode_gray16_predictor_lzw_roundtrip() {
    let pixels = pattern_gray16(24, 20);
    let out = predictor_roundtrip(
        24,
        20,
        EncodePixelFormat::Gray16Le { pixels: &pixels },
        TiffCompression::Lzw,
    );
    assert_eq!(out, pixels);
}

#[test]
fn encode_gray16_predictor_deflate_roundtrip() {
    let pixels = pattern_gray16(15, 9);
    let out = predictor_roundtrip(
        15,
        9,
        EncodePixelFormat::Gray16Le { pixels: &pixels },
        TiffCompression::Deflate,
    );
    assert_eq!(out, pixels);
}

#[test]
fn encode_rgb24_predictor_lzw_roundtrip() {
    let pixels = pattern_rgb(28, 19);
    let out = predictor_roundtrip(
        28,
        19,
        EncodePixelFormat::Rgb24 { pixels: &pixels },
        TiffCompression::Lzw,
    );
    assert_eq!(out, pixels);
}

#[test]
fn encode_rgb24_predictor_deflate_roundtrip() {
    let pixels = pattern_rgb(11, 13);
    let out = predictor_roundtrip(
        11,
        13,
        EncodePixelFormat::Rgb24 { pixels: &pixels },
        TiffCompression::Deflate,
    );
    assert_eq!(out, pixels);
}

#[test]
fn encode_rgb24_predictor_packbits_roundtrip() {
    let pixels = pattern_rgb(9, 7);
    let out = predictor_roundtrip(
        9,
        7,
        EncodePixelFormat::Rgb24 { pixels: &pixels },
        TiffCompression::PackBits,
    );
    assert_eq!(out, pixels);
}

#[test]
fn encode_palette_predictor_roundtrip() {
    let palette = vec![[0, 0, 0], [255, 0, 0], [0, 255, 0], [255, 255, 255]];
    let mut indices = Vec::with_capacity(12 * 8);
    for y in 0..8u32 {
        for x in 0..12u32 {
            indices.push(((x + y) & 0x3) as u8);
        }
    }
    let page = EncodePage {
        width: 12,
        height: 8,
        kind: EncodePixelFormat::Palette8 {
            indices: &indices,
            palette: &palette,
        },
        compression: TiffCompression::Lzw,
        predictor: true,
        planar: false,
        tiling: None,
        bigtiff: false,
    };
    let bytes = encode_tiff(&page).unwrap();
    let d = decode_tiff(&bytes).unwrap();
    let mut want = Vec::with_capacity(12 * 8 * 3);
    for &idx in &indices {
        want.extend_from_slice(&palette[idx as usize]);
    }
    assert_eq!(d.frame.planes[0].data, want);
}

#[test]
fn encode_predictor_emits_tag_317() {
    let pixels = ramp_gray8(8, 8);
    let page = EncodePage {
        width: 8,
        height: 8,
        kind: EncodePixelFormat::Gray8 { pixels: &pixels },
        compression: TiffCompression::Lzw,
        predictor: true,
        planar: false,
        tiling: None,
        bigtiff: false,
    };
    let b = encode_tiff(&page).unwrap();
    let ifd_off = u32::from_le_bytes([b[4], b[5], b[6], b[7]]) as usize;
    let count = u16::from_le_bytes([b[ifd_off], b[ifd_off + 1]]) as usize;
    let mut found = None;
    for k in 0..count {
        let e = ifd_off + 2 + k * 12;
        let tag = u16::from_le_bytes([b[e], b[e + 1]]);
        if tag == TAG_PREDICTOR {
            let ty = u16::from_le_bytes([b[e + 2], b[e + 3]]);
            let val = u16::from_le_bytes([b[e + 8], b[e + 9]]);
            found = Some((ty, val));
        }
    }
    assert_eq!(found, Some((TYPE_SHORT, PREDICTOR_HORIZONTAL)));

    let page2 = EncodePage {
        width: 8,
        height: 8,
        kind: EncodePixelFormat::Gray8 { pixels: &pixels },
        compression: TiffCompression::Lzw,
        predictor: false,
        planar: false,
        tiling: None,
        bigtiff: false,
    };
    let b2 = encode_tiff(&page2).unwrap();
    let ifd2 = u32::from_le_bytes([b2[4], b2[5], b2[6], b2[7]]) as usize;
    let count2 = u16::from_le_bytes([b2[ifd2], b2[ifd2 + 1]]) as usize;
    for k in 0..count2 {
        let e = ifd2 + 2 + k * 12;
        let tag = u16::from_le_bytes([b2[e], b2[e + 1]]);
        assert_ne!(tag, TAG_PREDICTOR);
    }
}

#[test]
fn encode_predictor_rejects_bilevel() {
    let packed = bilevel_checkerboard(16, 8);
    let page = EncodePage {
        width: 16,
        height: 8,
        kind: EncodePixelFormat::Bilevel { pixels: &packed },
        compression: TiffCompression::Lzw,
        predictor: true,
        planar: false,
        tiling: None,
        bigtiff: false,
    };
    assert!(encode_tiff(&page).is_err());
}

#[test]
fn encode_predictor_rejects_ccitt() {
    let packed = bilevel_checkerboard(16, 8);
    let page = EncodePage {
        width: 16,
        height: 8,
        kind: EncodePixelFormat::Bilevel { pixels: &packed },
        compression: TiffCompression::CcittRle,
        predictor: true,
        planar: false,
        tiling: None,
        bigtiff: false,
    };
    assert!(encode_tiff(&page).is_err());
}

#[test]
fn forward_predictor_inverts_decoder_add_gray8() {
    let mut row = vec![10u8, 12, 9, 9, 200, 201];
    let orig = row.clone();
    forward_horizontal_predictor(&mut row, 6, 1, 1, 8, 6).unwrap();
    assert_eq!(row[0], 10);
    assert_eq!(row[1], 12u8.wrapping_sub(10));
    assert_eq!(row[5], 201u8.wrapping_sub(200));
    for x in 1..6 {
        row[x] = row[x].wrapping_add(row[x - 1]);
    }
    assert_eq!(row, orig);
}

fn planar_roundtrip(w: u32, h: u32, compression: TiffCompression, predictor: bool) {
    let pixels = pattern_rgb(w, h);
    let page = EncodePage {
        width: w,
        height: h,
        kind: EncodePixelFormat::Rgb24 { pixels: &pixels },
        compression,
        predictor,
        planar: true,
        tiling: None,
        bigtiff: false,
    };
    let bytes = encode_tiff(&page).unwrap();
    let d = decode_tiff(&bytes).unwrap();
    assert_eq!((d.width, d.height), (w, h));
    assert_eq!(d.frame.planes[0].data, pixels);
}

#[test]
fn encode_rgb24_planar_none_roundtrip() {
    planar_roundtrip(20, 16, TiffCompression::Uncompressed, false);
}

#[test]
fn encode_rgb24_planar_packbits_roundtrip() {
    planar_roundtrip(33, 9, TiffCompression::PackBits, false);
}

#[test]
fn encode_rgb24_planar_lzw_roundtrip() {
    planar_roundtrip(48, 24, TiffCompression::Lzw, false);
}

#[test]
fn encode_rgb24_planar_deflate_roundtrip() {
    planar_roundtrip(17, 31, TiffCompression::Deflate, false);
}

#[test]
fn encode_rgb24_planar_predictor_lzw_roundtrip() {
    planar_roundtrip(40, 20, TiffCompression::Lzw, true);
}

#[test]
fn encode_rgb24_planar_predictor_deflate_roundtrip() {
    planar_roundtrip(28, 28, TiffCompression::Deflate, true);
}

#[test]
fn encode_planar_emits_three_strips_and_config_2() {
    let pixels = pattern_rgb(16, 8);
    let page = EncodePage {
        width: 16,
        height: 8,
        kind: EncodePixelFormat::Rgb24 { pixels: &pixels },
        compression: TiffCompression::Uncompressed,
        predictor: false,
        planar: true,
        tiling: None,
        bigtiff: false,
    };
    let bytes = encode_tiff(&page).unwrap();

    assert_eq!(&bytes[0..2], b"II");
    let ifd_off = u32::from_le_bytes([bytes[4], bytes[5], bytes[6], bytes[7]]) as usize;
    let count = u16::from_le_bytes([bytes[ifd_off], bytes[ifd_off + 1]]) as usize;
    let mut planar_cfg = None;
    let mut strip_offsets_count = None;
    let mut strip_byte_counts_count = None;
    for k in 0..count {
        let e = ifd_off + 2 + k * 12;
        let tag = u16::from_le_bytes([bytes[e], bytes[e + 1]]);
        let cnt = u32::from_le_bytes([bytes[e + 4], bytes[e + 5], bytes[e + 6], bytes[e + 7]]);
        match tag {
            TAG_PLANAR_CONFIGURATION => {
                planar_cfg = Some(u16::from_le_bytes([bytes[e + 8], bytes[e + 9]]));
            }
            TAG_STRIP_OFFSETS => strip_offsets_count = Some(cnt),
            TAG_STRIP_BYTE_COUNTS => strip_byte_counts_count = Some(cnt),
            _ => {}
        }
    }
    assert_eq!(planar_cfg, Some(PLANAR_SEPARATE));
    assert_eq!(strip_offsets_count, Some(3));
    assert_eq!(strip_byte_counts_count, Some(3));
}

#[test]
fn encode_planar_rejects_single_sample_formats() {
    let g = ramp_gray8(8, 8);
    let page = EncodePage {
        width: 8,
        height: 8,
        kind: EncodePixelFormat::Gray8 { pixels: &g },
        compression: TiffCompression::Uncompressed,
        predictor: false,
        planar: true,
        tiling: None,
        bigtiff: false,
    };
    assert!(encode_tiff(&page).is_err());

    let palette = vec![[0u8, 0, 0], [255, 255, 255]];
    let indices = vec![0u8; 64];
    let page = EncodePage {
        width: 8,
        height: 8,
        kind: EncodePixelFormat::Palette8 {
            indices: &indices,
            palette: &palette,
        },
        compression: TiffCompression::Uncompressed,
        predictor: false,
        planar: true,
        tiling: None,
        bigtiff: false,
    };
    assert!(encode_tiff(&page).is_err());
}

#[test]
fn encode_chunky_still_single_strip_config_1() {
    let pixels = pattern_rgb(12, 6);
    let page = EncodePage {
        width: 12,
        height: 6,
        kind: EncodePixelFormat::Rgb24 { pixels: &pixels },
        compression: TiffCompression::Uncompressed,
        predictor: false,
        planar: false,
        tiling: None,
        bigtiff: false,
    };
    let bytes = encode_tiff(&page).unwrap();
    let ifd_off = u32::from_le_bytes([bytes[4], bytes[5], bytes[6], bytes[7]]) as usize;
    let count = u16::from_le_bytes([bytes[ifd_off], bytes[ifd_off + 1]]) as usize;
    for k in 0..count {
        let e = ifd_off + 2 + k * 12;
        let tag = u16::from_le_bytes([bytes[e], bytes[e + 1]]);
        let cnt = u32::from_le_bytes([bytes[e + 4], bytes[e + 5], bytes[e + 6], bytes[e + 7]]);
        if tag == TAG_PLANAR_CONFIGURATION {
            assert_eq!(
                u16::from_le_bytes([bytes[e + 8], bytes[e + 9]]),
                PLANAR_CHUNKY
            );
        }
        if tag == TAG_STRIP_OFFSETS || tag == TAG_STRIP_BYTE_COUNTS {
            assert_eq!(cnt, 1);
        }
    }
}

fn tile_roundtrip(
    width: u32,
    height: u32,
    kind: EncodePixelFormat<'_>,
    comp: TiffCompression,
    tiling: (u32, u32),
    predictor: bool,
) -> Vec<u8> {
    let page = EncodePage {
        width,
        height,
        kind,
        compression: comp,
        predictor,
        planar: false,
        tiling: Some(tiling),
        bigtiff: false,
    };
    let bytes = encode_tiff(&page).unwrap();
    let d = decode_tiff(&bytes).unwrap();
    assert_eq!((d.width, d.height), (width, height));
    d.frame.planes[0].data.clone()
}

#[test]
fn encode_gray8_tiled_single_tile_roundtrip() {
    let pixels = ramp_gray8(16, 16);
    let out = tile_roundtrip(
        16,
        16,
        EncodePixelFormat::Gray8 { pixels: &pixels },
        TiffCompression::Uncompressed,
        (16, 16),
        false,
    );
    assert_eq!(out, pixels);
}

#[test]
fn encode_gray8_tiled_grid_roundtrip() {
    let pixels = ramp_gray8(48, 32);
    for comp in [
        TiffCompression::Uncompressed,
        TiffCompression::PackBits,
        TiffCompression::Lzw,
        TiffCompression::Deflate,
    ] {
        let out = tile_roundtrip(
            48,
            32,
            EncodePixelFormat::Gray8 { pixels: &pixels },
            comp,
            (16, 16),
            false,
        );
        assert_eq!(out, pixels, "compression {comp:?}");
    }
}

#[test]
fn encode_gray8_tiled_edge_padding_roundtrip() {
    let pixels = ramp_gray8(40, 20);
    let out = tile_roundtrip(
        40,
        20,
        EncodePixelFormat::Gray8 { pixels: &pixels },
        TiffCompression::Lzw,
        (16, 16),
        false,
    );
    assert_eq!(out, pixels);
}

#[test]
fn encode_gray16_tiled_roundtrip() {
    let pixels = pattern_gray16(48, 32);
    let out = tile_roundtrip(
        48,
        32,
        EncodePixelFormat::Gray16Le { pixels: &pixels },
        TiffCompression::Deflate,
        (16, 16),
        false,
    );
    assert_eq!(out, pixels);
}

#[test]
fn encode_rgb24_tiled_roundtrip() {
    let pixels = pattern_rgb(50, 30);
    for comp in [
        TiffCompression::Uncompressed,
        TiffCompression::PackBits,
        TiffCompression::Lzw,
        TiffCompression::Deflate,
    ] {
        let out = tile_roundtrip(
            50,
            30,
            EncodePixelFormat::Rgb24 { pixels: &pixels },
            comp,
            (32, 16),
            false,
        );
        assert_eq!(out, pixels, "compression {comp:?}");
    }
}

#[test]
fn encode_rgb24_tiled_predictor_roundtrip() {
    let pixels = pattern_rgb(48, 32);
    let out = tile_roundtrip(
        48,
        32,
        EncodePixelFormat::Rgb24 { pixels: &pixels },
        TiffCompression::Lzw,
        (16, 16),
        true,
    );
    assert_eq!(out, pixels);
}

#[test]
fn encode_gray8_tiled_predictor_edge_roundtrip() {
    let pixels = ramp_gray8(40, 20);
    let out = tile_roundtrip(
        40,
        20,
        EncodePixelFormat::Gray8 { pixels: &pixels },
        TiffCompression::Deflate,
        (16, 16),
        true,
    );
    assert_eq!(out, pixels);
}

#[test]
fn encode_palette_tiled_roundtrip() {
    let palette = vec![[0, 0, 0], [255, 0, 0], [0, 255, 0], [255, 255, 255]];
    let mut indices = Vec::with_capacity(40 * 20);
    for y in 0..20u32 {
        for x in 0..40u32 {
            indices.push(((x + y) & 0x3) as u8);
        }
    }
    let page = EncodePage {
        width: 40,
        height: 20,
        kind: EncodePixelFormat::Palette8 {
            indices: &indices,
            palette: &palette,
        },
        compression: TiffCompression::Lzw,
        predictor: false,
        planar: false,
        tiling: Some((16, 16)),
        bigtiff: false,
    };
    let bytes = encode_tiff(&page).unwrap();
    let d = decode_tiff(&bytes).unwrap();
    let mut want = Vec::with_capacity(40 * 20 * 3);
    for &idx in &indices {
        want.extend_from_slice(&palette[idx as usize]);
    }
    assert_eq!(d.frame.planes[0].data, want);
}

#[test]
fn encode_tiled_emits_tile_tags_not_strip_tags() {
    let pixels = ramp_gray8(48, 32);
    let page = EncodePage {
        width: 48,
        height: 32,
        kind: EncodePixelFormat::Gray8 { pixels: &pixels },
        compression: TiffCompression::Uncompressed,
        predictor: false,
        planar: false,
        tiling: Some((16, 16)),
        bigtiff: false,
    };
    let b = encode_tiff(&page).unwrap();
    let ifd_off = u32::from_le_bytes([b[4], b[5], b[6], b[7]]) as usize;
    let count = u16::from_le_bytes([b[ifd_off], b[ifd_off + 1]]) as usize;
    let mut seen = std::collections::HashMap::new();
    for k in 0..count {
        let e = ifd_off + 2 + k * 12;
        let tag = u16::from_le_bytes([b[e], b[e + 1]]);
        let cnt = u32::from_le_bytes([b[e + 4], b[e + 5], b[e + 6], b[e + 7]]);
        seen.insert(tag, cnt);
    }
    assert!(!seen.contains_key(&TAG_STRIP_OFFSETS));
    assert!(!seen.contains_key(&TAG_STRIP_BYTE_COUNTS));
    assert!(!seen.contains_key(&TAG_ROWS_PER_STRIP));
    assert!(seen.contains_key(&TAG_TILE_WIDTH));
    assert!(seen.contains_key(&TAG_TILE_LENGTH));
    assert_eq!(seen.get(&TAG_TILE_OFFSETS), Some(&6));
    assert_eq!(seen.get(&TAG_TILE_BYTE_COUNTS), Some(&6));
    let mut prev = 0u16;
    for k in 0..count {
        let e = ifd_off + 2 + k * 12;
        let tag = u16::from_le_bytes([b[e], b[e + 1]]);
        assert!(tag > prev, "tag {tag} not after {prev}");
        prev = tag;
    }
}

#[test]
fn encode_tiling_rejects_non_multiple_of_16() {
    let pixels = ramp_gray8(32, 32);
    let page = EncodePage {
        width: 32,
        height: 32,
        kind: EncodePixelFormat::Gray8 { pixels: &pixels },
        compression: TiffCompression::Uncompressed,
        predictor: false,
        planar: false,
        tiling: Some((20, 16)),
        bigtiff: false,
    };
    assert!(encode_tiff(&page).is_err());
}

#[test]
fn encode_tiling_rejects_bilevel() {
    let packed = bilevel_checkerboard(32, 16);
    let page = EncodePage {
        width: 32,
        height: 16,
        kind: EncodePixelFormat::Bilevel { pixels: &packed },
        compression: TiffCompression::Uncompressed,
        predictor: false,
        planar: false,
        tiling: Some((16, 16)),
        bigtiff: false,
    };
    assert!(encode_tiff(&page).is_err());
}

#[test]
fn encode_tiling_rejects_ccitt() {
    let packed = bilevel_checkerboard(32, 16);
    let page = EncodePage {
        width: 32,
        height: 16,
        kind: EncodePixelFormat::Bilevel { pixels: &packed },
        compression: TiffCompression::CcittRle,
        predictor: false,
        planar: false,
        tiling: Some((16, 16)),
        bigtiff: false,
    };
    assert!(encode_tiff(&page).is_err());
}

#[test]
fn encode_tiling_planar_rgb24_roundtrips() {
    let pixels = pattern_rgb(32, 32);
    let page = EncodePage {
        width: 32,
        height: 32,
        kind: EncodePixelFormat::Rgb24 { pixels: &pixels },
        compression: TiffCompression::Lzw,
        predictor: false,
        planar: true,
        tiling: Some((16, 16)),
        bigtiff: false,
    };
    let bytes = encode_tiff(&page).expect("planar tiled encode");
    let d = decode_tiff(&bytes).expect("planar tiled decode");
    assert_eq!((d.width, d.height), (32, 32));
    assert_eq!(d.frame.planes[0].data, pixels);
}

#[test]
fn encode_tiled_multi_page_chain() {
    let p1 = ramp_gray8(48, 32);
    let p2 = pattern_rgb(16, 16);
    let pages = vec![
        EncodePage {
            width: 48,
            height: 32,
            kind: EncodePixelFormat::Gray8 { pixels: &p1 },
            compression: TiffCompression::Lzw,
            predictor: false,
            planar: false,
            tiling: Some((16, 16)),
            bigtiff: false,
        },
        EncodePage {
            width: 16,
            height: 16,
            kind: EncodePixelFormat::Rgb24 { pixels: &p2 },
            compression: TiffCompression::Uncompressed,
            predictor: false,
            planar: false,
            tiling: None,
            bigtiff: false,
        },
    ];
    let bytes = encode_tiff_multi(&pages).unwrap();
    let imgs = decode_tiff_all(&bytes).unwrap();
    assert_eq!(imgs.len(), 2);
    assert_eq!(imgs[0].planes[0].data, p1);
    assert_eq!(imgs[1].planes[0].data, p2);
}

fn pack_lab_byte(l_pct: f64, a_signed: i32, b_signed: i32) -> [u8; 3] {
    let l_byte = (l_pct * 255.0 / 100.0).round().clamp(0.0, 255.0) as u8;
    [l_byte, (a_signed as i8) as u8, (b_signed as i8) as u8]
}

fn lab_pattern_3sample(w: u32, h: u32) -> Vec<u8> {
    let mut v = Vec::with_capacity((w * h * 3) as usize);
    for y in 0..h {
        for x in 0..w {
            let l_pct = (x as f64) * 100.0 / (w as f64).max(1.0);
            let a_signed = -127 + (2 * 127 * (y as i32) / (h as i32).max(1));
            let b_signed = if (x ^ y) & 1 == 0 { 50 } else { -50 };
            v.extend_from_slice(&pack_lab_byte(l_pct, a_signed, b_signed));
        }
    }
    v
}

fn lab_l_ramp(w: u32, h: u32) -> Vec<u8> {
    let mut v = Vec::with_capacity((w * h) as usize);
    for y in 0..h {
        for x in 0..w {
            v.push(((x.wrapping_add(y)) & 0xFF) as u8);
        }
    }
    v
}

fn decode_3sample_cielab(pixels: &[u8], w: u32, h: u32) -> Vec<u8> {
    let row_bytes = (w as u64) * 3;
    let strip_bytes = row_bytes * (h as u64);
    assert_eq!(pixels.len() as u64, strip_bytes);
    let num_entries: u16 = 8;
    let ifd_offset: u32 = 8;
    let ifd_size: u32 = 2 + (num_entries as u32) * 12 + 4;
    let bps_blob_bytes: u32 = 3 * 2;
    let blobs_offset: u32 = ifd_offset + ifd_size;
    let bps_off = blobs_offset;
    let pixels_off = bps_off + bps_blob_bytes;
    let mut buf: Vec<u8> = Vec::new();
    buf.extend_from_slice(b"II");
    buf.extend_from_slice(&42u16.to_le_bytes());
    buf.extend_from_slice(&ifd_offset.to_le_bytes());
    buf.extend_from_slice(&num_entries.to_le_bytes());
    let push = |buf: &mut Vec<u8>, tag: u16, ft: u16, count: u32, v: [u8; 4]| {
        buf.extend_from_slice(&tag.to_le_bytes());
        buf.extend_from_slice(&ft.to_le_bytes());
        buf.extend_from_slice(&count.to_le_bytes());
        buf.extend_from_slice(&v);
    };
    push(&mut buf, 256, 4, 1, w.to_le_bytes());
    push(&mut buf, 257, 4, 1, h.to_le_bytes());
    push(&mut buf, 258, 3, 3, bps_off.to_le_bytes());
    let mut comp = [0u8; 4];
    comp[..2].copy_from_slice(&1u16.to_le_bytes());
    push(&mut buf, 259, 3, 1, comp);
    let mut ph = [0u8; 4];
    ph[..2].copy_from_slice(&8u16.to_le_bytes());
    push(&mut buf, 262, 3, 1, ph);
    push(&mut buf, 273, 4, 1, pixels_off.to_le_bytes());
    let mut spp = [0u8; 4];
    spp[..2].copy_from_slice(&3u16.to_le_bytes());
    push(&mut buf, 277, 3, 1, spp);
    push(&mut buf, 279, 4, 1, (strip_bytes as u32).to_le_bytes());
    buf.extend_from_slice(&0u32.to_le_bytes());
    for _ in 0..3u16 {
        buf.extend_from_slice(&8u16.to_le_bytes());
    }
    buf.extend_from_slice(pixels);
    decode_tiff(&buf).unwrap().frame.planes[0].data.clone()
}

fn decode_1sample_cielab(pixels: &[u8], w: u32, h: u32) -> Vec<u8> {
    let strip_bytes = (w as u64) * (h as u64);
    assert_eq!(pixels.len() as u64, strip_bytes);
    let num_entries: u16 = 8;
    let ifd_offset: u32 = 8;
    let ifd_size: u32 = 2 + (num_entries as u32) * 12 + 4;
    let blobs_offset: u32 = ifd_offset + ifd_size;
    let pixels_off = blobs_offset;
    let mut buf: Vec<u8> = Vec::new();
    buf.extend_from_slice(b"II");
    buf.extend_from_slice(&42u16.to_le_bytes());
    buf.extend_from_slice(&ifd_offset.to_le_bytes());
    buf.extend_from_slice(&num_entries.to_le_bytes());
    let push = |buf: &mut Vec<u8>, tag: u16, ft: u16, count: u32, v: [u8; 4]| {
        buf.extend_from_slice(&tag.to_le_bytes());
        buf.extend_from_slice(&ft.to_le_bytes());
        buf.extend_from_slice(&count.to_le_bytes());
        buf.extend_from_slice(&v);
    };
    push(&mut buf, 256, 4, 1, w.to_le_bytes());
    push(&mut buf, 257, 4, 1, h.to_le_bytes());
    let mut bps = [0u8; 4];
    bps[..2].copy_from_slice(&8u16.to_le_bytes());
    push(&mut buf, 258, 3, 1, bps);
    let mut comp = [0u8; 4];
    comp[..2].copy_from_slice(&1u16.to_le_bytes());
    push(&mut buf, 259, 3, 1, comp);
    let mut ph = [0u8; 4];
    ph[..2].copy_from_slice(&8u16.to_le_bytes());
    push(&mut buf, 262, 3, 1, ph);
    push(&mut buf, 273, 4, 1, pixels_off.to_le_bytes());
    let mut spp = [0u8; 4];
    spp[..2].copy_from_slice(&1u16.to_le_bytes());
    push(&mut buf, 277, 3, 1, spp);
    push(&mut buf, 279, 4, 1, (strip_bytes as u32).to_le_bytes());
    buf.extend_from_slice(&0u32.to_le_bytes());
    buf.extend_from_slice(pixels);
    decode_tiff(&buf).unwrap().frame.planes[0].data.clone()
}

#[test]
fn encode_cielab8_uncompressed_roundtrip() {
    let pixels = lab_pattern_3sample(8, 8);
    let page = EncodePage {
        width: 8,
        height: 8,
        kind: EncodePixelFormat::CieLab8 { pixels: &pixels },
        compression: TiffCompression::Uncompressed,
        predictor: false,
        planar: false,
        tiling: None,
        bigtiff: false,
    };
    let bytes = encode_tiff(&page).unwrap();
    let d = decode_tiff(&bytes).unwrap();
    assert_eq!((d.width, d.height), (8, 8));
    assert_eq!(d.pixel_format, TiffPixelFormat::Rgb24);
    let want = decode_3sample_cielab(&pixels, 8, 8);
    assert_eq!(d.frame.planes[0].data, want);
}

#[test]
fn encode_cielab8_compressors_match_uncompressed() {
    let pixels = lab_pattern_3sample(16, 8);
    let baseline = {
        let page = EncodePage {
            width: 16,
            height: 8,
            kind: EncodePixelFormat::CieLab8 { pixels: &pixels },
            compression: TiffCompression::Uncompressed,
            predictor: false,
            planar: false,
            tiling: None,
            bigtiff: false,
        };
        decode_tiff(&encode_tiff(&page).unwrap())
            .unwrap()
            .frame
            .planes[0]
            .data
            .clone()
    };
    for c in [
        TiffCompression::PackBits,
        TiffCompression::Lzw,
        TiffCompression::Deflate,
    ] {
        let page = EncodePage {
            width: 16,
            height: 8,
            kind: EncodePixelFormat::CieLab8 { pixels: &pixels },
            compression: c,
            predictor: false,
            planar: false,
            tiling: None,
            bigtiff: false,
        };
        let d = decode_tiff(&encode_tiff(&page).unwrap()).unwrap();
        assert_eq!(d.frame.planes[0].data, baseline, "compressor {:?}", c);
    }
}

#[test]
fn encode_cielab8_predictor_composes() {
    let pixels = lab_pattern_3sample(20, 12);
    let no_pred = {
        let page = EncodePage {
            width: 20,
            height: 12,
            kind: EncodePixelFormat::CieLab8 { pixels: &pixels },
            compression: TiffCompression::Lzw,
            predictor: false,
            planar: false,
            tiling: None,
            bigtiff: false,
        };
        decode_tiff(&encode_tiff(&page).unwrap())
            .unwrap()
            .frame
            .planes[0]
            .data
            .clone()
    };
    let with_pred = {
        let page = EncodePage {
            width: 20,
            height: 12,
            kind: EncodePixelFormat::CieLab8 { pixels: &pixels },
            compression: TiffCompression::Lzw,
            predictor: true,
            planar: false,
            tiling: None,
            bigtiff: false,
        };
        decode_tiff(&encode_tiff(&page).unwrap())
            .unwrap()
            .frame
            .planes[0]
            .data
            .clone()
    };
    assert_eq!(no_pred, with_pred);
}

#[test]
fn encode_cielab8_planar_composes() {
    let pixels = lab_pattern_3sample(16, 8);
    let chunky = {
        let page = EncodePage {
            width: 16,
            height: 8,
            kind: EncodePixelFormat::CieLab8 { pixels: &pixels },
            compression: TiffCompression::Deflate,
            predictor: false,
            planar: false,
            tiling: None,
            bigtiff: false,
        };
        decode_tiff(&encode_tiff(&page).unwrap())
            .unwrap()
            .frame
            .planes[0]
            .data
            .clone()
    };
    let planar = {
        let page = EncodePage {
            width: 16,
            height: 8,
            kind: EncodePixelFormat::CieLab8 { pixels: &pixels },
            compression: TiffCompression::Deflate,
            predictor: false,
            planar: true,
            tiling: None,
            bigtiff: false,
        };
        decode_tiff(&encode_tiff(&page).unwrap())
            .unwrap()
            .frame
            .planes[0]
            .data
            .clone()
    };
    assert_eq!(chunky, planar);
}

#[test]
fn encode_cielab8_tiled_composes() {
    let pixels = lab_pattern_3sample(32, 32);
    let strip = {
        let page = EncodePage {
            width: 32,
            height: 32,
            kind: EncodePixelFormat::CieLab8 { pixels: &pixels },
            compression: TiffCompression::Lzw,
            predictor: false,
            planar: false,
            tiling: None,
            bigtiff: false,
        };
        decode_tiff(&encode_tiff(&page).unwrap())
            .unwrap()
            .frame
            .planes[0]
            .data
            .clone()
    };
    let tiled = {
        let page = EncodePage {
            width: 32,
            height: 32,
            kind: EncodePixelFormat::CieLab8 { pixels: &pixels },
            compression: TiffCompression::Lzw,
            predictor: false,
            planar: false,
            tiling: Some((16, 16)),
            bigtiff: false,
        };
        decode_tiff(&encode_tiff(&page).unwrap())
            .unwrap()
            .frame
            .planes[0]
            .data
            .clone()
    };
    assert_eq!(strip, tiled);
}

#[test]
fn encode_cielab8_bigtiff_composes() {
    let pixels = lab_pattern_3sample(8, 8);
    let page = EncodePage {
        width: 8,
        height: 8,
        kind: EncodePixelFormat::CieLab8 { pixels: &pixels },
        compression: TiffCompression::Deflate,
        predictor: false,
        planar: false,
        tiling: None,
        bigtiff: true,
    };
    let bytes = encode_tiff(&page).unwrap();
    assert_eq!(&bytes[..2], b"II");
    assert_eq!(u16::from_le_bytes([bytes[2], bytes[3]]), 43);
    let d = decode_tiff(&bytes).unwrap();
    let want = decode_3sample_cielab(&pixels, 8, 8);
    assert_eq!(d.frame.planes[0].data, want);
}

#[test]
fn encode_cielab8_rejects_ccitt() {
    let pixels = lab_pattern_3sample(8, 8);
    let page = EncodePage {
        width: 8,
        height: 8,
        kind: EncodePixelFormat::CieLab8 { pixels: &pixels },
        compression: TiffCompression::CcittRle,
        predictor: false,
        planar: false,
        tiling: None,
        bigtiff: false,
    };
    let err = encode_tiff(&page).unwrap_err();
    assert!(err.text().contains("CCITT"));
}

#[test]
fn encode_cielab8_wrong_buffer_size_rejected() {
    let bad = vec![0u8; 100];
    let page = EncodePage {
        width: 8,
        height: 8,
        kind: EncodePixelFormat::CieLab8 { pixels: &bad },
        compression: TiffCompression::Uncompressed,
        predictor: false,
        planar: false,
        tiling: None,
        bigtiff: false,
    };
    let err = encode_tiff(&page).unwrap_err();
    assert!(err.text().contains("CieLab8"));
}

#[test]
fn encode_cielab_l8_roundtrip() {
    let pixels = lab_l_ramp(8, 4);
    let page = EncodePage {
        width: 8,
        height: 4,
        kind: EncodePixelFormat::CieLabL8 { pixels: &pixels },
        compression: TiffCompression::Uncompressed,
        predictor: false,
        planar: false,
        tiling: None,
        bigtiff: false,
    };
    let bytes = encode_tiff(&page).unwrap();
    let d = decode_tiff(&bytes).unwrap();
    assert_eq!((d.width, d.height), (8, 4));
    assert_eq!(d.pixel_format, TiffPixelFormat::Gray8);
    let want = decode_1sample_cielab(&pixels, 8, 4);
    assert_eq!(d.frame.planes[0].data, want);
}

#[test]
fn encode_cielab_l8_rejects_planar() {
    let pixels = lab_l_ramp(8, 4);
    let page = EncodePage {
        width: 8,
        height: 4,
        kind: EncodePixelFormat::CieLabL8 { pixels: &pixels },
        compression: TiffCompression::Uncompressed,
        predictor: false,
        planar: true,
        tiling: None,
        bigtiff: false,
    };
    let err = encode_tiff(&page).unwrap_err();
    assert!(err.text().contains("PlanarConfiguration"));
}

#[test]
fn encode_cielab_writes_photometric_8() {
    let pixels = lab_pattern_3sample(8, 8);
    let page = EncodePage {
        width: 8,
        height: 8,
        kind: EncodePixelFormat::CieLab8 { pixels: &pixels },
        compression: TiffCompression::Uncompressed,
        predictor: false,
        planar: false,
        tiling: None,
        bigtiff: false,
    };
    let bytes = encode_tiff(&page).unwrap();
    let ifd_off = u32::from_le_bytes([bytes[4], bytes[5], bytes[6], bytes[7]]) as usize;
    let count = u16::from_le_bytes([bytes[ifd_off], bytes[ifd_off + 1]]) as usize;
    let mut found = None;
    for k in 0..count {
        let entry_off = ifd_off + 2 + k * 12;
        let tag = u16::from_le_bytes([bytes[entry_off], bytes[entry_off + 1]]);
        if tag == 262 {
            let val = u16::from_le_bytes([bytes[entry_off + 8], bytes[entry_off + 9]]);
            found = Some(val);
        }
    }
    assert_eq!(found, Some(8), "expected PhotometricInterpretation = 8");
}

#[test]
fn bytes_after_the_last_whole_sample_stay() {
    let mut buf = vec![1, 0, 3, 0, 9, 5, 0, 4, 0, 8];
    forward_horizontal_predictor(&mut buf, 2, 2, 1, 16, 5).unwrap();
    assert_eq!(buf, vec![1, 0, 2, 0, 9, 5, 0, 255, 255, 8]);
    apply_horizontal_predictor(&mut buf, 2, 2, 1, 16, 5, ByteOrder::Little).unwrap();
    assert_eq!(buf, vec![1, 0, 3, 0, 9, 5, 0, 4, 0, 8]);
}
