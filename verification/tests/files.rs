use oxideav_tiff::decoder::{decode_page, DecodedPage};
use oxideav_tiff::encoder::{encode_with_webp, webp_files};
use oxideav_tiff::ifd::{parse_header, parse_ifd_in};
use oxideav_tiff::{decode_tiff, decode_tiff_all, encode_tiff, encode_tiff_multi};
use oxideav_tiff::{EncodePage, EncodePixelFormat, TiffCompression, TiffError, TiffPixelFormat};

struct Field {
    tag: u16,
    kind: u16,
    count: u32,
    data: Vec<u8>,
}

fn short(tag: u16, v: &[u16]) -> Field {
    Field { tag, kind: 3, count: v.len() as u32, data: v.iter().flat_map(|x| x.to_be_bytes()).collect() }
}

fn long(tag: u16, v: u32) -> Field {
    Field { tag, kind: 4, count: 1, data: v.to_be_bytes().to_vec() }
}

/// A file of one strip, high bytes first.
fn file(mut fields: Vec<Field>, strip: &[u8]) -> Vec<u8> {
    fields.push(long(273, 8));
    fields.push(long(279, strip.len() as u32));
    fields.sort_by_key(|f| f.tag);
    let mut out = b"MM\x00\x2a".to_vec();
    let mut places = Vec::new();
    let mut body = strip.to_vec();
    for f in &fields {
        places.push(8 + body.len() as u32);
        if f.data.len() > 4 {
            body.extend_from_slice(&f.data);
        }
    }
    out.extend_from_slice(&(8 + body.len() as u32).to_be_bytes());
    out.extend_from_slice(&body);
    out.extend_from_slice(&(fields.len() as u16).to_be_bytes());
    for (f, place) in fields.iter().zip(places) {
        out.extend_from_slice(&f.tag.to_be_bytes());
        out.extend_from_slice(&f.kind.to_be_bytes());
        out.extend_from_slice(&f.count.to_be_bytes());
        let mut slot = [0u8; 4];
        if f.data.len() > 4 {
            slot = place.to_be_bytes();
        } else {
            slot[..f.data.len()].copy_from_slice(&f.data);
        }
        out.extend_from_slice(&slot);
    }
    out.extend_from_slice(&[0; 4]);
    out
}

fn fields(w: u32, h: u32, bits: &[u16], compression: u16, photometric: u16) -> Vec<Field> {
    vec![
        long(256, w),
        long(257, h),
        short(258, bits),
        short(259, &[compression]),
        short(262, &[photometric]),
        short(277, &[bits.len() as u16]),
    ]
}

fn pixels(n: usize) -> Vec<u8> {
    (0..n).map(|i| ((i * i + 3 * i) % 251) as u8).collect()
}

fn page<'a>(width: u32, height: u32, kind: EncodePixelFormat<'a>, compression: TiffCompression) -> EncodePage<'a> {
    EncodePage { width, height, kind, compression, predictor: false, planar: false, tiling: None, bigtiff: false }
}

#[test]
fn every_arrangement_is_read_back() {
    let rgb = pixels(37 * 21 * 3);
    for compression in [
        TiffCompression::Uncompressed,
        TiffCompression::PackBits,
        TiffCompression::Lzw,
        TiffCompression::Deflate,
        TiffCompression::Zstd,
    ] {
        for predictor in [false, true] {
            for planar in [false, true] {
                for tiling in [None, Some((16, 32))] {
                    for bigtiff in [false, true] {
                        let p = EncodePage {
                            predictor,
                            planar,
                            tiling,
                            bigtiff,
                            ..page(37, 21, EncodePixelFormat::Rgb24 { pixels: &rgb }, compression)
                        };
                        let d = decode_tiff(&encode_tiff(&p).unwrap()).unwrap();
                        assert_eq!(d.pixel_format, TiffPixelFormat::Rgb24);
                        assert_eq!(d.frame.planes[0].data, rgb, "{p:?}");
                    }
                }
            }
        }
    }
}

#[test]
fn webp_pages_are_read_back() {
    let rgb = pixels(20 * 9 * 3);
    let kind = EncodePixelFormat::Rgb24 { pixels: &rgb };
    let bytes = encode_tiff(&page(20, 9, kind, TiffCompression::WebP)).unwrap();
    assert!(bytes.windows(4).any(|w| w == b"RIFF"));
    assert_eq!(decode_tiff(&bytes).unwrap().frame.planes[0].data, rgb);
    let p = EncodePage { tiling: Some((16, 16)), ..page(20, 9, kind, TiffCompression::WebP) };
    assert_eq!(decode_tiff(&encode_tiff(&p).unwrap()).unwrap().frame.planes[0].data, rgb);
}

#[test]
fn webp_takes_only_rgb() {
    let gray = pixels(64);
    let p = page(8, 8, EncodePixelFormat::Gray8 { pixels: &gray }, TiffCompression::WebP);
    assert!(matches!(encode_tiff(&p), Err(TiffError::InvalidData(_))));
}

#[test]
fn bilevel_pages_are_read_back() {
    let bits = pixels(3 * 5);
    let want: Vec<u8> = (0..5 * 20)
        .map(|i| if bits[i / 20 * 3 + i % 20 / 8] >> (7 - i % 20 % 8) & 1 == 1 { 0 } else { 255 })
        .collect();
    for compression in [
        TiffCompression::Uncompressed,
        TiffCompression::CcittRle,
        TiffCompression::CcittT4OneD { eol_byte_aligned: true },
        TiffCompression::CcittT4TwoD { eol_byte_aligned: false },
        TiffCompression::CcittT4TwoD { eol_byte_aligned: true },
        TiffCompression::CcittT6,
        TiffCompression::Lzw,
    ] {
        let p = page(20, 5, EncodePixelFormat::Bilevel { pixels: &bits }, compression);
        let f = encode_tiff(&p).unwrap();
        assert_eq!(decode_tiff(&f).unwrap().frame.planes[0].data, want, "{compression:?}");
        let p = page(20, 5, EncodePixelFormat::TransparencyMask { pixels: &bits }, compression);
        let f = encode_tiff(&p).unwrap();
        let inverse: Vec<u8> = want.iter().map(|b| 255 - b).collect();
        assert_eq!(decode_tiff(&f).unwrap().frame.planes[0].data, inverse, "{compression:?}");
    }
}

#[test]
fn inks_are_mixed() {
    let p = page(
        2,
        1,
        EncodePixelFormat::Cmyk32 { pixels: &[255, 0, 0, 0, 0, 0, 0, 255] },
        TiffCompression::Uncompressed,
    );
    assert_eq!(decode_tiff(&encode_tiff(&p).unwrap()).unwrap().frame.planes[0].data, vec![0, 255, 255, 0, 0, 0]);
}

#[test]
fn all_pages_in_order() {
    let a = pixels(6);
    let b = pixels(36);
    let pages = [
        page(3, 2, EncodePixelFormat::Gray8 { pixels: &a }, TiffCompression::Lzw),
        page(4, 3, EncodePixelFormat::Rgb24 { pixels: &b }, TiffCompression::PackBits),
        page(2, 3, EncodePixelFormat::Gray8 { pixels: &a }, TiffCompression::Deflate),
    ];
    let f = encode_tiff_multi(&pages).unwrap();
    let all = decode_tiff_all(&f).unwrap();
    assert_eq!(all.len(), 3);
    assert_eq!(all[0].planes[0].data, a);
    assert_eq!(all[1].planes[0].data, b);
    assert_eq!((all[2].width, all[2].height), (2, 3));
    assert_eq!(decode_tiff(&f).unwrap().frame.planes[0].data, a);
}

#[test]
fn no_page_is_no_file() {
    assert!(matches!(encode_tiff_multi(&[]), Err(TiffError::InvalidData(_))));
}

#[test]
fn pages_agree_on_the_variant() {
    let a = pixels(4);
    let p = page(2, 2, EncodePixelFormat::Gray8 { pixels: &a }, TiffCompression::Uncompressed);
    let q = EncodePage { bigtiff: true, ..p };
    assert!(encode_tiff_multi(&[p, q]).is_err());
    assert_eq!(&encode_tiff(&q).unwrap()[..8], &[0x49, 0x49, 43, 0, 8, 0, 0, 0]);
}

#[test]
fn palettes_have_colours() {
    let a = [0u8; 4];
    let p = page(2, 2, EncodePixelFormat::Palette8 { indices: &a, palette: &[] }, TiffCompression::Uncompressed);
    assert!(encode_tiff(&p).is_err());
}

#[test]
fn samples_of_four_bits() {
    let f = file(fields(3, 2, &[4], 1, 1), &[0x0F, 0x70, 0x18, 0xF0]);
    assert_eq!(decode_tiff(&f).unwrap().frame.planes[0].data, vec![0, 255, 119, 17, 136, 255]);
    let f = file(fields(3, 2, &[4], 1, 0), &[0x0F, 0x70, 0x18, 0xF0]);
    assert_eq!(decode_tiff(&f).unwrap().frame.planes[0].data, vec![255, 0, 136, 238, 119, 0]);
}

#[test]
fn samples_of_sixteen_bits() {
    let f = file(fields(1, 1, &[16, 16, 16], 1, 2), &[1, 2, 3, 4, 5, 6]);
    let d = decode_tiff(&f).unwrap();
    assert_eq!(d.pixel_format, TiffPixelFormat::Rgb48Le);
    assert_eq!(d.frame.planes[0].data, vec![2, 1, 4, 3, 6, 5]);
}

#[test]
fn signed_samples_are_shifted() {
    let mut v = fields(3, 1, &[8], 1, 1);
    v.push(short(339, &[2]));
    assert_eq!(decode_tiff(&file(v, &[0x80, 0, 0x7F])).unwrap().frame.planes[0].data, vec![0, 128, 255]);
}

#[test]
fn extra_samples_are_dropped() {
    let f = file(fields(2, 1, &[8, 8, 8, 8], 1, 2), &[1, 2, 3, 9, 4, 5, 6, 9]);
    assert_eq!(decode_tiff(&f).unwrap().frame.planes[0].data, vec![1, 2, 3, 4, 5, 6]);
}

#[test]
fn orientations_turn_the_picture() {
    let want: [&[u8]; 8] = [
        &[1, 2, 3, 4, 5, 6],
        &[3, 2, 1, 6, 5, 4],
        &[6, 5, 4, 3, 2, 1],
        &[4, 5, 6, 1, 2, 3],
        &[1, 4, 2, 5, 3, 6],
        &[4, 1, 5, 2, 6, 3],
        &[6, 3, 5, 2, 4, 1],
        &[3, 6, 2, 5, 1, 4],
    ];
    for (i, w) in want.iter().enumerate() {
        let mut v = fields(3, 2, &[8], 1, 1);
        v.push(short(274, &[i as u16 + 1]));
        let d = decode_tiff(&file(v, &[1, 2, 3, 4, 5, 6])).unwrap();
        assert_eq!(&d.frame.planes[0].data[..], *w, "orientation {}", i + 1);
        assert_eq!((d.width, d.height), if i < 4 { (3, 2) } else { (2, 3) });
    }
}

#[test]
fn shared_chrominance() {
    let mut v = fields(2, 2, &[8, 8, 8], 1, 6);
    v.push(short(530, &[2, 2]));
    let d = decode_tiff(&file(v, &[10, 200, 100, 255, 128, 128])).unwrap();
    let want: Vec<u8> = [10u8, 200, 100, 255].iter().flat_map(|&y| [y, y, y]).collect();
    assert_eq!(d.frame.planes[0].data, want);
}

#[test]
fn fill_order_is_reversed() {
    let mut v = fields(8, 1, &[1], 1, 1);
    v.push(short(266, &[2]));
    let d = decode_tiff(&file(v, &[0b0000_0011])).unwrap();
    assert_eq!(d.frame.planes[0].data.len(), 8);
}

#[test]
fn unknown_compression_is_unsupported_or_invalid() {
    assert!(decode_tiff(&file(fields(1, 1, &[8], 999, 1), &[0])).is_err());
}

#[test]
fn short_strips_are_invalid() {
    assert!(matches!(decode_tiff(&file(fields(2, 2, &[8], 1, 1), &[0, 1])), Err(TiffError::InvalidData(_))));
}

#[test]
fn missing_dimensions_are_invalid() {
    let v = vec![long(256, 2), short(258, &[8])];
    assert!(matches!(decode_tiff(&file(v, &[0, 1])), Err(TiffError::InvalidData(_))));
    assert!(matches!(decode_tiff(&file(fields(0, 2, &[8], 1, 1), &[0])), Err(TiffError::InvalidData(_))));
}

#[test]
fn a_chain_that_bites_its_tail_is_invalid() {
    let mut f = file(fields(1, 1, &[8], 1, 1), &[9]);
    let first = u32::from_be_bytes([f[4], f[5], f[6], f[7]]);
    let n = f.len();
    f[n - 4..].copy_from_slice(&first.to_be_bytes());
    assert!(decode_tiff(&f).is_ok());
    assert!(matches!(decode_tiff_all(&f), Err(TiffError::InvalidData(_))));
}

#[test]
fn floating_point_samples_come_out_raw() {
    let mut v = fields(1, 1, &[32], 1, 1);
    v.push(short(339, &[3]));
    let f = file(v, &1.5f32.to_be_bytes());
    assert!(matches!(decode_tiff(&f), Err(TiffError::Unsupported(_))));
    let h = parse_header(&f).unwrap();
    let (entries, _) = parse_ifd_in(&f, h.byte_order, h.variant, h.first_ifd_offset).unwrap();
    match decode_page(&f, h.byte_order, &entries).unwrap() {
        DecodedPage::Float(r) => {
            assert_eq!((r.width, r.height, r.components, r.bps, r.invert), (1, 1, 1, 32, false));
            assert_eq!(r.data, 1.5f32.to_be_bytes());
        }
        DecodedPage::Image(_) => panic!("not a picture yet"),
    }
}

#[test]
fn errors_as_text() {
    assert_eq!(TiffError::invalid("x").text(), "invalid data: x");
    assert_eq!(TiffError::unsupported("y").text(), "unsupported: y");
}

#[test]
fn white_fax_page_is_one_byte() {
    let p = page(8, 1, EncodePixelFormat::Bilevel { pixels: &[0] }, TiffCompression::CcittT6);
    let f = encode_tiff(&p).unwrap();
    assert_eq!(f[8], 0x80);
    let header = parse_header(&f).unwrap();
    let (entries, next) = parse_ifd_in(&f, header.byte_order, header.variant, header.first_ifd_offset).unwrap();
    assert_eq!(next, 0);
    let value = |tag: u16| entries.iter().find(|e| e.tag == tag).unwrap().as_u32(header.byte_order).unwrap();
    assert_eq!(value(259), 4);
    assert_eq!(value(273), 8);
    assert_eq!(value(279), 1);
    assert_eq!(value(293), 0);
    assert_eq!(decode_tiff(&f).unwrap().frame.planes[0].data, vec![255; 8]);
}

#[test]
fn colours_after_the_first_256_are_not_used() {
    let palette: Vec<[u8; 3]> = (0..300).map(|i| [(i % 256) as u8, (i / 2 % 256) as u8, 7]).collect();
    let indices = pixels(20);
    let all = page(5, 4, EncodePixelFormat::Palette8 { indices: &indices, palette: &palette }, TiffCompression::Lzw);
    let some = page(5, 4, EncodePixelFormat::Palette8 { indices: &indices, palette: &palette[..256] }, TiffCompression::Lzw);
    let f = encode_tiff(&all).unwrap();
    assert_eq!(f, encode_tiff(&some).unwrap());
    let want: Vec<u8> = indices.iter().flat_map(|i| palette[*i as usize]).collect();
    assert_eq!(decode_tiff(&f).unwrap().frame.planes[0].data, want);
    let none = page(5, 4, EncodePixelFormat::Palette8 { indices: &indices, palette: &[] }, TiffCompression::Lzw);
    assert!(matches!(encode_tiff(&none), Err(TiffError::InvalidData(_))));
}

#[test]
fn given_webp_files_are_laid_out() {
    let rgb = pixels(4 * 2 * 3);
    let p = page(4, 2, EncodePixelFormat::Rgb24 { pixels: &rgb }, TiffCompression::WebP);
    let f = encode_with_webp(&[p], &[vec![Some(b"made elsewhere".to_vec())]]).unwrap();
    assert_eq!(&f[8..22], b"made elsewhere");
    assert!(matches!(encode_with_webp(&[p], &[vec![None]]), Err(TiffError::InvalidData(_))));
    assert!(matches!(encode_with_webp(&[p], &[]), Err(TiffError::InvalidData(_))));
    let made = webp_files(&p);
    assert_eq!(made.len(), 1);
    let f = encode_with_webp(&[p], &[made]).unwrap();
    assert_eq!(decode_tiff(&f).unwrap().frame.planes[0].data, rgb);
    let q = page(4, 2, EncodePixelFormat::Rgb24 { pixels: &rgb }, TiffCompression::Lzw);
    assert!(webp_files(&q).is_empty());
    assert_eq!(encode_with_webp(&[q], &[]).unwrap(), encode_tiff(&q).unwrap());
}

#[test]
fn variants_of_the_format_show_the_same() {
    let gray = pixels(9 * 7);
    let classic = page(9, 7, EncodePixelFormat::Gray8 { pixels: &gray }, TiffCompression::PackBits);
    let big = EncodePage { bigtiff: true, ..classic };
    let f = encode_tiff(&classic).unwrap();
    let g = encode_tiff(&big).unwrap();
    assert_eq!(f[0..4], [0x49, 0x49, 42, 0]);
    assert_eq!(g[0..4], [0x49, 0x49, 43, 0]);
    assert_eq!(decode_tiff(&f).unwrap().frame.planes[0].data, decode_tiff(&g).unwrap().frame.planes[0].data);
}

#[test]
fn a_page_without_pixels_is_not_decoded() {
    let p = page(0, 0, EncodePixelFormat::Gray8 { pixels: &[] }, TiffCompression::Uncompressed);
    for bigtiff in [false, true] {
        let f = encode_tiff(&EncodePage { bigtiff, ..p }).unwrap();
        assert!(matches!(decode_tiff(&f), Err(TiffError::InvalidData(_))));
    }
}

#[test]
fn webp_pages_have_a_greatest_side() {
    let mut state: u32 = 1;
    let row: Vec<u8> = (0..16385 * 3)
        .map(|_| {
            state = state.wrapping_mul(1664525).wrapping_add(1013904223);
            (state >> 24) as u8
        })
        .collect();
    let p = page(16385, 1, EncodePixelFormat::Rgb24 { pixels: &row }, TiffCompression::WebP);
    assert!(matches!(encode_tiff(&p), Err(TiffError::InvalidData(_))));
    assert!(webp_files(&p)[0].is_none());
    let p = page(16384, 1, EncodePixelFormat::Rgb24 { pixels: &row[3..] }, TiffCompression::WebP);
    let f = encode_tiff(&p).unwrap();
    assert_eq!(decode_tiff(&f).unwrap().frame.planes[0].data, row[3..]);
}

#[test]
fn every_tile_has_a_webp_file() {
    let rgb = pixels(40 * 20 * 3);
    let p = page(40, 20, EncodePixelFormat::Rgb24 { pixels: &rgb }, TiffCompression::WebP);
    let made = webp_files(&EncodePage { tiling: Some((16, 16)), ..p });
    assert_eq!(made.len(), 6);
    assert!(made.iter().all(|f| f.is_some()));
}

#[test]
fn inks_go_into_webp_files() {
    let inks = pixels(5 * 4 * 4);
    let p = page(5, 4, EncodePixelFormat::Cmyk32 { pixels: &inks }, TiffCompression::WebP);
    let f = encode_tiff(&p).unwrap();
    let plain = encode_tiff(&EncodePage { compression: TiffCompression::Uncompressed, ..p }).unwrap();
    assert_eq!(decode_tiff(&f).unwrap().frame.planes[0].data, decode_tiff(&plain).unwrap().frame.planes[0].data);
}
