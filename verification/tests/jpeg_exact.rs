use oxideav_tiff::huffman::HuffSpec;
use oxideav_tiff::huffman_stats::HuffStats;
use oxideav_tiff::ifd::ByteOrder;
use oxideav_tiff::jpeg_enc::{encode_frame, gather_stats, scaled_quant_table, JpegComponent, JpegFrame, JpegProcess};
use oxideav_tiff::jpeg_enc::{JpegTableSet, QUANT_LUMINANCE_K1};
use oxideav_tiff::jpeg_wrap::{build_jpeg_segments, plan_segments, JpegOptions, JpegPageInput};
use oxideav_tiff::{decode_tiff, decode_tiff_all, encode_tiff, encode_tiff_multi};
use oxideav_tiff::{EncodePage, EncodePixelFormat, TiffCompression};

fn component(samples: &[u16]) -> JpegComponent<'_> {
    JpegComponent { samples, width: 4, height: 3, h: 1, v: 1, quant_id: 0, huff_id: 0 }
}

fn lossless(samples: &[u16], predictor: u8) -> Vec<u8> {
    let frame = JpegFrame { width: 4, height: 3, precision: 8, process: JpegProcess::Lossless { predictor } };
    let mut t = JpegTableSet::default();
    let mut all = HuffStats::default();
    for s in 0..=16 {
        all.count(s);
    }
    t.dc[0] = Some(all.to_spec());
    encode_frame(&frame, &[component(samples)], &t, true, &[]).unwrap()
}

#[test]
fn other_samples_have_another_lossless_stream() {
    let samples: Vec<u16> = (0..12).map(|i| (i * 37 % 256) as u16).collect();
    for predictor in 1..=7 {
        let stream = lossless(&samples, predictor);
        assert_eq!(stream, lossless(&samples, predictor));
        for i in 0..12 {
            let mut other = samples.clone();
            other[i] ^= 1;
            assert_ne!(stream, lossless(&other, predictor));
        }
    }
}

fn usual() -> JpegTableSet {
    let mut t = JpegTableSet::default();
    t.quant[0] = Some(scaled_quant_table(&QUANT_LUMINANCE_K1, 50, 8));
    t.dc[0] = Some(HuffSpec::k3_dc_luminance());
    t.ac[0] = Some(HuffSpec::k5_ac_luminance());
    t
}

#[test]
fn other_coefficients_have_another_stream() {
    let samples = [128u16; 12];
    let frame = JpegFrame { width: 4, height: 3, precision: 8, process: JpegProcess::Dct };
    let code = |q: [i16; 64]| encode_frame(&frame, &[component(&samples)], &usual(), false, &[q]).unwrap();
    let mut q = [0i16; 64];
    q[0] = -1024;
    q[1] = 1023;
    q[63] = -1023;
    let stream = code(q);
    for i in 0..64 {
        let mut other = q;
        other[i] = if q[i] == 0 { 1 } else { 0 };
        assert_ne!(stream, code(other));
    }
}

#[test]
fn every_small_coefficient_has_a_usual_code() {
    let samples = [128u16; 12];
    let frame = JpegFrame { width: 4, height: 3, precision: 8, process: JpegProcess::Dct };
    for v in [1i16, -1, 2, -3, 7, -8, 255, -512, 1023, -1023] {
        for i in 1..64 {
            let mut q = [0i16; 64];
            q[i] = v;
            assert!(encode_frame(&frame, &[component(&samples)], &usual(), true, &[q]).is_ok());
        }
    }
    let mut q = [0i16; 64];
    q[5] = 1024;
    assert!(encode_frame(&frame, &[component(&samples)], &usual(), true, &[q]).is_err());
}

#[test]
fn eight_bit_pages_always_have_streams() {
    let raw: Vec<u8> = (0..17 * 9 * 3).map(|i| (i * 31 % 256) as u8).collect();
    for (planar, tiling, subsampling) in [
        (false, None, (1, 1)),
        (false, None, (2, 2)),
        (false, Some((16, 16)), (4, 2)),
        (true, None, (2, 1)),
        (true, Some((16, 16)), (2, 2)),
    ] {
        let p = JpegPageInput {
            raw: &raw,
            width: 17,
            height: 9,
            spp: 3,
            bits: 8,
            photometric: 6,
            subsampling,
            planar,
            tiling,
            rows_per_strip: 8,
            opts: JpegOptions::default(),
        };
        let coefs: Vec<Vec<[i16; 64]>> = plan_segments(&p)
            .unwrap()
            .iter()
            .map(|s| {
                let n = oxideav_tiff::jpeg_enc::sample_blocks(&s.frame(8, p.opts.process), &s.components()).unwrap().len();
                vec![[-1023i16; 64]; n]
            })
            .collect();
        assert_eq!(build_jpeg_segments(&p, &coefs).unwrap().segments.len(), coefs.len());
    }
}

#[test]
fn statistics_count_what_is_coded() {
    let samples = [128u16; 12];
    let frame = JpegFrame { width: 4, height: 3, precision: 8, process: JpegProcess::Dct };
    let empty = || [HuffStats::default(), HuffStats::default(), HuffStats::default(), HuffStats::default()];
    let (mut dc, mut ac) = (empty(), empty());
    let mut q = [0i16; 64];
    q[0] = 5;
    gather_stats(&frame, &[component(&samples)], &usual(), &mut dc, &mut ac, &[q]).unwrap();
    assert_eq!(dc[0].freq[3], 1);
    assert_eq!(ac[0].freq[0], 1);
    assert!(dc[1].is_empty() && ac[1].is_empty());
}

fn page<'a>(pixels: &'a [u8], compression: TiffCompression, tiling: Option<(u32, u32)>, bigtiff: bool) -> EncodePage<'a> {
    EncodePage {
        width: 5,
        height: 4,
        kind: EncodePixelFormat::Gray8 { pixels },
        compression,
        predictor: false,
        planar: false,
        tiling,
        bigtiff,
    }
}

#[test]
fn storage_does_not_show() {
    let pixels: Vec<u8> = (0..20).map(|i| 11 * i).collect();
    for (compression, tiling, bigtiff) in [
        (TiffCompression::Uncompressed, None, false),
        (TiffCompression::PackBits, Some((16, 16)), true),
        (TiffCompression::Lzw, None, true),
        (TiffCompression::Deflate, Some((16, 16)), false),
        (TiffCompression::Zstd, None, false),
    ] {
        let file = encode_tiff(&page(&pixels, compression, tiling, bigtiff)).unwrap();
        assert_eq!(decode_tiff(&file).unwrap().frame.planes[0].data, pixels);
    }
}

#[test]
fn the_first_picture_is_the_first_of_all() {
    let (a, b) = ([1u8; 20], [2u8; 20]);
    let pages = [page(&a, TiffCompression::Lzw, None, false), page(&b, TiffCompression::PackBits, None, false)];
    let file = encode_tiff_multi(&pages).unwrap();
    let all = decode_tiff_all(&file).unwrap();
    assert_eq!(all.len(), 2);
    assert_eq!(all[0].planes[0].data, decode_tiff(&file).unwrap().frame.planes[0].data);
}

#[test]
fn directories_stand_at_even_places() {
    for n in 1..6 {
        let pixels = vec![7u8; n];
        let p = EncodePage {
            width: n as u32,
            height: 1,
            kind: EncodePixelFormat::Gray8 { pixels: &pixels },
            compression: TiffCompression::Uncompressed,
            predictor: false,
            planar: false,
            tiling: None,
            bigtiff: false,
        };
        let file = encode_tiff(&p).unwrap();
        assert_eq!(u32::from_le_bytes([file[4], file[5], file[6], file[7]]) % 2, 0);
    }
}

#[test]
fn numbers_in_both_byte_orders() {
    let b = [0xFFu8, 0xFE, 0x01, 0x02];
    assert_eq!(ByteOrder::Little.read_u16(&b), 0xFEFF);
    assert_eq!(ByteOrder::Big.read_u16(&b), 0xFFFE);
    assert_eq!(ByteOrder::Little.read_i32(&b), 0x0201_FEFF);
    assert_eq!(ByteOrder::Big.read_i32(&b), -130_814);
}
