use oxideav_tiff::decode_tiff;
use oxideav_tiff::huffman::HuffSpec;
use oxideav_tiff::jpeg_enc::{encode_frame, sample_blocks, scaled_quant_table, JpegComponent, JpegFrame, JpegProcess};
use oxideav_tiff::jpeg_enc::{JpegTableSet, QUANT_LUMINANCE_K1};
use oxideav_tiff::TiffPixelFormat;

fn smooth(w: usize, h: usize) -> Vec<u16> {
    (0..w * h).map(|i| (40 + 5 * (i % w) + 3 * (i / w)) as u16).collect()
}

fn tables() -> JpegTableSet {
    let mut t = JpegTableSet::default();
    t.quant[0] = Some(scaled_quant_table(&QUANT_LUMINANCE_K1, 95, 8));
    t.dc[0] = Some(HuffSpec::k3_dc_luminance());
    t.ac[0] = Some(HuffSpec::k5_ac_luminance());
    t
}

fn transform(samples: &[i16; 64], quant: &[u16; 64]) -> [i16; 64] {
    let basis = |x: usize, u: usize| {
        let c = if u == 0 { std::f64::consts::FRAC_1_SQRT_2 } else { 1.0 };
        c / 2.0 * ((2 * x + 1) as f64 * u as f64 * std::f64::consts::PI / 16.0).cos()
    };
    let mut out = [0i16; 64];
    for v in 0..8 {
        for u in 0..8 {
            let mut sum = 0.0;
            for y in 0..8 {
                for x in 0..8 {
                    sum += samples[8 * y + x] as f64 * basis(y, v) * basis(x, u);
                }
            }
            out[8 * v + u] = (sum / quant[8 * v + u] as f64).round() as i16;
        }
    }
    out
}

fn stream(samples: &[u16], w: usize, h: usize, emit_tables: bool) -> Vec<u8> {
    let frame = JpegFrame { width: w as u16, height: h as u16, precision: 8, process: JpegProcess::Dct };
    let comp = JpegComponent { samples, width: w, height: h, h: 1, v: 1, quant_id: 0, huff_id: 0 };
    let t = tables();
    let blocks: Vec<[i16; 64]> = sample_blocks(&frame, &[comp])
        .unwrap()
        .iter()
        .map(|b| transform(&b.samples, &t.quant[0].unwrap()))
        .collect();
    encode_frame(&frame, &[comp], &t, emit_tables, &blocks).unwrap()
}

fn push(out: &mut Vec<u8>, tag: u16, kind: u16, count: u32, value: u32) {
    out.extend_from_slice(&tag.to_le_bytes());
    out.extend_from_slice(&kind.to_le_bytes());
    out.extend_from_slice(&count.to_le_bytes());
    out.extend_from_slice(&value.to_le_bytes());
}

fn page(w: u32, h: u32, compression: u32, parts: &[Vec<u8>], rows: u32, shared: Option<&[u8]>) -> Vec<u8> {
    let mut out = b"II\x2a\x00\0\0\0\0".to_vec();
    let mut places = Vec::new();
    for p in parts {
        places.push(out.len() as u32);
        out.extend_from_slice(p);
    }
    let tables_at = out.len() as u32;
    out.extend_from_slice(shared.unwrap_or(&[]));
    let offsets_at = out.len() as u32;
    for p in &places {
        out.extend_from_slice(&p.to_le_bytes());
    }
    let counts_at = out.len() as u32;
    for p in parts {
        out.extend_from_slice(&(p.len() as u32).to_le_bytes());
    }
    let ifd = out.len() as u32;
    out[4..8].copy_from_slice(&ifd.to_le_bytes());
    let n = parts.len() as u32;
    let old = compression == 6;
    let count = 9 + shared.is_some() as u16 + if old { 3 } else { 0 };
    out.extend_from_slice(&count.to_le_bytes());
    push(&mut out, 256, 4, 1, w);
    push(&mut out, 257, 4, 1, h);
    push(&mut out, 258, 3, 1, 8);
    push(&mut out, 259, 3, 1, compression);
    push(&mut out, 262, 3, 1, 1);
    push(&mut out, 273, 4, n, if n == 1 { places[0] } else { offsets_at });
    push(&mut out, 277, 3, 1, 1);
    push(&mut out, 278, 4, 1, rows);
    push(&mut out, 279, 4, n, if n == 1 { parts[0].len() as u32 } else { counts_at });
    if let Some(t) = shared {
        push(&mut out, 347, 7, t.len() as u32, tables_at);
    }
    if old {
        push(&mut out, 512, 3, 1, 1);
        push(&mut out, 513, 4, 1, places[0]);
        push(&mut out, 514, 4, 1, parts[0].len() as u32);
    }
    out.extend_from_slice(&[0; 4]);
    out
}

fn close(got: &[u8], want: &[u16]) {
    assert_eq!(got.len(), want.len());
    for (i, (&g, &w)) in got.iter().zip(want).enumerate() {
        assert!((g as i32 - w as i32).abs() <= 6, "sample {i}: {g} for {w}");
    }
}

#[test]
fn a_coded_strip_is_decoded() {
    let s = smooth(16, 12);
    let f = page(16, 12, 7, &[stream(&s, 16, 12, true)], 12, None);
    let d = decode_tiff(&f).unwrap();
    assert_eq!((d.width, d.height, d.pixel_format), (16, 12, TiffPixelFormat::Gray8));
    close(&d.frame.planes[0].data, &s);
}

#[test]
fn strips_with_shared_tables_are_decoded() {
    let s = smooth(16, 12);
    let parts = [stream(&s[..128], 16, 8, false), stream(&s[128..], 16, 4, false)];
    let t = tables().tables_stream(true);
    let f = page(16, 12, 7, &parts, 8, Some(&t));
    close(&decode_tiff(&f).unwrap().frame.planes[0].data, &s);
    let f = page(16, 12, 7, &parts, 8, None);
    assert!(decode_tiff(&f).is_err());
}

#[test]
fn an_old_interchange_stream_is_decoded() {
    let s = smooth(16, 16);
    let f = page(16, 16, 6, &[stream(&s, 16, 16, true)], 16, None);
    close(&decode_tiff(&f).unwrap().frame.planes[0].data, &s);
}
