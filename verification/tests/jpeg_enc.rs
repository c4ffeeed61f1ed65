use oxideav_tiff::huffman::{HuffCodes, HuffSpec, VAL_AC_CHROMINANCE, VAL_AC_LUMINANCE};
use oxideav_tiff::huffman_stats::HuffStats;
use oxideav_tiff::jpeg_enc::{category, encode_frame, extra_bits, gather_stats, sample_blocks, scaled_quant_table};
use oxideav_tiff::jpeg_enc::{BitWriter, JpegComponent, JpegFrame, JpegProcess, JpegTableSet, NATURAL};
use oxideav_tiff::jpeg_enc::{DHT, DQT, EOI, QUANT_CHROMINANCE_K2, QUANT_LUMINANCE_K1, SOF0, SOF1, SOF3, SOI, SOS};

#[test]
fn k3_k6_bits_sum_matches_huffval_length() {
    for spec in [
        HuffSpec::k3_dc_luminance(),
        HuffSpec::k4_dc_chrominance(),
        HuffSpec::k5_ac_luminance(),
        HuffSpec::k6_ac_chrominance(),
    ] {
        spec.validate().unwrap();
        HuffCodes::from_spec(&spec).unwrap();
    }
    assert_eq!(VAL_AC_LUMINANCE.len(), 162);
    assert_eq!(VAL_AC_CHROMINANCE.len(), 162);
}

#[test]
fn k3_code_words_match_the_printed_table() {
    let codes = HuffCodes::from_spec(&HuffSpec::k3_dc_luminance()).unwrap();
    assert_eq!((codes.code[0], codes.size[0]), (0b00, 2));
    assert_eq!((codes.code[1], codes.size[1]), (0b010, 3));
    assert_eq!((codes.code[5], codes.size[5]), (0b110, 3));
    assert_eq!((codes.code[6], codes.size[6]), (0b1110, 4));
    assert_eq!((codes.code[11], codes.size[11]), (0b111111110, 9));
    let codes = HuffCodes::from_spec(&HuffSpec::k4_dc_chrominance()).unwrap();
    assert_eq!((codes.code[0], codes.size[0]), (0b00, 2));
    assert_eq!((codes.code[2], codes.size[2]), (0b10, 2));
    assert_eq!((codes.code[3], codes.size[3]), (0b110, 3));
    assert_eq!((codes.code[11], codes.size[11]), (0b11111111110, 11));
}

#[test]
fn standard_tables_have_no_all_ones_code() {
    for spec in [
        HuffSpec::k3_dc_luminance(),
        HuffSpec::k4_dc_chrominance(),
        HuffSpec::k5_ac_luminance(),
        HuffSpec::k6_ac_chrominance(),
    ] {
        let codes = HuffCodes::from_spec(&spec).unwrap();
        for v in 0..256 {
            let s = codes.size[v] as u32;
            if s > 0 {
                assert_ne!(codes.code[v] as u32, (1u32 << s) - 1, "symbol {v}");
            }
        }
    }
}

#[test]
fn zigzag_is_a_permutation() {
    let mut seen = [false; 64];
    for &n in NATURAL.iter() {
        assert!(!seen[n]);
        seen[n] = true;
    }
    assert_eq!(NATURAL[1], 1);
    assert_eq!(NATURAL[2], 8);
    assert_eq!(NATURAL[63], 63);
}

#[test]
fn quality_scaling_anchors() {
    let q50 = scaled_quant_table(&QUANT_LUMINANCE_K1, 50, 8);
    assert_eq!(q50, QUANT_LUMINANCE_K1);
    let q75 = scaled_quant_table(&QUANT_LUMINANCE_K1, 75, 8);
    assert_eq!(q75[0], 8);
    assert_eq!(q75[63], 50);
    let q100 = scaled_quant_table(&QUANT_LUMINANCE_K1, 100, 8);
    assert!(q100.iter().all(|&v| v == 1));
    let q1 = scaled_quant_table(&QUANT_LUMINANCE_K1, 1, 8);
    assert!(q1.iter().all(|&v| v == 255));
    let q12 = scaled_quant_table(&QUANT_LUMINANCE_K1, 50, 12);
    assert_eq!(q12[0], 16 * 16);
}

#[test]
fn categories_and_extra_bits() {
    assert_eq!(category(0), 0);
    assert_eq!(category(1), 1);
    assert_eq!(category(-1), 1);
    assert_eq!(category(3), 2);
    assert_eq!(category(-4), 3);
    assert_eq!(category(2047), 11);
    assert_eq!(category(-32767), 15);
    assert_eq!(extra_bits(5, 3), 0b101);
    assert_eq!(extra_bits(-5, 3), 0b010);
    assert_eq!(extra_bits(-1, 1), 0);
    assert_eq!(extra_bits(1, 1), 1);
}

#[test]
fn bit_writer_stuffs_ff_and_pads_with_ones() {
    let mut w = BitWriter::new();
    w.put(0xFF, 8);
    w.put(0b101, 3);
    let out = w.finish();
    assert_eq!(out, vec![0xFF, 0x00, 0b1011_1111]);
    let mut w = BitWriter::new();
    w.put(0b111_1111, 7);
    let out = w.finish();
    assert_eq!(out, vec![0xFF, 0x00]);
}

#[test]
fn optimal_tables_cover_every_counted_symbol_and_limit_lengths() {
    let mut st = HuffStats::default();
    for v in 0..=255u32 {
        for _ in 0..(1 << (v % 12)) {
            st.count(v as u8);
        }
    }
    let spec = st.to_spec();
    spec.validate().unwrap();
    assert_eq!(spec.vals.len(), 256);
    let codes = HuffCodes::from_spec(&spec).unwrap();
    for v in 0..256 {
        assert!(codes.size[v] >= 1 && codes.size[v] <= 16);
        let s = codes.size[v] as u32;
        assert_ne!(codes.code[v] as u32, (1u32 << s) - 1);
    }
    let kraft: f64 = (0..256).map(|v| 2f64.powi(-(codes.size[v] as i32))).sum();
    assert!(kraft <= 1.0 + 1e-9);
    let mut st = HuffStats::default();
    st.count(0);
    let spec = st.to_spec();
    assert_eq!(spec.bits[0], 1);
    assert_eq!(spec.vals, vec![0]);
}

/// The quantised cosine transform of all blocks of a frame.
fn transformed(frame: &JpegFrame, comps: &[JpegComponent<'_>], tables: &JpegTableSet) -> Vec<[i16; 64]> {
    let mut cos = [[0f64; 8]; 8];
    for (x, row) in cos.iter_mut().enumerate() {
        for (u, cell) in row.iter_mut().enumerate() {
            let cu = if u == 0 { std::f64::consts::FRAC_1_SQRT_2 } else { 1.0 };
            let angle = (2.0 * x as f64 + 1.0) * u as f64 * std::f64::consts::PI / 16.0;
            *cell = cu / 2.0 * angle.cos();
        }
    }
    let mut out = Vec::new();
    for block in sample_blocks(frame, comps).unwrap() {
        let quant = tables.quant[comps[block.component].quant_id as usize].unwrap();
        let mut coefs = [0i16; 64];
        for v in 0..8 {
            for u in 0..8 {
                let mut sum = 0f64;
                for y in 0..8 {
                    for x in 0..8 {
                        sum += block.samples[y * 8 + x] as f64 * cos[y][v] * cos[x][u];
                    }
                }
                coefs[v * 8 + u] = (sum / quant[v * 8 + u].max(1) as f64).round() as i16;
            }
        }
        out.push(coefs);
    }
    out
}

fn gray_frame(w: u16, h: u16) -> (Vec<u16>, JpegFrame) {
    let mut s = Vec::with_capacity(w as usize * h as usize);
    for y in 0..h {
        for x in 0..w {
            s.push((x * 3 + y * 5) % 256);
        }
    }
    (
        s,
        JpegFrame {
            width: w,
            height: h,
            precision: 8,
            process: JpegProcess::Dct,
        },
    )
}

fn baseline_tables() -> JpegTableSet {
    let mut t = JpegTableSet::default();
    t.quant[0] = Some(scaled_quant_table(&QUANT_LUMINANCE_K1, 75, 8));
    t.quant[1] = Some(scaled_quant_table(&QUANT_CHROMINANCE_K2, 75, 8));
    t.dc[0] = Some(HuffSpec::k3_dc_luminance());
    t.dc[1] = Some(HuffSpec::k4_dc_chrominance());
    t.ac[0] = Some(HuffSpec::k5_ac_luminance());
    t.ac[1] = Some(HuffSpec::k6_ac_chrominance());
    t
}

#[test]
fn frame_stream_has_the_b2_marker_skeleton() {
    let (s, frame) = gray_frame(13, 9);
    let comp = JpegComponent {
        samples: &s,
        width: 13,
        height: 9,
        h: 1,
        v: 1,
        quant_id: 0,
        huff_id: 0,
    };
    let blocks = transformed(&frame, &[comp], &baseline_tables());
    let out = encode_frame(
        &frame,
        std::slice::from_ref(&comp),
        &baseline_tables(),
        true,
        &blocks,
    )
    .unwrap();
    assert_eq!(&out[..2], &[0xFF, SOI]);
    assert_eq!(&out[out.len() - 2..], &[0xFF, EOI]);
    let mut i = 2;
    let mut markers = Vec::new();
    while i + 4 <= out.len() {
        assert_eq!(out[i], 0xFF);
        let m = out[i + 1];
        markers.push(m);
        if m == SOS {
            break;
        }
        let len = u16::from_be_bytes([out[i + 2], out[i + 3]]) as usize;
        i += 2 + len;
    }
    assert_eq!(markers, vec![DQT, DQT, DHT, DHT, DHT, DHT, SOF0, SOS]);
    let abbr = encode_frame(&frame, &[comp], &baseline_tables(), false, &blocks).unwrap();
    assert_eq!(abbr[2], 0xFF);
    assert_eq!(abbr[3], SOF0);
    assert!(abbr.len() < out.len());
    let sos_at = out.windows(2).position(|w| w == [0xFF, SOS]).unwrap();
    let body = &out[sos_at + 2 + 6 + 2..out.len() - 2];
    for w in body.windows(2) {
        if w[0] == 0xFF {
            assert_eq!(w[1], 0x00);
        }
    }
}

#[test]
fn geometry_validation_rejects_a1_1_mismatch() {
    let (s, frame) = gray_frame(16, 16);
    let comp = JpegComponent {
        samples: &s[..15 * 16],
        width: 15,
        height: 16,
        h: 1,
        v: 1,
        quant_id: 0,
        huff_id: 0,
    };
    assert!(encode_frame(&frame, &[comp], &baseline_tables(), true, &[]).is_err());
}

#[test]
fn stats_then_optimal_tables_encode_the_same_frame() {
    let (s, mut frame) = gray_frame(24, 17);
    let s12: Vec<u16> = s.iter().map(|&v| v * 16).collect();
    frame.precision = 12;
    let comp = JpegComponent {
        samples: &s12,
        width: 24,
        height: 17,
        h: 1,
        v: 1,
        quant_id: 0,
        huff_id: 0,
    };
    let mut t = JpegTableSet::default();
    t.quant[0] = Some(scaled_quant_table(&QUANT_LUMINANCE_K1, 90, 12));
    let mut dc = [
        HuffStats::default(),
        HuffStats::default(),
        HuffStats::default(),
        HuffStats::default(),
    ];
    let mut ac = dc.clone();
    let blocks = transformed(&frame, &[comp], &t);
    gather_stats(&frame, std::slice::from_ref(&comp), &t, &mut dc, &mut ac, &blocks).unwrap();
    assert!(!dc[0].is_empty() && !ac[0].is_empty());
    t.dc[0] = Some(dc[0].to_spec());
    t.ac[0] = Some(ac[0].to_spec());
    let out = encode_frame(&frame, &[comp], &t, true, &blocks).unwrap();
    assert!(out.windows(2).any(|w| w == [0xFF, SOF1]));
    let dqt = out.windows(2).position(|w| w == [0xFF, DQT]).unwrap();
    assert_eq!(out[dqt + 4] >> 4, 1);
}

#[test]
fn lossless_stream_uses_sof3_and_predictor_in_sos() {
    let (s, mut frame) = gray_frame(7, 5);
    frame.process = JpegProcess::Lossless { predictor: 4 };
    let comp = JpegComponent {
        samples: &s,
        width: 7,
        height: 5,
        h: 1,
        v: 1,
        quant_id: 0,
        huff_id: 0,
    };
    let mut t = JpegTableSet::default();
    let mut dc = [
        HuffStats::default(),
        HuffStats::default(),
        HuffStats::default(),
        HuffStats::default(),
    ];
    let mut ac = dc.clone();
    let blocks = transformed(&frame, &[comp], &t);
    gather_stats(&frame, std::slice::from_ref(&comp), &t, &mut dc, &mut ac, &blocks).unwrap();
    assert!(ac[0].is_empty());
    t.dc[0] = Some(dc[0].to_spec());
    let out = encode_frame(&frame, &[comp], &t, true, &blocks).unwrap();
    let sof = out.windows(2).position(|w| w == [0xFF, SOF3]).unwrap();
    assert_eq!(out[sof + 4], 8);
    let sos = out.windows(2).position(|w| w == [0xFF, SOS]).unwrap();
    assert_eq!(out[sos + 7], 4);
    assert_eq!(out[sos + 8], 0);
    assert!(!out.windows(2).any(|w| w == [0xFF, DQT]));
}

#[test]
fn steps_are_rounded_once() {
    assert_eq!(scaled_quant_table(&[100; 64], 30, 8)[0], 167);
    assert_eq!(scaled_quant_table(&[3; 64], 49, 8)[63], 3);
    assert_eq!(scaled_quant_table(&[255; 64], 1, 12)[5], 65535);
}
