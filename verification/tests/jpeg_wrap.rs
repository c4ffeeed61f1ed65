use oxideav_tiff::jpeg_enc::{sample_blocks, JpegProcess};
use oxideav_tiff::jpeg_wrap::{build_jpeg_segments, plan_segments, quant_tables};
use oxideav_tiff::jpeg_wrap::{JpegOptions, JpegPageInput, JpegTablesLayout, Segment};
use oxideav_tiff::types::{PHOTO_BLACK_IS_ZERO, PHOTO_RGB, PHOTO_YCBCR};
use oxideav_tiff::TiffError;

fn input(raw: &[u8], width: usize, height: usize, spp: usize, photometric: u16) -> JpegPageInput<'_> {
    JpegPageInput {
        raw,
        width,
        height,
        spp,
        bits: 8,
        photometric,
        subsampling: (1, 1),
        planar: false,
        tiling: None,
        rows_per_strip: height,
        opts: JpegOptions::default(),
    }
}

fn coefs(p: &JpegPageInput<'_>, segs: &[Segment]) -> Vec<Vec<[i16; 64]>> {
    segs.iter()
        .map(|s| {
            let comps = s.components();
            let frame = s.frame(p.bits, p.opts.process);
            sample_blocks(&frame, &comps)
                .unwrap()
                .iter()
                .map(|b| {
                    let mut c = [0i16; 64];
                    c[0] = b.samples[0] / 2;
                    c[9] = b.samples[9] / 16;
                    c
                })
                .collect()
        })
        .collect()
}

#[test]
fn defaults_of_the_options() {
    let o = JpegOptions::default();
    assert_eq!((o.quality, o.tables, o.process, o.optimize_huffman), (75, JpegTablesLayout::Shared, JpegProcess::Dct, false));
}

#[test]
fn strips_hold_their_rows() {
    let raw: Vec<u8> = (0..35).collect();
    let mut p = input(&raw, 5, 7, 1, PHOTO_BLACK_IS_ZERO);
    p.rows_per_strip = 3;
    let segs = plan_segments(&p).unwrap();
    assert_eq!(segs.iter().map(|s| (s.width, s.height)).collect::<Vec<_>>(), vec![(5, 3), (5, 3), (5, 1)]);
    assert_eq!(segs[1].comps[0].samples, (15..30).collect::<Vec<u16>>());
    assert_eq!(segs[2].comps[0].samples, (30..35).collect::<Vec<u16>>());
}

#[test]
fn tiles_repeat_the_edge() {
    let raw: Vec<u8> = (0..6).collect();
    let mut p = input(&raw, 3, 2, 1, PHOTO_BLACK_IS_ZERO);
    p.tiling = Some((2, 2));
    let segs = plan_segments(&p).unwrap();
    assert_eq!(segs.len(), 2);
    assert_eq!(segs[0].comps[0].samples, vec![0, 1, 3, 4]);
    assert_eq!(segs[1].comps[0].samples, vec![2, 2, 5, 5]);
}

#[test]
fn chrominance_is_averaged() {
    let mut raw = Vec::new();
    for i in 0..6u8 {
        raw.extend_from_slice(&[i, 10 * i, 100 + i]);
    }
    let mut p = input(&raw, 3, 2, 3, PHOTO_YCBCR);
    p.subsampling = (2, 2);
    let segs = plan_segments(&p).unwrap();
    let c = &segs[0].comps;
    assert_eq!((c[0].h, c[0].v, c[0].quant_id), (2, 2, 0));
    assert_eq!((c[1].h, c[1].v, c[1].quant_id), (1, 1, 1));
    assert_eq!(c[0].samples, vec![0, 1, 2, 3, 4, 5]);
    assert_eq!(c[1].samples, vec![20, 35]);
    assert_eq!(c[2].samples, vec![102, 104]);
}

#[test]
fn planes_are_apart() {
    let raw: Vec<u8> = (0..12).collect();
    let mut p = input(&raw, 2, 2, 3, PHOTO_RGB);
    p.planar = true;
    p.rows_per_strip = 1;
    let segs = plan_segments(&p).unwrap();
    assert_eq!(segs.len(), 6);
    assert_eq!(segs[0].comps[0].samples, vec![0, 3]);
    assert_eq!(segs[1].comps[0].samples, vec![6, 9]);
    assert_eq!(segs[4].comps[0].samples, vec![2, 5]);
}

#[test]
fn great_strips_are_refused() {
    let raw = vec![0u8; 65536];
    let p = input(&raw, 65536, 1, 1, PHOTO_BLACK_IS_ZERO);
    assert!(matches!(plan_segments(&p), Err(TiffError::InvalidData(_))));
}

#[test]
fn shared_tables_stand_once() {
    let raw: Vec<u8> = (0..=255).collect();
    let mut p = input(&raw, 16, 16, 1, PHOTO_BLACK_IS_ZERO);
    p.rows_per_strip = 8;
    let segs = plan_segments(&p).unwrap();
    let c = coefs(&p, &segs);
    let shared = build_jpeg_segments(&p, &c).unwrap();
    let tables = shared.tables.unwrap();
    assert_eq!(&tables[..4], &[0xFF, 0xD8, 0xFF, 0xDB]);
    assert_eq!(&tables[tables.len() - 2..], &[0xFF, 0xD9]);
    assert_eq!(shared.segments.len(), 2);
    assert_eq!(&shared.segments[0][..4], &[0xFF, 0xD8, 0xFF, 0xC0]);
    p.opts.tables = JpegTablesLayout::PerSegment;
    let own = build_jpeg_segments(&p, &c).unwrap();
    assert!(own.tables.is_none());
    for (a, b) in own.segments.iter().zip(&shared.segments) {
        let mut joined = tables[..tables.len() - 2].to_vec();
        joined.extend_from_slice(&b[2..]);
        assert_eq!(*a, joined);
    }
}

#[test]
fn made_tables_are_no_longer() {
    let raw: Vec<u8> = (0..=255).map(|i| if i % 7 == 0 { 200 } else { 90 }).collect();
    let mut p = input(&raw, 16, 16, 1, PHOTO_BLACK_IS_ZERO);
    let segs = plan_segments(&p).unwrap();
    let c = coefs(&p, &segs);
    let usual = build_jpeg_segments(&p, &c).unwrap();
    p.opts.optimize_huffman = true;
    let made = build_jpeg_segments(&p, &c).unwrap();
    assert!(made.segments[0].len() <= usual.segments[0].len());
}

#[test]
fn missing_coefficients_are_refused() {
    let raw = vec![0u8; 64];
    let p = input(&raw, 8, 8, 1, PHOTO_BLACK_IS_ZERO);
    assert!(matches!(build_jpeg_segments(&p, &Vec::new()), Err(TiffError::InvalidData(_))));
    assert!(matches!(build_jpeg_segments(&p, &vec![Vec::new()]), Err(TiffError::InvalidData(_))));
}

#[test]
fn tables_of_steps_follow_the_page() {
    let raw = vec![0u8; 12];
    let t = quant_tables(&input(&raw, 2, 2, 3, PHOTO_YCBCR));
    assert_eq!(t.quant[0].unwrap()[0], 8);
    assert_eq!(t.quant[1].unwrap()[0], 9);
    assert!(t.quant[2].is_none() && t.dc[0].is_none());
    let t = quant_tables(&input(&raw, 2, 2, 3, PHOTO_RGB));
    assert!(t.quant[1].is_none());
}
