use oxideav_tiff::ifd::parse_header;
use oxideav_tiff::jpeg_old::OldJpegFields;
use oxideav_tiff::types::{JPEG_PROC_BASELINE, JPEG_PROC_LOSSLESS};
use oxideav_tiff::TiffError;

#[test]
fn only_missing_tables_are_named() {
    let f = OldJpegFields {
        proc: Some(JPEG_PROC_BASELINE),
        dc_tables: Some(vec![2]),
        ..Default::default()
    };
    assert_eq!(
        f.tables_form_error().text(),
        "invalid data: TIFF/JPEG: JPEGProc=1 (baseline DCT) without JPEGQTables/JPEGACTables \
         and without a JPEGInterchangeFormat bitstream"
    );
    let f = OldJpegFields {
        proc: Some(JPEG_PROC_LOSSLESS),
        lossless_predictors: Some(vec![1]),
        ..Default::default()
    };
    assert_eq!(
        f.tables_form_error().text(),
        "invalid data: TIFF/JPEG: JPEGProc=14 (lossless) without JPEGDCTables \
         and without a JPEGInterchangeFormat bitstream"
    );
    let f = OldJpegFields { proc: Some(JPEG_PROC_LOSSLESS), ..Default::default() };
    assert!(f.tables_form_error().text().contains("JPEGLosslessPredictors/JPEGDCTables"));
}

#[test]
fn numbers_are_named_in_decimal() {
    for magic in [0u16, 7, 10, 999, 65535] {
        let mut file = b"II".to_vec();
        file.extend_from_slice(&magic.to_le_bytes());
        file.extend_from_slice(&[8, 0, 0, 0]);
        match parse_header(&file) {
            Err(TiffError::InvalidData(m)) => assert_eq!(m, format!("TIFF: magic={} (expected 42 or 43)", magic)),
            other => panic!("{}", other.is_ok()),
        }
    }
}
