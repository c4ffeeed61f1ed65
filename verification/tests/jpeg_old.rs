use oxideav_tiff::ifd::{ByteOrder, Entry};
use oxideav_tiff::jpeg_old::{parse_old_jpeg_fields, OldJpegFields};
use oxideav_tiff::types::{JPEG_PROC_BASELINE, JPEG_PROC_LOSSLESS, TAG_JPEG_INTERCHANGE_FORMAT};
use oxideav_tiff::types::{TAG_JPEG_INTERCHANGE_FORMAT_LENGTH, TAG_JPEG_LOSSLESS_PREDICTORS, TAG_JPEG_PROC};
use oxideav_tiff::types::{TAG_JPEG_Q_TABLES, TYPE_LONG, TYPE_SHORT};
use oxideav_tiff::TiffError;


fn short_entry(tag: u16, vals: &[u16]) -> Entry {
    let mut data = Vec::new();
    for v in vals {
        data.extend_from_slice(&v.to_le_bytes());
    }
    Entry {
        tag,
        field_type: TYPE_SHORT,
        count: vals.len() as u64,
        data,
    }
}

fn long_entry(tag: u16, vals: &[u32]) -> Entry {
    let mut data = Vec::new();
    for v in vals {
        data.extend_from_slice(&v.to_le_bytes());
    }
    Entry {
        tag,
        field_type: TYPE_LONG,
        count: vals.len() as u64,
        data,
    }
}

#[test]
fn parse_minimal_interchange_layout() {
    let entries = vec![
        short_entry(TAG_JPEG_PROC, &[1]),
        long_entry(TAG_JPEG_INTERCHANGE_FORMAT, &[128]),
        long_entry(TAG_JPEG_INTERCHANGE_FORMAT_LENGTH, &[1000]),
    ];
    let f = parse_old_jpeg_fields(&entries, ByteOrder::Little, 3).unwrap();
    assert_eq!(f.proc, Some(JPEG_PROC_BASELINE));
    assert_eq!(f.interchange_offset, Some(128));
    assert_eq!(f.interchange_length, Some(1000));
    assert_eq!(f.restart_interval, 0);
}

#[test]
fn interchange_offset_zero_means_absent() {
    let entries = vec![
        short_entry(TAG_JPEG_PROC, &[1]),
        long_entry(TAG_JPEG_INTERCHANGE_FORMAT, &[0]),
    ];
    let f = parse_old_jpeg_fields(&entries, ByteOrder::Little, 1).unwrap();
    assert_eq!(f.interchange_offset, None);
}

#[test]
fn unknown_proc_rejected_as_unsupported() {
    let entries = vec![short_entry(TAG_JPEG_PROC, &[2])];
    let e = parse_old_jpeg_fields(&entries, ByteOrder::Little, 1).unwrap_err();
    assert!(matches!(e, TiffError::Unsupported(_)), "{e:?}");
}

#[test]
fn per_component_count_mismatch_rejected() {
    let entries = vec![
        short_entry(TAG_JPEG_PROC, &[1]),
        long_entry(TAG_JPEG_Q_TABLES, &[100, 200]),
    ];
    let e = parse_old_jpeg_fields(&entries, ByteOrder::Little, 3).unwrap_err();
    let msg = format!("{e:?}");
    assert!(msg.contains("JPEGQTables"), "{msg}");
}

#[test]
fn lossless_predictor_out_of_range_rejected() {
    let entries = vec![
        short_entry(TAG_JPEG_PROC, &[14]),
        short_entry(TAG_JPEG_LOSSLESS_PREDICTORS, &[8]),
    ];
    let e = parse_old_jpeg_fields(&entries, ByteOrder::Little, 1).unwrap_err();
    let msg = format!("{e:?}");
    assert!(msg.contains("selection-value"), "{msg}");
}

#[test]
fn interchange_stream_slices_soi_to_eoi() {
    let mut file = vec![0u8; 10];
    file.extend_from_slice(&[0xFF, 0xD8, 0x01, 0x02, 0xFF, 0xD9]);
    let f = OldJpegFields {
        interchange_offset: Some(10),
        interchange_length: Some(6),
        ..Default::default()
    };
    let s = f.interchange_stream(&file).unwrap().unwrap();
    assert_eq!(s, &[0xFF, 0xD8, 0x01, 0x02, 0xFF, 0xD9]);
}

#[test]
fn interchange_stream_without_length_trims_to_eoi() {
    let mut file = vec![0u8; 4];
    file.extend_from_slice(&[0xFF, 0xD8, 0xAA, 0xFF, 0xD9, 0x00, 0x00]);
    let f = OldJpegFields {
        interchange_offset: Some(4),
        interchange_length: None,
        ..Default::default()
    };
    let s = f.interchange_stream(&file).unwrap().unwrap();
    assert_eq!(s, &[0xFF, 0xD8, 0xAA, 0xFF, 0xD9]);
}

#[test]
fn interchange_stream_padded_length_trims_to_eoi() {
    let mut file = vec![0u8; 4];
    file.extend_from_slice(&[0xFF, 0xD8, 0xAA, 0xFF, 0xD9, 0x00, 0x00, 0x00]);
    let f = OldJpegFields {
        interchange_offset: Some(4),
        interchange_length: Some(8),
        ..Default::default()
    };
    let s = f.interchange_stream(&file).unwrap().unwrap();
    assert_eq!(s, &[0xFF, 0xD8, 0xAA, 0xFF, 0xD9]);
}

#[test]
fn interchange_stream_bounds_errors() {
    let file = vec![0u8; 16];
    let f = OldJpegFields {
        interchange_offset: Some(100),
        ..Default::default()
    };
    assert!(f.interchange_stream(&file).is_err());
    let f = OldJpegFields {
        interchange_offset: Some(8),
        interchange_length: Some(100),
        ..Default::default()
    };
    assert!(f.interchange_stream(&file).is_err());
    let f = OldJpegFields {
        interchange_offset: Some(4),
        interchange_length: Some(8),
        ..Default::default()
    };
    assert!(f.interchange_stream(&file).is_err());
    let mut file2 = vec![0u8; 4];
    file2.extend_from_slice(&[0xFF, 0xD8, 0x00, 0x00, 0x00, 0x00]);
    let f = OldJpegFields {
        interchange_offset: Some(4),
        interchange_length: None,
        ..Default::default()
    };
    assert!(f.interchange_stream(&file2).is_err());
}

#[test]
fn tables_form_errors_are_precise() {
    let f = OldJpegFields::default();
    let msg = format!("{:?}", f.tables_form_error());
    assert!(msg.contains("JPEGProc"), "{msg}");
    let f = OldJpegFields {
        proc: Some(JPEG_PROC_BASELINE),
        q_tables: Some(vec![1]),
        dc_tables: Some(vec![2]),
        ac_tables: Some(vec![3]),
        ..Default::default()
    };
    assert!(matches!(f.tables_form_error(), TiffError::Unsupported(_)));
    let f = OldJpegFields {
        proc: Some(JPEG_PROC_BASELINE),
        q_tables: Some(vec![1]),
        dc_tables: Some(vec![2]),
        ..Default::default()
    };
    let msg = format!("{:?}", f.tables_form_error());
    assert!(msg.contains("JPEGACTables"), "{msg}");
    let f = OldJpegFields {
        proc: Some(JPEG_PROC_LOSSLESS),
        lossless_predictors: Some(vec![1]),
        dc_tables: Some(vec![2]),
        ..Default::default()
    };
    assert!(matches!(f.tables_form_error(), TiffError::Unsupported(_)));
    let f = OldJpegFields {
        proc: Some(JPEG_PROC_LOSSLESS),
        dc_tables: Some(vec![2]),
        ..Default::default()
    };
    let msg = format!("{:?}", f.tables_form_error());
    assert!(msg.contains("JPEGLosslessPredictors"), "{msg}");
}
