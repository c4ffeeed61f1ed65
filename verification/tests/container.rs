use oxideav_tiff::container::{probe, stream_params, Likeness};
use oxideav_tiff::{encode_tiff, EncodePage, EncodePixelFormat, TiffCompression, TiffError, TiffPixelFormat};

fn page<'a>(kind: EncodePixelFormat<'a>, bigtiff: bool) -> EncodePage<'a> {
    EncodePage {
        width: 4,
        height: 3,
        kind,
        compression: TiffCompression::Uncompressed,
        predictor: false,
        planar: false,
        tiling: None,
        bigtiff,
    }
}

#[test]
fn files_are_recognised() {
    assert_eq!(probe(b"II\x2a\x00rest", None), Likeness::Contents);
    assert_eq!(probe(b"MM\x00\x2a", Some("png")), Likeness::Contents);
    assert_eq!(probe(b"II\x00\x2a", Some("tif")), Likeness::Extension);
    assert_eq!(probe(b"", Some("tiff")), Likeness::Extension);
    assert_eq!(probe(b"II", Some("tiffs")), Likeness::Unlike);
    assert_eq!(probe(b"\x89PNG", None), Likeness::Unlike);
}

#[test]
fn parameters_of_the_first_page() {
    let gray = [7u8; 12];
    let p = stream_params(&encode_tiff(&page(EncodePixelFormat::Gray8 { pixels: &gray }, false)).unwrap()).unwrap();
    assert_eq!((p.width, p.height, p.pixel_format), (4, 3, TiffPixelFormat::Gray8));
    let words = [7u8; 24];
    let p = stream_params(&encode_tiff(&page(EncodePixelFormat::Gray16Le { pixels: &words }, true)).unwrap()).unwrap();
    assert_eq!(p.pixel_format, TiffPixelFormat::Gray16Le);
    let rgb = [7u8; 36];
    let p = stream_params(&encode_tiff(&page(EncodePixelFormat::Rgb24 { pixels: &rgb }, false)).unwrap()).unwrap();
    assert_eq!(p.pixel_format, TiffPixelFormat::Rgb24);
    let p = page(EncodePixelFormat::Palette8 { indices: &gray, palette: &[[1, 2, 3]; 9] }, false);
    assert_eq!(stream_params(&encode_tiff(&p).unwrap()).unwrap().pixel_format, TiffPixelFormat::Rgb24);
}

#[test]
fn a_page_without_width_has_no_parameters() {
    let mut f = vec![b'I', b'I', 42, 0, 8, 0, 0, 0];
    f.extend_from_slice(&[1, 0, 1, 1, 3, 0, 1, 0, 0, 0, 5, 0, 0, 0, 0, 0, 0, 0]);
    assert!(matches!(stream_params(&f), Err(TiffError::InvalidData(_))));
    assert!(matches!(stream_params(b"nothing"), Err(TiffError::InvalidData(_))));
}
