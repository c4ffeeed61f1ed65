use oxideav_tiff::jpeg::{classify, composite_cmyk_to_rgb, composite_gray, composite_rgb_packed, composite_yuv_to_rgb};
use oxideav_tiff::jpeg::{decode_segment, merge_jpeg_segment};
use oxideav_tiff::jpeg::{FramePlane, JpegPixelFormat, JpegSegment, Plane};
use oxideav_tiff::types::PHOTO_RGB;

#[test]
fn merge_empty_tables_passes_segment_through() {
    let seg = vec![0xFF, 0xD8, 0xAB, 0xCD, 0xFF, 0xD9];
    let tables = vec![0xFF, 0xD8, 0xFF, 0xD9];
    let merged = merge_jpeg_segment(Some(&tables), &seg).unwrap();
    assert_eq!(merged, vec![0xFF, 0xD8, 0xAB, 0xCD, 0xFF, 0xD9]);
}

#[test]
fn merge_with_table_payload() {
    let seg = vec![0xFF, 0xD8, 0x11, 0x22, 0xFF, 0xD9];
    let tables = vec![0xFF, 0xD8, 0xEE, 0xFF, 0xD9];
    let merged = merge_jpeg_segment(Some(&tables), &seg).unwrap();
    assert_eq!(merged, vec![0xFF, 0xD8, 0xEE, 0x11, 0x22, 0xFF, 0xD9]);
}

#[test]
fn merge_without_tables_returns_segment_clone() {
    let seg = vec![0xFF, 0xD8, 0x42, 0xFF, 0xD9];
    let merged = merge_jpeg_segment(None, &seg).unwrap();
    assert_eq!(merged, seg);
}

#[test]
fn merge_rejects_segment_without_soi() {
    let seg = vec![0xFF, 0xE0, 0xFF, 0xD9];
    assert!(merge_jpeg_segment(None, &seg).is_err());
}

#[test]
fn merge_rejects_segment_without_eoi() {
    let seg = vec![0xFF, 0xD8, 0x00, 0x00];
    assert!(merge_jpeg_segment(None, &seg).is_err());
}

#[test]
fn merge_rejects_tables_without_soi() {
    let seg = vec![0xFF, 0xD8, 0xFF, 0xD9];
    let bad_tab = vec![0xFF, 0xE0, 0xFF, 0xD9];
    assert!(merge_jpeg_segment(Some(&bad_tab), &seg).is_err());
}

#[test]
fn merge_rejects_tables_without_eoi() {
    let seg = vec![0xFF, 0xD8, 0xFF, 0xD9];
    let bad_tab = vec![0xFF, 0xD8, 0x00, 0x00];
    assert!(merge_jpeg_segment(Some(&bad_tab), &seg).is_err());
}

#[test]
fn jpeg_pixel_format_variants_distinct() {
    assert_ne!(JpegPixelFormat::Gray8, JpegPixelFormat::Yuv420P);
    assert_ne!(JpegPixelFormat::Yuv422P, JpegPixelFormat::Yuv444P);
    assert_ne!(JpegPixelFormat::Cmyk8, JpegPixelFormat::Gray8);
    assert_ne!(JpegPixelFormat::Cmyk8, JpegPixelFormat::Rgb24);
}

#[test]
fn composite_cmyk_to_rgb_known_values() {
    let plane_w = 4u32;
    let plane_h = 1u32;
    let stride = plane_w as usize * 4 + 3;
    let mut data = vec![0xAAu8; stride * plane_h as usize];
    data[0] = 0;
    data[1] = 0;
    data[2] = 0;
    data[3] = 0;
    data[4] = 255;
    data[5] = 0;
    data[6] = 0;
    data[7] = 0;
    data[8] = 0;
    data[9] = 0;
    data[10] = 255;
    data[11] = 0;
    data[12] = 0;
    data[13] = 0;
    data[14] = 0;
    data[15] = 255;

    let seg = JpegSegment {
        width: plane_w,
        height: plane_h,
        planes: vec![Plane {
            stride,
            width: plane_w,
            height: plane_h,
            data,
        }],
        pixel_format: JpegPixelFormat::Cmyk8,
    };
    let dst_stride = plane_w as usize * 3;
    let mut dst = vec![0u8; dst_stride * plane_h as usize];
    composite_cmyk_to_rgb(&seg, plane_w, plane_h, &mut dst, dst_stride, 0, 0).unwrap();
    assert_eq!(&dst[0..3], &[255, 255, 255], "white pixel");
    assert_eq!(&dst[3..6], &[0, 255, 255], "cyan pixel");
    assert_eq!(&dst[6..9], &[255, 255, 0], "yellow pixel");
    assert_eq!(&dst[9..12], &[0, 0, 0], "pure-K black pixel");
}

#[test]
fn classify_accepts_packed_and_planar_rgb() {
    let w = 4u32;
    let h = 2u32;
    let packed = vec![FramePlane {
        stride: w as usize * 3,
        data: vec![0u8; w as usize * 3 * h as usize],
    }];
    assert_eq!(
        classify(&packed, w, h, PHOTO_RGB).unwrap(),
        JpegPixelFormat::Rgb24Packed
    );
    let planar: Vec<FramePlane> = (0..3)
        .map(|_| FramePlane {
            stride: w as usize,
            data: vec![0u8; w as usize * h as usize],
        })
        .collect();
    assert_eq!(
        classify(&planar, w, h, PHOTO_RGB).unwrap(),
        JpegPixelFormat::Rgb24
    );
}

#[test]
fn classify_rejects_underweight_plane_for_rgb_photometric() {
    let vf = vec![FramePlane {
        stride: 4,
        data: vec![0u8; 8],
    }];
    assert!(classify(&vf, 4, 2, PHOTO_RGB).is_err());
}

#[test]
fn composite_rgb_packed_blits_rows() {
    let w = 2u32;
    let h = 2u32;
    let stride = w as usize * 3 + 2;
    let mut data = vec![0xEEu8; stride * h as usize];
    data[0..6].copy_from_slice(&[1, 2, 3, 4, 5, 6]);
    data[stride..stride + 6].copy_from_slice(&[7, 8, 9, 10, 11, 12]);
    let seg = JpegSegment {
        width: w,
        height: h,
        planes: vec![Plane {
            stride,
            width: w,
            height: h,
            data,
        }],
        pixel_format: JpegPixelFormat::Rgb24Packed,
    };
    let dst_stride = 3usize * 3;
    let mut dst = vec![0u8; dst_stride * 2];
    composite_rgb_packed(&seg, w, h, &mut dst, dst_stride, 1, 0).unwrap();
    assert_eq!(&dst[3..9], &[1, 2, 3, 4, 5, 6], "row 0 pasted at x=1");
    assert_eq!(
        &dst[dst_stride + 3..dst_stride + 9],
        &[7, 8, 9, 10, 11, 12],
        "row 1 pasted at x=1"
    );
    assert_eq!(&dst[0..3], &[0, 0, 0], "pixel left of paste untouched");
}

#[test]
fn composite_rgb_packed_rejects_non_packed_segment() {
    let seg = JpegSegment {
        width: 1,
        height: 1,
        planes: vec![Plane {
            stride: 1,
            width: 1,
            height: 1,
            data: vec![0u8],
        }],
        pixel_format: JpegPixelFormat::Gray8,
    };
    let mut dst = vec![0u8; 3];
    assert!(composite_rgb_packed(&seg, 1, 1, &mut dst, 3, 0, 0).is_err());
}

#[test]
fn composite_cmyk_rejects_non_cmyk_segment() {
    let seg = JpegSegment {
        width: 1,
        height: 1,
        planes: vec![Plane {
            stride: 1,
            width: 1,
            height: 1,
            data: vec![0u8],
        }],
        pixel_format: JpegPixelFormat::Gray8,
    };
    let mut dst = vec![0u8; 3];
    let r = composite_cmyk_to_rgb(&seg, 1, 1, &mut dst, 3, 0, 0);
    assert!(r.is_err());
}

fn plane(width: u32, height: u32, data: &[u8]) -> Plane {
    Plane { stride: width as usize, width, height, data: data.to_vec() }
}

#[test]
fn the_last_row_needs_no_padding() {
    let seg = JpegSegment {
        width: 2,
        height: 2,
        planes: vec![plane(2, 2, &[10, 20, 30, 40]), plane(1, 1, &[128]), plane(1, 1, &[128])],
        pixel_format: JpegPixelFormat::Yuv420P,
    };
    let mut dst = vec![7u8; 10 + 3 + 6];
    composite_yuv_to_rgb(&seg, 2, 2, &mut dst, 10, 1, 0).unwrap();
    assert_eq!(dst[..3], [7, 7, 7]);
    assert_eq!(dst[3..9], [10, 10, 10, 20, 20, 20]);
    assert_eq!(dst[9..13], [7, 7, 7, 7]);
    assert_eq!(dst[13..], [30, 30, 30, 40, 40, 40]);
}

#[test]
fn nothing_visible_changes_nothing() {
    let seg = JpegSegment {
        width: 1,
        height: 1,
        planes: vec![plane(1, 1, &[9])],
        pixel_format: JpegPixelFormat::Gray8,
    };
    let mut dst = vec![1u8, 2, 3];
    composite_gray(&seg, 0, 1, &mut dst, 0, 5, 5, false).unwrap();
    composite_gray(&seg, 1, 0, &mut dst, 0, 5, 5, false).unwrap();
    assert_eq!(dst, vec![1, 2, 3]);
    composite_gray(&seg, 1, 1, &mut dst, 2, 0, 1, true).unwrap();
    assert_eq!(dst, vec![1, 2, 246]);
}

#[test]
fn streams_without_a_picture_are_not_decoded() {
    assert!(decode_segment(None, &[0xFF, 0xD8, 0xFF, 0xD9], 8, 8, PHOTO_RGB).is_err());
}
