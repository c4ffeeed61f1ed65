use oxideav_tiff::ifd::{ByteOrder, Entry};
use oxideav_tiff::metadata::{extract_metadata, ResolutionUnit, TiffMetadata};
use oxideav_tiff::types::{TAG_ARTIST, TAG_COPYRIGHT, TAG_NEW_SUBFILE_TYPE, TAG_ORIENTATION, TAG_PAGE_NUMBER};
use oxideav_tiff::types::{TAG_RESOLUTION_UNIT, TAG_SOFTWARE, TAG_SUBFILE_TYPE, TAG_X_RESOLUTION, TAG_Y_RESOLUTION};
use oxideav_tiff::types::{TYPE_ASCII, TYPE_LONG, TYPE_RATIONAL, TYPE_SHORT};

fn entry(tag: u16, field_type: u16, count: u64, data: &[u8]) -> Entry {
    Entry { tag, field_type, count, data: data.to_vec() }
}

#[test]
fn no_fields_give_nothing() {
    assert_eq!(extract_metadata(&[], ByteOrder::Little), TiffMetadata::default());
}

#[test]
fn texts_end_at_their_terminator() {
    let es = [
        entry(TAG_SOFTWARE, TYPE_ASCII, 8, b"Gr\xC3\xBCn\0xx"),
        entry(TAG_ARTIST, TYPE_ASCII, 4, b"a\xFFb\0"),
        entry(TAG_COPYRIGHT, TYPE_ASCII, 1, b"\0"),
    ];
    let m = extract_metadata(&es, ByteOrder::Little);
    assert_eq!(m.software.as_deref(), Some("Gr\u{fc}n"));
    assert_eq!(m.artist.as_deref(), Some("a\u{fffd}b"));
    assert_eq!(m.copyright, None);
}

#[test]
fn malformed_texts_are_left_out() {
    let es = [entry(TAG_SOFTWARE, TYPE_ASCII, 3, b"abc"), entry(TAG_ARTIST, TYPE_SHORT, 1, b"a\0")];
    let m = extract_metadata(&es, ByteOrder::Little);
    assert_eq!(m.software, None);
    assert_eq!(m.artist, None);
}

#[test]
fn resolutions_are_fractions() {
    let es = [
        entry(TAG_X_RESOLUTION, TYPE_RATIONAL, 1, &[0, 0, 0, 72, 0, 0, 0, 2]),
        entry(TAG_Y_RESOLUTION, TYPE_SHORT, 1, &[1, 44]),
        entry(TAG_RESOLUTION_UNIT, TYPE_SHORT, 1, &[0, 3]),
    ];
    let m = extract_metadata(&es, ByteOrder::Big);
    assert_eq!(m.x_resolution, Some((72, 2)));
    assert_eq!(m.y_resolution, Some((300, 1)));
    assert_eq!(m.resolution_unit, Some(ResolutionUnit::Centimeter));
}

#[test]
fn short_fractions_are_left_out() {
    let es = [
        entry(TAG_X_RESOLUTION, TYPE_RATIONAL, 1, &[0, 0, 0, 72]),
        entry(TAG_Y_RESOLUTION, TYPE_ASCII, 1, &[0]),
        entry(TAG_RESOLUTION_UNIT, TYPE_SHORT, 1, &[0, 9]),
    ];
    let m = extract_metadata(&es, ByteOrder::Big);
    assert_eq!(m, TiffMetadata::default());
}

#[test]
fn units_have_numbers() {
    assert_eq!(ResolutionUnit::from_tag(1), Some(ResolutionUnit::Unitless));
    assert_eq!(ResolutionUnit::from_tag(2), Some(ResolutionUnit::Inch));
    assert_eq!(ResolutionUnit::from_tag(3), Some(ResolutionUnit::Centimeter));
    assert_eq!(ResolutionUnit::from_tag(0), None);
}

#[test]
fn numbers_of_the_page() {
    let es = [
        entry(TAG_NEW_SUBFILE_TYPE, TYPE_LONG, 1, &[5, 0, 1, 0]),
        entry(TAG_SUBFILE_TYPE, TYPE_LONG, 1, &[0, 0, 1, 0]),
        entry(TAG_ORIENTATION, TYPE_SHORT, 1, &[6, 0]),
        entry(TAG_PAGE_NUMBER, TYPE_SHORT, 2, &[2, 0, 9, 0]),
    ];
    let m = extract_metadata(&es, ByteOrder::Little);
    assert_eq!(m.new_subfile_type, Some(65541));
    assert_eq!(m.subfile_type, None);
    assert_eq!(m.orientation, Some(6));
    assert_eq!(m.page_number, Some((2, 9)));
}

#[test]
fn one_number_is_no_page_number() {
    let es = [entry(TAG_PAGE_NUMBER, TYPE_SHORT, 1, &[2, 0])];
    assert_eq!(extract_metadata(&es, ByteOrder::Little).page_number, None);
}

#[test]
fn a_malformed_field_costs_itself_only() {
    let good = [
        entry(TAG_SOFTWARE, TYPE_ASCII, 4, b"abc\0"),
        entry(TAG_ORIENTATION, TYPE_SHORT, 1, &[6, 0]),
        entry(TAG_X_RESOLUTION, TYPE_RATIONAL, 1, &[72, 0, 0, 0, 1, 0, 0, 0]),
    ];
    let bad = [
        entry(TAG_SOFTWARE, TYPE_ASCII, 4, b"abc\0"),
        entry(TAG_ORIENTATION, TYPE_SHORT, 1, &[6, 0]),
        entry(TAG_X_RESOLUTION, TYPE_RATIONAL, 1, &[72, 0, 0, 0, 1, 0, 0, 0]),
        entry(TAG_Y_RESOLUTION, TYPE_RATIONAL, 1, &[72, 0]),
        entry(TAG_ARTIST, TYPE_SHORT, 1, b"a\0"),
    ];
    let m = extract_metadata(&good, ByteOrder::Little);
    assert_eq!(extract_metadata(&bad, ByteOrder::Little), m);
    assert_eq!(m.software.as_deref(), Some("abc"));
    assert_eq!(m.orientation, Some(6));
}
