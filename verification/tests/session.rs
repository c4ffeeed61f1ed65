use oxideav_tiff::decoder::{DecodedPage, PageWalk};
use oxideav_tiff::session::{DecodeSession, Reply};
use oxideav_tiff::{decode_tiff, encode_tiff_multi, EncodePage, EncodePixelFormat, TiffCompression, TiffError};

fn page<'a>(pixels: &'a [u8]) -> EncodePage<'a> {
    EncodePage {
        width: 2,
        height: 1,
        kind: EncodePixelFormat::Gray8 { pixels },
        compression: TiffCompression::PackBits,
        predictor: false,
        planar: false,
        tiling: None,
        bigtiff: false,
    }
}

#[test]
fn a_picture_is_handed_out_once() {
    let file = encode_tiff_multi(&[page(&[5, 6])]).unwrap();
    let mut s = DecodeSession::new();
    assert!(matches!(s.receive(), Reply::NeedMore));
    s.accept(decode_tiff(&file).unwrap().frame);
    match s.receive() {
        Reply::Picture(image) => assert_eq!(image.planes[0].data, [5, 6]),
        other => panic!("{:?}", other),
    }
    assert!(matches!(s.receive(), Reply::NeedMore));
}

#[test]
fn a_picture_outlives_the_end_of_input() {
    let file = encode_tiff_multi(&[page(&[7, 8])]).unwrap();
    let mut s = DecodeSession::new();
    s.accept(decode_tiff(&file).unwrap().frame);
    s.flush();
    assert!(matches!(s.receive(), Reply::Picture(_)));
    assert!(matches!(s.receive(), Reply::Finished));
    assert!(matches!(s.receive(), Reply::Finished));
}

#[test]
fn a_walk_visits_each_page_once() {
    let file = encode_tiff_multi(&[page(&[1, 2]), page(&[3, 4]), page(&[5, 6])]).unwrap();
    let mut walk = PageWalk::new(&file).unwrap();
    let mut seen = Vec::new();
    while let Some(p) = walk.advance(&file).unwrap() {
        match p {
            DecodedPage::Image(image) => seen.extend(image.planes[0].data.clone()),
            DecodedPage::Float(_) => panic!("not a picture"),
        }
    }
    assert_eq!(seen, [1, 2, 3, 4, 5, 6]);
    assert_eq!(walk.visited.len(), 3);
    assert!(walk.advance(&file).unwrap().is_none());
}

#[test]
fn a_walk_that_fails_stays_where_it_is() {
    let file = encode_tiff_multi(&[page(&[1, 2])]).unwrap();
    let mut walk = PageWalk::new(&file).unwrap();
    let first = walk.next;
    walk.visited.push(first);
    assert!(matches!(walk.advance(&file), Err(TiffError::InvalidData(_))));
    assert_eq!((walk.next, walk.visited.len()), (first, 1));
    assert!(matches!(PageWalk::new(b"XX"), Err(TiffError::InvalidData(_))));
}
