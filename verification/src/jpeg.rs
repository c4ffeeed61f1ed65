//! JPEG strips and tiles. Each is one JPEG stream, whose tables may stand apart
//! in the JPEGTables field. The `oxideav-mjpeg` crate decodes the streams; this
//! module makes whole streams of them, finds out how the decoded planes are laid
//! out, and puts their pixels where they belong.
use vstd::prelude::*;
use crate::compress::{append_range, min_int};
use crate::error::{invalid_with, Result, TiffError};
use crate::ifd::copy_range;
use crate::render::{ceil_div, ink_byte, ink_to_byte, lemma_origin, page_size_ok, ycbcr_byte, ycbcr_to_rgb};
use crate::segments::{bytes_or_invalid, div_up, ints_of, lemma_tile_rows, segment_at, TileGrid};
use crate::types::{PHOTO_BLACK_IS_ZERO, PHOTO_CMYK, PHOTO_RGB, PHOTO_WHITE_IS_ZERO, PHOTO_YCBCR};

verus! {

/// Layout of the planes of a decoded JPEG stream.
#[derive(Debug, Clone, Copy, PartialEq, Eq, Structural)]
pub enum JpegPixelFormat {
    Gray8,
    Yuv444P,
    Yuv422P,
    Yuv420P,
    Yuv411P,
    /// One plane for each of red, green and blue.
    Rgb24,
    /// One plane of red, green and blue triples.
    Rgb24Packed,
    /// One plane of cyan, magenta, yellow and black quadruples.
    Cmyk8,
}

/// One plane of a decoded JPEG stream.
#[derive(Debug, Clone)]
pub struct Plane {
    /// Bytes from one row to the next.
    pub stride: usize,
    /// Width in samples.
    pub width: u32,
    /// Height in samples.
    pub height: u32,
    /// The rows.
    pub data: Vec<u8>,
}

/// A decoded strip or tile.
#[derive(Debug, Clone)]
pub struct JpegSegment {
    pub width: u32,
    pub height: u32,
    pub planes: Vec<Plane>,
    pub pixel_format: JpegPixelFormat,
}

/// A plane as it comes out of a decoder: its stride and its bytes.
#[derive(Debug, Clone)]
pub struct FramePlane {
    pub stride: usize,
    pub data: Vec<u8>,
}

/// Planes of a decoder as mathematical values.
pub open spec fn frame_model(v: Seq<FramePlane>) -> Seq<(usize, Seq<u8>)> {
    Seq::new(v.len(), |i: int| (v[i].stride, v[i].data@))
}

/// Planes of a strip or tile as mathematical values.
pub open spec fn planes_model(v: Seq<Plane>) -> Seq<(usize, Seq<u8>)> {
    Seq::new(v.len(), |i: int| (v[i].stride, v[i].data@))
}

// ----------------------------------------------------------------------
// Whole streams
// ----------------------------------------------------------------------

/// Begins with the start-of-image marker and ends with the end-of-image marker.
pub open spec fn is_framed(s: Seq<u8>) -> bool {
    s.len() >= 4 && s[0] == 0xFF && s[1] == 0xD8 && s[s.len() - 2] == 0xFF && s[s.len() - 1] == 0xD9
}

/// The stream of a strip or tile with the tables between its start marker and
/// the rest.
pub open spec fn merged(tables: Option<Seq<u8>>, segment: Seq<u8>) -> Option<Seq<u8>> {
    if !is_framed(segment) {
        None
    } else {
        match tables {
            None => Some(segment),
            Some(t) => if !is_framed(t) {
                None
            } else {
                Some(segment.take(2) + t.subrange(2, t.len() - 2) + segment.skip(2))
            },
        }
    }
}

/// Bytes that may be absent, as a mathematical value.
pub open spec fn bytes_model(t: Option<&[u8]>) -> Option<Seq<u8>> {
    match t {
        None => None,
        Some(b) => Some(b@),
    }
}

fn framed(s: &[u8]) -> (b: bool)
    ensures
        b == is_framed(s@),
{
    let n: usize = s.len();
    n >= 4 && s[0] == 0xFF && s[1] == 0xD8 && s[n - 2] == 0xFF && s[n - 1] == 0xD9
}

/// Puts the tables of a page into the stream of a strip or tile.
pub fn merge_jpeg_segment(tables: Option<&[u8]>, segment: &[u8]) -> (r: Result<Vec<u8>>)
    ensures
        bytes_or_invalid(r, merged(bytes_model(tables), segment@)),
{
    if !framed(segment) {
        return Err(TiffError::invalid("TIFF/JPEG: segment does not run from SOI (FF D8) to EOI (FF D9)"));
    }
    let n: usize = segment.len();
    match tables {
        None => {
            assert(segment@.subrange(0, n as int) =~= segment@);
            Ok(copy_range(segment, 0, n))
        },
        Some(t) => {
            if !framed(t) {
                return Err(TiffError::invalid("TIFF/JPEG: JPEGTables does not run from SOI (FF D8) to EOI (FF D9)"));
            }
            let mut out = copy_range(segment, 0, 2);
            append_range(&mut out, t, 2, t.len() - 2);
            append_range(&mut out, segment, 2, n);
            assert(out@ =~= segment@.take(2) + t@.subrange(2, t@.len() - 2) + segment@.skip(2));
            Ok(out)
        },
    }
}

/// A merged stream is a whole stream again, with every byte of the tables
/// between its markers and the stream after its start marker as it was.
pub proof fn law_merged_is_framed(tables: Seq<u8>, segment: Seq<u8>)
    requires
        is_framed(tables),
        is_framed(segment),
    ensures
        merged(Some(tables), segment) matches Some(m) && {
            &&& is_framed(m)
            &&& m.len() == tables.len() + segment.len() - 4
            &&& m.subrange(2, tables.len() - 2) == tables.subrange(2, tables.len() - 2)
            &&& m.skip(tables.len() - 2) == segment.skip(2)
        },
{
    let m = merged(Some(tables), segment).unwrap();
    assert(m.subrange(2, tables.len() - 2) =~= tables.subrange(2, tables.len() - 2));
    assert(m.skip(tables.len() - 2) =~= segment.skip(2));
}

// ----------------------------------------------------------------------
// Decoding, through the `oxideav-mjpeg` crate
// ----------------------------------------------------------------------

/// The error type of `oxideav-core`, carried through unread.
#[verifier::external_type_specification]
#[verifier::external_body]
pub struct ExCoreError(oxideav_core::Error);

/// The bytes that a JPEG decoder put into each of the image planes of a stream.
pub type JpegReply = Seq<Seq<u8>>;

/// Strides and lengths of the image planes that `oxideav-mjpeg` decodes a JPEG
/// stream to; `None` where it reports an error.
pub uninterp spec fn jpeg_layout(stream: Seq<u8>) -> Option<Seq<(usize, nat)>>;

/// Strides and lengths of planes.
pub open spec fn layout_of(planes: Seq<(usize, Seq<u8>)>) -> Seq<(usize, nat)> {
    Seq::new(planes.len(), |i: int| (planes[i].0, planes[i].1.len()))
}

/// Planes of a layout with the bytes of a reply; nothing where there is no layout.
pub open spec fn filled(layout: Option<Seq<(usize, nat)>>, reply: JpegReply) -> Option<Seq<(usize, Seq<u8>)>> {
    match layout {
        None => None,
        Some(l) => Some(Seq::new(l.len(), |i: int| (l[i].0, Seq::new(l[i].1, |k: int| reply[i][k])))),
    }
}

/// Hands a stream to the decoder of `oxideav_mjpeg::registry::make_decoder` and
/// takes the image planes of the frame that comes back. Claimed of it: whether it
/// succeeds, and how many planes of which strides and lengths come back, depends on
/// the bytes alone. What stands in the planes is left open: the decoder computes its
/// inverse cosine transform in floating point from `f32::cos`, whose results may
/// differ from machine to machine.
#[verifier::external_body]
fn mjpeg_decode(stream: Vec<u8>) -> (r: std::result::Result<Vec<FramePlane>, oxideav_core::Error>)
    ensures
        (match r {
            Ok(v) => jpeg_layout(stream@) == Some(layout_of(frame_model(v@))),
            Err(_) => jpeg_layout(stream@) is None,
        }),
{
    let id = oxideav_core::CodecId::new(oxideav_mjpeg::CODEC_ID_STR);
    let mut dec = oxideav_mjpeg::registry::make_decoder(&oxideav_core::CodecParameters::video(id))?;
    let time_base = oxideav_core::time::TimeBase::new(1, 1);
    dec.send_packet(&oxideav_core::Packet::new(0, time_base, stream))?;
    match dec.receive_frame()? {
        oxideav_core::Frame::Video(f) => Ok(
            f.image_planes().iter().map(|p| FramePlane { stride: p.stride, data: p.data.clone() }).collect(),
        ),
        _ => Err(oxideav_core::Error::other("not a video frame")),
    }
}

/// A plane holds `rows` rows of `cols` bytes.
pub open spec fn plane_holds(p: (usize, Seq<u8>), rows: int, cols: int) -> bool {
    rows <= 0 || cols <= 0 || (rows - 1) * p.0 + cols <= p.1.len()
}

/// Layout of decoded planes of `w` by `h` pixels.
pub open spec fn classified(planes: Seq<(usize, Seq<u8>)>, w: int, h: int, photometric: u16) -> Option<JpegPixelFormat> {
    if planes.len() == 1 {
        let s = planes[0].0 as int;
        let whole = planes[0].1.len() >= s * h;
        if s >= 4 * w && whole {
            if photometric == PHOTO_CMYK { Some(JpegPixelFormat::Cmyk8) } else { None }
        } else if photometric == PHOTO_RGB {
            if s >= 3 * w && whole { Some(JpegPixelFormat::Rgb24Packed) } else { None }
        } else if photometric == PHOTO_BLACK_IS_ZERO || photometric == PHOTO_WHITE_IS_ZERO {
            if s >= w && whole { Some(JpegPixelFormat::Gray8) } else { None }
        } else {
            None
        }
    } else if planes.len() == 3 {
        let luma = if planes[0].0 >= w { planes[0].0 as int } else { w };
        let chroma = planes[1].0 as int;
        if chroma == luma {
            if photometric == PHOTO_RGB {
                Some(JpegPixelFormat::Rgb24)
            } else if photometric == PHOTO_YCBCR {
                Some(JpegPixelFormat::Yuv444P)
            } else {
                None
            }
        } else if 2 * chroma == luma {
            if planes[1].1.len() as int / (if chroma > 0 { chroma } else { 1 }) >= h {
                Some(JpegPixelFormat::Yuv422P)
            } else {
                Some(JpegPixelFormat::Yuv420P)
            }
        } else if 4 * chroma == luma {
            Some(JpegPixelFormat::Yuv411P)
        } else {
            None
        }
    } else {
        None
    }
}

/// Finds out how decoded planes are laid out.
pub fn classify(planes: &Vec<FramePlane>, seg_w: u32, seg_h: u32, photometric: u16) -> (r: Result<JpegPixelFormat>)
    ensures
        (match (r, classified(frame_model(planes@), seg_w as int, seg_h as int, photometric)) {
            (Ok(f), Some(g)) => f == g,
            (Err(e), None) => e is InvalidData,
            _ => false,
        }),
{
    let w: u128 = seg_w as u128;
    let np: usize = planes.len();
    if np == 1 {
        let s: u128 = planes[0].stride as u128;
        proof {
            assert(0 <= s * seg_h <= 0xffff_ffff_ffff_ffff * 0xffff_ffff) by (nonlinear_arith)
                requires
                    0 <= s <= 0xffff_ffff_ffff_ffff,
                    0 <= seg_h <= 0xffff_ffff,
            ;
        }
        let whole: bool = planes[0].data.len() as u128 >= s * seg_h as u128;
        if s >= 4 * w && whole {
            if photometric != PHOTO_CMYK {
                return Err(
                    invalid_with("TIFF/JPEG: 1-plane packed-4 JPEG but photometric=", photometric as u64, " (expected 5/CMYK)"),
                );
            }
            return Ok(JpegPixelFormat::Cmyk8);
        }
        if photometric == PHOTO_RGB {
            if s < 3 * w || !whole {
                return Err(TiffError::invalid("TIFF/JPEG: 1-plane JPEG with photometric=2/RGB but plane is not packed-3"));
            }
            return Ok(JpegPixelFormat::Rgb24Packed);
        }
        if photometric != PHOTO_BLACK_IS_ZERO && photometric != PHOTO_WHITE_IS_ZERO {
            return Err(invalid_with("TIFF/JPEG: 1-plane JPEG but photometric=", photometric as u64, " (expected 0 or 1)"));
        }
        if s < w || !whole {
            return Err(TiffError::invalid("TIFF/JPEG: gray plane too small"));
        }
        return Ok(JpegPixelFormat::Gray8);
    }
    if np != 3 {
        return Err(invalid_with("TIFF/JPEG: unsupported JPEG plane count ", np as u64, ""));
    }
    let first: u128 = planes[0].stride as u128;
    let luma: u128 = if first >= w { first } else { w };
    let chroma: u128 = planes[1].stride as u128;
    if chroma == luma {
        if photometric == PHOTO_RGB {
            return Ok(JpegPixelFormat::Rgb24);
        }
        if photometric == PHOTO_YCBCR {
            return Ok(JpegPixelFormat::Yuv444P);
        }
        return Err(invalid_with("TIFF/JPEG: 3-plane full-res JPEG but photometric=", photometric as u64, ""));
    }
    if 2 * chroma == luma {
        let step: u128 = if chroma > 0 { chroma } else { 1 };
        let rows: u128 = planes[1].data.len() as u128 / step;
        return Ok(if rows >= seg_h as u128 { JpegPixelFormat::Yuv422P } else { JpegPixelFormat::Yuv420P });
    }
    if 4 * chroma == luma {
        return Ok(JpegPixelFormat::Yuv411P);
    }
    Err(TiffError::invalid("TIFF/JPEG: cannot classify 3-plane JPEG"))
}

/// Pixels that share a chroma sample, across and down.
pub open spec fn sharing(pf: JpegPixelFormat) -> (int, int) {
    match pf {
        JpegPixelFormat::Yuv422P => (2, 1),
        JpegPixelFormat::Yuv420P => (2, 2),
        JpegPixelFormat::Yuv411P => (4, 1),
        _ => (1, 1),
    }
}

/// Width and height of plane `i` of a segment of `seg_w` by `seg_h` pixels.
pub fn plane_dims(pf: JpegPixelFormat, seg_w: u32, seg_h: u32, i: usize) -> (d: (u32, u32))
    ensures
        d.0 == (if i == 0 { seg_w as int } else { ceil_div(seg_w as int, sharing(pf).0) }),
        d.1 == (if i == 0 { seg_h as int } else { ceil_div(seg_h as int, sharing(pf).1) }),
{
    if i == 0 {
        return (seg_w, seg_h);
    }
    assert((seg_w + 1 - 1) / 1 == seg_w && (seg_h + 1 - 1) / 1 == seg_h);
    match pf {
        JpegPixelFormat::Yuv422P => (div_up(seg_w, 2), seg_h),
        JpegPixelFormat::Yuv420P => (div_up(seg_w, 2), div_up(seg_h, 2)),
        JpegPixelFormat::Yuv411P => (div_up(seg_w, 4), seg_h),
        _ => (seg_w, seg_h),
    }
}

/// Layout and planes of a strip or tile, given what the decoder made of its
/// stream.
pub open spec fn segment_of(decoded: Option<Seq<(usize, Seq<u8>)>>, w: int, h: int, photometric: u16) -> Option<
    (JpegPixelFormat, Seq<(usize, Seq<u8>)>),
> {
    match decoded {
        None => None,
        Some(planes) => match classified(planes, w, h, photometric) {
            None => None,
            Some(f) => Some((f, planes)),
        },
    }
}

/// Layout and planes of a strip or tile, given the bytes that the decoder put into
/// the planes of its stream, to which its bytes and the tables must combine.
pub open spec fn decoded_segment(
    tables: Option<Seq<u8>>,
    segment: Seq<u8>,
    w: int,
    h: int,
    photometric: u16,
    reply: JpegReply,
) -> Option<(JpegPixelFormat, Seq<(usize, Seq<u8>)>)> {
    match merged(tables, segment) {
        None => None,
        Some(m) => segment_of(filled(jpeg_layout(m), reply), w, h, photometric),
    }
}

/// The segment has the given layout and planes.
pub open spec fn segment_is(seg: JpegSegment, w: u32, h: u32, s: (JpegPixelFormat, Seq<(usize, Seq<u8>)>)) -> bool {
    &&& seg.width == w
    &&& seg.height == h
    &&& seg.pixel_format == s.0
    &&& planes_model(seg.planes@) == s.1
    &&& forall|i: int|
        0 <= i < seg.planes@.len() ==> {
            &&& (#[trigger] seg.planes@[i]).width == (if i == 0 { w as int } else { ceil_div(w as int, sharing(s.0).0) })
            &&& seg.planes@[i].height == (if i == 0 { h as int } else { ceil_div(h as int, sharing(s.0).1) })
        }
}

/// Makes a segment of decoded planes.
pub fn label_planes(frame: Vec<FramePlane>, seg_w: u32, seg_h: u32, photometric: u16) -> (r: Result<JpegSegment>)
    ensures
        (match (r, segment_of(Some(frame_model(frame@)), seg_w as int, seg_h as int, photometric)) {
            (Ok(seg), Some(s)) => segment_is(seg, seg_w, seg_h, s),
            (Err(e), None) => e is InvalidData,
            _ => false,
        }),
{
    let pf = classify(&frame, seg_w, seg_h, photometric)?;
    let mut planes: Vec<Plane> = Vec::new();
    let n: usize = frame.len();
    let mut i: usize = 0;
    while i < n
        invariant
            i <= n,
            n == frame@.len(),
            planes@.len() == i,
            forall|k: int|
                0 <= k < i ==> {
                    &&& (#[trigger] planes@[k]).stride == frame@[k].stride
                    &&& planes@[k].data@ == frame@[k].data@
                    &&& planes@[k].width == (if k == 0 { seg_w as int } else { ceil_div(seg_w as int, sharing(pf).0) })
                    &&& planes@[k].height == (if k == 0 { seg_h as int } else { ceil_div(seg_h as int, sharing(pf).1) })
                },
        decreases n - i,
    {
        let (width, height) = plane_dims(pf, seg_w, seg_h, i);
        let data = copy_range(&frame[i].data, 0, frame[i].data.len());
        assert(frame@[i as int].data@.subrange(0, frame@[i as int].data@.len() as int) =~= frame@[i as int].data@);
        planes.push(Plane { stride: frame[i].stride, width, height, data });
        i = i + 1;
    }
    assert(planes_model(planes@) =~= frame_model(frame@));
    Ok(JpegSegment { width: seg_w, height: seg_h, planes, pixel_format: pf })
}

/// Planes are those of their layout with their bytes.
proof fn lemma_filled(planes: Seq<(usize, Seq<u8>)>)
    ensures
        filled(Some(layout_of(planes)), Seq::new(planes.len(), |i: int| planes[i].1)) == Some(planes),
{
    let got = filled(Some(layout_of(planes)), Seq::new(planes.len(), |i: int| planes[i].1)).unwrap();
    assert forall|i: int| 0 <= i < planes.len() implies got[i] == planes[i] by {
        assert(got[i].1 =~= planes[i].1);
    }
    assert(got =~= planes);
}

/// A result on a segment is what a specification calls for.
pub open spec fn segment_agrees(
    r: Result<JpegSegment>,
    w: u32,
    h: u32,
    s: Option<(JpegPixelFormat, Seq<(usize, Seq<u8>)>)>,
) -> bool {
    match (r, s) {
        (Ok(seg), Some(s)) => segment_is(seg, w, h, s),
        (Err(e), None) => e is InvalidData,
        _ => false,
    }
}

/// Decodes one strip or tile of `seg_w` by `seg_h` pixels. The result is that of
/// the bytes that the decoder put into the planes of its stream.
pub fn decode_segment(tables: Option<&[u8]>, segment: &[u8], seg_w: u32, seg_h: u32, photometric: u16) -> (r: Result<
    JpegSegment,
>)
    ensures
        exists|reply: JpegReply|
            segment_agrees(
                r,
                seg_w,
                seg_h,
                #[trigger] decoded_segment(bytes_model(tables), segment@, seg_w as int, seg_h as int, photometric, reply),
            ),
{
    let ghost failed = decoded_segment(
        bytes_model(tables),
        segment@,
        seg_w as int,
        seg_h as int,
        photometric,
        Seq::empty(),
    );
    let stream = match merge_jpeg_segment(tables, segment) {
        Ok(v) => v,
        Err(e) => {
            assert(failed is None);
            return Err(e);
        },
    };
    match mjpeg_decode(stream) {
        Ok(frame) => {
            let ghost planes = frame_model(frame@);
            let ghost reply = Seq::new(planes.len(), |i: int| planes[i].1);
            proof {
                lemma_filled(planes);
            }
            let r = label_planes(frame, seg_w, seg_h, photometric);
            assert(segment_agrees(
                r,
                seg_w,
                seg_h,
                decoded_segment(bytes_model(tables), segment@, seg_w as int, seg_h as int, photometric, reply),
            ));
            r
        },
        Err(_) => {
            assert(failed is None);
            Err(TiffError::invalid("TIFF/JPEG: mjpeg could not decode the segment"))
        },
    }
}

// ----------------------------------------------------------------------
// Pixels of a segment
// ----------------------------------------------------------------------

/// How the planes of a segment become displayed bytes.
#[derive(Debug, Clone, Copy, PartialEq, Eq, Structural)]
pub enum Blend {
    /// One byte for each pixel, perhaps inverted.
    Gray { invert: bool },
    /// Luma and chroma planes.
    Yuv { sh: u32, sv: u32 },
    /// A plane for each of red, green and blue.
    Planar,
    /// Red, green and blue triples.
    Packed,
    /// Ink quadruples.
    Inks,
}

impl Blend {
    /// Displayed bytes of a pixel.
    pub open spec fn depth(self) -> int {
        if self is Gray { 1 } else { 3 }
    }

    pub open spec fn wf(self) -> bool {
        self matches Blend::Yuv { sh, sv } ==> 1 <= sh <= 4 && 1 <= sv <= 4
    }
}

/// Byte `x` of row `y` of a plane.
pub open spec fn plane_byte(p: (usize, Seq<u8>), y: int, x: int) -> u8 {
    p.1[y * p.0 + x]
}

/// Displayed byte `c` of the pixel in row `y` and column `x`.
pub open spec fn blended(planes: Seq<(usize, Seq<u8>)>, b: Blend, y: int, x: int, c: int) -> u8 {
    match b {
        Blend::Gray { invert } => {
            let v = plane_byte(planes[0], y, x);
            if invert { (255 - v) as u8 } else { v }
        },
        Blend::Yuv { sh, sv } => ycbcr_byte(
            plane_byte(planes[0], y, x),
            plane_byte(planes[1], y / (sv as int), x / (sh as int)),
            plane_byte(planes[2], y / (sv as int), x / (sh as int)),
            c,
        ),
        Blend::Planar => plane_byte(planes[c], y, x),
        Blend::Packed => plane_byte(planes[0], y, 3 * x + c),
        Blend::Inks => ink_byte(plane_byte(planes[0], y, 4 * x + c), plane_byte(planes[0], y, 4 * x + 3)),
    }
}

/// The planes hold all bytes of `w` by `h` pixels.
pub open spec fn planes_hold(planes: Seq<(usize, Seq<u8>)>, b: Blend, w: int, h: int) -> bool {
    match b {
        Blend::Gray { invert } => planes.len() >= 1 && plane_holds(planes[0], h, w),
        Blend::Yuv { sh, sv } => {
            &&& planes.len() >= 3
            &&& plane_holds(planes[0], h, w)
            &&& plane_holds(planes[1], ceil_div(h, sv as int), ceil_div(w, sh as int))
            &&& plane_holds(planes[2], ceil_div(h, sv as int), ceil_div(w, sh as int))
        },
        Blend::Planar => {
            &&& planes.len() >= 3
            &&& plane_holds(planes[0], h, w)
            &&& plane_holds(planes[1], h, w)
            &&& plane_holds(planes[2], h, w)
        },
        Blend::Packed => planes.len() >= 1 && plane_holds(planes[0], h, 3 * w),
        Blend::Inks => planes.len() >= 1 && plane_holds(planes[0], h, 4 * w),
    }
}

fn holds(p: &Plane, rows: u64, cols: u64) -> (b: bool)
    requires
        rows <= 0xffff_ffff,
        cols <= 0x4_0000_0000,
    ensures
        b == plane_holds((p.stride, p.data@), rows as int, cols as int),
{
    if rows == 0 || cols == 0 {
        return true;
    }
    proof {
        assert(0 <= (rows - 1) * p.stride <= 0xffff_ffff * 0xffff_ffff_ffff_ffff) by (nonlinear_arith)
            requires
                1 <= rows <= 0xffff_ffff,
                0 <= p.stride <= 0xffff_ffff_ffff_ffff,
        ;
    }
    (rows as u128 - 1) * p.stride as u128 + cols as u128 <= p.data.len() as u128
}

fn all_hold(planes: &Vec<Plane>, b: Blend, w: u32, h: u32) -> (r: bool)
    requires
        b.wf(),
    ensures
        r == planes_hold(planes_model(planes@), b, w as int, h as int),
{
    let ghost m = planes_model(planes@);
    let n: usize = planes.len();
    assert(forall|i: int| 0 <= i < n ==> #[trigger] m[i] == (planes@[i].stride, planes@[i].data@));
    match b {
        Blend::Gray { invert } => n >= 1 && holds(&planes[0], h as u64, w as u64),
        Blend::Yuv { sh, sv } => {
            if n < 3 {
                return false;
            }
            let ch: u32 = div_up(h, sv);
            let cw: u32 = div_up(w, sh);
            holds(&planes[0], h as u64, w as u64) && holds(&planes[1], ch as u64, cw as u64) && holds(
                &planes[2],
                ch as u64,
                cw as u64,
            )
        },
        Blend::Planar => n >= 3 && holds(&planes[0], h as u64, w as u64) && holds(&planes[1], h as u64, w as u64) && holds(
            &planes[2],
            h as u64,
            w as u64,
        ),
        Blend::Packed => n >= 1 && holds(&planes[0], h as u64, 3 * w as u64),
        Blend::Inks => n >= 1 && holds(&planes[0], h as u64, 4 * w as u64),
    }
}

fn byte_at(p: &Plane, y: usize, x: usize, Ghost(rows): Ghost<int>, Ghost(cols): Ghost<int>) -> (b: u8)
    requires
        plane_holds((p.stride, p.data@), rows, cols),
        y < rows,
        x < cols,
    ensures
        b == plane_byte((p.stride, p.data@), y as int, x as int),
{
    proof {
        let s = p.stride as int;
        assert(y * s <= (rows - 1) * s) by (nonlinear_arith)
            requires
                0 <= y <= rows - 1,
                0 <= s,
        ;
        assert(0 <= y * s) by (nonlinear_arith)
            requires
                0 <= y,
                0 <= s,
        ;
        assert(p.data@.len() == p.data.len());
    }
    p.data[y * p.stride + x]
}

/// `y / s` is a row of the chroma planes.
proof fn lemma_shared(y: int, h: int, s: int)
    requires
        0 <= y < h,
        1 <= s <= 4,
    ensures
        0 <= y / s < ceil_div(h, s),
{
    lemma_tile_rows(y, h, s);
}

/// Displayed bytes of one pixel; a gray pixel has only the first.
fn pixel(planes: &Vec<Plane>, b: Blend, y: usize, x: usize, Ghost(w): Ghost<int>, Ghost(h): Ghost<int>) -> (v: (u8, u8, u8))
    requires
        b.wf(),
        planes_hold(planes_model(planes@), b, w, h),
        y < h,
        x < w,
        w <= 0xffff_ffff,
        4 * w <= usize::MAX,
    ensures
        v.0 == blended(planes_model(planes@), b, y as int, x as int, 0),
        b is Gray || v.1 == blended(planes_model(planes@), b, y as int, x as int, 1),
        b is Gray || v.2 == blended(planes_model(planes@), b, y as int, x as int, 2),
{
    let ghost m = planes_model(planes@);
    assert(forall|i: int| 0 <= i < planes@.len() ==> #[trigger] m[i] == (planes@[i].stride, planes@[i].data@));
    match b {
        Blend::Gray { invert } => {
            let v: u8 = byte_at(&planes[0], y, x, Ghost(h), Ghost(w));
            (if invert { 255 - v } else { v }, 0, 0)
        },
        Blend::Yuv { sh, sv } => {
            proof {
                lemma_shared(y as int, h, sv as int);
                lemma_shared(x as int, w, sh as int);
            }
            let cy: usize = y / (sv as usize);
            let cx: usize = x / (sh as usize);
            let luma: u8 = byte_at(&planes[0], y, x, Ghost(h), Ghost(w));
            let cb: u8 = byte_at(&planes[1], cy, cx, Ghost(ceil_div(h, sv as int)), Ghost(ceil_div(w, sh as int)));
            let cr: u8 = byte_at(&planes[2], cy, cx, Ghost(ceil_div(h, sv as int)), Ghost(ceil_div(w, sh as int)));
            ycbcr_to_rgb(luma, cb, cr)
        },
        Blend::Planar => (
            byte_at(&planes[0], y, x, Ghost(h), Ghost(w)),
            byte_at(&planes[1], y, x, Ghost(h), Ghost(w)),
            byte_at(&planes[2], y, x, Ghost(h), Ghost(w)),
        ),
        Blend::Packed => (
            byte_at(&planes[0], y, 3 * x, Ghost(h), Ghost(3 * w)),
            byte_at(&planes[0], y, 3 * x + 1, Ghost(h), Ghost(3 * w)),
            byte_at(&planes[0], y, 3 * x + 2, Ghost(h), Ghost(3 * w)),
        ),
        Blend::Inks => {
            let black: u8 = byte_at(&planes[0], y, 4 * x + 3, Ghost(h), Ghost(4 * w));
            (
                ink_to_byte(byte_at(&planes[0], y, 4 * x, Ghost(h), Ghost(4 * w)), black),
                ink_to_byte(byte_at(&planes[0], y, 4 * x + 1, Ghost(h), Ghost(4 * w)), black),
                ink_to_byte(byte_at(&planes[0], y, 4 * x + 2, Ghost(h), Ghost(4 * w)), black),
            )
        },
    }
}

/// Byte `k` of a picture with rows of `stride` bytes after `w` by `h` pixels of a
/// segment were put at column `x0` of row `y0`.
pub open spec fn pasted_byte(
    dst: Seq<u8>,
    stride: int,
    x0: int,
    y0: int,
    planes: Seq<(usize, Seq<u8>)>,
    b: Blend,
    w: int,
    h: int,
    k: int,
) -> u8 {
    let n = b.depth();
    let y = k / stride - y0;
    let x = k % stride - n * x0;
    if 0 <= y < h && 0 <= x < n * w { blended(planes, b, y, x / n, x % n) } else { dst[k] }
}

/// A picture with rows of `stride` bytes after `w` by `h` pixels of a segment
/// were put at column `x0` of row `y0`.
pub open spec fn pasted(
    dst: Seq<u8>,
    stride: int,
    x0: int,
    y0: int,
    planes: Seq<(usize, Seq<u8>)>,
    b: Blend,
    w: int,
    h: int,
) -> Seq<u8> {
    Seq::new(dst.len(), |k: int| pasted_byte(dst, stride, x0, y0, planes, b, w, h, k))
}

/// `w` by `h` pixels of `n` bytes at column `x0` of row `y0` lie in a picture of
/// `len` bytes with rows of `stride` bytes.
/// The last of their rows need not have its whole stride.
pub open spec fn paste_fits(len: int, stride: int, x0: int, y0: int, n: int, w: int, h: int) -> bool {
    w == 0 || h == 0 || {
        &&& 0 <= x0
        &&& 0 <= y0
        &&& 0 < stride
        &&& n * (x0 + w) <= stride
        &&& (y0 + h - 1) * stride + n * (x0 + w) <= len
    }
}

/// Pixels lie in a picture whose rows all have their whole stride.
proof fn lemma_whole_rows(len: int, stride: int, x0: int, y0: int, n: int, w: int, h: int)
    requires
        0 <= x0,
        0 <= y0,
        0 < stride,
        n * (x0 + w) <= stride,
        (y0 + h) * stride <= len,
    ensures
        paste_fits(len, stride, x0, y0, n, w, h),
{
    assert((y0 + h) * stride == (y0 + h - 1) * stride + stride) by (nonlinear_arith);
}

/// Puts pixels of a segment into a picture.
fn paste(planes: &Vec<Plane>, b: Blend, w: u32, h: u32, dst: &mut [u8], stride: usize, x0: u32, y0: u32)
    requires
        b.wf(),
        planes_hold(planes_model(planes@), b, w as int, h as int),
        paste_fits(old(dst)@.len() as int, stride as int, x0 as int, y0 as int, b.depth(), w as int, h as int),
        4 * w <= usize::MAX,
    ensures
        final(dst)@ == pasted(
            old(dst)@,
            stride as int,
            x0 as int,
            y0 as int,
            planes_model(planes@),
            b,
            w as int,
            h as int,
        ),
{
    let ghost before = dst@;
    let ghost m = planes_model(planes@);
    let n: usize = match b {
        Blend::Gray { invert } => 1,
        _ => 3,
    };
    assert(dst@.len() == dst.len());
    if w == 0 || h == 0 {
        proof {
            assert(n * 0 == 0);
            assert(dst@ =~= pasted(before, stride as int, x0 as int, y0 as int, m, b, w as int, h as int));
        }
        return ;
    }
    let mut y: u32 = 0;
    proof {
        assert forall|k: int| 0 <= k < before.len() implies #[trigger] before[k] == pasted_byte(
            before,
            stride as int,
            x0 as int,
            y0 as int,
            m,
            b,
            w as int,
            0,
            k,
        ) by {}
    }
    while y < h
        invariant
            y <= h,
            0 < w,
            0 < h,
            b.wf(),
            n == b.depth(),
            m == planes_model(planes@),
            planes_hold(m, b, w as int, h as int),
            paste_fits(before.len() as int, stride as int, x0 as int, y0 as int, n as int, w as int, h as int),
            before.len() <= usize::MAX,
            4 * w <= usize::MAX,
            dst@.len() == before.len(),
            forall|k: int|
                0 <= k < before.len() ==> #[trigger] dst@[k] == pasted_byte(
                    before,
                    stride as int,
                    x0 as int,
                    y0 as int,
                    m,
                    b,
                    w as int,
                    y as int,
                    k,
                ),
        decreases h - y,
    {
        let ghost row = (y0 + y) * stride;
        proof {
            assert((y0 + y) * stride <= (y0 + h - 1) * stride) by (nonlinear_arith)
                requires
                    y + 1 <= h,
                    0 <= stride,
            ;
            assert(n * (x0 + w) == n * x0 + n * w) by (nonlinear_arith);
            assert(0 <= n * x0 && 0 <= n * w) by (nonlinear_arith)
                requires
                    0 <= n,
                    0 <= x0,
                    0 <= w,
            ;
            assert(0 <= row) by (nonlinear_arith)
                requires
                    row == (y0 + y) * stride,
                    0 <= y0 + y,
                    0 <= stride,
            ;
            assert(row >= y0 + y) by (nonlinear_arith)
                requires
                    row == (y0 + y) * stride,
                    0 <= y0 + y,
                    1 <= stride,
            ;
        }
        let base: usize = (y0 as usize + y as usize) * stride + n * (x0 as usize);
        let ghost start = dst@;
        let mut x: u32 = 0;
        while x < w
            invariant
                x <= w,
                y < h,
                b.wf(),
                n == b.depth(),
                m == planes_model(planes@),
                planes_hold(m, b, w as int, h as int),
                before.len() <= usize::MAX,
                4 * w <= usize::MAX,
                start.len() == before.len(),
                dst@.len() == before.len(),
                row == (y0 + y) * stride,
                base == row + n * x0,
                n * (x0 + w) <= stride,
                row + n * (x0 + w) <= before.len(),
                forall|k: int|
                    0 <= k < before.len() ==> #[trigger] dst@[k] == (if base <= k < base + n * x {
                        blended(m, b, y as int, (k - base) / (n as int), (k - base) % (n as int))
                    } else {
                        start[k]
                    }),
            decreases w - x,
        {
            proof {
                assert(n * x + n <= n * w) by (nonlinear_arith)
                    requires
                        x + 1 <= w,
                        0 <= n,
                ;
                assert(n * (x0 + w) == n * x0 + n * w) by (nonlinear_arith);
                assert(n * (x + 1) == n * x + n) by (nonlinear_arith);
            }
            let (p, q, s) = pixel(planes, b, y as usize, x as usize, Ghost(w as int), Ghost(h as int));
            let at: usize = base + n * (x as usize);
            let ghost prev = dst@;
            dst[at] = p;
            if n == 3 {
                dst[at + 1] = q;
                dst[at + 2] = s;
            }
            proof {
                assert forall|k: int| 0 <= k < before.len() implies #[trigger] dst@[k] == (if base <= k < base + n * (x
                    + 1) {
                    blended(m, b, y as int, (k - base) / (n as int), (k - base) % (n as int))
                } else {
                    start[k]
                }) by {
                    if at <= k < at + n {
                        if n == 1 {
                        } else {
                            assert((k - base) / 3 == x);
                            assert((k - base) % 3 == k - at);
                        }
                    } else {
                        assert(dst@[k] == prev[k]);
                    }
                }
            }
            x = x + 1;
        }
        proof {
            assert forall|k: int| 0 <= k < before.len() implies #[trigger] dst@[k] == pasted_byte(
                before,
                stride as int,
                x0 as int,
                y0 as int,
                m,
                b,
                w as int,
                y + 1,
                k,
            ) by {
                let st = stride as int;
                vstd::arithmetic::div_mod::lemma_fundamental_div_mod(k, st);
                vstd::arithmetic::div_mod::lemma_mod_bound(k, st);
                assert(st * (k / st) == (k / st) * st) by (nonlinear_arith);
                assert(n * (x0 + w) == n * x0 + n * w) by (nonlinear_arith);
                assert(0 <= n * x0) by (nonlinear_arith)
                    requires
                        0 <= n,
                        0 <= x0,
                ;
                if base <= k < base + n * w {
                    vstd::arithmetic::div_mod::lemma_fundamental_div_mod_converse(k, st, y0 + y, k - row);
                } else if k / st == y0 + y {
                    assert(k - row == k % st);
                }
            }
        }
        y = y + 1;
    }
    assert(dst@ =~= pasted(before, stride as int, x0 as int, y0 as int, m, b, w as int, h as int));
}

/// The layouts with luma and chroma planes.
pub open spec fn is_yuv(pf: JpegPixelFormat) -> bool {
    pf is Yuv444P || pf is Yuv422P || pf is Yuv420P || pf is Yuv411P
}

/// How luma and chroma planes of a layout blend.
pub open spec fn yuv_blend(pf: JpegPixelFormat) -> Blend {
    Blend::Yuv { sh: sharing(pf).0 as u32, sv: sharing(pf).1 as u32 }
}

/// Puts a segment of luma and chroma planes into an RGB picture.
/// The picture stays as it is where the segment has another layout.
pub fn composite_yuv_to_rgb(
    seg: &JpegSegment,
    visible_w: u32,
    visible_h: u32,
    dst: &mut [u8],
    dst_row_stride: usize,
    dst_x: u32,
    dst_y: u32,
) -> (r: Result<()>)
    requires
        is_yuv(seg.pixel_format) ==> {
            &&& planes_hold(planes_model(seg.planes@), yuv_blend(seg.pixel_format), visible_w as int, visible_h as int)
            &&& paste_fits(
                old(dst)@.len() as int,
                dst_row_stride as int,
                dst_x as int,
                dst_y as int,
                yuv_blend(seg.pixel_format).depth(),
                visible_w as int,
                visible_h as int,
            )
            &&& 4 * visible_w <= usize::MAX
        },
    ensures
        is_yuv(seg.pixel_format) ==> r is Ok && final(dst)@ == pasted(
            old(dst)@,
            dst_row_stride as int,
            dst_x as int,
            dst_y as int,
            planes_model(seg.planes@),
            yuv_blend(seg.pixel_format),
            visible_w as int,
            visible_h as int,
        ),
        !(is_yuv(seg.pixel_format)) ==> final(dst)@ == old(dst)@ && (r matches Err(e) && e is InvalidData),
{
    let (sh, sv): (u32, u32) = match seg.pixel_format {
        JpegPixelFormat::Yuv444P => (1, 1),
        JpegPixelFormat::Yuv422P => (2, 1),
        JpegPixelFormat::Yuv420P => (2, 2),
        JpegPixelFormat::Yuv411P => (4, 1),
        _ => {
            return Err(TiffError::invalid("composite_yuv_to_rgb called with a segment without chroma planes"));
        },
    };
    paste(&seg.planes, Blend::Yuv { sh, sv }, visible_w, visible_h, dst, dst_row_stride, dst_x, dst_y);
    Ok(())
}

/// Puts a gray segment into a gray picture, inverted where white is zero.
/// The picture stays as it is where the segment has another layout.
pub fn composite_gray(
    seg: &JpegSegment,
    visible_w: u32,
    visible_h: u32,
    dst: &mut [u8],
    dst_row_stride: usize,
    dst_x: u32,
    dst_y: u32,
    invert: bool,
) -> (r: Result<()>)
    requires
        seg.pixel_format is Gray8 ==> {
            &&& planes_hold(planes_model(seg.planes@), (Blend::Gray { invert }), visible_w as int, visible_h as int)
            &&& paste_fits(
                old(dst)@.len() as int,
                dst_row_stride as int,
                dst_x as int,
                dst_y as int,
                (Blend::Gray { invert }).depth(),
                visible_w as int,
                visible_h as int,
            )
            &&& 4 * visible_w <= usize::MAX
        },
    ensures
        seg.pixel_format is Gray8 ==> r is Ok && final(dst)@ == pasted(
            old(dst)@,
            dst_row_stride as int,
            dst_x as int,
            dst_y as int,
            planes_model(seg.planes@),
            (Blend::Gray { invert }),
            visible_w as int,
            visible_h as int,
        ),
        !(seg.pixel_format is Gray8) ==> final(dst)@ == old(dst)@ && (r matches Err(e) && e is InvalidData),
{
    match seg.pixel_format {
        JpegPixelFormat::Gray8 => {},
        _ => {
            return Err(TiffError::invalid("composite_gray called with non-Gray8 segment"));
        },
    }
    paste(&seg.planes, Blend::Gray { invert }, visible_w, visible_h, dst, dst_row_stride, dst_x, dst_y);
    Ok(())
}

/// Puts a segment of red, green and blue planes into an RGB picture.
/// The picture stays as it is where the segment has another layout.
pub fn composite_rgb_planar(
    seg: &JpegSegment,
    visible_w: u32,
    visible_h: u32,
    dst: &mut [u8],
    dst_row_stride: usize,
    dst_x: u32,
    dst_y: u32,
) -> (r: Result<()>)
    requires
        (seg.pixel_format is Rgb24 || seg.pixel_format is Yuv444P) ==> {
            &&& planes_hold(planes_model(seg.planes@), Blend::Planar, visible_w as int, visible_h as int)
            &&& paste_fits(
                old(dst)@.len() as int,
                dst_row_stride as int,
                dst_x as int,
                dst_y as int,
                Blend::Planar.depth(),
                visible_w as int,
                visible_h as int,
            )
            &&& 4 * visible_w <= usize::MAX
        },
    ensures
        (seg.pixel_format is Rgb24 || seg.pixel_format is Yuv444P) ==> r is Ok && final(dst)@ == pasted(
            old(dst)@,
            dst_row_stride as int,
            dst_x as int,
            dst_y as int,
            planes_model(seg.planes@),
            Blend::Planar,
            visible_w as int,
            visible_h as int,
        ),
        !((seg.pixel_format is Rgb24 || seg.pixel_format is Yuv444P)) ==> final(dst)@ == old(dst)@ && (r matches Err(e) && e is InvalidData),
{
    match seg.pixel_format {
        JpegPixelFormat::Rgb24 | JpegPixelFormat::Yuv444P => {},
        _ => {
            return Err(TiffError::invalid("composite_rgb_planar called with non-3-plane-full-res segment"));
        },
    }
    paste(&seg.planes, Blend::Planar, visible_w, visible_h, dst, dst_row_stride, dst_x, dst_y);
    Ok(())
}

/// Puts a segment of packed red, green and blue into an RGB picture.
/// The picture stays as it is where the segment has another layout.
pub fn composite_rgb_packed(
    seg: &JpegSegment,
    visible_w: u32,
    visible_h: u32,
    dst: &mut [u8],
    dst_row_stride: usize,
    dst_x: u32,
    dst_y: u32,
) -> (r: Result<()>)
    requires
        seg.pixel_format is Rgb24Packed ==> {
            &&& planes_hold(planes_model(seg.planes@), Blend::Packed, visible_w as int, visible_h as int)
            &&& paste_fits(
                old(dst)@.len() as int,
                dst_row_stride as int,
                dst_x as int,
                dst_y as int,
                Blend::Packed.depth(),
                visible_w as int,
                visible_h as int,
            )
            &&& 4 * visible_w <= usize::MAX
        },
    ensures
        seg.pixel_format is Rgb24Packed ==> r is Ok && final(dst)@ == pasted(
            old(dst)@,
            dst_row_stride as int,
            dst_x as int,
            dst_y as int,
            planes_model(seg.planes@),
            Blend::Packed,
            visible_w as int,
            visible_h as int,
        ),
        !(seg.pixel_format is Rgb24Packed) ==> final(dst)@ == old(dst)@ && (r matches Err(e) && e is InvalidData),
{
    match seg.pixel_format {
        JpegPixelFormat::Rgb24Packed => {},
        _ => {
            return Err(TiffError::invalid("composite_rgb_packed called with non-packed-RGB segment"));
        },
    }
    paste(&seg.planes, Blend::Packed, visible_w, visible_h, dst, dst_row_stride, dst_x, dst_y);
    Ok(())
}

/// Puts a segment of packed inks into an RGB picture.
/// The picture stays as it is where the segment has another layout.
pub fn composite_cmyk_to_rgb(
    seg: &JpegSegment,
    visible_w: u32,
    visible_h: u32,
    dst: &mut [u8],
    dst_row_stride: usize,
    dst_x: u32,
    dst_y: u32,
) -> (r: Result<()>)
    requires
        seg.pixel_format is Cmyk8 ==> {
            &&& planes_hold(planes_model(seg.planes@), Blend::Inks, visible_w as int, visible_h as int)
            &&& paste_fits(
                old(dst)@.len() as int,
                dst_row_stride as int,
                dst_x as int,
                dst_y as int,
                Blend::Inks.depth(),
                visible_w as int,
                visible_h as int,
            )
            &&& 4 * visible_w <= usize::MAX
        },
    ensures
        seg.pixel_format is Cmyk8 ==> r is Ok && final(dst)@ == pasted(
            old(dst)@,
            dst_row_stride as int,
            dst_x as int,
            dst_y as int,
            planes_model(seg.planes@),
            Blend::Inks,
            visible_w as int,
            visible_h as int,
        ),
        !(seg.pixel_format is Cmyk8) ==> final(dst)@ == old(dst)@ && (r matches Err(e) && e is InvalidData),
{
    match seg.pixel_format {
        JpegPixelFormat::Cmyk8 => {},
        _ => {
            return Err(TiffError::invalid("composite_cmyk_to_rgb called with non-Cmyk8 segment"));
        },
    }
    paste(&seg.planes, Blend::Inks, visible_w, visible_h, dst, dst_row_stride, dst_x, dst_y);
    Ok(())
}

// ----------------------------------------------------------------------
// Strips and tiles of a page
// ----------------------------------------------------------------------

/// How a segment of the given layout is displayed on a page; nothing where the
/// two do not go together.
pub open spec fn blend_of(pf: JpegPixelFormat, photometric: u16) -> Option<Blend> {
    match pf {
        JpegPixelFormat::Gray8 => Some(Blend::Gray { invert: photometric == PHOTO_WHITE_IS_ZERO }),
        JpegPixelFormat::Rgb24 => if photometric == PHOTO_RGB { Some(Blend::Planar) } else { None },
        JpegPixelFormat::Rgb24Packed => if photometric == PHOTO_RGB { Some(Blend::Packed) } else { None },
        JpegPixelFormat::Cmyk8 => if photometric == PHOTO_CMYK { Some(Blend::Inks) } else { None },
        _ => if photometric == PHOTO_YCBCR {
            Some(yuv_blend(pf))
        } else if photometric == PHOTO_RGB && pf is Yuv444P {
            Some(Blend::Planar)
        } else {
            None
        },
    }
}

/// A page of gray samples.
pub open spec fn is_gray_page(photometric: u16) -> bool {
    photometric == PHOTO_BLACK_IS_ZERO || photometric == PHOTO_WHITE_IS_ZERO
}

/// Bytes of a displayed pixel of a page.
pub open spec fn page_depth(photometric: u16) -> int {
    if is_gray_page(photometric) { 1 } else { 3 }
}

/// A picture after `w` by `h` pixels of a strip or tile were put at column `x0`
/// of row `y0`; nothing where it does not decode to enough bytes.
pub open spec fn composited(
    dst: Seq<u8>,
    stride: int,
    x0: int,
    y0: int,
    seg: Option<(JpegPixelFormat, Seq<(usize, Seq<u8>)>)>,
    photometric: u16,
    w: int,
    h: int,
) -> Option<Seq<u8>> {
    match seg {
        None => None,
        Some(s) => match blend_of(s.0, photometric) {
            None => None,
            Some(b) => if planes_hold(s.1, b, w, h) { Some(pasted(dst, stride, x0, y0, s.1, b, w, h)) } else { None },
        },
    }
}

/// Puts a strip or tile into a picture.
pub fn composite_segment(
    seg: &JpegSegment,
    visible_w: u32,
    visible_h: u32,
    dst: &mut Vec<u8>,
    dst_row_stride: usize,
    dst_x: u32,
    dst_y: u32,
    photometric: u16,
) -> (r: Result<()>)
    requires
        seg.pixel_format is Gray8 <==> is_gray_page(photometric) && blend_of(seg.pixel_format, photometric) is Some,
        paste_fits(
            old(dst)@.len() as int,
            dst_row_stride as int,
            dst_x as int,
            dst_y as int,
            page_depth(photometric),
            visible_w as int,
            visible_h as int,
        ),
        4 * visible_w <= usize::MAX,
    ensures
        (match (r, composited(
            old(dst)@,
            dst_row_stride as int,
            dst_x as int,
            dst_y as int,
            Some((seg.pixel_format, planes_model(seg.planes@))),
            photometric,
            visible_w as int,
            visible_h as int,
        )) {
            (Ok(_), Some(s)) => final(dst)@ == s,
            (Err(e), None) => e is InvalidData,
            _ => false,
        }),
{
    let b: Blend = match seg.pixel_format {
        JpegPixelFormat::Gray8 => Blend::Gray { invert: photometric == PHOTO_WHITE_IS_ZERO },
        JpegPixelFormat::Rgb24 if photometric == PHOTO_RGB => Blend::Planar,
        JpegPixelFormat::Rgb24Packed if photometric == PHOTO_RGB => Blend::Packed,
        JpegPixelFormat::Cmyk8 if photometric == PHOTO_CMYK => Blend::Inks,
        JpegPixelFormat::Yuv444P if photometric == PHOTO_YCBCR => Blend::Yuv { sh: 1, sv: 1 },
        JpegPixelFormat::Yuv422P if photometric == PHOTO_YCBCR => Blend::Yuv { sh: 2, sv: 1 },
        JpegPixelFormat::Yuv420P if photometric == PHOTO_YCBCR => Blend::Yuv { sh: 2, sv: 2 },
        JpegPixelFormat::Yuv411P if photometric == PHOTO_YCBCR => Blend::Yuv { sh: 4, sv: 1 },
        JpegPixelFormat::Yuv444P if photometric == PHOTO_RGB => Blend::Planar,
        _ => {
            return Err(
                invalid_with("TIFF/JPEG: layout of the JPEG segment does not fit TIFF photometric=", photometric as u64, ""),
            );
        },
    };
    if !all_hold(&seg.planes, b, visible_w, visible_h) {
        return Err(TiffError::invalid("TIFF/JPEG: decoded planes are smaller than the segment"));
    }
    match b {
        Blend::Gray { invert } => composite_gray(
            seg,
            visible_w,
            visible_h,
            dst,
            dst_row_stride,
            dst_x,
            dst_y,
            invert,
        ),
        Blend::Yuv { sh, sv } => composite_yuv_to_rgb(seg, visible_w, visible_h, dst, dst_row_stride, dst_x, dst_y),
        Blend::Planar => composite_rgb_planar(seg, visible_w, visible_h, dst, dst_row_stride, dst_x, dst_y),
        Blend::Packed => composite_rgb_packed(seg, visible_w, visible_h, dst, dst_row_stride, dst_x, dst_y),
        Blend::Inks => composite_cmyk_to_rgb(seg, visible_w, visible_h, dst, dst_row_stride, dst_x, dst_y),
    }
}

/// A segment is gray exactly on a page of gray samples.
proof fn lemma_gray_page(decoded: Option<Seq<(usize, Seq<u8>)>>, w: int, h: int, photometric: u16)
    ensures
        segment_of(decoded, w, h, photometric) matches Some(s) ==> (s.0 is Gray8 <==> is_gray_page(photometric) && blend_of(
            s.0,
            photometric,
        ) is Some),
{
}

/// The replies start with those in `so_far`.
pub open spec fn begins_with(replies: Seq<JpegReply>, so_far: Seq<JpegReply>) -> bool {
    &&& so_far.len() <= replies.len()
    &&& forall|k: int| 0 <= k < so_far.len() ==> #[trigger] replies[k] == so_far[k]
}

/// A picture of `width` by `height` pixels after strips `i` and later were put
/// below its first `done` rows, given what the decoder replied to each strip.
pub open spec fn jpeg_strips_from(
    input: Seq<u8>,
    offsets: Seq<int>,
    counts: Seq<int>,
    i: int,
    done: int,
    dst: Seq<u8>,
    tables: Option<Seq<u8>>,
    width: int,
    height: int,
    rows_per_strip: int,
    photometric: u16,
    replies: Seq<JpegReply>,
) -> Option<Seq<u8>>
    decreases offsets.len() - i,
{
    if done >= height {
        Some(dst)
    } else if i >= offsets.len() {
        None
    } else {
        let rows = min_int(rows_per_strip, height - done);
        match segment_at(input, offsets[i], counts[i]) {
            None => None,
            Some(raw) => match composited(
                dst,
                width * page_depth(photometric),
                0,
                done,
                decoded_segment(tables, raw, width, rows, photometric, replies[i]),
                photometric,
                width,
                rows,
            ) {
                None => None,
                Some(d) => jpeg_strips_from(
                    input,
                    offsets,
                    counts,
                    i + 1,
                    done + rows,
                    d,
                    tables,
                    width,
                    height,
                    rows_per_strip,
                    photometric,
                    replies,
                ),
            },
        }
    }
}

/// A black picture.
pub open spec fn blank(n: int) -> Seq<u8> {
    Seq::new(n as nat, |i: int| 0u8)
}

/// A picture after a strip or tile was put into it, given what the decoder replied
/// to it.
pub open spec fn composited_at(
    input: Seq<u8>,
    offset: int,
    count: int,
    tables: Option<Seq<u8>>,
    seg_w: int,
    seg_h: int,
    photometric: u16,
    visible_w: int,
    visible_h: int,
    dst: Seq<u8>,
    stride: int,
    x0: int,
    y0: int,
    reply: JpegReply,
) -> Option<Seq<u8>> {
    match segment_at(input, offset, count) {
        None => None,
        Some(raw) => composited(
            dst,
            stride,
            x0,
            y0,
            decoded_segment(tables, raw, seg_w, seg_h, photometric, reply),
            photometric,
            visible_w,
            visible_h,
        ),
    }
}

/// Decodes one strip or tile and puts it into a picture; also gives what the
/// decoder replied.
fn composite_at(
    input: &[u8],
    offset: u64,
    count: u64,
    tables: Option<&[u8]>,
    seg_w: u32,
    seg_h: u32,
    photometric: u16,
    visible_w: u32,
    visible_h: u32,
    dst: &mut Vec<u8>,
    stride: usize,
    x0: u32,
    y0: u32,
) -> (r: (Result<()>, Ghost<JpegReply>))
    requires
        paste_fits(
            old(dst)@.len() as int,
            stride as int,
            x0 as int,
            y0 as int,
            page_depth(photometric),
            visible_w as int,
            visible_h as int,
        ),
        4 * visible_w <= usize::MAX,
    ensures
        (match (
            r.0,
            composited_at(
                input@,
                offset as int,
                count as int,
                bytes_model(tables),
                seg_w as int,
                seg_h as int,
                photometric,
                visible_w as int,
                visible_h as int,
                old(dst)@,
                stride as int,
                x0 as int,
                y0 as int,
                r.1@,
            ),
        ) {
            (Ok(_), Some(s)) => final(dst)@ == s && s.len() == old(dst)@.len(),
            (Err(e), None) => e is InvalidData,
            _ => false,
        }),
{
    if offset as u128 + count as u128 > input.len() as u128 {
        return (Err(TiffError::invalid("TIFF/JPEG: strip or tile extends past EOF")), Ghost(Seq::empty()));
    }
    let raw = copy_range(input, offset as usize, offset as usize + count as usize);
    let got = decode_segment(tables, &raw, seg_w, seg_h, photometric);
    let ghost reply = choose|reply: JpegReply|
        segment_agrees(
            got,
            seg_w,
            seg_h,
            #[trigger] decoded_segment(bytes_model(tables), raw@, seg_w as int, seg_h as int, photometric, reply),
        );
    proof {
        if let Some(m) = merged(bytes_model(tables), raw@) {
            lemma_gray_page(filled(jpeg_layout(m), reply), seg_w as int, seg_h as int, photometric);
        }
    }
    match got {
        Ok(seg) => (
            composite_segment(&seg, visible_w, visible_h, dst, stride, x0, y0, photometric),
            Ghost(reply),
        ),
        Err(e) => (Err(e), Ghost(reply)),
    }
}

/// Reads a page stored in JPEG strips. The result is that of what the decoder
/// replied to each strip.
pub fn read_jpeg_strips(
    input: &[u8],
    offsets: &Vec<u64>,
    counts: &Vec<u64>,
    tables: Option<&[u8]>,
    width: u32,
    height: u32,
    rows_per_strip: u32,
    photometric: u16,
) -> (r: Result<Vec<u8>>)
    requires
        page_size_ok(width as int, height as int),
        offsets@.len() == counts@.len(),
    ensures
        exists|replies: Seq<JpegReply>|
            bytes_or_invalid(
                r,
                #[trigger] jpeg_strips_from(
                    input@,
                    ints_of(offsets@),
                    ints_of(counts@),
                    0,
                    0,
                    blank(width * height * page_depth(photometric)),
                    bytes_model(tables),
                    width as int,
                    height as int,
                    rows_per_strip as int,
                    photometric,
                    replies,
                ),
            ),
{
    let n: usize = if photometric == PHOTO_BLACK_IS_ZERO || photometric == PHOTO_WHITE_IS_ZERO { 1 } else { 3 };
    let ghost offs = ints_of(offsets@);
    let ghost cnts = ints_of(counts@);
    let ghost tabs = bytes_model(tables);
    proof {
        assert(width <= width * height && 0 < width * height) by (nonlinear_arith)
            requires
                0 < width,
                0 < height,
        ;
    }
    let stride: usize = width as usize * n;
    let mut dst: Vec<u8> = vec![0; (width as u64 * height as u64) as usize * n];
    assert(dst@ =~= blank(width * height * page_depth(photometric)));
    let ghost start = dst@;
    let ghost mut so_far: Seq<JpegReply> = Seq::empty();
    let mut done: u32 = 0;
    let mut i: usize = 0;
    while i < offsets.len() && done < height
        invariant
            i <= offsets@.len(),
            offsets@.len() == counts@.len(),
            done <= height,
            0 < width,
            0 < height,
            width * height <= 268435456,
            width <= 268435456,
            n == page_depth(photometric),
            stride == width * n,
            dst@.len() == width * height * n,
            offs == ints_of(offsets@),
            cnts == ints_of(counts@),
            tabs == bytes_model(tables),
            start == blank(width * height * page_depth(photometric)),
            so_far.len() == i,
            forall|rs: Seq<JpegReply>| #[trigger]
                begins_with(rs, so_far) ==> jpeg_strips_from(
                    input@,
                    offs,
                    cnts,
                    0,
                    0,
                    start,
                    tabs,
                    width as int,
                    height as int,
                    rows_per_strip as int,
                    photometric,
                    rs,
                ) == jpeg_strips_from(
                    input@,
                    offs,
                    cnts,
                    i as int,
                    done as int,
                    dst@,
                    tabs,
                    width as int,
                    height as int,
                    rows_per_strip as int,
                    photometric,
                    rs,
                ),
        decreases offsets@.len() - i,
    {
        let left: u32 = height - done;
        let rows: u32 = if rows_per_strip < left { rows_per_strip } else { left };
        proof {
            assert(n * (0 + width) == stride) by (nonlinear_arith)
                requires
                    stride == width * n,
            ;
            assert((done + rows) * stride <= height * stride) by (nonlinear_arith)
                requires
                    done + rows <= height,
                    0 <= stride,
            ;
            assert(height * (width * n) == width * height * n) by (nonlinear_arith);
            assert(stride > 0) by (nonlinear_arith)
                requires
                    stride == width * n,
                    width > 0,
                    n > 0,
            ;
        }
        proof {
            lemma_whole_rows(
                dst@.len() as int,
                stride as int,
                0,
                done as int,
                n as int,
                width as int,
                rows as int,
            );
        }
        let (outcome, reply) = composite_at(
            input,
            offsets[i],
            counts[i],
            tables,
            width,
            rows,
            photometric,
            width,
            rows,
            &mut dst,
            stride,
            0,
            done,
        );
        let ghost now = so_far.push(reply@);
        proof {
            assert forall|rs: Seq<JpegReply>| #[trigger] begins_with(rs, now) implies begins_with(rs, so_far) && rs[i as int]
                == reply@ by {
                assert(now[i as int] == reply@);
                assert forall|k: int| 0 <= k < so_far.len() implies #[trigger] rs[k] == so_far[k] by {
                    assert(rs[k] == now[k]);
                }
            }
            assert(begins_with(now, now));
        }
        match outcome {
            Ok(_) => {},
            Err(e) => {
                assert(jpeg_strips_from(
                    input@,
                    offs,
                    cnts,
                    0,
                    0,
                    start,
                    tabs,
                    width as int,
                    height as int,
                    rows_per_strip as int,
                    photometric,
                    now,
                ) is None);
                return Err(e);
            },
        }
        proof {
            so_far = now;
        }
        done = done + rows;
        i = i + 1;
    }
    assert(begins_with(so_far, so_far));
    if done < height {
        return Err(TiffError::invalid("TIFF/JPEG: strips did not cover full image"));
    }
    Ok(dst)
}

/// A picture after tiles `i` and later were put into it, given what the decoder
/// replied to each tile.
pub open spec fn jpeg_tiles_from(
    input: Seq<u8>,
    offsets: Seq<int>,
    counts: Seq<int>,
    i: int,
    dst: Seq<u8>,
    tables: Option<Seq<u8>>,
    t: TileGrid,
    photometric: u16,
    replies: Seq<JpegReply>,
) -> Option<Seq<u8>>
    decreases offsets.len() - i,
{
    if i < 0 || i >= offsets.len() {
        Some(dst)
    } else {
        let x0 = i % t.across() * t.tile_w;
        let y0 = i / t.across() * t.tile_h;
        match segment_at(input, offsets[i], counts[i]) {
            None => None,
            Some(raw) => match composited(
                dst,
                t.width * page_depth(photometric),
                x0,
                y0,
                decoded_segment(tables, raw, t.tile_w as int, t.tile_h as int, photometric, replies[i]),
                photometric,
                min_int(t.tile_w as int, t.width - x0),
                min_int(t.tile_h as int, t.height - y0),
            ) {
                None => None,
                Some(d) => jpeg_tiles_from(input, offsets, counts, i + 1, d, tables, t, photometric, replies),
            },
        }
    }
}

/// The origin of tile `i` lies on the page.
proof fn lemma_tile_origin(i: int, t: TileGrid)
    requires
        t.width > 0,
        t.height > 0,
        t.tile_w > 0,
        t.tile_h > 0,
        0 <= i < t.across() * t.down(),
        t.across() > 0,
        t.down() > 0,
    ensures
        0 <= i % t.across() < t.across(),
        0 <= i / t.across() < t.down(),
        0 <= i % t.across() * t.tile_w < t.width,
        0 <= i / t.across() * t.tile_h < t.height,
{
    crate::render::lemma_pixel_place(i, t.across(), t.down());
    lemma_origin(i % t.across(), t.width as int, t.tile_w as int);
    lemma_origin(i / t.across(), t.height as int, t.tile_h as int);
}

/// Reads a page stored in JPEG tiles. The result is that of what the decoder
/// replied to each tile.
pub fn read_jpeg_tiles(
    input: &[u8],
    offsets: &Vec<u64>,
    counts: &Vec<u64>,
    tables: Option<&[u8]>,
    t: TileGrid,
    photometric: u16,
) -> (r: Result<Vec<u8>>)
    requires
        page_size_ok(t.width as int, t.height as int),
        t.tile_w > 0,
        t.tile_h > 0,
        offsets@.len() == counts@.len(),
        offsets@.len() == t.across() * t.down(),
    ensures
        exists|replies: Seq<JpegReply>|
            bytes_or_invalid(
                r,
                #[trigger] jpeg_tiles_from(
                    input@,
                    ints_of(offsets@),
                    ints_of(counts@),
                    0,
                    blank(t.width * t.height * page_depth(photometric)),
                    bytes_model(tables),
                    t,
                    photometric,
                    replies,
                ),
            ),
{
    let n: usize = if photometric == PHOTO_BLACK_IS_ZERO || photometric == PHOTO_WHITE_IS_ZERO { 1 } else { 3 };
    let across: u32 = div_up(t.width, t.tile_w);
    let down: u32 = div_up(t.height, t.tile_h);
    let ghost offs = ints_of(offsets@);
    let ghost cnts = ints_of(counts@);
    let ghost tabs = bytes_model(tables);
    proof {
        assert(t.width <= t.width * t.height && t.height <= t.width * t.height) by (nonlinear_arith)
            requires
                0 < t.width,
                0 < t.height,
        ;
        assert(across > 0) by (nonlinear_arith)
            requires
                t.width <= across * t.tile_w,
                t.width > 0,
                across >= 0,
        ;
        assert(down > 0) by (nonlinear_arith)
            requires
                t.height <= down * t.tile_h,
                t.height > 0,
                down >= 0,
        ;
    }
    let stride: usize = t.width as usize * n;
    let mut dst: Vec<u8> = vec![0; (t.width as u64 * t.height as u64) as usize * n];
    assert(dst@ =~= blank(t.width * t.height * page_depth(photometric)));
    let ghost start = dst@;
    let ghost mut so_far: Seq<JpegReply> = Seq::empty();
    let mut i: usize = 0;
    while i < offsets.len()
        invariant
            i <= offsets@.len(),
            offsets@.len() == counts@.len(),
            offsets@.len() == t.across() * t.down(),
            across == t.across(),
            across > 0,
            t.down() > 0,
            0 < t.width <= 268435456,
            0 < t.height <= 268435456,
            t.tile_w > 0,
            t.tile_h > 0,
            n == page_depth(photometric),
            stride == t.width * n,
            dst@.len() == t.width * t.height * n,
            offs == ints_of(offsets@),
            cnts == ints_of(counts@),
            tabs == bytes_model(tables),
            start == blank(t.width * t.height * page_depth(photometric)),
            so_far.len() == i,
            forall|rs: Seq<JpegReply>| #[trigger]
                begins_with(rs, so_far) ==> jpeg_tiles_from(input@, offs, cnts, 0, start, tabs, t, photometric, rs)
                    == jpeg_tiles_from(input@, offs, cnts, i as int, dst@, tabs, t, photometric, rs),
        decreases offsets@.len() - i,
    {
        proof {
            lemma_tile_origin(i as int, t);
        }
        let tx: u64 = i as u64 % across as u64;
        let ty: u64 = i as u64 / across as u64;
        let x0: u32 = (tx * t.tile_w as u64) as u32;
        let y0: u32 = (ty * t.tile_h as u64) as u32;
        let left: u32 = t.width - x0;
        let below: u32 = t.height - y0;
        let visible_w: u32 = if t.tile_w < left { t.tile_w } else { left };
        let visible_h: u32 = if t.tile_h < below { t.tile_h } else { below };
        proof {
            assert(n * (x0 + visible_w) <= stride) by (nonlinear_arith)
                requires
                    stride == t.width * n,
                    x0 + visible_w <= t.width,
                    0 <= n,
            ;
            assert((y0 + visible_h) * stride <= t.height * stride) by (nonlinear_arith)
                requires
                    y0 + visible_h <= t.height,
                    0 <= stride,
            ;
            assert(t.height * (t.width * n) == t.width * t.height * n) by (nonlinear_arith);
            assert(stride > 0) by (nonlinear_arith)
                requires
                    stride == t.width * n,
                    t.width > 0,
                    n > 0,
            ;
        }
        proof {
            lemma_whole_rows(
                dst@.len() as int,
                stride as int,
                x0 as int,
                y0 as int,
                n as int,
                visible_w as int,
                visible_h as int,
            );
        }
        let (outcome, reply) = composite_at(
            input,
            offsets[i],
            counts[i],
            tables,
            t.tile_w,
            t.tile_h,
            photometric,
            visible_w,
            visible_h,
            &mut dst,
            stride,
            x0,
            y0,
        );
        let ghost now = so_far.push(reply@);
        proof {
            assert forall|rs: Seq<JpegReply>| #[trigger] begins_with(rs, now) implies begins_with(rs, so_far) && rs[i as int]
                == reply@ by {
                assert(now[i as int] == reply@);
                assert forall|k: int| 0 <= k < so_far.len() implies #[trigger] rs[k] == so_far[k] by {
                    assert(rs[k] == now[k]);
                }
            }
            assert(begins_with(now, now));
        }
        match outcome {
            Ok(_) => {},
            Err(e) => {
                assert(jpeg_tiles_from(input@, offs, cnts, 0, start, tabs, t, photometric, now) is None);
                return Err(e);
            },
        }
        proof {
            so_far = now;
        }
        i = i + 1;
    }
    assert(begins_with(so_far, so_far));
    Ok(dst)
}

/// A page that is one JPEG stream, given what the decoder replied to it.
pub open spec fn jpeg_whole(stream: Seq<u8>, width: int, height: int, photometric: u16, reply: JpegReply) -> Option<
    Seq<u8>,
> {
    composited(
        blank(width * height * page_depth(photometric)),
        width * page_depth(photometric),
        0,
        0,
        decoded_segment(None, stream, width, height, photometric, reply),
        photometric,
        width,
        height,
    )
}

/// Reads a page that is one JPEG stream. The result is that of what the decoder
/// replied to it.
pub fn read_jpeg_stream(stream: &[u8], width: u32, height: u32, photometric: u16) -> (r: Result<Vec<u8>>)
    requires
        page_size_ok(width as int, height as int),
    ensures
        exists|reply: JpegReply|
            bytes_or_invalid(r, #[trigger] jpeg_whole(stream@, width as int, height as int, photometric, reply)),
{
    let n: usize = if photometric == PHOTO_BLACK_IS_ZERO || photometric == PHOTO_WHITE_IS_ZERO { 1 } else { 3 };
    proof {
        assert(width <= width * height && 0 < width * height) by (nonlinear_arith)
            requires
                0 < width,
                0 < height,
        ;
    }
    let stride: usize = width as usize * n;
    let mut dst: Vec<u8> = vec![0; (width as u64 * height as u64) as usize * n];
    assert(dst@ =~= blank(width * height * page_depth(photometric)));
    proof {
        assert(n * (0 + width) == stride) by (nonlinear_arith)
            requires
                stride == width * n,
        ;
        assert((0 + height) * stride == width * height * n) by (nonlinear_arith)
            requires
                stride == width * n,
        ;
        assert(stride > 0) by (nonlinear_arith)
            requires
                stride == width * n,
                width > 0,
                n > 0,
        ;
    }
    let got = decode_segment(None, stream, width, height, photometric);
    let ghost reply = choose|reply: JpegReply|
        segment_agrees(
            got,
            width,
            height,
            #[trigger] decoded_segment(None, stream@, width as int, height as int, photometric, reply),
        );
    let ghost whole = jpeg_whole(stream@, width as int, height as int, photometric, reply);
    proof {
        lemma_gray_page(filled(jpeg_layout(stream@), reply), width as int, height as int, photometric);
    }
    let seg = match got {
        Ok(seg) => seg,
        Err(e) => {
            assert(whole is None);
            return Err(e);
        },
    };
    proof {
        lemma_whole_rows(dst@.len() as int, stride as int, 0, 0, n as int, width as int, height as int);
    }
    match composite_segment(&seg, width, height, &mut dst, stride, 0, 0, photometric) {
        Ok(_) => {
            assert(whole == Some(dst@));
            Ok(dst)
        },
        Err(e) => {
            assert(whole is None);
            Err(e)
        },
    }
}

} // verus!
