//! What a container of pictures says about a file: whether it looks like one of
//! this format, and what its first page shows.
use vstd::prelude::*;
use crate::error::{ErrorKind, Outcome, Result, TiffError};
use crate::ifd::{entry_models, find, find_spec, header_spec, ifd_spec, parse_header, parse_ifd_in, ByteOrder, Entry, EntryModel};
use crate::decoder::{first_image, image_of};
use crate::fields::{law_header, law_numbers};
use crate::image::{pixel_size, TiffPixelFormat};
use crate::jpeg::JpegReply;
use crate::metadata::number_of;
use crate::page::{bits_spec, page_spec, readable, short_of, value_of};
use crate::types::{PHOTO_BLACK_IS_ZERO, PHOTO_PALETTE, PHOTO_RGB, TAG_BITS_PER_SAMPLE, TAG_IMAGE_LENGTH, TAG_IMAGE_WIDTH};
use crate::types::{TAG_PHOTOMETRIC_INTERPRETATION, TAG_SAMPLES_PER_PIXEL};

verus! {

/// How a file was recognised.
#[derive(Debug, Clone, Copy, PartialEq, Eq, Structural)]
pub enum Likeness {
    /// By its first bytes.
    Contents,
    /// By its name.
    Extension,
    /// Not at all.
    Unlike,
}

/// The first bytes of a file of this format, low or high bytes first.
pub open spec fn starts_right(s: Seq<u8>) -> bool {
    s.len() >= 4 && (s.take(4) == seq![0x49u8, 0x49u8, 0x2Au8, 0x00u8] || s.take(4) == seq![
        0x4Du8,
        0x4Du8,
        0x00u8,
        0x2Au8,
    ])
}

/// The names of such files end so.
pub open spec fn named_right(ext: Option<Seq<char>>) -> bool {
    ext == Some("tif"@) || ext == Some("tiff"@)
}

/// Whether two texts are the same.
fn same_text(a: &str, b: &str) -> (r: bool)
    ensures
        r == (a@ == b@),
{
    let n: usize = a.unicode_len();
    if n != b.unicode_len() {
        return false;
    }
    let mut i: usize = 0;
    while i < n
        invariant
            i <= n,
            n == a@.len(),
            n == b@.len(),
            forall|k: int| 0 <= k < i ==> a@[k] == b@[k],
        decreases n - i,
    {
        if a.get_char(i) != b.get_char(i) {
            return false;
        }
        i = i + 1;
    }
    assert(a@ =~= b@);
    true
}

/// Recognises a file by its first bytes and the end of its name.
pub fn probe(buf: &[u8], ext: Option<&str>) -> (r: Likeness)
    ensures
        r == (if starts_right(buf@) {
            Likeness::Contents
        } else if named_right(
            match ext {
                Some(e) => Some(e@),
                None => None,
            },
        ) {
            Likeness::Extension
        } else {
            Likeness::Unlike
        }),
{
    if buf.len() >= 4 {
        let low: bool = buf[0] == 0x49 && buf[1] == 0x49 && buf[2] == 0x2A && buf[3] == 0x00;
        let high: bool = buf[0] == 0x4D && buf[1] == 0x4D && buf[2] == 0x00 && buf[3] == 0x2A;
        proof {
            let t = buf@.take(4);
            assert(t[0] == buf@[0] && t[1] == buf@[1] && t[2] == buf@[2] && t[3] == buf@[3]);
            if low {
                assert(t =~= seq![0x49u8, 0x49u8, 0x2Au8, 0x00u8]);
            }
            if high {
                assert(t =~= seq![0x4Du8, 0x4Du8, 0x00u8, 0x2Au8]);
            }
        }
        if low || high {
            return Likeness::Contents;
        }
    }
    match ext {
        Some(e) => {
            if same_text(e, "tif") || same_text(e, "tiff") {
                return Likeness::Extension;
            }
            Likeness::Unlike
        },
        None => Likeness::Unlike,
    }
}

/// What the first page of a file shows.
#[derive(Debug, Clone, Copy)]
pub struct StreamParams {
    /// Its width in pixels.
    pub width: u32,
    /// Its height in pixels.
    pub height: u32,
    /// The layout of its samples, as far as its fields tell.
    pub pixel_format: TiffPixelFormat,
}

/// The number of a field that must be there.
pub open spec fn needed(es: Seq<EntryModel>, bo: ByteOrder, tag: u16) -> Outcome<int> {
    match find_spec(es, tag) {
        None => Err(ErrorKind::Invalid),
        Some(e) => e.first_u32(bo),
    }
}

/// The low 16 bits of the number of a field, or what it is without the field.
pub open spec fn low_short(es: Seq<EntryModel>, bo: ByteOrder, tag: u16, default: int) -> Outcome<int> {
    match find_spec(es, tag) {
        None => Ok(default),
        Some(e) => match e.first_u32(bo) {
            Ok(v) => Ok(v % 65536),
            Err(k) => Err(k),
        },
    }
}

/// The layout that pictures of some sort are given.
pub open spec fn advertised(photometric: int, samples: int, bits: int) -> TiffPixelFormat {
    if photometric == PHOTO_RGB && samples == 3 && bits == 16 {
        TiffPixelFormat::Rgb48Le
    } else if photometric == PHOTO_RGB || photometric == PHOTO_PALETTE {
        TiffPixelFormat::Rgb24
    } else if samples == 1 && bits == 16 {
        TiffPixelFormat::Gray16Le
    } else {
        TiffPixelFormat::Gray8
    }
}

/// What a page with some fields shows: width, height, layout.
pub open spec fn page_params(es: Seq<EntryModel>, bo: ByteOrder) -> Outcome<(int, int, TiffPixelFormat)> {
    match (
        needed(es, bo, TAG_IMAGE_WIDTH),
        needed(es, bo, TAG_IMAGE_LENGTH),
        low_short(es, bo, TAG_PHOTOMETRIC_INTERPRETATION, PHOTO_BLACK_IS_ZERO as int),
        low_short(es, bo, TAG_SAMPLES_PER_PIXEL, 1),
        low_short(es, bo, TAG_BITS_PER_SAMPLE, 1),
    ) {
        (Ok(w), Ok(h), Ok(p), Ok(s), Ok(b)) => Ok((w, h, advertised(p, s, b))),
        _ => Err(ErrorKind::Invalid),
    }
}

/// What the first page of a file shows.
pub open spec fn params_of(input: Seq<u8>) -> Outcome<(int, int, TiffPixelFormat)> {
    match header_spec(input) {
        Err(k) => Err(k),
        Ok(h) => match ifd_spec(input, h.0, h.1, h.2) {
            Err(k) => Err(k),
            Ok(d) => page_params(d.0, h.0),
        },
    }
}

fn needed_number(entries: &[Entry], bo: ByteOrder, tag: u16) -> (r: Result<u32>)
    ensures
        (match (r, needed(entry_models(entries@), bo, tag)) {
            (Ok(v), Ok(s)) => v == s,
            (Err(e), Err(k)) => e.kind() == k && k is Invalid,
            _ => false,
        }),
{
    match find(entries, tag) {
        None => Err(TiffError::invalid("TIFF demux: missing ImageWidth or ImageLength")),
        Some(e) => e.as_u32(bo),
    }
}

fn low_number(entries: &[Entry], bo: ByteOrder, tag: u16, default: u16) -> (r: Result<u16>)
    ensures
        (match (r, low_short(entry_models(entries@), bo, tag, default as int)) {
            (Ok(v), Ok(s)) => v == s,
            (Err(e), Err(k)) => e.kind() == k && k is Invalid,
            _ => false,
        }),
{
    match find(entries, tag) {
        None => Ok(default),
        Some(e) => match e.as_u32(bo) {
            Ok(v) => Ok((v % 65536) as u16),
            Err(x) => Err(x),
        },
    }
}

/// Reads what the first page of a file shows.
pub fn stream_params(input: &[u8]) -> (r: Result<StreamParams>)
    ensures
        (match (r, params_of(input@)) {
            (Ok(p), Ok(m)) => p.width == m.0 && p.height == m.1 && p.pixel_format == m.2,
            (Err(e), Err(k)) => e.kind() == k,
            _ => false,
        }),
{
    let header = parse_header(input)?;
    let bo = header.byte_order;
    let (entries, _) = parse_ifd_in(input, bo, header.variant, header.first_ifd_offset)?;
    let width: u32 = needed_number(&entries, bo, TAG_IMAGE_WIDTH)?;
    let height: u32 = needed_number(&entries, bo, TAG_IMAGE_LENGTH)?;
    let photometric: u16 = low_number(&entries, bo, TAG_PHOTOMETRIC_INTERPRETATION, PHOTO_BLACK_IS_ZERO)?;
    let samples: u16 = low_number(&entries, bo, TAG_SAMPLES_PER_PIXEL, 1)?;
    let bits: u16 = low_number(&entries, bo, TAG_BITS_PER_SAMPLE, 1)?;
    let pixel_format = if photometric == PHOTO_RGB && samples == 3 && bits == 16 {
        TiffPixelFormat::Rgb48Le
    } else if photometric == PHOTO_RGB || photometric == PHOTO_PALETTE {
        TiffPixelFormat::Rgb24
    } else if samples == 1 && bits == 16 {
        TiffPixelFormat::Gray16Le
    } else {
        TiffPixelFormat::Gray8
    };
    Ok(StreamParams { width, height, pixel_format })
}

/// A file whose header is that of a classic file is recognised by its contents, one with
/// the header of a BigTIFF file is not, and what is recognised so either has such a header
/// or is shorter than one.
pub proof fn law_recognised(input: Seq<u8>)
    ensures
        header_spec(input) matches Ok(h) ==> (starts_right(input) <==> h.1 is Classic),
        starts_right(input) && input.len() >= 8 ==> header_spec(input) is Ok,
{
    law_header(input);
    if input.len() >= 4 {
        let t = input.take(4);
        assert(t[0] == input[0] && t[1] == input[1] && t[2] == input[2] && t[3] == input[3]);
        let low = seq![0x49u8, 0x49u8, 0x2Au8, 0x00u8];
        let high = seq![0x4Du8, 0x4Du8, 0x00u8, 0x2Au8];
        if input[0] == 0x49 && input[1] == 0x49 && input[2] == 0x2A && input[3] == 0 {
            assert(t =~= low);
        }
        if input[0] == 0x4D && input[1] == 0x4D && input[2] == 0 && input[3] == 0x2A {
            assert(t =~= high);
        }
    }
}

/// What is told of a page that can be read, in terms of its layout.
proof fn lemma_told(es: Seq<EntryModel>, bo: ByteOrder)
    requires
        page_spec(es, bo) is Ok,
    ensures
        ({
            let p = page_spec(es, bo)->Ok_0;
            &&& page_params(es, bo) == Outcome::<(int, int, TiffPixelFormat)>::Ok(
                (p.width as int, p.height as int, advertised(p.photometric as int, p.samples as int, p.bps as int)),
            )
            &&& number_of(es, bo, 262) matches Some(x) && p.photometric == x % 65536
            &&& p.orientation == (match number_of(es, bo, 274) {
                Some(x) => x % 65536,
                None => 1,
            })
            &&& p.compression == (match number_of(es, bo, 259) {
                Some(x) => x % 65536,
                None => 1,
            })
        }),
{
    reveal(readable);
    reveal(value_of);
    let p = page_spec(es, bo)->Ok_0;
    let samples = short_of(es, bo, 277, 1) as int;
    let bits = bits_spec(find_spec(es, 258), bo, samples).unwrap();
    match find_spec(es, 258) {
        None => {},
        Some(e) => {
            let v = e.u32s(bo)->Ok_0;
            assert(v.len() == e.count);
            assert(bits[0] == v[0] % 65536);
        },
    }
    match find_spec(es, 256) {
        None => {},
        Some(e) => {
            lemma_number_small(e, bo);
        },
    }
    match find_spec(es, 257) {
        None => {},
        Some(e) => {
            lemma_number_small(e, bo);
        },
    }
}

proof fn lemma_number_small(e: EntryModel, bo: ByteOrder)
    ensures
        e.first_u32(bo) matches Ok(v) ==> 0 <= v <= 0xffff_ffff,
{
    law_numbers(bo, e.data, 0);
}

/// The layout and size of the picture of a gray, RGB or palette page.
proof fn lemma_shown_as(input: Seq<u8>, es: Seq<EntryModel>, bo: ByteOrder, replies: Seq<JpegReply>)
    requires
        image_of(input, es, bo, replies) is Ok,
        page_spec(es, bo)->Ok_0.photometric <= 3,
    ensures
        ({
            let p = page_spec(es, bo)->Ok_0;
            let m = image_of(input, es, bo, replies)->Ok_0;
            let turned = p.orientation >= 5 && p.compression != 6 && p.compression != 7;
            &&& m.pixel_format == advertised(p.photometric as int, p.samples as int, p.bps as int)
            &&& turned ==> m.height == p.width && m.width == p.height
            &&& !turned ==> m.width == p.width && m.height == p.height
        }),
{
}

/// What is told of the first page of a file holds of its picture: where a gray, RGB or
/// palette page (0 to 3 in the field with tag 262) is decoded, the layout is that of the
/// picture, and so are width and height, one for the other where the page is stored
/// turned on its side (5 to 8 in the field with tag 274) and not as JPEG streams.
pub proof fn law_params_hold(input: Seq<u8>, replies: Seq<JpegReply>)
    requires
        first_image(input, replies) is Ok,
        ({
            let h = header_spec(input)->Ok_0;
            let es = ifd_spec(input, h.0, h.1, h.2)->Ok_0.0;
            number_of(es, h.0, 262) matches Some(x) && x % 65536 <= 3
        }),
    ensures
        ({
            let h = header_spec(input)->Ok_0;
            let es = ifd_spec(input, h.0, h.1, h.2)->Ok_0.0;
            let m = first_image(input, replies)->Ok_0;
            let streams = number_of(es, h.0, 259) matches Some(x) && (x % 65536 == 6 || x % 65536 == 7);
            let turned = !streams && (number_of(es, h.0, 274) matches Some(x) && x % 65536 >= 5);
            &&& params_of(input) matches Ok(q)
            &&& q.2 == m.pixel_format
            &&& turned ==> q.0 == m.height && q.1 == m.width
            &&& !turned ==> q.0 == m.width && q.1 == m.height
        }),
{
    let h = header_spec(input)->Ok_0;
    let es = ifd_spec(input, h.0, h.1, h.2)->Ok_0.0;
    lemma_told(es, h.0);
    lemma_shown_as(input, es, h.0, replies);
}

/// What is told of a page comes from its fields: width and height from those with tags 256
/// and 257, which must be there; six bytes for each pixel exactly for RGB pages of three
/// samples of 16 bits, three for other RGB and palette pages, two for pages of one sample
/// of 16 bits, and one for all others.
pub proof fn law_params_told(es: Seq<EntryModel>, bo: ByteOrder)
    requires
        page_params(es, bo) is Ok,
    ensures
        ({
            let q = page_params(es, bo)->Ok_0;
            let sort = match number_of(es, bo, 262) {
                Some(x) => x % 65536,
                None => 1,
            };
            let samples = match number_of(es, bo, 277) {
                Some(x) => x % 65536,
                None => 1,
            };
            let bits = match number_of(es, bo, 258) {
                Some(x) => x % 65536,
                None => 1,
            };
            &&& number_of(es, bo, 256) == Some(q.0)
            &&& number_of(es, bo, 257) == Some(q.1)
            &&& pixel_size(q.2) == 6 <==> sort == 2 && samples == 3 && bits == 16
            &&& pixel_size(q.2) == 3 <==> (sort == 2 && !(samples == 3 && bits == 16)) || sort == 3
            &&& pixel_size(q.2) == 2 <==> sort != 2 && sort != 3 && samples == 1 && bits == 16
            &&& q.2 is Rgb48Le || q.2 is Rgb24 <==> sort == 2 || sort == 3
        }),
{
}

/// Names of such files end in the letters t, i, f, or in t, i, f, f, and in no others.
pub proof fn law_names(ext: Option<Seq<char>>)
    ensures
        named_right(ext) <==> (ext matches Some(e) && (e.len() == 3 || (e.len() == 4 && e[3] == 'f')) && e[0] == 't' && e[1]
            == 'i' && e[2] == 'f'),
{
    reveal_strlit("tif");
    reveal_strlit("tiff");
    if let Some(e) = ext {
        if e.len() == 3 && e[0] == 't' && e[1] == 'i' && e[2] == 'f' {
            assert(e =~= "tif"@);
        }
        if e.len() == 4 && e[0] == 't' && e[1] == 'i' && e[2] == 'f' && e[3] == 'f' {
            assert(e =~= "tiff"@);
        }
    }
}

} // verus!
