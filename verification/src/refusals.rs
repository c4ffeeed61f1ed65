//! What is refused: pages that cannot be read, requests that cannot be met, frames that
//! cannot be coded.
use vstd::prelude::*;
use vstd::arithmetic::div_mod::lemma_div_basics;
use vstd::arithmetic::power2::{lemma2_to64, pow2};
use crate::compress::codec_limit;
use crate::decoder::image_of;
use crate::encoder::{encoded, EncodePage, EncodePixelFormat};
use crate::error::{ErrorKind, Outcome};
use crate::ifd::{find_spec, ByteOrder, EntryModel};
use crate::image::{pixel_size, ImageModel, TiffPixelFormat, MAX_IMAGE_PIXELS};
use crate::jpeg::JpegReply;
use crate::jpeg_enc::{component_ok, frame_ok, h_max, v_max, ComponentModel, JpegFrame, JpegProcess};
use crate::page::{list_of, list_readable, page_spec};
use crate::page_fields::{law_page_fields, short};
use crate::render::ceil_div;
use crate::webp::WebpReply;

verus! {

/// A page with further samples (under tag 338) is refused where one of them is of a sort
/// other than 0, 1 or 2, or where they leave another number of samples than 1 for gray,
/// palette and mask pages, 3 for RGB and luma and chroma, 4 for inks, 3 or 1 for L*a*b*.
pub proof fn law_extra_samples(es: Seq<EntryModel>, bo: ByteOrder, v: Seq<int>, i: int)
    requires
        find_spec(es, 338) matches Some(e) && e.u32s(bo) == Outcome::<Seq<int>>::Ok(v),
        ({
            let k = short(es, bo, 262, 0);
            let left = short(es, bo, 277, 1) - v.len();
            ||| 0 <= i < v.len() && v[i] > 2
            ||| (k <= 1 || k == 3 || k == 4) && left != 1
            ||| (k == 2 || k == 6) && left != 3
            ||| k == 5 && left != 4
            ||| k == 8 && left != 3 && left != 1
        }),
    ensures
        page_spec(es, bo) is Err,
{
    if page_spec(es, bo) is Ok {
        law_page_fields(es, bo);
        reveal(list_of);
        reveal(list_readable);
    }
}

/// The bits of samples are refused where they are not the same for all samples, or where
/// the field with tag 258 has another number of them than there are samples; a mixture of
/// formats under tag 339 is not supported.
pub proof fn law_uneven_samples(es: Seq<EntryModel>, bo: ByteOrder, v: Seq<int>, i: int, j: int)
    requires
        find_spec(es, 258) matches Some(e) && e.count <= 65535 && e.u32s(bo) == Outcome::<Seq<int>>::Ok(v),
        v.len() != short(es, bo, 277, 1) || (0 <= i < v.len() && 0 <= j < v.len() && v[i] % 65536 != v[j] % 65536),
    ensures
        page_spec(es, bo) is Err,
{
    if page_spec(es, bo) is Ok {
        law_page_fields(es, bo);
        let samples = crate::page::short_of(es, bo, 277, 1) as int;
        let bits = crate::page::bits_spec(find_spec(es, 258), bo, samples).unwrap();
        if 0 <= i < v.len() && 0 <= j < v.len() {
            assert(bits[i] == bits[0] && bits[j] == bits[0]);
        }
    }
}

/// Pages of JPEG streams (7 under tag 259) with components apart, or with bits other than 8,
/// are not supported.
pub proof fn law_jpeg_refused(input: Seq<u8>, es: Seq<EntryModel>, bo: ByteOrder, replies: Seq<JpegReply>)
    requires
        page_spec(es, bo) is Ok,
        short(es, bo, 259, 1) == 7,
        (short(es, bo, 277, 1) > 1 && short(es, bo, 284, 1) == 2) || short(es, bo, 258, 1) != 8,
    ensures
        image_of(input, es, bo, replies) == Outcome::<ImageModel>::Err(ErrorKind::Unsupported),
{
    law_page_fields(es, bo);
}

/// Sizes and limits: bytes of a pixel of each layout, most pixels of a page, most bytes that
/// a strip or tile is unpacked to.
pub proof fn law_limits(expected: int)
    requires
        0 <= expected,
    ensures
        pixel_size(TiffPixelFormat::Gray8) == 1,
        pixel_size(TiffPixelFormat::Gray16Le) == 2,
        pixel_size(TiffPixelFormat::Rgb24) == 3,
        pixel_size(TiffPixelFormat::Rgb48Le) == 6,
        MAX_IMAGE_PIXELS == 0x1000_0000,
        codec_limit(expected) <= expected,
        codec_limit(expected) <= 0x400_0000,
        codec_limit(expected) == expected || codec_limit(expected) == 0x400_0000,
{
}

/// Requests that are refused: CCITT schemes for other pages than those of one bit, one
/// component stored apart, tiles with a side of 0 or that is no multiple of 16, tiles or
/// differences of one bit, a palette without colours, and pixels that are too few or too
/// many.
pub proof fn law_requests(p: EncodePage<'_>)
    ensures
        ({
            let one_bit = p.kind is Bilevel || p.kind is TransparencyMask;
            let facsimile = p.compression is CcittRle || p.compression is CcittT4OneD || p.compression is CcittT4TwoD
                || p.compression is CcittT6;
            let several = p.kind is Rgb24 || p.kind is CieLab8 || p.kind is Cmyk32;
            let size = match p.kind {
                EncodePixelFormat::Bilevel { .. } => (p.width + 7) / 8 * p.height,
                EncodePixelFormat::TransparencyMask { .. } => (p.width + 7) / 8 * p.height,
                EncodePixelFormat::Gray16Le { .. } => p.width * p.height * 2,
                EncodePixelFormat::Rgb24 { .. } => p.width * p.height * 3,
                EncodePixelFormat::CieLab8 { .. } => p.width * p.height * 3,
                EncodePixelFormat::Cmyk32 { .. } => p.width * p.height * 4,
                _ => p.width * p.height,
            };
            p.consistent() <==> {
                &&& facsimile ==> one_bit
                &&& p.planar ==> several
                &&& p.tiling matches Some(t) ==> !one_bit && t.0 > 0 && t.1 > 0 && t.0 % 16 == 0 && t.1 % 16 == 0
                &&& p.predictor ==> !one_bit
                &&& p.kind.bytes().len() == size
                &&& p.kind matches EncodePixelFormat::Palette8 { indices, palette } ==> palette@.len() > 0
            }
        }),
{
    let a = p.width * p.height;
    assert(a * (1 * 1) == a && a * (3 * 1) == a * 3 && a * (4 * 1) == a * 4 && a * (1 * 2) == a * 2) by (nonlinear_arith);
}

/// A file has at least one page, and its pages are all of the same variant of the format.
pub proof fn law_no_file(pages: Seq<EncodePage<'_>>, replies: Seq<Seq<WebpReply>>, k: int)
    requires
        pages.len() == 0 || (0 <= k < pages.len() && pages[k].bigtiff != pages[0].bigtiff),
    ensures
        encoded(pages, replies) == Outcome::<Seq<u8>>::Err(ErrorKind::Invalid),
{
}

/// Frames that can be coded: one to four components, samples of 8 or 12 bits by transforms
/// and of 2 to 16 bits without loss with one of seven predictions, factors from 1 to 4, the
/// samples that the factors ask for, and none with more bits than all have.
pub proof fn law_frames(frame: JpegFrame, cs: Seq<ComponentModel>, i: int, k: int)
    requires
        frame_ok(frame, cs),
        0 <= i < cs.len(),
        0 <= k < cs[i].samples.len(),
    ensures
        ({
            let c = cs[i];
            let n = cs.len() as int;
            &&& 1 <= n <= 4
            &&& frame.width > 0 && frame.height > 0
            &&& frame.process is Dct ==> frame.precision == 8 || frame.precision == 12
            &&& frame.process matches JpegProcess::Lossless { predictor } ==> 2 <= frame.precision <= 16 && 1 <= predictor <= 7
            &&& 1 <= c.h <= 4 && 1 <= c.v <= 4
            &&& c.samples.len() == c.width * c.height
            &&& n == 1 ==> c.h == 1 && c.v == 1 && c.width == frame.width && c.height == frame.height
            &&& frame.precision == 8 ==> c.samples[k] <= 255
            &&& frame.precision == 12 ==> c.samples[k] <= 4095
        }),
{
    let n = cs.len() as int;
    let c = cs[i];
    assert(component_ok(frame, c, h_max(cs, n), v_max(cs, n)));
    lemma2_to64();
    assert(c.samples[k] < pow2(frame.precision as nat));
    if n == 1 {
        reveal_with_fuel(h_max, 2);
        reveal_with_fuel(v_max, 2);
        assert(i == 0);
        assert(h_max(cs, n) == 1 && v_max(cs, n) == 1);
        assert(frame.width * c.h == frame.width) by (nonlinear_arith)
            requires
                c.h == 1,
        ;
        assert(frame.height * c.v == frame.height) by (nonlinear_arith)
            requires
                c.v == 1,
        ;
        lemma_div_basics(frame.width as int);
        lemma_div_basics(frame.height as int);
        assert(ceil_div(frame.width as int, 1) == frame.width);
        assert(ceil_div(frame.height as int, 1) == frame.height);
    }
}

} // verus!
