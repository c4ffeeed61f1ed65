//! What the samples of a page show, pixel by pixel, for every way that a page can store
//! its colours.
use vstd::prelude::*;
use crate::bits::{bits_of, byte_bit};
use crate::cielab::{lab_gray, lab_rgb, law_lightness, lemma_lab_range};
use crate::decoder::{displayed, enough, rendered, subsampling, PageModel};
use crate::error::{ErrorKind, Outcome};
use crate::fields::{law_numbers, word_at};
use crate::ifd::{find_spec, ByteOrder, EntryModel};
use crate::image::{pixel_size, ImageModel, TiffPixelFormat};
use crate::page::{info_ok, list_of, list_readable, PageInfo};
use crate::render::{lemma_byte_of_cell, lemma_row_byte, lemma_upright, oriented};
use crate::render::{clamped, gray16_data, gray1_data, gray4_data, gray8_data, lemma_stored_byte, shade16};
use crate::render::{picture, stored_byte, stored_cell, transposes, ycbcr_byte};

verus! {

/// The picture that samples show.
pub open spec fn shown(p: PageInfo, es: Seq<EntryModel>, bo: ByteOrder, buf: Seq<u8>) -> Option<ImageModel> {
    match displayed(p, es, bo, buf) {
        Ok(PageModel::Image(m)) => Some(m),
        _ => None,
    }
}

/// A page that is stored upright, of unsigned samples of which there are enough.
pub open spec fn plain(p: PageInfo, buf: Seq<u8>) -> bool {
    &&& info_ok(p)
    &&& enough(p, buf.len() as int)
    &&& p.orientation == 1
    &&& p.sample_format == 1
}

/// Where a pixel stands among those of a picture, row by row.
pub open spec fn nth(p: PageInfo, x: int, y: int) -> int {
    y * p.width + x
}

/// A picture of the size of the page, with so many bytes for each pixel.
pub open spec fn sized(m: Option<ImageModel>, p: PageInfo, format: TiffPixelFormat) -> bool {
    &&& m matches Some(i)
    &&& i.width == p.width
    &&& i.height == p.height
    &&& i.pixel_format == format
    &&& i.wf()
}

/// On the page.
pub open spec fn on_page(p: PageInfo, x: int, y: int) -> bool {
    0 <= x < p.width && 0 <= y < p.height
}

proof fn lemma_shown(p: PageInfo, es: Seq<EntryModel>, bo: ByteOrder, buf: Seq<u8>)
    requires
        info_ok(p),
        p.orientation == 1,
        p.sample_format != 3,
        displayed(p, es, bo, buf) is Ok,
        rendered(p, es, bo, buf) matches Some(d) && d.1.len() == p.width * p.height * pixel_size(d.0),
    ensures
        ({
            let d = rendered(p, es, bo, buf).unwrap();
            &&& shown(p, es, bo, buf) == Some(picture(p.width as int, p.height as int, d.0, d.1))
            &&& sized(shown(p, es, bo, buf), p, d.0)
        }),
{
    let d = rendered(p, es, bo, buf).unwrap();
    lemma_upright(picture(p.width as int, p.height as int, d.0, d.1));
}

proof fn lemma_nth(p: PageInfo, x: int, y: int)
    requires
        info_ok(p),
        on_page(p, x, y),
    ensures
        0 <= nth(p, x, y) < p.width * p.height,
        nth(p, x, y) / (p.width as int) == y,
        nth(p, x, y) % (p.width as int) == x,
{
    lemma_byte_of_cell(y, x, 0, p.width as int, p.height as int, 1);
    assert(nth(p, x, y) * 1 + 0 == nth(p, x, y));
    assert(p.width * p.height * 1 == p.width * p.height);
}

/// Gray samples of 8 bits, 0 for black, are the bytes of the picture.
pub proof fn law_gray8(p: PageInfo, es: Seq<EntryModel>, bo: ByteOrder, buf: Seq<u8>, x: int, y: int)
    requires
        plain(p, buf),
        p.photometric == 1,
        p.samples == 1,
        p.bps == 8,
        on_page(p, x, y),
    ensures
        sized(shown(p, es, bo, buf), p, TiffPixelFormat::Gray8),
        shown(p, es, bo, buf).unwrap().data[nth(p, x, y)] == buf[nth(p, x, y)],
{
    lemma_nth(p, x, y);
    assert(p.width * p.height * 1 * 1 == p.width * p.height);
    lemma_shown(p, es, bo, buf);
}

/// Gray samples of 8 bits, 0 for white, are as far from white in the picture as they are from
/// black in the page.
pub proof fn law_white8(p: PageInfo, es: Seq<EntryModel>, bo: ByteOrder, buf: Seq<u8>, x: int, y: int)
    requires
        plain(p, buf),
        p.photometric == 0,
        p.samples == 1,
        p.bps == 8,
        on_page(p, x, y),
    ensures
        sized(shown(p, es, bo, buf), p, TiffPixelFormat::Gray8),
        255 - shown(p, es, bo, buf).unwrap().data[nth(p, x, y)] == buf[nth(p, x, y)],
{
    lemma_nth(p, x, y);
    assert(p.width * p.height * 1 * 1 == p.width * p.height);
    lemma_shown(p, es, bo, buf);
}

/// Gray samples of 16 bits, 0 for black, are the words of the picture, which has low bytes
/// first.
pub proof fn law_gray16(p: PageInfo, es: Seq<EntryModel>, bo: ByteOrder, buf: Seq<u8>, x: int, y: int)
    requires
        plain(p, buf),
        p.photometric == 1,
        p.samples == 1,
        p.bps == 16,
        on_page(p, x, y),
    ensures
        sized(shown(p, es, bo, buf), p, TiffPixelFormat::Gray16Le),
        word_at(ByteOrder::Little, shown(p, es, bo, buf).unwrap().data, 2 * nth(p, x, y)) == word_at(bo, buf, 2 * nth(p, x, y)),
{
    let i = nth(p, x, y);
    lemma_nth(p, x, y);
    lemma_shown(p, es, bo, buf);
    law_numbers(bo, buf, 2 * i);
    let d = shown(p, es, bo, buf).unwrap().data;
    assert(2 * i / 2 * 2 == 2 * i && (2 * i + 1) / 2 * 2 == 2 * i);
    assert((2 * i) % 2 == 0 && (2 * i + 1) % 2 == 1);
    assert(d[2 * i] == (word_at(bo, buf, 2 * i) % 256) as u8);
    assert(d[2 * i + 1] == (word_at(bo, buf, 2 * i) / 256) as u8);
}

/// Gray samples of 4 bits, two in a byte and the first one high, become bytes with the
/// same four bits twice.
pub proof fn law_gray4(p: PageInfo, es: Seq<EntryModel>, bo: ByteOrder, buf: Seq<u8>, x: int, y: int)
    requires
        plain(p, buf),
        p.photometric == 1,
        p.samples == 1,
        p.bps == 4,
        on_page(p, x, y),
    ensures
        sized(shown(p, es, bo, buf), p, TiffPixelFormat::Gray8),
        ({
            let b = buf[y * ((p.width + 1) / 2) + x / 2] as int;
            let v = shown(p, es, bo, buf).unwrap().data[nth(p, x, y)] as int;
            &&& v / 16 == v % 16
            &&& x % 2 == 0 ==> v / 16 == b / 16
            &&& x % 2 == 1 ==> v / 16 == b % 16
        }),
{
    lemma_nth(p, x, y);
    assert(p.width * p.height * 1 == p.width * p.height);
    lemma_shown(p, es, bo, buf);
}

/// Samples of one bit, eight in a byte and the first one high, become 255 where they are 1
/// and 0 where they are 0: in gray pages with 0 for black, and in masks.
pub proof fn law_gray1(p: PageInfo, es: Seq<EntryModel>, bo: ByteOrder, buf: Seq<u8>, x: int, y: int)
    requires
        plain(p, buf),
        p.photometric == 1 || p.photometric == 4,
        p.samples == 1,
        p.bps == 1,
        on_page(p, x, y),
    ensures
        sized(shown(p, es, bo, buf), p, TiffPixelFormat::Gray8),
        ({
            let b = buf[y * ((p.width + 7) / 8) + x / 8] as int;
            let weight = if x % 8 == 0 {
                128int
            } else if x % 8 == 1 {
                64
            } else if x % 8 == 2 {
                32
            } else if x % 8 == 3 {
                16
            } else if x % 8 == 4 {
                8
            } else if x % 8 == 5 {
                4
            } else if x % 8 == 6 {
                2
            } else {
                1
            };
            shown(p, es, bo, buf).unwrap().data[nth(p, x, y)] == (if b / weight % 2 == 1 { 255u8 } else { 0u8 })
        }),
{
    let rb = (p.width + 7) / 8;
    lemma_nth(p, x, y);
    lemma_row_byte(y, x / 8, rb, p.height as int);
    assert(p.width * p.height * 1 == p.width * p.height);
    lemma_shown(p, es, bo, buf);
    let at = 8 * (y * rb) + x;
    let b = buf[y * rb + x / 8];
    assert(at / 8 == y * rb + x / 8 && at % 8 == x % 8);
    assert(bits_of(buf)[at] == byte_bit(b, x % 8));
    lemma_bit_weight(b);
}

pub proof fn lemma_bit_weight(b: u8)
    ensures
        byte_bit(b, 0) == (b as int / 128 % 2 == 1),
        byte_bit(b, 1) == (b as int / 64 % 2 == 1),
        byte_bit(b, 2) == (b as int / 32 % 2 == 1),
        byte_bit(b, 3) == (b as int / 16 % 2 == 1),
        byte_bit(b, 4) == (b as int / 8 % 2 == 1),
        byte_bit(b, 5) == (b as int / 4 % 2 == 1),
        byte_bit(b, 6) == (b as int / 2 % 2 == 1),
        byte_bit(b, 7) == (b as int % 2 == 1),
{
    assert((b >> 7u8) & 1u8 == b / 128 % 2 && (b >> 6u8) & 1u8 == b / 64 % 2 && (b >> 5u8) & 1u8 == b / 32 % 2 && (b >> 4u8)
        & 1u8 == b / 16 % 2 && (b >> 3u8) & 1u8 == b / 8 % 2 && (b >> 2u8) & 1u8 == b / 4 % 2 && (b >> 1u8) & 1u8 == b / 2
        % 2 && (b >> 0u8) & 1u8 == b % 2) by (bit_vector);
}

/// Signed samples of 8 bits are shown like unsigned ones with the highest bit turned
/// round, so that the least of them is black.
pub proof fn law_signed8(p: PageInfo, es: Seq<EntryModel>, bo: ByteOrder, buf: Seq<u8>, k: int)
    requires
        plain(p, buf),
        p.photometric <= 1,
        p.samples == 1,
        p.bps == 8,
        0 <= k < p.width * p.height,
    ensures
        ({
            let q = PageInfo { sample_format: 2, ..p };
            let a = shown(p, es, bo, buf);
            let b = shown(q, es, bo, buf);
            &&& sized(a, p, TiffPixelFormat::Gray8)
            &&& sized(b, p, TiffPixelFormat::Gray8)
            &&& b.unwrap().data[k] == (a.unwrap().data[k] + 128) % 256
        }),
{
    let q = PageInfo { sample_format: 2, ..p };
    assert(p.width * p.height * 1 * 1 == p.width * p.height);
    lemma_shown(p, es, bo, buf);
    lemma_shown(q, es, bo, buf);
}

/// Signed samples of 16 bits, likewise.
pub proof fn law_signed16(p: PageInfo, es: Seq<EntryModel>, bo: ByteOrder, buf: Seq<u8>, k: int)
    requires
        plain(p, buf),
        p.photometric <= 1,
        p.samples == 1,
        p.bps == 16,
        0 <= k < p.width * p.height,
    ensures
        ({
            let q = PageInfo { sample_format: 2, ..p };
            let a = shown(p, es, bo, buf);
            let b = shown(q, es, bo, buf);
            &&& sized(a, p, TiffPixelFormat::Gray16Le)
            &&& sized(b, p, TiffPixelFormat::Gray16Le)
            &&& b.unwrap().data[2 * k] == a.unwrap().data[2 * k]
            &&& b.unwrap().data[2 * k + 1] == (a.unwrap().data[2 * k + 1] + 128) % 256
        }),
{
    let q = PageInfo { sample_format: 2, ..p };
    let w = p.width as int;
    let h = p.height as int;
    let inv = p.photometric == 0;
    assert(p.width * p.height * 1 * 1 == p.width * p.height);
    lemma_shown(p, es, bo, buf);
    lemma_shown(q, es, bo, buf);
    lemma_shade_words(buf, w, h, bo, inv, false, k);
    lemma_shade_words(buf, w, h, bo, inv, true, k);
    law_numbers(bo, buf, 2 * k);
    lemma_top_bit(word_at(bo, buf, 2 * k), inv);
    assert(shown(p, es, bo, buf).unwrap().data == gray16_data(buf, w, h, bo, inv, false));
    assert(shown(q, es, bo, buf).unwrap().data == gray16_data(buf, w, h, bo, inv, true));
}

proof fn lemma_top_bit(v: int, inv: bool)
    requires
        0 <= v < 65536,
    ensures
        ({
            let s = shade16(v, inv, false);
            let t = shade16(v, inv, true);
            t % 256 == s % 256 && t / 256 == (s / 256 + 128) % 256
        }),
{
    let s = shade16(v, inv, false);
    let t = shade16(v, inv, true);
    if s < 32768 {
        assert(t == s + 32768);
    } else {
        assert(t == s - 32768);
    }
}

proof fn lemma_shade_words(buf: Seq<u8>, w: int, h: int, bo: ByteOrder, inv: bool, signed: bool, k: int)
    requires
        0 <= k < w * h,
    ensures
        ({
            let v = shade16(word_at(bo, buf, 2 * k), inv, signed);
            &&& 0 <= v < 65536
            &&& gray16_data(buf, w, h, bo, inv, signed)[2 * k] == v % 256
            &&& gray16_data(buf, w, h, bo, inv, signed)[2 * k + 1] == v / 256
        }),
{
    law_numbers(bo, buf, 2 * k);
    assert(2 * k / 2 * 2 == 2 * k && (2 * k + 1) / 2 * 2 == 2 * k);
    assert((2 * k) % 2 == 0 && (2 * k + 1) % 2 == 1);
}

/// RGB samples of 8 bits: the first three of each pixel are the bytes of the picture, in
/// their order, and further ones are left out.
pub proof fn law_rgb8(p: PageInfo, es: Seq<EntryModel>, bo: ByteOrder, buf: Seq<u8>, x: int, y: int, c: int)
    requires
        plain(p, buf),
        p.photometric == 2,
        p.samples >= 3,
        p.bps == 8,
        on_page(p, x, y),
        0 <= c < 3,
    ensures
        sized(shown(p, es, bo, buf), p, TiffPixelFormat::Rgb24),
        shown(p, es, bo, buf).unwrap().data[3 * nth(p, x, y) + c] == buf[nth(p, x, y) * p.samples + c],
{
    let i = nth(p, x, y);
    lemma_nth(p, x, y);
    let n = p.samples as int;
    let all = p.width * p.height;
    assert(all * n * 1 == all * n);
    assert(all * n >= all * 3) by (nonlinear_arith)
        requires
            n >= 3,
            all >= 0,
    ;
    lemma_shown(p, es, bo, buf);
    assert((3 * i + c) / 3 == i && (3 * i + c) % 3 == c);
    assert(n == 3 ==> i * n == 3 * i) by (nonlinear_arith);
}

/// RGB samples of 16 bits are the words of the picture, which has low bytes first.
pub proof fn law_rgb16(p: PageInfo, es: Seq<EntryModel>, bo: ByteOrder, buf: Seq<u8>, x: int, y: int, c: int)
    requires
        plain(p, buf),
        p.photometric == 2,
        p.samples == 3,
        p.bps == 16,
        on_page(p, x, y),
        0 <= c < 3,
    ensures
        sized(shown(p, es, bo, buf), p, TiffPixelFormat::Rgb48Le),
        ({
            let k = 2 * (3 * nth(p, x, y) + c);
            word_at(ByteOrder::Little, shown(p, es, bo, buf).unwrap().data, k) == word_at(bo, buf, k)
        }),
{
    let i = nth(p, x, y);
    let k = 2 * (3 * i + c);
    lemma_nth(p, x, y);
    lemma_shown(p, es, bo, buf);
    law_numbers(bo, buf, k);
    let d = shown(p, es, bo, buf).unwrap().data;
    assert(k / 2 * 2 == k && (k + 1) / 2 * 2 == k && k % 2 == 0 && (k + 1) % 2 == 1);
    assert(d[k] == (word_at(bo, buf, k) % 256) as u8);
    assert(d[k + 1] == (word_at(bo, buf, k) / 256) as u8);
}

/// Palette pages: a sample of 8 bits, or of 4 bits with the first one of a byte high, is
/// the number of a colour. The field with tag 320 holds the red parts of all colours, then
/// the green, then the blue ones, each a word of which the high byte is shown.
pub proof fn law_palette(p: PageInfo, es: Seq<EntryModel>, bo: ByteOrder, buf: Seq<u8>, words: Seq<int>, x: int, y: int, c: int)
    requires
        plain(p, buf),
        p.photometric == 3,
        p.samples == 1,
        p.bps == 4 || p.bps == 8,
        find_spec(es, 320) matches Some(e) && e.u32s(bo) == Outcome::<Seq<int>>::Ok(words),
        words.len() >= (if p.bps == 4 { 48int } else { 768 }),
        on_page(p, x, y),
        0 <= c < 3,
    ensures
        sized(shown(p, es, bo, buf), p, TiffPixelFormat::Rgb24),
        ({
            let colours: int = if p.bps == 4 { 16 } else { 256 };
            let b = buf[y * ((p.width + 1) / 2) + x / 2] as int;
            let i: int = if p.bps == 8 {
                buf[nth(p, x, y)] as int
            } else if x % 2 == 0 {
                b / 16
            } else {
                b % 16
            };
            let w = words[c * colours + i];
            0 <= w < 65536 ==> shown(p, es, bo, buf).unwrap().data[3 * nth(p, x, y) + c] == w / 256
        }),
{
    reveal(list_readable);
    reveal(list_of);
    let i = nth(p, x, y);
    lemma_nth(p, x, y);
    assert(p.width * p.height * 1 * 1 == p.width * p.height);
    lemma_shown(p, es, bo, buf);
    assert((3 * i + c) / 3 == i && (3 * i + c) % 3 == c);
}

/// Inks: what an ink leaves of the light of its colour is lessened by what black leaves,
/// as parts of 255 and rounded down. Without ink a pixel is white, and full black is
/// black.
pub proof fn law_cmyk(p: PageInfo, es: Seq<EntryModel>, bo: ByteOrder, buf: Seq<u8>, x: int, y: int, c: int)
    requires
        plain(p, buf),
        p.photometric == 5,
        p.samples == 4,
        p.bps == 8,
        on_page(p, x, y),
        0 <= c < 3,
    ensures
        sized(shown(p, es, bo, buf), p, TiffPixelFormat::Rgb24),
        ({
            let i = nth(p, x, y);
            let v = shown(p, es, bo, buf).unwrap().data[3 * i + c] as int;
            let light = (255 - buf[4 * i + c]) * (255 - buf[4 * i + 3]);
            &&& 255 * v <= light < 255 * (v + 1)
            &&& buf[4 * i + c] == 0 && buf[4 * i + 3] == 0 ==> v == 255
            &&& buf[4 * i + 3] == 255 ==> v == 0
        }),
{
    let i = nth(p, x, y);
    lemma_nth(p, x, y);
    assert(p.width * p.height * 4 * 1 == p.width * p.height * 4);
    lemma_shown(p, es, bo, buf);
    assert((3 * i + c) / 3 == i && (3 * i + c) % 3 == c);
    let a = 255 - buf[4 * i + c];
    let b = 255 - buf[4 * i + 3];
    assert(0 <= a * b <= 65025) by (nonlinear_arith)
        requires
            0 <= a <= 255,
            0 <= b <= 255,
    ;
    assert(b == 0 ==> a * b == 0) by (nonlinear_arith);
    assert(a == 255 && b == 255 ==> a * b == 65025) by (nonlinear_arith);
}

/// A colour part, cut off to a byte: the byte itself where it is none of the ends, and
/// otherwise what is at or beyond that end.
pub open spec fn cut_off(v: int, low: int, high: int, scale: int) -> bool {
    &&& v < 255 ==> low <= scale * v
    &&& v > 0 ==> scale * v <= high
    &&& 0 <= v <= 255
}

/// Luma and chroma become red, green and blue by the equations of ITU-R BT.601, within half
/// of a step and what comes of the coefficients being rounded: red is luma and 1.402 times
/// the red chroma, blue is luma and 1.772 times the blue chroma, and green is luma less
/// 0.344136 times the blue and 0.714136 times the red chroma. Without chroma all three are
/// the luma.
pub proof fn law_ycbcr_colour(y: u8, cb: u8, cr: u8)
    ensures
        ({
            let u = cb - 128;
            let v = cr - 128;
            let red = 1000 * y + 1402 * v;
            let blue = 1000 * y + 1772 * u;
            let green = 1000000 * y - 344136 * u - 714136 * v;
            &&& cut_off(ycbcr_byte(y, cb, cr, 0) as int, red - 502, red + 502, 1000)
            &&& cut_off(ycbcr_byte(y, cb, cr, 1) as int, green - 503000, green + 503000, 1000000)
            &&& cut_off(ycbcr_byte(y, cb, cr, 2) as int, blue - 502, blue + 502, 1000)
            &&& u == 0 && v == 0 ==> ycbcr_byte(y, cb, cr, 0) == y && ycbcr_byte(y, cb, cr, 1) == y && ycbcr_byte(
                y,
                cb,
                cr,
                2,
            ) == y
        }),
{
    let u = cb - 128;
    let v = cr - 128;
    let r = (91881 * v + 32768) / 65536;
    let g = (22554 * u + 46802 * v + 32768) / 65536;
    let b = (116130 * u + 32768) / 65536;
    assert(65536 * r <= 91881 * v + 32768 < 65536 * r + 65536);
    assert(65536 * g <= 22554 * u + 46802 * v + 32768 < 65536 * g + 65536);
    assert(65536 * b <= 116130 * u + 32768 < 65536 * b + 65536);
    lemma_clamped(y + r, 1000, 1000 * y + 1402 * v - 502, 1000 * y + 1402 * v + 502);
    lemma_clamped(y - g, 1000000, 1000000 * y - 344136 * u - 714136 * v - 503000, 1000000 * y - 344136 * u - 714136 * v + 503000);
    lemma_clamped(y + b, 1000, 1000 * y + 1772 * u - 502, 1000 * y + 1772 * u + 502);
}

proof fn lemma_clamped(t: int, scale: int, low: int, high: int)
    requires
        low <= scale * t <= high,
        0 < scale,
    ensures
        cut_off(clamped(t) as int, low, high, scale),
{
    let v = clamped(t) as int;
    assert(v > 0 ==> v <= t);
    assert(v < 255 ==> v >= t);
    assert(v > 0 ==> scale * v <= scale * t) by (nonlinear_arith)
        requires
            v > 0 ==> v <= t,
            0 < scale,
    ;
    assert(v < 255 ==> scale * v >= scale * t) by (nonlinear_arith)
        requires
            v < 255 ==> v >= t,
            0 < scale,
    ;
}

/// Pages of luma and chroma: a unit holds the luma of a rectangle of pixels row by row,
/// then the blue and the red chroma that they share; units come row by row, and those at
/// the edges hold more pixels than the page has. The rectangle is that of the field with
/// tag 530, 2 by 2 where there is none.
pub proof fn law_ycbcr(p: PageInfo, es: Seq<EntryModel>, bo: ByteOrder, buf: Seq<u8>, sh: int, sv: int, x: int, y: int, c: int)
    requires
        info_ok(p),
        p.orientation == 1,
        p.sample_format == 1,
        p.photometric == 6,
        p.samples == 3,
        p.bps == 8,
        (match find_spec(es, 530) {
            None => sh == 2 && sv == 2,
            Some(e) => e.u32s(bo) matches Ok(v) && v.len() >= 2 && v[0] == sh && v[1] == sv,
        }),
        sh == 1 || sh == 2 || sh == 4,
        sv == 1 || sv == 2,
        buf.len() >= (p.width + sh - 1) / sh * ((p.height + sv - 1) / sv) * (sh * sv + 2),
        on_page(p, x, y),
        0 <= c < 3,
    ensures
        sized(shown(p, es, bo, buf), p, TiffPixelFormat::Rgb24),
        ({
            let u = (y / sv * ((p.width + sh - 1) / sh) + x / sh) * (sh * sv + 2);
            shown(p, es, bo, buf).unwrap().data[3 * nth(p, x, y) + c] == ycbcr_byte(
                buf[u + y % sv * sh + x % sh],
                buf[u + sh * sv],
                buf[u + sh * sv + 1],
                c,
            )
        }),
{
    reveal(subsampling);
    let i = nth(p, x, y);
    lemma_nth(p, x, y);
    lemma_shown(p, es, bo, buf);
    assert((3 * i + c) / 3 == i && (3 * i + c) % 3 == c);
}

/// L*a*b* pages show the colour of each triple of samples, L*, a* and b* in this order, and
/// pages of lightness alone the gray of each sample.
pub proof fn law_lab(p: PageInfo, es: Seq<EntryModel>, bo: ByteOrder, buf: Seq<u8>, x: int, y: int, c: int)
    requires
        plain(p, buf),
        p.photometric == 8,
        p.samples == 3 || p.samples == 1,
        p.bps == 8,
        on_page(p, x, y),
        0 <= c < 3,
    ensures
        ({
            let i = nth(p, x, y);
            &&& p.samples == 3 ==> sized(shown(p, es, bo, buf), p, TiffPixelFormat::Rgb24) && shown(p, es, bo, buf).unwrap().data[3
                * i + c] == lab_rgb(buf[3 * i], buf[3 * i + 1], buf[3 * i + 2], c)
            &&& p.samples == 1 ==> sized(shown(p, es, bo, buf), p, TiffPixelFormat::Gray8) && shown(p, es, bo, buf).unwrap().data[i]
                == lab_gray(buf[i])
        }),
{
    let i = nth(p, x, y);
    lemma_nth(p, x, y);
    assert(p.width * p.height * 1 * 1 == p.width * p.height);
    assert(p.width * p.height * 3 * 1 == p.width * p.height * 3);
    lemma_shown(p, es, bo, buf);
    assert((3 * i + c) / 3 == i && (3 * i + c) % 3 == c);
    law_lightness(buf[i], buf[i]);
    lemma_lab_range(buf[3 * i], buf[3 * i + 1], buf[3 * i + 2], c);
}

/// How a page is turned: the stored row `r` and column `c` are shown where the field with
/// tag 274 says that the first row and the first column are, 1 top and left, 2 top and
/// right, 3 bottom and right, 4 bottom and left, 5 left and top, 6 right and top, 7 right
/// and bottom, 8 left and bottom.
pub proof fn law_turned(p: PageInfo, es: Seq<EntryModel>, bo: ByteOrder, buf: Seq<u8>, r: int, c: int, t: int)
    requires
        1 <= p.orientation <= 8,
        shown(PageInfo { orientation: 1, ..p }, es, bo, buf) matches Some(m) && m.wf() && 0 <= r < m.height && 0 <= c
            < m.width && 0 <= t < pixel_size(m.pixel_format),
    ensures
        ({
            let m = shown(PageInfo { orientation: 1, ..p }, es, bo, buf).unwrap();
            let w = m.width;
            let h = m.height;
            let o = p.orientation;
            let size = pixel_size(m.pixel_format);
            let from_top = if o <= 2 {
                r
            } else if o <= 4 {
                h - 1 - r
            } else if o <= 6 {
                c
            } else {
                w - 1 - c
            };
            let from_left = if o == 1 || o == 4 {
                c
            } else if o == 2 || o == 3 {
                w - 1 - c
            } else if o == 5 || o == 8 {
                r
            } else {
                h - 1 - r
            };
            &&& shown(p, es, bo, buf) matches Some(n)
            &&& n.wf()
            &&& n.pixel_format == m.pixel_format
            &&& o <= 4 ==> n.width == w && n.height == h
            &&& o >= 5 ==> n.width == h && n.height == w
            &&& n.data[(from_top * n.width + from_left) * size + t] == m.data[(r * w + c) * size + t]
        }),
{
    let q = PageInfo { orientation: 1, ..p };
    let d = rendered(p, es, bo, buf).unwrap();
    assert(rendered(q, es, bo, buf) == rendered(p, es, bo, buf));
    let stored = picture(p.width as int, p.height as int, d.0, d.1);
    let m = shown(q, es, bo, buf).unwrap();
    assert(m == oriented(stored, 1));
    assert(stored.wf());
    lemma_upright(stored);
    let w = m.width;
    let h = m.height;
    let o = p.orientation as int;
    let size = pixel_size(m.pixel_format);
    let n = oriented(m, o);
    assert(shown(p, es, bo, buf) == Some(n));
    let dw = if transposes(o) { h } else { w };
    let dh = if transposes(o) { w } else { h };
    assert(w * h == h * w) by (nonlinear_arith);
    let top = if o <= 2 {
        r
    } else if o <= 4 {
        h - 1 - r
    } else if o <= 6 {
        c
    } else {
        w - 1 - c
    };
    let left = if o == 1 || o == 4 {
        c
    } else if o == 2 || o == 3 {
        w - 1 - c
    } else if o == 5 || o == 8 {
        r
    } else {
        h - 1 - r
    };
    lemma_byte_of_cell(top, left, t, dw, dh, size);
    let k = (top * dw + left) * size + t;
    assert(stored_cell(o, w, h, top, left) == (r, c));
    assert(stored_byte(o, w, h, size, k) == (r * w + c) * size + t);
}

// ----------------------------------------------------------------------
// White for 0
// ----------------------------------------------------------------------

/// What is true of one outcome is true of the other, and pictures are negatives.
pub open spec fn opposite(a: Outcome<ImageModel>, b: Outcome<ImageModel>) -> bool {
    match (a, b) {
        (Ok(m), Ok(n)) => {
            &&& m.width == n.width && m.height == n.height
            &&& m.pixel_format == n.pixel_format && m.stride == n.stride
            &&& m.data.len() == n.data.len()
            &&& forall|k: int| 0 <= k < m.data.len() ==> #[trigger] m.data[k] + n.data[k] == 255
        },
        (Err(k), Err(l)) => k == l,
        _ => false,
    }
}

proof fn lemma_opposite_words(buf: Seq<u8>, w: int, h: int, bo: ByteOrder, signed: bool, k: int)
    requires
        0 <= k < w * h * 2,
    ensures
        gray16_data(buf, w, h, bo, true, signed)[k] + gray16_data(buf, w, h, bo, false, signed)[k] == 255,
{
    let v = word_at(bo, buf, k / 2 * 2);
    law_numbers(bo, buf, k / 2 * 2);
    let s = shade16(v, false, signed);
    let t = shade16(v, true, signed);
    assert(0 <= s < 65536 && t == 65535 - s);
    assert(t % 256 == 255 - s % 256 && t / 256 == 255 - s / 256);
}

proof fn lemma_opposite_bytes(p: PageInfo, es: Seq<EntryModel>, bo: ByteOrder, buf: Seq<u8>, k: int)
    requires
        p.photometric == 0,
    ensures
        ({
            let q = PageInfo { photometric: 1, ..p };
            match (rendered(p, es, bo, buf), rendered(q, es, bo, buf)) {
                (Some(a), Some(b)) => a.0 == b.0 && a.1.len() == b.1.len() && (0 <= k < a.1.len() ==> a.1[k] + b.1[k] == 255),
                (None, None) => true,
                _ => false,
            }
        }),
{
    let w = p.width as int;
    let h = p.height as int;
    let signed = p.sample_format == 2;
    if p.samples == 1 {
        if p.bps == 8 {
            assert(0 <= k < w * h ==> gray8_data(buf, w, h, true, signed)[k] + gray8_data(buf, w, h, false, signed)[k] == 255);
        } else if p.bps == 16 {
            if 0 <= k < w * h * 2 {
                lemma_opposite_words(buf, w, h, bo, signed, k);
            }
        } else if p.bps == 4 {
            let rb = (w + 1) / 2;
            assert(0 <= k < w * h ==> gray4_data(buf, w, h, rb, true)[k] + gray4_data(buf, w, h, rb, false)[k] == 255);
        } else if p.bps == 1 {
            let rb = (w + 7) / 8;
            assert(0 <= k < w * h ==> gray1_data(buf, w, h, rb, true)[k] + gray1_data(buf, w, h, rb, false)[k] == 255);
        }
    }
}

pub proof fn lemma_opposite(p: PageInfo, es: Seq<EntryModel>, bo: ByteOrder, buf: Seq<u8>)
    requires
        p.photometric == 0,
        info_ok(p),
    ensures
        ({
            let q = PageInfo { photometric: 1, ..p };
            match (displayed(p, es, bo, buf), displayed(q, es, bo, buf)) {
                (Ok(PageModel::Image(m)), Ok(PageModel::Image(n))) => opposite(
                    Outcome::<ImageModel>::Ok(m),
                    Outcome::<ImageModel>::Ok(n),
                ),
                (Ok(PageModel::Float(_)), Ok(PageModel::Float(_))) => true,
                (Err(k), Err(l)) => k == l,
                _ => false,
            }
        }),
{
    let q = PageInfo { photometric: 1, ..p };
    lemma_opposite_bytes(p, es, bo, buf, 0);
    let o = p.orientation as int;
    if p.sample_format != 3 && rendered(p, es, bo, buf) is Some {
        let a = rendered(p, es, bo, buf).unwrap();
        let b = rendered(q, es, bo, buf).unwrap();
        let w = p.width as int;
        let h = p.height as int;
        let size = pixel_size(a.0);
        assert(a.1.len() == w * h * size);
        let m = oriented(picture(w, h, a.0, a.1), o);
        let n = oriented(picture(w, h, b.0, b.1), o);
        assert forall|k: int| 0 <= k < m.data.len() implies #[trigger] m.data[k] + n.data[k] == 255 by {
            let j = stored_byte(o, w, h, size, k);
            lemma_stored_byte(o, w, h, size, k);
            lemma_opposite_bytes(p, es, bo, buf, j);
        }
    }
}

// ----------------------------------------------------------------------
// What is not shown
// ----------------------------------------------------------------------

/// Which unsigned samples are shown: gray ones of 1, 4, 8 or 16 bits, masks of 1 bit, three
/// RGB samples of 8 or 16 bits or more than three of 8, palette indices of 4 or 8 bits, four
/// inks of 8 bits, and luma and chroma, L*a*b* and lightness of 8 bits. Others are invalid.
pub proof fn law_kinds(p: PageInfo, es: Seq<EntryModel>, bo: ByteOrder, buf: Seq<u8>)
    requires
        p.sample_format == 1,
    ensures
        ({
            let (k, n, b) = (p.photometric, p.samples, p.bps);
            let known = {
                ||| k <= 1 && n == 1 && (b == 1 || b == 4 || b == 8 || b == 16)
                ||| k == 4 && n == 1 && b == 1
                ||| k == 2 && n == 3 && (b == 8 || b == 16)
                ||| k == 2 && n >= 4 && b == 8
                ||| k == 3 && n == 1 && (b == 4 || b == 8)
                ||| k == 5 && n == 4 && b == 8
                ||| k == 6 && n == 3 && b == 8
                ||| k == 8 && (n == 3 || n == 1) && b == 8
            };
            &&& !known ==> displayed(p, es, bo, buf) == Outcome::<PageModel>::Err(ErrorKind::Invalid)
            &&& known && k != 3 && k != 6 ==> displayed(p, es, bo, buf) is Ok
            &&& known && k == 3 && find_spec(es, 320) is None ==> displayed(p, es, bo, buf) is Err
        }),
{
}

/// Signed samples are shown in gray pages of 8 or 16 bits only, and floating-point samples
/// are handed on in gray and RGB pages of 16, 32 or 64 bits that are not differenced; others
/// are not supported.
pub proof fn law_formats(p: PageInfo, es: Seq<EntryModel>, bo: ByteOrder, buf: Seq<u8>)
    ensures
        ({
            let gray = p.photometric <= 1 && p.samples == 1;
            let rgb = p.photometric == 2 && p.samples == 3;
            &&& p.sample_format == 2 ==> (displayed(p, es, bo, buf) is Ok <==> gray && (p.bps == 8 || p.bps == 16))
            &&& p.sample_format == 2 && displayed(p, es, bo, buf) is Err ==> displayed(p, es, bo, buf) == Outcome::<
                PageModel,
            >::Err(ErrorKind::Unsupported)
            &&& p.sample_format == 3 ==> (displayed(p, es, bo, buf) is Ok <==> (gray || rgb) && p.predictor == 1 && (p.bps == 16
                || p.bps == 32 || p.bps == 64))
            &&& p.sample_format == 3 && displayed(p, es, bo, buf) is Err ==> displayed(p, es, bo, buf) == Outcome::<
                PageModel,
            >::Err(ErrorKind::Unsupported)
            &&& p.sample_format == 3 ==> (displayed(p, es, bo, buf) matches Ok(m) ==> (m matches PageModel::Float(f) && f.data
                == buf && f.width == p.width && f.height == p.height && f.components == p.samples && f.bps == p.bps && f.invert
                == (p.photometric == 0) && f.orientation == p.orientation && f.byte_order == bo && f.low == find_spec(es, 340)
                && f.high == find_spec(es, 341)))
        }),
{
}

} // verus!
