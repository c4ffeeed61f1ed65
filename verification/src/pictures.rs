//! What the pages of an encoded file come back as, pixel by pixel, and which numbers stand
//! for how they are stored.
use vstd::prelude::*;
use crate::bits::bits_of;
use crate::ccitt::CcittVariant;
use crate::encoder::{long_field, short_field, EncodePage, EncodePixelFormat, TiffCompression};
use crate::ifd::TiffVariant;
use crate::layout::{le, ValueModel};
use crate::jpeg_exact::lemma_packed;
use crate::readback::{page_outcome, readable_page};
use crate::render::{lemma_byte_of_cell, lemma_row_byte};
use crate::segments::t4_variant;
use crate::shown::lemma_bit_weight;

verus! {

/// The value of bit `k` of a byte, counted from the high end, as a bit of a number.
pub open spec fn weight(k: int) -> int {
    if k == 0 {
        128
    } else if k == 1 {
        64
    } else if k == 2 {
        32
    } else if k == 3 {
        16
    } else if k == 4 {
        8
    } else if k == 5 {
        4
    } else if k == 6 {
        2
    } else {
        1
    }
}

/// What a page is decoded to, pixel by pixel: gray and RGB pages are what was encoded; of
/// pages of one bit, 1 is black and 0 white, but in masks 1 is white; palette pages are the
/// colours of their indices, black for those without one; and inks leave of white what
/// neither they nor black take.
pub proof fn law_page_pixels(p: EncodePage<'_>, x: int, y: int, c: int)
    requires
        p.consistent(),
        readable_page(p),
        0 <= x < p.width,
        0 <= y < p.height,
        0 <= c < 3,
    ensures
        page_outcome(p) matches Ok(m) && {
            let i = y * p.width + x;
            &&& m.width == p.width && m.height == p.height
            &&& match p.kind {
                EncodePixelFormat::Bilevel { pixels } => {
                    let b = pixels@[y * ((p.width + 7) / 8) + x / 8] as int;
                    m.pixel_format is Gray8 && m.data[i] == (if b / weight(x % 8) % 2 == 1 { 0u8 } else { 255u8 })
                },
                EncodePixelFormat::TransparencyMask { pixels } => {
                    let b = pixels@[y * ((p.width + 7) / 8) + x / 8] as int;
                    m.pixel_format is Gray8 && m.data[i] == (if b / weight(x % 8) % 2 == 1 { 255u8 } else { 0u8 })
                },
                EncodePixelFormat::Gray8 { pixels } => m.pixel_format is Gray8 && m.data[i] == pixels@[i],
                EncodePixelFormat::Gray16Le { pixels } => m.pixel_format is Gray16Le && m.data[2 * i] == pixels@[2 * i]
                    && m.data[2 * i + 1] == pixels@[2 * i + 1],
                EncodePixelFormat::Rgb24 { pixels } => m.pixel_format is Rgb24 && m.data[3 * i + c] == pixels@[3 * i + c],
                EncodePixelFormat::Palette8 { indices, palette } => {
                    let k = indices@[i] as int;
                    m.pixel_format is Rgb24 && m.data[3 * i + c] == (if k < palette@.len() { palette@[k]@[c] } else { 0u8 })
                },
                EncodePixelFormat::CieLab8 { .. } => m.pixel_format is Rgb24,
                EncodePixelFormat::CieLabL8 { .. } => m.pixel_format is Gray8,
                EncodePixelFormat::Cmyk32 { pixels } => {
                    let v = m.data[3 * i + c] as int;
                    let light = (255 - pixels@[4 * i + c]) * (255 - pixels@[4 * i + 3]);
                    m.pixel_format is Rgb24 && 255 * v <= light < 255 * (v + 1)
                },
            }
        },
{
    let w = p.width as int;
    let h = p.height as int;
    let i = y * w + x;
    lemma_byte_of_cell(y, x, 0, w, h, 1);
    assert(i * 1 + 0 == i && w * h * 1 == w * h);
    assert((3 * i + c) / 3 == i && (3 * i + c) % 3 == c);
    lemma_row_byte(y, x / 8, (w + 7) / 8, h);
    assert(h * ((w + 7) / 8) == (w + 7) / 8 * h) by (nonlinear_arith);
    match p.kind {
        EncodePixelFormat::Bilevel { pixels } => {
            lemma_pixel_bit(pixels@, w, x, y);
        },
        EncodePixelFormat::TransparencyMask { pixels } => {
            lemma_pixel_bit(pixels@, w, x, y);
        },
        EncodePixelFormat::Cmyk32 { pixels } => {
            let a = 255 - pixels@[4 * i + c];
            let b = 255 - pixels@[4 * i + 3];
            assert(0 <= a * b <= 65025) by (nonlinear_arith)
                requires
                    0 <= a <= 255,
                    0 <= b <= 255,
            ;
            assert(i * 4 == 4 * i);
        },
        _ => {},
    }
}

proof fn lemma_pixel_bit(s: Seq<u8>, w: int, x: int, y: int)
    requires
        0 <= x < w,
        0 <= y,
    ensures
        ({
            let rb = (w + 7) / 8;
            let at = 8 * (y * rb) + x;
            at < 8 * s.len() ==> bits_of(s)[at] == (s[y * rb + x / 8] as int / weight(x % 8) % 2 == 1)
        }),
{
    let rb = (w + 7) / 8;
    let at = 8 * (y * rb) + x;
    assert(0 <= y * rb) by (nonlinear_arith)
        requires
            0 <= y,
            0 <= rb,
    ;
    assert(at / 8 == y * rb + x / 8 && at % 8 == x % 8);
    lemma_bit_weight(s[y * rb + x / 8]);
}

/// The number that stands for a scheme in the field with tag 259, and the bits of the field
/// with tag 292 for T.4: the lowest for two dimensions, the third for line ends at the ends
/// of bytes.
pub proof fn law_scheme_numbers(c: TiffCompression, t4_options: u32)
    ensures
        c.tag() == (match c {
            TiffCompression::Uncompressed => 1u16,
            TiffCompression::CcittRle => 2u16,
            TiffCompression::CcittT4OneD { .. } => 3u16,
            TiffCompression::CcittT4TwoD { .. } => 3u16,
            TiffCompression::CcittT6 => 4u16,
            TiffCompression::Lzw => 5u16,
            TiffCompression::Deflate => 8u16,
            TiffCompression::PackBits => 32773u16,
            TiffCompression::Zstd => 50000u16,
            TiffCompression::WebP => 50001u16,
        }),
        t4_variant(t4_options) is T4TwoD <==> t4_options % 2 == 1,
        t4_variant(t4_options) is T4OneD <==> t4_options % 2 == 0,
        (match t4_variant(t4_options) {
            CcittVariant::T4OneD { eol_byte_aligned } => eol_byte_aligned == (t4_options / 4 % 2 == 1),
            CcittVariant::T4TwoD { eol_byte_aligned } => eol_byte_aligned == (t4_options / 4 % 2 == 1),
            _ => false,
        }),
        (match c {
            TiffCompression::CcittT4OneD { eol_byte_aligned } => t4_variant(c.t4_flags()) == (CcittVariant::T4OneD {
                eol_byte_aligned,
            }),
            TiffCompression::CcittT4TwoD { eol_byte_aligned } => t4_variant(c.t4_flags()) == (CcittVariant::T4TwoD {
                eol_byte_aligned,
            }),
            _ => c.t4_flags() == 0,
        }),
{
}

/// How fields of one number are written: two bytes, low byte first, for type 3, and four for
/// type 4.
pub proof fn law_field_bytes(tag: u16, x: int)
    requires
        0 <= x <= 0xffff_ffff,
    ensures
        ({
            let a = short_field(tag, x);
            let b = long_field(tag, x);
            &&& a.tag == tag && a.field_type == 3 && a.count == 1
            &&& b.tag == tag && b.field_type == 4 && b.count == 1
            &&& x <= 65535 ==> a.value == ValueModel::Inline(seq![(x % 256) as u8, (x / 256) as u8])
            &&& b.value == ValueModel::Inline(
                seq![(x % 256) as u8, (x / 256 % 256) as u8, (x / 65536 % 256) as u8, (x / 16777216) as u8],
            )
        }),
{
    reveal_with_fuel(le, 5);
    assert(le(x, 2) =~= seq![(x % 256) as u8, (x / 256 % 256) as u8]);
    assert(x / 256 / 256 == x / 65536 && x / 256 / 256 / 256 == x / 16777216);
    assert(x / 16777216 < 256);
    assert(le(x, 4) =~= seq![(x % 256) as u8, (x / 256 % 256) as u8, (x / 65536 % 256) as u8, (x / 16777216 % 256) as u8]);
}

/// A page is written as it is asked for: 4 under tag 254 for masks, its size under tags 256
/// and 257, its scheme under tag 259, what its samples mean under tag 262, how many they are
/// under tag 277, 2 under tag 284 where components are stored apart, 2 under tag 317 where
/// differences are stored, and width and height of tiles under tags 322 and 323, or all rows
/// of one strip under tag 278.
pub proof fn law_asked_for(p: EncodePage<'_>, v: TiffVariant, n: int)
    ensures
        p.field(v, n, 254) == Some(long_field(254, if p.kind is TransparencyMask { 4 } else { 0 })),
        p.field(v, n, 256) == Some(long_field(256, p.width as int)),
        p.field(v, n, 257) == Some(long_field(257, p.height as int)),
        p.field(v, n, 259) == Some(
            short_field(
                259,
                match p.compression {
                    TiffCompression::Uncompressed => 1,
                    TiffCompression::CcittRle => 2,
                    TiffCompression::CcittT4OneD { .. } => 3,
                    TiffCompression::CcittT4TwoD { .. } => 3,
                    TiffCompression::CcittT6 => 4,
                    TiffCompression::Lzw => 5,
                    TiffCompression::Deflate => 8,
                    TiffCompression::PackBits => 32773,
                    TiffCompression::Zstd => 50000,
                    TiffCompression::WebP => 50001,
                },
            ),
        ),
        p.field(v, n, 262) == Some(
            short_field(
                262,
                match p.kind {
                    EncodePixelFormat::Bilevel { .. } => 0,
                    EncodePixelFormat::Gray8 { .. } => 1,
                    EncodePixelFormat::Gray16Le { .. } => 1,
                    EncodePixelFormat::Rgb24 { .. } => 2,
                    EncodePixelFormat::Palette8 { .. } => 3,
                    EncodePixelFormat::TransparencyMask { .. } => 4,
                    EncodePixelFormat::Cmyk32 { .. } => 5,
                    EncodePixelFormat::CieLab8 { .. } => 8,
                    EncodePixelFormat::CieLabL8 { .. } => 8,
                },
            ),
        ),
        p.field(v, n, 277) == Some(
            short_field(
                277,
                match p.kind {
                    EncodePixelFormat::Rgb24 { .. } => 3,
                    EncodePixelFormat::CieLab8 { .. } => 3,
                    EncodePixelFormat::Cmyk32 { .. } => 4,
                    _ => 1,
                },
            ),
        ),
        p.field(v, n, 284) == Some(short_field(284, if p.planar { 2 } else { 1 })),
        p.field(v, n, 317) == (if p.predictor { Some(short_field(317, 2)) } else { None }),
        p.tiling is None ==> p.field(v, n, 278) == Some(long_field(278, p.height as int)) && p.field(v, n, 322) is None,
        p.tiling matches Some(t) ==> p.field(v, n, 278) is None && p.field(v, n, 322) == Some(long_field(322, t.0 as int))
            && p.field(v, n, 323) == Some(long_field(323, t.1 as int)),
{
}

/// The tiles of a page hold the samples of their pixels, those of each component apart where
/// that is asked for, before differences are taken and bytes are packed; beyond the edges
/// of the page its last column and its last row are repeated. Byte `b` of sample `s` of the
/// pixel at column `tx` and row `ty` of tile `i`, counted row by row:
pub proof fn law_tiles_filled(p: EncodePage<'_>, i: int, tx: int, ty: int, s: int, b: int)
    requires
        p.consistent(),
        p.tiling is Some,
        p.width > 0,
        p.height > 0,
        0 <= tx < p.tiling.unwrap().0,
        0 <= ty < p.tiling.unwrap().1,
        0 <= s < p.kind.samples(),
        0 <= b < p.kind.bits() as int / 8,
        ({
            let t = p.tiling.unwrap();
            0 <= i < ((p.width + t.0 - 1) / (t.0 as int)) * ((p.height + t.1 - 1) / (t.1 as int))
        }),
    ensures
        ({
            let size = p.kind.bits() as int / 8;
            let n = p.kind.samples() as int;
            let tw = p.tiling.unwrap().0 as int;
            let th = p.tiling.unwrap().1 as int;
            let across = (p.width + tw - 1) / tw;
            let per = across * ((p.height + th - 1) / th);
            let x = i % across * tw + tx;
            let y = i / across * th + ty;
            let column = if x < p.width { x } else { p.width - 1 };
            let row = if y < p.height { y } else { p.height - 1 };
            let pixel = p.kind.bytes()[((row * p.width + column) * n + s) * size + b];
            &&& p.planar ==> p.raw_segment(s * per + i)[(ty * tw + tx) * size + b] == pixel
            &&& !p.planar ==> p.raw_segment(i)[((ty * tw + tx) * n + s) * size + b] == pixel
        }),
{
    let size = p.kind.bits() as int / 8;
    let n = p.kind.samples() as int;
    let tw = p.tiling.unwrap().0 as int;
    let th = p.tiling.unwrap().1 as int;
    let across = (p.width + tw - 1) / tw;
    let per = across * ((p.height + th - 1) / th);
    assert(p.across() == across && p.across() * p.down() == per);
    let q = p.seg_pixel();
    let o = if p.planar { b } else { s * size + b };
    let k = if p.planar { s * per + i } else { i };
    assert(p.planar ==> q == size) by (nonlinear_arith)
        requires
            p.planar ==> q == 1 * size,
    ;
    assert(0 <= s * size + b < n * size) by (nonlinear_arith)
        requires
            0 <= s < n,
            0 <= b < size,
    ;
    assert(0 <= o < q);
    let u = ty * tw + tx;
    let j = u * q + o;
    let seg_row = tw * q;
    let v = tx * q + o;
    assert(j == ty * seg_row + v && 0 <= v < seg_row) by (nonlinear_arith)
        requires
            j == u * q + o,
            u == ty * tw + tx,
            seg_row == tw * q,
            v == tx * q + o,
            0 <= tx < tw,
            0 <= o < q,
    ;
    lemma_packed(ty, seg_row, v);
    lemma_packed(tx, q, o);
    lemma_row_byte(ty, v, seg_row, th);
    lemma_packed(if p.planar { s } else { 0 }, per, i);
    assert(k / per == (if p.planar { s } else { 0 }) && k % per == i);
    assert(p.seg_size() == th * seg_row);
    let r = p.raw_segment(k);
    assert(r[j] == p.kind.bytes()[p.source_byte(k, j)]);
    let x = i % across * tw + tx;
    let y = i / across * th + ty;
    let column = if x < p.width { x } else { p.width - 1 };
    let row = if y < p.height { y } else { p.height - 1 };
    let c = row * p.width + column;
    assert(p.source_byte(k, j) == c * (n * size) + ((if p.planar { s } else { 0 }) * size + o));
    assert(c * (n * size) + (s * size + b) == (c * n + s) * size + b) by (nonlinear_arith);
    assert(0 * size == 0) by (nonlinear_arith);
    if !p.planar {
        assert(j == (u * n + s) * size + b) by (nonlinear_arith)
            requires
                j == u * q + o,
                q == n * size,
                o == s * size + b,
        ;
    }
}

} // verus!
