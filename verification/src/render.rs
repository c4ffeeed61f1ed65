//! From the samples of a page to a picture: one function for each way that a
//! page can store its colours, and the eight orientations.
use vstd::prelude::*;
use crate::bits::{bits_of, read_bit};
use crate::cielab::{cielab_to_rgb_byte, lab_gray, lab_rgb, lightness_to_gray};
use crate::error::{invalid_with, Result, TiffError};
use crate::ifd::{uint_at, ByteOrder};
use crate::image::{pixel_size, single_plane, ImageModel, TiffImage, TiffPixelFormat, MAX_IMAGE_PIXELS};

verus! {

/// A picture of `width` by `height` pixels whose rows have no padding.
pub open spec fn picture(width: int, height: int, pixel_format: TiffPixelFormat, data: Seq<u8>) -> ImageModel {
    ImageModel { width, height, pixel_format, stride: width * pixel_size(pixel_format), data }
}

/// Dimensions of a page that can be read.
pub open spec fn page_size_ok(w: int, h: int) -> bool {
    0 < w && 0 < h && w * h <= MAX_IMAGE_PIXELS
}

/// Row and column of pixel `i`.
pub proof fn lemma_pixel_place(i: int, w: int, h: int)
    requires
        0 <= i < w * h,
        0 < w,
        0 < h,
    ensures
        0 <= i / w < h,
        0 <= i % w < w,
        i == i / w * w + i % w,
{
    vstd::arithmetic::div_mod::lemma_fundamental_div_mod(i, w);
    vstd::arithmetic::div_mod::lemma_mod_bound(i, w);
    let q = i / w;
    assert(w * q == q * w) by (nonlinear_arith);
    assert(0 <= q < h) by (nonlinear_arith)
        requires
            i == q * w + i % w,
            0 <= i % w < w,
            0 <= i < w * h,
    ;
}

/// Byte `x` of row `y` lies within `h` rows of `n` bytes.
pub proof fn lemma_row_byte(y: int, x: int, n: int, h: int)
    requires
        0 <= y < h,
        0 <= x < n,
    ensures
        0 <= y * n,
        y * n + x < h * n,
        0 <= y * n + x,
{
    assert(y * n + n <= h * n) by (nonlinear_arith)
        requires
            y + 1 <= h,
            0 <= n,
    ;
    assert(0 <= y * n) by (nonlinear_arith)
        requires
            0 <= y,
            0 <= n,
    ;
}

// ----------------------------------------------------------------------
// Grayscale
// ----------------------------------------------------------------------

/// Display value of an 8-bit sample.
pub open spec fn shade8(b: u8, invert: bool, signed: bool) -> int {
    let v = if signed { (b + 128) % 256 } else { b as int };
    if invert { 255 - v } else { v }
}

/// Display value of a 16-bit sample.
pub open spec fn shade16(b: int, invert: bool, signed: bool) -> int {
    let v = if signed { (b + 32768) % 65536 } else { b };
    if invert { 65535 - v } else { v }
}

pub open spec fn gray8_data(src: Seq<u8>, w: int, h: int, invert: bool, signed: bool) -> Seq<u8> {
    Seq::new((w * h) as nat, |i: int| shade8(src[i], invert, signed) as u8)
}

/// Number of pixels, known to be small.
fn pixel_count(w: u32, h: u32) -> (n: usize)
    requires
        page_size_ok(w as int, h as int),
    ensures
        n == w * h,
        n <= MAX_IMAGE_PIXELS,
        n >= w,
        n >= h,
        n > 0,
{
    proof {
        assert(w * h >= w && w * h >= h) by (nonlinear_arith)
            requires
                w > 0,
                h > 0,
        ;
    }
    (w as u64 * h as u64) as usize
}

/// A page of 8-bit gray samples.
pub fn build_gray8(src: &[u8], w: u32, h: u32, invert: bool, signed: bool) -> (img: TiffImage)
    requires
        page_size_ok(w as int, h as int),
        src@.len() >= w * h,
    ensures
        img.shows(picture(w as int, h as int, TiffPixelFormat::Gray8, gray8_data(src@, w as int, h as int, invert, signed))),
{
    let n: usize = pixel_count(w, h);
    let mut data: Vec<u8> = Vec::new();
    let mut i: usize = 0;
    while i < n
        invariant
            i <= n,
            n == w * h,
            src@.len() >= n,
            data@.len() == i,
            forall|k: int| 0 <= k < i ==> #[trigger] data@[k] == shade8(src@[k], invert, signed) as u8,
        decreases n - i,
    {
        let b: u8 = src[i];
        let v: u8 = if !signed {
            b
        } else if b < 128 {
            b + 128
        } else {
            b - 128
        };
        data.push(if invert { 255 - v } else { v });
        i = i + 1;
    }
    assert(data@ =~= gray8_data(src@, w as int, h as int, invert, signed));
    single_plane(w, h, TiffPixelFormat::Gray8, w as usize, data)
}

/// The 4-bit sample of pixel `x` in a row that starts at byte `base`.
pub open spec fn nibble(src: Seq<u8>, base: int, x: int) -> int {
    if x % 2 == 0 { src[base + x / 2] as int / 16 } else { src[base + x / 2] as int % 16 }
}

pub open spec fn gray4_data(src: Seq<u8>, w: int, h: int, row_bytes: int, invert: bool) -> Seq<u8> {
    Seq::new(
        (w * h) as nat,
        |i: int|
            {
                let v = 17 * nibble(src, i / w * row_bytes, i % w);
                (if invert { 255 - v } else { v }) as u8
            },
    )
}

/// A page of 4-bit gray samples.
pub fn build_gray8_from_4bpp(src: &[u8], w: u32, h: u32, row_bytes: usize, invert: bool) -> (img: TiffImage)
    requires
        page_size_ok(w as int, h as int),
        row_bytes == (w + 1) / 2,
        src@.len() >= h * row_bytes,
    ensures
        img.shows(
            picture(
                w as int,
                h as int,
                TiffPixelFormat::Gray8,
                gray4_data(src@, w as int, h as int, row_bytes as int, invert),
            ),
        ),
{
    let n: usize = pixel_count(w, h);
    let mut data: Vec<u8> = Vec::new();
    let mut i: usize = 0;
    while i < n
        invariant
            i <= n,
            n == w * h,
            w > 0,
            h > 0,
            row_bytes == (w + 1) / 2,
            src@.len() >= h * row_bytes,
            data@.len() == i,
            forall|k: int|
                0 <= k < i ==> #[trigger] data@[k] == gray4_data(src@, w as int, h as int, row_bytes as int, invert)[k],
        decreases n - i,
    {
        let y: usize = i / (w as usize);
        let x: usize = i % (w as usize);
        proof {
            lemma_pixel_place(i as int, w as int, h as int);
            lemma_row_byte(y as int, x as int / 2, row_bytes as int, h as int);
            assert(src@.len() == src.len());
        }
        let byte: u8 = src[y * row_bytes + x / 2];
        let v: u8 = 17 * (if x % 2 == 0 { byte / 16 } else { byte % 16 });
        data.push(if invert { 255 - v } else { v });
        i = i + 1;
    }
    assert(data@ =~= gray4_data(src@, w as int, h as int, row_bytes as int, invert));
    single_plane(w, h, TiffPixelFormat::Gray8, w as usize, data)
}

pub open spec fn gray1_data(src: Seq<u8>, w: int, h: int, row_bytes: int, invert: bool) -> Seq<u8> {
    Seq::new(
        (w * h) as nat,
        |i: int| if bits_of(src)[8 * (i / w * row_bytes) + i % w] != invert { 255u8 } else { 0u8 },
    )
}

/// A page of 1-bit samples.
pub fn build_gray8_from_1bpp(src: &[u8], w: u32, h: u32, row_bytes: usize, invert: bool) -> (img: TiffImage)
    requires
        page_size_ok(w as int, h as int),
        row_bytes == (w + 7) / 8,
        src@.len() >= h * row_bytes,
    ensures
        img.shows(
            picture(
                w as int,
                h as int,
                TiffPixelFormat::Gray8,
                gray1_data(src@, w as int, h as int, row_bytes as int, invert),
            ),
        ),
{
    let n: usize = pixel_count(w, h);
    let mut data: Vec<u8> = Vec::new();
    let mut i: usize = 0;
    while i < n
        invariant
            i <= n,
            n == w * h,
            w > 0,
            h > 0,
            row_bytes == (w + 7) / 8,
            src@.len() >= h * row_bytes,
            data@.len() == i,
            forall|k: int|
                0 <= k < i ==> #[trigger] data@[k] == gray1_data(src@, w as int, h as int, row_bytes as int, invert)[k],
        decreases n - i,
    {
        let y: usize = i / (w as usize);
        let x: usize = i % (w as usize);
        proof {
            lemma_pixel_place(i as int, w as int, h as int);
            lemma_row_byte(y as int, x as int / 8, row_bytes as int, h as int);
            assert(src@.len() == src.len());
        }
        let at: u128 = 8 * ((y * row_bytes) as u128) + x as u128;
        let bit: bool = read_bit(src, at);
        data.push(if bit != invert { 255 } else { 0 });
        i = i + 1;
    }
    assert(data@ =~= gray1_data(src@, w as int, h as int, row_bytes as int, invert));
    single_plane(w, h, TiffPixelFormat::Gray8, w as usize, data)
}

/// Byte `k` of the little-endian form of 16-bit values.
pub open spec fn le16_byte(v: int, k: int) -> u8 {
    (if k % 2 == 0 { v % 256 } else { v / 256 }) as u8
}

pub open spec fn gray16_data(src: Seq<u8>, w: int, h: int, bo: ByteOrder, invert: bool, signed: bool) -> Seq<u8> {
    Seq::new(
        (w * h * 2) as nat,
        |k: int| le16_byte(shade16(uint_at(bo, src, k / 2 * 2, 2) as int, invert, signed), k),
    )
}

/// Display value of a 16-bit sample.
fn shade_word(b: u16, invert: bool, signed: bool) -> (v: u16)
    ensures
        v == shade16(b as int, invert, signed),
{
    let v: u16 = if !signed {
        b
    } else if b < 32768 {
        b + 32768
    } else {
        b - 32768
    };
    if invert { 65535 - v } else { v }
}

/// Appends a 16-bit value, low byte first.
fn push_le16(data: &mut Vec<u8>, v: u16)
    ensures
        final(data)@ == old(data)@.push(le16_byte(v as int, 0)).push(le16_byte(v as int, 1)),
{
    data.push((v % 256) as u8);
    data.push((v / 256) as u8);
}

/// A page of 16-bit gray samples.
pub fn build_gray16le(src: &[u8], w: u32, h: u32, bo: ByteOrder, invert: bool, signed: bool) -> (img: TiffImage)
    requires
        page_size_ok(w as int, h as int),
        src@.len() >= w * h * 2,
    ensures
        img.shows(
            picture(
                w as int,
                h as int,
                TiffPixelFormat::Gray16Le,
                gray16_data(src@, w as int, h as int, bo, invert, signed),
            ),
        ),
{
    let n: usize = pixel_count(w, h);
    let mut data: Vec<u8> = Vec::new();
    let mut i: usize = 0;
    let ghost whole = gray16_data(src@, w as int, h as int, bo, invert, signed);
    while i < n
        invariant
            i <= n,
            n == w * h,
            n <= MAX_IMAGE_PIXELS,
            src@.len() >= n * 2,
            whole == gray16_data(src@, w as int, h as int, bo, invert, signed),
            data@.len() == 2 * i,
            forall|k: int| 0 <= k < 2 * i ==> #[trigger] data@[k] == whole[k],
        decreases n - i,
    {
        let b: u16 = bo.u16_at(src, 2 * i);
        let v: u16 = shade_word(b, invert, signed);
        push_le16(&mut data, v);
        proof {
            assert(2 * i as int / 2 * 2 == 2 * i);
            assert((2 * i + 1) / 2 * 2 == 2 * i);
            assert(whole[2 * i as int] == le16_byte(v as int, 0));
            assert(whole[2 * i + 1] == le16_byte(v as int, 1));
        }
        i = i + 1;
    }
    assert(data@ =~= gray16_data(src@, w as int, h as int, bo, invert, signed));
    single_plane(w, h, TiffPixelFormat::Gray16Le, w as usize * 2, data)
}

// ----------------------------------------------------------------------
// RGB
// ----------------------------------------------------------------------

/// The first three bytes of every `n`.
pub open spec fn rgb8_data(src: Seq<u8>, w: int, h: int, n: int) -> Seq<u8> {
    Seq::new((w * h * 3) as nat, |k: int| src[k / 3 * n + k % 3])
}

/// A page of three or more 8-bit samples for each pixel, the first three red,
/// green and blue.
pub fn build_rgb_from_n_chunky_8bit(src: &[u8], w: u32, h: u32, n: usize) -> (img: TiffImage)
    requires
        page_size_ok(w as int, h as int),
        3 <= n <= 65535,
        src@.len() >= w * h * n,
    ensures
        img.shows(picture(w as int, h as int, TiffPixelFormat::Rgb24, rgb8_data(src@, w as int, h as int, n as int))),
{
    let count: usize = pixel_count(w, h);
    let mut data: Vec<u8> = Vec::new();
    let mut i: usize = 0;
    let mut at: usize = 0;
    proof {
        assert(0 * n == 0) by (nonlinear_arith);
        assert(src@.len() == src.len());
    }
    while i < count
        invariant
            i <= count,
            count == w * h,
            3 <= n <= 65535,
            src@.len() >= count * n,
            src@.len() <= usize::MAX,
            at == i * n,
            data@.len() == 3 * i,
            forall|k: int| 0 <= k < 3 * i ==> #[trigger] data@[k] == src@[k / 3 * n + k % 3],
        decreases count - i,
    {
        proof {
            assert(i * n + n == (i + 1) * n) by (nonlinear_arith);
            assert((i + 1) * n <= count * n) by (nonlinear_arith)
                requires
                    i + 1 <= count,
                    0 <= n,
            ;
        }
        data.push(src[at]);
        data.push(src[at + 1]);
        data.push(src[at + 2]);
        proof {
            assert forall|k: int| 0 <= k < 3 * (i + 1) implies #[trigger] data@[k] == src@[k / 3 * n + k % 3] by {
                if k >= 3 * i {
                    assert(k / 3 == i);
                }
            }
        }
        at = at + n;
        i = i + 1;
    }
    assert(data@ =~= rgb8_data(src@, w as int, h as int, n as int));
    single_plane(w, h, TiffPixelFormat::Rgb24, w as usize * 3, data)
}

/// A page of three 8-bit samples for each pixel.
pub fn build_rgb24(src: &[u8], w: u32, h: u32) -> (img: TiffImage)
    requires
        page_size_ok(w as int, h as int),
        src@.len() >= w * h * 3,
    ensures
        img.shows(picture(w as int, h as int, TiffPixelFormat::Rgb24, src@.take(w * h * 3))),
{
    let img = build_rgb_from_n_chunky_8bit(src, w, h, 3);
    proof {
        assert(rgb8_data(src@, w as int, h as int, 3) =~= src@.take(w * h * 3));
    }
    img
}

pub open spec fn rgb16_data(src: Seq<u8>, w: int, h: int, bo: ByteOrder) -> Seq<u8> {
    Seq::new((w * h * 6) as nat, |k: int| le16_byte(uint_at(bo, src, k / 2 * 2, 2) as int, k))
}

/// A page of three 16-bit samples for each pixel.
pub fn build_rgb48le(src: &[u8], w: u32, h: u32, bo: ByteOrder) -> (img: TiffImage)
    requires
        page_size_ok(w as int, h as int),
        src@.len() >= w * h * 6,
    ensures
        img.shows(picture(w as int, h as int, TiffPixelFormat::Rgb48Le, rgb16_data(src@, w as int, h as int, bo))),
{
    let count: usize = pixel_count(w, h);
    let n: usize = 3 * count;
    let mut data: Vec<u8> = Vec::new();
    let mut i: usize = 0;
    while i < n
        invariant
            i <= n,
            n == 3 * (w * h),
            n <= 3 * MAX_IMAGE_PIXELS,
            src@.len() >= n * 2,
            data@.len() == 2 * i,
            forall|k: int|
                0 <= k < 2 * i ==> #[trigger] data@[k] == le16_byte(uint_at(bo, src@, k / 2 * 2, 2) as int, k),
        decreases n - i,
    {
        let v: u16 = bo.u16_at(src, 2 * i);
        data.push((v % 256) as u8);
        data.push((v / 256) as u8);
        i = i + 1;
    }
    assert(data@ =~= rgb16_data(src@, w as int, h as int, bo));
    single_plane(w, h, TiffPixelFormat::Rgb48Le, w as usize * 6, data)
}

// ----------------------------------------------------------------------
// Palette
// ----------------------------------------------------------------------

/// Component `c` of colour `i` of a map of `n` colours: the high byte.
pub open spec fn map_byte(words: Seq<int>, n: int, i: int, c: int) -> u8 {
    (words[c * n + i] / 256 % 256) as u8
}

/// Values of a field as mathematical values.
pub open spec fn words_of(v: Seq<u32>) -> Seq<int> {
    Seq::new(v.len(), |i: int| v[i] as int)
}

/// The colours of a colour map for samples of 4 or 8 bits.
pub fn parse_colormap(words: &[u32], bps: u16) -> (r: Result<Vec<[u8; 3]>>)
    requires
        bps == 4 || bps == 8,
    ensures
        ({
            let n = if bps == 4 { 16int } else { 256int };
            match r {
                Ok(p) => words@.len() >= 3 * n && p@.len() == n && forall|i: int, c: int|
                    0 <= i < n && 0 <= c < 3 ==> (#[trigger] p@[i]@[c]) == map_byte(words_of(words@), n, i, c),
                Err(e) => words@.len() < 3 * n && e is InvalidData,
            }
        }),
{
    let n: usize = if bps == 4 { 16 } else { 256 };
    if words.len() < 3 * n {
        return Err(invalid_with("TIFF: ColorMap has ", words.len() as u64, " entries, too few"));
    }
    let mut out: Vec<[u8; 3]> = Vec::new();
    let mut i: usize = 0;
    while i < n
        invariant
            i <= n,
            n == 16 || n == 256,
            words@.len() >= 3 * n,
            out@.len() == i,
            forall|k: int, c: int|
                0 <= k < i && 0 <= c < 3 ==> (#[trigger] out@[k]@[c]) == map_byte(words_of(words@), n as int, k, c),
        decreases n - i,
    {
        let r: u8 = (words[i] / 256 % 256) as u8;
        let g: u8 = (words[n + i] / 256 % 256) as u8;
        let b: u8 = (words[2 * n + i] / 256 % 256) as u8;
        out.push([r, g, b]);
        proof {
            let last = out@[i as int]@;
            assert(last[0] == r && last[1] == g && last[2] == b);
            let ws = words_of(words@);
            assert(ws[i as int] == words@[i as int]);
            assert(ws[n + i] == words@[n + i]);
            assert(ws[2 * n + i] == words@[2 * n + i]);
            assert(1 * n + i == n + i && 0 * n + i == i && 2 * n + i == n + n + i) by (nonlinear_arith);
        }
        i = i + 1;
    }
    Ok(out)
}

/// Index into the colour map of pixel `i`.
pub open spec fn palette_index(src: Seq<u8>, w: int, bps: int, row_bytes: int, i: int) -> int {
    if bps == 8 { src[i / w * row_bytes + i % w] as int } else { nibble(src, i / w * row_bytes, i % w) }
}

pub open spec fn palette_data(src: Seq<u8>, w: int, h: int, words: Seq<int>, bps: int, row_bytes: int) -> Seq<u8> {
    Seq::new(
        (w * h * 3) as nat,
        |k: int|
            map_byte(words, if bps == 4 { 16 } else { 256 }, palette_index(src, w, bps, row_bytes, k / 3), k % 3),
    )
}

/// A page of indices into a colour map.
pub(crate) fn build_rgb24_from_palette(
    src: &[u8],
    w: u32,
    h: u32,
    palette: &Vec<[u8; 3]>,
    bps: u16,
    row_bytes: usize,
    Ghost(words): Ghost<Seq<int>>,
) -> (img: TiffImage)
    requires
        page_size_ok(w as int, h as int),
        bps == 4 || bps == 8,
        row_bytes == (if bps == 8 { w as int } else { (w + 1) / 2 }),
        src@.len() >= h * row_bytes,
        palette@.len() == (if bps == 4 { 16int } else { 256int }),
        forall|i: int, c: int|
            0 <= i < palette@.len() && 0 <= c < 3 ==> (#[trigger] palette@[i]@[c]) == map_byte(
                words,
                palette@.len() as int,
                i,
                c,
            ),
    ensures
        img.shows(
            picture(
                w as int,
                h as int,
                TiffPixelFormat::Rgb24,
                palette_data(src@, w as int, h as int, words, bps as int, row_bytes as int),
            ),
        ),
{
    let n: usize = pixel_count(w, h);
    let mut data: Vec<u8> = Vec::new();
    let mut i: usize = 0;
    let ghost whole = palette_data(src@, w as int, h as int, words, bps as int, row_bytes as int);
    while i < n
        invariant
            i <= n,
            n == w * h,
            w > 0,
            h > 0,
            bps == 4 || bps == 8,
            row_bytes == (if bps == 8 { w as int } else { (w + 1) / 2 }),
            src@.len() >= h * row_bytes,
            palette@.len() == (if bps == 4 { 16int } else { 256int }),
            forall|i: int, c: int|
                0 <= i < palette@.len() && 0 <= c < 3 ==> (#[trigger] palette@[i]@[c]) == map_byte(
                    words,
                    palette@.len() as int,
                    i,
                    c,
                ),
            whole == palette_data(src@, w as int, h as int, words, bps as int, row_bytes as int),
            data@.len() == 3 * i,
            forall|k: int| 0 <= k < 3 * i ==> #[trigger] data@[k] == whole[k],
        decreases n - i,
    {
        let y: usize = i / (w as usize);
        let x: usize = i % (w as usize);
        proof {
            lemma_pixel_place(i as int, w as int, h as int);
            lemma_row_byte(y as int, if bps == 8 { x as int } else { x as int / 2 }, row_bytes as int, h as int);
            assert(src@.len() == src.len());
        }
        let idx: usize = if bps == 8 {
            src[y * row_bytes + x] as usize
        } else {
            let byte: u8 = src[y * row_bytes + x / 2];
            (if x % 2 == 0 { byte / 16 } else { byte % 16 }) as usize
        };
        let colour: [u8; 3] = palette[idx];
        data.push(colour[0]);
        data.push(colour[1]);
        data.push(colour[2]);
        proof {
            assert(palette@[idx as int]@[0] == colour@[0]);
            assert(palette@[idx as int]@[1] == colour@[1]);
            assert(palette@[idx as int]@[2] == colour@[2]);
            assert forall|k: int| 0 <= k < 3 * (i + 1) implies #[trigger] data@[k] == whole[k] by {
                if k >= 3 * i {
                    assert(k / 3 == i);
                    assert(idx == palette_index(src@, w as int, bps as int, row_bytes as int, i as int));
                }
            }
        }
        i = i + 1;
    }
    assert(data@ =~= whole);
    single_plane(w, h, TiffPixelFormat::Rgb24, w as usize * 3, data)
}

// ----------------------------------------------------------------------
// CMYK
// ----------------------------------------------------------------------

/// Display value of an ink under black ink.
pub open spec fn ink_byte(ink: u8, black: u8) -> u8 {
    ((255 - ink) * (255 - black) / 255) as u8
}

/// Display value of an ink under black ink.
pub fn ink_to_byte(ink: u8, black: u8) -> (v: u8)
    ensures
        v == ink_byte(ink, black),
{
    let a: u32 = 255 - ink as u32;
    let b: u32 = 255 - black as u32;
    proof {
        assert(0 <= a * b <= 65025) by (nonlinear_arith)
            requires
                0 <= a <= 255,
                0 <= b <= 255,
        ;
    }
    (a * b / 255) as u8
}

pub open spec fn cmyk_data(src: Seq<u8>, w: int, h: int) -> Seq<u8> {
    Seq::new((w * h * 3) as nat, |k: int| ink_byte(src[k / 3 * 4 + k % 3], src[k / 3 * 4 + 3]))
}

/// A page of cyan, magenta, yellow and black ink.
pub fn build_rgb24_from_cmyk(src: &[u8], w: u32, h: u32) -> (img: TiffImage)
    requires
        page_size_ok(w as int, h as int),
        src@.len() >= w * h * 4,
    ensures
        img.shows(picture(w as int, h as int, TiffPixelFormat::Rgb24, cmyk_data(src@, w as int, h as int))),
{
    let n: usize = pixel_count(w, h);
    let mut data: Vec<u8> = Vec::new();
    let mut i: usize = 0;
    while i < n
        invariant
            i <= n,
            n == w * h,
            n <= MAX_IMAGE_PIXELS,
            src@.len() >= n * 4,
            data@.len() == 3 * i,
            forall|k: int|
                0 <= k < 3 * i ==> #[trigger] data@[k] == ink_byte(src@[k / 3 * 4 + k % 3], src@[k / 3 * 4 + 3]),
        decreases n - i,
    {
        let black: u8 = src[4 * i + 3];
        data.push(ink_to_byte(src[4 * i], black));
        data.push(ink_to_byte(src[4 * i + 1], black));
        data.push(ink_to_byte(src[4 * i + 2], black));
        i = i + 1;
    }
    assert(data@ =~= cmyk_data(src@, w as int, h as int));
    single_plane(w, h, TiffPixelFormat::Rgb24, w as usize * 3, data)
}

// ----------------------------------------------------------------------
// CIE L*a*b*
// ----------------------------------------------------------------------

pub open spec fn cielab_data(src: Seq<u8>, w: int, h: int) -> Seq<u8> {
    Seq::new(
        (w * h * 3) as nat,
        |k: int| lab_rgb(src[k / 3 * 3], src[k / 3 * 3 + 1], src[k / 3 * 3 + 2], k % 3) as u8,
    )
}

/// A page of 8-bit L*a*b* triples.
pub fn build_rgb24_from_cielab(src: &[u8], w: u32, h: u32) -> (img: TiffImage)
    requires
        page_size_ok(w as int, h as int),
        src@.len() >= w * h * 3,
    ensures
        img.shows(picture(w as int, h as int, TiffPixelFormat::Rgb24, cielab_data(src@, w as int, h as int))),
{
    let n: usize = pixel_count(w, h);
    let mut data: Vec<u8> = Vec::new();
    let mut i: usize = 0;
    while i < n
        invariant
            i <= n,
            n == w * h,
            n <= MAX_IMAGE_PIXELS,
            src@.len() >= n * 3,
            data@.len() == 3 * i,
            forall|k: int|
                0 <= k < 3 * i ==> #[trigger] data@[k] == lab_rgb(
                    src@[k / 3 * 3],
                    src@[k / 3 * 3 + 1],
                    src@[k / 3 * 3 + 2],
                    k % 3,
                ) as u8,
        decreases n - i,
    {
        let (r, g, b) = cielab_to_rgb_byte(src[3 * i], src[3 * i + 1], src[3 * i + 2]);
        data.push(r);
        data.push(g);
        data.push(b);
        i = i + 1;
    }
    assert(data@ =~= cielab_data(src@, w as int, h as int));
    single_plane(w, h, TiffPixelFormat::Rgb24, w as usize * 3, data)
}

pub open spec fn lightness_data(src: Seq<u8>, w: int, h: int) -> Seq<u8> {
    Seq::new((w * h) as nat, |k: int| lab_gray(src[k]) as u8)
}

/// A page of 8-bit lightness samples.
pub fn build_gray8_from_cielab_l(src: &[u8], w: u32, h: u32) -> (img: TiffImage)
    requires
        page_size_ok(w as int, h as int),
        src@.len() >= w * h,
    ensures
        img.shows(picture(w as int, h as int, TiffPixelFormat::Gray8, lightness_data(src@, w as int, h as int))),
{
    let n: usize = pixel_count(w, h);
    let mut data: Vec<u8> = Vec::new();
    let mut i: usize = 0;
    while i < n
        invariant
            i <= n,
            n == w * h,
            src@.len() >= n,
            data@.len() == i,
            forall|k: int| 0 <= k < i ==> #[trigger] data@[k] == lab_gray(src@[k]) as u8,
        decreases n - i,
    {
        data.push(lightness_to_gray(src[i]));
        i = i + 1;
    }
    assert(data@ =~= lightness_data(src@, w as int, h as int));
    single_plane(w, h, TiffPixelFormat::Gray8, w as usize, data)
}

// ----------------------------------------------------------------------
// YCbCr
// ----------------------------------------------------------------------

/// `v` cut off to the range of a byte.
pub open spec fn clamped(v: int) -> u8 {
    (if v < 0 {
        0int
    } else if v > 255 {
        255int
    } else {
        v
    }) as u8
}

/// Display colour of a luma and two chroma samples, with the ITU-R BT.601
/// coefficients in 65536ths, rounded.
pub open spec fn ycbcr_byte(y: u8, cb: u8, cr: u8, c: int) -> u8 {
    clamped(
        if c == 0 {
            y + (91881 * (cr - 128) + 32768) / 65536
        } else if c == 1 {
            y - (22554 * (cb - 128) + 46802 * (cr - 128) + 32768) / 65536
        } else {
            y + (116130 * (cb - 128) + 32768) / 65536
        },
    )
}

fn clamp_u8(v: i32) -> (b: u8)
    ensures
        b == clamped(v as int),
{
    if v < 0 {
        0
    } else if v > 255 {
        255
    } else {
        v as u8
    }
}

/// `v / 65536`, rounded down.
fn high_half(v: i32) -> (q: i32)
    requires
        -0x4000_0000 <= v < 0x4000_0000,
    ensures
        q == v as int / 65536,
{
    let u: u32 = (v + 0x4000_0000) as u32;
    (u / 65536) as i32 - 16384
}

/// Display colour of a luma and two chroma samples.
pub fn ycbcr_to_rgb(y: u8, cb: u8, cr: u8) -> (rgb: (u8, u8, u8))
    ensures
        rgb.0 == ycbcr_byte(y, cb, cr, 0),
        rgb.1 == ycbcr_byte(y, cb, cr, 1),
        rgb.2 == ycbcr_byte(y, cb, cr, 2),
{
    let y: i32 = y as i32;
    let u: i32 = cb as i32 - 128;
    let v: i32 = cr as i32 - 128;
    let r: i32 = y + high_half(91881 * v + 32768);
    let g: i32 = y - high_half(22554 * u + 46802 * v + 32768);
    let b: i32 = y + high_half(116130 * u + 32768);
    (clamp_u8(r), clamp_u8(g), clamp_u8(b))
}

/// `a / b` rounded up.
pub open spec fn ceil_div(a: int, b: int) -> int {
    (a + b - 1) / b
}

/// A strip or tile starts on the page.
pub proof fn lemma_origin(j: int, len: int, step: int)
    requires
        0 <= j < ceil_div(len, step),
        0 < step,
        0 <= len,
    ensures
        0 <= j * step < len,
{
    let n = len + step - 1;
    vstd::arithmetic::div_mod::lemma_fundamental_div_mod(n, step);
    vstd::arithmetic::div_mod::lemma_mod_bound(n, step);
    let q = n / step;
    assert(step * q == q * step) by (nonlinear_arith);
    assert(j * step + step <= q * step) by (nonlinear_arith)
        requires
            j + 1 <= q,
            0 < step,
    ;
    assert(0 <= j * step) by (nonlinear_arith)
        requires
            0 <= j,
            0 < step,
    ;
}

/// A chroma subsampling that can be rendered.
pub open spec fn subsampling_ok(sh: int, sv: int) -> bool {
    (sh == 1 && (sv == 1 || sv == 2)) || (sh == 2 && (sv == 1 || sv == 2)) || (sh == 4 && (sv == 1 || sv == 2))
}

/// Start of the data unit that holds pixel `i`: its luma samples row by row,
/// then its two chroma samples.
pub open spec fn unit_start(w: int, sh: int, sv: int, i: int) -> int {
    (i / w / sv * ceil_div(w, sh) + i % w / sh) * (sh * sv + 2)
}

pub open spec fn ycbcr_data(src: Seq<u8>, w: int, h: int, sh: int, sv: int) -> Seq<u8> {
    Seq::new(
        (w * h * 3) as nat,
        |k: int|
            {
                let i = k / 3;
                let u = unit_start(w, sh, sv, i);
                ycbcr_byte(
                    src[u + i / w % sv * sh + i % w % sh],
                    src[u + sh * sv],
                    src[u + sh * sv + 1],
                    k % 3,
                )
            },
    )
}

/// Bytes of the data units of a page.
pub open spec fn units_size(w: int, h: int, sh: int, sv: int) -> int {
    ceil_div(w, sh) * ceil_div(h, sv) * (sh * sv + 2)
}

/// The data unit of pixel `i` lies within the units of the page.
proof fn lemma_unit_place(w: int, h: int, sh: int, sv: int, i: int)
    requires
        0 < w,
        0 < h,
        subsampling_ok(sh, sv),
        0 <= i < w * h,
    ensures
        0 <= unit_start(w, sh, sv, i),
        unit_start(w, sh, sv, i) + sh * sv + 2 <= units_size(w, h, sh, sv),
        0 <= i / w % sv * sh + i % w % sh < sh * sv,
        0 <= i / w / sv < ceil_div(h, sv),
        0 <= i % w / sh < ceil_div(w, sh),
{
    lemma_pixel_place(i, w, h);
    let y = i / w;
    let x = i % w;
    let by = y / sv;
    let bx = x / sh;
    let bw = ceil_div(w, sh);
    let bh = ceil_div(h, sv);
    assert(0 <= bx < bw);
    assert(0 <= by < bh);
    lemma_row_byte(by, bx, bw, bh);
    let s = sh * sv + 2;
    let u = by * bw + bx;
    assert(bh * bw == bw * bh) by (nonlinear_arith);
    assert(u * s + s <= bw * bh * s) by (nonlinear_arith)
        requires
            u + 1 <= bw * bh,
            s >= 0,
    ;
    assert(0 <= u * s) by (nonlinear_arith)
        requires
            0 <= u,
            0 <= s,
    ;
    assert(0 <= y % sv * sh + x % sh < sh * sv) by {
        if sh == 1 {
        } else if sh == 2 {
        } else {
        }
    }
}

/// What a page of YCbCr data units shows.
pub open spec fn ycbcr_render(src: Seq<u8>, w: int, h: int, sh: int, sv: int) -> Option<Seq<u8>> {
    if !subsampling_ok(sh, sv) || src.len() < units_size(w, h, sh, sv) {
        None
    } else {
        Some(ycbcr_data(src, w, h, sh, sv))
    }
}

/// A page of YCbCr data units.
pub fn build_rgb24_from_ycbcr(src: &[u8], w: u32, h: u32, sh: u16, sv: u16) -> (r: Result<TiffImage>)
    requires
        page_size_ok(w as int, h as int),
    ensures
        (match (r, ycbcr_render(src@, w as int, h as int, sh as int, sv as int)) {
            (Ok(img), Some(d)) => img.shows(picture(w as int, h as int, TiffPixelFormat::Rgb24, d)),
            (Err(e), None) => e is InvalidData,
            _ => false,
        }),
{
    if !((sh == 1 || sh == 2 || sh == 4) && (sv == 1 || sv == 2)) {
        return Err(invalid_with("TIFF: YCbCrSubSampling not supported, horizontal factor ", sh as u64, ""));
    }
    let n: usize = pixel_count(w, h);
    let width: usize = w as usize;
    let h_step: usize = sh as usize;
    let v_step: usize = sv as usize;
    let luma: usize = h_step * v_step;
    let across: usize = ((w as u64 + sh as u64 - 1) / sh as u64) as usize;
    let down: usize = ((h as u64 + sv as u64 - 1) / sv as u64) as usize;
    proof {
        assert(across * down <= w * h) by (nonlinear_arith)
            requires
                0 <= across <= w,
                0 <= down <= h,
        ;
        assert(0 <= across * down) by (nonlinear_arith)
            requires
                0 <= across,
                0 <= down,
        ;
    }
    assert(luma <= 8) by {
        if sh == 1 {
        } else if sh == 2 {
        } else {
        }
    }
    let units: u64 = across as u64 * down as u64;
    assert(0 <= units * (luma + 2) <= 2684354560) by (nonlinear_arith)
        requires
            0 <= units <= 268435456,
            0 <= luma <= 8,
    ;
    if (src.len() as u64) < units * (luma as u64 + 2) {
        return Err(TiffError::invalid("TIFF/YCbCr: pixel buffer too small"));
    }
    let mut data: Vec<u8> = Vec::new();
    let ghost whole = ycbcr_data(src@, w as int, h as int, sh as int, sv as int);
    let mut i: usize = 0;
    while i < n
        invariant
            i <= n,
            n == w * h,
            n <= MAX_IMAGE_PIXELS,
            width == w,
            w > 0,
            h > 0,
            subsampling_ok(sh as int, sv as int),
            h_step == sh,
            v_step == sv,
            luma == sh * sv,
            across == ceil_div(w as int, sh as int),
            src@.len() >= units_size(w as int, h as int, sh as int, sv as int),
            whole == ycbcr_data(src@, w as int, h as int, sh as int, sv as int),
            data@.len() == 3 * i,
            forall|k: int| 0 <= k < 3 * i ==> #[trigger] data@[k] == whole[k],
        decreases n - i,
    {
        let py: usize = i / width;
        let px: usize = i % width;
        proof {
            lemma_unit_place(w as int, h as int, sh as int, sv as int, i as int);
            lemma_pixel_place(i as int, w as int, h as int);
            assert(src@.len() == src.len());
            let s = sh * sv + 2;
            let by = py as int / (sv as int);
            let bx = px as int / (sh as int);
            assert(0 <= by * across) by (nonlinear_arith)
                requires
                    0 <= by,
                    0 <= across,
            ;
            assert(by * across + bx <= (by * across + bx) * s) by (nonlinear_arith)
                requires
                    s >= 1,
                    0 <= by * across + bx,
            ;
        }
        let unit: usize = py / v_step * across + px / h_step;
        let at: usize = unit * (luma + 2);
        let (r, g, b) = ycbcr_to_rgb(
            src[at + (py % v_step * h_step + px % h_step)],
            src[at + luma],
            src[at + luma + 1],
        );
        data.push(r);
        data.push(g);
        data.push(b);
        proof {
            assert forall|k: int| 0 <= k < 3 * (i + 1) implies #[trigger] data@[k] == whole[k] by {
                if k >= 3 * i {
                    assert(k / 3 == i);
                }
            }
        }
        i = i + 1;
    }
    assert(data@ =~= whole);
    Ok(single_plane(w, h, TiffPixelFormat::Rgb24, w as usize * 3, data))
}

// ----------------------------------------------------------------------
// Orientation
// ----------------------------------------------------------------------

/// An orientation that swaps rows and columns.
pub open spec fn transposes(o: int) -> bool {
    o >= 5
}

/// Row and column, in a stored picture of `w` by `h` pixels, of the pixel that
/// is displayed at row `r` and column `c` under orientation `o`.
pub open spec fn stored_cell(o: int, w: int, h: int, r: int, c: int) -> (int, int) {
    if o == 2 {
        (r, w - 1 - c)
    } else if o == 3 {
        (h - 1 - r, w - 1 - c)
    } else if o == 4 {
        (h - 1 - r, c)
    } else if o == 5 {
        (c, r)
    } else if o == 6 {
        (h - 1 - c, r)
    } else if o == 7 {
        (h - 1 - c, w - 1 - r)
    } else if o == 8 {
        (c, w - 1 - r)
    } else {
        (r, c)
    }
}

/// Byte of a stored picture that is displayed as byte `k`.
pub open spec fn stored_byte(o: int, w: int, h: int, size: int, k: int) -> int {
    let dw = if transposes(o) { h } else { w };
    let cell = stored_cell(o, w, h, k / size / dw, k / size % dw);
    (cell.0 * w + cell.1) * size + k % size
}

/// A stored picture as it is displayed under orientation `o`.
pub open spec fn oriented(m: ImageModel, o: int) -> ImageModel {
    let size = pixel_size(m.pixel_format);
    let dw = if transposes(o) { m.height } else { m.width };
    ImageModel {
        width: dw,
        height: if transposes(o) { m.width } else { m.height },
        pixel_format: m.pixel_format,
        stride: dw * size,
        data: Seq::new(m.data.len(), |k: int| m.data[stored_byte(o, m.width, m.height, size, k)]),
    }
}

/// The orientation that undoes orientation `o`.
pub open spec fn undoing(o: int) -> int {
    if o == 6 {
        8
    } else if o == 8 {
        6
    } else {
        o
    }
}

/// Byte `b` of the pixel in row `r` and column `c` of a picture of `w` by `h`
/// pixels of `size` bytes: its place, and what that place says of it.
pub proof fn lemma_byte_of_cell(r: int, c: int, b: int, w: int, h: int, size: int)
    requires
        0 <= r < h,
        0 <= c < w,
        0 <= b < size,
    ensures
        0 <= (r * w + c) * size + b < w * h * size,
        ((r * w + c) * size + b) / size == r * w + c,
        ((r * w + c) * size + b) % size == b,
        (r * w + c) / w == r,
        (r * w + c) % w == c,
{
    let i = r * w + c;
    lemma_row_byte(r, c, w, h);
    lemma_row_byte(i, b, size, h * w);
    assert(h * w == w * h) by (nonlinear_arith);
    vstd::arithmetic::div_mod::lemma_fundamental_div_mod_converse(i * size + b, size, i, b);
    vstd::arithmetic::div_mod::lemma_fundamental_div_mod_converse(i, w, r, c);
}

/// Where byte `k` of a picture of `w` by `h` pixels of `size` bytes stands.
pub proof fn lemma_cell_of_byte(k: int, w: int, h: int, size: int)
    requires
        0 <= k < w * h * size,
        0 < w,
        0 < h,
        0 < size,
    ensures
        0 <= k / size / w < h,
        0 <= k / size % w < w,
        0 <= k % size < size,
        k == (k / size / w * w + k / size % w) * size + k % size,
{
    let n = w * h;
    assert(0 < n) by (nonlinear_arith)
        requires
            0 < w,
            0 < h,
            n == w * h,
    ;
    assert(n * size == size * n) by (nonlinear_arith);
    lemma_pixel_place(k, size, n);
    lemma_pixel_place(k / size, w, h);
}

/// Where a displayed byte comes from, and that it is a byte of the picture.
pub proof fn lemma_stored_byte(o: int, w: int, h: int, size: int, k: int)
    requires
        1 <= o <= 8,
        0 < w,
        0 < h,
        0 < size,
        0 <= k < w * h * size,
    ensures
        0 <= stored_byte(o, w, h, size, k) < w * h * size,
        ({
            let dw = if transposes(o) { h } else { w };
            let dh = if transposes(o) { w } else { h };
            let cell = stored_cell(o, w, h, k / size / dw, k / size % dw);
            &&& 0 <= k / size / dw < dh
            &&& 0 <= k / size % dw < dw
            &&& 0 <= k % size < size
            &&& k == (k / size / dw * dw + k / size % dw) * size + k % size
            &&& 0 <= cell.0 < h
            &&& 0 <= cell.1 < w
            &&& stored_byte(o, w, h, size, k) / size == cell.0 * w + cell.1
            &&& stored_byte(o, w, h, size, k) % size == k % size
            &&& (cell.0 * w + cell.1) / w == cell.0
            &&& (cell.0 * w + cell.1) % w == cell.1
        }),
{
    let dw = if transposes(o) { h } else { w };
    let dh = if transposes(o) { w } else { h };
    assert(w * h == h * w) by (nonlinear_arith);
    lemma_cell_of_byte(k, dw, dh, size);
    let cell = stored_cell(o, w, h, k / size / dw, k / size % dw);
    lemma_byte_of_cell(cell.0, cell.1, k % size, w, h, size);
}

/// Displaying a picture under an orientation, and what comes out under the
/// orientation that undoes it, gives the picture back.
pub proof fn law_orientation_inverse(m: ImageModel, o: int)
    requires
        m.wf(),
        1 <= o <= 8,
    ensures
        oriented(m, o).wf(),
        oriented(oriented(m, o), undoing(o)) == m,
{
    let w = m.width;
    let h = m.height;
    let size = pixel_size(m.pixel_format);
    let d = oriented(m, o);
    let u = undoing(o);
    assert(w * h == h * w) by (nonlinear_arith);
    let back = oriented(d, u);
    assert forall|k: int| 0 <= k < m.data.len() implies back.data[k] == m.data[k] by {
        lemma_stored_byte(u, d.width, d.height, size, k);
        let j = stored_byte(u, d.width, d.height, size, k);
        lemma_stored_byte(o, w, h, size, j);
    }
    assert(back.data =~= m.data);
}

/// A picture that is stored upright is displayed as it is.
pub proof fn lemma_upright(m: ImageModel)
    requires
        m.wf(),
    ensures
        oriented(m, 1) == m,
{
    let size = pixel_size(m.pixel_format);
    let d = oriented(m, 1);
    assert forall|k: int| 0 <= k < m.data.len() implies d.data[k] == m.data[k] by {
        lemma_stored_byte(1, m.width, m.height, size, k);
    }
    assert(d.data =~= m.data);
}

/// A stored picture as it is displayed under orientation `orientation`.
pub fn apply_orientation(image: TiffImage, orientation: u16) -> (shown: TiffImage)
    requires
        1 <= orientation <= 8,
        image.planes@.len() == 1,
        image.model().wf(),
    ensures
        shown.shows(oriented(image.model(), orientation as int)),
{
    let ghost m = image.model();
    let w: usize = image.width as usize;
    let h: usize = image.height as usize;
    let size: usize = match image.pixel_format {
        TiffPixelFormat::Gray8 => 1,
        TiffPixelFormat::Gray16Le => 2,
        TiffPixelFormat::Rgb24 => 3,
        TiffPixelFormat::Rgb48Le => 6,
    };
    let o: u16 = orientation;
    let dw: usize = if o >= 5 { h } else { w };
    let dh: usize = if o >= 5 { w } else { h };
    proof {
        assert(w <= w * h && h <= w * h) by (nonlinear_arith)
            requires
                0 < w,
                0 < h,
        ;
        assert(image.planes@[0].data@.len() == image.planes@[0].data.len());
    }
    let n: usize = image.planes[0].data.len();
    let mut data: Vec<u8> = Vec::new();
    let mut k: usize = 0;
    while k < n
        invariant
            k <= n,
            n == m.data.len(),
            m == image.model(),
            m.wf(),
            image.planes@.len() == 1,
            w == m.width,
            h == m.height,
            size == pixel_size(m.pixel_format),
            o == orientation,
            1 <= o <= 8,
            dw == (if transposes(o as int) { m.height } else { m.width }),
            data@.len() == k,
            forall|j: int|
                0 <= j < k ==> #[trigger] data@[j] == m.data[stored_byte(o as int, m.width, m.height, size as int, j)],
        decreases n - k,
    {
        proof {
            lemma_stored_byte(o as int, w as int, h as int, size as int, k as int);
        }
        let cell: usize = k / size;
        let r: usize = cell / dw;
        let c: usize = cell % dw;
        let (row, col): (usize, usize) = if o == 2 {
            (r, w - 1 - c)
        } else if o == 3 {
            (h - 1 - r, w - 1 - c)
        } else if o == 4 {
            (h - 1 - r, c)
        } else if o == 5 {
            (c, r)
        } else if o == 6 {
            (h - 1 - c, r)
        } else if o == 7 {
            (h - 1 - c, w - 1 - r)
        } else if o == 8 {
            (c, w - 1 - r)
        } else {
            (r, c)
        };
        proof {
            lemma_row_byte(row as int, col as int, w as int, h as int);
            let i = row * w + col;
            assert(i <= i * size) by (nonlinear_arith)
                requires
                    0 <= i,
                    1 <= size,
            ;
            assert(0 <= row * w <= i);
        }
        data.push(image.planes[0].data[(row * w + col) * size + k % size]);
        k = k + 1;
    }
    assert(data@ =~= oriented(m, orientation as int).data);
    single_plane(dw as u32, dh as u32, image.pixel_format, dw * size, data)
}

} // verus!
