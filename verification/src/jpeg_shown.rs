//! What pages of JPEG streams show, pixel by pixel, given what the streams decode to.
use vstd::prelude::*;
use crate::compress::min_int;
use crate::jpeg::{blank, blend_of, blended, composited, decoded_segment, is_yuv, jpeg_strips_from, jpeg_tiles_from, page_depth};
use crate::decoder::{image_of, jpeg_bytes, jpeg_picture, needed_list};
use crate::ifd::{find_spec, ByteOrder, EntryModel};
use crate::jpeg::{classified, sharing};
use crate::jpeg::{JpegPixelFormat, JpegReply};
use crate::jpeg_exact::lemma_packed;
use crate::metadata::number_of;
use crate::negatives::lemma_info;
use crate::page::{page_spec, readable, value_of};
use crate::page_fields::{law_page_fields, short};
use crate::render::{lemma_row_byte, ycbcr_byte};
use crate::segments::{lemma_tile_rows, segment_at, TileGrid};
use crate::stored::{lemma_small, listed};

verus! {

/// A byte of a plane.
pub open spec fn byte_at(p: (usize, Seq<u8>), x: int, y: int) -> u8 {
    p.1[y * p.0 + x]
}

/// How planes become pixels, by the photometric interpretation: gray samples as they are
/// for 1 and turned round for 0; RGB, for 2, from three planes or from triples; inks, for
/// 5, like those of other pages; luma and chroma, for 6, where as many pixels share their
/// chroma as the layout says. Nothing else is shown.
pub proof fn law_blend(pf: JpegPixelFormat, photometric: u16, planes: Seq<(usize, Seq<u8>)>, x: int, y: int, c: int)
    requires
        blend_of(pf, photometric) is Some,
        pf is Gray8 ==> photometric <= 1,
        0 <= c < 3,
    ensures
        ({
            let v = blended(planes, blend_of(pf, photometric).unwrap(), y, x, c);
            let share = match pf {
                JpegPixelFormat::Yuv422P => (2int, 1int),
                JpegPixelFormat::Yuv420P => (2int, 2int),
                JpegPixelFormat::Yuv411P => (4int, 1int),
                _ => (1int, 1int),
            };
            &&& photometric == 0 ==> pf is Gray8 && v == 255 - byte_at(planes[0], x, y)
            &&& photometric == 1 ==> pf is Gray8 && v == byte_at(planes[0], x, y)
            &&& photometric == 2 ==> pf is Rgb24 || pf is Yuv444P || pf is Rgb24Packed
            &&& photometric == 2 && !(pf is Rgb24Packed) ==> v == byte_at(planes[c], x, y)
            &&& photometric == 2 && pf is Rgb24Packed ==> v == byte_at(planes[0], 3 * x + c, y)
            &&& photometric == 5 ==> pf is Cmyk8 && {
                let light = (255 - byte_at(planes[0], 4 * x + c, y)) * (255 - byte_at(planes[0], 4 * x + 3, y));
                255 * v <= light < 255 * (v + 1)
            }
            &&& photometric == 6 ==> is_yuv(pf) && v == ycbcr_byte(
                byte_at(planes[0], x, y),
                byte_at(planes[1], x / share.0, y / share.1),
                byte_at(planes[2], x / share.0, y / share.1),
                c,
            )
            &&& photometric <= 2 || photometric == 5 || photometric == 6
        }),
{
    if photometric == 5 {
        let a = 255 - byte_at(planes[0], 4 * x + c, y);
        let b = 255 - byte_at(planes[0], 4 * x + 3, y);
        assert(0 <= a * b <= 65025) by (nonlinear_arith)
            requires
                0 <= a <= 255,
                0 <= b <= 255,
        ;
    }
}

/// A strip or tile that is put into a picture changes the pixels of its rectangle, which
/// become its own, and no others.
pub proof fn law_put_in(
    dst: Seq<u8>,
    width: int,
    x0: int,
    y0: int,
    seg: (JpegPixelFormat, Seq<(usize, Seq<u8>)>),
    photometric: u16,
    w: int,
    h: int,
    x: int,
    y: int,
    c: int,
)
    requires
        composited(dst, width * page_depth(photometric), x0, y0, Some(seg), photometric, w, h) is Some,
        seg.0 is Gray8 <==> photometric <= 1,
        0 <= x0,
        0 <= y0,
        0 <= x < width,
        0 <= y,
        0 <= c < page_depth(photometric),
        (y * width + x) * page_depth(photometric) + c < dst.len(),
    ensures
        ({
            let n = page_depth(photometric);
            let d = composited(dst, width * n, x0, y0, Some(seg), photometric, w, h).unwrap();
            let k = (y * width + x) * n + c;
            &&& n == (if photometric <= 1 { 1int } else { 3 })
            &&& d.len() == dst.len()
            &&& blend_of(seg.0, photometric) is Some
            &&& x0 <= x < x0 + w && y0 <= y < y0 + h ==> d[k] == blended(
                seg.1,
                blend_of(seg.0, photometric).unwrap(),
                y - y0,
                x - x0,
                c,
            )
            &&& !(x0 <= x < x0 + w && y0 <= y < y0 + h) ==> d[k] == dst[k]
        }),
{
    let n = page_depth(photometric);
    let b = blend_of(seg.0, photometric).unwrap();
    let stride = width * n;
    let k = (y * width + x) * n + c;
    assert(b.depth() == n);
    let j = n * x + c;
    assert(k == y * stride + j && 0 <= j < stride) by (nonlinear_arith)
        requires
            k == (y * width + x) * n + c,
            stride == width * n,
            j == n * x + c,
            0 <= x < width,
            0 <= c < n,
    ;
    lemma_packed(y, stride, j);
    assert(0 <= k) by (nonlinear_arith)
        requires
            k == y * stride + j,
            0 <= y,
            0 <= j < stride,
    ;
    let u = x - x0;
    assert(j - n * x0 == n * u + c) by (nonlinear_arith)
        requires
            j == n * x + c,
            u == x - x0,
    ;
    assert(0 <= u < w <==> 0 <= n * u + c < n * w) by (nonlinear_arith)
        requires
            0 <= c < n,
    ;
    assert(n * u == u * n) by (nonlinear_arith);
    lemma_packed(u, n, c);
}

// ----------------------------------------------------------------------
// Tiles
// ----------------------------------------------------------------------

/// A pixel of a page in tiles is put there by its tile.
proof fn lemma_tiles_pixel(
    input: Seq<u8>,
    offsets: Seq<int>,
    counts: Seq<int>,
    i: int,
    dst: Seq<u8>,
    tables: Option<Seq<u8>>,
    t: TileGrid,
    photometric: u16,
    replies: Seq<JpegReply>,
    x: int,
    y: int,
    c: int,
)
    requires
        photometric <= 2 || photometric == 5 || photometric == 6,
        t.tile_w > 0,
        t.tile_h > 0,
        offsets.len() == t.across() * t.down(),
        0 <= i <= offsets.len(),
        0 <= x < t.width,
        0 <= y < t.height,
        0 <= c < page_depth(photometric),
        dst.len() == t.width * t.height * page_depth(photometric),
        jpeg_tiles_from(input, offsets, counts, i, dst, tables, t, photometric, replies) is Some,
    ensures
        ({
            let n = page_depth(photometric);
            let s = jpeg_tiles_from(input, offsets, counts, i, dst, tables, t, photometric, replies).unwrap();
            let k = y / (t.tile_h as int) * t.across() + x / (t.tile_w as int);
            let at = (y * t.width + x) * n + c;
            &&& 0 <= at < dst.len()
            &&& s.len() == dst.len()
            &&& 0 <= k < offsets.len()
            &&& k < i ==> s[at] == dst[at]
            &&& k >= i ==> (segment_at(input, offsets[k], counts[k]) matches Some(raw) && (decoded_segment(
                tables,
                raw,
                t.tile_w as int,
                t.tile_h as int,
                photometric,
                replies[k],
            ) matches Some(seg) && blend_of(seg.0, photometric) is Some && s[at] == blended(
                seg.1,
                blend_of(seg.0, photometric).unwrap(),
                y % (t.tile_h as int),
                x % (t.tile_w as int),
                c,
            )))
        }),
    decreases offsets.len() - i,
{
    let n = page_depth(photometric);
    let tw = t.tile_w as int;
    let th = t.tile_h as int;
    let across = t.across();
    let k = y / th * across + x / tw;
    let at = (y * t.width + x) * n + c;
    lemma_tile_rows(y, t.height as int, th);
    lemma_tile_rows(x, t.width as int, tw);
    assert(0 <= k < across * t.down()) by (nonlinear_arith)
        requires
            k == y / th * across + x / tw,
            0 <= x / tw < across,
            0 <= y / th < t.down(),
    ;
    lemma_row_byte(y, x, t.width as int, t.height as int);
    assert(t.height * t.width == t.width * t.height) by (nonlinear_arith);
    lemma_row_byte(y * t.width + x, c, n, t.width * t.height);
    if i < offsets.len() {
        let x0 = i % across * tw;
        let y0 = i / across * th;
        let w = min_int(tw, t.width - x0);
        let h = min_int(th, t.height - y0);
        let raw = segment_at(input, offsets[i], counts[i]).unwrap();
        let seg = decoded_segment(tables, raw, tw, th, photometric, replies[i]).unwrap();
        vstd::arithmetic::div_mod::lemma_fundamental_div_mod(i, across);
        vstd::arithmetic::div_mod::lemma_mod_bound(i, across);
        lemma_packed(y / th, across, x / tw);
        let (ix, iy) = (i % across, i / across);
        assert(0 <= iy) by {
            vstd::arithmetic::div_mod::lemma_div_pos_is_pos(i, across);
        }
        assert(0 <= x0 && 0 <= y0) by (nonlinear_arith)
            requires
                x0 == ix * tw,
                y0 == iy * th,
                0 <= ix,
                0 <= iy,
                0 < tw,
                0 < th,
        ;
        law_put_in(dst, t.width as int, x0, y0, seg, photometric, w, h, x, y, c);
        let d = composited(dst, t.width * n, x0, y0, Some(seg), photometric, w, h).unwrap();
        lemma_tiles_pixel(input, offsets, counts, i + 1, d, tables, t, photometric, replies, x, y, c);
        lemma_in_cell(x, ix, tw);
        lemma_in_cell(y, iy, th);
        assert(across * iy == iy * across) by (nonlinear_arith);
        assert(k == i <==> (ix == x / tw && iy == y / th)) by {
            if k == i {
                assert(i % across == x / tw && i / across == y / th);
            }
        }
    }
}

proof fn lemma_in_cell(x: int, i: int, d: int)
    requires
        0 <= x,
        0 < d,
    ensures
        i * d <= x < i * d + d <==> x / d == i,
        x / d == i ==> x - i * d == x % d,
{
    vstd::arithmetic::div_mod::lemma_fundamental_div_mod(x, d);
    vstd::arithmetic::div_mod::lemma_mod_bound(x, d);
    let q = x / d;
    assert(d * q == q * d) by (nonlinear_arith);
    if i * d <= x < i * d + d {
        assert(q == i) by (nonlinear_arith)
            requires
                i * d <= x < i * d + d,
                x == q * d + x % d,
                0 <= x % d < d,
        ;
    }
}

/// A pixel of a page in tiles shows the pixel of its tile, tiles counted row by row, at its
/// column mod the width and its row mod the height of a tile.
pub proof fn law_tiles_shown(
    input: Seq<u8>,
    offsets: Seq<int>,
    counts: Seq<int>,
    tables: Option<Seq<u8>>,
    t: TileGrid,
    photometric: u16,
    replies: Seq<JpegReply>,
    x: int,
    y: int,
    c: int,
)
    requires
        photometric <= 2 || photometric == 5 || photometric == 6,
        t.tile_w > 0,
        t.tile_h > 0,
        offsets.len() == t.across() * t.down(),
        0 <= x < t.width,
        0 <= y < t.height,
        0 <= c < (if photometric <= 1 { 1int } else { 3 }),
        jpeg_tiles_from(
            input,
            offsets,
            counts,
            0,
            blank(t.width * t.height * page_depth(photometric)),
            tables,
            t,
            photometric,
            replies,
        ) is Some,
    ensures
        ({
            let n: int = if photometric <= 1 { 1 } else { 3 };
            let s = jpeg_tiles_from(
                input,
                offsets,
                counts,
                0,
                blank(t.width * t.height * page_depth(photometric)),
                tables,
                t,
                photometric,
                replies,
            ).unwrap();
            let tw = t.tile_w as int;
            let th = t.tile_h as int;
            let k = y / th * ((t.width + tw - 1) / tw) + x / tw;
            &&& 0 <= k < offsets.len()
            &&& offsets[k] + counts[k] <= input.len()
            &&& decoded_segment(
                tables,
                input.subrange(offsets[k], offsets[k] + counts[k]),
                tw,
                th,
                photometric,
                replies[k],
            ) matches Some(seg)
            &&& blend_of(seg.0, photometric) matches Some(b)
            &&& s[(y * t.width + x) * n + c] == blended(seg.1, b, y % th, x % tw, c)
        }),
{
    let n = page_depth(photometric);
    let dst = blank(t.width * t.height * n);
    assert(0 <= t.width * t.height * n) by (nonlinear_arith)
        requires
            0 <= t.width,
            0 <= t.height,
            0 <= n,
    ;
    lemma_tiles_pixel(input, offsets, counts, 0, dst, tables, t, photometric, replies, x, y, c);
}

// ----------------------------------------------------------------------
// Strips
// ----------------------------------------------------------------------

proof fn lemma_strips_pixel(
    input: Seq<u8>,
    offsets: Seq<int>,
    counts: Seq<int>,
    i: int,
    done: int,
    dst: Seq<u8>,
    tables: Option<Seq<u8>>,
    width: int,
    height: int,
    r: int,
    photometric: u16,
    replies: Seq<JpegReply>,
    x: int,
    y: int,
    c: int,
)
    requires
        photometric <= 2 || photometric == 5 || photometric == 6,
        0 <= i,
        0 < width,
        0 < height,
        0 <= r,
        done == i * r || done == height,
        0 <= done <= height,
        0 <= x < width,
        0 <= y < height,
        0 <= c < page_depth(photometric),
        dst.len() == width * height * page_depth(photometric),
        jpeg_strips_from(input, offsets, counts, i, done, dst, tables, width, height, r, photometric, replies) is Some,
    ensures
        ({
            let n = page_depth(photometric);
            let s = jpeg_strips_from(input, offsets, counts, i, done, dst, tables, width, height, r, photometric, replies).unwrap();
            let k = y / r;
            let rows = min_int(r, height - k * r);
            let at = (y * width + x) * n + c;
            &&& 0 <= at < dst.len()
            &&& s.len() == dst.len()
            &&& y < done ==> s[at] == dst[at]
            &&& y >= done ==> r > 0 && i <= k < offsets.len() && (segment_at(input, offsets[k], counts[k]) matches Some(raw) && (
            decoded_segment(tables, raw, width, rows, photometric, replies[k]) matches Some(seg) && blend_of(
                seg.0,
                photometric,
            ) is Some && s[at] == blended(seg.1, blend_of(seg.0, photometric).unwrap(), y % r, x, c)))
        }),
    decreases offsets.len() - i,
{
    let n = page_depth(photometric);
    let at = (y * width + x) * n + c;
    lemma_row_byte(y, x, width, height);
    assert(height * width == width * height) by (nonlinear_arith);
    lemma_row_byte(y * width + x, c, n, width * height);
    if done < height {
        let rows = min_int(r, height - done);
        let raw = segment_at(input, offsets[i], counts[i]).unwrap();
        let seg = decoded_segment(tables, raw, width, rows, photometric, replies[i]).unwrap();
        law_put_in(dst, width, 0, done, seg, photometric, width, rows, x, y, c);
        let d = composited(dst, width * n, 0, done, Some(seg), photometric, width, rows).unwrap();
        assert(done + r == (i + 1) * r) by (nonlinear_arith)
            requires
                done == i * r,
        ;
        assert(jpeg_strips_from(input, offsets, counts, i + 1, done + rows, d, tables, width, height, r, photometric, replies) is Some);
        lemma_strips_pixel(input, offsets, counts, i + 1, done + rows, d, tables, width, height, r, photometric, replies, x, y, c);
        if done <= y < done + rows {
            assert(r > 0);
            lemma_in_cell(y, i, r);
        } else if y >= done + rows {
            lemma_in_cell(y, i, r);
        }
    }
}

/// A pixel of a page in strips shows the pixel of its strip at its column and its row mod
/// the rows of a strip; the last strip has the rows that are left.
pub proof fn law_strips_shown(
    input: Seq<u8>,
    offsets: Seq<int>,
    counts: Seq<int>,
    tables: Option<Seq<u8>>,
    width: int,
    height: int,
    r: int,
    photometric: u16,
    replies: Seq<JpegReply>,
    x: int,
    y: int,
    c: int,
)
    requires
        photometric <= 2 || photometric == 5 || photometric == 6,
        0 <= r,
        0 <= x < width,
        0 <= y < height,
        0 <= c < (if photometric <= 1 { 1int } else { 3 }),
        jpeg_strips_from(
            input,
            offsets,
            counts,
            0,
            0,
            blank(width * height * page_depth(photometric)),
            tables,
            width,
            height,
            r,
            photometric,
            replies,
        ) is Some,
    ensures
        ({
            let n: int = if photometric <= 1 { 1 } else { 3 };
            let s = jpeg_strips_from(
                input,
                offsets,
                counts,
                0,
                0,
                blank(width * height * page_depth(photometric)),
                tables,
                width,
                height,
                r,
                photometric,
                replies,
            ).unwrap();
            let k = y / r;
            let left = height - k * r;
            let rows = if left < r { left } else { r };
            &&& r > 0
            &&& 0 <= k < offsets.len()
            &&& offsets[k] + counts[k] <= input.len()
            &&& decoded_segment(
                tables,
                input.subrange(offsets[k], offsets[k] + counts[k]),
                width,
                rows,
                photometric,
                replies[k],
            ) matches Some(seg)
            &&& blend_of(seg.0, photometric) matches Some(b)
            &&& s[(y * width + x) * n + c] == blended(seg.1, b, y % r, x, c)
        }),
{
    let n = page_depth(photometric);
    assert(0 <= width * height * n) by (nonlinear_arith)
        requires
            0 <= width,
            0 <= height,
            0 <= n,
    ;
    assert(0 * r == 0);
    lemma_strips_pixel(
        input,
        offsets,
        counts,
        0,
        0,
        blank(width * height * n),
        tables,
        width,
        height,
        r,
        photometric,
        replies,
        x,
        y,
        c,
    );
}

// ----------------------------------------------------------------------
// Layouts and fields
// ----------------------------------------------------------------------

/// The layout of three planes of luma and chroma says how many pixels across share their
/// chroma, which is how many times as wide the rows of luma are, and that two pixels down
/// share it where the rows of chroma are half as wide and there are fewer than rows of
/// pixels.
pub proof fn law_layout(planes: Seq<(usize, Seq<u8>)>, w: int, h: int)
    requires
        planes.len() == 3,
        0 < w,
        0 < h,
        planes[0].0 >= w,
        planes[1].0 > 0,
    ensures
        classified(planes, w, h, 6) matches Some(pf) ==> {
            &&& is_yuv(pf)
            &&& sharing(pf).0 == 1 || sharing(pf).0 == 2 || sharing(pf).0 == 4
            &&& sharing(pf).0 == 1 ==> planes[0].0 == planes[1].0
            &&& sharing(pf).0 == 2 ==> planes[0].0 == 2 * planes[1].0
            &&& sharing(pf).0 == 4 ==> planes[0].0 == 4 * planes[1].0
            &&& sharing(pf).1 == (if sharing(pf).0 == 2 && planes[1].1.len() < h * planes[1].0 { 2int } else { 1 })
        },
        classified(planes, w, h, 6) is None <==> planes[0].0 != planes[1].0 && planes[0].0 != 2 * planes[1].0 && planes[0].0
            != 4 * planes[1].0,
{
    let d = planes[1].0 as int;
    let n = planes[1].1.len() as int;
    vstd::arithmetic::div_mod::lemma_fundamental_div_mod(n, d);
    vstd::arithmetic::div_mod::lemma_mod_bound(n, d);
    let q = n / d;
    assert(q >= h <==> n >= h * d) by (nonlinear_arith)
        requires
            n == d * q + n % d,
            0 <= n % d < d,
    ;
}

/// Where a page of JPEG streams (7 under tag 259) stands in a file: tiles, where there is a
/// field with tag 322, at the places under tag 324, strips at those under tag 273, and the
/// tables that all of them share under tag 347. It is shown as it is stored.
pub proof fn law_jpeg_page(
    input: Seq<u8>,
    es: Seq<EntryModel>,
    bo: ByteOrder,
    replies: Seq<JpegReply>,
    offsets: Seq<int>,
    counts: Seq<int>,
)
    requires
        image_of(input, es, bo, replies) is Ok,
        short(es, bo, 259, 1) == 7,
        listed(es, bo, if find_spec(es, 322) is Some { 324 } else { 273 }, offsets),
        listed(es, bo, if find_spec(es, 322) is Some { 325 } else { 279 }, counts),
    ensures
        ({
            let p = page_spec(es, bo)->Ok_0;
            let m = image_of(input, es, bo, replies)->Ok_0;
            let n: int = if p.photometric <= 1 { 1 } else { 3 };
            let tables = match find_spec(es, 347) {
                Some(e) => Some(e.data),
                None => None,
            };
            &&& p.bps == 8 && p.planar == 1
            &&& m.width == p.width && m.height == p.height
            &&& m.pixel_format is Gray8 <==> n == 1
            &&& m.pixel_format is Rgb24 <==> n == 3
            &&& find_spec(es, 322) is None ==> jpeg_strips_from(
                input,
                offsets,
                counts,
                0,
                0,
                blank(p.width * p.height * n),
                tables,
                p.width as int,
                p.height as int,
                match number_of(es, bo, 278) {
                    Some(r) => r,
                    None => p.height as int,
                },
                p.photometric,
                replies,
            ) == Some(m.data)
            &&& find_spec(es, 322) is Some ==> (number_of(es, bo, 322) matches Some(tw) && (number_of(es, bo, 323) matches Some(th)
                && tw > 0 && th > 0 && jpeg_tiles_from(
                input,
                offsets,
                counts,
                0,
                blank(p.width * p.height * n),
                tables,
                TileGrid { width: p.width, height: p.height, tile_w: tw as u32, tile_h: th as u32 },
                p.photometric,
                replies,
            ) == Some(m.data)))
        }),
{
    law_page_fields(es, bo);
    lemma_info(es, bo);
    reveal(needed_list);
    reveal(readable);
    reveal(value_of);
    lemma_small(es, bo, 322);
    lemma_small(es, bo, 323);
    let p = page_spec(es, bo)->Ok_0;
    assert(jpeg_picture(p, jpeg_bytes(input, es, bo, p, replies)) is Ok);
    assert(page_depth(p.photometric) == (if p.photometric <= 1 { 1int } else { 3 }));
}

} // verus!
