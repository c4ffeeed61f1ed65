//! Pages that are neither packed nor differenced, from the bytes of a file to the pixels
//! of the picture.
use vstd::prelude::*;
use crate::decoder::{enough, image_of, samples_of};
use crate::ifd::{find_spec, ByteOrder, EntryModel};
use crate::jpeg::JpegReply;
use crate::jpeg_exact::lemma_packed;
use crate::metadata::number_of;
use crate::negatives::lemma_info;
use crate::page::{info_ok, page_spec, PageInfo};
use crate::page_fields::{law_page_fields, short};
use crate::render::lemma_row_byte;
use crate::segments::{lemma_strips_size, row_bytes_of, stored_block, Coding};
use crate::shown::{law_gray8, law_rgb8, plain, shown};
use crate::stored::{law_plain_block, law_strips, law_tiles, listed, packing};

verus! {

/// Fields of an upright gray or RGB page of unsigned samples of 8 bits, `n` for each pixel,
/// that are stored together, not packed and not differenced: 1 or 2 under tag 262, and what
/// is usual or nothing under the tags of what else could be.
pub open spec fn plain_fields(es: Seq<EntryModel>, bo: ByteOrder, n: int) -> bool {
    &&& short(es, bo, 258, 1) == 8
    &&& short(es, bo, 259, 1) == 1
    &&& short(es, bo, 274, 1) == 1
    &&& short(es, bo, 277, 1) == n
    &&& short(es, bo, 284, 1) == 1
    &&& short(es, bo, 317, 1) == 1
    &&& short(es, bo, 339, 1) == 1
    &&& (number_of(es, bo, 262) == Some(1int) && n == 1) || (number_of(es, bo, 262) == Some(2int) && n >= 3)
}

/// The colours of a pixel that are shown.
pub open spec fn colours(n: int) -> int {
    if n == 1 { 1 } else { 3 }
}

/// The samples that a page shows.
#[verifier::rlimit(40)]
proof fn lemma_plain_shown(
    input: Seq<u8>,
    es: Seq<EntryModel>,
    bo: ByteOrder,
    replies: Seq<JpegReply>,
    n: int,
    x: int,
    y: int,
    c: int,
)
    requires
        image_of(input, es, bo, replies) is Ok,
        plain_fields(es, bo, n),
        0 <= c < colours(n),
        0 <= x < page_spec(es, bo)->Ok_0.width,
        0 <= y < page_spec(es, bo)->Ok_0.height,
        samples_of(input, es, bo, page_spec(es, bo)->Ok_0) matches Some(buf) ==> enough(page_spec(es, bo)->Ok_0, buf.len() as int),
    ensures
        ({
            let p = page_spec(es, bo)->Ok_0;
            let m = image_of(input, es, bo, replies)->Ok_0;
            let k = y * p.width + x;
            &&& info_ok(p)
            &&& p.samples == n && p.planar == 1 && p.bps == 8 && p.compression == 1 && p.predictor == 1
            &&& m.width == p.width && m.height == p.height
            &&& samples_of(input, es, bo, p) matches Some(buf)
            &&& m.data[colours(n) * k + c] == buf[k * n + c]
        }),
{
    law_page_fields(es, bo);
    lemma_info(es, bo);
    let p = page_spec(es, bo)->Ok_0;
    let buf = samples_of(input, es, bo, p).unwrap();
    assert(plain(p, buf));
    if n == 1 {
        law_gray8(p, es, bo, buf, x, y);
    } else {
        law_rgb8(p, es, bo, buf, x, y, c);
    }
}

/// The bytes of strips or tiles are those of the page.
proof fn lemma_enough(input: Seq<u8>, es: Seq<EntryModel>, bo: ByteOrder, p: PageInfo)
    requires
        info_ok(p),
        p.bps == 8,
        p.planar == 1,
        number_of(es, bo, 262) matches Some(x) && x != 6,
    ensures
        samples_of(input, es, bo, p) matches Some(buf) ==> enough(p, buf.len() as int),
{
    reveal(crate::page::readable);
    reveal(crate::page::value_of);
    let c = packing(p, bo, p.samples);
    let w = p.width as int;
    let n = w * p.samples;
    assert(n * 8 + 7 == 8 * n + 7);
    assert(row_bytes_of(w, c) == n);
    assert(n >= 0) by (nonlinear_arith)
        requires
            n == w * p.samples,
            w >= 0,
            p.samples >= 0,
    ;
    assert(n * p.height == w * p.height * p.samples * 1) by (nonlinear_arith)
        requires
            n == w * p.samples,
    ;
    assert(n * p.height >= 0) by (nonlinear_arith)
        requires
            n >= 0,
            p.height >= 0,
    ;
    if find_spec(es, 322) is None && samples_of(input, es, bo, p) is Some {
        let pl = crate::decoder::places(es, bo, 273, 279).unwrap();
        let r = crate::page::value_of(es, bo, 278, p.height as int);
        let g = crate::segments::StripGrid { width: p.width, height: p.height, rows_per_strip: r as u32, units: None };
        lemma_strips_size(input, pl.0, pl.1, 0, pl.0.len() as int, 0, Seq::empty(), g, c);
    }
}

/// Where the pixels of a plain page in strips come from: sample `c` of the pixel at column
/// `x` and row `y` is the byte of the file at the place of strip `y` divided by the rows of
/// a strip (under tag 273 and 278), after `y` mod them whole rows and `x` whole pixels.
pub proof fn law_plain_strips(
    input: Seq<u8>,
    es: Seq<EntryModel>,
    bo: ByteOrder,
    replies: Seq<JpegReply>,
    offsets: Seq<int>,
    counts: Seq<int>,
    n: int,
    x: int,
    y: int,
    c: int,
)
    requires
        image_of(input, es, bo, replies) is Ok,
        plain_fields(es, bo, n),
        find_spec(es, 322) is None,
        listed(es, bo, 273, offsets),
        listed(es, bo, 279, counts),
        0 <= c < colours(n),
        number_of(es, bo, 256) matches Some(w) && 0 <= x < w,
        number_of(es, bo, 257) matches Some(h) && 0 <= y < h,
    ensures
        ({
            let m = image_of(input, es, bo, replies)->Ok_0;
            let w = number_of(es, bo, 256).unwrap();
            let h = number_of(es, bo, 257).unwrap();
            let r = match number_of(es, bo, 278) {
                Some(v) => v,
                None => h,
            };
            &&& m.width == w && m.height == h
            &&& r > 0 && 0 <= y / r < offsets.len()
            &&& m.data[(y * w + x) * colours(n) + c] == input[offsets[y / r] + (y % r * w + x) * n + c]
        }),
{
    law_page_fields(es, bo);
    lemma_info(es, bo);
    let p = page_spec(es, bo)->Ok_0;
    let w = p.width as int;
    lemma_enough(input, es, bo, p);
    lemma_plain_shown(input, es, bo, replies, n, x, y, c);
    lemma_strip_source(input, es, bo, p, offsets, counts, n, x, y, c);
    let q = colours(n);
    assert((y * w + x) * q == q * (y * w + x)) by (nonlinear_arith);
}

proof fn lemma_strip_source(
    input: Seq<u8>,
    es: Seq<EntryModel>,
    bo: ByteOrder,
    p: PageInfo,
    offsets: Seq<int>,
    counts: Seq<int>,
    n: int,
    x: int,
    y: int,
    c: int,
)
    requires
        info_ok(p),
        p.samples == n,
        p.planar == 1,
        p.bps == 8,
        p.compression == 1,
        p.predictor == 1,
        find_spec(es, 322) is None,
        listed(es, bo, 273, offsets),
        listed(es, bo, 279, counts),
        number_of(es, bo, 262) matches Some(v) && v != 6,
        samples_of(input, es, bo, p) is Some,
        0 <= x < p.width,
        0 <= y < p.height,
        0 <= c < n,
    ensures
        ({
            let w = p.width as int;
            let r = match number_of(es, bo, 278) {
                Some(v) => v,
                None => p.height as int,
            };
            &&& r > 0 && 0 <= y / r < offsets.len()
            &&& samples_of(input, es, bo, p).unwrap()[(y * w + x) * n + c] == input[offsets[y / r] + (y % r * w + x) * n + c]
        }),
{
    let w = p.width as int;
    let row = w * n;
    assert((w * p.samples * p.bps + 7) / 8 == row) by {
        assert(w * p.samples * p.bps == 8 * row) by (nonlinear_arith)
            requires
                p.samples == n,
                p.bps == 8,
                row == w * n,
        ;
    }
    let j = x * n + c;
    assert(0 <= j < row) by (nonlinear_arith)
        requires
            j == x * n + c,
            0 <= x < w,
            0 <= c < n,
            row == w * n,
    ;
    law_strips(input, es, bo, p, offsets, counts, y, j);
    let r = match number_of(es, bo, 278) {
        Some(v) => v,
        None => p.height as int,
    };
    let k = y / r;
    let left = p.height - k * r;
    let rows = if left < r { left } else { r };
    lemma_places(es, bo, 273, offsets, k);
    lemma_places(es, bo, 279, counts, k);
    let b = stored_block(input, offsets[k], counts[k], row * rows, w, rows, packing(p, bo, p.samples)).unwrap();
    lemma_strip_read(input, offsets[k], counts[k], packing(p, bo, p.samples), b, w, p.height as int, r, n, x, y, c);
    assert(y * row + j == (y * w + x) * n + c) by (nonlinear_arith)
        requires
            row == w * n,
            j == x * n + c,
    ;
}

proof fn lemma_strip_read(
    input: Seq<u8>,
    offset: int,
    count: int,
    g: Coding,
    b: Seq<u8>,
    w: int,
    h: int,
    r: int,
    n: int,
    x: int,
    y: int,
    c: int,
)
    requires
        g.compression == 1,
        g.predictor == 1,
        g.bps == 8,
        0 <= offset,
        0 <= count,
        0 <= x < w,
        0 <= y < h,
        0 < r,
        0 <= c < n,
        ({
            let left = h - y / r * r;
            let rows = if left < r { left } else { r };
            stored_block(input, offset, count, w * n * rows, w, rows, g) == Some(b)
        }),
    ensures
        b[y % r * (w * n) + (x * n + c)] == input[offset + (y % r * w + x) * n + c],
{
    let k = y / r;
    let left = h - k * r;
    let rows = if left < r { left } else { r };
    let row = w * n;
    let j = x * n + c;
    vstd::arithmetic::div_mod::lemma_fundamental_div_mod(y, r);
    vstd::arithmetic::div_mod::lemma_mod_bound(y, r);
    assert(r * k == k * r) by (nonlinear_arith);
    assert(0 <= j < row) by (nonlinear_arith)
        requires
            j == x * n + c,
            0 <= x < w,
            0 <= c < n,
            row == w * n,
    ;
    lemma_row_byte(y % r, j, row, rows);
    assert(rows * row == row * rows) by (nonlinear_arith);
    law_plain_block(input, offset, count, row * rows, w, rows, g, y % r * row + j);
    assert(y % r * row + j == (y % r * w + x) * n + c) by (nonlinear_arith)
        requires
            row == w * n,
            j == x * n + c,
    ;
}

proof fn lemma_places(es: Seq<EntryModel>, bo: ByteOrder, tag: u16, v: Seq<int>, k: int)
    requires
        listed(es, bo, tag, v),
        0 <= k < v.len(),
    ensures
        0 <= v[k],
        v.len() == find_spec(es, tag).unwrap().count,
{
}

/// Where the pixels of a plain page in tiles come from: sample `c` of the pixel at column
/// `x` and row `y` is the byte of the file at the place of the tile that covers it (under
/// tag 324, counted row by row), after `y` mod its height whole rows of a tile and `x` mod
/// its width whole pixels.
pub proof fn law_plain_tiles(
    input: Seq<u8>,
    es: Seq<EntryModel>,
    bo: ByteOrder,
    replies: Seq<JpegReply>,
    offsets: Seq<int>,
    counts: Seq<int>,
    n: int,
    x: int,
    y: int,
    c: int,
)
    requires
        image_of(input, es, bo, replies) is Ok,
        plain_fields(es, bo, n),
        number_of(es, bo, 322) is Some,
        number_of(es, bo, 323) is Some,
        listed(es, bo, 324, offsets),
        listed(es, bo, 325, counts),
        0 <= c < colours(n),
        number_of(es, bo, 256) matches Some(w) && 0 <= x < w,
        number_of(es, bo, 257) matches Some(h) && 0 <= y < h,
    ensures
        ({
            let m = image_of(input, es, bo, replies)->Ok_0;
            let w = number_of(es, bo, 256).unwrap();
            let h = number_of(es, bo, 257).unwrap();
            let tw = number_of(es, bo, 322).unwrap();
            let th = number_of(es, bo, 323).unwrap();
            let k = y / th * ((w + tw - 1) / tw) + x / tw;
            &&& m.width == w && m.height == h
            &&& tw > 0 && th > 0 && 0 <= k < offsets.len()
            &&& m.data[(y * w + x) * colours(n) + c] == input[offsets[k] + (y % th * tw + x % tw) * n + c]
        }),
{
    law_page_fields(es, bo);
    lemma_info(es, bo);
    let p = page_spec(es, bo)->Ok_0;
    let w = p.width as int;
    lemma_tile_enough(input, es, bo, p);
    lemma_plain_shown(input, es, bo, replies, n, x, y, c);
    lemma_tile_source(
        input,
        es,
        bo,
        p,
        offsets,
        counts,
        number_of(es, bo, 322).unwrap(),
        number_of(es, bo, 323).unwrap(),
        n,
        x,
        y,
        c,
    );
    let q = colours(n);
    assert((y * w + x) * q == q * (y * w + x)) by (nonlinear_arith);
}

proof fn lemma_tile_source(
    input: Seq<u8>,
    es: Seq<EntryModel>,
    bo: ByteOrder,
    p: PageInfo,
    offsets: Seq<int>,
    counts: Seq<int>,
    tw: int,
    th: int,
    n: int,
    x: int,
    y: int,
    c: int,
)
    requires
        info_ok(p),
        p.samples == n,
        p.planar == 1,
        p.bps == 8,
        p.compression == 1,
        p.predictor == 1,
        number_of(es, bo, 322) == Some(tw),
        number_of(es, bo, 323) == Some(th),
        listed(es, bo, 324, offsets),
        listed(es, bo, 325, counts),
        samples_of(input, es, bo, p) is Some,
        0 <= x < p.width,
        0 <= y < p.height,
        0 <= c < n,
    ensures
        ({
            let w = p.width as int;
            let k = y / th * ((w + tw - 1) / tw) + x / tw;
            &&& tw > 0 && th > 0 && 0 <= k < offsets.len()
            &&& samples_of(input, es, bo, p).unwrap()[(y * w + x) * n + c] == input[offsets[k] + (y % th * tw + x % tw) * n + c]
        }),
{
    let w = p.width as int;
    let row = w * n;
    let cell = tw * n;
    assert(w * p.samples * p.bps == 8 * row) by (nonlinear_arith)
        requires
            p.samples == n,
            p.bps == 8,
            row == w * n,
    ;
    assert(tw * p.samples * p.bps == 8 * cell) by (nonlinear_arith)
        requires
            p.samples == n,
            p.bps == 8,
            cell == tw * n,
    ;
    assert((w * p.samples * p.bps + 7) / 8 == row && (tw * p.samples * p.bps + 7) / 8 == cell);
    let j = x * n + c;
    assert(0 <= j < row) by (nonlinear_arith)
        requires
            j == x * n + c,
            0 <= x < w,
            0 <= c < n,
            row == w * n,
    ;
    law_tiles(input, es, bo, p, offsets, counts, tw, th, y, j);
    let k = y / th * ((w + tw - 1) / tw) + x / tw;
    assert(x / tw == j / cell) by {
        lemma_in_tile(x, tw, n, c);
    }
    lemma_places(es, bo, 324, offsets, k);
    lemma_places(es, bo, 325, counts, k);
    let b = stored_block(input, offsets[k], counts[k], cell * th, tw, th, packing(p, bo, p.samples)).unwrap();
    lemma_tile_read(input, offsets[k], counts[k], packing(p, bo, p.samples), b, tw, th, n, x, y, c);
    assert(y * row + j == (y * w + x) * n + c) by (nonlinear_arith)
        requires
            row == w * n,
            j == x * n + c,
    ;
}

proof fn lemma_in_tile(x: int, tw: int, n: int, c: int)
    requires
        0 <= x,
        0 < tw,
        0 <= c < n,
    ensures
        (x * n + c) / (tw * n) == x / tw,
        (x * n + c) % (tw * n) == x % tw * n + c,
        0 <= x % tw * n + c < tw * n,
        0 <= x % tw < tw,
{
    vstd::arithmetic::div_mod::lemma_fundamental_div_mod(x, tw);
    vstd::arithmetic::div_mod::lemma_mod_bound(x, tw);
    let cell = tw * n;
    let u = x % tw * n + c;
    assert(x * n + c == x / tw * cell + u && 0 <= u < cell) by (nonlinear_arith)
        requires
            x == tw * (x / tw) + x % tw,
            0 <= x % tw < tw,
            0 <= c < n,
            cell == tw * n,
            u == x % tw * n + c,
    ;
    lemma_packed(x / tw, cell, u);
}

proof fn lemma_tile_read(
    input: Seq<u8>,
    offset: int,
    count: int,
    g: Coding,
    b: Seq<u8>,
    tw: int,
    th: int,
    n: int,
    x: int,
    y: int,
    c: int,
)
    requires
        g.compression == 1,
        g.predictor == 1,
        g.bps == 8,
        0 <= offset,
        0 <= count,
        0 <= x,
        0 <= y,
        0 < tw,
        0 < th,
        0 <= c < n,
        stored_block(input, offset, count, tw * n * th, tw, th, g) == Some(b),
    ensures
        b[y % th * (tw * n) + (x * n + c) % (tw * n)] == input[offset + (y % th * tw + x % tw) * n + c],
{
    lemma_in_tile(x, tw, n, c);
    vstd::arithmetic::div_mod::lemma_mod_bound(y, th);
    let cell = tw * n;
    let u = x % tw * n + c;
    lemma_row_byte(y % th, u, cell, th);
    assert(th * cell == cell * th) by (nonlinear_arith);
    law_plain_block(input, offset, count, cell * th, tw, th, g, y % th * cell + u);
    assert(y % th * cell + u == (y % th * tw + x % tw) * n + c) by (nonlinear_arith)
        requires
            cell == tw * n,
            u == x % tw * n + c,
    ;
}

proof fn lemma_tile_enough(input: Seq<u8>, es: Seq<EntryModel>, bo: ByteOrder, p: PageInfo)
    requires
        info_ok(p),
        p.bps == 8,
        p.planar == 1,
        find_spec(es, 322) is Some,
    ensures
        samples_of(input, es, bo, p) matches Some(buf) ==> enough(p, buf.len() as int),
{
    let c = packing(p, bo, p.samples);
    let w = p.width as int;
    let n = w * p.samples;
    assert(n * 8 + 7 == 8 * n + 7);
    assert(row_bytes_of(w, c) == n);
    assert(n * p.height == w * p.height * p.samples * 1) by (nonlinear_arith)
        requires
            n == w * p.samples,
    ;
    assert(n * p.height >= 0) by (nonlinear_arith)
        requires
            n == w * p.samples,
            w >= 0,
            p.samples >= 0,
            p.height >= 0,
    ;
}

} // verus!
