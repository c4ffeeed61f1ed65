//! Where the pixels of a page go when it is cut into strips or tiles that become JPEG
//! streams.
use vstd::prelude::*;
use crate::fields::law_numbers;
use crate::ifd::ByteOrder;
use crate::jpeg_enc::{clamped, scaled_step, ComponentModel, QUANT_CHROMINANCE_K2, QUANT_LUMINANCE_K1};
use crate::jpeg::{is_framed, merged};
use crate::jpeg_enc::{frame_stream, tables_bytes};
use crate::jpeg_exact::lemma_packed;
use crate::jpeg_wrap::{frame_of, page_coded, segment_stream, segment_tables, shared_tables};
use crate::jpeg_wrap::{box_sum, grid_count, input_ok, lemma_grid, lemma_groups, page_sample, page_segments};
use crate::jpeg_wrap::{chunky_at, planar_at, row_sum, step_tables, strip_rows, window_plane, window_sample, JpegPageInput};
use crate::jpeg_wrap::Window;
use crate::render::ceil_div;

verus! {

/// Sample `c` of a pixel as it stands in the bytes of a page.
pub open spec fn stored_sample(p: JpegPageInput<'_>, x: int, y: int, c: int) -> int {
    let i = (y * p.width + x) * p.spp + c;
    if p.bits > 8 { p.raw@[2 * i] + 256 * p.raw@[2 * i + 1] } else { p.raw@[i] as int }
}

/// The last place, for one beyond it.
pub open spec fn up_to(x: int, n: int) -> int {
    if x >= n { n - 1 } else { x }
}

proof fn lemma_stored(p: JpegPageInput<'_>, x: int, y: int, c: int)
    ensures
        page_sample(p, x, y, c) == stored_sample(p, x, y, c),
        0 <= stored_sample(p, x, y, c) < 65536,
{
    let i = (y * p.width + x) * p.spp + c;
    law_numbers(ByteOrder::Little, p.raw@, 2 * i);
}

/// A part of a page without averages.
proof fn lemma_plain(p: JpegPageInput<'_>, c: int, s: Window, tx: int, ty: int)
    requires
        s.dh == 1,
        s.dv == 1,
        0 <= tx < s.w,
        0 <= ty < s.h,
    ensures
        ty * s.w + tx < window_plane(p, c, s).len(),
        0 <= ty * s.w + tx,
        window_plane(p, c, s)[ty * s.w + tx] == stored_sample(
            p,
            up_to(s.x0 + tx, p.width as int),
            up_to(s.y0 + ty, p.height as int),
            c,
        ),
{
    let i = ty * s.w + tx;
    assert(ceil_div(s.w as int, 1) == s.w && ceil_div(s.h as int, 1) == s.h);
    assert(0 <= i < s.w * s.h) by (nonlinear_arith)
        requires
            i == ty * s.w + tx,
            0 <= tx < s.w,
            0 <= ty < s.h,
    ;
    lemma_packed(ty, s.w as int, tx);
    reveal_with_fuel(row_sum, 2);
    reveal_with_fuel(box_sum, 2);
    lemma_stored(p, clamped(s.x0 + tx, p.width as int), clamped(s.y0 + ty, p.height as int), c);
    assert(1int * 1 == 1) by (nonlinear_arith);
    let pw = ceil_div(s.w as int, s.dh as int);
    assert(i % pw == tx && i / pw == ty);
    assert(i % pw * s.dh == tx && i / pw * s.dv == ty) by (nonlinear_arith)
        requires
            s.dh == 1,
            s.dv == 1,
            i % pw == tx,
            i / pw == ty,
    ;
    let v = page_sample(p, clamped(s.x0 + tx, p.width as int), clamped(s.y0 + ty, p.height as int), c);
    assert(row_sum(p, c, s.x0 + tx, s.y0 + ty, 1) == v);
    assert(box_sum(p, c, s.x0 + tx, s.y0 + ty, 1, 1) == v);
    assert((v + 1int / 2) / 1 == v);
    assert(window_sample(p, c, s, i) == stored_sample(p, up_to(s.x0 + tx, p.width as int), up_to(s.y0 + ty, p.height as int), c));
}

/// A component whose samples no pixels share.
pub open spec fn unshared(p: JpegPageInput<'_>, c: int) -> bool {
    p.photometric != 6 || c == 0 || p.subsampling == (1usize, 1usize)
}

/// The strips or tiles of one plane, counted as they are read: row by row.
pub open spec fn cuts(p: JpegPageInput<'_>) -> int {
    match p.tiling {
        Some(t) => ((p.width + t.0 - 1) / (t.0 as int)) * ((p.height + t.1 - 1) / (t.1 as int)),
        None => (p.height + p.rows_per_strip - 1) / (p.rows_per_strip as int),
    }
}

/// Component `c` in strip or tile `i`: components lie together in one, or those of each
/// component come after those of the one before.
pub open spec fn cut(p: JpegPageInput<'_>, c: int, i: int) -> ComponentModel {
    if p.planar { page_segments(p)[c * cuts(p) + i].comps[0] } else { page_segments(p)[i].comps[c] }
}

proof fn lemma_cut(p: JpegPageInput<'_>, c: int, i: int)
    requires
        input_ok(p),
        0 <= c < p.spp,
        0 <= i < cuts(p),
    ensures
        cuts(p) == grid_count(p),
        p.planar ==> 0 <= c * cuts(p) + i < page_segments(p).len() && page_segments(p).len() == p.spp * cuts(p)
            && page_segments(p)[c * cuts(p) + i] == planar_at(p, c, i) && cut(p, c, i) == planar_at(p, c, i).comps[0],
        !p.planar ==> page_segments(p).len() == cuts(p) && page_segments(p)[i] == chunky_at(p, i) && cut(p, c, i) == chunky_at(
            p,
            i,
        ).comps[c],
{
    let n = cuts(p);
    lemma_packed(c, n, i);
    assert(0 <= c * n + i < p.spp * n) by (nonlinear_arith)
        requires
            0 <= c < p.spp,
            0 <= i < n,
    ;
}

/// A tile holds the pixels of its rectangle of the page, and beyond the edges of the page
/// repeats the last column and the last row. Tiles come row by row.
pub proof fn law_tile_cut(p: JpegPageInput<'_>, c: int, i: int, tx: int, ty: int)
    requires
        input_ok(p),
        p.tiling is Some,
        0 <= c < p.spp,
        unshared(p, c),
        0 <= i < cuts(p),
        0 <= tx < p.tiling.unwrap().0,
        0 <= ty < p.tiling.unwrap().1,
    ensures
        ({
            let tw = p.tiling.unwrap().0 as int;
            let th = p.tiling.unwrap().1 as int;
            let across = (p.width + tw - 1) / tw;
            let d = cut(p, c, i);
            &&& d.width == tw && d.height == th
            &&& d.samples.len() == tw * th
            &&& 0 <= ty * tw + tx < tw * th
            &&& d.samples[ty * tw + tx] == stored_sample(
                p,
                up_to(i % across * tw + tx, p.width as int),
                up_to(i / across * th + ty, p.height as int),
                c,
            )
        }),
{
    let t = p.tiling.unwrap();
    let tw = t.0 as int;
    let th = t.1 as int;
    let across = (p.width + tw - 1) / tw;
    let down = (p.height + th - 1) / th;
    lemma_cut(p, c, i);
    lemma_groups(p.width as int, tw);
    lemma_groups(p.height as int, th);
    lemma_tile_place(i, across, down);
    lemma_grid(p.width as int, tw, i % across);
    lemma_grid(p.height as int, th, i / across);
    let x0 = i % across * tw;
    let y0 = i / across * th;
    assert(0 <= ty * tw + tx < tw * th) by (nonlinear_arith)
        requires
            0 <= tx < tw,
            0 <= ty < th,
    ;
    lemma_packed(ty, tw, tx);
    assert(ceil_div(tw, 1) == tw && ceil_div(th, 1) == th);
    assert(tw / 1 == tw && th / 1 == th);
    if p.planar {
        let s = Window { x0: 0, y0: 0, w: p.width, h: p.height, dh: 1, dv: 1 };
        lemma_plain(p, c, s, up_to(x0 + tx, p.width as int), up_to(y0 + ty, p.height as int));
        assert(ceil_div(p.width as int, 1) == p.width && ceil_div(p.height as int, 1) == p.height);
    } else {
        let s = Window { x0: x0 as usize, y0: y0 as usize, w: t.0, h: t.1, dh: 1, dv: 1 };
        lemma_plain(p, c, s, tx, ty);
    }
}

proof fn lemma_tile_place(i: int, across: int, down: int)
    requires
        0 <= i < across * down,
        0 < across,
    ensures
        0 <= i % across < across,
        0 <= i / across < down,
        i == i / across * across + i % across,
{
    vstd::arithmetic::div_mod::lemma_fundamental_div_mod(i, across);
    vstd::arithmetic::div_mod::lemma_mod_bound(i, across);
    let q = i / across;
    assert(across * q == q * across) by (nonlinear_arith);
    assert(0 <= q < down) by (nonlinear_arith)
        requires
            i == q * across + i % across,
            0 <= i % across < across,
            0 <= i < across * down,
    ;
}

/// A strip holds its rows of the page, and the last one no more than are left.
pub proof fn law_strip_cut(p: JpegPageInput<'_>, c: int, i: int, x: int, ty: int)
    requires
        input_ok(p),
        p.tiling is None,
        0 <= c < p.spp,
        unshared(p, c),
        0 <= i < cuts(p),
        0 <= x < p.width,
        0 <= ty < p.rows_per_strip,
        i * p.rows_per_strip + ty < p.height,
    ensures
        ({
            let d = cut(p, c, i);
            let left = p.height - i * p.rows_per_strip;
            &&& d.width == p.width
            &&& d.height == (if left < p.rows_per_strip { left } else { p.rows_per_strip as int })
            &&& d.samples.len() == d.width * d.height
            &&& 0 <= ty * p.width + x < d.samples.len()
            &&& d.samples[ty * p.width + x] == stored_sample(p, x, i * p.rows_per_strip + ty, c)
        }),
{
    let w = p.width as int;
    let rows = strip_rows(p, i);
    let y0 = i * p.rows_per_strip;
    lemma_cut(p, c, i);
    lemma_groups(p.height as int, p.rows_per_strip as int);
    lemma_grid(p.height as int, p.rows_per_strip as int, i);
    assert(0 <= ty * w + x < w * rows) by (nonlinear_arith)
        requires
            0 <= x < w,
            0 <= ty < rows,
    ;
    lemma_packed(ty, w, x);
    assert(ceil_div(w, 1) == w && ceil_div(rows, 1) == rows);
    if p.planar {
        let s = Window { x0: 0, y0: 0, w: p.width, h: p.height, dh: 1, dv: 1 };
        lemma_plain(p, c, s, x, y0 + ty);
        assert(y0 / 1 == y0);
        assert(ceil_div(p.height as int, 1) == p.height);
    } else {
        let s = Window { x0: 0, y0: y0 as usize, w: p.width, h: rows as usize, dh: 1, dv: 1 };
        lemma_plain(p, c, s, x, ty);
    }
}

/// Every pixel of a page is in its strip or tile: the sample at column `x` and row `y` is
/// that at `x` mod the width and `y` mod the height of a tile of the tile that covers it,
/// or that at `x` and `y` mod the rows of a strip of its strip.
pub proof fn law_pixel_cut(p: JpegPageInput<'_>, x: int, y: int, c: int)
    requires
        input_ok(p),
        0 <= x < p.width,
        0 <= y < p.height,
        0 <= c < p.spp,
        unshared(p, c),
    ensures
        (match p.tiling {
            Some(t) => {
                let tw = t.0 as int;
                let th = t.1 as int;
                let i = y / th * ((p.width + tw - 1) / tw) + x / tw;
                &&& 0 <= i < cuts(p)
                &&& cut(p, c, i).samples[y % th * tw + x % tw] == stored_sample(p, x, y, c)
            },
            None => {
                let rows = p.rows_per_strip as int;
                &&& 0 <= y / rows < cuts(p)
                &&& cut(p, c, y / rows).samples[y % rows * p.width + x] == stored_sample(p, x, y, c)
            },
        }),
{
    match p.tiling {
        Some(t) => {
            let tw = t.0 as int;
            let th = t.1 as int;
            let across = (p.width + tw - 1) / tw;
            let down = (p.height + th - 1) / th;
            lemma_within(x, p.width as int, tw);
            lemma_within(y, p.height as int, th);
            let i = y / th * across + x / tw;
            assert(0 <= i < across * down) by (nonlinear_arith)
                requires
                    i == y / th * across + x / tw,
                    0 <= x / tw < across,
                    0 <= y / th < down,
            ;
            lemma_packed(y / th, across, x / tw);
            law_tile_cut(p, c, i, x % tw, y % th);
        },
        None => {
            lemma_within(y, p.height as int, p.rows_per_strip as int);
            law_strip_cut(p, c, y / (p.rows_per_strip as int), x, y % (p.rows_per_strip as int));
        },
    }
}

proof fn lemma_within(x: int, n: int, d: int)
    requires
        0 <= x < n,
        0 < d,
    ensures
        0 <= x / d < (n + d - 1) / d,
        0 <= x % d < d,
        x == x / d * d + x % d,
{
    let k = n + d - 1;
    vstd::arithmetic::div_mod::lemma_fundamental_div_mod(x, d);
    vstd::arithmetic::div_mod::lemma_mod_bound(x, d);
    vstd::arithmetic::div_mod::lemma_fundamental_div_mod(k, d);
    vstd::arithmetic::div_mod::lemma_mod_bound(k, d);
    let q = x / d;
    let e = k / d;
    assert(0 <= q < e && d * q == q * d) by (nonlinear_arith)
        requires
            x == d * q + x % d,
            0 <= x % d < d,
            k == d * e + k % d,
            k % d < d,
            k == n + d - 1,
            0 <= x < n,
            0 < d,
    ;
}

// ----------------------------------------------------------------------
// Shared samples
// ----------------------------------------------------------------------

/// The rounded average of one, two or four neighbouring pixels of a page, the first at
/// column `x` and row `y`.
pub open spec fn average(p: JpegPageInput<'_>, c: int, x: int, y: int, two_across: bool, two_down: bool) -> int {
    let w = p.width as int;
    let h = p.height as int;
    let a = stored_sample(p, up_to(x, w), up_to(y, h), c);
    let b = stored_sample(p, up_to(x + 1, w), up_to(y, h), c);
    let d = stored_sample(p, up_to(x, w), up_to(y + 1, h), c);
    let e = stored_sample(p, up_to(x + 1, w), up_to(y + 1, h), c);
    if two_across && two_down {
        (a + b + d + e + 2) / 4
    } else if two_across {
        (a + b + 1) / 2
    } else if two_down {
        (a + d + 1) / 2
    } else {
        a
    }
}

proof fn lemma_sums(p: JpegPageInput<'_>, c: int, x: int, y: int)
    ensures
        ({
            let w = p.width as int;
            let h = p.height as int;
            let a = stored_sample(p, up_to(x, w), up_to(y, h), c);
            let b = stored_sample(p, up_to(x + 1, w), up_to(y, h), c);
            let d = stored_sample(p, up_to(x, w), up_to(y + 1, h), c);
            let e = stored_sample(p, up_to(x + 1, w), up_to(y + 1, h), c);
            &&& box_sum(p, c, x, y, 1, 1) == a
            &&& box_sum(p, c, x, y, 2, 1) == a + b
            &&& box_sum(p, c, x, y, 1, 2) == a + d
            &&& box_sum(p, c, x, y, 2, 2) == a + b + d + e
            &&& 0 <= a < 65536 && 0 <= b < 65536 && 0 <= d < 65536 && 0 <= e < 65536
        }),
{
    let w = p.width as int;
    let h = p.height as int;
    reveal_with_fuel(row_sum, 3);
    reveal_with_fuel(box_sum, 3);
    lemma_stored(p, clamped(x, w), clamped(y, h), c);
    lemma_stored(p, clamped(x + 1, w), clamped(y, h), c);
    lemma_stored(p, clamped(x, w), clamped(y + 1, h), c);
    lemma_stored(p, clamped(x + 1, w), clamped(y + 1, h), c);
}

proof fn lemma_averaged(p: JpegPageInput<'_>, c: int, s: Window, jx: int, jy: int)
    requires
        1 <= s.dh <= 2,
        1 <= s.dv <= 2,
        0 <= jx < (s.w + s.dh - 1) / (s.dh as int),
        0 <= jy < (s.h + s.dv - 1) / (s.dv as int),
    ensures
        ({
            let pw = (s.w + s.dh - 1) / (s.dh as int);
            let ph = (s.h + s.dv - 1) / (s.dv as int);
            &&& 0 <= jy * pw + jx < pw * ph
            &&& window_plane(p, c, s).len() == pw * ph
            &&& window_plane(p, c, s)[jy * pw + jx] == average(
                p,
                c,
                s.x0 + jx * s.dh,
                s.y0 + jy * s.dv,
                s.dh == 2 && 2 * jx + 1 < s.w,
                s.dv == 2 && 2 * jy + 1 < s.h,
            )
        }),
{
    let pw = (s.w + s.dh - 1) / (s.dh as int);
    let ph = (s.h + s.dv - 1) / (s.dv as int);
    let i = jy * pw + jx;
    assert(0 <= i < pw * ph) by (nonlinear_arith)
        requires
            i == jy * pw + jx,
            0 <= jx < pw,
            0 <= jy < ph,
    ;
    lemma_packed(jy, pw, jx);
    let x = jx * s.dh;
    let y = jy * s.dv;
    assert(x == (if s.dh == 2 { 2 * jx } else { jx }) && y == (if s.dv == 2 { 2 * jy } else { jy })) by (nonlinear_arith)
        requires
            x == jx * s.dh,
            y == jy * s.dv,
            s.dh == 1 || s.dh == 2,
            s.dv == 1 || s.dv == 2,
    ;
    let cols = if s.dh <= s.w - x { s.dh as int } else { s.w - x };
    let rows = if s.dv <= s.h - y { s.dv as int } else { s.h - y };
    assert(cols == (if s.dh == 2 && 2 * jx + 1 < s.w { 2int } else { 1 }));
    assert(rows == (if s.dv == 2 && 2 * jy + 1 < s.h { 2int } else { 1 }));
    assert(1int * 1 == 1 && 1int * 2 == 2 && 2int * 1 == 2 && 2int * 2 == 4) by (nonlinear_arith);
    let v = window_sample(p, c, s, i);
    assert(ceil_div(s.w as int, s.dh as int) == pw);
    assert(i % pw * s.dh == x && i / pw * s.dv == y);
    let (bx, by) = (s.x0 + x, s.y0 + y);
    let n = cols * rows;
    let sum = box_sum(p, c, bx, by, cols, rows);
    assert(v == (sum + n / 2) / n);
    lemma_sums(p, c, bx, by);
    if cols == 2 && rows == 2 {
        assert(n == 4);
        assert(v == (box_sum(p, c, bx, by, 2, 2) + 2) / 4);
    } else if cols == 2 {
        assert(n == 2);
        assert(v == (box_sum(p, c, bx, by, 2, 1) + 1) / 2);
    } else if rows == 2 {
        assert(n == 2);
        assert(v == (box_sum(p, c, bx, by, 1, 2) + 1) / 2);
    } else {
        assert(n == 1);
        assert(v == box_sum(p, c, bx, by, 1, 1));
    }
    assert(v == average(p, c, s.x0 + x, s.y0 + y, cols == 2, rows == 2));
}

/// Where pixels share their chrominance, two across, two down or both, and components lie
/// together, a sample of it in a tile is the rounded average of those pixels that are in
/// the tile; beyond the edges of the page its last column and row are repeated.
pub proof fn law_shared_tile(p: JpegPageInput<'_>, c: int, i: int, jx: int, jy: int)
    requires
        input_ok(p),
        !p.planar,
        p.tiling is Some,
        p.photometric == 6,
        0 < c < p.spp,
        p.subsampling.0 <= 2,
        p.subsampling.1 <= 2,
        0 <= i < cuts(p),
        0 <= jx < (p.tiling.unwrap().0 + p.subsampling.0 - 1) / (p.subsampling.0 as int),
        0 <= jy < (p.tiling.unwrap().1 + p.subsampling.1 - 1) / (p.subsampling.1 as int),
    ensures
        ({
            let t = p.tiling.unwrap();
            let across = (p.width + t.0 - 1) / (t.0 as int);
            let pw = (t.0 + p.subsampling.0 - 1) / (p.subsampling.0 as int);
            let d = cut(p, c, i);
            &&& d.width == pw
            &&& d.height == (t.1 + p.subsampling.1 - 1) / (p.subsampling.1 as int)
            &&& d.samples[jy * pw + jx] == average(
                p,
                c,
                i % across * t.0 + jx * p.subsampling.0,
                i / across * t.1 + jy * p.subsampling.1,
                p.subsampling.0 == 2 && 2 * jx + 1 < t.0,
                p.subsampling.1 == 2 && 2 * jy + 1 < t.1,
            )
        }),
{
    let t = p.tiling.unwrap();
    let tw = t.0 as int;
    let th = t.1 as int;
    let across = (p.width + tw - 1) / tw;
    let down = (p.height + th - 1) / th;
    lemma_cut(p, c, i);
    lemma_groups(p.width as int, tw);
    lemma_groups(p.height as int, th);
    lemma_tile_place(i, across, down);
    lemma_grid(p.width as int, tw, i % across);
    lemma_grid(p.height as int, th, i / across);
    lemma_groups(tw, p.subsampling.0 as int);
    lemma_groups(th, p.subsampling.1 as int);
    let s = Window {
        x0: (i % across * tw) as usize,
        y0: (i / across * th) as usize,
        w: t.0,
        h: t.1,
        dh: p.subsampling.0,
        dv: p.subsampling.1,
    };
    lemma_averaged(p, c, s, jx, jy);
}

/// The same in strips, which have no pixels beyond the page.
pub proof fn law_shared_strip(p: JpegPageInput<'_>, c: int, i: int, jx: int, jy: int)
    requires
        input_ok(p),
        !p.planar,
        p.tiling is None,
        p.photometric == 6,
        0 < c < p.spp,
        p.subsampling.0 <= 2,
        p.subsampling.1 <= 2,
        0 <= i < cuts(p),
        0 <= jx < (p.width + p.subsampling.0 - 1) / (p.subsampling.0 as int),
        0 <= jy < (strip_rows(p, i) + p.subsampling.1 - 1) / (p.subsampling.1 as int),
    ensures
        ({
            let left = p.height - i * p.rows_per_strip;
            let rows = if left < p.rows_per_strip { left } else { p.rows_per_strip as int };
            let pw = (p.width + p.subsampling.0 - 1) / (p.subsampling.0 as int);
            let d = cut(p, c, i);
            &&& d.width == pw
            &&& d.height == (rows + p.subsampling.1 - 1) / (p.subsampling.1 as int)
            &&& d.samples[jy * pw + jx] == average(
                p,
                c,
                jx * p.subsampling.0,
                i * p.rows_per_strip + jy * p.subsampling.1,
                p.subsampling.0 == 2 && 2 * jx + 1 < p.width,
                p.subsampling.1 == 2 && 2 * jy + 1 < rows,
            )
        }),
{
    lemma_cut(p, c, i);
    lemma_groups(p.height as int, p.rows_per_strip as int);
    lemma_grid(p.height as int, p.rows_per_strip as int, i);
    let rows = strip_rows(p, i);
    lemma_groups(p.width as int, p.subsampling.0 as int);
    lemma_groups(rows, p.subsampling.1 as int);
    let s = Window {
        x0: 0,
        y0: (i * p.rows_per_strip) as usize,
        w: p.width,
        h: rows as usize,
        dh: p.subsampling.0,
        dv: p.subsampling.1,
    };
    lemma_averaged(p, c, s, jx, jy);
}

/// Where components are apart, chrominance is averaged over the page first and then cut
/// like a page of that size, tiles as much smaller and strips as much lower.
pub proof fn law_shared_apart(p: JpegPageInput<'_>, c: int, i: int, jx: int, jy: int)
    requires
        input_ok(p),
        p.planar,
        p.photometric == 6,
        0 < c < p.spp,
        p.subsampling.0 <= 2,
        p.subsampling.1 <= 2,
        0 <= i < cuts(p),
        0 <= jx < cut(p, c, i).width,
        0 <= jy < cut(p, c, i).height,
    ensures
        ({
            let sx = p.subsampling.0 as int;
            let sy = p.subsampling.1 as int;
            let pw = (p.width + sx - 1) / sx;
            let ph = (p.height + sy - 1) / sy;
            let d = cut(p, c, i);
            let place = match p.tiling {
                Some(t) => {
                    let across = (p.width + t.0 - 1) / (t.0 as int);
                    (i % across * (t.0 as int / sx), i / across * (t.1 as int / sy))
                },
                None => (0, i * p.rows_per_strip / sy),
            };
            let x = up_to(place.0 + jx, pw);
            let y = up_to(place.1 + jy, ph);
            d.samples[jy * d.width + jx] == average(
                p,
                c,
                x * sx,
                y * sy,
                sx == 2 && 2 * x + 1 < p.width,
                sy == 2 && 2 * y + 1 < p.height,
            )
        }),
{
    let sx = p.subsampling.0 as int;
    let sy = p.subsampling.1 as int;
    let pw = (p.width + sx - 1) / sx;
    let ph = (p.height + sy - 1) / sy;
    lemma_cut(p, c, i);
    lemma_groups(p.width as int, sx);
    lemma_groups(p.height as int, sy);
    let d = cut(p, c, i);
    let w = d.width as int;
    let h = d.height as int;
    let place = match p.tiling {
        Some(t) => {
            let across = (p.width + t.0 - 1) / (t.0 as int);
            let down = (p.height + t.1 - 1) / (t.1 as int);
            lemma_groups(p.width as int, t.0 as int);
            lemma_tile_place(i, across, down);
            assert(t.0 as int / sx <= t.0 && t.1 as int / sy <= t.1);
            (i % across * (t.0 as int / sx), i / across * (t.1 as int / sy))
        },
        None => {
            lemma_grid(p.height as int, p.rows_per_strip as int, i);
            lemma_groups(strip_rows(p, i), sy);
            (0, i * p.rows_per_strip / sy)
        },
    };
    assert(0 <= place.0 && 0 <= place.1) by {
        if let Some(t) = p.tiling {
            let across = (p.width + t.0 - 1) / (t.0 as int);
            assert(0 <= i % across * (t.0 as int / sx)) by (nonlinear_arith)
                requires
                    0 <= i % across,
                    0 <= t.0 as int / sx,
            ;
            assert(0 <= i / across * (t.1 as int / sy)) by (nonlinear_arith)
                requires
                    0 <= i / across,
                    0 <= t.1 as int / sy,
            ;
        }
    }
    assert(0 <= jy * w + jx < w * h) by (nonlinear_arith)
        requires
            0 <= jx < w,
            0 <= jy < h,
    ;
    lemma_packed(jy, w, jx);
    let s = Window { x0: 0, y0: 0, w: p.width, h: p.height, dh: p.subsampling.0, dv: p.subsampling.1 };
    lemma_averaged(p, c, s, up_to(place.0 + jx, pw), up_to(place.1 + jy, ph));
}

// ----------------------------------------------------------------------
// Headers and tables
// ----------------------------------------------------------------------

/// What a strip or tile says of component `c`: only luminance that lies together with
/// shared chrominance has greater factors than 1, and only chrominance has tables other
/// than the first.
pub proof fn law_cut_header(p: JpegPageInput<'_>, c: int, i: int)
    requires
        input_ok(p),
        0 <= c < p.spp,
        0 <= i < cuts(p),
        p.subsampling.0 < 256,
        p.subsampling.1 < 256,
    ensures
        ({
            let d = cut(p, c, i);
            let chroma = p.photometric == 6;
            &&& d.h == (if chroma && !p.planar && c == 0 { p.subsampling.0 as int } else { 1 })
            &&& d.v == (if chroma && !p.planar && c == 0 { p.subsampling.1 as int } else { 1 })
            &&& d.quant_id == (if chroma && c > 0 { 1int } else { 0 })
            &&& d.huff_id == (if chroma && c > 0 { 1int } else { 0 })
        }),
{
    lemma_cut(p, c, i);
}

/// Quantiser steps are the usual ones scaled for the quality: rounded to the nearest,
/// doubled from 50 to 25 and so on below, and down to nothing from 50 to 100, where they
/// become 1; steps for more than 8 bits are 16 times as great. The first table is that of
/// luminance, and chrominance has the second one.
pub proof fn law_steps(p: JpegPageInput<'_>, k: int)
    requires
        0 <= k < 64,
        1 <= p.opts.quality <= 100,
        p.bits == 8 || p.bits == 12,
    ensures
        ({
            let q = p.opts.quality as int;
            let t = step_tables(p).quant;
            let times = if p.bits == 8 { 1int } else { 16 };
            let most = if p.bits == 8 { 255int } else { 65535 };
            &&& t.len() == 4 && t[2] is None && t[3] is None
            &&& t[1] is Some <==> p.photometric == 6 && p.spp > 1
            &&& t[0] is Some && near_step(t[0].unwrap()[k] as int, QUANT_LUMINANCE_K1[k] as int, q, times, most)
            &&& t[1] is Some ==> near_step(t[1].unwrap()[k] as int, QUANT_CHROMINANCE_K2[k] as int, q, times, most)
        }),
{
    lemma_step(QUANT_LUMINANCE_K1[k] as int, p.opts.quality as int, p.bits as int);
    lemma_step(QUANT_CHROMINANCE_K2[k] as int, p.opts.quality as int, p.bits as int);
}

/// `v` is a step scaled for quality `q`, times `times` and at most `most`.
pub open spec fn near_step(v: int, step: int, q: int, times: int, most: int) -> bool {
    exists|u: int|
        #![trigger u * times]
        {
            &&& u >= 1
            &&& v == (if u * times > most { most } else { u * times })
            &&& q < 50 ==> 2 * q * u - q <= 100 * step < 2 * q * u + q || (u == 1 && 100 * step < q)
            &&& q >= 50 ==> 100 * u - 50 <= step * (200 - 2 * q) < 100 * u + 50 || (u == 1 && step * (200 - 2 * q) < 50)
        }
}

proof fn lemma_step(step: int, q: int, bits: int)
    requires
        1 <= q <= 100,
        1 <= step <= 255,
        bits == 8 || bits == 12,
    ensures
        near_step(scaled_step(step, q, bits), step, q, if bits == 8 { 1 } else { 16 }, if bits == 8 { 255 } else { 65535 }),
        0 <= scaled_step(step, q, bits) <= 65535,
{
    let v: int = if q < 50 { (step * 5000 + 50 * q) / (100 * q) } else { (step * (200 - 2 * q) + 50) / 100 };
    let u = if v < 1 { 1 } else { v };
    let times: int = if bits == 8 { 1 } else { 16 };
    if q < 50 {
        let d = 100 * q;
        let n = step * 5000 + 50 * q;
        vstd::arithmetic::div_mod::lemma_fundamental_div_mod(n, d);
        vstd::arithmetic::div_mod::lemma_mod_bound(n, d);
        assert(d * v == 100 * (q * v)) by (nonlinear_arith)
            requires
                d == 100 * q,
        ;
        assert(2 * q * u == 2 * (q * u)) by (nonlinear_arith);
        assert(q * 1 == q);
        if v >= 1 {
            assert(100 * (q * v) <= n < 100 * (q * v) + 100 * q);
        } else {
            assert(n < d) by (nonlinear_arith)
                requires
                    n == d * v + n % d,
                    n % d < d,
                    v <= 0,
                    d > 0,
            ;
        }
    }
    assert(u * times >= 1);
    let r = scaled_step(step, q, bits);
    assert(r == (if u * times > (if bits == 8 { 255int } else { 65535 }) { if bits == 8 { 255int } else { 65535 } } else { u * times }));
}

/// Tables that stand apart and a strip or tile without tables go together: putting the
/// tables between the start marker and the rest of the stream gives the stream with its own
/// tables.
#[verifier::rlimit(40)]
pub proof fn law_tables_apart(p: JpegPageInput<'_>, coefs: Seq<Seq<[i16; 64]>>, k: int)
    requires
        p.opts.tables is Shared,
        page_coded(p, coefs),
        0 <= k < page_segments(p).len(),
        shared_tables(p, coefs) is Some,
    ensures
        ({
            let segs = page_segments(p);
            let t = segment_tables(p, segs, coefs, 0).unwrap();
            let stream = segment_stream(p, segs, coefs, k).unwrap();
            &&& is_framed(stream)
            &&& is_framed(shared_tables(p, coefs).unwrap())
            &&& merged(shared_tables(p, coefs), stream) == frame_stream(
                frame_of(segs[k], p.bits, p.opts.process),
                segs[k].comps,
                t,
                true,
                coefs[k],
            )
        }),
{
    let segs = page_segments(p);
    assert(segment_stream(p, segs, coefs, k) is Some);
    let t = segment_tables(p, segs, coefs, 0).unwrap();
    assert(segment_tables(p, segs, coefs, k) == segment_tables(p, segs, coefs, 0));
    let frame = frame_of(segs[k], p.bits, p.opts.process);
    let dct = p.opts.process is Dct;
    let stream = segment_stream(p, segs, coefs, k).unwrap();
    let tables = shared_tables(p, coefs).unwrap();
    let inner = tables_bytes(t, dct);
    let whole = frame_stream(frame, segs[k].comps, t, true, coefs[k]).unwrap();
    assert(tables.subrange(2, tables.len() - 2) =~= inner);
    assert(stream.take(2) + inner + stream.skip(2) =~= whole);
}

} // verus!
