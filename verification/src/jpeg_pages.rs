//! Which pages can be coded as JPEG streams with the usual tables.
use vstd::prelude::*;
use vstd::arithmetic::power2::lemma2_to64;
use crate::huffman::{usual_ac, usual_dc};
use crate::jpeg_enc::{block_count, block_ok, clamped, component_ok, frame_ok, h_max};
use crate::jpeg_enc::{scan_ok, units_of, v_max, ComponentModel};
use crate::jpeg_exact::{law_usual_stream, small_block, usual_at};
use crate::jpeg_wrap::{box_sum, chunky_model, factors, frame_of, grid_count, has_chrominance, input_ok};
use crate::jpeg_wrap::{lemma_grid, lemma_grid_count, lemma_groups, page_coded, page_segments, plane_part};
use crate::jpeg_wrap::{planar_model, row_sum, segment_stream, segment_tables, segments_fit, sharing, strip_rows};
use crate::jpeg_wrap::{tables_with_usual, usual_tables, whole_window, window_component, window_plane};
use crate::jpeg_wrap::{window_sample, JpegPageInput, SegmentModel, Window};
use crate::render::{ceil_div, lemma_origin};
use crate::types::PHOTO_YCBCR;

verus! {

// ----------------------------------------------------------------------
// Samples of 8 bits
// ----------------------------------------------------------------------

proof fn lemma_row_small(p: JpegPageInput<'_>, c: int, x: int, y: int, n: int)
    requires
        p.bits == 8,
        0 <= n,
    ensures
        0 <= row_sum(p, c, x, y, n) <= 255 * n,
    decreases n,
{
    if n > 0 {
        lemma_row_small(p, c, x, y, n - 1);
    }
}

proof fn lemma_box_small(p: JpegPageInput<'_>, c: int, x: int, y: int, cols: int, n: int)
    requires
        p.bits == 8,
        0 <= cols,
        0 <= n,
    ensures
        0 <= box_sum(p, c, x, y, cols, n) <= 255 * (cols * n),
    decreases n,
{
    if n > 0 {
        lemma_box_small(p, c, x, y, cols, n - 1);
        lemma_row_small(p, c, x, y + n - 1, cols);
        assert(cols * n == cols * (n - 1) + cols) by (nonlinear_arith);
    } else {
        assert(cols * n == 0) by (nonlinear_arith)
            requires
                n == 0,
        ;
    }
}

/// An average of bytes is a byte.
proof fn lemma_mean_small(sum: int, n: int)
    requires
        0 <= sum <= 255 * n,
        1 <= n,
    ensures
        0 <= (sum + n / 2) / n <= 255,
{
    let v = sum + n / 2;
    vstd::arithmetic::div_mod::lemma_fundamental_div_mod(v, n);
    vstd::arithmetic::div_mod::lemma_mod_bound(v, n);
    let q = v / n;
    assert(0 <= n / 2 < n) by (nonlinear_arith)
        requires
            n >= 1,
    ;
    assert(0 <= q <= 255) by (nonlinear_arith)
        requires
            v == n * q + v % n,
            0 <= v % n < n,
            0 <= v < 256 * n,
            n >= 1,
    ;
}

/// A sample of a part of a page is a byte.
proof fn lemma_window_small(p: JpegPageInput<'_>, c: int, s: Window, i: int)
    requires
        p.bits == 8,
        s.w > 0,
        s.h > 0,
        s.dh > 0,
        s.dv > 0,
        0 <= i < ceil_div(s.w as int, s.dh as int) * ceil_div(s.h as int, s.dv as int),
    ensures
        0 <= window_sample(p, c, s, i) <= 255,
{
    let pw = ceil_div(s.w as int, s.dh as int);
    let ph = ceil_div(s.h as int, s.dv as int);
    lemma_groups(s.w as int, s.dh as int);
    lemma_groups(s.h as int, s.dv as int);
    vstd::arithmetic::div_mod::lemma_fundamental_div_mod(i, pw);
    vstd::arithmetic::div_mod::lemma_mod_bound(i, pw);
    let (j, k) = (i % pw, i / pw);
    assert(0 <= k < ph) by (nonlinear_arith)
        requires
            i == pw * k + j,
            0 <= j < pw,
            0 <= i < pw * ph,
    ;
    lemma_origin(j, s.w as int, s.dh as int);
    lemma_origin(k, s.h as int, s.dv as int);
    let x = j * s.dh;
    let y = k * s.dv;
    let cols = if s.dh <= s.w - x { s.dh as int } else { s.w - x };
    let rows = if s.dv <= s.h - y { s.dv as int } else { s.h - y };
    assert(cols * rows >= 1) by (nonlinear_arith)
        requires
            cols >= 1,
            rows >= 1,
    ;
    lemma_box_small(p, c, s.x0 + x, s.y0 + y, cols, rows);
    lemma_mean_small(box_sum(p, c, s.x0 + x, s.y0 + y, cols, rows), cols * rows);
}

/// The samples of a part of a page are bytes.
proof fn lemma_plane_small(p: JpegPageInput<'_>, c: int, s: Window)
    requires
        p.bits == 8,
        s.w > 0,
        s.h > 0,
        s.dh > 0,
        s.dv > 0,
    ensures
        window_plane(p, c, s).len() == ceil_div(s.w as int, s.dh as int) * ceil_div(s.h as int, s.dv as int),
        forall|i: int| 0 <= i < window_plane(p, c, s).len() ==> #[trigger] window_plane(p, c, s)[i] <= 255,
{
    let pw = ceil_div(s.w as int, s.dh as int);
    let ph = ceil_div(s.h as int, s.dv as int);
    lemma_groups(s.w as int, s.dh as int);
    lemma_groups(s.h as int, s.dv as int);
    assert(pw * ph >= 0) by (nonlinear_arith)
        requires
            pw >= 1,
            ph >= 1,
    ;
    assert forall|i: int| 0 <= i < window_plane(p, c, s).len() implies #[trigger] window_plane(p, c, s)[i] <= 255 by {
        lemma_window_small(p, c, s, i);
    }
}

// ----------------------------------------------------------------------
// Frames
// ----------------------------------------------------------------------

/// The greatest sampling factors are those of the first component.
proof fn lemma_first_greatest(cs: Seq<ComponentModel>, n: int)
    requires
        1 <= n <= cs.len(),
        forall|i: int| 0 <= i < n ==> (#[trigger] cs[i]).h <= cs[0].h && cs[i].v <= cs[0].v,
    ensures
        h_max(cs, n) == cs[0].h,
        v_max(cs, n) == cs[0].v,
    decreases n,
{
    if n > 1 {
        lemma_first_greatest(cs, n - 1);
        assert(cs[n - 1].h <= cs[0].h && cs[n - 1].v <= cs[0].v);
    } else {
        reveal_with_fuel(h_max, 2);
        reveal_with_fuel(v_max, 2);
    }
}

/// Components after the first have one data unit each.
proof fn lemma_units(cs: Seq<ComponentModel>, n: int)
    requires
        1 <= n <= cs.len(),
        forall|i: int| 1 <= i < n ==> (#[trigger] cs[i]).h == 1 && cs[i].v == 1,
    ensures
        units_of(cs, n) == cs[0].h * cs[0].v + n - 1,
    decreases n,
{
    if n > 1 {
        lemma_units(cs, n - 1);
        assert(cs[n - 1].h == 1 && cs[n - 1].v == 1);
    } else {
        reveal_with_fuel(units_of, 2);
    }
}

/// The page has at most four components. Where they are stored together, the first
/// one has no more data units than a coding unit can hold, and a single one has no
/// finer resolution than the page. Where they are apart, no tile is smaller than the
/// pixels that share a sample.
pub open spec fn shape_ok(p: JpegPageInput<'_>) -> bool {
    &&& p.spp <= 4
    &&& !p.planar && p.photometric == PHOTO_YCBCR ==> {
        &&& p.subsampling.0 <= 4
        &&& p.subsampling.1 <= 4
        &&& p.spp > 1 ==> p.subsampling.0 * p.subsampling.1 + p.spp <= 11
        &&& p.spp == 1 ==> p.subsampling == (1usize, 1usize)
    }
    &&& p.planar && p.photometric == PHOTO_YCBCR && p.spp > 1 ==> (match p.tiling {
        Some(t) => p.subsampling.0 <= t.0 && p.subsampling.1 <= t.1,
        None => true,
    })
}

/// A length does not change where it is taken as many times as it is divided by.
proof fn lemma_ceil_same(n: int, d: int)
    requires
        0 < n,
        0 < d,
    ensures
        ceil_div(n * d, d) == n,
        ceil_div(n, 1) == n,
        ceil_div(n * 1, d) == ceil_div(n, d),
{
    vstd::arithmetic::div_mod::lemma_fundamental_div_mod_converse(n * d + d - 1, d, n, d - 1);
}

/// A strip or tile of all components is a frame that can be coded.
proof fn lemma_chunky_frame(p: JpegPageInput<'_>, s: Window)
    requires
        input_ok(p),
        usual_tables(p),
        shape_ok(p),
        !p.planar,
        0 < s.w <= 65535,
        0 < s.h <= 65535,
    ensures
        frame_ok(frame_of(chunky_model(p, s), p.bits, p.opts.process), chunky_model(p, s).comps),
{
    let m = chunky_model(p, s);
    let frame = frame_of(m, p.bits, p.opts.process);
    let cs = m.comps;
    let n = cs.len() as int;
    let ycc = p.photometric == PHOTO_YCBCR;
    let sh = p.subsampling.0 as int;
    let sv = p.subsampling.1 as int;
    assert(n == p.spp);
    assert forall|i: int| 0 <= i < n implies (#[trigger] cs[i]) == window_component(p, s, i) && cs[i].h == factors(p, i).0
        && cs[i].v == factors(p, i).1 by {
    }
    assert(cs[0].h == (if ycc { sh } else { 1 }) && cs[0].v == (if ycc { sv } else { 1 }));
    assert forall|i: int| 0 <= i < n implies (#[trigger] cs[i]).h <= cs[0].h && cs[i].v <= cs[0].v by {
    }
    lemma_first_greatest(cs, n);
    assert forall|i: int| 1 <= i < n implies (#[trigger] cs[i]).h == 1 && cs[i].v == 1 by {
    }
    lemma_units(cs, n);
    lemma2_to64();
    assert forall|i: int| 0 <= i < n implies component_ok(frame, #[trigger] cs[i], h_max(cs, n), v_max(cs, n)) by {
        let d = sharing(p, i);
        let t = Window { dh: d.0, dv: d.1, ..s };
        assert(cs[i] == window_component(p, s, i));
        lemma_plane_small(p, i, t);
        lemma_groups(s.w as int, d.0 as int);
        lemma_groups(s.h as int, d.1 as int);
        lemma_ceil_same(s.w as int, h_max(cs, n));
        lemma_ceil_same(s.h as int, v_max(cs, n));
        assert(frame.width == s.w && frame.height == s.h);
    }
}

/// A strip or tile of one component is a frame that can be coded.
proof fn lemma_planar_frame(p: JpegPageInput<'_>, c: int, x0: int, y0: int, w: int, h: int)
    requires
        input_ok(p),
        usual_tables(p),
        0 <= c < p.spp,
        0 <= x0,
        0 <= y0,
        0 < w <= 65535,
        0 < h <= 65535,
    ensures
        frame_ok(
            frame_of(planar_model(p, c, x0, y0, w, h), p.bits, p.opts.process),
            planar_model(p, c, x0, y0, w, h).comps,
        ),
{
    let m = planar_model(p, c, x0, y0, w, h);
    let frame = frame_of(m, p.bits, p.opts.process);
    let cs = m.comps;
    let s = whole_window(p, c);
    let pw = ceil_div(s.w as int, s.dh as int);
    let ph = ceil_div(s.h as int, s.dv as int);
    let plane = window_plane(p, c, s);
    lemma_first_greatest(cs, 1);
    lemma2_to64();
    lemma_plane_small(p, c, s);
    lemma_groups(s.w as int, s.dh as int);
    lemma_groups(s.h as int, s.dv as int);
    lemma_ceil_same(w, 1);
    lemma_ceil_same(h, 1);
    assert(w * h >= 0) by (nonlinear_arith)
        requires
            w > 0,
            h > 0,
    ;
    let part = plane_part(plane, pw, ph, x0, y0, w, h);
    assert forall|i: int| 0 <= i < part.len() implies #[trigger] part[i] <= 255 by {
        vstd::arithmetic::div_mod::lemma_fundamental_div_mod(i, w);
        vstd::arithmetic::div_mod::lemma_mod_bound(i, w);
        vstd::arithmetic::div_mod::lemma_div_pos_is_pos(i, w);
        let y = clamped(y0 + i / w, ph);
        let x = clamped(x0 + i % w, pw);
        assert(0 <= y * pw + x < pw * ph) by (nonlinear_arith)
            requires
                0 <= y < ph,
                0 <= x < pw,
        ;
        assert(part[i] == plane[y * pw + x]);
    }
    assert(cs[0].samples == part);
    assert(component_ok(frame, cs[0], h_max(cs, 1), v_max(cs, 1)));
}

// ----------------------------------------------------------------------
// Pages
// ----------------------------------------------------------------------

/// Every strip or tile of a page is a frame that can be coded, and uses the tables
/// that the page has.
proof fn lemma_segment_frame(p: JpegPageInput<'_>, k: int)
    requires
        input_ok(p),
        usual_tables(p),
        shape_ok(p),
        segments_fit(page_segments(p)),
        0 <= k < page_segments(p).len(),
    ensures
        frame_ok(frame_of(page_segments(p)[k], p.bits, p.opts.process), page_segments(p)[k].comps),
        forall|i: int|
            0 <= i < page_segments(p)[k].comps.len() ==> {
                let c = #[trigger] page_segments(p)[k].comps[i];
                &&& c.quant_id == c.huff_id
                &&& c.huff_id == 0 || (c.huff_id == 1 && has_chrominance(p))
            },
{
    let n = grid_count(p);
    let seg = page_segments(p)[k];
    lemma_grid_count(p);
    assert(seg.width <= 65535 && seg.height <= 65535);
    if p.planar {
        let c = k / n;
        let i = k % n;
        vstd::arithmetic::div_mod::lemma_fundamental_div_mod(k, n);
        vstd::arithmetic::div_mod::lemma_mod_bound(k, n);
        assert(0 <= c < p.spp) by (nonlinear_arith)
            requires
                k == n * c + i,
                0 <= i < n,
                0 <= k < p.spp * n,
        ;
        let d = sharing(p, c);
        match p.tiling {
            Some(t) => {
                let across = ceil_div(p.width as int, t.0 as int);
                lemma_groups(p.width as int, t.0 as int);
                let w = t.0 as int / d.0 as int;
                let h = t.1 as int / d.1 as int;
                vstd::arithmetic::div_mod::lemma_div_non_zero(t.0 as int, d.0 as int);
                vstd::arithmetic::div_mod::lemma_div_non_zero(t.1 as int, d.1 as int);
                vstd::arithmetic::div_mod::lemma_mod_bound(i, across);
                vstd::arithmetic::div_mod::lemma_div_pos_is_pos(i, across);
                assert(0 <= i % across * w && 0 <= i / across * h) by (nonlinear_arith)
                    requires
                        0 <= i % across,
                        0 <= i / across,
                        0 < w,
                        0 < h,
                ;
                lemma_planar_frame(p, c, i % across * w, i / across * h, w, h);
            },
            None => {
                lemma_grid(p.height as int, p.rows_per_strip as int, i);
                let w = ceil_div(p.width as int, d.0 as int);
                let h = ceil_div(strip_rows(p, i), d.1 as int);
                lemma_groups(p.width as int, d.0 as int);
                lemma_groups(strip_rows(p, i), d.1 as int);
                vstd::arithmetic::div_mod::lemma_div_pos_is_pos(i * p.rows_per_strip, d.1 as int);
                lemma_planar_frame(p, c, 0, i * p.rows_per_strip / d.1 as int, w, h);
            },
        }
    } else {
        match p.tiling {
            Some(t) => {
                let across = ceil_div(p.width as int, t.0 as int);
                lemma_chunky_frame(
                    p,
                    Window {
                        x0: (k % across * t.0) as usize,
                        y0: (k / across * t.1) as usize,
                        w: t.0,
                        h: t.1,
                        dh: 1,
                        dv: 1,
                    },
                );
            },
            None => {
                lemma_grid(p.height as int, p.rows_per_strip as int, k);
                lemma_chunky_frame(
                    p,
                    Window {
                        x0: 0,
                        y0: (k * p.rows_per_strip) as usize,
                        w: p.width,
                        h: strip_rows(p, k) as usize,
                        dh: 1,
                        dv: 1,
                    },
                );
            },
        }
    }
}

/// There are as many blocks of small coefficients as a strip or tile has.
pub open spec fn coefs_suit(p: JpegPageInput<'_>, s: SegmentModel, blocks: Seq<[i16; 64]>) -> bool {
    &&& blocks.len() == block_count(frame_of(s, p.bits, p.opts.process), s.comps)
    &&& forall|k: int| 0 <= k < blocks.len() ==> small_block(#[trigger] blocks[k]@)
}

/// The tables of a page with the usual Huffman tables are usual ones.
proof fn lemma_usual_at(p: JpegPageInput<'_>, i: int)
    requires
        i == 0 || (i == 1 && has_chrominance(p)),
    ensures
        usual_at(tables_with_usual(p), i),
        tables_with_usual(p).quant[i] is Some,
{
    reveal(usual_dc);
    reveal(usual_ac);
}

/// A page of 8-bit samples that is coded with the usual tables always has streams,
/// provided that its strips or tiles are no greater than a frame can be and its
/// coefficients no greater than those of such samples.
pub proof fn law_usual_page(p: JpegPageInput<'_>, coefs: Seq<Seq<[i16; 64]>>)
    requires
        input_ok(p),
        usual_tables(p),
        shape_ok(p),
        segments_fit(page_segments(p)),
        coefs.len() == page_segments(p).len(),
        forall|k: int| 0 <= k < coefs.len() ==> coefs_suit(p, page_segments(p)[k], #[trigger] coefs[k]),
    ensures
        page_coded(p, coefs),
{
    let segs = page_segments(p);
    let t = tables_with_usual(p);
    assert forall|k: int| 0 <= k < segs.len() implies #[trigger] segment_stream(p, segs, coefs, k) is Some by {
        let frame = frame_of(segs[k], p.bits, p.opts.process);
        let cs = segs[k].comps;
        let blocks = coefs[k];
        lemma_segment_frame(p, k);
        assert(coefs_suit(p, segs[k], blocks));
        assert forall|i: int| 0 <= i < cs.len() implies usual_at(t, (#[trigger] cs[i]).huff_id as int)
            && t.quant[cs[i].quant_id as int] is Some by {
            lemma_usual_at(p, cs[i].huff_id as int);
        }
        assert forall|i: int| 0 <= i < blocks.len() implies block_ok(#[trigger] blocks[i]@) by {
            assert(small_block(blocks[i]@));
        }
        assert(scan_ok(frame, cs, t, blocks));
        law_usual_stream(frame, cs, t, p.opts.tables is PerSegment, blocks);
        assert(segment_tables(p, segs, coefs, k) == Some(t));
    }
}

} // verus!
