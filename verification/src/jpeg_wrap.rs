//! Pages as JPEG streams: which samples each strip or tile holds, and which tables
//! they share.
use vstd::prelude::*;
use crate::error::{invalid_with, Result};
use crate::huffman::{HuffModel, HuffSpec};
use crate::huffman::{BITS_AC_CHROMINANCE, BITS_AC_LUMINANCE, BITS_DC_CHROMINANCE, BITS_DC_LUMINANCE};
use crate::huffman::{VAL_AC_CHROMINANCE, VAL_AC_LUMINANCE, VAL_DC_CHROMINANCE, VAL_DC_LUMINANCE};
use crate::huffman_stats::{no_symbol, table_bits, table_vals, HuffStats};
use crate::ifd::{uint_at, ByteOrder};
use crate::jpeg_enc::{counted, encode_frame, frame_stream, gather_stats, models, no_tables};
use crate::jpeg_enc::{scaled_quant_table, scaled_step, scan_ok, scan_symbols, tables_bytes, ComponentModel, EOI, SOI};
use crate::jpeg_enc::{clamped, JpegComponent, JpegFrame, JpegProcess, JpegTableSet, TablesModel, QUANT_CHROMINANCE_K2};
use crate::jpeg_enc::QUANT_LUMINANCE_K1;
use crate::render::ceil_div;
use crate::types::PHOTO_YCBCR;

verus! {

/// Where the tables of a page stand.
#[derive(Debug, Clone, Copy, PartialEq, Eq, Default)]
pub enum JpegTablesLayout {
    /// All of them once, in a field of the page.
    #[default]
    Shared,
    /// In every strip or tile, those that it uses.
    PerSegment,
}

/// How a page is coded.
#[derive(Debug, Clone, Copy, PartialEq, Eq)]
pub struct JpegOptions {
    /// Quality, from 1 to 100.
    pub quality: u8,
    /// Where the tables stand.
    pub tables: JpegTablesLayout,
    /// The process.
    pub process: JpegProcess,
    /// Whether Huffman tables are made for the page. They always are for lossless
    /// coding and for samples of more than 8 bits.
    pub optimize_huffman: bool,
}

impl Default for JpegOptions {
    fn default() -> (r: JpegOptions)
        ensures
            r.quality == 75,
            r.tables is Shared,
            r.process is Dct,
            !r.optimize_huffman,
    {
        JpegOptions {
            quality: 75,
            tables: JpegTablesLayout::Shared,
            process: JpegProcess::Dct,
            optimize_huffman: false,
        }
    }
}

/// A page that is to be coded.
#[derive(Debug, Clone, Copy)]
pub struct JpegPageInput<'a> {
    /// Samples, those of a pixel together: a byte each, or two with the low byte
    /// first where they have more than 8 bits.
    pub raw: &'a [u8],
    /// Pixels in a row.
    pub width: usize,
    /// Rows.
    pub height: usize,
    /// Samples of a pixel.
    pub spp: usize,
    /// Bits of a sample.
    pub bits: u16,
    /// What the samples mean.
    pub photometric: u16,
    /// How many pixels, across and down, share their chrominance.
    pub subsampling: (usize, usize),
    /// Whether components are stored apart.
    pub planar: bool,
    /// Width and height of tiles, for a page of tiles.
    pub tiling: Option<(usize, usize)>,
    /// Rows of a strip.
    pub rows_per_strip: usize,
    /// How the page is coded.
    pub opts: JpegOptions,
}

/// The samples are all there, and strips or tiles are not empty.
pub open spec fn input_ok(p: JpegPageInput<'_>) -> bool {
    &&& p.width > 0
    &&& p.height > 0
    &&& p.spp > 0
    &&& p.raw@.len() >= p.width * p.height * p.spp * (if p.bits > 8 { 2int } else { 1 })
    &&& p.subsampling.0 > 0
    &&& p.subsampling.1 > 0
    &&& p.tiling matches Some(t) ==> t.0 > 0 && t.1 > 0
    &&& p.rows_per_strip > 0
}

/// Sample `c` of a pixel.
pub open spec fn page_sample(p: JpegPageInput<'_>, x: int, y: int, c: int) -> int {
    let i = (y * p.width + x) * p.spp + c;
    if p.bits > 8 { uint_at(ByteOrder::Little, p.raw@, 2 * i, 2) as int } else { p.raw@[i] as int }
}

/// The sum of sample `c` over `n` pixels of a row; beyond the edges of the page the
/// nearest pixel counts.
pub open spec fn row_sum(p: JpegPageInput<'_>, c: int, x: int, y: int, n: int) -> int
    decreases n,
{
    if n <= 0 {
        0
    } else {
        row_sum(p, c, x, y, n - 1) + page_sample(
            p,
            clamped(x + n - 1, p.width as int),
            clamped(y, p.height as int),
            c,
        )
    }
}

/// The sum of sample `c` over `n` rows of `cols` pixels.
pub open spec fn box_sum(p: JpegPageInput<'_>, c: int, x: int, y: int, cols: int, n: int) -> int
    decreases n,
{
    if n <= 0 { 0 } else { box_sum(p, c, x, y, cols, n - 1) + row_sum(p, c, x, y + n - 1, cols) }
}

/// A part of a page: where it starts, how wide and high it is, and how many pixels
/// across and down are averaged.
pub struct Window {
    pub x0: usize,
    pub y0: usize,
    pub w: usize,
    pub h: usize,
    pub dh: usize,
    pub dv: usize,
}

/// Sample `i` of component `c` of a part of a page: the rounded average of those
/// pixels of a group that are in the part.
pub open spec fn window_sample(p: JpegPageInput<'_>, c: int, s: Window, i: int) -> int {
    let pw = ceil_div(s.w as int, s.dh as int);
    let x = i % pw * s.dh;
    let y = i / pw * s.dv;
    let cols = if s.dh <= s.w - x { s.dh as int } else { s.w - x };
    let rows = if s.dv <= s.h - y { s.dv as int } else { s.h - y };
    let n = cols * rows;
    (box_sum(p, c, s.x0 + x, s.y0 + y, cols, rows) + n / 2) / n
}

/// The samples of component `c` of a part of a page.
pub open spec fn window_plane(p: JpegPageInput<'_>, c: int, s: Window) -> Seq<u16> {
    Seq::new(
        (ceil_div(s.w as int, s.dh as int) * ceil_div(s.h as int, s.dv as int)) as nat,
        |i: int| window_sample(p, c, s, i) as u16,
    )
}

/// How many pixels share a sample of component `c`.
pub open spec fn sharing(p: JpegPageInput<'_>, c: int) -> (usize, usize) {
    if p.photometric == PHOTO_YCBCR && c > 0 { p.subsampling } else { (1, 1) }
}

fn decimation(p: &JpegPageInput<'_>, c: usize) -> (d: (usize, usize))
    ensures
        d == sharing(*p, c as int),
{
    if p.photometric == PHOTO_YCBCR && c > 0 {
        p.subsampling
    } else {
        (1, 1)
    }
}

/// The sampling factors of component `c` in a frame of all components.
pub open spec fn factors(p: JpegPageInput<'_>, c: int) -> (u8, u8) {
    if p.photometric == PHOTO_YCBCR && c == 0 {
        ((p.subsampling.0 % 256) as u8, (p.subsampling.1 % 256) as u8)
    } else {
        (1u8, 1u8)
    }
}

fn frame_factors(p: &JpegPageInput<'_>, c: usize) -> (f: (u8, u8))
    ensures
        f == factors(*p, c as int),
{
    if p.photometric == PHOTO_YCBCR && c == 0 {
        ((p.subsampling.0 % 256) as u8, (p.subsampling.1 % 256) as u8)
    } else {
        (1, 1)
    }
}

/// The place of the tables of component `c`.
pub open spec fn table_place(photometric: u16, c: int) -> u8 {
    if photometric == PHOTO_YCBCR && c > 0 { 1 } else { 0 }
}

fn table_id(photometric: u16, c: usize) -> (t: u8)
    ensures
        t == table_place(photometric, c as int),
{
    if photometric == PHOTO_YCBCR && c > 0 {
        1
    } else {
        0
    }
}

/// Samples are where they are looked for.
proof fn lemma_sample_index(p: JpegPageInput<'_>, x: int, y: int, c: int)
    requires
        input_ok(p),
        0 <= x < p.width,
        0 <= y < p.height,
        0 <= c < p.spp,
    ensures
        ({
            let i = (y * p.width + x) * p.spp + c;
            &&& 0 <= y * p.width <= y * p.width + x < p.width * p.height
            &&& 0 <= (y * p.width + x) * p.spp
            &&& 0 <= i < p.width * p.height * p.spp
            &&& p.width * p.height <= p.width * p.height * p.spp <= p.raw@.len()
            &&& p.bits > 8 ==> 2 * i + 1 < p.raw@.len()
            &&& p.bits <= 8 ==> i < p.raw@.len()
        }),
{
    let w = p.width as int;
    let h = p.height as int;
    let s = p.spp as int;
    let k = y * w + x;
    assert(0 <= y * w) by (nonlinear_arith)
        requires
            0 <= y,
            0 < w,
    ;
    assert(k < w * h) by (nonlinear_arith)
        requires
            k == y * w + x,
            0 <= y < h,
            0 <= x < w,
    ;
    assert(0 <= k * s) by (nonlinear_arith)
        requires
            0 <= k,
            0 < s,
    ;
    assert(k * s + c < (w * h) * s) by (nonlinear_arith)
        requires
            0 <= k < w * h,
            0 <= c < s,
    ;
    let t = w * h * s;
    assert(t * 2 == 2 * t && t * 1 == t);
    assert(w * h <= (w * h) * s) by (nonlinear_arith)
        requires
            0 < w * h,
            1 <= s,
    ;
}

/// Reads a sample of a pixel.
fn sample_at(p: &JpegPageInput<'_>, x: usize, y: usize, c: usize) -> (v: u16)
    requires
        input_ok(*p),
        x < p.width,
        y < p.height,
        c < p.spp,
    ensures
        v == page_sample(*p, x as int, y as int, c as int),
{
    proof {
        lemma_sample_index(*p, x as int, y as int, c as int);
        assert(p.raw@.len() == p.raw.len());
    }
    let i: usize = (y * p.width + x) * p.spp + c;
    if p.bits > 8 {
        proof {
            reveal_with_fuel(uint_at, 3);
        }
        p.raw[2 * i] as u16 + 256 * p.raw[2 * i + 1] as u16
    } else {
        p.raw[i] as u16
    }
}

/// A place moved on, but not beyond the last one.
fn move_on(x0: usize, d: usize, n: usize) -> (x: usize)
    requires
        0 < n,
    ensures
        x == clamped(x0 + d, n as int),
        x < n,
{
    if x0 < n && d <= n - 1 - x0 {
        x0 + d
    } else {
        n - 1
    }
}

proof fn lemma_row_sum_bound(p: JpegPageInput<'_>, c: int, x: int, y: int, n: int)
    requires
        input_ok(p),
        0 <= c < p.spp,
        0 <= x,
        0 <= y,
        0 <= n,
    ensures
        0 <= row_sum(p, c, x, y, n) <= 65535 * n,
    decreases n,
{
    if n > 0 {
        lemma_row_sum_bound(p, c, x, y, n - 1);
        lemma_page_sample_bound(p, clamped(x + n - 1, p.width as int), clamped(y, p.height as int), c);
    }
}

proof fn lemma_page_sample_bound(p: JpegPageInput<'_>, x: int, y: int, c: int)
    ensures
        0 <= page_sample(p, x, y, c) <= 65535,
{
    reveal_with_fuel(uint_at, 3);
}

proof fn lemma_box_sum_bound(p: JpegPageInput<'_>, c: int, x: int, y: int, cols: int, n: int)
    requires
        input_ok(p),
        0 <= c < p.spp,
        0 <= x,
        0 <= y,
        0 <= cols,
        0 <= n,
    ensures
        0 <= box_sum(p, c, x, y, cols, n) <= 65535 * (cols * n),
    decreases n,
{
    if n > 0 {
        lemma_box_sum_bound(p, c, x, y, cols, n - 1);
        lemma_row_sum_bound(p, c, x, y + n - 1, cols);
        assert(cols * n == cols * (n - 1) + cols) by (nonlinear_arith);
    } else {
        assert(cols * n == 0) by (nonlinear_arith)
            requires
                n == 0,
        ;
    }
}

/// The sum of a sample over a group of pixels.
fn sum_box(p: &JpegPageInput<'_>, c: usize, x0: usize, dx: usize, y0: usize, dy: usize, cols: usize, rows: usize) -> (
    sum: u128)
    requires
        input_ok(*p),
        c < p.spp,
        x0 < p.width,
        y0 < p.height,
        dx + cols <= usize::MAX,
        dy + rows <= usize::MAX,
        cols * rows <= usize::MAX,
    ensures
        sum == box_sum(*p, c as int, x0 + dx, y0 + dy, cols as int, rows as int),
{
    let mut sum: u128 = 0;
    let mut j: usize = 0;
    while j < rows
        invariant
            j <= rows,
            input_ok(*p),
            c < p.spp,
            x0 < p.width,
            y0 < p.height,
            dx + cols <= usize::MAX,
            dy + rows <= usize::MAX,
            cols * rows <= usize::MAX,
            sum == box_sum(*p, c as int, x0 + dx, y0 + dy, cols as int, j as int),
        decreases rows - j,
    {
        let y: usize = move_on(y0, dy + j, p.height);
        let ghost whole = sum as int;
        let ghost yy = y0 + dy + j;
        proof {
            lemma_box_sum_bound(*p, c as int, x0 + dx, y0 + dy, cols as int, j as int);
            assert(cols * j + cols <= cols * rows) by (nonlinear_arith)
                requires
                    j + 1 <= rows,
                    0 <= cols,
            ;
        }
        let mut i: usize = 0;
        while i < cols
            invariant
                i <= cols,
                input_ok(*p),
                c < p.spp,
                x0 < p.width,
                y == clamped(yy, p.height as int),
                0 <= y < p.height,
                0 <= yy,
                dx + cols <= usize::MAX,
                0 <= whole <= 65535 * (cols * j),
                cols * j + cols <= usize::MAX,
                sum == whole + row_sum(*p, c as int, x0 + dx, yy, i as int),
            decreases cols - i,
        {
            let x: usize = move_on(x0, dx + i, p.width);
            proof {
                lemma_row_sum_bound(*p, c as int, x0 + dx, yy, i as int);
            }
            sum = sum + sample_at(p, x, y, c) as u128;
            i = i + 1;
        }
        j = j + 1;
    }
    sum
}

/// Groups cover what they are made of.
pub proof fn lemma_groups(n: int, d: int)
    requires
        1 <= n,
        1 <= d,
    ensures
        1 <= ceil_div(n, d) <= n,
        (n - 1) / d + 1 == ceil_div(n, d),
        (ceil_div(n, d) - 1) * d < n,
{
    vstd::arithmetic::div_mod::lemma_div_plus_one(n - 1, d);
    vstd::arithmetic::div_mod::lemma_fundamental_div_mod(n - 1, d);
    vstd::arithmetic::div_mod::lemma_mod_bound(n - 1, d);
    let q = (n - 1) / d;
    assert(q * d == d * q) by (nonlinear_arith);
    assert(0 <= q <= n - 1) by (nonlinear_arith)
        requires
            n - 1 == d * q + (n - 1) % d,
            0 <= (n - 1) % d < d,
            1 <= d,
            1 <= n,
    ;
}

fn groups(n: usize, d: usize) -> (q: usize)
    requires
        1 <= n,
        1 <= d,
    ensures
        q == ceil_div(n as int, d as int),
        1 <= q <= n,
{
    proof {
        lemma_groups(n as int, d as int);
    }
    (n - 1) / d + 1
}

/// A window of a page whose samples can be counted.
pub open spec fn window_ok(p: JpegPageInput<'_>, s: Window) -> bool {
    &&& s.x0 < p.width
    &&& s.y0 < p.height
    &&& 1 <= s.w
    &&& 1 <= s.h
    &&& 1 <= s.dh
    &&& 1 <= s.dv
    &&& s.w * s.h <= usize::MAX
}

/// The samples of a component of a part of a page, and how many there are across
/// and down.
fn extract_plane(p: &JpegPageInput<'_>, c: usize, s: &Window) -> (r: (Vec<u16>, usize, usize))
    requires
        input_ok(*p),
        c < p.spp,
        window_ok(*p, *s),
    ensures
        r.0@ == window_plane(*p, c as int, *s),
        r.1 == ceil_div(s.w as int, s.dh as int),
        r.2 == ceil_div(s.h as int, s.dv as int),
        1 <= r.1 <= s.w,
        1 <= r.2 <= s.h,
        r.0@.len() == r.1 * r.2,
{
    let pw: usize = groups(s.w, s.dh);
    let ph: usize = groups(s.h, s.dv);
    proof {
        lemma_groups(s.w as int, s.dh as int);
        lemma_groups(s.h as int, s.dv as int);
        assert(1 <= pw * ph <= s.w * s.h) by (nonlinear_arith)
            requires
                1 <= pw <= s.w,
                1 <= ph <= s.h,
        ;
    }
    let n: usize = pw * ph;
    let mut out: Vec<u16> = Vec::new();
    let mut i: usize = 0;
    while i < n
        invariant
            i <= n,
            n == pw * ph,
            input_ok(*p),
            c < p.spp,
            window_ok(*p, *s),
            pw == ceil_div(s.w as int, s.dh as int),
            ph == ceil_div(s.h as int, s.dv as int),
            1 <= pw,
            1 <= ph,
            (pw - 1) * s.dh < s.w,
            (ph - 1) * s.dv < s.h,
            out@.len() == i,
            forall|k: int| 0 <= k < i ==> #[trigger] out@[k] == window_sample(*p, c as int, *s, k),
        decreases n - i,
    {
        let bx: usize = i % pw;
        let by: usize = i / pw;
        proof {
            crate::render::lemma_pixel_place(i as int, pw as int, ph as int);
            assert(bx * s.dh <= (pw - 1) * s.dh) by (nonlinear_arith)
                requires
                    bx <= pw - 1,
                    0 <= s.dh,
            ;
            assert(by * s.dv <= (ph - 1) * s.dv) by (nonlinear_arith)
                requires
                    by <= ph - 1,
                    0 <= s.dv,
            ;
            assert(0 <= bx * s.dh) by (nonlinear_arith)
                requires
                    0 <= bx,
                    0 <= s.dh,
            ;
            assert(0 <= by * s.dv) by (nonlinear_arith)
                requires
                    0 <= by,
                    0 <= s.dv,
            ;
        }
        let x: usize = bx * s.dh;
        let y: usize = by * s.dv;
        let cols: usize = if s.dh <= s.w - x { s.dh } else { s.w - x };
        let rows: usize = if s.dv <= s.h - y { s.dv } else { s.h - y };
        proof {
            assert(1 <= cols * rows <= s.w * s.h) by (nonlinear_arith)
                requires
                    1 <= cols <= s.w,
                    1 <= rows <= s.h,
            ;
            lemma_box_sum_bound(*p, c as int, s.x0 + x, s.y0 + y, cols as int, rows as int);
        }
        let sum: u128 = sum_box(p, c, s.x0, x, s.y0, y, cols, rows);
        let m: u128 = cols as u128 * rows as u128;
        let mean: u128 = (sum + m / 2) / m;
        proof {
            lemma_mean_bound(sum as int, m as int);
        }
        out.push(mean as u16);
        i = i + 1;
    }
    assert(out@ =~= window_plane(*p, c as int, *s));
    (out, pw, ph)
}

/// An average is no greater than what it is made of.
proof fn lemma_mean_bound(sum: int, n: int)
    requires
        0 <= sum <= 65535 * n,
        1 <= n,
    ensures
        0 <= (sum + n / 2) / n <= 65535,
{
    let v = sum + n / 2;
    vstd::arithmetic::div_mod::lemma_fundamental_div_mod(v, n);
    vstd::arithmetic::div_mod::lemma_mod_bound(v, n);
    let q = v / n;
    assert(0 <= n / 2 < n) by (nonlinear_arith)
        requires
            n >= 1,
    ;
    assert(0 <= q <= 65535) by (nonlinear_arith)
        requires
            v == n * q + v % n,
            0 <= v % n < n,
            0 <= v < 65536 * n,
            n >= 1,
    ;
}

// ----------------------------------------------------------------------
// Strips and tiles
// ----------------------------------------------------------------------

/// A component of a strip or tile.
pub struct CompPlane {
    /// Its samples.
    pub samples: Vec<u16>,
    /// Samples in a row.
    pub width: usize,
    /// Rows.
    pub height: usize,
    /// Horizontal sampling factor.
    pub h: u8,
    /// Vertical sampling factor.
    pub v: u8,
    /// Place of its table of quantiser steps.
    pub quant_id: u8,
    /// Place of its Huffman tables.
    pub huff_id: u8,
}

impl View for CompPlane {
    type V = ComponentModel;

    open spec fn view(&self) -> ComponentModel {
        ComponentModel {
            samples: self.samples@,
            width: self.width,
            height: self.height,
            h: self.h,
            v: self.v,
            quant_id: self.quant_id,
            huff_id: self.huff_id,
        }
    }
}

/// The samples of a strip or tile.
pub struct Segment {
    /// Pixels in a row.
    pub width: u16,
    /// Rows.
    pub height: u16,
    /// Its components.
    pub comps: Vec<CompPlane>,
}

/// What a strip or tile holds.
#[verifier::ext_equal]
pub struct SegmentModel {
    pub width: int,
    pub height: int,
    pub comps: Seq<ComponentModel>,
}

/// What components of a strip or tile hold.
pub open spec fn plane_models(v: Seq<CompPlane>) -> Seq<ComponentModel> {
    Seq::new(v.len(), |i: int| v[i]@)
}

impl View for Segment {
    type V = SegmentModel;

    open spec fn view(&self) -> SegmentModel {
        SegmentModel { width: self.width as int, height: self.height as int, comps: plane_models(self.comps@) }
    }
}

/// What strips or tiles hold.
pub open spec fn segment_models(v: Seq<Segment>) -> Seq<SegmentModel> {
    Seq::new(v.len(), |i: int| v[i]@)
}

impl Segment {
    /// The components for coding.
    pub fn components(&self) -> (r: Vec<JpegComponent<'_>>)
        ensures
            models(r@) == self@.comps,
    {
        let mut r: Vec<JpegComponent<'_>> = Vec::new();
        let n: usize = self.comps.len();
        let mut i: usize = 0;
        while i < n
            invariant
                i <= n,
                n == self.comps@.len(),
                r@.len() == i,
                forall|k: int| 0 <= k < i ==> (#[trigger] r@[k])@ == self.comps@[k]@,
            decreases n - i,
        {
            let c = &self.comps[i];
            r.push(
                JpegComponent {
                    samples: c.samples.as_slice(),
                    width: c.width,
                    height: c.height,
                    h: c.h,
                    v: c.v,
                    quant_id: c.quant_id,
                    huff_id: c.huff_id,
                },
            );
            i = i + 1;
        }
        assert(models(r@) =~= self@.comps);
        r
    }

    /// What holds of the strip or tile as a frame.
    pub fn frame(&self, bits: u16, process: JpegProcess) -> (f: JpegFrame)
        ensures
            f == frame_of(self@, bits, process),
    {
        JpegFrame { width: self.width, height: self.height, precision: (bits % 256) as u8, process }
    }
}

/// A strip or tile as a frame.
pub open spec fn frame_of(s: SegmentModel, bits: u16, process: JpegProcess) -> JpegFrame {
    JpegFrame { width: s.width as u16, height: s.height as u16, precision: (bits % 256) as u8, process }
}

/// Component `c` of a strip or tile of all components.
pub open spec fn window_component(p: JpegPageInput<'_>, s: Window, c: int) -> ComponentModel {
    let d = sharing(p, c);
    let t = Window { dh: d.0, dv: d.1, ..s };
    ComponentModel {
        samples: window_plane(p, c, t),
        width: ceil_div(s.w as int, d.0 as int) as usize,
        height: ceil_div(s.h as int, d.1 as int) as usize,
        h: factors(p, c).0,
        v: factors(p, c).1,
        quant_id: table_place(p.photometric, c),
        huff_id: table_place(p.photometric, c),
    }
}

/// A strip or tile of all components.
pub open spec fn chunky_model(p: JpegPageInput<'_>, s: Window) -> SegmentModel {
    SegmentModel {
        width: s.w as int,
        height: s.h as int,
        comps: Seq::new(p.spp as nat, |c: int| window_component(p, s, c)),
    }
}

/// A part of a plane; beyond the edges the nearest sample counts.
pub open spec fn plane_part(plane: Seq<u16>, plane_w: int, plane_h: int, x0: int, y0: int, w: int, h: int) -> Seq<u16> {
    Seq::new(
        (w * h) as nat,
        |i: int| plane[clamped(y0 + i / w, plane_h) * plane_w + clamped(x0 + i % w, plane_w)],
    )
}

/// The whole page as a window for component `c`.
pub open spec fn whole_window(p: JpegPageInput<'_>, c: int) -> Window {
    Window { x0: 0, y0: 0, w: p.width, h: p.height, dh: sharing(p, c).0, dv: sharing(p, c).1 }
}

/// A strip or tile of component `c` alone: a part of the plane of the component.
pub open spec fn planar_model(p: JpegPageInput<'_>, c: int, x0: int, y0: int, w: int, h: int) -> SegmentModel {
    let s = whole_window(p, c);
    SegmentModel {
        width: w,
        height: h,
        comps: seq![
            ComponentModel {
                samples: plane_part(
                    window_plane(p, c, s),
                    ceil_div(s.w as int, s.dh as int),
                    ceil_div(s.h as int, s.dv as int),
                    x0,
                    y0,
                    w,
                    h,
                ),
                width: w as usize,
                height: h as usize,
                h: 1,
                v: 1,
                quant_id: table_place(p.photometric, c),
                huff_id: table_place(p.photometric, c),
            },
        ],
    }
}

/// Rows of strip `i`.
pub open spec fn strip_rows(p: JpegPageInput<'_>, i: int) -> int {
    let left = p.height - i * p.rows_per_strip;
    if p.rows_per_strip <= left { p.rows_per_strip as int } else { left }
}

/// Strips or tiles of a page, or of one of its planes.
pub open spec fn grid_count(p: JpegPageInput<'_>) -> int {
    match p.tiling {
        Some(t) => ceil_div(p.width as int, t.0 as int) * ceil_div(p.height as int, t.1 as int),
        None => ceil_div(p.height as int, p.rows_per_strip as int),
    }
}

/// Strip or tile `i` of all components: strips from top to bottom, tiles row by
/// row.
pub open spec fn chunky_at(p: JpegPageInput<'_>, i: int) -> SegmentModel {
    match p.tiling {
        Some(t) => {
            let across = ceil_div(p.width as int, t.0 as int);
            chunky_model(
                p,
                Window {
                    x0: (i % across * t.0) as usize,
                    y0: (i / across * t.1) as usize,
                    w: t.0,
                    h: t.1,
                    dh: 1,
                    dv: 1,
                },
            )
        },
        None => chunky_model(
            p,
            Window {
                x0: 0,
                y0: (i * p.rows_per_strip) as usize,
                w: p.width,
                h: strip_rows(p, i) as usize,
                dh: 1,
                dv: 1,
            },
        ),
    }
}

/// Strip or tile `i` of component `c`. Places and sizes are scaled down where
/// pixels share samples, heights of strips are rounded up.
pub open spec fn planar_at(p: JpegPageInput<'_>, c: int, i: int) -> SegmentModel {
    let d = sharing(p, c);
    match p.tiling {
        Some(t) => {
            let across = ceil_div(p.width as int, t.0 as int);
            let w = t.0 as int / d.0 as int;
            let h = t.1 as int / d.1 as int;
            planar_model(p, c, i % across * w, i / across * h, w, h)
        },
        None => planar_model(
            p,
            c,
            0,
            i * p.rows_per_strip / d.1 as int,
            ceil_div(p.width as int, d.0 as int),
            ceil_div(strip_rows(p, i), d.1 as int),
        ),
    }
}

/// All strips or tiles of a page, plane by plane where components are apart.
pub open spec fn page_segments(p: JpegPageInput<'_>) -> Seq<SegmentModel> {
    let n = grid_count(p);
    if p.planar {
        Seq::new((p.spp * n) as nat, |k: int| planar_at(p, k / n, k % n))
    } else {
        Seq::new(n as nat, |i: int| chunky_at(p, i))
    }
}

/// No strip or tile is too great for a frame.
pub open spec fn segments_fit(v: Seq<SegmentModel>) -> bool {
    forall|k: int| 0 <= k < v.len() ==> (#[trigger] v[k]).width <= 65535 && v[k].height <= 65535
}

/// A strip or tile of all components, unless it is too great.
fn chunky_segment(p: &JpegPageInput<'_>, x0: usize, y0: usize, w: usize, h: usize) -> (r: Result<Segment>)
    requires
        input_ok(*p),
        x0 < p.width,
        y0 < p.height,
        1 <= w,
        1 <= h,
    ensures
        (match r {
            Ok(s) => w <= 65535 && h <= 65535 && s@ == chunky_model(*p, (Window { x0, y0, w, h, dh: 1, dv: 1 })),
            Err(e) => e is InvalidData && (w > 65535 || h > 65535),
        }),
{
    if w > 65535 || h > 65535 {
        return Err(
            invalid_with("TIFF encode/JPEG: segment dimension ", if w > h { w as u64 } else { h as u64 }, " exceeds 65535"),
        );
    }
    let ghost win = Window { x0, y0, w, h, dh: 1, dv: 1 };
    assert(w * h <= 65535 * 65535) by (nonlinear_arith)
        requires
            w <= 65535,
            h <= 65535,
    ;
    let mut comps: Vec<CompPlane> = Vec::new();
    let mut c: usize = 0;
    while c < p.spp
        invariant
            c <= p.spp,
            input_ok(*p),
            x0 < p.width,
            y0 < p.height,
            1 <= w,
            1 <= h,
            w * h <= 65535 * 65535,
            win == (Window { x0, y0, w, h, dh: 1, dv: 1 }),
            comps@.len() == c,
            forall|k: int| 0 <= k < c ==> (#[trigger] comps@[k])@ == window_component(*p, win, k),
        decreases p.spp - c,
    {
        let d = decimation(p, c);
        let s = Window { x0, y0, w, h, dh: d.0, dv: d.1 };
        let (samples, width, height) = extract_plane(p, c, &s);
        let f = frame_factors(p, c);
        let id: u8 = table_id(p.photometric, c);
        comps.push(CompPlane { samples, width, height, h: f.0, v: f.1, quant_id: id, huff_id: id });
        c = c + 1;
    }
    let s = Segment { width: w as u16, height: h as u16, comps };
    assert(s@.comps =~= chunky_model(*p, win).comps);
    Ok(s)
}

/// A part of the plane of a component, unless it is too great.
fn planar_segment(
    p: &JpegPageInput<'_>,
    plane: &Vec<u16>,
    plane_w: usize,
    plane_h: usize,
    c: usize,
    x0: usize,
    y0: usize,
    w: usize,
    h: usize,
) -> (r: Result<Segment>)
    requires
        input_ok(*p),
        c < p.spp,
        plane@ == window_plane(*p, c as int, whole_window(*p, c as int)),
        plane_w == ceil_div(p.width as int, sharing(*p, c as int).0 as int),
        plane_h == ceil_div(p.height as int, sharing(*p, c as int).1 as int),
        1 <= plane_w,
        1 <= plane_h,
        plane@.len() == plane_w * plane_h,
    ensures
        (match r {
            Ok(s) => w <= 65535 && h <= 65535 && s@ == planar_model(
                *p,
                c as int,
                x0 as int,
                y0 as int,
                w as int,
                h as int,
            ),
            Err(e) => e is InvalidData && (w > 65535 || h > 65535),
        }),
{
    if w > 65535 || h > 65535 {
        return Err(
            invalid_with(
                "TIFF encode/JPEG: plane segment dimension ",
                if w > h { w as u64 } else { h as u64 },
                " exceeds 65535",
            ),
        );
    }
    assert(w * h <= 65535 * 65535) by (nonlinear_arith)
        requires
            w <= 65535,
            h <= 65535,
    ;
    let ghost part = plane_part(plane@, plane_w as int, plane_h as int, x0 as int, y0 as int, w as int, h as int);
    let n: usize = w * h;
    let mut samples: Vec<u16> = Vec::new();
    let mut i: usize = 0;
    while i < n
        invariant
            i <= n,
            n == w * h,
            w <= 65535,
            h <= 65535,
            1 <= plane_w,
            1 <= plane_h,
            plane@.len() == plane_w * plane_h,
            part == plane_part(plane@, plane_w as int, plane_h as int, x0 as int, y0 as int, w as int, h as int),
            samples@.len() == i,
            forall|k: int| 0 <= k < i ==> #[trigger] samples@[k] == part[k],
        decreases n - i,
    {
        proof {
            assert(w > 0) by (nonlinear_arith)
                requires
                    0 <= i < w * h,
                    w >= 0,
                    h >= 0,
            ;
            assert(h > 0) by (nonlinear_arith)
                requires
                    0 <= i < w * h,
                    w >= 0,
                    h >= 0,
            ;
            crate::render::lemma_pixel_place(i as int, w as int, h as int);
        }
        let sx: usize = move_on(x0, i % w, plane_w);
        let sy: usize = move_on(y0, i / w, plane_h);
        proof {
            assert(0 <= sy * plane_w && sy * plane_w + sx < plane_w * plane_h) by (nonlinear_arith)
                requires
                    0 <= sy < plane_h,
                    0 <= sx < plane_w,
            ;
            assert(plane@.len() == plane.len());
        }
        samples.push(plane[sy * plane_w + sx]);
        i = i + 1;
    }
    assert(samples@ =~= part);
    let id: u8 = table_id(p.photometric, c);
    let mut comps: Vec<CompPlane> = Vec::new();
    comps.push(CompPlane { samples, width: w, height: h, h: 1, v: 1, quant_id: id, huff_id: id });
    let s = Segment { width: w as u16, height: h as u16, comps };
    assert(s@.comps =~= planar_model(*p, c as int, x0 as int, y0 as int, w as int, h as int).comps);
    Ok(s)
}

/// A grid of strips or tiles lies on the page.
pub proof fn lemma_grid(n: int, d: int, i: int)
    requires
        1 <= n,
        1 <= d,
        0 <= i < ceil_div(n, d),
    ensures
        0 <= i * d < n,
{
    lemma_groups(n, d);
    assert(0 <= i * d <= (ceil_div(n, d) - 1) * d) by (nonlinear_arith)
        requires
            0 <= i <= ceil_div(n, d) - 1,
            1 <= d,
    ;
}

/// There are no more strips or tiles than pixels.
pub proof fn lemma_grid_count(p: JpegPageInput<'_>)
    requires
        input_ok(p),
    ensures
        1 <= grid_count(p) <= p.width * p.height <= p.raw@.len(),
        p.spp * grid_count(p) <= p.raw@.len(),
{
    let w = p.width as int;
    let h = p.height as int;
    let s = p.spp as int;
    lemma_sample_index(p, 0, 0, 0);
    let n = grid_count(p);
    match p.tiling {
        Some(t) => {
            lemma_groups(w, t.0 as int);
            lemma_groups(h, t.1 as int);
            let a = ceil_div(w, t.0 as int);
            let d = ceil_div(h, t.1 as int);
            assert(1 <= a * d <= w * h) by (nonlinear_arith)
                requires
                    1 <= a <= w,
                    1 <= d <= h,
            ;
        },
        None => {
            lemma_groups(h, p.rows_per_strip as int);
            assert(h <= w * h) by (nonlinear_arith)
                requires
                    1 <= w,
                    0 <= h,
            ;
        },
    }
    assert(s * n <= w * h * s) by (nonlinear_arith)
        requires
            1 <= n <= w * h,
            1 <= s,
    ;
}

/// Strips or tiles side by side and below each other.
fn grid_size(p: &JpegPageInput<'_>) -> (r: (usize, usize))
    requires
        input_ok(*p),
    ensures
        r.0 >= 1,
        r.1 >= 1,
        r.0 * r.1 == grid_count(*p),
        (match p.tiling {
            Some(t) => r.0 == ceil_div(p.width as int, t.0 as int) && r.1 == ceil_div(p.height as int, t.1 as int),
            None => r.0 == 1 && r.1 == ceil_div(p.height as int, p.rows_per_strip as int),
        }),
{
    match p.tiling {
        Some(t) => (groups(p.width, t.0), groups(p.height, t.1)),
        None => (1, groups(p.height, p.rows_per_strip)),
    }
}

/// Strip or tile `i` of all components.
fn chunky_part(p: &JpegPageInput<'_>, i: usize, across: usize) -> (r: Result<Segment>)
    requires
        input_ok(*p),
        i < grid_count(*p),
        p.tiling matches Some(t) ==> across == ceil_div(p.width as int, t.0 as int),
    ensures
        (match r {
            Ok(s) => s@ == chunky_at(*p, i as int) && s@.width <= 65535 && s@.height <= 65535,
            Err(e) => {
                &&& e is InvalidData
                &&& chunky_at(*p, i as int).width > 65535 || chunky_at(*p, i as int).height > 65535
            },
        }),
{
    match p.tiling {
        Some(t) => {
            proof {
                let down = ceil_div(p.height as int, t.1 as int);
                lemma_groups(p.width as int, t.0 as int);
                lemma_groups(p.height as int, t.1 as int);
                crate::render::lemma_pixel_place(i as int, across as int, down);
                lemma_grid(p.width as int, t.0 as int, i as int % across as int);
                lemma_grid(p.height as int, t.1 as int, i as int / across as int);
            }
            chunky_segment(p, i % across * t.0, i / across * t.1, t.0, t.1)
        },
        None => {
            proof {
                lemma_grid(p.height as int, p.rows_per_strip as int, i as int);
            }
            let y: usize = i * p.rows_per_strip;
            let rows: usize = if p.rows_per_strip <= p.height - y { p.rows_per_strip } else { p.height - y };
            chunky_segment(p, 0, y, p.width, rows)
        },
    }
}

/// Strip or tile `i` of a component.
fn planar_part(p: &JpegPageInput<'_>, plane: &Vec<u16>, plane_w: usize, plane_h: usize, c: usize, i: usize, across: usize) -> (r:
    Result<Segment>)
    requires
        input_ok(*p),
        c < p.spp,
        i < grid_count(*p),
        p.tiling matches Some(t) ==> across == ceil_div(p.width as int, t.0 as int),
        plane@ == window_plane(*p, c as int, whole_window(*p, c as int)),
        plane_w == ceil_div(p.width as int, sharing(*p, c as int).0 as int),
        plane_h == ceil_div(p.height as int, sharing(*p, c as int).1 as int),
        1 <= plane_w,
        1 <= plane_h,
        plane@.len() == plane_w * plane_h,
    ensures
        (match r {
            Ok(s) => s@ == planar_at(*p, c as int, i as int) && s@.width <= 65535 && s@.height <= 65535,
            Err(e) => {
                &&& e is InvalidData
                &&& planar_at(*p, c as int, i as int).width > 65535 || planar_at(*p, c as int, i as int).height > 65535
            },
        }),
{
    let d = decimation(p, c);
    match p.tiling {
        Some(t) => {
            let w: usize = t.0 / d.0;
            let h: usize = t.1 / d.1;
            proof {
                let down = ceil_div(p.height as int, t.1 as int);
                lemma_groups(p.width as int, t.0 as int);
                lemma_groups(p.height as int, t.1 as int);
                crate::render::lemma_pixel_place(i as int, across as int, down);
                let bx = i as int % across as int;
                let by = i as int / across as int;
                lemma_grid(p.width as int, t.0 as int, bx);
                lemma_grid(p.height as int, t.1 as int, by);
                lemma_scaled_place(bx, t.0 as int, d.0 as int);
                lemma_scaled_place(by, t.1 as int, d.1 as int);
            }
            planar_segment(p, plane, plane_w, plane_h, c, i % across * w, i / across * h, w, h)
        },
        None => {
            proof {
                lemma_grid(p.height as int, p.rows_per_strip as int, i as int);
            }
            let y: usize = i * p.rows_per_strip;
            let rows: usize = if p.rows_per_strip <= p.height - y { p.rows_per_strip } else { p.height - y };
            planar_segment(p, plane, plane_w, plane_h, c, 0, y / d.1, plane_w, groups(rows, d.1))
        },
    }
}

/// A place scaled down is no farther.
proof fn lemma_scaled_place(k: int, t: int, d: int)
    requires
        0 <= k,
        1 <= t,
        1 <= d,
    ensures
        0 <= t / d <= t,
        0 <= k * (t / d) <= k * t,
{
    assert(0 <= t / d <= t) by (nonlinear_arith)
        requires
            1 <= t,
            1 <= d,
    ;
    let q = t / d;
    assert(0 <= k * q <= k * t) by (nonlinear_arith)
        requires
            0 <= k,
            0 <= q <= t,
    ;
}

/// A strip or tile holds what it should, and is not too great.
spec fn segment_is(s: Segment, m: SegmentModel) -> bool {
    s@ == m && m.width <= 65535 && m.height <= 65535
}

/// The first `n` strips or tiles are there.
spec fn planned(v: Seq<Segment>, all: Seq<SegmentModel>, n: int) -> bool {
    v.len() == n && forall|k: int| 0 <= k < n ==> segment_is(#[trigger] v[k], all[k])
}

proof fn lemma_planned_push(v: Seq<Segment>, all: Seq<SegmentModel>, n: int, s: Segment)
    requires
        planned(v, all, n),
        segment_is(s, all[n]),
        0 <= n,
    ensures
        planned(v.push(s), all, n + 1),
{
    let w = v.push(s);
    assert forall|k: int| 0 <= k < n + 1 implies segment_is(#[trigger] w[k], all[k]) by {
        if k < n {
            assert(segment_is(v[k], all[k]));
        }
    }
}

proof fn lemma_planned_all(v: Seq<Segment>, all: Seq<SegmentModel>)
    requires
        planned(v, all, all.len() as int),
    ensures
        segment_models(v) == all,
        segments_fit(all),
{
    assert forall|k: int| 0 <= k < all.len() implies segment_models(v)[k] == all[k] by {
        assert(segment_is(v[k], all[k]));
    }
    assert(segment_models(v) =~= all);
    assert forall|k: int| 0 <= k < all.len() implies (#[trigger] all[k]).width <= 65535 && all[k].height <= 65535 by {
        assert(segment_is(v[k], all[k]));
    }
}

/// The samples of all strips or tiles of a page, in the order in which they are
/// stored.
pub fn plan_segments(p: &JpegPageInput<'_>) -> (r: Result<Vec<Segment>>)
    requires
        input_ok(*p),
    ensures
        (match r {
            Ok(v) => segment_models(v@) == page_segments(*p) && segments_fit(page_segments(*p)),
            Err(e) => e is InvalidData && !segments_fit(page_segments(*p)),
        }),
{
    let ghost all = page_segments(*p);
    let (across, down) = grid_size(p);
    proof {
        lemma_grid_count(*p);
        assert(p.raw@.len() == p.raw.len());
    }
    let n: usize = across * down;
    let mut out: Vec<Segment> = Vec::new();
    if !p.planar {
        let mut i: usize = 0;
        while i < n
            invariant
                i <= n,
                n == grid_count(*p),
                input_ok(*p),
                !p.planar,
                p.tiling matches Some(t) ==> across == ceil_div(p.width as int, t.0 as int),
                all == page_segments(*p),
                planned(out@, all, i as int),
            decreases n - i,
        {
            assert(all[i as int] == chunky_at(*p, i as int));
            match chunky_part(p, i, across) {
                Ok(s) => {
                    proof {
                        lemma_planned_push(out@, all, i as int, s);
                    }
                    out.push(s);
                },
                Err(e) => {
                    return Err(e);
                },
            }
            i = i + 1;
        }
        proof {
            lemma_planned_all(out@, all);
        }
        return Ok(out);
    }
    let mut c: usize = 0;
    while c < p.spp
        invariant
            c <= p.spp,
            n == grid_count(*p),
            1 <= n,
            p.spp * n <= usize::MAX,
            input_ok(*p),
            p.planar,
            p.width * p.height <= usize::MAX,
            p.tiling matches Some(t) ==> across == ceil_div(p.width as int, t.0 as int),
            all == page_segments(*p),
            planned(out@, all, c * n),
        decreases p.spp - c,
    {
        let d = decimation(p, c);
        let s = Window { x0: 0, y0: 0, w: p.width, h: p.height, dh: d.0, dv: d.1 };
        let (plane, plane_w, plane_h) = extract_plane(p, c, &s);
        assert(s == whole_window(*p, c as int));
        let mut i: usize = 0;
        while i < n
            invariant
                i <= n,
                c < p.spp,
                n == grid_count(*p),
                1 <= n,
                input_ok(*p),
                p.planar,
                p.tiling matches Some(t) ==> across == ceil_div(p.width as int, t.0 as int),
                plane@ == window_plane(*p, c as int, whole_window(*p, c as int)),
                plane_w == ceil_div(p.width as int, sharing(*p, c as int).0 as int),
                plane_h == ceil_div(p.height as int, sharing(*p, c as int).1 as int),
                1 <= plane_w,
                1 <= plane_h,
                plane@.len() == plane_w * plane_h,
                all == page_segments(*p),
                planned(out@, all, c * n + i),
            decreases n - i,
        {
            proof {
                lemma_plane_index(c as int, i as int, n as int, p.spp as int);
                assert(all[c * n + i] == planar_at(*p, c as int, i as int));
            }
            match planar_part(p, &plane, plane_w, plane_h, c, i, across) {
                Ok(s) => {
                    proof {
                        lemma_planned_push(out@, all, c * n + i, s);
                    }
                    out.push(s);
                },
                Err(e) => {
                    assert(!segments_fit(all));
                    return Err(e);
                },
            }
            i = i + 1;
        }
        assert((c + 1) * n == c * n + n) by (nonlinear_arith);
        c = c + 1;
    }
    proof {
        lemma_planned_all(out@, all);
    }
    Ok(out)
}

/// Strips or tiles of planes follow each other plane by plane.
proof fn lemma_plane_index(c: int, i: int, n: int, planes: int)
    requires
        0 <= c < planes,
        0 <= i < n,
    ensures
        0 <= c * n + i < planes * n,
        (c * n + i) / n == c,
        (c * n + i) % n == i,
{
    assert(0 <= c * n + i < planes * n) by (nonlinear_arith)
        requires
            0 <= c < planes,
            0 <= i < n,
    ;
    assert(c * n == n * c) by (nonlinear_arith);
    vstd::arithmetic::div_mod::lemma_fundamental_div_mod_converse(c * n + i, n, c, i);
}

// ----------------------------------------------------------------------
// Tables
// ----------------------------------------------------------------------

/// A table of steps, scaled for a quality.
pub open spec fn scaled_steps(base: Seq<u16>, quality: u8, bits: u16) -> Seq<u16> {
    Seq::new(64, |k: int| scaled_step(base[k] as int, quality as int, (bits % 256) as int) as u16)
}

/// Chrominance has tables of its own.
pub open spec fn has_chrominance(p: JpegPageInput<'_>) -> bool {
    p.photometric == PHOTO_YCBCR && p.spp > 1
}

/// The tables of steps of a page.
pub open spec fn step_tables(p: JpegPageInput<'_>) -> TablesModel {
    TablesModel {
        quant: seq![
            Some(scaled_steps(QUANT_LUMINANCE_K1@, p.opts.quality, p.bits)),
            if has_chrominance(p) {
                Some(scaled_steps(QUANT_CHROMINANCE_K2@, p.opts.quality, p.bits))
            } else {
                None
            },
            None,
            None,
        ],
        ..no_tables()
    }
}

/// The usual Huffman tables suit a page.
pub open spec fn usual_tables(p: JpegPageInput<'_>) -> bool {
    p.bits == 8 && p.opts.process is Dct && !p.opts.optimize_huffman
}

/// The tables of a page with the usual Huffman tables.
pub open spec fn tables_with_usual(p: JpegPageInput<'_>) -> TablesModel {
    let c = has_chrominance(p);
    TablesModel {
        quant: step_tables(p).quant,
        dc: seq![
            Some(HuffModel { bits: BITS_DC_LUMINANCE@, vals: VAL_DC_LUMINANCE@ }),
            if c { Some(HuffModel { bits: BITS_DC_CHROMINANCE@, vals: VAL_DC_CHROMINANCE@ }) } else { None },
            None,
            None,
        ],
        ac: seq![
            Some(HuffModel { bits: BITS_AC_LUMINANCE@, vals: VAL_AC_LUMINANCE@ }),
            if c { Some(HuffModel { bits: BITS_AC_CHROMINANCE@, vals: VAL_AC_CHROMINANCE@ }) } else { None },
            None,
            None,
        ],
    }
}

/// Coefficients of the blocks of each strip or tile.
pub open spec fn coef_models(v: Seq<Vec<[i16; 64]>>) -> Seq<Seq<[i16; 64]>> {
    Seq::new(v.len(), |i: int| v[i]@)
}

/// The symbols of a strip or tile.
pub open spec fn segment_symbols(
    p: JpegPageInput<'_>,
    s: SegmentModel,
    blocks: Seq<[i16; 64]>,
) -> Seq<crate::jpeg_enc::CodedSymbol> {
    scan_symbols(frame_of(s, p.bits, p.opts.process), s.comps, blocks)
}

/// How often the symbols of one table occur in the first `n` strips or tiles.
pub open spec fn page_counts(
    p: JpegPageInput<'_>,
    segs: Seq<SegmentModel>,
    coefs: Seq<Seq<[i16; 64]>>,
    ac: bool,
    table: int,
    n: int,
) -> Seq<u32>
    decreases n,
{
    if n <= 0 {
        Seq::new(257, |i: int| 0u32)
    } else {
        let s = segment_symbols(p, segs[n - 1], coefs[n - 1]);
        counted(page_counts(p, segs, coefs, ac, table, n - 1), s, ac, table, s.len() as int)
    }
}

/// The Huffman table for some counts, if there are any.
pub open spec fn table_from(freq: Seq<u32>) -> Option<HuffModel> {
    if no_symbol(freq) { None } else { Some(HuffModel { bits: table_bits(freq), vals: table_vals(freq) }) }
}

/// The Huffman tables of one sort made for some strips or tiles.
pub open spec fn tables_from(
    p: JpegPageInput<'_>,
    segs: Seq<SegmentModel>,
    coefs: Seq<Seq<[i16; 64]>>,
    ac: bool,
) -> Seq<Option<HuffModel>> {
    Seq::new(4, |t: int| table_from(page_counts(p, segs, coefs, ac, t, segs.len() as int)))
}

/// All strips or tiles have symbols.
pub open spec fn all_coded(
    p: JpegPageInput<'_>,
    segs: Seq<SegmentModel>,
    coefs: Seq<Seq<[i16; 64]>>,
) -> bool {
    forall|k: int|
        0 <= k < segs.len() ==> scan_ok(
            frame_of(#[trigger] segs[k], p.bits, p.opts.process),
            segs[k].comps,
            step_tables(p),
            coefs[k],
        )
}

/// The tables of a page with Huffman tables made for some strips or tiles.
pub open spec fn tables_made(
    p: JpegPageInput<'_>,
    segs: Seq<SegmentModel>,
    coefs: Seq<Seq<[i16; 64]>>,
) -> TablesModel {
    TablesModel {
        quant: step_tables(p).quant,
        dc: tables_from(p, segs, coefs, false),
        ac: tables_from(p, segs, coefs, true),
    }
}

/// The tables of steps of a page.
pub fn quant_tables(p: &JpegPageInput<'_>) -> (t: JpegTableSet)
    ensures
        t@ == step_tables(*p),
{
    let mut t = JpegTableSet::default();
    let precision: u8 = (p.bits % 256) as u8;
    let luma = scaled_quant_table(&QUANT_LUMINANCE_K1, p.opts.quality, precision);
    assert(luma@ =~= scaled_steps(QUANT_LUMINANCE_K1@, p.opts.quality, p.bits));
    let ghost t0 = t;
    assert(t0@.quant[1] is None && t0@.quant[2] is None && t0@.quant[3] is None);
    t.quant[0] = Some(luma);
    if p.photometric == PHOTO_YCBCR && p.spp > 1 {
        let chroma = scaled_quant_table(&QUANT_CHROMINANCE_K2, p.opts.quality, precision);
        assert(chroma@ =~= scaled_steps(QUANT_CHROMINANCE_K2@, p.opts.quality, p.bits));
        t.quant[1] = Some(chroma);
    }
    assert(t@.quant =~= step_tables(*p).quant);
    t
}

fn use_typical_tables(p: &JpegPageInput<'_>) -> (r: bool)
    ensures
        r == usual_tables(*p),
{
    let dct: bool = match p.opts.process {
        JpegProcess::Dct => true,
        JpegProcess::Lossless { .. } => false,
    };
    p.bits == 8 && dct && !p.opts.optimize_huffman
}

/// Puts the usual Huffman tables in place.
fn install_typical(t: &mut JpegTableSet, p: &JpegPageInput<'_>)
    requires
        old(t)@ == step_tables(*p),
    ensures
        final(t)@ == tables_with_usual(*p),
{
    let ghost t0 = t@;
    assert(t0.dc[1] is None && t0.dc[2] is None && t0.dc[3] is None);
    assert(t0.ac[1] is None && t0.ac[2] is None && t0.ac[3] is None);
    t.dc[0] = Some(HuffSpec::k3_dc_luminance());
    t.ac[0] = Some(HuffSpec::k5_ac_luminance());
    if p.photometric == PHOTO_YCBCR && p.spp > 1 {
        t.dc[1] = Some(HuffSpec::k4_dc_chrominance());
        t.ac[1] = Some(HuffSpec::k6_ac_chrominance());
    }
    assert(t@.dc =~= tables_with_usual(*p).dc);
    assert(t@.ac =~= tables_with_usual(*p).ac);
    assert(t@.quant =~= tables_with_usual(*p).quant);
}

/// Puts Huffman tables in place that are made for strips or tiles `from` to `to`.
fn install_optimal(
    t: &mut JpegTableSet,
    p: &JpegPageInput<'_>,
    segs: &Vec<Segment>,
    coefs: &Vec<Vec<[i16; 64]>>,
    from: usize,
    to: usize,
) -> (r: Result<()>)
    requires
        old(t)@ == step_tables(*p),
        from <= to <= segs@.len(),
        segs@.len() == coefs@.len(),
    ensures
        ({
            let some = segment_models(segs@).subrange(from as int, to as int);
            let blocks = coef_models(coefs@).subrange(from as int, to as int);
            match r {
                Ok(_) => all_coded(*p, some, blocks) && final(t)@ == tables_made(*p, some, blocks),
                Err(e) => e is InvalidData && !all_coded(*p, some, blocks),
            }
        }),
{
    let ghost some = segment_models(segs@).subrange(from as int, to as int);
    let ghost blocks = coef_models(coefs@).subrange(from as int, to as int);
    let mut dc: [HuffStats; 4] = [
        HuffStats::default(),
        HuffStats::default(),
        HuffStats::default(),
        HuffStats::default(),
    ];
    let mut ac: [HuffStats; 4] = [
        HuffStats::default(),
        HuffStats::default(),
        HuffStats::default(),
        HuffStats::default(),
    ];
    proof {
        assert forall|i: int| 0 <= i < 4 implies (#[trigger] dc@[i]).freq@ == page_counts(*p, some, blocks, false, i, 0) by {
            assert(dc@[i].freq@ =~= Seq::new(257, |j: int| 0u32));
        }
        assert forall|i: int| 0 <= i < 4 implies (#[trigger] ac@[i]).freq@ == page_counts(*p, some, blocks, true, i, 0) by {
            assert(ac@[i].freq@ =~= Seq::new(257, |j: int| 0u32));
        }
    }
    let mut k: usize = from;
    while k < to
        invariant
            from <= k <= to <= segs@.len(),
            segs@.len() == coefs@.len(),
            t@ == step_tables(*p),
            some == segment_models(segs@).subrange(from as int, to as int),
            blocks == coef_models(coefs@).subrange(from as int, to as int),
            forall|j: int|
                0 <= j < k - from ==> scan_ok(
                    frame_of(#[trigger] some[j], p.bits, p.opts.process),
                    some[j].comps,
                    step_tables(*p),
                    blocks[j],
                ),
            forall|i: int|
                0 <= i < 4 ==> (#[trigger] dc@[i]).freq@ == page_counts(*p, some, blocks, false, i, k - from),
            forall|i: int|
                0 <= i < 4 ==> (#[trigger] ac@[i]).freq@ == page_counts(*p, some, blocks, true, i, k - from),
        decreases to - k,
    {
        let ghost dc1 = dc@;
        let ghost ac1 = ac@;
        let comps = segs[k].components();
        let frame = segs[k].frame(p.bits, p.opts.process);
        assert(some[k - from] == segs@[k as int]@);
        assert(blocks[k - from] == coefs@[k as int]@);
        match gather_stats(&frame, &comps, t, &mut dc, &mut ac, &coefs[k]) {
            Ok(_) => {},
            Err(e) => {
                return Err(e);
            },
        }
        k = k + 1;
        proof {
            assert forall|i: int| 0 <= i < 4 implies (#[trigger] dc@[i]).freq@ == page_counts(
                *p,
                some,
                blocks,
                false,
                i,
                k - from,
            ) by {
                assert(dc1[i].freq@ == page_counts(*p, some, blocks, false, i, k - from - 1));
            }
            assert forall|i: int| 0 <= i < 4 implies (#[trigger] ac@[i]).freq@ == page_counts(
                *p,
                some,
                blocks,
                true,
                i,
                k - from,
            ) by {
                assert(ac1[i].freq@ == page_counts(*p, some, blocks, true, i, k - from - 1));
            }
        }
    }
    let ghost quant0 = t@.quant;
    let mut i: usize = 0;
    while i < 4
        invariant
            i <= 4,
            t@.quant == quant0,
            forall|j: int| 0 <= j < 4 ==> (#[trigger] dc@[j]).freq@ == page_counts(*p, some, blocks, false, j, to - from),
            forall|j: int| 0 <= j < 4 ==> (#[trigger] ac@[j]).freq@ == page_counts(*p, some, blocks, true, j, to - from),
            some.len() == to - from,
            from <= to,
            forall|j: int| 0 <= j < i ==> #[trigger] t@.dc[j] == tables_from(*p, some, blocks, false)[j],
            forall|j: int| 0 <= j < i ==> #[trigger] t@.ac[j] == tables_from(*p, some, blocks, true)[j],
        decreases 4 - i,
    {
        let ghost before = t@;
        assert(dc@[i as int].freq@ == page_counts(*p, some, blocks, false, i as int, to - from));
        assert(ac@[i as int].freq@ == page_counts(*p, some, blocks, true, i as int, to - from));
        let d: Option<HuffSpec> = if dc[i].is_empty() { None } else { Some(dc[i].to_spec()) };
        let a: Option<HuffSpec> = if ac[i].is_empty() { None } else { Some(ac[i].to_spec()) };
        t.dc[i] = d;
        t.ac[i] = a;
        assert(t@.quant =~= before.quant);
        assert forall|j: int| 0 <= j < i + 1 implies #[trigger] t@.dc[j] == tables_from(*p, some, blocks, false)[j] by {
            if j < i {
                assert(before.dc[j] == tables_from(*p, some, blocks, false)[j]);
                assert(t@.dc[j] == before.dc[j]);
            }
        }
        assert forall|j: int| 0 <= j < i + 1 implies #[trigger] t@.ac[j] == tables_from(*p, some, blocks, true)[j] by {
            if j < i {
                assert(before.ac[j] == tables_from(*p, some, blocks, true)[j]);
                assert(t@.ac[j] == before.ac[j]);
            }
        }
        i = i + 1;
    }
    assert(t@.dc =~= tables_from(*p, some, blocks, false));
    assert(t@.ac =~= tables_from(*p, some, blocks, true));
    Ok(())
}

// ----------------------------------------------------------------------
// Streams
// ----------------------------------------------------------------------

/// The streams of a page.
pub struct JpegSegments {
    /// Those of its strips or tiles, in the order in which they are stored.
    pub segments: Vec<Vec<u8>>,
    /// That of its tables, where they stand apart.
    pub tables: Option<Vec<u8>>,
}

/// The tables of strip or tile `k`, if there are any for it.
pub open spec fn segment_tables(
    p: JpegPageInput<'_>,
    segs: Seq<SegmentModel>,
    coefs: Seq<Seq<[i16; 64]>>,
    k: int,
) -> Option<TablesModel> {
    let some = if p.opts.tables is Shared { segs } else { segs.subrange(k, k + 1) };
    let blocks = if p.opts.tables is Shared { coefs } else { coefs.subrange(k, k + 1) };
    if usual_tables(p) {
        Some(tables_with_usual(p))
    } else if all_coded(p, some, blocks) {
        Some(tables_made(p, some, blocks))
    } else {
        None
    }
}

/// The stream of strip or tile `k`.
pub open spec fn segment_stream(
    p: JpegPageInput<'_>,
    segs: Seq<SegmentModel>,
    coefs: Seq<Seq<[i16; 64]>>,
    k: int,
) -> Option<Seq<u8>> {
    match segment_tables(p, segs, coefs, k) {
        None => None,
        Some(t) => frame_stream(
            frame_of(segs[k], p.bits, p.opts.process),
            segs[k].comps,
            t,
            p.opts.tables is PerSegment,
            coefs[k],
        ),
    }
}

/// A page has streams: no strip or tile is too great, there are coefficients for
/// each, and each has a stream.
pub open spec fn page_coded(p: JpegPageInput<'_>, coefs: Seq<Seq<[i16; 64]>>) -> bool {
    let segs = page_segments(p);
    &&& segments_fit(segs)
    &&& coefs.len() == segs.len()
    &&& forall|k: int| 0 <= k < segs.len() ==> #[trigger] segment_stream(p, segs, coefs, k) is Some
}

/// The tables of a page as a stream, where they stand apart.
pub open spec fn shared_tables(p: JpegPageInput<'_>, coefs: Seq<Seq<[i16; 64]>>) -> Option<Seq<u8>> {
    if p.opts.tables is Shared {
        match segment_tables(p, page_segments(p), coefs, 0) {
            Some(t) => Some(seq![0xFFu8, SOI] + tables_bytes(t, p.opts.process is Dct) + seq![0xFFu8, EOI]),
            None => None,
        }
    } else {
        None
    }
}

/// The tables of strip or tile `k`.
fn make_tables(p: &JpegPageInput<'_>, segs: &Vec<Segment>, coefs: &Vec<Vec<[i16; 64]>>, k: usize) -> (r: Result<
    JpegTableSet,
>)
    requires
        k < segs@.len(),
        segs@.len() == coefs@.len(),
    ensures
        (match (r, segment_tables(*p, segment_models(segs@), coef_models(coefs@), k as int)) {
            (Ok(t), Some(m)) => t@ == m,
            (Err(e), None) => e is InvalidData,
            _ => false,
        }),
{
    let mut t = quant_tables(p);
    if use_typical_tables(p) {
        install_typical(&mut t, p);
        return Ok(t);
    }
    let n: usize = segs.len();
    let (from, to) = match p.opts.tables {
        JpegTablesLayout::Shared => (0, n),
        JpegTablesLayout::PerSegment => (k, k + 1),
    };
    proof {
        assert(segment_models(segs@).subrange(0, n as int) =~= segment_models(segs@));
        assert(coef_models(coefs@).subrange(0, n as int) =~= coef_models(coefs@));
    }
    match install_optimal(&mut t, p, segs, coefs, from, to) {
        Ok(_) => Ok(t),
        Err(e) => Err(e),
    }
}

/// The first `n` streams of a page are there.
spec fn streams_upto(
    v: Seq<Vec<u8>>,
    p: JpegPageInput<'_>,
    segs: Seq<SegmentModel>,
    coefs: Seq<Seq<[i16; 64]>>,
    n: int,
) -> bool {
    v.len() == n && forall|k: int| 0 <= k < n ==> segment_stream(p, segs, coefs, k) == Some(#[trigger] v[k]@)
}

proof fn lemma_streams_push(
    v: Seq<Vec<u8>>,
    p: JpegPageInput<'_>,
    segs: Seq<SegmentModel>,
    coefs: Seq<Seq<[i16; 64]>>,
    n: int,
    s: Vec<u8>,
)
    requires
        streams_upto(v, p, segs, coefs, n),
        0 <= n,
        segment_stream(p, segs, coefs, n) == Some(s@),
    ensures
        streams_upto(v.push(s), p, segs, coefs, n + 1),
{
    let w = v.push(s);
    assert forall|k: int| 0 <= k < n + 1 implies segment_stream(p, segs, coefs, k) == Some(#[trigger] w[k]@) by {
        if k < n {
            assert(segment_stream(p, segs, coefs, k) == Some(v[k]@));
        }
    }
}

/// Codes all strips or tiles of a page; `coefs` are the coefficients of their
/// transformed blocks, which are none for lossless coding.
pub fn build_jpeg_segments(p: &JpegPageInput<'_>, coefs: &Vec<Vec<[i16; 64]>>) -> (r: Result<JpegSegments>)
    requires
        input_ok(*p),
    ensures
        (match r {
            Ok(s) => {
                &&& page_coded(*p, coef_models(coefs@))
                &&& s.segments@.len() == page_segments(*p).len()
                &&& forall|k: int|
                    0 <= k < s.segments@.len() ==> segment_stream(*p, page_segments(*p), coef_models(coefs@), k) == Some(
                        #[trigger] s.segments@[k]@,
                    )
                &&& match (s.tables, shared_tables(*p, coef_models(coefs@))) {
                    (Some(t), Some(m)) => t@ == m,
                    (None, None) => true,
                    _ => false,
                }
            },
            Err(e) => e is InvalidData && !page_coded(*p, coef_models(coefs@)),
        }),
{
    let segs = plan_segments(p)?;
    let ghost all = page_segments(*p);
    let ghost blocks = coef_models(coefs@);
    let n: usize = segs.len();
    proof {
        lemma_grid_count(*p);
        lemma_some_segment(*p);
        assert(segment_models(segs@).len() == n);
    }
    if coefs.len() != n {
        return Err(invalid_with("TIFF encode/JPEG: coefficients for ", coefs.len() as u64, " segments, not for each"));
    }
    let shared: bool = match p.opts.tables {
        JpegTablesLayout::Shared => true,
        JpegTablesLayout::PerSegment => false,
    };
    let dct: bool = match p.opts.process {
        JpegProcess::Dct => true,
        JpegProcess::Lossless { .. } => false,
    };
    let mut tables = match make_tables(p, &segs, coefs, 0) {
        Ok(t) => t,
        Err(e) => {
            assert(segment_stream(*p, all, blocks, 0) is None);
            return Err(e);
        },
    };
    let ghost first = tables@;
    let mut out: Vec<Vec<u8>> = Vec::new();
    let mut k: usize = 0;
    while k < n
        invariant
            k <= n,
            n == segs@.len(),
            n == coefs@.len(),
            n == all.len(),
            all == page_segments(*p),
            all == segment_models(segs@),
            blocks == coef_models(coefs@),
            shared == (p.opts.tables is Shared),
            shared || k == 0 ==> tables@ == first,
            segment_tables(*p, all, blocks, 0) == Some(first),
            streams_upto(out@, *p, all, blocks, k as int),
        decreases n - k,
    {
        if !shared && k > 0 {
            tables = match make_tables(p, &segs, coefs, k) {
                Ok(t) => t,
                Err(e) => {
                    assert(segment_stream(*p, all, blocks, k as int) is None);
                    return Err(e);
                },
            };
        }
        let comps = segs[k].components();
        let frame = segs[k].frame(p.bits, p.opts.process);
        assert(all[k as int] == segs@[k as int]@);
        assert(blocks[k as int] == coefs@[k as int]@);
        assert(segment_tables(*p, all, blocks, k as int) == Some(tables@));
        let s = match encode_frame(&frame, &comps, &tables, !shared, &coefs[k]) {
            Ok(s) => s,
            Err(e) => {
                assert(segment_stream(*p, all, blocks, k as int) is None);
                return Err(e);
            },
        };
        proof {
            lemma_streams_push(out@, *p, all, blocks, k as int, s);
        }
        out.push(s);
        k = k + 1;
    }
    proof {
        assert forall|k: int| 0 <= k < all.len() implies #[trigger] segment_stream(*p, all, blocks, k) is Some by {
            assert(segment_stream(*p, all, blocks, k) == Some(out@[k]@));
        }
    }
    let stream: Option<Vec<u8>> = if shared { Some(tables.tables_stream(dct)) } else { None };
    Ok(JpegSegments { segments: out, tables: stream })
}

/// A page has a strip or tile.
proof fn lemma_some_segment(p: JpegPageInput<'_>)
    requires
        input_ok(p),
    ensures
        page_segments(p).len() >= 1,
{
    lemma_grid_count(p);
    let n = grid_count(p);
    assert(p.spp * n >= 1) by (nonlinear_arith)
        requires
            p.spp >= 1,
            n >= 1,
    ;
}

} // verus!
