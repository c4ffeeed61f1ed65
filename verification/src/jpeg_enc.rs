//! JPEG streams for the strips and tiles of a page: tables, headers and the coding
//! of samples.
//!
//! The cosine transform works on real numbers and is not part of this library:
//! [`sample_blocks`] hands out the samples that are to be transformed, and the
//! quantised results come back as blocks of coefficients.
use vstd::prelude::*;
use vstd::arithmetic::power2::{lemma2_to64, lemma_pow2_adds, lemma_pow2_pos, lemma_pow2_unfold, pow2};
use crate::bits::{bytes_of, value_bits, MsbWriter};
use crate::error::{invalid_with, Result, TiffError};
use crate::huffman::{code_word, spec_usable, HuffCodes, HuffModel, HuffSpec};
use crate::huffman_stats::{one_more, HuffStats};
use crate::render::ceil_div;
use crate::segments::bytes_or_invalid;

verus! {

/// Frame header of 8-bit transform coding.
pub const SOF0: u8 = 0xC0;

/// Frame header of transform coding of more bits.
pub const SOF1: u8 = 0xC1;

/// Frame header of lossless coding.
pub const SOF3: u8 = 0xC3;

/// Huffman table.
pub const DHT: u8 = 0xC4;

/// Start of a stream.
pub const SOI: u8 = 0xD8;

/// End of a stream.
pub const EOI: u8 = 0xD9;

/// Scan header.
pub const SOS: u8 = 0xDA;

/// Table of quantiser steps.
pub const DQT: u8 = 0xDB;

/// Place in a block, row by row, of each coefficient in the order of coding, which
/// goes along the diagonals.
pub const NATURAL: [usize; 64] = [
     0,  1,  8, 16,  9,  2,  3, 10,
    17, 24, 32, 25, 18, 11,  4,  5,
    12, 19, 26, 33, 40, 48, 41, 34,
    27, 20, 13,  6,  7, 14, 21, 28,
    35, 42, 49, 56, 57, 50, 43, 36,
    29, 22, 15, 23, 30, 37, 44, 51,
    58, 59, 52, 45, 38, 31, 39, 46,
    53, 60, 61, 54, 47, 55, 62, 63,
];

/// Place in the order of coding of each coefficient of a block, row by row.
pub const ZIGZAG: [usize; 64] = [
    0, 1, 5, 6, 14, 15, 27, 28,
    2, 4, 7, 13, 16, 26, 29, 42,
    3, 8, 12, 17, 25, 30, 41, 43,
    9, 11, 18, 24, 31, 40, 44, 53,
    10, 19, 23, 32, 39, 45, 52, 54,
    20, 22, 33, 38, 46, 51, 55, 60,
    21, 34, 37, 47, 50, 56, 59, 61,
    35, 36, 48, 49, 57, 58, 62, 63,
];

/// Quantiser steps for luminance, row by row.
pub const QUANT_LUMINANCE_K1: [u16; 64] = [
    16, 11, 10, 16,  24,  40,  51,  61,
    12, 12, 14, 19,  26,  58,  60,  55,
    14, 13, 16, 24,  40,  57,  69,  56,
    14, 17, 22, 29,  51,  87,  80,  62,
    18, 22, 37, 56,  68, 109, 103,  77,
    24, 35, 55, 64,  81, 104, 113,  92,
    49, 64, 78, 87, 103, 121, 120, 101,
    72, 92, 95, 98, 112, 100, 103,  99,
];

/// Quantiser steps for chrominance, row by row.
pub const QUANT_CHROMINANCE_K2: [u16; 64] = [
    17, 18, 24, 47, 99, 99, 99, 99,
    18, 21, 26, 66, 99, 99, 99, 99,
    24, 26, 56, 99, 99, 99, 99, 99,
    47, 66, 99, 99, 99, 99, 99, 99,
    99, 99, 99, 99, 99, 99, 99, 99,
    99, 99, 99, 99, 99, 99, 99, 99,
    99, 99, 99, 99, 99, 99, 99, 99,
    99, 99, 99, 99, 99, 99, 99, 99,
];

/// The order of coding names every coefficient once.
pub proof fn law_zigzag_permutes()
    ensures
        forall|k: int| 0 <= k < 64 ==> (#[trigger] NATURAL[k]) < 64 && ZIGZAG[NATURAL[k] as int] == k,
        forall|i: int| 0 <= i < 64 ==> (#[trigger] ZIGZAG[i]) < 64 && NATURAL[ZIGZAG[i] as int] == i,
{
}

// ----------------------------------------------------------------------
// Quantiser steps
// ----------------------------------------------------------------------

/// A step of a table, scaled for a quality from 1 to 100: 50 leaves it, 75 halves
/// it, 100 makes it 1. Steps for more than 8 bits are 16 times as great.
pub open spec fn scaled_step(step: int, quality: int, precision: int) -> int {
    let q: int = if quality < 1 { 1 } else if quality > 100 { 100 } else { quality };
    let v: int = if q < 50 { (step * 5000 + 50 * q) / (100 * q) } else { (step * (200 - 2 * q) + 50) / 100 };
    let v = (if v < 1 { 1 } else { v }) * (if precision > 8 { 16int } else { 1 });
    let most = if precision > 8 { 65535int } else { 255 };
    if v > most { most } else { v }
}

/// A table of steps, scaled for a quality.
pub fn scaled_quant_table(base: &[u16; 64], quality: u8, precision: u8) -> (r: [u16; 64])
    ensures
        forall|k: int|
            0 <= k < 64 ==> #[trigger] r@[k] == scaled_step(base@[k] as int, quality as int, precision as int),
{
    let q: u32 = if quality < 1 { 1 } else if quality > 100 { 100 } else { quality as u32 };
    let most: u32 = if precision > 8 { 65535 } else { 255 };
    let times: u32 = if precision > 8 { 16 } else { 1 };
    let mut r: [u16; 64] = [0u16; 64];
    let mut k: usize = 0;
    while k < 64
        invariant
            k <= 64,
            q == (if quality < 1 { 1int } else if quality > 100 { 100 } else { quality as int }),
            most == (if precision > 8 { 65535int } else { 255 }),
            times == (if precision > 8 { 16int } else { 1 }),
            forall|j: int|
                0 <= j < k ==> #[trigger] r@[j] == scaled_step(base@[j] as int, quality as int, precision as int),
        decreases 64 - k,
    {
        let b: u32 = base[k] as u32;
        let v: u32 = if q < 50 {
            let sum: u32 = b * 5000 + 50 * q;
            assert(sum as int / (100 * q as int) <= sum) by (nonlinear_arith)
                requires
                    q >= 1,
                    sum >= 0,
            ;
            assert(16 * (sum as int / (100 * q as int)) <= 16 * sum / 100 + 16) by (nonlinear_arith)
                requires
                    q >= 1,
                    sum >= 0,
            ;
            sum / (100 * q)
        } else {
            assert(b * (200 - 2 * q) <= 65535 * 100) by (nonlinear_arith)
                requires
                    0 <= b <= 65535,
                    50 <= q <= 100,
            ;
            assert(0 <= b * (200 - 2 * q)) by (nonlinear_arith)
                requires
                    0 <= b,
                    q <= 100,
            ;
            (b * (200 - 2 * q) + 50) / 100
        };
        let v: u32 = if v < 1 { 1 } else { v };
        assert(v * times <= 16 * v) by (nonlinear_arith)
            requires
                times <= 16,
        ;
        let v: u32 = v * times;
        r[k] = if v > most { most as u16 } else { v as u16 };
        k = k + 1;
    }
    r
}

/// Quality 50 leaves the steps of a table for 8 bits, and quality 100 makes all of
/// them 1.
pub proof fn law_quality_anchors(step: int)
    requires
        1 <= step <= 255,
    ensures
        scaled_step(step, 50, 8) == step,
        scaled_step(step, 75, 8) == (step + 1) / 2,
        scaled_step(step, 100, 8) == 1,
        scaled_step(step, 50, 12) == 16 * step,
{
    assert((step * 100 + 50) / 100 == step);
    assert((step * 50 + 50) / 100 == (step + 1) / 2);
    assert((step * 0 + 50) / 100 == 0);
}

// ----------------------------------------------------------------------
// Tables
// ----------------------------------------------------------------------

/// The tables of a stream, in four places of each sort.
#[derive(Debug, Clone)]
pub struct JpegTableSet {
    /// Quantiser steps, row by row.
    pub quant: [Option<[u16; 64]>; 4],
    /// Tables for averages, and for lossless differences.
    pub dc: [Option<HuffSpec>; 4],
    /// Tables for frequencies.
    pub ac: [Option<HuffSpec>; 4],
}

/// What the tables of a stream say.
#[verifier::ext_equal]
pub struct TablesModel {
    pub quant: Seq<Option<Seq<u16>>>,
    pub dc: Seq<Option<HuffModel>>,
    pub ac: Seq<Option<HuffModel>>,
}

/// What Huffman tables say.
pub open spec fn huff_models(t: Seq<Option<HuffSpec>>) -> Seq<Option<HuffModel>> {
    Seq::new(
        t.len(),
        |i: int|
            match t[i] {
                Some(h) => Some(h@),
                None => None,
            },
    )
}

/// What tables of steps say.
pub open spec fn quant_models(t: Seq<Option<[u16; 64]>>) -> Seq<Option<Seq<u16>>> {
    Seq::new(
        t.len(),
        |i: int|
            match t[i] {
                Some(q) => Some(q@),
                None => None,
            },
    )
}

impl View for JpegTableSet {
    type V = TablesModel;

    open spec fn view(&self) -> TablesModel {
        TablesModel { quant: quant_models(self.quant@), dc: huff_models(self.dc@), ac: huff_models(self.ac@) }
    }
}

/// No tables.
pub open spec fn no_tables() -> TablesModel {
    TablesModel {
        quant: seq![None, None, None, None],
        dc: seq![None, None, None, None],
        ac: seq![None, None, None, None],
    }
}

impl Default for JpegTableSet {
    fn default() -> (r: JpegTableSet)
        ensures
            r@ == no_tables(),
    {
        JpegTableSet {
            quant: [None, None, None, None],
            dc: [None, None, None, None],
            ac: [None, None, None, None],
        }
    }
}

/// The two bytes of a number, high byte first.
pub open spec fn be16(v: int) -> Seq<u8> {
    seq![(v / 256 % 256) as u8, (v % 256) as u8]
}

fn push_be16(out: &mut Vec<u8>, v: u16)
    ensures
        final(out)@ == old(out)@ + be16(v as int),
{
    out.push((v / 256) as u8);
    out.push((v % 256) as u8);
    assert(out@ =~= old(out)@ + be16(v as int));
}

fn push_marker(out: &mut Vec<u8>, marker: u8)
    ensures
        final(out)@ == old(out)@ + seq![0xFFu8, marker],
{
    out.push(0xFF);
    out.push(marker);
    assert(out@ =~= old(out)@ + seq![0xFFu8, marker]);
}

/// Steps that need two bytes each.
pub open spec fn wide_steps(q: Seq<u16>) -> bool {
    exists|k: int| 0 <= k < q.len() && #[trigger] q[k] > 255
}

/// The first `n` steps in the order of coding.
pub open spec fn step_bytes(q: Seq<u16>, wide: bool, n: int) -> Seq<u8>
    decreases n,
{
    if n <= 0 {
        Seq::empty()
    } else {
        let v = q[NATURAL[n - 1] as int];
        step_bytes(q, wide, n - 1) + if wide { be16(v as int) } else { seq![v as u8] }
    }
}

/// The segment of a table of steps: marker, length, width of the steps and place
/// of the table, steps.
pub open spec fn quant_segment(place: int, q: Seq<u16>) -> Seq<u8> {
    let wide = wide_steps(q);
    seq![0xFFu8, DQT] + be16(if wide { 131 } else { 67 }) + seq![(place + if wide { 16int } else { 0 }) as u8]
        + step_bytes(q, wide, 64)
}

/// The segment of a Huffman table: marker, length, sort and place of the table,
/// codes of each length, symbols.
pub open spec fn huff_segment(class: int, place: int, h: HuffModel) -> Seq<u8> {
    huff_head(class, place, h.vals.len() as int) + h.bits + h.vals
}

/// The first `n` tables of steps.
pub open spec fn quant_segments(t: Seq<Option<Seq<u16>>>, n: int) -> Seq<u8>
    decreases n,
{
    if n <= 0 {
        Seq::empty()
    } else {
        quant_segments(t, n - 1) + match t[n - 1] {
            Some(q) => quant_segment(n - 1, q),
            None => Seq::empty(),
        }
    }
}

/// The first `n` Huffman tables of one sort.
pub open spec fn huff_segments(class: int, t: Seq<Option<HuffModel>>, n: int) -> Seq<u8>
    decreases n,
{
    if n <= 0 {
        Seq::empty()
    } else {
        huff_segments(class, t, n - 1) + match t[n - 1] {
            Some(h) => huff_segment(class, n - 1, h),
            None => Seq::empty(),
        }
    }
}

/// All tables: steps, tables for averages, tables for frequencies. A lossless
/// stream has only those for differences.
pub open spec fn tables_bytes(t: TablesModel, dct: bool) -> Seq<u8> {
    if dct {
        quant_segments(t.quant, 4) + huff_segments(0, t.dc, 4) + huff_segments(1, t.ac, 4)
    } else {
        huff_segments(0, t.dc, 4)
    }
}

/// Appends a table of steps.
fn push_quant(out: &mut Vec<u8>, place: u8, q: &[u16; 64])
    requires
        place < 4,
    ensures
        final(out)@ == old(out)@ + quant_segment(place as int, q@),
{
    let mut wide: bool = false;
    let mut k: usize = 0;
    while k < 64
        invariant
            k <= 64,
            wide == exists|i: int| 0 <= i < k && #[trigger] q@[i] > 255,
        decreases 64 - k,
    {
        if q[k] > 255 {
            wide = true;
            assert(q@[k as int] > 255);
        }
        k = k + 1;
    }
    assert(wide == wide_steps(q@));
    push_marker(out, DQT);
    push_be16(out, if wide { 131 } else { 67 });
    out.push(if wide { place + 16 } else { place });
    let ghost before = out@;
    assert(before =~= old(out)@ + (seq![0xFFu8, DQT] + be16(if wide { 131 } else { 67 }) + seq![
        (place + if wide { 16int } else { 0 }) as u8,
    ]));
    let mut k: usize = 0;
    assert(out@ =~= before + step_bytes(q@, wide, 0));
    while k < 64
        invariant
            k <= 64,
            out@ == before + step_bytes(q@, wide, k as int),
            !wide ==> !wide_steps(q@),
        decreases 64 - k,
    {
        let ghost now = out@;
        assert(NATURAL[k as int] < 64) by {
            law_zigzag_permutes();
        }
        let v: u16 = q[NATURAL[k]];
        if wide {
            push_be16(out, v);
        } else {
            assert(v <= 255) by {
                assert(q@[NATURAL[k as int] as int] == v);
            }
            out.push(v as u8);
        }
        k = k + 1;
        assert(out@ =~= before + step_bytes(q@, wide, k as int));
    }
    assert(out@ =~= old(out)@ + quant_segment(place as int, q@));
}

/// Appends bytes.
fn push_all(out: &mut Vec<u8>, s: &[u8])
    ensures
        final(out)@ == old(out)@ + s@,
{
    let ghost before = out@;
    let mut i: usize = 0;
    assert(out@ =~= before + s@.subrange(0, 0));
    while i < s.len()
        invariant
            i <= s@.len(),
            out@ == before + s@.subrange(0, i as int),
        decreases s@.len() - i,
    {
        out.push(s[i]);
        i = i + 1;
        assert(out@ =~= before + s@.subrange(0, i as int));
    }
    assert(s@.subrange(0, s@.len() as int) =~= s@);
}

/// What stands before the codes of a Huffman table.
pub open spec fn huff_head(class: int, place: int, n: int) -> Seq<u8> {
    seq![0xFFu8, DHT] + be16(19 + n) + seq![(16 * class + place) as u8]
}

/// Only the low 16 bits of a number are written.
proof fn lemma_be16_low(v: int)
    requires
        0 <= v,
    ensures
        be16(v % 65536) == be16(v),
{
    let q = v / 65536;
    let m = v % 65536;
    assert(v == 65536 * q + m);
    assert(v / 256 == 256 * q + m / 256);
}

fn push_huff_head(out: &mut Vec<u8>, class: u8, place: u8, n: usize)
    requires
        class < 2,
        place < 4,
    ensures
        final(out)@ == old(out)@ + huff_head(class as int, place as int, n as int),
{
    let len: u16 = ((n % 65536 + 19) % 65536) as u16;
    proof {
        lemma_be16_low(19 + n);
        assert(len == (19 + n) % 65536);
    }
    push_marker(out, DHT);
    push_be16(out, len);
    out.push(16 * class + place);
    assert(out@ =~= old(out)@ + huff_head(class as int, place as int, n as int));
}

/// Appends a Huffman table.
fn push_huff(out: &mut Vec<u8>, class: u8, place: u8, h: &HuffSpec)
    requires
        class < 2,
        place < 4,
    ensures
        final(out)@ == old(out)@ + huff_segment(class as int, place as int, h@),
{
    let ghost start = out@;
    let ghost head = huff_head(class as int, place as int, h.vals@.len() as int);
    push_huff_head(out, class, place, h.vals.len());
    push_all(out, &h.bits);
    push_all(out, &h.vals);
    assert(start + head + h.bits@ + h.vals@ =~= start + (head + h.bits@ + h.vals@));
}

/// Appends the Huffman tables of one sort.
fn push_huffs(out: &mut Vec<u8>, class: u8, t: &[Option<HuffSpec>; 4])
    requires
        class < 2,
    ensures
        final(out)@ == old(out)@ + huff_segments(class as int, huff_models(t@), 4),
{
    let ghost before = out@;
    let mut i: u8 = 0;
    assert(out@ =~= before + huff_segments(class as int, huff_models(t@), 0));
    while i < 4
        invariant
            i <= 4,
            class < 2,
            out@ == before + huff_segments(class as int, huff_models(t@), i as int),
        decreases 4 - i,
    {
        if let Some(h) = &t[i as usize] {
            push_huff(out, class, i, h);
        }
        i = i + 1;
        assert(out@ =~= before + huff_segments(class as int, huff_models(t@), i as int));
    }
}

impl JpegTableSet {
    /// Appends the segments of all tables.
    pub fn write_tables(&self, out: &mut Vec<u8>, dct: bool)
        ensures
            final(out)@ == old(out)@ + tables_bytes(self@, dct),
    {
        let ghost before = out@;
        if dct {
            let mut i: u8 = 0;
            assert(out@ =~= before + quant_segments(self@.quant, 0));
            while i < 4
                invariant
                    i <= 4,
                    out@ == before + quant_segments(self@.quant, i as int),
                decreases 4 - i,
            {
                if let Some(q) = &self.quant[i as usize] {
                    push_quant(out, i, q);
                }
                i = i + 1;
                assert(out@ =~= before + quant_segments(self@.quant, i as int));
            }
        }
        push_huffs(out, 0, &self.dc);
        if dct {
            push_huffs(out, 1, &self.ac);
        }
        assert(out@ =~= before + tables_bytes(self@, dct));
    }

    /// A stream that holds nothing but the tables.
    pub fn tables_stream(&self, dct: bool) -> (out: Vec<u8>)
        ensures
            out@ == seq![0xFFu8, SOI] + tables_bytes(self@, dct) + seq![0xFFu8, EOI],
    {
        let mut out: Vec<u8> = Vec::new();
        push_marker(&mut out, SOI);
        self.write_tables(&mut out, dct);
        push_marker(&mut out, EOI);
        assert(out@ =~= seq![0xFFu8, SOI] + tables_bytes(self@, dct) + seq![0xFFu8, EOI]);
        out
    }
}

// ----------------------------------------------------------------------
// Frames
// ----------------------------------------------------------------------

/// A component of a frame: its samples at its own resolution, how much of the
/// resolution of the frame it has, and which tables it uses.
#[derive(Debug, Clone, Copy)]
pub struct JpegComponent<'a> {
    /// The samples, row by row.
    pub samples: &'a [u16],
    /// Samples in a row.
    pub width: usize,
    /// Rows.
    pub height: usize,
    /// Horizontal sampling factor, 1 to 4.
    pub h: u8,
    /// Vertical sampling factor, 1 to 4.
    pub v: u8,
    /// Place of the table of quantiser steps.
    pub quant_id: u8,
    /// Place of the Huffman tables.
    pub huff_id: u8,
}

/// What a component holds.
#[verifier::ext_equal]
pub struct ComponentModel {
    pub samples: Seq<u16>,
    pub width: usize,
    pub height: usize,
    pub h: u8,
    pub v: u8,
    pub quant_id: u8,
    pub huff_id: u8,
}

impl<'a> View for JpegComponent<'a> {
    type V = ComponentModel;

    open spec fn view(&self) -> ComponentModel {
        ComponentModel {
            samples: self.samples@,
            width: self.width,
            height: self.height,
            h: self.h,
            v: self.v,
            quant_id: self.quant_id,
            huff_id: self.huff_id,
        }
    }
}

/// What components hold.
pub open spec fn models(cs: Seq<JpegComponent<'_>>) -> Seq<ComponentModel> {
    Seq::new(cs.len(), |i: int| cs[i]@)
}

/// How a frame is coded.
#[derive(Debug, Clone, Copy, PartialEq, Eq)]
pub enum JpegProcess {
    /// By the cosine transform of blocks.
    Dct,
    /// Without loss, by differences to one of seven predictions.
    Lossless { predictor: u8 },
}

/// What holds of a frame as a whole.
#[derive(Debug, Clone, Copy)]
pub struct JpegFrame {
    /// Samples in a row of the component of highest resolution.
    pub width: u16,
    /// Its rows.
    pub height: u16,
    /// Bits of a sample.
    pub precision: u8,
    /// How the frame is coded.
    pub process: JpegProcess,
}

/// The greatest horizontal sampling factor of the first `n` components.
pub open spec fn h_max(cs: Seq<ComponentModel>, n: int) -> int
    decreases n,
{
    if n <= 0 {
        0
    } else {
        let m = h_max(cs, n - 1);
        if cs[n - 1].h > m { cs[n - 1].h as int } else { m }
    }
}

/// The greatest vertical sampling factor of the first `n` components.
pub open spec fn v_max(cs: Seq<ComponentModel>, n: int) -> int
    decreases n,
{
    if n <= 0 {
        0
    } else {
        let m = v_max(cs, n - 1);
        if cs[n - 1].v > m { cs[n - 1].v as int } else { m }
    }
}

/// The data units that the first `n` components have together in a coding unit.
pub open spec fn units_of(cs: Seq<ComponentModel>, n: int) -> int
    decreases n,
{
    if n <= 0 { 0 } else { units_of(cs, n - 1) + cs[n - 1].h * cs[n - 1].v }
}

/// The process takes samples of these bits, and there is such a prediction.
pub open spec fn process_ok(frame: JpegFrame) -> bool {
    match frame.process {
        JpegProcess::Dct => frame.precision == 8 || frame.precision == 12,
        JpegProcess::Lossless { predictor } => 2 <= frame.precision <= 16 && 1 <= predictor <= 7,
    }
}

/// A component agrees with its frame.
pub open spec fn component_ok(frame: JpegFrame, c: ComponentModel, hmax: int, vmax: int) -> bool {
    &&& 1 <= c.h <= 4
    &&& 1 <= c.v <= 4
    &&& c.quant_id <= 3
    &&& c.huff_id <= 3
    &&& frame.precision == 8 && frame.process is Dct ==> c.quant_id <= 1 && c.huff_id <= 1
    &&& c.width == ceil_div(frame.width * c.h, hmax)
    &&& c.height == ceil_div(frame.height * c.v, vmax)
    &&& c.samples.len() == c.width * c.height
    &&& forall|i: int| 0 <= i < c.samples.len() ==> #[trigger] c.samples[i] < pow2(frame.precision as nat)
}

/// A frame that can be coded.
pub open spec fn frame_ok(frame: JpegFrame, cs: Seq<ComponentModel>) -> bool {
    let n = cs.len() as int;
    &&& 1 <= n <= 4
    &&& frame.width > 0
    &&& frame.height > 0
    &&& process_ok(frame)
    &&& forall|i: int| 0 <= i < n ==> component_ok(frame, #[trigger] cs[i], h_max(cs, n), v_max(cs, n))
    &&& n > 1 ==> units_of(cs, n) <= 10
    &&& n == 1 ==> cs[0].h == 1 && cs[0].v == 1
}

/// `2` to the power `n`.
fn two_to(n: u32) -> (r: u64)
    requires
        n <= 32,
    ensures
        r == pow2(n as nat),
        0 < r <= 0x1_0000_0000,
{
    let mut r: u64 = 1;
    let mut i: u32 = 0;
    proof {
        lemma2_to64();
    }
    while i < n
        invariant
            i <= n <= 32,
            r == pow2(i as nat),
            0 < r <= 0x1_0000_0000,
        decreases n - i,
    {
        proof {
            lemma_pow2_unfold((i + 1) as nat);
            lemma2_to64();
            vstd::arithmetic::power2::lemma_pow2_strictly_increases(i as nat, 32);
            if i + 1 < 32 {
                vstd::arithmetic::power2::lemma_pow2_strictly_increases((i + 1) as nat, 32);
            }
        }
        r = 2 * r;
        i = i + 1;
    }
    r
}

/// `a / b`, rounded up.
fn div_ceil(a: usize, b: usize) -> (q: usize)
    requires
        0 < b,
        a + b <= usize::MAX,
    ensures
        q == ceil_div(a as int, b as int),
{
    (a + b - 1) / b
}

/// Checks that all samples have at most some bits.
fn samples_fit(s: &[u16], limit: u64) -> (r: bool)
    ensures
        r == forall|i: int| 0 <= i < s@.len() ==> #[trigger] s@[i] < limit,
{
    let mut i: usize = 0;
    while i < s.len()
        invariant
            i <= s@.len(),
            forall|k: int| 0 <= k < i ==> #[trigger] s@[k] < limit,
        decreases s@.len() - i,
    {
        if s[i] as u64 >= limit {
            assert(s@[i as int] >= limit);
            return false;
        }
        i = i + 1;
    }
    true
}

/// A quotient by a greater number is no greater.
proof fn lemma_ceil_div_small(a: int, f: int, m: int)
    requires
        0 <= a,
        1 <= f <= m,
    ensures
        0 <= ceil_div(a * f, m) <= a,
        a > 0 ==> ceil_div(a * f, m) > 0,
{
    let x = a * f + m - 1;
    assert(x < (a + 1) * m) by (nonlinear_arith)
        requires
            x == a * f + m - 1,
            0 <= a,
            f <= m,
    ;
    assert(0 <= a * f) by (nonlinear_arith)
        requires
            0 <= a,
            1 <= f,
    ;
    vstd::arithmetic::div_mod::lemma_fundamental_div_mod(x, m);
    vstd::arithmetic::div_mod::lemma_mod_bound(x, m);
    let q = x / m;
    assert(q < a + 1) by (nonlinear_arith)
        requires
            x == m * q + x % m,
            0 <= x % m,
            x < (a + 1) * m,
            m > 0,
    ;
    assert(q >= 0) by (nonlinear_arith)
        requires
            x == m * q + x % m,
            x % m < m,
            0 <= x,
            m > 0,
    ;
    if a > 0 {
        assert(a * f >= 1) by (nonlinear_arith)
            requires
                a >= 1,
                f >= 1,
        ;
        assert(q >= 1) by (nonlinear_arith)
            requires
                x == m * q + x % m,
                x % m < m,
                x >= m,
                m > 0,
        ;
    }
}

/// Checks a component.
fn check_component(frame: &JpegFrame, c: &JpegComponent<'_>, hmax: u8, vmax: u8) -> (r: Result<()>)
    requires
        frame.precision <= 16,
        c.h <= hmax,
        c.v <= vmax,
    ensures
        r is Ok <==> component_ok(*frame, c@, hmax as int, vmax as int),
        r matches Err(e) ==> e is InvalidData,
{
    if c.h < 1 || c.h > 4 || c.v < 1 || c.v > 4 {
        return Err(TiffError::invalid("JPEG encode: sampling factors must be 1 to 4"));
    }
    if c.quant_id > 3 || c.huff_id > 3 {
        return Err(TiffError::invalid("JPEG encode: component table destination out of range (0..=3)"));
    }
    let dct: bool = match frame.process {
        JpegProcess::Dct => true,
        JpegProcess::Lossless { .. } => false,
    };
    if frame.precision == 8 && dct && (c.quant_id > 1 || c.huff_id > 1) {
        return Err(
            TiffError::invalid("JPEG encode: component selects a table destination that the baseline process lacks"),
        );
    }
    proof {
        lemma_ceil_div_small(frame.width as int, c.h as int, hmax as int);
        lemma_ceil_div_small(frame.height as int, c.v as int, vmax as int);
        assert(frame.width * c.h <= 65535 * 4) by (nonlinear_arith)
            requires
                frame.width <= 65535,
                c.h <= 4,
        ;
        assert(frame.height * c.v <= 65535 * 4) by (nonlinear_arith)
            requires
                frame.height <= 65535,
                c.v <= 4,
        ;
    }
    let want_w: usize = div_ceil(frame.width as usize * c.h as usize, hmax as usize);
    let want_h: usize = div_ceil(frame.height as usize * c.v as usize, vmax as usize);
    if c.width != want_w || c.height != want_h {
        return Err(TiffError::invalid("JPEG encode: component dimensions do not follow from the sampling factors"));
    }
    assert(c.width * c.height <= 65535 * 65535) by (nonlinear_arith)
        requires
            c.width <= 65535,
            c.height <= 65535,
    ;
    if c.samples.len() != c.width * c.height {
        return Err(
            invalid_with("JPEG encode: component carries ", c.samples.len() as u64, " samples, not one for each place"),
        );
    }
    if !samples_fit(c.samples, two_to(frame.precision as u32)) {
        return Err(
            invalid_with("JPEG encode: component has a sample of more than ", frame.precision as u64, " bits"),
        );
    }
    Ok(())
}

/// Checks the process of a frame.
fn check_process(frame: &JpegFrame) -> (r: Result<()>)
    ensures
        r is Ok <==> process_ok(*frame),
        r matches Err(e) ==> e is InvalidData,
{
    match frame.process {
        JpegProcess::Dct => {
            if frame.precision != 8 && frame.precision != 12 {
                return Err(invalid_with("JPEG encode: DCT sample precision ", frame.precision as u64, " is not 8 or 12"));
            }
        },
        JpegProcess::Lossless { predictor } => {
            if frame.precision < 2 || frame.precision > 16 {
                return Err(
                    invalid_with("JPEG encode: lossless sample precision ", frame.precision as u64, " is not 2..=16"),
                );
            }
            if predictor < 1 || predictor > 7 {
                return Err(invalid_with("JPEG encode: lossless predictor ", predictor as u64, " is not 1..=7"));
            }
        },
    }
    Ok(())
}

pub proof fn lemma_max_bounds(cs: Seq<ComponentModel>, i: int, n: int)
    requires
        0 <= i < n <= cs.len(),
    ensures
        cs[i].h <= h_max(cs, n) <= 255,
        cs[i].v <= v_max(cs, n) <= 255,
    decreases n,
{
    if i < n - 1 {
        lemma_max_bounds(cs, i, n - 1);
    } else {
        lemma_max_nonnegative(cs, n - 1);
    }
}

proof fn lemma_max_nonnegative(cs: Seq<ComponentModel>, n: int)
    requires
        n <= cs.len(),
    ensures
        0 <= h_max(cs, n) <= 255,
        0 <= v_max(cs, n) <= 255,
    decreases n,
{
    if n > 0 {
        lemma_max_nonnegative(cs, n - 1);
    }
}

/// Checks a frame; gives the greatest sampling factors.
pub fn validate(frame: &JpegFrame, comps: &[JpegComponent<'_>]) -> (r: Result<(u8, u8)>)
    ensures
        r is Ok <==> frame_ok(*frame, models(comps@)),
        r matches Ok(m) ==> m.0 == h_max(models(comps@), models(comps@).len() as int) && m.1 == v_max(models(comps@), models(comps@).len() as int),
        r matches Err(e) ==> e is InvalidData,
{
    let n: usize = comps.len();
    if n == 0 || n > 4 {
        return Err(invalid_with("JPEG encode: ", n as u64, " components (a single interleaved scan carries 1..=4)"));
    }
    if frame.width == 0 || frame.height == 0 {
        return Err(TiffError::invalid("JPEG encode: frame dimensions must be non-zero"));
    }
    check_process(frame)?;
    let mut hmax: u8 = 0;
    let mut vmax: u8 = 0;
    let mut i: usize = 0;
    while i < n
        invariant
            i <= n,
            n == models(comps@).len(),
            hmax == h_max(models(comps@), i as int),
            vmax == v_max(models(comps@), i as int),
        decreases n - i,
    {
        if comps[i].h > hmax {
            hmax = comps[i].h;
        }
        if comps[i].v > vmax {
            vmax = comps[i].v;
        }
        i = i + 1;
    }
    let mut sum: u32 = 0;
    let mut i: usize = 0;
    while i < n
        invariant
            i <= n <= 4,
            n == models(comps@).len(),
            frame.precision <= 16,
            hmax == h_max(models(comps@), n as int),
            vmax == v_max(models(comps@), n as int),
            forall|k: int| 0 <= k < i ==> component_ok(*frame, #[trigger] models(comps@)[k], hmax as int, vmax as int),
            sum == units_of(models(comps@), i as int),
            sum <= 16 * i,
        decreases n - i,
    {
        let c = comps[i];
        proof {
            lemma_max_bounds(models(comps@), i as int, n as int);
        }
        check_component(frame, &c, hmax, vmax)?;
        assert(c.h * c.v <= 16) by (nonlinear_arith)
            requires
                c.h <= 4,
                c.v <= 4,
        ;
        sum = sum + c.h as u32 * c.v as u32;
        i = i + 1;
    }
    if n > 1 && sum > 10 {
        return Err(invalid_with("JPEG encode: ", sum as u64, " data units exceed the interleave limit of 10"));
    }
    if n == 1 && (comps[0].h != 1 || comps[0].v != 1) {
        return Err(TiffError::invalid("JPEG encode: a single-component frame must use sampling factors 1x1"));
    }
    Ok((hmax, vmax))
}

/// The header of a frame for its first `n` components.
pub open spec fn frame_components(frame: JpegFrame, cs: Seq<ComponentModel>, n: int) -> Seq<u8>
    decreases n,
{
    if n <= 0 {
        Seq::empty()
    } else {
        let c = cs[n - 1];
        frame_components(frame, cs, n - 1) + seq![
            n as u8,
            (16 * c.h + c.v) as u8,
            if frame.process is Dct { c.quant_id } else { 0u8 },
        ]
    }
}

/// The header of a frame: marker, length, bits of a sample, height, width,
/// components.
pub open spec fn frame_header(frame: JpegFrame, cs: Seq<ComponentModel>) -> Seq<u8> {
    let n = cs.len() as int;
    let marker = match frame.process {
        JpegProcess::Dct => if frame.precision == 8 { SOF0 } else { SOF1 },
        JpegProcess::Lossless { .. } => SOF3,
    };
    seq![0xFFu8, marker] + be16(8 + 3 * n) + seq![frame.precision] + be16(frame.height as int) + be16(
        frame.width as int,
    ) + seq![n as u8] + frame_components(frame, cs, n)
}

/// The header of a scan for its first `n` components.
pub open spec fn scan_components(frame: JpegFrame, cs: Seq<ComponentModel>, n: int) -> Seq<u8>
    decreases n,
{
    if n <= 0 {
        Seq::empty()
    } else {
        let c = cs[n - 1];
        scan_components(frame, cs, n - 1) + seq![
            n as u8,
            (16 * c.huff_id + if frame.process is Dct { c.huff_id as int } else { 0 }) as u8,
        ]
    }
}

/// The header of a scan: marker, length, components and their tables, and which
/// coefficients are coded or which prediction is used.
pub open spec fn scan_header(frame: JpegFrame, cs: Seq<ComponentModel>) -> Seq<u8> {
    let n = cs.len() as int;
    seq![0xFFu8, SOS] + be16(6 + 2 * n) + seq![n as u8] + scan_components(frame, cs, n) + match frame.process {
        JpegProcess::Dct => seq![0u8, 63u8, 0u8],
        JpegProcess::Lossless { predictor } => seq![predictor, 0u8, 0u8],
    }
}

/// Appends the header of a frame.
fn write_sof(out: &mut Vec<u8>, frame: &JpegFrame, comps: &[JpegComponent<'_>])
    requires
        models(comps@).len() <= 4,
        forall|i: int| 0 <= i < models(comps@).len() ==> (#[trigger] models(comps@)[i]).h <= 4 && models(comps@)[i].v <= 4,
    ensures
        final(out)@ == old(out)@ + frame_header(*frame, models(comps@)),
{
    let n: usize = comps.len();
    let dct: bool = match frame.process {
        JpegProcess::Dct => true,
        JpegProcess::Lossless { .. } => false,
    };
    let marker: u8 = if !dct { SOF3 } else if frame.precision == 8 { SOF0 } else { SOF1 };
    push_marker(out, marker);
    push_be16(out, (8 + 3 * n) as u16);
    out.push(frame.precision);
    push_be16(out, frame.height);
    push_be16(out, frame.width);
    out.push(n as u8);
    let ghost before = out@;
    let mut i: usize = 0;
    assert(out@ =~= before + frame_components(*frame, models(comps@), 0));
    while i < n
        invariant
            i <= n <= 4,
            n == models(comps@).len(),
            dct == (frame.process is Dct),
            forall|i: int| 0 <= i < models(comps@).len() ==> (#[trigger] models(comps@)[i]).h <= 4 && models(comps@)[i].v <= 4,
            out@ == before + frame_components(*frame, models(comps@), i as int),
        decreases n - i,
    {
        let c = comps[i];
        assert(models(comps@)[i as int] == c@);
        out.push((i + 1) as u8);
        out.push(16 * c.h + c.v);
        out.push(if dct { c.quant_id } else { 0 });
        i = i + 1;
        assert(out@ =~= before + frame_components(*frame, models(comps@), i as int));
    }
    assert(out@ =~= old(out)@ + frame_header(*frame, models(comps@)));
}

/// Appends the header of a scan.
fn write_sos(out: &mut Vec<u8>, frame: &JpegFrame, comps: &[JpegComponent<'_>])
    requires
        models(comps@).len() <= 4,
        forall|i: int| 0 <= i < models(comps@).len() ==> (#[trigger] models(comps@)[i]).huff_id <= 3,
    ensures
        final(out)@ == old(out)@ + scan_header(*frame, models(comps@)),
{
    let n: usize = comps.len();
    push_marker(out, SOS);
    push_be16(out, (6 + 2 * n) as u16);
    out.push(n as u8);
    let dct: bool = match frame.process {
        JpegProcess::Dct => true,
        JpegProcess::Lossless { .. } => false,
    };
    let ghost before = out@;
    let mut i: usize = 0;
    assert(out@ =~= before + scan_components(*frame, models(comps@), 0));
    while i < n
        invariant
            i <= n <= 4,
            n == models(comps@).len(),
            dct == (frame.process is Dct),
            forall|i: int| 0 <= i < models(comps@).len() ==> (#[trigger] models(comps@)[i]).huff_id <= 3,
            out@ == before + scan_components(*frame, models(comps@), i as int),
        decreases n - i,
    {
        let c = comps[i];
        assert(models(comps@)[i as int] == c@);
        out.push((i + 1) as u8);
        out.push(16 * c.huff_id + if dct { c.huff_id } else { 0 });
        i = i + 1;
        assert(out@ =~= before + scan_components(*frame, models(comps@), i as int));
    }
    match frame.process {
        JpegProcess::Dct => {
            out.push(0);
            out.push(63);
            out.push(0);
        },
        JpegProcess::Lossless { predictor } => {
            out.push(predictor);
            out.push(0);
            out.push(0);
        },
    }
    assert(out@ =~= old(out)@ + scan_header(*frame, models(comps@)));
}

// ----------------------------------------------------------------------
// Symbols
// ----------------------------------------------------------------------

/// A symbol to be coded, and the bits that follow its code word.
#[derive(Debug, Clone, Copy, PartialEq, Eq, Structural)]
pub struct CodedSymbol {
    /// Whether it is coded by a table for frequencies.
    pub ac: bool,
    /// Place of the table.
    pub table: u8,
    /// The symbol.
    pub symbol: u8,
    /// The bits that follow.
    pub extra: u32,
    /// How many they are.
    pub extra_bits: u32,
}

/// Bits of a number.
pub open spec fn bit_length(m: nat) -> nat
    decreases m,
{
    if m == 0 { 0 } else { 1 + bit_length(m / 2) }
}

/// The magnitude of a number.
pub open spec fn magnitude(v: int) -> nat {
    (if v < 0 { -v } else { v }) as nat
}

/// The low bits of a number, of which a negative one is made one less first.
pub open spec fn low_bits(v: int, n: nat) -> int {
    (if v < 0 { v - 1 } else { v }) % (pow2(n) as int)
}

/// A number has the bits it is said to have.
pub proof fn lemma_bit_length(m: nat)
    ensures
        m < pow2(bit_length(m)),
        m > 0 ==> m >= pow2((bit_length(m) - 1) as nat),
    decreases m,
{
    lemma2_to64();
    if m > 0 {
        lemma_bit_length(m / 2);
        lemma_pow2_unfold(bit_length(m));
        if m / 2 > 0 {
            lemma_pow2_unfold((bit_length(m) - 1) as nat);
        }
    }
}

/// Fewer bits for smaller numbers.
pub proof fn lemma_bit_length_bound(m: nat, n: nat)
    requires
        m < pow2(n),
    ensures
        bit_length(m) <= n,
{
    lemma_bit_length(m);
    if bit_length(m) > n {
        let k = (bit_length(m) - 1) as nat;
        if n < k {
            vstd::arithmetic::power2::lemma_pow2_strictly_increases(n, k);
        }
    }
}

/// The category of a number and its low bits give it back: low bits that begin
/// with 1 are the number, others are that much above the least number of the
/// category.
pub proof fn law_amplitude(v: int)
    ensures
        ({
            let n = bit_length(magnitude(v));
            let x = low_bits(v, n);
            &&& 0 <= x < pow2(n)
            &&& v == if n == 0 {
                0
            } else if x >= pow2((n - 1) as nat) {
                x
            } else {
                x + 1 - pow2(n)
            }
        }),
{
    let n = bit_length(magnitude(v));
    let p = pow2(n) as int;
    lemma2_to64();
    lemma_bit_length(magnitude(v));
    lemma_pow2_pos(n);
    if v >= 0 {
        vstd::arithmetic::div_mod::lemma_small_mod(v as nat, p as nat);
    } else {
        lemma_pow2_unfold(n);
        vstd::arithmetic::div_mod::lemma_mod_multiples_vanish(1, v - 1, p);
        vstd::arithmetic::div_mod::lemma_small_mod((v - 1 + p) as nat, p as nat);
    }
}

/// The category of a number: the bits of its magnitude.
pub fn category(v: i32) -> (n: u32)
    ensures
        n == bit_length(magnitude(v as int)),
        n <= 32,
{
    let mut m: u64 = if v < 0 { (-(v as i64)) as u64 } else { v as u64 };
    let ghost all = m as nat;
    let mut n: u32 = 0;
    proof {
        lemma2_to64();
        lemma_bit_length_bound(all, 32);
    }
    while m > 0
        invariant
            n + bit_length(m as nat) == bit_length(all),
            bit_length(all) <= 32,
        decreases m,
    {
        m = m / 2;
        n = n + 1;
    }
    n
}

/// The bits that follow the category of a number.
pub fn extra_bits(v: i32, ssss: u32) -> (x: u32)
    requires
        ssss < 32,
    ensures
        x == (if ssss == 0 { 0 } else { low_bits(v as int, ssss as nat) }),
{
    if ssss == 0 {
        return 0;
    }
    let p: u64 = two_to(ssss);
    let raw: i64 = if v < 0 { v as i64 - 1 } else { v as i64 };
    proof {
        lemma2_to64();
        lemma_pow2_adds(ssss as nat, (32 - ssss) as nat);
        lemma_pow2_pos(ssss as nat);
        let k = pow2((32 - ssss) as nat) as int;
        let q = p as int;
        assert(q * (2 * k) == 2 * 0x1_0000_0000) by (nonlinear_arith)
            requires
                q * k == 0x1_0000_0000,
        ;
        vstd::arithmetic::div_mod::lemma_mod_multiples_vanish(2 * k, raw as int, q);
        vstd::arithmetic::div_mod::lemma_mod_bound(raw as int, q);
        vstd::arithmetic::power2::lemma_pow2_strictly_increases(ssss as nat, 32);
    }
    let up: u64 = (raw + 0x2_0000_0000) as u64;
    (up % p) as u32
}

/// A symbol for a category, with the bits that follow it.
pub open spec fn amplitude_symbol(ac: bool, table: u8, run: int, v: int) -> CodedSymbol {
    let n = bit_length(magnitude(v));
    CodedSymbol {
        ac,
        table,
        symbol: (16 * run + n) as u8,
        extra: (if n == 0 { 0 } else { low_bits(v, n) }) as u32,
        extra_bits: n as u32,
    }
}

/// A symbol that no bits follow.
pub open spec fn plain_symbol(ac: bool, table: u8, symbol: u8) -> CodedSymbol {
    CodedSymbol { ac, table, symbol, extra: 0, extra_bits: 0 }
}

/// The symbols of the coefficients from the `k`th on in the order of coding, after
/// `run` zeros: 16 zeros have a symbol of their own, fewer go with the coefficient
/// that ends them, and those at the end become one symbol.
pub open spec fn ac_symbols(q: Seq<i16>, table: u8, k: int, run: int) -> Seq<CodedSymbol>
    decreases 64 - k,
{
    if k >= 64 {
        if run > 0 { seq![plain_symbol(true, table, 0)] } else { Seq::empty() }
    } else {
        let coef = q[NATURAL[k] as int] as int;
        if coef == 0 {
            ac_symbols(q, table, k + 1, run + 1)
        } else {
            Seq::new((run / 16) as nat, |i: int| plain_symbol(true, table, 0xF0)) + seq![
                amplitude_symbol(true, table, run % 16, coef),
            ] + ac_symbols(q, table, k + 1, 0)
        }
    }
}

/// The symbols of a block: the difference of its average to that of the block
/// before, then its other coefficients.
pub open spec fn block_symbols(q: Seq<i16>, before: int, table: u8) -> Seq<CodedSymbol> {
    seq![amplitude_symbol(false, table, 0, q[0] - before)] + ac_symbols(q, table, 1, 0)
}

/// No coefficient but the average is the least number of 16 bits, which has no
/// category.
pub open spec fn block_ok(q: Seq<i16>) -> bool {
    forall|i: int| 1 <= i < 64 ==> #[trigger] q[i] != i16::MIN
}

/// Makes a symbol for a category.
fn make_symbol(ac: bool, table: u8, run: u8, v: i32) -> (s: CodedSymbol)
    requires
        run < 16,
        -65536 < v < 65536,
        run > 0 ==> -32768 < v < 32768,
    ensures
        s == amplitude_symbol(ac, table, run as int, v as int),
        s.extra_bits <= 16,
{
    proof {
        lemma2_to64();
        lemma_bit_length_bound(magnitude(v as int), 16);
        if run > 0 {
            lemma_bit_length_bound(magnitude(v as int), 15);
        }
        law_amplitude(v as int);
        let n = bit_length(magnitude(v as int));
        lemma_pow2_bound(n, 16);
    }
    let n: u32 = category(v);
    CodedSymbol { ac, table, symbol: 16 * run + n as u8, extra: extra_bits(v, n), extra_bits: n }
}

pub proof fn lemma_pow2_bound(m: nat, n: nat)
    requires
        m <= n,
    ensures
        0 < pow2(m) <= pow2(n),
{
    lemma_pow2_pos(m);
    if m < n {
        vstd::arithmetic::power2::lemma_pow2_strictly_increases(m, n);
    }
}

/// Appends the symbols of a block.
fn code_block(out: &mut Vec<CodedSymbol>, q: &[i16; 64], before: i16, table: u8)
    requires
        block_ok(q@),
    ensures
        final(out)@ == old(out)@ + block_symbols(q@, before as int, table),
{
    let diff: i32 = q[0] as i32 - before as i32;
    out.push(make_symbol(false, table, 0, diff));
    let ghost first = out@;
    let ghost goal = old(out)@ + block_symbols(q@, before as int, table);
    assert(first + ac_symbols(q@, table, 1, 0) =~= goal);
    let mut run: u8 = 0;
    let mut k: usize = 1;
    while k < 64
        invariant
            1 <= k <= 64,
            run < k,
            block_ok(q@),
            out@ + ac_symbols(q@, table, k as int, run as int) == goal,
        decreases 64 - k,
    {
        assert(1 <= NATURAL[k as int] < 64) by {
            law_zigzag_permutes();
            assert(ZIGZAG[NATURAL[k as int] as int] == k);
        }
        let coef: i16 = q[NATURAL[k]];
        if coef == 0 {
            run = run + 1;
        } else {
            assert(coef != i16::MIN) by {
                assert(q@[NATURAL[k as int] as int] == coef);
            }
            let ghost start = out@;
            let ghost all = run;
            let ghost last = amplitude_symbol(true, table, (run % 16) as int, coef as int);
            let ghost rest = ac_symbols(q@, table, k + 1, 0);
            assert(out@ =~= start + Seq::new(0, |i: int| plain_symbol(true, table, 0xF0)));
            while run > 15
                invariant
                    run <= all < 64,
                    (all - run) % 16 == 0,
                    out@ == start + Seq::new(((all - run) / 16) as nat, |i: int| plain_symbol(true, table, 0xF0)),
                decreases run,
            {
                out.push(CodedSymbol { ac: true, table, symbol: 0xF0, extra: 0, extra_bits: 0 });
                run = run - 16;
                assert(out@ =~= start + Seq::new(((all - run) / 16) as nat, |i: int| plain_symbol(true, table, 0xF0)));
            }
            assert(run == all % 16 && (all - run) / 16 == all / 16);
            out.push(make_symbol(true, table, run, coef as i32));
            run = 0;
            assert(out@ + rest =~= start + (Seq::new((all / 16) as nat, |i: int| plain_symbol(true, table, 0xF0)) + seq![
                last,
            ] + rest));
        }
        k = k + 1;
    }
    if run > 0 {
        out.push(CodedSymbol { ac: true, table, symbol: 0, extra: 0, extra_bits: 0 });
    }
    assert(out@ =~= goal);
}

/// The number that a symbol for a category stands for.
pub open spec fn amplitude_of(s: CodedSymbol) -> int {
    let n = s.extra_bits as nat;
    if n == 0 {
        0
    } else if s.extra >= pow2((n - 1) as nat) {
        s.extra as int
    } else {
        s.extra + 1 - pow2(n)
    }
}

/// Zero coefficients.
pub open spec fn no_coefs(n: int) -> Seq<int> {
    Seq::new(n as nat, |i: int| 0int)
}

/// The coefficients that symbols stand for, from the `k`th on in the order of
/// coding.
pub open spec fn coefs_read(s: Seq<CodedSymbol>, k: int) -> Seq<int>
    decreases s.len(),
{
    if s.len() == 0 || s[0].symbol == 0 {
        no_coefs(64 - k)
    } else if s[0].symbol == 0xF0 {
        no_coefs(16) + coefs_read(s.skip(1), k + 16)
    } else {
        let run = s[0].symbol as int / 16;
        no_coefs(run) + seq![amplitude_of(s[0])] + coefs_read(s.skip(1), k + run + 1)
    }
}

/// The coefficients of a block from the `k`th on in the order of coding.
pub open spec fn coefs_of(q: Seq<i16>, k: int) -> Seq<int> {
    Seq::new((64 - k) as nat, |i: int| q[NATURAL[k + i] as int] as int)
}

/// What a symbol for a category stands for.
pub proof fn lemma_symbol_read(ac: bool, table: u8, run: int, v: int)
    requires
        0 <= run < 16,
        -32768 < v < 32768,
    ensures
        ({
            let s = amplitude_symbol(ac, table, run, v);
            &&& amplitude_of(s) == v
            &&& s.symbol == 16 * run + bit_length(magnitude(v))
            &&& s.symbol as int / 16 == run
            &&& v != 0 ==> 1 <= s.symbol % 16
        }),
{
    let n = bit_length(magnitude(v));
    lemma2_to64();
    lemma_bit_length_bound(magnitude(v), 15);
    law_amplitude(v);
    lemma_pow2_bound(n, 15);
    if v != 0 {
        assert(magnitude(v) > 0);
    }
}

/// Symbols for 16 zeros are read as zeros.
proof fn lemma_zeros_read(n: nat, table: u8, rest: Seq<CodedSymbol>, k: int)
    ensures
        coefs_read(Seq::new(n, |i: int| plain_symbol(true, table, 0xF0)) + rest, k) == no_coefs((16 * n) as int) + coefs_read(
            rest,
            k + 16 * n,
        ),
    decreases n,
{
    let head = Seq::new(n, |i: int| plain_symbol(true, table, 0xF0));
    if n == 0 {
        assert(head + rest =~= rest);
        assert(no_coefs(0) + coefs_read(rest, k) =~= coefs_read(rest, k));
    } else {
        let less = Seq::new((n - 1) as nat, |i: int| plain_symbol(true, table, 0xF0));
        assert((head + rest).skip(1) =~= less + rest);
        assert((head + rest)[0] == plain_symbol(true, table, 0xF0));
        lemma_zeros_read((n - 1) as nat, table, rest, k + 16);
        assert(no_coefs(16) + (no_coefs(16 * (n - 1)) + coefs_read(rest, k + 16 * n)) =~= no_coefs((16 * n) as int) + coefs_read(
            rest,
            k + 16 * n,
        ));
    }
}

/// The symbols of coefficients are read as these.
proof fn lemma_coefs_read(q: Seq<i16>, table: u8, k: int, run: int)
    requires
        q.len() == 64,
        block_ok(q),
        1 <= k <= 64,
        0 <= run < k,
    ensures
        coefs_read(ac_symbols(q, table, k, run), k - run) == no_coefs(run) + coefs_of(q, k),
    decreases 64 - k,
{
    let s = ac_symbols(q, table, k, run);
    if k == 64 {
        assert(no_coefs(run) + coefs_of(q, k) =~= no_coefs(run));
    } else {
        law_zigzag_permutes();
        assert(ZIGZAG[NATURAL[k] as int] == k);
        let coef = q[NATURAL[k] as int] as int;
        if coef == 0 {
            lemma_coefs_read(q, table, k + 1, run + 1);
            assert(no_coefs(run + 1) + coefs_of(q, k + 1) =~= no_coefs(run) + coefs_of(q, k)) by {
                assert forall|i: int| 0 <= i < 64 - k + run implies #[trigger] (no_coefs(run + 1) + coefs_of(
                    q,
                    k + 1,
                ))[i] == (no_coefs(run) + coefs_of(q, k))[i] by {
                    if i > run {
                        assert(coefs_of(q, k + 1)[i - run - 1] == coefs_of(q, k)[i - run]);
                    }
                }
            }
        } else {
            let n = (run / 16) as nat;
            let last = amplitude_symbol(true, table, run % 16, coef);
            let rest = ac_symbols(q, table, k + 1, 0);
            let head = Seq::new(n, |i: int| plain_symbol(true, table, 0xF0));
            lemma_coefs_read(q, table, k + 1, 0);
            lemma_symbol_read(true, table, run % 16, coef);
            lemma_zeros_read(n, table, seq![last] + rest, k - run);
            assert(s =~= head + (seq![last] + rest));
            assert((seq![last] + rest).skip(1) =~= rest);
            let tail = coefs_read(rest, k + 1);
            assert(tail =~= coefs_of(q, k + 1));
            assert(coefs_read(seq![last] + rest, k - run % 16) == no_coefs(run % 16) + seq![coef] + tail);
            assert(no_coefs((16 * n) as int) + (no_coefs(run % 16) + seq![coef] + tail) =~= no_coefs(run) + coefs_of(q, k)) by {
                assert forall|i: int| 0 <= i < 64 - k + run implies #[trigger] (no_coefs((16 * n) as int) + (no_coefs(run % 16)
                    + seq![coef] + tail))[i] == (no_coefs(run) + coefs_of(q, k))[i] by {
                    if i > run {
                        assert(coefs_of(q, k + 1)[i - run - 1] == coefs_of(q, k)[i - run]);
                    }
                }
            }
        }
    }
}

/// The symbols of a block give its coefficients back: the first one the difference
/// of the averages, the others what follows in the order of coding.
pub proof fn law_block_read(q: Seq<i16>, before: int, table: u8)
    requires
        q.len() == 64,
        block_ok(q),
        -32768 <= before < 32768,
    ensures
        before + amplitude_of(block_symbols(q, before, table)[0]) == q[0],
        coefs_read(block_symbols(q, before, table).skip(1), 1) == coefs_of(q, 1),
{
    let v = q[0] - before;
    let n = bit_length(magnitude(v));
    lemma2_to64();
    lemma_bit_length_bound(magnitude(v), 16);
    law_amplitude(v);
    lemma_pow2_bound(n, 16);
    lemma_coefs_read(q, table, 1, 0);
    assert(block_symbols(q, before, table).skip(1) =~= ac_symbols(q, table, 1, 0));
    assert(no_coefs(0) + coefs_of(q, 1) =~= coefs_of(q, 1));
}

// ----------------------------------------------------------------------
// Scans
// ----------------------------------------------------------------------

/// Coding units side by side, where a data unit has `unit` samples in a row.
pub open spec fn mcus_across(frame: JpegFrame, cs: Seq<ComponentModel>, unit: int) -> int {
    ceil_div(frame.width as int, unit * h_max(cs, cs.len() as int))
}

/// Coding units below each other.
pub open spec fn mcus_down(frame: JpegFrame, cs: Seq<ComponentModel>, unit: int) -> int {
    ceil_div(frame.height as int, unit * v_max(cs, cs.len() as int))
}

/// Data units of a scan.
pub open spec fn unit_count(frame: JpegFrame, cs: Seq<ComponentModel>, unit: int) -> int {
    mcus_across(frame, cs, unit) * mcus_down(frame, cs, unit) * units_of(cs, cs.len() as int)
}

/// The one of the first `n` components that data unit `r` of a coding unit belongs
/// to: each has as many as its sampling factors say, in turn.
pub open spec fn component_of(cs: Seq<ComponentModel>, r: int, n: int) -> int
    decreases n,
{
    if n <= 1 || r >= units_of(cs, n - 1) { n - 1 } else { component_of(cs, r, n - 1) }
}

/// Data unit `k` of a scan: its component, and its column and row there. Coding
/// units follow each other row by row; within one, so do the data units of a
/// component.
pub open spec fn unit_at(frame: JpegFrame, cs: Seq<ComponentModel>, unit: int, k: int) -> (int, int, int) {
    let n = cs.len() as int;
    let across = mcus_across(frame, cs, unit);
    let m = k / units_of(cs, n);
    let r = k % units_of(cs, n);
    let c = component_of(cs, r, n);
    let i = r - units_of(cs, c);
    let h = cs[c].h as int;
    (c, m % across * h + i % h, m / across * cs[c].v + i / h)
}

/// A place up to the last one.
pub open spec fn clamped(x: int, n: int) -> int {
    if x < n { x } else { n - 1 }
}

/// A sample of a component; beyond its edges the nearest one.
pub open spec fn sample_of(c: ComponentModel, x: int, y: int) -> int {
    c.samples[clamped(y, c.height as int) * c.width + clamped(x, c.width as int)] as int
}

/// A data unit: the component, and the column and row there.
#[derive(Debug, Clone, Copy)]
pub struct DataUnit {
    /// The component.
    pub component: usize,
    /// The column.
    pub x: usize,
    /// The row.
    pub y: usize,
}

pub proof fn lemma_units_mono(cs: Seq<ComponentModel>, m: int, n: int)
    requires
        0 <= m <= n <= cs.len(),
    ensures
        0 <= units_of(cs, m) <= units_of(cs, n),
    decreases n,
{
    if n > 0 {
        let c = cs[n - 1];
        assert(c.h * c.v >= 0) by (nonlinear_arith)
            requires
                c.h >= 0,
                c.v >= 0,
        ;
        if m < n {
            lemma_units_mono(cs, m, n - 1);
        } else {
            lemma_units_mono(cs, n - 1, n - 1);
        }
    }
}

pub proof fn lemma_component_of(cs: Seq<ComponentModel>, r: int, n: int)
    requires
        1 <= n <= cs.len(),
        0 <= r < units_of(cs, n),
    ensures
        0 <= component_of(cs, r, n) < n,
        units_of(cs, component_of(cs, r, n)) <= r < units_of(cs, component_of(cs, r, n) + 1),
    decreases n,
{
    if n > 1 && r < units_of(cs, n - 1) {
        lemma_component_of(cs, r, n - 1);
    } else {
        reveal_with_fuel(units_of, 2);
    }
}

/// What holds of the measures of a frame.
pub proof fn lemma_frame(frame: JpegFrame, cs: Seq<ComponentModel>, unit: int)
    requires
        frame_ok(frame, cs),
        unit == 1 || unit == 8,
    ensures
        ({
            let n = cs.len() as int;
            &&& 1 <= h_max(cs, n) <= 4
            &&& 1 <= v_max(cs, n) <= 4
            &&& 1 <= units_of(cs, n) <= 10
            &&& 1 <= mcus_across(frame, cs, unit) <= 65535
            &&& 1 <= mcus_down(frame, cs, unit) <= 65535
            &&& 1 <= unit_count(frame, cs, unit) <= 65535 * 65535 * 10
            &&& forall|i: int|
                0 <= i < n ==> 1 <= (#[trigger] cs[i]).width <= 65535 && 1 <= cs[i].height <= 65535
        }),
{
    let n = cs.len() as int;
    lemma_max_of_ok(frame, cs, n);
    lemma_max_bounds(cs, 0, n);
    assert(component_ok(frame, cs[0], h_max(cs, n), v_max(cs, n)));
    lemma_units_mono(cs, 1, n);
    assert(units_of(cs, 1) >= 1) by {
        reveal_with_fuel(units_of, 2);
        let c = cs[0];
        assert(c.h * c.v >= 1) by (nonlinear_arith)
            requires
                c.h >= 1,
                c.v >= 1,
        ;
    }
    if n == 1 {
        reveal_with_fuel(units_of, 2);
        let c = cs[0];
        assert(c.h * c.v == 1) by (nonlinear_arith)
            requires
                c.h == 1,
                c.v == 1,
        ;
    }
    let hm = unit * h_max(cs, n);
    let vm = unit * v_max(cs, n);
    assert(hm >= 1) by (nonlinear_arith)
        requires
            hm == unit * h_max(cs, n),
            unit >= 1,
            h_max(cs, n) >= 1,
    ;
    assert(vm >= 1) by (nonlinear_arith)
        requires
            vm == unit * v_max(cs, n),
            unit >= 1,
            v_max(cs, n) >= 1,
    ;
    lemma_ceil_div_small(frame.width as int, 1, hm);
    lemma_ceil_div_small(frame.height as int, 1, vm);
    let a = mcus_across(frame, cs, unit);
    let d = mcus_down(frame, cs, unit);
    let u = units_of(cs, n);
    assert(1 <= a * d * u <= 65535 * 65535 * 10) by (nonlinear_arith)
        requires
            1 <= a <= 65535,
            1 <= d <= 65535,
            1 <= u <= 10,
    ;
    assert forall|i: int| 0 <= i < n implies 1 <= (#[trigger] cs[i]).width <= 65535 && 1 <= cs[i].height <= 65535 by {
        assert(component_ok(frame, cs[i], h_max(cs, n), v_max(cs, n)));
        lemma_max_bounds(cs, i, n);
        lemma_ceil_div_small(frame.width as int, cs[i].h as int, h_max(cs, n));
        lemma_ceil_div_small(frame.height as int, cs[i].v as int, v_max(cs, n));
    }
}

proof fn lemma_max_of_ok(frame: JpegFrame, cs: Seq<ComponentModel>, k: int)
    requires
        frame_ok(frame, cs),
        0 <= k <= cs.len(),
    ensures
        0 <= h_max(cs, k) <= 4,
        0 <= v_max(cs, k) <= 4,
    decreases k,
{
    if k > 0 {
        lemma_max_of_ok(frame, cs, k - 1);
        assert(component_ok(frame, cs[k - 1], h_max(cs, cs.len() as int), v_max(cs, cs.len() as int)));
    }
}

/// How a scan goes through a frame.
struct ScanPlan {
    across: u64,
    per: u64,
    count: u64,
}

impl ScanPlan {
    spec fn of(self, frame: JpegFrame, cs: Seq<ComponentModel>, unit: int) -> bool {
        &&& self.across == mcus_across(frame, cs, unit)
        &&& self.per == units_of(cs, cs.len() as int)
        &&& self.count == unit_count(frame, cs, unit)
        &&& 1 <= self.per <= 10
        &&& 1 <= self.across <= 65535
        &&& self.count <= 65535 * 65535 * 10
    }
}

/// Plans a scan.
fn plan_scan(frame: &JpegFrame, comps: &[JpegComponent<'_>], hmax: u8, vmax: u8, unit: usize) -> (r: ScanPlan)
    requires
        frame_ok(*frame, models(comps@)),
        hmax == h_max(models(comps@), models(comps@).len() as int),
        vmax == v_max(models(comps@), models(comps@).len() as int),
        unit == 1 || unit == 8,
    ensures
        r.of(*frame, models(comps@), unit as int),
{
    proof {
        lemma_frame(*frame, models(comps@), unit as int);
        assert(unit * hmax <= 32) by (nonlinear_arith)
            requires
                unit <= 8,
                hmax <= 4,
        ;
        assert(unit * vmax <= 32) by (nonlinear_arith)
            requires
                unit <= 8,
                vmax <= 4,
        ;
        assert(unit * hmax >= 1) by (nonlinear_arith)
            requires
                unit >= 1,
                hmax >= 1,
        ;
        assert(unit * vmax >= 1) by (nonlinear_arith)
            requires
                unit >= 1,
                vmax >= 1,
        ;
    }
    let across: usize = div_ceil(frame.width as usize, unit * hmax as usize);
    let down: usize = div_ceil(frame.height as usize, unit * vmax as usize);
    let n: usize = comps.len();
    let mut per: u64 = 0;
    let mut i: usize = 0;
    while i < n
        invariant
            i <= n <= 4,
            n == models(comps@).len(),
            frame_ok(*frame, models(comps@)),
            per == units_of(models(comps@), i as int),
            per <= 16 * i,
        decreases n - i,
    {
        let c = comps[i];
        assert(models(comps@)[i as int] == c@);
        assert(component_ok(*frame, c@, h_max(models(comps@), n as int), v_max(models(comps@), n as int)));
        assert(c.h * c.v <= 16) by (nonlinear_arith)
            requires
                c.h <= 4,
                c.v <= 4,
        ;
        per = per + c.h as u64 * c.v as u64;
        i = i + 1;
    }
    assert(across * down <= 65535 * 65535) by (nonlinear_arith)
        requires
            across <= 65535,
            down <= 65535,
    ;
    assert(across * down * per <= 65535 * 65535 * 10) by (nonlinear_arith)
        requires
            across * down <= 65535 * 65535,
            per <= 10,
    ;
    ScanPlan { across: across as u64, per, count: across as u64 * down as u64 * per }
}

/// Finds data unit `k` of a scan.
fn locate(frame: &JpegFrame, comps: &[JpegComponent<'_>], plan: &ScanPlan, k: u64, Ghost(unit): Ghost<int>) -> (u:
    DataUnit)
    requires
        frame_ok(*frame, models(comps@)),
        unit == 1 || unit == 8,
        plan.of(*frame, models(comps@), unit),
        k < plan.count,
    ensures
        unit_at(*frame, models(comps@), unit, k as int) == (u.component as int, u.x as int, u.y as int),
        u.component < models(comps@).len(),
        u.x <= 300000,
        u.y <= 300000,
{
    let ghost cs = models(comps@);
    let ghost n = models(comps@).len() as int;
    proof {
        lemma_frame(*frame, cs, unit);
    }
    let m: u64 = k / plan.per;
    let r: u64 = k % plan.per;
    let mut c: usize = comps.len() - 1;
    proof {
        vstd::arithmetic::div_mod::lemma_mod_bound(k as int, plan.per as int);
        lemma_component_of(cs, r as int, n);
        assert(component_ok(*frame, cs[n - 1], h_max(cs, n), v_max(cs, n)));
        assert(cs[n - 1].h * cs[n - 1].v >= 0) by (nonlinear_arith)
            requires
                cs[n - 1].h >= 0,
                cs[n - 1].v >= 0,
        ;
        lemma_units_mono(cs, n - 1, n);
    }
    let mut start: u64 = plan.per - comps[c].h as u64 * comps[c].v as u64;
    while c > 0 && r < start
        invariant
            c < models(comps@).len(),
            cs == models(comps@),
            n == models(comps@).len(),
            frame_ok(*frame, cs),
            start == units_of(cs, c as int),
            component_of(cs, r as int, n) == component_of(cs, r as int, c + 1),
            start <= 10,
        decreases c,
    {
        proof {
            lemma_units_mono(cs, c - 1, c as int);
            assert(component_ok(*frame, cs[c - 1], h_max(cs, n), v_max(cs, n)));
            assert(cs[c - 1].h * cs[c - 1].v >= 0) by (nonlinear_arith)
                requires
                    cs[c - 1].h >= 0,
                    cs[c - 1].v >= 0,
            ;
        }
        c = c - 1;
        start = start - comps[c].h as u64 * comps[c].v as u64;
    }
    proof {
        assert(component_of(cs, r as int, n) == c);
        assert(component_ok(*frame, cs[c as int], h_max(cs, n), v_max(cs, n)));
    }
    let h: u64 = comps[c].h as u64;
    let v: u64 = comps[c].v as u64;
    let i: u64 = r - start;
    proof {
        let across = plan.across as int;
        vstd::arithmetic::div_mod::lemma_mod_bound(m as int, across);
        vstd::arithmetic::div_mod::lemma_mod_bound(i as int, h as int);
        assert(m % plan.across * h <= 65535 * 4) by (nonlinear_arith)
            requires
                m % plan.across <= 65535,
                h <= 4,
        ;
        lemma_mcu_row(frame.width as int, k as int, plan.per as int, across, mcus_down(*frame, cs, unit));
        assert(m / plan.across * v <= 65535 * 4) by (nonlinear_arith)
            requires
                m / plan.across <= 65535,
                v <= 4,
        ;
        assert(i as int / (h as int) <= i) by (nonlinear_arith)
            requires
                i >= 0,
                h >= 1,
        ;
    }
    DataUnit {
        component: c,
        x: (m % plan.across * h + i % h) as usize,
        y: (m / plan.across * v + i / h) as usize,
    }
}

/// Coding units lie in the rows there are.
proof fn lemma_mcu_row(w: int, k: int, per: int, across: int, down: int)
    requires
        0 <= k < across * down * per,
        0 < per,
        0 < across,
        0 < down <= 65535,
    ensures
        0 <= k / per,
        0 <= k / per / across < down,
{
    vstd::arithmetic::div_mod::lemma_fundamental_div_mod(k, per);
    vstd::arithmetic::div_mod::lemma_mod_bound(k, per);
    let m = k / per;
    assert(0 <= m < across * down) by (nonlinear_arith)
        requires
            k == per * m + k % per,
            0 <= k % per < per,
            0 <= k < across * down * per,
            0 < per,
    ;
    vstd::arithmetic::div_mod::lemma_fundamental_div_mod(m, across);
    vstd::arithmetic::div_mod::lemma_mod_bound(m, across);
    let y = m / across;
    assert(0 <= y < down) by (nonlinear_arith)
        requires
            m == across * y + m % across,
            0 <= m % across < across,
            0 <= m < across * down,
            0 < across,
    ;
}

/// Reads a sample; beyond the edges of the component the nearest one.
fn sample_at(c: &JpegComponent<'_>, x: usize, y: usize) -> (s: u16)
    requires
        1 <= c.width <= 65535,
        1 <= c.height <= 65535,
        c.samples@.len() == c.width * c.height,
    ensures
        s == sample_of(c@, x as int, y as int),
{
    let sx: usize = if x < c.width { x } else { c.width - 1 };
    let sy: usize = if y < c.height { y } else { c.height - 1 };
    proof {
        let w = c.width as int;
        let h = c.height as int;
        assert(sy * w + sx < w * h) by (nonlinear_arith)
            requires
                0 <= sy < h,
                0 <= sx < w,
        ;
        assert(0 <= sy * w) by (nonlinear_arith)
            requires
                0 <= sy,
                0 <= w,
        ;
        assert(w * h <= 65535 * 65535) by (nonlinear_arith)
            requires
                0 <= w <= 65535,
                0 <= h <= 65535,
        ;
    }
    c.samples[sy * c.width + sx]
}

// ----------------------------------------------------------------------
// Blocks
// ----------------------------------------------------------------------

/// The samples of a block, made even around 0.
pub open spec fn block_sample(frame: JpegFrame, cs: Seq<ComponentModel>, k: int, i: int) -> int {
    let u = unit_at(frame, cs, 8, k);
    sample_of(cs[u.0], 8 * u.1 + i % 8, 8 * u.2 + i / 8) - pow2((frame.precision - 1) as nat)
}

/// A block of samples that is to be transformed.
#[derive(Debug, Clone, Copy)]
pub struct SampleBlock {
    /// The component of the block.
    pub component: usize,
    /// Its samples, row by row, made even around 0.
    pub samples: [i16; 64],
}

/// Blocks to be transformed for a frame.
pub open spec fn block_count(frame: JpegFrame, cs: Seq<ComponentModel>) -> int {
    if frame.process is Dct { unit_count(frame, cs, 8) } else { 0 }
}

/// The samples of a block.
fn gather_block(frame: &JpegFrame, c: &JpegComponent<'_>, u: &DataUnit) -> (b: [i16; 64])
    requires
        frame.precision == 8 || frame.precision == 12,
        1 <= c.width <= 65535,
        1 <= c.height <= 65535,
        c.samples@.len() == c.width * c.height,
        forall|i: int| 0 <= i < c.samples@.len() ==> #[trigger] c.samples@[i] < pow2(frame.precision as nat),
        u.x <= 300000,
        u.y <= 300000,
    ensures
        forall|i: int|
            0 <= i < 64 ==> #[trigger] b@[i] == sample_of(c@, 8 * u.x + i % 8, 8 * u.y + i / 8) - pow2(
                (frame.precision - 1) as nat,
            ),
{
    let level: i32 = two_to((frame.precision - 1) as u32) as i32;
    let mut b: [i16; 64] = [0i16; 64];
    let mut i: usize = 0;
    proof {
        lemma2_to64();
    }
    while i < 64
        invariant
            i <= 64,
            frame.precision == 8 || frame.precision == 12,
            1 <= c.width <= 65535,
            1 <= c.height <= 65535,
            c.samples@.len() == c.width * c.height,
            forall|j: int| 0 <= j < c.samples@.len() ==> #[trigger] c.samples@[j] < pow2(frame.precision as nat),
            pow2(frame.precision as nat) <= 4096,
            u.x <= 300000,
            u.y <= 300000,
            level == pow2((frame.precision - 1) as nat),
            0 <= level <= 2048,
            forall|j: int| 0 <= j < i ==> #[trigger] b@[j] == sample_of(c@, 8 * u.x + j % 8, 8 * u.y + j / 8) - level,
        decreases 64 - i,
    {
        let s: u16 = sample_at(c, 8 * u.x + i % 8, 8 * u.y + i / 8);
        proof {
            lemma_sample_place(c@, 8 * u.x + i % 8, 8 * u.y + i / 8);
        }
        let v: i32 = s as i32 - level;
        b[i] = v as i16;
        i = i + 1;
    }
    b
}

/// A sample is one of the samples.
proof fn lemma_sample_place(c: ComponentModel, x: int, y: int)
    requires
        1 <= c.width,
        1 <= c.height,
        c.samples.len() == c.width * c.height,
        0 <= x,
        0 <= y,
    ensures
        exists|i: int| 0 <= i < c.samples.len() && #[trigger] c.samples[i] == sample_of(c, x, y),
{
    let w = c.width as int;
    let h = c.height as int;
    let sx = clamped(x, w);
    let sy = clamped(y, h);
    assert(0 <= sy * w + sx < w * h) by (nonlinear_arith)
        requires
            0 <= sy < h,
            0 <= sx < w,
    ;
    assert(c.samples[sy * w + sx] == sample_of(c, x, y));
}

/// The blocks of a frame that are to be transformed, in the order in which they
/// are coded; none for a lossless frame.
pub fn sample_blocks(frame: &JpegFrame, comps: &[JpegComponent<'_>]) -> (r: Result<Vec<SampleBlock>>)
    ensures
        (match r {
            Ok(v) => {
                &&& frame_ok(*frame, models(comps@))
                &&& v@.len() == block_count(*frame, models(comps@))
                &&& forall|k: int|
                    0 <= k < v@.len() ==> (#[trigger] v@[k]).component == unit_at(*frame, models(comps@), 8, k).0
                &&& forall|k: int, i: int|
                    0 <= k < v@.len() && 0 <= i < 64 ==> #[trigger] v@[k].samples@[i] == block_sample(
                        *frame,
                        models(comps@),
                        k,
                        i,
                    )
            },
            Err(e) => e is InvalidData && !frame_ok(*frame, models(comps@)),
        }),
{
    let (hmax, vmax) = validate(frame, comps)?;
    let mut out: Vec<SampleBlock> = Vec::new();
    match frame.process {
        JpegProcess::Lossless { .. } => {
            return Ok(out);
        },
        JpegProcess::Dct => {},
    }
    let plan = plan_scan(frame, comps, hmax, vmax, 8);
    proof {
        lemma_frame(*frame, models(comps@), 8);
    }
    let mut k: u64 = 0;
    while k < plan.count
        invariant
            k <= plan.count,
            frame_ok(*frame, models(comps@)),
            frame.process is Dct,
            plan.of(*frame, models(comps@), 8),
            forall|i: int|
                0 <= i < models(comps@).len() ==> 1 <= (#[trigger] models(comps@)[i]).width <= 65535 && 1 <= models(comps@)[i].height <= 65535,
            out@.len() == k,
            forall|j: int| 0 <= j < k ==> (#[trigger] out@[j]).component == unit_at(*frame, models(comps@), 8, j).0,
            forall|j: int, i: int|
                0 <= j < k && 0 <= i < 64 ==> #[trigger] out@[j].samples@[i] == block_sample(*frame, models(comps@), j, i),
        decreases plan.count - k,
    {
        let u = locate(frame, comps, &plan, k, Ghost(8));
        let c = comps[u.component];
        assert(component_ok(
            *frame,
            models(comps@)[u.component as int],
            h_max(models(comps@), models(comps@).len() as int),
            v_max(models(comps@), models(comps@).len() as int),
        ));
        let samples = gather_block(frame, &c, &u);
        let ghost before = out@;
        out.push(SampleBlock { component: u.component, samples });
        k = k + 1;
        assert forall|j: int, i: int| 0 <= j < k && 0 <= i < 64 implies #[trigger] out@[j].samples@[i] == block_sample(
            *frame,
            models(comps@),
            j,
            i,
        ) by {
            if j < k - 1 {
                assert(out@[j] == before[j]);
                assert(before[j].samples@[i] == block_sample(*frame, models(comps@), j, i));
            } else {
                assert(samples@[i] == block_sample(*frame, models(comps@), j, i));
            }
        }
    }
    Ok(out)
}

/// The average of the last of the first `n` blocks that belongs to component `c`; 0
/// where there is none.
pub open spec fn average_before(
    frame: JpegFrame,
    cs: Seq<ComponentModel>,
    blocks: Seq<[i16; 64]>,
    n: int,
    c: int,
) -> int
    decreases n,
{
    if n <= 0 {
        0
    } else if unit_at(frame, cs, 8, n - 1).0 == c {
        blocks[n - 1]@[0] as int
    } else {
        average_before(frame, cs, blocks, n - 1, c)
    }
}

/// The symbols of the first `n` blocks.
pub open spec fn dct_symbols(
    frame: JpegFrame,
    cs: Seq<ComponentModel>,
    blocks: Seq<[i16; 64]>,
    n: int,
) -> Seq<CodedSymbol>
    decreases n,
{
    if n <= 0 {
        Seq::empty()
    } else {
        let c = unit_at(frame, cs, 8, n - 1).0;
        dct_symbols(frame, cs, blocks, n - 1) + block_symbols(
            blocks[n - 1]@,
            average_before(frame, cs, blocks, n - 1, c),
            cs[c].huff_id,
        )
    }
}

/// The blocks of coefficients suit a frame.
pub open spec fn blocks_ok(frame: JpegFrame, cs: Seq<ComponentModel>, blocks: Seq<[i16; 64]>) -> bool {
    frame.process is Dct ==> {
        &&& blocks.len() == unit_count(frame, cs, 8)
        &&& forall|k: int| 0 <= k < blocks.len() ==> block_ok(#[trigger] blocks[k]@)
    }
}

/// Checks a block.
fn check_block(q: &[i16; 64]) -> (r: bool)
    ensures
        r == block_ok(q@),
{
    let mut i: usize = 1;
    while i < 64
        invariant
            1 <= i <= 64,
            forall|j: int| 1 <= j < i ==> #[trigger] q@[j] != i16::MIN,
        decreases 64 - i,
    {
        if q[i] == i16::MIN {
            assert(q@[i as int] == i16::MIN);
            return false;
        }
        i = i + 1;
    }
    true
}

/// The symbols of transformed blocks.
fn code_scan_dct(frame: &JpegFrame, comps: &[JpegComponent<'_>], hmax: u8, vmax: u8, blocks: &[[i16; 64]]) -> (r: Result<
    Vec<CodedSymbol>,
>)
    requires
        frame_ok(*frame, models(comps@)),
        frame.process is Dct,
        hmax == h_max(models(comps@), models(comps@).len() as int),
        vmax == v_max(models(comps@), models(comps@).len() as int),
    ensures
        (match r {
            Ok(v) => blocks_ok(*frame, models(comps@), blocks@) && v@ == dct_symbols(
                *frame,
                models(comps@),
                blocks@,
                unit_count(*frame, models(comps@), 8),
            ),
            Err(e) => e is InvalidData && !blocks_ok(*frame, models(comps@), blocks@),
        }),
{
    let plan = plan_scan(frame, comps, hmax, vmax, 8);
    if blocks.len() as u64 != plan.count {
        return Err(
            invalid_with("JPEG encode: ", blocks.len() as u64, " blocks of coefficients, not as many as the frame has"),
        );
    }
    let mut out: Vec<CodedSymbol> = Vec::new();
    let mut last: [i16; 4] = [0i16; 4];
    let n: usize = blocks.len();
    let mut k: usize = 0;
    while k < n
        invariant
            k <= n,
            n == blocks@.len(),
            n == plan.count,
            frame_ok(*frame, models(comps@)),
            frame.process is Dct,
            plan.of(*frame, models(comps@), 8),
            forall|j: int| 0 <= j < k ==> block_ok(#[trigger] blocks@[j]@),
            out@ == dct_symbols(*frame, models(comps@), blocks@, k as int),
            forall|c: int|
                0 <= c < models(comps@).len() ==> #[trigger] last@[c] == average_before(
                    *frame,
                    models(comps@),
                    blocks@,
                    k as int,
                    c,
                ),
        decreases n - k,
    {
        let u = locate(frame, comps, &plan, k as u64, Ghost(8));
        if !check_block(&blocks[k]) {
            assert(!block_ok(blocks@[k as int]@));
            return Err(TiffError::invalid("JPEG encode: a coefficient has no category"));
        }
        let c: usize = u.component;
        let ghost old_last = last@;
        assert(last@[c as int] == average_before(*frame, models(comps@), blocks@, k as int, c as int));
        code_block(&mut out, &blocks[k], last[c], comps[c].huff_id);
        last[c] = blocks[k][0];
        k = k + 1;
        assert forall|j: int| 0 <= j < models(comps@).len() implies #[trigger] last@[j] == average_before(
            *frame,
            models(comps@),
            blocks@,
            k as int,
            j,
        ) by {
            if j != c {
                assert(last@[j] == old_last[j]);
            }
        }
    }
    Ok(out)
}

// ----------------------------------------------------------------------
// Lossless samples
// ----------------------------------------------------------------------

/// The prediction of a sample: in the first row its left neighbour, in the first
/// column the one above, elsewhere one of seven mixtures of those and the one
/// between them. The very first sample is predicted to be half of the range.
pub open spec fn predicted(frame: JpegFrame, c: ComponentModel, predictor: u8, x: int, y: int) -> int {
    let ra = sample_of(c, x - 1, y);
    let rb = sample_of(c, x, y - 1);
    let rc = sample_of(c, x - 1, y - 1);
    if y == 0 {
        if x == 0 { pow2((frame.precision - 1) as nat) as int } else { ra }
    } else if x == 0 {
        rb
    } else if predictor == 1 {
        ra
    } else if predictor == 2 {
        rb
    } else if predictor == 3 {
        rc
    } else if predictor == 4 {
        ra + rb - rc
    } else if predictor == 5 {
        ra + (rb - rc) / 2
    } else if predictor == 6 {
        rb + (ra - rc) / 2
    } else {
        (ra + rb) / 2
    }
}

/// A difference modulo 65536, around 0.
pub open spec fn wrapped(d: int) -> int {
    let m = d % 65536;
    if m >= 32768 { m - 65536 } else { m }
}

/// The symbol of a difference; the least one has a symbol of its own, which no bits
/// follow.
pub open spec fn difference_symbol(table: u8, d: int) -> CodedSymbol {
    if d == -32768 { plain_symbol(false, table, 16) } else { amplitude_symbol(false, table, 0, d) }
}

/// The symbol of data unit `k` of a lossless frame.
pub open spec fn lossless_symbol(frame: JpegFrame, cs: Seq<ComponentModel>, predictor: u8, k: int) -> CodedSymbol {
    let u = unit_at(frame, cs, 1, k);
    let c = cs[u.0];
    difference_symbol(c.huff_id, wrapped(sample_of(c, u.1, u.2) - predicted(frame, c, predictor, u.1, u.2)))
}

/// The difference that a symbol stands for.
pub open spec fn difference_of(s: CodedSymbol) -> int {
    if s.symbol == 16 { -32768 } else { amplitude_of(s) }
}

/// A sample is its prediction and what its symbol stands for, modulo 65536.
pub proof fn law_lossless_sample(table: u8, sample: int, prediction: int)
    requires
        0 <= sample < 65536,
    ensures
        (prediction + difference_of(difference_symbol(table, wrapped(sample - prediction)))) % 65536 == sample,
{
    let d = wrapped(sample - prediction);
    if d != -32768 {
        lemma_symbol_read(false, table, 0, d);
        lemma2_to64();
        lemma_bit_length_bound(magnitude(d), 15);
    }
}

/// The prediction of a sample.
fn predict(frame: &JpegFrame, c: &JpegComponent<'_>, predictor: u8, x: usize, y: usize) -> (p: i32)
    requires
        1 <= frame.precision <= 16,
        1 <= c.width <= 65535,
        1 <= c.height <= 65535,
        c.samples@.len() == c.width * c.height,
    ensures
        p == predicted(*frame, c@, predictor, x as int, y as int),
        -65536 <= p <= 131072,
{
    if y == 0 && x == 0 {
        proof {
            lemma2_to64();
            lemma_pow2_bound((frame.precision - 1) as nat, 15);
        }
        return two_to((frame.precision - 1) as u32) as i32;
    }
    if y == 0 {
        return sample_at(c, x - 1, y) as i32;
    }
    if x == 0 {
        return sample_at(c, x, y - 1) as i32;
    }
    let ra: i32 = sample_at(c, x - 1, y) as i32;
    let rb: i32 = sample_at(c, x, y - 1) as i32;
    let rc: i32 = sample_at(c, x - 1, y - 1) as i32;
    if predictor == 1 {
        ra
    } else if predictor == 2 {
        rb
    } else if predictor == 3 {
        rc
    } else if predictor == 4 {
        ra + rb - rc
    } else if predictor == 5 {
        ra + ((rb - rc + 65536) / 2 - 32768)
    } else if predictor == 6 {
        rb + ((ra - rc + 65536) / 2 - 32768)
    } else {
        (ra + rb) / 2
    }
}

/// The symbols of the samples of a lossless frame.
fn code_scan_lossless(frame: &JpegFrame, comps: &[JpegComponent<'_>], hmax: u8, vmax: u8, predictor: u8) -> (out: Vec<
    CodedSymbol,
>)
    requires
        frame_ok(*frame, models(comps@)),
        hmax == h_max(models(comps@), models(comps@).len() as int),
        vmax == v_max(models(comps@), models(comps@).len() as int),
    ensures
        out@.len() == unit_count(*frame, models(comps@), 1),
        forall|k: int| 0 <= k < out@.len() ==> #[trigger] out@[k] == lossless_symbol(*frame, models(comps@), predictor, k),
{
    let plan = plan_scan(frame, comps, hmax, vmax, 1);
    proof {
        lemma_frame(*frame, models(comps@), 1);
    }
    let mut out: Vec<CodedSymbol> = Vec::new();
    let mut k: u64 = 0;
    while k < plan.count
        invariant
            k <= plan.count,
            frame_ok(*frame, models(comps@)),
            plan.of(*frame, models(comps@), 1),
            forall|i: int|
                0 <= i < models(comps@).len() ==> 1 <= (#[trigger] models(comps@)[i]).width <= 65535 && 1 <= models(comps@)[i].height <= 65535,
            out@.len() == k,
            forall|j: int| 0 <= j < k ==> #[trigger] out@[j] == lossless_symbol(*frame, models(comps@), predictor, j),
        decreases plan.count - k,
    {
        let u = locate(frame, comps, &plan, k, Ghost(1));
        let c = comps[u.component];
        assert(component_ok(
            *frame,
            models(comps@)[u.component as int],
            h_max(models(comps@), models(comps@).len() as int),
            v_max(models(comps@), models(comps@).len() as int),
        ));
        let sample: i32 = sample_at(&c, u.x, u.y) as i32;
        let p: i32 = predict(frame, &c, predictor, u.x, u.y);
        let m: i32 = (sample - p + 262144) % 65536;
        let d: i32 = if m >= 32768 { m - 65536 } else { m };
        assert(d == wrapped(sample - p));
        let s = if d == -32768 {
            CodedSymbol { ac: false, table: c.huff_id, symbol: 16, extra: 0, extra_bits: 0 }
        } else {
            make_symbol(false, c.huff_id, 0, d)
        };
        out.push(s);
        k = k + 1;
    }
    out
}

// ----------------------------------------------------------------------
// Coded bits
// ----------------------------------------------------------------------

/// Bits filled up with ones to whole bytes.
pub open spec fn filled(b: Seq<bool>) -> Seq<bool> {
    b + Seq::new(((8 - b.len() % 8) % 8) as nat, |i: int| true)
}

/// Bytes with a 0 put behind every 0xFF, which would begin a marker otherwise.
pub open spec fn stuffed(s: Seq<u8>) -> Seq<u8>
    decreases s.len(),
{
    if s.len() == 0 {
        Seq::empty()
    } else {
        stuffed(s.drop_last()) + if s.last() == 0xFF { seq![0xFFu8, 0u8] } else { seq![s.last()] }
    }
}

/// Bytes without the 0 behind every 0xFF.
pub open spec fn unstuffed(s: Seq<u8>) -> Seq<u8>
    decreases s.len(),
{
    let n = s.len() as int;
    if n == 0 {
        Seq::empty()
    } else if n >= 2 && s[n - 2] == 0xFF && s[n - 1] == 0 {
        unstuffed(s.take(n - 2)).push(0xFF)
    } else {
        unstuffed(s.drop_last()).push(s.last())
    }
}

/// Every 0xFF of stuffed bytes is followed by 0, so no marker is among them.
pub proof fn law_no_marker(s: Seq<u8>)
    ensures
        forall|i: int|
            0 <= i < stuffed(s).len() && #[trigger] stuffed(s)[i] == 0xFF ==> i + 1 < stuffed(s).len() && stuffed(s)[i
                + 1] == 0,
    decreases s.len(),
{
    if s.len() > 0 {
        law_no_marker(s.drop_last());
        let a = stuffed(s.drop_last());
        let t = stuffed(s);
        assert forall|i: int| 0 <= i < t.len() && #[trigger] t[i] == 0xFF implies i + 1 < t.len() && t[i + 1] == 0 by {
            if i < a.len() {
                assert(a[i] == 0xFF);
                assert(a[i + 1] == 0);
            }
        }
    }
}

/// Stuffed bytes give the bytes back.
pub proof fn law_unstuffed(s: Seq<u8>)
    ensures
        unstuffed(stuffed(s)) == s,
    decreases s.len(),
{
    if s.len() > 0 {
        let rest = s.drop_last();
        let a = stuffed(rest);
        let t = stuffed(s);
        law_unstuffed(rest);
        law_no_marker(rest);
        if s.last() == 0xFF {
            assert(t.take(t.len() - 2) =~= a);
        } else {
            assert(t.drop_last() =~= a);
            if t.len() >= 2 && t[t.len() - 2] == 0xFF {
                assert(a[a.len() - 1] == 0xFF);
                assert(false);
            }
        }
        assert(rest.push(s.last()) =~= s);
    }
}

/// Collects coded bits.
pub struct BitWriter {
    /// The bits.
    pub inner: MsbWriter,
}

impl BitWriter {
    /// All bits so far.
    pub open spec fn view(&self) -> Seq<bool> {
        self.inner@
    }

    pub open spec fn wf(self) -> bool {
        self.inner.wf()
    }

    /// No bits.
    pub fn new() -> (w: BitWriter)
        ensures
            w.wf(),
            w@ == Seq::<bool>::empty(),
    {
        BitWriter { inner: MsbWriter::new() }
    }

    /// Appends the low `size` bits of a code.
    pub fn put(&mut self, code: u32, size: u32)
        requires
            old(self).wf(),
            size <= 32,
        ensures
            final(self).wf(),
            final(self)@ == old(self)@ + value_bits(code as nat, size as nat),
    {
        self.inner.put_value(code, size);
    }

    /// The bytes of all bits, filled up with ones, a 0 behind every 0xFF.
    pub fn finish(self) -> (out: Vec<u8>)
        requires
            self.wf(),
        ensures
            out@ == stuffed(bytes_of(filled(self@))),
    {
        let ghost start = self@;
        let mut w = self.inner;
        let ghost n = (8 - start.len() % 8) % 8;
        assert(w@ =~= start + Seq::new(0, |i: int| true));
        while w.used != 0
            invariant
                w.wf(),
                start.len() <= w@.len() <= start.len() + n,
                n == (8 - start.len() % 8) % 8,
                w@ == start + Seq::new((w@.len() - start.len()) as nat, |i: int| true),
                w.used == w@.len() % 8,
            decreases start.len() + n - w@.len(),
        {
            w.put(true);
            assert(w@ =~= start + Seq::new((w@.len() - start.len()) as nat, |i: int| true));
        }
        assert(w@ =~= filled(start));
        let bytes = w.finish();
        let mut out: Vec<u8> = Vec::new();
        let mut i: usize = 0;
        assert(bytes@.take(0) =~= Seq::empty());
        while i < bytes.len()
            invariant
                i <= bytes@.len(),
                out@ == stuffed(bytes@.take(i as int)),
            decreases bytes@.len() - i,
        {
            let b: u8 = bytes[i];
            out.push(b);
            if b == 0xFF {
                out.push(0);
            }
            i = i + 1;
            assert(bytes@.take(i as int).drop_last() =~= bytes@.take(i - 1));
            assert(out@ =~= stuffed(bytes@.take(i as int)));
        }
        assert(bytes@.take(i as int) =~= bytes@);
        out
    }
}

/// The table that codes a symbol.
pub open spec fn table_for(s: CodedSymbol, t: TablesModel) -> Option<HuffModel> {
    if s.ac { t.ac[s.table as int] } else { t.dc[s.table as int] }
}

/// The bits of a symbol, if its table has a code word for it.
pub open spec fn symbol_bits(s: CodedSymbol, t: TablesModel) -> Option<Seq<bool>> {
    match table_for(s, t) {
        None => None,
        Some(h) => match code_word(h.bits, h.vals, s.symbol) {
            None => None,
            Some(w) => Some(w + value_bits(s.extra as nat, s.extra_bits as nat)),
        },
    }
}

/// The bits of the first `n` symbols, if all have code words.
pub open spec fn scan_bits(s: Seq<CodedSymbol>, t: TablesModel, n: int) -> Option<Seq<bool>>
    decreases n,
{
    if n <= 0 {
        Some(Seq::empty())
    } else {
        match (scan_bits(s, t, n - 1), symbol_bits(s[n - 1], t)) {
            (Some(a), Some(b)) => Some(a + b),
            _ => None,
        }
    }
}

/// The symbols of a scan.
pub open spec fn scan_symbols(
    frame: JpegFrame,
    cs: Seq<ComponentModel>,
    blocks: Seq<[i16; 64]>,
) -> Seq<CodedSymbol> {
    match frame.process {
        JpegProcess::Dct => dct_symbols(frame, cs, blocks, unit_count(frame, cs, 8)),
        JpegProcess::Lossless { predictor } => Seq::new(
            unit_count(frame, cs, 1) as nat,
            |k: int| lossless_symbol(frame, cs, predictor, k),
        ),
    }
}

/// The quantiser steps are there that a frame uses.
pub open spec fn quant_ok(frame: JpegFrame, cs: Seq<ComponentModel>, t: TablesModel) -> bool {
    frame.process is Dct ==> forall|i: int| 0 <= i < cs.len() ==> t.quant[(#[trigger] cs[i]).quant_id as int] is Some
}

/// A scan has symbols: its tables of steps are there, and blocks of coefficients
/// that suit the frame.
pub open spec fn scan_ok(
    frame: JpegFrame,
    cs: Seq<ComponentModel>,
    t: TablesModel,
    blocks: Seq<[i16; 64]>,
) -> bool {
    frame_ok(frame, cs) && quant_ok(frame, cs, t) && blocks_ok(frame, cs, blocks)
}

/// The symbols of a scan.
fn code_scan(
    frame: &JpegFrame,
    comps: &[JpegComponent<'_>],
    hmax: u8,
    vmax: u8,
    tables: &JpegTableSet,
    blocks: &[[i16; 64]],
) -> (r: Result<Vec<CodedSymbol>>)
    requires
        frame_ok(*frame, models(comps@)),
        hmax == h_max(models(comps@), models(comps@).len() as int),
        vmax == v_max(models(comps@), models(comps@).len() as int),
    ensures
        (match r {
            Ok(v) => scan_ok(*frame, models(comps@), tables@, blocks@) && v@ == scan_symbols(*frame, models(comps@), blocks@),
            Err(e) => e is InvalidData && !scan_ok(*frame, models(comps@), tables@, blocks@),
        }),
{
    match frame.process {
        JpegProcess::Dct => {
            let mut i: usize = 0;
            while i < comps.len()
                invariant
                    i <= models(comps@).len(),
                    frame_ok(*frame, models(comps@)),
                    frame.process is Dct,
                    forall|k: int|
                        0 <= k < i ==> tables@.quant[(#[trigger] models(comps@)[k]).quant_id as int] is Some,
                decreases models(comps@).len() - i,
            {
                let id: u8 = comps[i].quant_id;
                assert(component_ok(
                    *frame,
                    models(comps@)[i as int],
                    h_max(models(comps@), models(comps@).len() as int),
                    v_max(models(comps@), models(comps@).len() as int),
                ));
                if tables.quant[id as usize].is_none() {
                    assert(tables@.quant[models(comps@)[i as int].quant_id as int] is None);
                    return Err(invalid_with("JPEG encode: quantisation table ", id as u64, " not defined"));
                }
                i = i + 1;
            }
            code_scan_dct(frame, comps, hmax, vmax, blocks)
        },
        JpegProcess::Lossless { predictor } => {
            let v = code_scan_lossless(frame, comps, hmax, vmax, predictor);
            assert(v@ =~= scan_symbols(*frame, models(comps@), blocks@));
            Ok(v)
        },
    }
}

/// Some component uses the Huffman tables at a place.
pub open spec fn uses(cs: Seq<ComponentModel>, table: int) -> bool {
    exists|i: int| 0 <= i < cs.len() && (#[trigger] cs[i]).huff_id == table
}

/// The symbols of a block are of its tables.
proof fn lemma_block_tables(q: Seq<i16>, table: u8, k: int, run: int)
    requires
        0 <= run,
        q.len() == 64,
        block_ok(q),
        1 <= k,
    ensures
        forall|i: int|
            0 <= i < ac_symbols(q, table, k, run).len() ==> (#[trigger] ac_symbols(q, table, k, run)[i]).table == table
                && ac_symbols(q, table, k, run)[i].extra_bits <= 16,
    decreases 64 - k,
{
    if k < 64 {
        let coef = q[NATURAL[k] as int] as int;
        if coef == 0 {
            lemma_block_tables(q, table, k + 1, run + 1);
            assert(ac_symbols(q, table, k, run) == ac_symbols(q, table, k + 1, run + 1));
        } else {
            lemma_block_tables(q, table, k + 1, 0);
            lemma2_to64();
            lemma_bit_length_bound(magnitude(coef), 16);
            let head = Seq::new((run / 16) as nat, |i: int| plain_symbol(true, table, 0xF0));
            let last = amplitude_symbol(true, table, run % 16, coef);
            let rest = ac_symbols(q, table, k + 1, 0);
            let all = ac_symbols(q, table, k, run);
            assert(all == head + seq![last] + rest);
            assert forall|i: int| 0 <= i < all.len() implies (#[trigger] all[i]).table == table && all[i].extra_bits
                <= 16 by {
                if i < head.len() {
                    assert(all[i] == head[i]);
                } else if i == head.len() {
                    assert(all[i] == last);
                } else {
                    assert(all[i] == rest[i - head.len() - 1]);
                }
            }
        }
    } else if run > 0 {
        assert(ac_symbols(q, table, k, run) == seq![plain_symbol(true, table, 0)]);
    }
}

/// The symbols of blocks are of tables that components use.
proof fn lemma_dct_tables(frame: JpegFrame, cs: Seq<ComponentModel>, blocks: Seq<[i16; 64]>, n: int)
    requires
        frame_ok(frame, cs),
        0 <= n <= blocks.len(),
        blocks.len() == unit_count(frame, cs, 8),
        forall|k: int| 0 <= k < blocks.len() ==> block_ok(#[trigger] blocks[k]@),
    ensures
        forall|i: int|
            0 <= i < dct_symbols(frame, cs, blocks, n).len() ==> uses(
                cs,
                (#[trigger] dct_symbols(frame, cs, blocks, n)[i]).table as int,
            ) && dct_symbols(frame, cs, blocks, n)[i].extra_bits <= 32,
    decreases n,
{
    if n > 0 {
        lemma_dct_tables(frame, cs, blocks, n - 1);
        lemma_unit_component(frame, cs, 8, n - 1);
        let c = unit_at(frame, cs, 8, n - 1).0;
        let q = blocks[n - 1]@;
        let before = average_before(frame, cs, blocks, n - 1, c);
        assert(block_ok(q));
        lemma_block_tables(q, cs[c].huff_id, 1, 0);
        lemma_average_range(frame, cs, blocks, n - 1, c);
        lemma2_to64();
        lemma_bit_length_bound(magnitude(q[0] - before), 16);
        let a = dct_symbols(frame, cs, blocks, n - 1);
        let b = block_symbols(q, before, cs[c].huff_id);
        assert forall|i: int| 0 <= i < b.len() implies (#[trigger] b[i]).table == cs[c].huff_id && b[i].extra_bits
            <= 32 by {
            if i > 0 {
                assert(b[i] == ac_symbols(q, cs[c].huff_id, 1, 0)[i - 1]);
            }
        }
        let all = dct_symbols(frame, cs, blocks, n);
        assert forall|i: int| 0 <= i < all.len() implies uses(cs, (#[trigger] all[i]).table as int) && all[i].extra_bits
            <= 32 by {
            if i < a.len() {
                assert(all[i] == a[i]);
            } else {
                assert(all[i] == b[i - a.len()]);
                assert(cs[c].huff_id == all[i].table);
            }
        }
    }
}

pub proof fn lemma_average_range(
    frame: JpegFrame,
    cs: Seq<ComponentModel>,
    blocks: Seq<[i16; 64]>,
    n: int,
    c: int,
)
    ensures
        -32768 <= average_before(frame, cs, blocks, n, c) < 32768,
    decreases n,
{
    if n > 0 {
        lemma_average_range(frame, cs, blocks, n - 1, c);
    }
}

/// A data unit belongs to a component.
pub proof fn lemma_unit_component(frame: JpegFrame, cs: Seq<ComponentModel>, unit: int, k: int)
    requires
        frame_ok(frame, cs),
        unit == 1 || unit == 8,
        0 <= k,
    ensures
        0 <= unit_at(frame, cs, unit, k).0 < cs.len(),
{
    lemma_frame(frame, cs, unit);
    let n = cs.len() as int;
    let per = units_of(cs, n);
    vstd::arithmetic::div_mod::lemma_mod_bound(k, per);
    lemma_component_of(cs, k % per, n);
}

/// The symbols of a scan are of tables that components use.
pub proof fn lemma_scan_tables(frame: JpegFrame, cs: Seq<ComponentModel>, blocks: Seq<[i16; 64]>)
    requires
        frame_ok(frame, cs),
        blocks_ok(frame, cs, blocks),
    ensures
        ({
            let s = scan_symbols(frame, cs, blocks);
            forall|i: int|
                0 <= i < s.len() ==> uses(cs, (#[trigger] s[i]).table as int) && s[i].extra_bits <= 32 && (s[i].ac
                    ==> frame.process is Dct)
        }),
{
    let s = scan_symbols(frame, cs, blocks);
    match frame.process {
        JpegProcess::Dct => {
            lemma_dct_tables(frame, cs, blocks, unit_count(frame, cs, 8));
        },
        JpegProcess::Lossless { predictor } => {
            assert forall|i: int| 0 <= i < s.len() implies uses(cs, (#[trigger] s[i]).table as int) && s[i].extra_bits
                <= 32 && !s[i].ac by {
                lemma_unit_component(frame, cs, 1, i);
                let u = unit_at(frame, cs, 1, i);
                let c = cs[u.0];
                assert(s[i] == lossless_symbol(frame, cs, predictor, i));
                assert(c.huff_id == s[i].table);
                let d = wrapped(sample_of(c, u.1, u.2) - predicted(frame, c, predictor, u.1, u.2));
                lemma2_to64();
                lemma_bit_length_bound(magnitude(d), 16);
            }
        },
    }
}

// ----------------------------------------------------------------------
// Statistics and streams
// ----------------------------------------------------------------------

/// Counts after the first `n` symbols have been counted that are coded by one
/// table.
pub open spec fn counted(f: Seq<u32>, s: Seq<CodedSymbol>, ac: bool, table: int, n: int) -> Seq<u32>
    decreases n,
{
    if n <= 0 {
        f
    } else {
        let g = counted(f, s, ac, table, n - 1);
        let x = s[n - 1];
        if x.ac == ac && x.table == table { g.update(x.symbol as int, one_more(g[x.symbol as int])) } else { g }
    }
}

/// Counts symbols.
fn count_symbols(s: &Vec<CodedSymbol>, dc_stats: &mut [HuffStats; 4], ac_stats: &mut [HuffStats; 4])
    requires
        forall|i: int| 0 <= i < s@.len() ==> (#[trigger] s@[i]).table < 4,
    ensures
        forall|t: int|
            0 <= t < 4 ==> (#[trigger] final(dc_stats)@[t]).freq@ == counted(
                old(dc_stats)@[t].freq@,
                s@,
                false,
                t,
                s@.len() as int,
            ),
        forall|t: int|
            0 <= t < 4 ==> (#[trigger] final(ac_stats)@[t]).freq@ == counted(
                old(ac_stats)@[t].freq@,
                s@,
                true,
                t,
                s@.len() as int,
            ),
{
    let ghost dc0 = dc_stats@;
    let ghost ac0 = ac_stats@;
    let n: usize = s.len();
    let mut i: usize = 0;
    while i < n
        invariant
            i <= n,
            n == s@.len(),
            forall|i: int| 0 <= i < s@.len() ==> (#[trigger] s@[i]).table < 4,
            forall|t: int|
                0 <= t < 4 ==> (#[trigger] dc_stats@[t]).freq@ == counted(dc0[t].freq@, s@, false, t, i as int),
            forall|t: int|
                0 <= t < 4 ==> (#[trigger] ac_stats@[t]).freq@ == counted(ac0[t].freq@, s@, true, t, i as int),
        decreases n - i,
    {
        let x = s[i];
        let ghost dc1 = dc_stats@;
        let ghost ac1 = ac_stats@;
        if x.ac {
            ac_stats[x.table as usize].count(x.symbol);
        } else {
            dc_stats[x.table as usize].count(x.symbol);
        }
        i = i + 1;
        assert forall|t: int| 0 <= t < 4 implies (#[trigger] dc_stats@[t]).freq@ == counted(
            dc0[t].freq@,
            s@,
            false,
            t,
            i as int,
        ) by {
            assert(dc1[t].freq@ == counted(dc0[t].freq@, s@, false, t, i - 1));
        }
        assert forall|t: int| 0 <= t < 4 implies (#[trigger] ac_stats@[t]).freq@ == counted(
            ac0[t].freq@,
            s@,
            true,
            t,
            i as int,
        ) by {
            assert(ac1[t].freq@ == counted(ac0[t].freq@, s@, true, t, i - 1));
        }
    }
}

/// Counts the symbols of a frame by table; `blocks` are the coefficients of the
/// transformed blocks, in the order of [`sample_blocks`].
pub fn gather_stats(
    frame: &JpegFrame,
    comps: &[JpegComponent<'_>],
    quant: &JpegTableSet,
    dc_stats: &mut [HuffStats; 4],
    ac_stats: &mut [HuffStats; 4],
    blocks: &[[i16; 64]],
) -> (r: Result<()>)
    ensures
        r is Ok <==> scan_ok(*frame, models(comps@), quant@, blocks@),
        r matches Err(e) ==> e is InvalidData,
        forall|t: int|
            0 <= t < 4 ==> (#[trigger] final(dc_stats)@[t]).freq@ == (if r is Ok {
                let s = scan_symbols(*frame, models(comps@), blocks@);
                counted(old(dc_stats)@[t].freq@, s, false, t, s.len() as int)
            } else {
                old(dc_stats)@[t].freq@
            }),
        forall|t: int|
            0 <= t < 4 ==> (#[trigger] final(ac_stats)@[t]).freq@ == (if r is Ok {
                let s = scan_symbols(*frame, models(comps@), blocks@);
                counted(old(ac_stats)@[t].freq@, s, true, t, s.len() as int)
            } else {
                old(ac_stats)@[t].freq@
            }),
{
    let (hmax, vmax) = validate(frame, comps)?;
    let symbols = code_scan(frame, comps, hmax, vmax, quant, blocks)?;
    proof {
        lemma_scan_tables(*frame, models(comps@), blocks@);
        assert forall|i: int| 0 <= i < symbols@.len() implies (#[trigger] symbols@[i]).table < 4 by {
            lemma_used_small(*frame, models(comps@), symbols@[i].table as int);
        }
    }
    count_symbols(&symbols, dc_stats, ac_stats);
    Ok(())
}

/// Tables have four places.
proof fn lemma_used_small(frame: JpegFrame, cs: Seq<ComponentModel>, table: int)
    requires
        frame_ok(frame, cs),
        uses(cs, table),
    ensures
        0 <= table < 4,
{
    let i = choose|i: int| 0 <= i < cs.len() && (#[trigger] cs[i]).huff_id == table;
    assert(component_ok(frame, cs[i], h_max(cs, cs.len() as int), v_max(cs, cs.len() as int)));
}

/// The Huffman tables that components use are there and can be used.
pub open spec fn huff_ok(cs: Seq<ComponentModel>, t: Seq<Option<HuffModel>>) -> bool {
    forall|i: int|
        0 <= i < cs.len() ==> match t[(#[trigger] cs[i]).huff_id as int] {
            Some(h) => spec_usable(h.bits, h.vals),
            None => false,
        }
}

/// Code words of tables.
spec fn codes_of(codes: Seq<Option<HuffCodes>>, t: Seq<Option<HuffModel>>, k: int) -> bool {
    match (codes[k], t[k]) {
        (Some(c), Some(h)) => h.bits.len() == 16 && c.of_spec(h.bits, h.vals),
        _ => false,
    }
}

/// The code words of all tables of one sort that components use.
fn build_codes(comps: &[JpegComponent<'_>], t: &[Option<HuffSpec>; 4]) -> (r: Result<[Option<HuffCodes>; 4]>)
    requires
        forall|i: int| 0 <= i < models(comps@).len() ==> (#[trigger] models(comps@)[i]).huff_id <= 3,
    ensures
        (match r {
            Ok(codes) => huff_ok(models(comps@), huff_models(t@)) && forall|i: int|
                0 <= i < models(comps@).len() ==> codes_of(codes@, huff_models(t@), (#[trigger] models(comps@)[i]).huff_id as int),
            Err(e) => e is InvalidData && !huff_ok(models(comps@), huff_models(t@)),
        }),
{
    let mut codes: [Option<HuffCodes>; 4] = [None, None, None, None];
    let n: usize = comps.len();
    let mut i: usize = 0;
    while i < n
        invariant
            i <= n,
            n == models(comps@).len(),
            forall|i: int| 0 <= i < models(comps@).len() ==> (#[trigger] models(comps@)[i]).huff_id <= 3,
            forall|k: int| 0 <= k < 4 ==> (#[trigger] codes@[k] is None || codes_of(codes@, huff_models(t@), k)),
            forall|k: int| 0 <= k < i ==> codes_of(codes@, huff_models(t@), (#[trigger] models(comps@)[k]).huff_id as int),
        decreases n - i,
    {
        let id: usize = comps[i].huff_id as usize;
        let ghost before = codes@;
        if codes[id].is_none() {
            let spec = match &t[id] {
                Some(h) => h,
                None => {
                    assert(huff_models(t@)[models(comps@)[i as int].huff_id as int] is None);
                    return Err(invalid_with("JPEG encode: Huffman table ", id as u64, " not defined"));
                },
            };
            let c = match HuffCodes::from_spec(spec) {
                Ok(c) => c,
                Err(e) => {
                    assert(!huff_ok(models(comps@), huff_models(t@))) by {
                        assert(huff_models(t@)[models(comps@)[i as int].huff_id as int] == Some(spec@));
                    }
                    return Err(e);
                },
            };
            codes[id] = Some(c);
        }
        assert(codes_of(codes@, huff_models(t@), id as int));
        assert forall|k: int| 0 <= k < 4 implies (#[trigger] codes@[k] is None || codes_of(codes@, huff_models(t@), k)) by {
            if k != id {
                assert(codes@[k] == before[k]);
                assert(before[k] is None || codes_of(before, huff_models(t@), k));
            }
        }
        assert forall|k: int| 0 <= k < i implies codes_of(codes@, huff_models(t@), (#[trigger] models(comps@)[k]).huff_id as int) by {
            let j = models(comps@)[k].huff_id as int;
            assert(codes_of(before, huff_models(t@), j));
            if j != id {
                assert(codes@[j] == before[j]);
            }
        }
        i = i + 1;
    }
    Ok(codes)
}

/// The code word of a symbol is what the code tables hold for it.
proof fn lemma_code_word(c: HuffCodes, h: HuffModel, symbol: u8)
    requires
        h.bits.len() == 16,
        c.of_spec(h.bits, h.vals),
    ensures
        c.size@[symbol as int] == 0 <==> code_word(h.bits, h.vals, symbol) is None,
        code_word(h.bits, h.vals, symbol) matches Some(w) ==> w == value_bits(
            c.code@[symbol as int] as nat,
            c.size@[symbol as int] as nat,
        ),
        c.size@[symbol as int] <= 16,
{
    let vals = h.vals;
    crate::huffman::lemma_sizes(h.bits, 16);
    if vals.contains(symbol) {
        let k = vals.index_of(symbol);
        assert(0 <= k < vals.len() && vals[k] == symbol);
        assert(c.code@[vals[k] as int] == crate::huffman::code_at(crate::huffman::code_sizes(h.bits, 16), k));
    } else {
        assert(c.size@[symbol as int] == 0);
    }
}

/// Appends the bits of symbols.
fn emit_symbols(
    w: &mut BitWriter,
    s: &Vec<CodedSymbol>,
    dc: &[Option<HuffCodes>; 4],
    ac: &[Option<HuffCodes>; 4],
    Ghost(t): Ghost<TablesModel>,
) -> (r: Result<()>)
    requires
        old(w).wf(),
        old(w)@ == Seq::<bool>::empty(),
        forall|i: int|
            0 <= i < s@.len() ==> (#[trigger] s@[i]).table < 4 && s@[i].extra_bits <= 32 && (if s@[i].ac {
                codes_of(ac@, t.ac, s@[i].table as int)
            } else {
                codes_of(dc@, t.dc, s@[i].table as int)
            }),
    ensures
        final(w).wf(),
        (match r {
            Ok(_) => scan_bits(s@, t, s@.len() as int) == Some(final(w)@),
            Err(e) => e is InvalidData && scan_bits(s@, t, s@.len() as int) is None,
        }),
{
    let n: usize = s.len();
    let mut i: usize = 0;
    while i < n
        invariant
            i <= n,
            n == s@.len(),
            w.wf(),
            scan_bits(s@, t, i as int) == Some(w@),
            forall|i: int|
                0 <= i < s@.len() ==> (#[trigger] s@[i]).table < 4 && s@[i].extra_bits <= 32 && (if s@[i].ac {
                    codes_of(ac@, t.ac, s@[i].table as int)
                } else {
                    codes_of(dc@, t.dc, s@[i].table as int)
                }),
        decreases n - i,
    {
        let x = s[i];
        let ghost before = w@;
        let found = if x.ac { &ac[x.table as usize] } else { &dc[x.table as usize] };
        if let Some(c) = found {
            proof {
                lemma_code_word(*c, table_for(x, t).unwrap(), x.symbol);
            }
            let size: u8 = c.size[x.symbol as usize];
            if size == 0 {
                proof {
                    assert(symbol_bits(x, t) is None);
                    lemma_scan_bits_none(s@, t, i + 1, n as int);
                }
                return Err(invalid_with("JPEG encode: Huffman table has no code for symbol ", x.symbol as u64, ""));
            }
            let code: u16 = c.code[x.symbol as usize];
            w.put(code as u32, size as u32);
            w.put(x.extra, x.extra_bits);
            proof {
                let a = value_bits(code as nat, size as nat);
                let b = value_bits(x.extra as nat, x.extra_bits as nat);
                assert(before + a + b =~= before + (a + b));
            }
        }
        i = i + 1;
    }
    Ok(())
}

/// A symbol without a code word leaves no bits.
proof fn lemma_scan_bits_none(s: Seq<CodedSymbol>, t: TablesModel, m: int, n: int)
    requires
        0 <= m <= n,
        scan_bits(s, t, m) is None,
    ensures
        scan_bits(s, t, n) is None,
    decreases n - m,
{
    if m < n {
        lemma_scan_bits_none(s, t, m, n - 1);
    }
}

/// The stream of a frame: its tables where they are asked for, headers, coded bits.
/// There is one where the frame can be coded, all its tables are there and can be
/// used, and have code words for its symbols.
pub open spec fn frame_stream(
    frame: JpegFrame,
    cs: Seq<ComponentModel>,
    t: TablesModel,
    emit_tables: bool,
    blocks: Seq<[i16; 64]>,
) -> Option<Seq<u8>> {
    let dct = frame.process is Dct;
    let s = scan_symbols(frame, cs, blocks);
    if !scan_ok(frame, cs, t, blocks) || !huff_ok(cs, t.dc) || (dct && !huff_ok(cs, t.ac)) {
        None
    } else {
        match scan_bits(s, t, s.len() as int) {
            None => None,
            Some(b) => Some(
                seq![0xFFu8, SOI] + (if emit_tables { tables_bytes(t, dct) } else { Seq::empty() }) + frame_header(
                    frame,
                    cs,
                ) + scan_header(frame, cs) + stuffed(bytes_of(filled(b))) + seq![0xFFu8, EOI],
            ),
        }
    }
}

/// What stands before the coded bits of a stream.
fn write_head(frame: &JpegFrame, comps: &[JpegComponent<'_>], tables: &JpegTableSet, emit_tables: bool, dct: bool) -> (
    out: Vec<u8>)
    requires
        frame_ok(*frame, models(comps@)),
        dct == (frame.process is Dct),
    ensures
        out@ == seq![0xFFu8, SOI] + (if emit_tables { tables_bytes(tables@, dct) } else { Seq::empty() })
            + frame_header(*frame, models(comps@)) + scan_header(*frame, models(comps@)),
{
    proof {
        let n = models(comps@).len() as int;
        assert forall|i: int| 0 <= i < n implies (#[trigger] models(comps@)[i]).h <= 4 && models(comps@)[i].v <= 4 && models(comps@)[i].huff_id
            <= 3 by {
            assert(component_ok(*frame, models(comps@)[i], h_max(models(comps@), n), v_max(models(comps@), n)));
        }
    }
    let mut out: Vec<u8> = Vec::new();
    push_marker(&mut out, SOI);
    assert(out@ =~= seq![0xFFu8, SOI]);
    if emit_tables {
        tables.write_tables(&mut out, dct);
    }
    assert(out@ =~= seq![0xFFu8, SOI] + (if emit_tables { tables_bytes(tables@, dct) } else { Seq::empty() }));
    write_sof(&mut out, frame, comps);
    write_sos(&mut out, frame, comps);
    out
}

/// Codes a frame as one stream; `blocks` are the coefficients of the transformed
/// blocks, in the order of [`sample_blocks`]. Without its tables the stream relies
/// on them standing elsewhere.
pub fn encode_frame(
    frame: &JpegFrame,
    comps: &[JpegComponent<'_>],
    tables: &JpegTableSet,
    emit_tables: bool,
    blocks: &[[i16; 64]],
) -> (r: Result<Vec<u8>>)
    ensures
        bytes_or_invalid(r, frame_stream(*frame, models(comps@), tables@, emit_tables, blocks@)),
{
    let (hmax, vmax) = validate(frame, comps)?;
    let dct: bool = match frame.process {
        JpegProcess::Dct => true,
        JpegProcess::Lossless { .. } => false,
    };
    proof {
        let n = models(comps@).len() as int;
        assert forall|i: int| 0 <= i < n implies (#[trigger] models(comps@)[i]).huff_id <= 3 by {
            assert(component_ok(*frame, models(comps@)[i], h_max(models(comps@), n), v_max(models(comps@), n)));
        }
    }
    let dc = build_codes(comps, &tables.dc)?;
    let ac: [Option<HuffCodes>; 4] = if dct { build_codes(comps, &tables.ac)? } else { [None, None, None, None] };
    let symbols = code_scan(frame, comps, hmax, vmax, tables, blocks)?;
    let mut out = write_head(frame, comps, tables, emit_tables, dct);
    proof {
        lemma_scan_tables(*frame, models(comps@), blocks@);
        assert forall|i: int| 0 <= i < symbols@.len() implies (#[trigger] symbols@[i]).table < 4 && symbols@[i].extra_bits
            <= 32 && (if symbols@[i].ac {
            codes_of(ac@, tables@.ac, symbols@[i].table as int)
        } else {
            codes_of(dc@, tables@.dc, symbols@[i].table as int)
        }) by {
            let x = symbols@[i];
            lemma_used_small(*frame, models(comps@), x.table as int);
            let j = choose|j: int| 0 <= j < models(comps@).len() && (#[trigger] models(comps@)[j]).huff_id == x.table;
            assert(codes_of(dc@, tables@.dc, models(comps@)[j].huff_id as int));
            if x.ac {
                assert(codes_of(ac@, tables@.ac, models(comps@)[j].huff_id as int));
            }
        }
    }
    let mut writer = BitWriter::new();
    emit_symbols(&mut writer, &symbols, &dc, &ac, Ghost(tables@))?;
    let coded = writer.finish();
    push_all(&mut out, &coded);
    push_marker(&mut out, EOI);
    Ok(out)
}

/// The symbols of a table are counted one by one, whatever the other tables have.
pub proof fn law_counts(f: Seq<u32>, s: Seq<CodedSymbol>, ac: bool, table: int, n: int, y: int)
    requires
        f.len() == 256,
        0 <= n <= s.len(),
        0 <= y < 256,
        f[y] + s.take(n).filter(|x: CodedSymbol| x.ac == ac && x.table == table && x.symbol == y).len() <= u32::MAX,
    ensures
        counted(f, s, ac, table, n).len() == 256,
        counted(f, s, ac, table, n)[y] == f[y] + s.take(n).filter(
            |x: CodedSymbol| x.ac == ac && x.table == table && x.symbol == y,
        ).len(),
    decreases n,
{
    reveal(Seq::filter);
    let p = |x: CodedSymbol| x.ac == ac && x.table == table && x.symbol == y;
    if n > 0 {
        assert(s.take(n).drop_last() =~= s.take(n - 1));
        assert(s.take(n).filter(p).len() >= s.take(n - 1).filter(p).len());
        law_counts(f, s, ac, table, n - 1, y);
    }
}

} // verus!
