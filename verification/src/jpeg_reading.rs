//! What a decoder reads in JPEG streams: where the headers stand and what their bytes
//! say, in which order samples and coefficients come, and how a sample follows from its
//! neighbours.
use vstd::prelude::*;
use vstd::arithmetic::power2::{lemma2_to64, pow2};
use crate::huffman::HuffModel;
use crate::jpeg_enc::{
    average_before, block_sample, component_ok, difference_of, frame_components, frame_header, frame_ok,
};
use crate::jpeg_enc::{frame_stream, h_max, huff_segment, lemma_frame, lossless_symbol, quant_segment, sample_of};
use crate::jpeg_enc::{law_lossless_sample, mcus_across, predicted, scan_components, scan_header, scan_symbols};
use crate::jpeg_enc::{step_bytes, tables_bytes, unit_at, unit_count, units_of, v_max, wide_steps, ComponentModel, JpegFrame};
use crate::jpeg_enc::{amplitude_of, block_ok, block_symbols, blocks_ok, coefs_read, dct_symbols, law_block_read};
use crate::jpeg_enc::{JpegProcess, TablesModel, NATURAL};
use crate::jpeg_exact::{lemma_sample_within, lemma_unit_coded, place_of};
use crate::render::ceil_div;

verus! {

// ----------------------------------------------------------------------
// Headers
// ----------------------------------------------------------------------

proof fn lemma_frame_parts(frame: JpegFrame, cs: Seq<ComponentModel>, n: int, i: int)
    requires
        0 <= n <= cs.len(),
    ensures
        frame_components(frame, cs, n).len() == 3 * n,
        0 <= i < n ==> {
            &&& frame_components(frame, cs, n)[3 * i] == (i + 1) as u8
            &&& frame_components(frame, cs, n)[3 * i + 1] == (16 * cs[i].h + cs[i].v) as u8
            &&& frame_components(frame, cs, n)[3 * i + 2] == (if frame.process is Dct { cs[i].quant_id } else { 0u8 })
        },
    decreases n,
{
    if n > 0 {
        lemma_frame_parts(frame, cs, n - 1, i);
        let less = frame_components(frame, cs, n - 1);
        let all = frame_components(frame, cs, n);
        if i < n - 1 {
            assert(0 <= i ==> all[3 * i] == less[3 * i] && all[3 * i + 1] == less[3 * i + 1] && all[3 * i + 2] == less[3 * i + 2]);
        }
    }
}

proof fn lemma_scan_parts(frame: JpegFrame, cs: Seq<ComponentModel>, n: int, i: int)
    requires
        0 <= n <= cs.len(),
    ensures
        scan_components(frame, cs, n).len() == 2 * n,
        0 <= i < n ==> {
            &&& scan_components(frame, cs, n)[2 * i] == (i + 1) as u8
            &&& scan_components(frame, cs, n)[2 * i + 1] == (16 * cs[i].huff_id + if frame.process is Dct {
                cs[i].huff_id as int
            } else {
                0
            }) as u8
        },
    decreases n,
{
    if n > 0 {
        lemma_scan_parts(frame, cs, n - 1, i);
        let less = scan_components(frame, cs, n - 1);
        let all = scan_components(frame, cs, n);
        if i < n - 1 {
            assert(0 <= i ==> all[2 * i] == less[2 * i] && all[2 * i + 1] == less[2 * i + 1]);
        }
    }
}

/// The header of a frame: marker C0 for 8-bit and C1 for 12-bit transform coding, C3 for
/// lossless coding; its length; bits of a sample; rows, then samples in a row, high bytes
/// first; and for each component its number from 1 on, its two sampling factors in one
/// byte, the horizontal one high, and the place of its quantiser steps.
pub proof fn law_frame_header(frame: JpegFrame, cs: Seq<ComponentModel>, i: int)
    requires
        frame_ok(frame, cs),
        0 <= i < cs.len(),
    ensures
        ({
            let s = frame_header(frame, cs);
            let n = cs.len() as int;
            &&& s.len() == 10 + 3 * n
            &&& s[0] == 0xFF
            &&& s[1] == (if frame.process is Lossless {
                0xC3u8
            } else if frame.precision == 8 {
                0xC0u8
            } else {
                0xC1u8
            })
            &&& 256 * s[2] + s[3] == s.len() - 2
            &&& s[4] == frame.precision
            &&& 256 * s[5] + s[6] == frame.height
            &&& 256 * s[7] + s[8] == frame.width
            &&& s[9] == n
            &&& s[10 + 3 * i] == i + 1
            &&& s[11 + 3 * i] == 16 * cs[i].h + cs[i].v
            &&& s[12 + 3 * i] == (if frame.process is Dct { cs[i].quant_id as int } else { 0 })
        }),
{
    let n = cs.len() as int;
    lemma_frame_parts(frame, cs, n, i);
    assert(component_ok(frame, cs[i], h_max(cs, n), v_max(cs, n)));
    let s = frame_header(frame, cs);
    let tail = frame_components(frame, cs, n);
    assert(s[10 + 3 * i] == tail[3 * i]);
    assert(s[11 + 3 * i] == tail[3 * i + 1]);
    assert(s[12 + 3 * i] == tail[3 * i + 2]);
}

/// The header of a scan: marker DA, its length, and for each component its number and the
/// places of its Huffman tables, that for averages high; at the end the coefficients 0 to
/// 63, or the prediction that lossless coding uses.
pub proof fn law_scan_header(frame: JpegFrame, cs: Seq<ComponentModel>, i: int)
    requires
        frame_ok(frame, cs),
        0 <= i < cs.len(),
    ensures
        ({
            let s = scan_header(frame, cs);
            let n = cs.len() as int;
            &&& s.len() == 8 + 2 * n
            &&& s[0] == 0xFF
            &&& s[1] == 0xDA
            &&& 256 * s[2] + s[3] == s.len() - 2
            &&& s[4] == n
            &&& s[5 + 2 * i] == i + 1
            &&& s[6 + 2 * i] == 16 * cs[i].huff_id + if frame.process is Dct { cs[i].huff_id as int } else { 0 }
            &&& frame.process is Dct ==> s[5 + 2 * n] == 0 && s[6 + 2 * n] == 63
            &&& frame.process matches JpegProcess::Lossless { predictor } ==> s[5 + 2 * n] == predictor && s[6 + 2 * n] == 0
            &&& s[7 + 2 * n] == 0
        }),
{
    let n = cs.len() as int;
    lemma_scan_parts(frame, cs, n, i);
    assert(component_ok(frame, cs[i], h_max(cs, n), v_max(cs, n)));
    let s = scan_header(frame, cs);
    let tail = scan_components(frame, cs, n);
    assert(s[5 + 2 * i] == tail[2 * i]);
    assert(s[6 + 2 * i] == tail[2 * i + 1]);
}

/// A stream begins with FF D8 and ends with FF D9. After the tables, if it has them, come
/// the header of the frame, the header of the scan, and the coded bits.
pub proof fn law_stream_parts(
    frame: JpegFrame,
    cs: Seq<ComponentModel>,
    t: TablesModel,
    emit_tables: bool,
    blocks: Seq<[i16; 64]>,
)
    requires
        frame_stream(frame, cs, t, emit_tables, blocks) is Some,
    ensures
        ({
            let s = frame_stream(frame, cs, t, emit_tables, blocks).unwrap();
            let tables = tables_bytes(t, frame.process is Dct);
            let a: int = 2 + if emit_tables { tables.len() as int } else { 0 };
            let b = a + frame_header(frame, cs).len();
            let c = b + scan_header(frame, cs).len();
            &&& s.len() >= c + 2
            &&& s[0] == 0xFF && s[1] == 0xD8
            &&& emit_tables ==> s.subrange(2, a) == tables
            &&& s.subrange(a, b) == frame_header(frame, cs)
            &&& s.subrange(b, c) == scan_header(frame, cs)
            &&& s[s.len() - 2] == 0xFF && s[s.len() - 1] == 0xD9
        }),
{
    let s = frame_stream(frame, cs, t, emit_tables, blocks).unwrap();
    let tables = tables_bytes(t, frame.process is Dct);
    let a: int = 2 + if emit_tables { tables.len() as int } else { 0 };
    let b = a + frame_header(frame, cs).len();
    let c = b + scan_header(frame, cs).len();
    if emit_tables {
        assert(s.subrange(2, a) =~= tables);
    }
    assert(s.subrange(a, b) =~= frame_header(frame, cs));
    assert(s.subrange(b, c) =~= scan_header(frame, cs));
}

// ----------------------------------------------------------------------
// Tables
// ----------------------------------------------------------------------

/// The order of coding goes along the diagonals of a block, up to the right on every
/// second one beginning with the corner, down to the left on the others, and at an edge
/// on to the next diagonal.
pub proof fn law_zigzag(k: int)
    requires
        0 <= k < 63,
    ensures
        NATURAL[0] == 0,
        ({
            let r = NATURAL[k] as int / 8;
            let c = NATURAL[k] as int % 8;
            NATURAL[k + 1] == (if (r + c) % 2 == 0 {
                if c == 7 {
                    8 * (r + 1) + c
                } else if r == 0 {
                    c + 1
                } else {
                    8 * (r - 1) + c + 1
                }
            } else {
                if r == 7 {
                    8 * r + c + 1
                } else if c == 0 {
                    8 * (r + 1)
                } else {
                    8 * (r + 1) + c - 1
                }
            })
        }),
{
}

proof fn lemma_steps(q: Seq<u16>, wide: bool, n: int)
    requires
        0 <= n <= 64,
    ensures
        step_bytes(q, wide, n).len() == (if wide { 2 * n } else { n }),
        forall|k: int|
            #![trigger NATURAL[k]]
            0 <= k < n ==> {
                let v = q[NATURAL[k] as int];
                &&& wide ==> step_bytes(q, wide, n)[2 * k] == (v / 256) as u8 && step_bytes(q, wide, n)[2 * k + 1] == (v
                    % 256) as u8
                &&& !wide ==> step_bytes(q, wide, n)[k] == v as u8
            },
    decreases n,
{
    if n > 0 {
        lemma_steps(q, wide, n - 1);
    }
}

/// A table of quantiser steps: marker DB, its length, its place with 1 before it where
/// steps have two bytes, and the steps in the order of coding.
pub proof fn law_quant_segment(place: int, q: Seq<u16>, k: int)
    requires
        0 <= place < 4,
        q.len() == 64,
        0 <= k < 64,
    ensures
        ({
            let s = quant_segment(place, q);
            let v = q[NATURAL[k] as int] as int;
            let wide = exists|i: int| 0 <= i < 64 && #[trigger] q[i] > 255;
            &&& s[0] == 0xFF
            &&& s[1] == 0xDB
            &&& 256 * s[2] + s[3] == s.len() - 2
            &&& s[4] == place + if wide { 16int } else { 0 }
            &&& s.len() == 5 + if wide { 128int } else { 64 }
            &&& wide ==> 256 * s[5 + 2 * k] + s[6 + 2 * k] == v
            &&& !wide ==> s[5 + k] == v
        }),
{
    let wide = wide_steps(q);
    lemma_steps(q, wide, 64);
    let s = quant_segment(place, q);
    let tail = step_bytes(q, wide, 64);
    assert(NATURAL[k] < 64);
    if wide {
        assert(s[5 + 2 * k] == tail[2 * k]);
        assert(s[6 + 2 * k] == tail[2 * k + 1]);
    } else {
        assert(s[5 + k] == tail[k]);
        assert(!(q[NATURAL[k] as int] > 255));
    }
}

/// A Huffman table: marker C4, its length, its sort and place in one byte, how many codes
/// there are of each length from 1 to 16, and the symbols.
pub proof fn law_huff_segment(class: int, place: int, h: HuffModel)
    requires
        0 <= class < 2,
        0 <= place < 4,
        h.bits.len() == 16,
        h.vals.len() <= 256,
    ensures
        ({
            let s = huff_segment(class, place, h);
            &&& s.len() == 21 + h.vals.len()
            &&& s[0] == 0xFF
            &&& s[1] == 0xC4
            &&& 256 * s[2] + s[3] == s.len() - 2
            &&& s[4] == 16 * class + place
            &&& s.subrange(5, 21) == h.bits
            &&& s.skip(21) == h.vals
        }),
{
    let s = huff_segment(class, place, h);
    assert(s.subrange(5, 21) =~= h.bits);
    assert(s.skip(21) =~= h.vals);
}

// ----------------------------------------------------------------------
// Order of samples
// ----------------------------------------------------------------------

/// A sample of a component within its edges.
pub open spec fn at(c: ComponentModel, x: int, y: int) -> int {
    c.samples[y * c.width + x] as int
}

proof fn lemma_at(c: ComponentModel, x: int, y: int)
    requires
        0 <= x < c.width,
        0 <= y < c.height,
    ensures
        sample_of(c, x, y) == at(c, x, y),
{
}

proof fn lemma_sample_coded(frame: JpegFrame, cs: Seq<ComponentModel>, c: int, x: int, y: int)
    requires
        frame_ok(frame, cs),
        0 <= c < cs.len(),
        0 <= x < cs[c].width,
        0 <= y < cs[c].height,
    ensures
        0 <= place_of(frame, cs, 1, c, x, y) < unit_count(frame, cs, 1),
        unit_at(frame, cs, 1, place_of(frame, cs, 1, c, x, y)) == (c, x, y),
{
    let n = cs.len() as int;
    assert(component_ok(frame, cs[c], h_max(cs, n), v_max(cs, n)));
    lemma_frame(frame, cs, 1);
    lemma_sample_within(frame.width as int, cs[c].h as int, h_max(cs, n), x);
    lemma_sample_within(frame.height as int, cs[c].v as int, v_max(cs, n), y);
    lemma_unit_coded(frame, cs, 1, c, x, y);
}

/// A decoder of lossless streams gives the samples back: it adds what the symbol of a
/// sample stands for to the prediction that the header of the scan names, modulo 65536.
/// In the first row that is the sample on the left (A), in the first column the one above
/// (B), for the very first sample half of the range, and elsewhere, with the one above on
/// the left (C), by number: 1 is A, 2 is B, 3 is C, 4 is A + B - C, 5 is A + (B - C) / 2, 6
/// is B + (A - C) / 2 and 7 is (A + B) / 2, halves rounded down.
pub proof fn law_lossless_read(
    frame: JpegFrame,
    cs: Seq<ComponentModel>,
    blocks: Seq<[i16; 64]>,
    c: int,
    x: int,
    y: int,
)
    requires
        frame_ok(frame, cs),
        frame.process is Lossless,
        0 <= c < cs.len(),
        0 <= x < cs[c].width,
        0 <= y < cs[c].height,
    ensures
        ({
            let symbols = scan_symbols(frame, cs, blocks);
            let k = place_of(frame, cs, 1, c, x, y);
            let ss = scan_header(frame, cs)[5 + 2 * cs.len() as int];
            let left = at(cs[c], x - 1, y);
            let above = at(cs[c], x, y - 1);
            let corner = at(cs[c], x - 1, y - 1);
            let p = if x == 0 && y == 0 {
                pow2((frame.precision - 1) as nat) as int
            } else if y == 0 || (x > 0 && ss == 1) {
                left
            } else if x == 0 || ss == 2 {
                above
            } else if ss == 3 {
                corner
            } else if ss == 4 {
                left + above - corner
            } else if ss == 5 {
                left + (above - corner) / 2
            } else if ss == 6 {
                above + (left - corner) / 2
            } else {
                (left + above) / 2
            };
            &&& 0 <= k < symbols.len()
            &&& 1 <= ss <= 7
            &&& symbols[k].table == cs[c].huff_id && !symbols[k].ac
            &&& at(cs[c], x, y) == (p + difference_of(symbols[k])) % 65536
        }),
{
    let n = cs.len() as int;
    let d = cs[c];
    let predictor = frame.process->Lossless_predictor;
    lemma_sample_coded(frame, cs, c, x, y);
    law_scan_header(frame, cs, c);
    assert(component_ok(frame, d, h_max(cs, n), v_max(cs, n)));
    lemma_at(d, x, y);
    if x > 0 {
        lemma_at(d, x - 1, y);
    }
    if y > 0 {
        lemma_at(d, x, y - 1);
        if x > 0 {
            lemma_at(d, x - 1, y - 1);
        }
    }
    let k = place_of(frame, cs, 1, c, x, y);
    assert(scan_symbols(frame, cs, blocks)[k] == lossless_symbol(frame, cs, predictor, k));
    law_lossless_sample(d.huff_id, sample_of(d, x, y), predicted(frame, d, predictor, x, y));
}

/// In a frame of one component data units follow each other row by row.
pub proof fn law_one_component(frame: JpegFrame, cs: Seq<ComponentModel>, x: int, y: int)
    requires
        frame_ok(frame, cs),
        cs.len() == 1,
        0 <= x,
        0 <= y,
    ensures
        place_of(frame, cs, 1, 0, x, y) == y * frame.width + x,
        place_of(frame, cs, 8, 0, x, y) == y * ((frame.width + 7) / 8) + x,
{
    assert(cs[0].h == 1 && cs[0].v == 1);
    law_equal_components(frame, cs, 0, x, y);
    let a = y * frame.width + x;
    let b = y * ((frame.width + 7) / 8) + x;
    assert(a * 1 == a && b * 1 == b) by (nonlinear_arith);
}

/// In a frame of luma and two chroma components, the second and third with factors of 1, a
/// coding unit holds the data units of a rectangle of luma row by row, then one of each
/// chroma component; coding units follow each other row by row.
pub proof fn law_three_components(frame: JpegFrame, cs: Seq<ComponentModel>, unit: int, x: int, y: int)
    requires
        frame_ok(frame, cs),
        cs.len() == 3,
        cs[1].h == 1 && cs[1].v == 1 && cs[2].h == 1 && cs[2].v == 1,
        unit == 1 || unit == 8,
        0 <= x,
        0 <= y,
    ensures
        ({
            let h = cs[0].h as int;
            let v = cs[0].v as int;
            let across = (frame.width + unit * h - 1) / (unit * h);
            &&& place_of(frame, cs, unit, 0, x, y) == (y / v * across + x / h) * (h * v + 2) + (y % v * h + x % h)
            &&& place_of(frame, cs, unit, 1, x, y) == (y * across + x) * (h * v + 2) + h * v
            &&& place_of(frame, cs, unit, 2, x, y) == (y * across + x) * (h * v + 2) + h * v + 1
        }),
{
    let n = 3int;
    assert(component_ok(frame, cs[0], h_max(cs, n), v_max(cs, n)));
    reveal_with_fuel(units_of, 5);
    reveal_with_fuel(h_max, 5);
    reveal_with_fuel(v_max, 5);
    assert(1int * 1 == 1) by (nonlinear_arith);
    assert(units_of(cs, 1) == cs[0].h * cs[0].v);
    assert(units_of(cs, 2) == units_of(cs, 1) + 1);
    assert(units_of(cs, 3) == units_of(cs, 1) + 2);
}

/// Where all components have factors of 1, the samples of a pixel come together.
pub proof fn law_equal_components(frame: JpegFrame, cs: Seq<ComponentModel>, c: int, x: int, y: int)
    requires
        frame_ok(frame, cs),
        forall|i: int| 0 <= i < cs.len() ==> (#[trigger] cs[i]).h == 1 && cs[i].v == 1,
        0 <= c < cs.len(),
        0 <= x,
        0 <= y,
    ensures
        place_of(frame, cs, 1, c, x, y) == (y * frame.width + x) * cs.len() + c,
        place_of(frame, cs, 8, c, x, y) == (y * ((frame.width + 7) / 8) + x) * cs.len() + c,
{
    lemma_equal(cs, c);
    lemma_equal(cs, cs.len() as int);
    let most = h_max(cs, cs.len() as int);
    assert(1 * most == 1 && 8 * most == 8) by (nonlinear_arith)
        requires
            most == 1,
    ;
    assert(mcus_across(frame, cs, 1) == frame.width);
    let h = cs[c].h as int;
    assert(x / h == x && x % h == 0 && y / h == y && y % h == 0);
    assert(0 * h == 0) by (nonlinear_arith);
}

proof fn lemma_equal(cs: Seq<ComponentModel>, n: int)
    requires
        forall|i: int| 0 <= i < cs.len() ==> (#[trigger] cs[i]).h == 1 && cs[i].v == 1,
        0 <= n <= cs.len(),
    ensures
        units_of(cs, n) == n,
        n > 0 ==> h_max(cs, n) == 1 && v_max(cs, n) == 1,
    decreases n,
{
    if n > 0 {
        lemma_equal(cs, n - 1);
        reveal_with_fuel(h_max, 2);
        reveal_with_fuel(v_max, 2);
        assert(cs[n - 1].h * cs[n - 1].v == 1) by (nonlinear_arith)
            requires
                cs[n - 1].h == 1,
                cs[n - 1].v == 1,
        ;
    }
}

/// Every sample is in its block of 8 by 8, half of the range below its value: those of
/// block `k` are handed out in the order of the scan.
pub proof fn law_blocks_hold(frame: JpegFrame, cs: Seq<ComponentModel>, c: int, x: int, y: int)
    requires
        frame_ok(frame, cs),
        frame.process is Dct,
        0 <= c < cs.len(),
        0 <= x < cs[c].width,
        0 <= y < cs[c].height,
    ensures
        ({
            let k = place_of(frame, cs, 8, c, x / 8, y / 8);
            let half: int = if frame.precision == 8 { 128 } else { 2048 };
            &&& 0 <= k < unit_count(frame, cs, 8)
            &&& unit_at(frame, cs, 8, k).0 == c
            &&& block_sample(frame, cs, k, y % 8 * 8 + x % 8) + half == at(cs[c], x, y)
        }),
{
    let n = cs.len() as int;
    assert(component_ok(frame, cs[c], h_max(cs, n), v_max(cs, n)));
    lemma_frame(frame, cs, 8);
    lemma_block_within(frame.width as int, cs[c].h as int, h_max(cs, n), x);
    lemma_block_within(frame.height as int, cs[c].v as int, v_max(cs, n), y);
    lemma_unit_coded(frame, cs, 8, c, x / 8, y / 8);
    lemma2_to64();
    let i = y % 8 * 8 + x % 8;
    assert(i % 8 == x % 8 && i / 8 == y % 8);
    assert(8 * (x / 8) + x % 8 == x && 8 * (y / 8) + y % 8 == y);
    lemma_at(cs[c], x, y);
}

proof fn lemma_block_within(len: int, factor: int, most: int, x: int)
    requires
        0 < len,
        0 < factor,
        0 < most,
        0 <= x < ceil_div(len * factor, most),
    ensures
        x / 8 / factor < ceil_div(len, 8 * most),
{
    let c = ceil_div(len * factor, most);
    let n = len * factor + most - 1;
    vstd::arithmetic::div_mod::lemma_fundamental_div_mod(n, most);
    vstd::arithmetic::div_mod::lemma_mod_bound(n, most);
    assert(x * most < len * factor) by (nonlinear_arith)
        requires
            n == most * c + n % most,
            0 <= n % most,
            n == len * factor + most - 1,
            x + 1 <= c,
            0 < most,
    ;
    let b = x / 8;
    let q = b / factor;
    vstd::arithmetic::div_mod::lemma_fundamental_div_mod(b, factor);
    vstd::arithmetic::div_mod::lemma_mod_bound(b, factor);
    assert(q * (8 * most) < len) by (nonlinear_arith)
        requires
            x * most < len * factor,
            8 * b <= x,
            factor * q <= b,
            0 < factor,
            0 < most,
    ;
    let d = 8 * most;
    let e = ceil_div(len, d);
    let k = len + d - 1;
    vstd::arithmetic::div_mod::lemma_fundamental_div_mod(k, d);
    vstd::arithmetic::div_mod::lemma_mod_bound(k, d);
    assert(q < e) by (nonlinear_arith)
        requires
            k == d * e + k % d,
            k % d < d,
            k == len + d - 1,
            q * d < len,
            0 < d,
    ;
}

/// Beyond the edges of a component a block repeats the last column and the last row.
pub proof fn law_blocks_repeat(frame: JpegFrame, cs: Seq<ComponentModel>, k: int, i: int)
    requires
        frame_ok(frame, cs),
        frame.process is Dct,
        0 <= k < unit_count(frame, cs, 8),
        0 <= i < 64,
    ensures
        ({
            let u = unit_at(frame, cs, 8, k);
            let c = cs[u.0];
            let x = 8 * u.1 + i % 8;
            let y = 8 * u.2 + i / 8;
            let half: int = if frame.precision == 8 { 128 } else { 2048 };
            block_sample(frame, cs, k, i) + half == at(
                c,
                if x >= c.width { c.width - 1 } else { x },
                if y >= c.height { c.height - 1 } else { y },
            )
        }),
{
    lemma2_to64();
}

/// The averages and the other coefficients of a block are read from the symbols that come
/// after those of the blocks before: the first one stands for the difference to the
/// average of the last block before of the same component, `j`, or to 0 where there is
/// none; the others give the coefficients in the order of coding.
pub proof fn law_dct_read(
    frame: JpegFrame,
    cs: Seq<ComponentModel>,
    blocks: Seq<[i16; 64]>,
    k: int,
    j: int,
    i: int,
)
    requires
        frame_ok(frame, cs),
        frame.process is Dct,
        blocks_ok(frame, cs, blocks),
        0 <= k < blocks.len(),
        -1 <= j < k,
        j >= 0 ==> unit_at(frame, cs, 8, j).0 == unit_at(frame, cs, 8, k).0,
        forall|b: int| j < b < k ==> (#[trigger] unit_at(frame, cs, 8, b)).0 != unit_at(frame, cs, 8, k).0,
        1 <= i < 64,
    ensures
        ({
            let earlier = dct_symbols(frame, cs, blocks, k);
            let all = scan_symbols(frame, cs, blocks);
            let s = dct_symbols(frame, cs, blocks, k + 1).skip(earlier.len() as int);
            let before = if j >= 0 { blocks[j]@[0] as int } else { 0 };
            &&& (earlier + s).is_prefix_of(all)
            &&& before + amplitude_of(s[0]) == blocks[k]@[0]
            &&& coefs_read(s.skip(1), 1)[i - 1] == blocks[k]@[NATURAL[i] as int]
        }),
{
    let c = unit_at(frame, cs, 8, k).0;
    let earlier = dct_symbols(frame, cs, blocks, k);
    let s = dct_symbols(frame, cs, blocks, k + 1).skip(earlier.len() as int);
    let before = average_before(frame, cs, blocks, k, c);
    let own = block_symbols(blocks[k]@, before, cs[c].huff_id);
    assert(s =~= own);
    assert(earlier + s =~= dct_symbols(frame, cs, blocks, k + 1));
    lemma_average(frame, cs, blocks, k, c, j);
    lemma_prefix(frame, cs, blocks, k + 1, blocks.len() as int);
    assert(block_ok(blocks[k]@));
    law_block_read(blocks[k]@, before, cs[c].huff_id);
}

proof fn lemma_average(frame: JpegFrame, cs: Seq<ComponentModel>, blocks: Seq<[i16; 64]>, n: int, c: int, j: int)
    requires
        -1 <= j < n || (j == -1 && n == 0),
        j >= 0 ==> unit_at(frame, cs, 8, j).0 == c,
        forall|b: int| j < b < n ==> (#[trigger] unit_at(frame, cs, 8, b)).0 != c,
    ensures
        average_before(frame, cs, blocks, n, c) == (if j >= 0 { blocks[j]@[0] as int } else { 0 }),
    decreases n,
{
    if n > 0 && n - 1 > j {
        assert(unit_at(frame, cs, 8, n - 1).0 != c);
        lemma_average(frame, cs, blocks, n - 1, c, j);
    }
}

proof fn lemma_prefix(frame: JpegFrame, cs: Seq<ComponentModel>, blocks: Seq<[i16; 64]>, m: int, n: int)
    requires
        0 <= m <= n,
    ensures
        dct_symbols(frame, cs, blocks, m).is_prefix_of(dct_symbols(frame, cs, blocks, n)),
    decreases n - m,
{
    let a = dct_symbols(frame, cs, blocks, m);
    if m < n {
        lemma_prefix(frame, cs, blocks, m, n - 1);
        let b = dct_symbols(frame, cs, blocks, n - 1);
        assert(a =~= dct_symbols(frame, cs, blocks, n).take(a.len() as int)) by {
            assert(a == b.take(a.len() as int));
        }
    } else {
        assert(a =~= a.take(a.len() as int));
    }
}

} // verus!
