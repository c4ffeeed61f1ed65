//! The stream of a frame determines what was coded: no two frames of one shape
//! have the same stream unless they have the same samples, or coefficients.
use vstd::prelude::*;
use vstd::arithmetic::power2::{lemma2_to64, lemma_pow2_pos, lemma_pow2_unfold, pow2};
use crate::bits::{bits_value, lemma_bits_value_local, lemma_read_where_written, lemma_value_bits_len, stands_at, value_bits};
use crate::bits::{bits_of, bytes_of, lemma_bits_of_bytes_of, lemma_value_bits_roundtrip};
use crate::huffman::{code_at, code_sizes, code_space, code_word, law_codes_fit, law_prefix_free, lemma_sizes};
use crate::huffman::{frequency_symbol, law_usual_ac, law_usual_dc, spec_usable, usual_ac, usual_dc, HuffModel};
use crate::jpeg_enc::{bit_length, component_of, difference_symbol, filled, frame_components, frame_header, frame_ok};
use crate::jpeg_enc::{frame_stream, h_max, law_amplitude, law_unstuffed, lemma_bit_length_bound, lemma_frame};
use crate::jpeg_enc::{lemma_pow2_bound, lemma_unit_component, lossless_symbol, magnitude, predicted, sample_of, scan_bits};
use crate::jpeg_enc::{scan_components, scan_header, scan_symbols, stuffed, symbol_bits, table_for, tables_bytes, unit_at};
use crate::jpeg_enc::{unit_count, units_of, v_max, wrapped, CodedSymbol, ComponentModel, JpegFrame, JpegProcess, TablesModel};
use crate::jpeg_enc::{ac_symbols, amplitude_symbol, block_ok, block_symbols, coefs_of, law_block_read, law_zigzag_permutes};
use crate::jpeg_enc::{average_before, blocks_ok, dct_symbols, lemma_average_range, lemma_symbol_read, plain_symbol};
use crate::jpeg_enc::{huff_ok, lemma_scan_tables, scan_ok, uses, NATURAL, ZIGZAG};
use crate::jpeg_enc::{component_ok, law_lossless_sample, lemma_units_mono, mcus_across, mcus_down, EOI, SOI};
use crate::render::ceil_div;

verus! {

// ----------------------------------------------------------------------
// Symbols
// ----------------------------------------------------------------------

/// The first bits of a number are the number without its last bits.
proof fn lemma_first_bits(v: nat, n: nat, m: nat)
    requires
        v < pow2(n),
        m <= n,
    ensures
        bits_value(value_bits(v, n), 0, m) == v as int / pow2((n - m) as nat) as int,
    decreases n,
{
    lemma2_to64();
    lemma_value_bits_len(v, n);
    if m == n {
        lemma_value_bits_roundtrip(v, n);
        assert(v as int / 1 == v);
        assert(pow2((n - m) as nat) as int == 1);
    } else {
        let w = v / 2;
        lemma_pow2_unfold(n);
        lemma_pow2_unfold((n - m) as nat);
        lemma_value_bits_len(w, (n - 1) as nat);
        lemma_first_bits(w, (n - 1) as nat, m);
        lemma_bits_value_local(value_bits(v, n), value_bits(w, (n - 1) as nat), 0, 0, m);
        let p = pow2((n - 1 - m) as nat) as int;
        lemma_pow2_pos((n - 1 - m) as nat);
        vstd::arithmetic::div_mod::lemma_div_denominator(v as int, 2, p);
        assert(pow2((n - m) as nat) as int == 2 * p);
        assert((v as int / 2) / p == v as int / (2 * p));
        assert(w as int == v as int / 2);
    }
}

/// A table of which no code word begins with another.
pub open spec fn table_fits(h: HuffModel) -> bool {
    h.bits.len() == 16 && spec_usable(h.bits, h.vals) && code_space(h.bits, 16) <= 65536
}

/// No code word of a table that components use begins with another.
pub open spec fn tables_fit(cs: Seq<ComponentModel>, t: Seq<Option<HuffModel>>) -> bool {
    forall|i: int|
        0 <= i < cs.len() ==> match t[(#[trigger] cs[i]).huff_id as int] {
            Some(h) => table_fits(h),
            None => false,
        }
}

/// The word of an earlier code does not begin bits that begin with the word of a
/// later one.
proof fn lemma_words_differ(h: HuffModel, i: int, j: int, x: Seq<bool>, y: Seq<bool>)
    requires
        table_fits(h),
        0 <= i < j < h.vals.len(),
    ensures
        ({
            let sizes = code_sizes(h.bits, 16);
            value_bits(code_at(sizes, i) as nat, sizes[i] as nat) + x != value_bits(
                code_at(sizes, j) as nat,
                sizes[j] as nat,
            ) + y
        }),
{
    let sizes = code_sizes(h.bits, 16);
    lemma_sizes(h.bits, 16);
    law_codes_fit(h.bits, i);
    law_codes_fit(h.bits, j);
    law_prefix_free(h.bits, i, j);
    let a = code_at(sizes, i) as nat;
    let b = code_at(sizes, j) as nat;
    let m = sizes[i] as nat;
    let n = sizes[j] as nat;
    let wa = value_bits(a, m);
    let wb = value_bits(b, n);
    lemma_value_bits_len(a, m);
    lemma_value_bits_len(b, n);
    let s = wa + x;
    if s == wb + y {
        assert(stands_at(s, 0, wa));
        lemma_read_where_written(s, 0, a, m);
        lemma_first_bits(b, n, m);
        assert forall|k: int| 0 <= k < 0 + m implies #[trigger] s[k] == wb[k - 0 + 0] by {
            assert((wb + y)[k] == wb[k]);
        }
        lemma_bits_value_local(s, wb, 0, 0, m);
    }
}

/// Bits begin with the code word of one symbol at most.
proof fn lemma_word_unique(h: HuffModel, a: u8, b: u8, x: Seq<bool>, y: Seq<bool>)
    requires
        table_fits(h),
        code_word(h.bits, h.vals, a) matches Some(wa) && code_word(h.bits, h.vals, b) matches Some(wb) && wa + x == wb + y,
    ensures
        a == b,
{
    let i = h.vals.index_of(a);
    let j = h.vals.index_of(b);
    assert(h.vals[i] == a && h.vals[j] == b);
    if i < j {
        lemma_words_differ(h, i, j, x, y);
    } else if j < i {
        lemma_words_differ(h, j, i, y, x);
    }
}

/// Two symbols that could stand at the same place of a scan: they are coded by the
/// same table, and the symbol says how many bits follow.
pub open spec fn alike(a: CodedSymbol, b: CodedSymbol) -> bool {
    &&& a.ac == b.ac
    &&& a.table == b.table
    &&& a.symbol == b.symbol ==> a.extra_bits == b.extra_bits
    &&& a.extra < pow2(a.extra_bits as nat)
    &&& b.extra < pow2(b.extra_bits as nat)
}

/// Bits begin with those of one symbol at most.
proof fn lemma_symbol_unique(a: CodedSymbol, b: CodedSymbol, t: TablesModel, x: Seq<bool>, y: Seq<bool>)
    requires
        alike(a, b),
        table_for(a, t) matches Some(h) && table_fits(h),
        symbol_bits(a, t) matches Some(ba) && symbol_bits(b, t) matches Some(bb) && ba + x == bb + y,
    ensures
        a == b,
{
    let h = table_for(a, t)->Some_0;
    let wa = code_word(h.bits, h.vals, a.symbol)->Some_0;
    let wb = code_word(h.bits, h.vals, b.symbol)->Some_0;
    let ea = value_bits(a.extra as nat, a.extra_bits as nat);
    let eb = value_bits(b.extra as nat, b.extra_bits as nat);
    let ba = wa + ea;
    let bb = wb + eb;
    assert(wa + (ea + x) =~= ba + x);
    assert(wb + (eb + y) =~= bb + y);
    lemma_word_unique(h, a.symbol, b.symbol, ea + x, eb + y);
    lemma_value_bits_len(a.extra as nat, a.extra_bits as nat);
    lemma_value_bits_len(b.extra as nat, b.extra_bits as nat);
    let s = ba + x;
    assert(stands_at(s, wa.len() as int, ea));
    assert forall|k: int| wa.len() <= k < wa.len() + eb.len() implies #[trigger] s[k] == eb[k - wa.len()] by {
        assert((bb + y)[k] == eb[k - wb.len()]);
    }
    assert(stands_at(s, wa.len() as int, eb));
    lemma_read_where_written(s, wa.len() as int, a.extra as nat, a.extra_bits as nat);
    lemma_read_where_written(s, wa.len() as int, b.extra as nat, b.extra_bits as nat);
}

/// The bits of the first `n` symbols of a scan begin some bits.
pub open spec fn begins(s: Seq<CodedSymbol>, t: TablesModel, n: int, all: Seq<bool>) -> bool {
    scan_bits(s, t, n) matches Some(b) && b.is_prefix_of(all)
}

/// Fewer symbols begin the same bits.
proof fn lemma_begins(s: Seq<CodedSymbol>, t: TablesModel, m: int, n: int, all: Seq<bool>)
    requires
        begins(s, t, n, all),
        m <= n,
    ensures
        begins(s, t, m, all),
    decreases n,
{
    if m < n && n > 0 {
        let b = scan_bits(s, t, n)->Some_0;
        let a = scan_bits(s, t, n - 1)->Some_0;
        assert(a.is_prefix_of(all)) by {
            assert(a =~= b.take(a.len() as int));
        }
        lemma_begins(s, t, m, n - 1, all);
    }
}

/// The bits of symbols depend on these alone.
proof fn lemma_same_bits(a: Seq<CodedSymbol>, b: Seq<CodedSymbol>, t: TablesModel, n: int)
    requires
        forall|k: int| 0 <= k < n ==> #[trigger] a[k] == b[k],
    ensures
        scan_bits(a, t, n) == scan_bits(b, t, n),
    decreases n,
{
    if n > 0 {
        lemma_same_bits(a, b, t, n - 1);
        assert(a[n - 1] == b[n - 1]);
    }
}

/// After the same symbols, the same bits go on with the same symbol.
proof fn lemma_next_symbol(a: Seq<CodedSymbol>, b: Seq<CodedSymbol>, t: TablesModel, n: int, all: Seq<bool>)
    requires
        0 <= n,
        begins(a, t, n + 1, all),
        begins(b, t, n + 1, all),
        forall|k: int| 0 <= k < n ==> #[trigger] a[k] == b[k],
        alike(a[n], b[n]),
        table_for(a[n], t) matches Some(h) && table_fits(h),
    ensures
        a[n] == b[n],
{
    lemma_same_bits(a, b, t, n);
    let p = scan_bits(a, t, n)->Some_0;
    let wa = symbol_bits(a[n], t)->Some_0;
    let wb = symbol_bits(b[n], t)->Some_0;
    let rest = all.skip(p.len() as int);
    let x = rest.skip(wa.len() as int);
    let y = rest.skip(wb.len() as int);
    assert(wa + x =~= rest) by {
        assert((p + wa).is_prefix_of(all));
        assert forall|k: int| 0 <= k < wa.len() implies #[trigger] rest[k] == wa[k] by {
            assert(all[p.len() + k] == (p + wa)[p.len() + k]);
        }
    }
    assert(wb + y =~= rest) by {
        assert((p + wb).is_prefix_of(all));
        assert forall|k: int| 0 <= k < wb.len() implies #[trigger] rest[k] == wb[k] by {
            assert(all[p.len() + k] == (p + wb)[p.len() + k]);
        }
    }
    lemma_symbol_unique(a[n], b[n], t, x, y);
}

// ----------------------------------------------------------------------
// Shapes
// ----------------------------------------------------------------------

/// A component without its samples.
pub open spec fn shape(c: ComponentModel) -> ComponentModel {
    ComponentModel { samples: Seq::empty(), ..c }
}

/// Components without their samples.
pub open spec fn shapes(cs: Seq<ComponentModel>) -> Seq<ComponentModel> {
    Seq::new(cs.len(), |i: int| shape(cs[i]))
}

/// Measures of components do not depend on samples.
proof fn lemma_shape_measures(cs: Seq<ComponentModel>, n: int)
    requires
        n <= cs.len(),
    ensures
        h_max(shapes(cs), n) == h_max(cs, n),
        v_max(shapes(cs), n) == v_max(cs, n),
        units_of(shapes(cs), n) == units_of(cs, n),
    decreases n,
{
    if n > 0 {
        lemma_shape_measures(cs, n - 1);
        assert(shapes(cs)[n - 1] == shape(cs[n - 1]));
    }
}

proof fn lemma_shape_component(cs: Seq<ComponentModel>, r: int, n: int)
    requires
        n <= cs.len(),
    ensures
        component_of(shapes(cs), r, n) == component_of(cs, r, n),
    decreases n,
{
    lemma_shape_measures(cs, n - 1);
    if n > 1 {
        lemma_shape_component(cs, r, n - 1);
    }
}

/// Where a data unit stands does not depend on samples.
proof fn lemma_shape_unit(frame: JpegFrame, cs: Seq<ComponentModel>, unit: int, k: int)
    requires
        frame_ok(frame, cs),
        unit == 1 || unit == 8,
        0 <= k,
    ensures
        unit_at(frame, shapes(cs), unit, k) == unit_at(frame, cs, unit, k),
        unit_count(frame, shapes(cs), unit) == unit_count(frame, cs, unit),
{
    let n = cs.len() as int;
    let c = unit_at(frame, cs, unit, k).0;
    lemma_shape_measures(cs, n);
    lemma_shape_component(cs, k % units_of(cs, n), n);
    lemma_unit_component(frame, cs, unit, k);
    lemma_shape_measures(cs, c);
    assert(shapes(cs)[c] == shape(cs[c]));
}

/// Data units of frames of one shape stand at the same places.
proof fn lemma_same_unit(frame: JpegFrame, a: Seq<ComponentModel>, b: Seq<ComponentModel>, unit: int, k: int)
    requires
        frame_ok(frame, a),
        frame_ok(frame, b),
        shapes(a) == shapes(b),
        unit == 1 || unit == 8,
        0 <= k,
    ensures
        unit_at(frame, a, unit, k) == unit_at(frame, b, unit, k),
        unit_count(frame, a, unit) == unit_count(frame, b, unit),
        ({
            let c = unit_at(frame, a, unit, k).0;
            0 <= c < a.len() && a.len() == b.len() && shape(a[c]) == shape(b[c])
        }),
{
    lemma_shape_unit(frame, a, unit, k);
    lemma_shape_unit(frame, b, unit, k);
    lemma_unit_component(frame, a, unit, k);
    let c = unit_at(frame, a, unit, k).0;
    assert(shapes(a).len() == shapes(b).len());
    assert(shapes(a)[c] == shapes(b)[c]);
}

/// Headers of frames of one shape are the same.
proof fn lemma_same_headers(frame: JpegFrame, a: Seq<ComponentModel>, b: Seq<ComponentModel>, n: int)
    requires
        shapes(a) == shapes(b),
        n <= a.len(),
    ensures
        frame_components(frame, a, n) == frame_components(frame, b, n),
        scan_components(frame, a, n) == scan_components(frame, b, n),
    decreases n,
{
    if n > 0 {
        assert(shapes(a).len() == a.len() && shapes(b).len() == b.len());
        lemma_same_headers(frame, a, b, n - 1);
        assert(shapes(a)[n - 1] == shape(a[n - 1]));
        assert(shapes(b)[n - 1] == shape(b[n - 1]));
        let c = a[n - 1];
        let d = b[n - 1];
        assert(c.h == d.h && c.v == d.v && c.quant_id == d.quant_id && c.huff_id == d.huff_id);
    }
}

/// What stands before the coded bits of a stream.
pub open spec fn stream_head(frame: JpegFrame, cs: Seq<ComponentModel>, t: TablesModel, emit_tables: bool) -> Seq<u8> {
    seq![0xFFu8, SOI] + (if emit_tables { tables_bytes(t, frame.process is Dct) } else { Seq::empty() }) + frame_header(
        frame,
        cs,
    ) + scan_header(frame, cs)
}

/// Bytes are the same.
spec fn same_bytes(a: Seq<u8>, b: Seq<u8>) -> bool {
    a == b
}

proof fn lemma_same_heads(frame: JpegFrame, a: Seq<ComponentModel>, b: Seq<ComponentModel>, t: TablesModel, emit_tables: bool)
    requires
        shapes(a) == shapes(b),
    ensures
        same_bytes(stream_head(frame, a, t, emit_tables), stream_head(frame, b, t, emit_tables)),
{
    assert(shapes(a).len() == a.len() && shapes(b).len() == b.len());
    lemma_same_headers(frame, a, b, a.len() as int);
    assert(same_bytes(frame_header(frame, a), frame_header(frame, b)));
    assert(same_bytes(scan_header(frame, a), scan_header(frame, b)));
}

/// What stands between the same bytes is the same.
proof fn lemma_middle(head: Seq<u8>, x: Seq<u8>, y: Seq<u8>, end: Seq<u8>)
    requires
        head + x + end == head + y + end,
    ensures
        x == y,
{
    let s = head + x + end;
    assert(s.len() == (head + y + end).len());
    assert(x =~= s.subrange(head.len() as int, s.len() - end.len()));
    assert(y =~= s.subrange(head.len() as int, s.len() - end.len()));
}

/// Bits that are coded to the same bytes are filled up to the same bits.
proof fn lemma_coded_bits(a: Seq<bool>, b: Seq<bool>)
    requires
        stuffed(bytes_of(filled(a))) == stuffed(bytes_of(filled(b))),
    ensures
        filled(a) == filled(b),
        a.is_prefix_of(filled(a)),
        b.is_prefix_of(filled(a)),
{
    law_unstuffed(bytes_of(filled(a)));
    law_unstuffed(bytes_of(filled(b)));
    lemma_filled_bits(a);
    lemma_filled_bits(b);
}

/// Bits that are filled up to whole bytes are those of the bytes.
proof fn lemma_filled_bits(b: Seq<bool>)
    ensures
        bits_of(bytes_of(filled(b))) == filled(b),
        b.is_prefix_of(filled(b)),
{
    let f = filled(b);
    lemma_bits_of_bytes_of(f);
    assert(f.len() % 8 == 0);
    assert(bits_of(bytes_of(f)) =~= f);
    assert(b =~= f.take(b.len() as int));
}

/// Symbols that are coded to the same stream begin the same bits.
proof fn lemma_stream_bits(
    frame: JpegFrame,
    a: Seq<ComponentModel>,
    b: Seq<ComponentModel>,
    t: TablesModel,
    emit_tables: bool,
    blocks_a: Seq<[i16; 64]>,
    blocks_b: Seq<[i16; 64]>,
) -> (all: Seq<bool>)
    requires
        shapes(a) == shapes(b),
        frame_stream(frame, a, t, emit_tables, blocks_a) is Some,
        frame_stream(frame, a, t, emit_tables, blocks_a) == frame_stream(frame, b, t, emit_tables, blocks_b),
    ensures
        ({
            let sa = scan_symbols(frame, a, blocks_a);
            let sb = scan_symbols(frame, b, blocks_b);
            begins(sa, t, sa.len() as int, all) && begins(sb, t, sb.len() as int, all)
        }),
{
    let sa = scan_symbols(frame, a, blocks_a);
    let sb = scan_symbols(frame, b, blocks_b);
    let ba = scan_bits(sa, t, sa.len() as int)->Some_0;
    let bb = scan_bits(sb, t, sb.len() as int)->Some_0;
    let end = seq![0xFFu8, EOI];
    let ca = stuffed(bytes_of(filled(ba)));
    let cb = stuffed(bytes_of(filled(bb)));
    lemma_same_heads(frame, a, b, t, emit_tables);
    let head = stream_head(frame, a, t, emit_tables);
    assert(same_bytes(head + ca + end, head + cb + end));
    lemma_middle(head, ca, cb, end);
    lemma_coded_bits(ba, bb);
    filled(ba)
}

// ----------------------------------------------------------------------
// Lossless frames
// ----------------------------------------------------------------------

/// The symbol of a difference says how many bits follow it.
proof fn lemma_difference_alike(table: u8, d: int, e: int)
    requires
        -32768 <= d < 32768,
        -32768 <= e < 32768,
    ensures
        alike(difference_symbol(table, d), difference_symbol(table, e)),
{
    lemma2_to64();
    lemma_difference_width(table, d);
    lemma_difference_width(table, e);
}

proof fn lemma_difference_width(table: u8, d: int)
    requires
        -32768 <= d < 32768,
    ensures
        ({
            let s = difference_symbol(table, d);
            &&& s.extra_bits == if s.symbol == 16 { 0 } else { s.symbol as int }
            &&& s.extra < pow2(s.extra_bits as nat)
        }),
{
    lemma2_to64();
    if d != -32768 {
        let n = bit_length(magnitude(d));
        lemma_bit_length_bound(magnitude(d), 15);
        law_amplitude(d);
        lemma_pow2_bound(n, 15);
    }
}

/// Symbols of lossless frames of one shape that begin the same bits are the same.
proof fn lemma_lossless_symbols(
    frame: JpegFrame,
    a: Seq<ComponentModel>,
    b: Seq<ComponentModel>,
    t: TablesModel,
    sa: Seq<CodedSymbol>,
    sb: Seq<CodedSymbol>,
    n: int,
    all: Seq<bool>,
)
    requires
        frame_ok(frame, a),
        frame_ok(frame, b),
        shapes(a) == shapes(b),
        frame.process matches JpegProcess::Lossless { predictor } && sa == Seq::new(
            unit_count(frame, a, 1) as nat,
            |k: int| lossless_symbol(frame, a, predictor, k),
        ) && sb == Seq::new(unit_count(frame, b, 1) as nat, |k: int| lossless_symbol(frame, b, predictor, k)),
        tables_fit(a, t.dc),
        0 <= n <= sa.len(),
        begins(sa, t, n, all),
        begins(sb, t, n, all),
    ensures
        sa.len() == sb.len(),
        forall|k: int| 0 <= k < n ==> #[trigger] sa[k] == sb[k],
    decreases n,
{
    lemma_same_unit(frame, a, b, 1, 0);
    lemma_frame(frame, a, 1);
    if n > 0 {
        let k = n - 1;
        lemma_begins(sa, t, k, n, all);
        lemma_begins(sb, t, k, n, all);
        lemma_lossless_symbols(frame, a, b, t, sa, sb, k, all);
        lemma_same_unit(frame, a, b, 1, k);
        let u = unit_at(frame, a, 1, k);
        let ca = a[u.0];
        let cb = b[u.0];
        assert(ca.huff_id == cb.huff_id);
        let predictor = frame.process->Lossless_predictor;
        lemma_difference_alike(
            ca.huff_id,
            wrapped(sample_of(ca, u.1, u.2) - predicted(frame, ca, predictor, u.1, u.2)),
            wrapped(sample_of(cb, u.1, u.2) - predicted(frame, cb, predictor, u.1, u.2)),
        );
        assert(sa[k] == lossless_symbol(frame, a, predictor, k));
        assert(sb[k] == lossless_symbol(frame, b, predictor, k));
        assert(alike(sa[k], sb[k]));
        assert(table_for(sa[k], t) == t.dc[ca.huff_id as int]);
        lemma_next_symbol(sa, sb, t, k, all);
    }
}

/// Which component a data unit belongs to.
proof fn lemma_component_found(cs: Seq<ComponentModel>, r: int, n: int, c: int)
    requires
        0 <= c < n <= cs.len(),
        units_of(cs, c) <= r < units_of(cs, c + 1),
    ensures
        component_of(cs, r, n) == c,
    decreases n,
{
    if c < n - 1 {
        lemma_units_mono(cs, c + 1, n - 1);
        lemma_component_found(cs, r, n - 1, c);
    }
}

/// A number made of a quotient and a remainder has these.
pub proof fn lemma_packed(q: int, d: int, r: int)
    requires
        0 <= r < d,
    ensures
        (q * d + r) / d == q,
        (q * d + r) % d == r,
{
    vstd::arithmetic::div_mod::lemma_fundamental_div_mod_converse(q * d + r, d, q, r);
}

/// Where a data unit is coded that stands at column `x` and row `y` of a component.
pub open spec fn place_of(frame: JpegFrame, cs: Seq<ComponentModel>, unit: int, c: int, x: int, y: int) -> int {
    let h = cs[c].h as int;
    let v = cs[c].v as int;
    let m = y / v * mcus_across(frame, cs, unit) + x / h;
    let r = units_of(cs, c) + (y % v * h + x % h);
    m * units_of(cs, cs.len() as int) + r
}

/// Every data unit within the coding units is coded.
pub proof fn lemma_unit_coded(frame: JpegFrame, cs: Seq<ComponentModel>, unit: int, c: int, x: int, y: int)
    requires
        frame_ok(frame, cs),
        unit == 1 || unit == 8,
        0 <= c < cs.len(),
        0 <= x,
        0 <= y,
        x / (cs[c].h as int) < mcus_across(frame, cs, unit),
        y / (cs[c].v as int) < mcus_down(frame, cs, unit),
    ensures
        0 <= place_of(frame, cs, unit, c, x, y) < unit_count(frame, cs, unit),
        unit_at(frame, cs, unit, place_of(frame, cs, unit, c, x, y)) == (c, x, y),
{
    let n = cs.len() as int;
    assert(component_ok(frame, cs[c], h_max(cs, n), v_max(cs, n)));
    lemma_frame(frame, cs, unit);
    let h = cs[c].h as int;
    let v = cs[c].v as int;
    let across = mcus_across(frame, cs, unit);
    let down = mcus_down(frame, cs, unit);
    let per = units_of(cs, n);
    let (xq, xr, yq, yr) = (x / h, x % h, y / v, y % v);
    let m = yq * across + xq;
    let i = yr * h + xr;
    let r = units_of(cs, c) + i;
    let k = place_of(frame, cs, unit, c, x, y);
    vstd::arithmetic::div_mod::lemma_fundamental_div_mod(x, h);
    vstd::arithmetic::div_mod::lemma_fundamental_div_mod(y, v);
    vstd::arithmetic::div_mod::lemma_mod_bound(x, h);
    vstd::arithmetic::div_mod::lemma_mod_bound(y, v);
    assert(0 <= xq && 0 <= yq) by {
        vstd::arithmetic::div_mod::lemma_div_pos_is_pos(x, h);
        vstd::arithmetic::div_mod::lemma_div_pos_is_pos(y, v);
    }
    assert(0 <= i < h * v) by (nonlinear_arith)
        requires
            i == yr * h + xr,
            0 <= xr < h,
            0 <= yr < v,
    ;
    reveal_with_fuel(units_of, 2);
    lemma_units_mono(cs, 0, c);
    lemma_units_mono(cs, c + 1, n);
    assert(units_of(cs, c) <= r < units_of(cs, c + 1));
    lemma_component_found(cs, r, n, c);
    lemma_packed(m, per, r);
    lemma_packed(yq, across, xq);
    lemma_packed(yr, h, xr);
    assert(0 <= m < across * down) by (nonlinear_arith)
        requires
            m == yq * across + xq,
            0 <= xq < across,
            0 <= yq < down,
    ;
    assert(0 <= k < across * down * per) by (nonlinear_arith)
        requires
            k == m * per + r,
            0 <= r < per,
            0 <= m < across * down,
    ;
    assert(xq * h + xr == x && yq * v + yr == y) by (nonlinear_arith)
        requires
            x == h * xq + xr,
            y == v * yq + yr,
    ;
}

/// A sample of a component lies within the coding units.
pub proof fn lemma_sample_within(len: int, factor: int, most: int, x: int)
    requires
        0 < len,
        0 < factor,
        0 < most,
        0 <= x < ceil_div(len * factor, most),
    ensures
        x / factor < ceil_div(len, most),
{
    let q = x / factor;
    vstd::arithmetic::div_mod::lemma_fundamental_div_mod(x, factor);
    vstd::arithmetic::div_mod::lemma_mod_bound(x, factor);
    let c = ceil_div(len * factor, most);
    let n = len * factor + most - 1;
    vstd::arithmetic::div_mod::lemma_fundamental_div_mod(n, most);
    vstd::arithmetic::div_mod::lemma_mod_bound(n, most);
    assert(x * most < len * factor) by (nonlinear_arith)
        requires
            n == most * c + n % most,
            0 <= n % most,
            n == len * factor + most - 1,
            x + 1 <= c,
            0 < most,
    ;
    assert(q * most < len) by (nonlinear_arith)
        requires
            x * most < len * factor,
            factor * q <= x,
            0 < factor,
            0 < most,
    ;
    let e = ceil_div(len, most);
    let k = len + most - 1;
    vstd::arithmetic::div_mod::lemma_fundamental_div_mod(k, most);
    vstd::arithmetic::div_mod::lemma_mod_bound(k, most);
    assert(q < e) by (nonlinear_arith)
        requires
            k == most * e + k % most,
            k % most < most,
            k == len + most - 1,
            q * most < len,
            0 < most,
    ;
}

/// Frames of one shape whose symbols are the same have the same samples.
proof fn lemma_same_sample(
    frame: JpegFrame,
    a: Seq<ComponentModel>,
    b: Seq<ComponentModel>,
    predictor: u8,
    c: int,
    x: int,
    y: int,
)
    requires
        frame_ok(frame, a),
        frame_ok(frame, b),
        shapes(a) == shapes(b),
        frame.process == (JpegProcess::Lossless { predictor }),
        forall|k: int|
            0 <= k < unit_count(frame, a, 1) ==> #[trigger] lossless_symbol(frame, a, predictor, k) == lossless_symbol(
                frame,
                b,
                predictor,
                k,
            ),
        0 <= c < a.len(),
        0 <= x < a[c].width,
        0 <= y < a[c].height,
    ensures
        sample_of(a[c], x, y) == sample_of(b[c], x, y),
    decreases y, x,
{
    let n = a.len() as int;
    let ca = a[c];
    let cb = b[c];
    if x > 0 {
        lemma_same_sample(frame, a, b, predictor, c, x - 1, y);
    }
    if y > 0 {
        lemma_same_sample(frame, a, b, predictor, c, x, y - 1);
        if x > 0 {
            lemma_same_sample(frame, a, b, predictor, c, x - 1, y - 1);
        }
    }
    let p = predicted(frame, ca, predictor, x, y);
    assert(p == predicted(frame, cb, predictor, x, y));
    assert(component_ok(frame, ca, h_max(a, n), v_max(a, n)));
    lemma_frame(frame, a, 1);
    lemma_sample_within(frame.width as int, ca.h as int, h_max(a, n), x);
    lemma_sample_within(frame.height as int, ca.v as int, v_max(a, n), y);
    lemma_unit_coded(frame, a, 1, c, x, y);
    let k = place_of(frame, a, 1, c, x, y);
    lemma_same_unit(frame, a, b, 1, k);
    assert(lossless_symbol(frame, a, predictor, k) == lossless_symbol(frame, b, predictor, k));
    law_lossless_sample(ca.huff_id, sample_of(ca, x, y), p);
    law_lossless_sample(ca.huff_id, sample_of(cb, x, y), p);
}

/// The stream of a lossless frame determines its samples: frames of one shape with
/// the same stream are the same. No code word of their tables may begin with
/// another.
pub proof fn law_lossless_exact(
    frame: JpegFrame,
    a: Seq<ComponentModel>,
    b: Seq<ComponentModel>,
    t: TablesModel,
    emit_tables: bool,
    blocks_a: Seq<[i16; 64]>,
    blocks_b: Seq<[i16; 64]>,
)
    requires
        frame.process is Lossless,
        shapes(a) == shapes(b),
        tables_fit(a, t.dc),
        frame_stream(frame, a, t, emit_tables, blocks_a) is Some,
        frame_stream(frame, a, t, emit_tables, blocks_a) == frame_stream(frame, b, t, emit_tables, blocks_b),
    ensures
        a == b,
{
    let predictor = frame.process->Lossless_predictor;
    let all = lemma_stream_bits(frame, a, b, t, emit_tables, blocks_a, blocks_b);
    let sa = scan_symbols(frame, a, blocks_a);
    let sb = scan_symbols(frame, b, blocks_b);
    lemma_same_unit(frame, a, b, 1, 0);
    lemma_frame(frame, a, 1);
    lemma_lossless_symbols(frame, a, b, t, sa, sb, sa.len() as int, all);
    assert forall|k: int| 0 <= k < unit_count(frame, a, 1) implies #[trigger] lossless_symbol(frame, a, predictor, k)
        == lossless_symbol(frame, b, predictor, k) by {
        assert(sa[k] == sb[k]);
    }
    assert forall|c: int| 0 <= c < a.len() implies a[c] == b[c] by {
        let ca = a[c];
        let cb = b[c];
        assert(shapes(a)[c] == shape(ca) && shapes(b)[c] == shape(cb));
        assert(component_ok(frame, ca, h_max(a, a.len() as int), v_max(a, a.len() as int)));
        assert(component_ok(frame, cb, h_max(b, b.len() as int), v_max(b, b.len() as int)));
        let w = ca.width as int;
        let h = ca.height as int;
        assert forall|i: int| 0 <= i < ca.samples.len() implies #[trigger] ca.samples[i] == cb.samples[i] by {
            vstd::arithmetic::div_mod::lemma_fundamental_div_mod(i, w);
            vstd::arithmetic::div_mod::lemma_mod_bound(i, w);
            let (x, y) = (i % w, i / w);
            assert(0 <= y < h && y * w + x == i) by (nonlinear_arith)
                requires
                    0 <= i < w * h,
                    i == w * y + x,
                    0 <= x < w,
            ;
            lemma_same_sample(frame, a, b, predictor, c, x, y);
        }
        assert(ca.samples =~= cb.samples);
    }
    assert(a =~= b);
}

// ----------------------------------------------------------------------
// Transformed frames
// ----------------------------------------------------------------------

/// How many coefficients of a block, `from` to begin with, are known after the
/// first `n` symbols.
spec fn reached(s: Seq<CodedSymbol>, from: int, n: int) -> int
    decreases n,
{
    if n <= 0 {
        from
    } else if s[n - 1].symbol == 0 {
        64
    } else {
        reached(s, from, n - 1) + s[n - 1].symbol as int / 16 + 1
    }
}

/// Symbols make a block known, the last one of them and none before.
spec fn complete(s: Seq<CodedSymbol>, from: int) -> bool {
    &&& reached(s, from, s.len() as int) == 64
    &&& forall|n: int| 0 <= n < s.len() ==> #[trigger] reached(s, from, n) < 64
}

/// The same symbols make the same known.
proof fn lemma_reached_same(a: Seq<CodedSymbol>, b: Seq<CodedSymbol>, from: int, n: int)
    requires
        forall|i: int| 0 <= i < n ==> #[trigger] a[i] == b[i],
    ensures
        reached(a, from, n) == reached(b, from, n),
    decreases n,
{
    if n > 0 {
        lemma_reached_same(a, b, from, n - 1);
        assert(a[n - 1] == b[n - 1]);
    }
}

/// Symbols after others go on where these stopped.
proof fn lemma_reached_on(a: Seq<CodedSymbol>, b: Seq<CodedSymbol>, from: int, n: int)
    requires
        0 <= n <= b.len(),
    ensures
        reached(a + b, from, a.len() + n) == reached(b, reached(a, from, a.len() as int), n),
    decreases n,
{
    if n == 0 {
        lemma_reached_same(a + b, a, from, a.len() as int);
    } else {
        lemma_reached_on(a, b, from, n - 1);
        assert((a + b)[a.len() + n - 1] == b[n - 1]);
    }
}

/// Symbols that go on where others stopped make a block known with them.
proof fn lemma_complete_on(a: Seq<CodedSymbol>, b: Seq<CodedSymbol>, from: int)
    requires
        complete(b, reached(a, from, a.len() as int)),
        forall|n: int| 0 <= n < a.len() ==> #[trigger] reached(a, from, n) < 64,
    ensures
        complete(a + b, from),
{
    let s = a + b;
    lemma_reached_on(a, b, from, b.len() as int);
    assert forall|n: int| 0 <= n < s.len() implies #[trigger] reached(s, from, n) < 64 by {
        if n < a.len() {
            lemma_reached_same(s, a, from, n);
            assert(reached(a, from, n) < 64);
        } else {
            lemma_reached_on(a, b, from, n - a.len());
            assert(reached(b, reached(a, from, a.len() as int), n - a.len()) < 64);
        }
    }
}

/// Symbols for 16 zeros.
spec fn zero_runs(n: nat, table: u8) -> Seq<CodedSymbol> {
    Seq::new(n, |i: int| plain_symbol(true, table, 0xF0))
}

proof fn lemma_zeros_reached(n: nat, table: u8, from: int, m: int)
    requires
        0 <= m <= n,
    ensures
        reached(zero_runs(n, table), from, m) == from + 16 * m,
    decreases m,
{
    if m > 0 {
        lemma_zeros_reached(n, table, from, m - 1);
        assert(zero_runs(n, table)[m - 1].symbol == 0xF0);
    }
}

/// The symbols of coefficients make a block known.
proof fn lemma_ac_complete(q: Seq<i16>, table: u8, k: int, run: int)
    requires
        q.len() == 64,
        block_ok(q),
        1 <= k <= 64,
        0 <= run < k,
    ensures
        complete(ac_symbols(q, table, k, run), k - run),
    decreases 64 - k,
{
    let s = ac_symbols(q, table, k, run);
    let from = k - run;
    if k == 64 {
        if run > 0 {
            assert(s[0].symbol == 0);
            assert(reached(s, from, 1) == 64);
        }
    } else {
        law_zigzag_permutes();
        assert(ZIGZAG[NATURAL[k] as int] == k);
        let coef = q[NATURAL[k] as int] as int;
        if coef == 0 {
            lemma_ac_complete(q, table, k + 1, run + 1);
        } else {
            let n = (run / 16) as nat;
            let head = zero_runs(n, table);
            let last = amplitude_symbol(true, table, run % 16, coef);
            let rest = ac_symbols(q, table, k + 1, 0);
            lemma_ac_complete(q, table, k + 1, 0);
            lemma_symbol_read(true, table, run % 16, coef);
            lemma_zeros_reached(n, table, from, n as int);
            let first = head + seq![last];
            lemma_reached_on(head, seq![last], from, 1);
            assert(reached(seq![last], from + 16 * n, 1) == k + 1) by {
                assert(seq![last][0] == last);
                assert(last.symbol != 0);
                assert(reached(seq![last], from + 16 * n, 0) == from + 16 * n);
            }
            assert forall|m: int| 0 <= m < first.len() implies #[trigger] reached(first, from, m) < 64 by {
                lemma_reached_same(first, head, from, m);
                lemma_zeros_reached(n, table, from, m);
            }
            lemma_complete_on(first, rest, from);
            assert(s =~= first + rest);
        }
    }
}

/// A symbol for coefficients says how many bits follow it.
spec fn ac_width(s: CodedSymbol, table: u8) -> bool {
    &&& s.ac
    &&& s.table == table
    &&& s.extra_bits == s.symbol % 16
    &&& s.extra < pow2(s.extra_bits as nat)
}

proof fn lemma_amplitude_width(table: u8, run: int, v: int)
    requires
        0 <= run < 16,
        -32768 < v < 32768,
    ensures
        ac_width(amplitude_symbol(true, table, run, v), table),
{
    let n = bit_length(magnitude(v));
    lemma2_to64();
    lemma_bit_length_bound(magnitude(v), 15);
    law_amplitude(v);
    lemma_pow2_bound(n, 15);
    assert((16 * run + n) % 16 == n);
}

proof fn lemma_ac_widths(q: Seq<i16>, table: u8, k: int, run: int)
    requires
        q.len() == 64,
        block_ok(q),
        1 <= k <= 64,
        0 <= run,
    ensures
        forall|i: int| 0 <= i < ac_symbols(q, table, k, run).len() ==> ac_width(#[trigger] ac_symbols(q, table, k, run)[i], table),
    decreases 64 - k,
{
    let s = ac_symbols(q, table, k, run);
    lemma2_to64();
    if k == 64 {
        assert(ac_width(plain_symbol(true, table, 0), table));
    } else {
        law_zigzag_permutes();
        assert(ZIGZAG[NATURAL[k] as int] == k);
        let coef = q[NATURAL[k] as int] as int;
        if coef == 0 {
            lemma_ac_widths(q, table, k + 1, run + 1);
            assert(s == ac_symbols(q, table, k + 1, run + 1));
        } else {
            lemma_ac_widths(q, table, k + 1, 0);
            lemma_amplitude_width(table, run % 16, coef);
            let head = zero_runs((run / 16) as nat, table);
            let last = amplitude_symbol(true, table, run % 16, coef);
            let rest = ac_symbols(q, table, k + 1, 0);
            assert(s =~= head + seq![last] + rest);
            assert forall|i: int| 0 <= i < s.len() implies ac_width(#[trigger] s[i], table) by {
                if i < head.len() {
                    assert(s[i] == head[i]);
                } else if i == head.len() {
                    assert(s[i] == last);
                } else {
                    assert(s[i] == rest[i - head.len() - 1]);
                }
            }
        }
    }
}

/// Symbols of two blocks that follow the same one could stand at the same place.
proof fn lemma_block_alike(qa: Seq<i16>, qb: Seq<i16>, before: int, table: u8, j: int)
    requires
        qa.len() == 64,
        qb.len() == 64,
        block_ok(qa),
        block_ok(qb),
        -32768 <= before < 32768,
        0 <= j < block_symbols(qa, before, table).len(),
        j < block_symbols(qb, before, table).len(),
    ensures
        alike(block_symbols(qa, before, table)[j], block_symbols(qb, before, table)[j]),
        block_symbols(qa, before, table)[j].table == table,
        block_symbols(qa, before, table)[j].ac == (j > 0),
{
    let la = block_symbols(qa, before, table);
    let lb = block_symbols(qb, before, table);
    if j == 0 {
        lemma_average_width(table, qa[0] - before);
        lemma_average_width(table, qb[0] - before);
    } else {
        lemma_ac_widths(qa, table, 1, 0);
        lemma_ac_widths(qb, table, 1, 0);
        assert(la[j] == ac_symbols(qa, table, 1, 0)[j - 1]);
        assert(lb[j] == ac_symbols(qb, table, 1, 0)[j - 1]);
    }
}

proof fn lemma_average_width(table: u8, d: int)
    requires
        -65536 < d < 65536,
    ensures
        ({
            let s = amplitude_symbol(false, table, 0, d);
            s.extra_bits == s.symbol && s.extra < pow2(s.extra_bits as nat)
        }),
{
    let n = bit_length(magnitude(d));
    lemma2_to64();
    lemma_bit_length_bound(magnitude(d), 16);
    law_amplitude(d);
    lemma_pow2_bound(n, 16);
}

/// A scan goes on with some symbols after its first `p`.
spec fn goes_on(s: Seq<CodedSymbol>, p: int, part: Seq<CodedSymbol>) -> bool {
    &&& p + part.len() <= s.len()
    &&& forall|j: int| 0 <= j < part.len() ==> s[p + j] == #[trigger] part[j]
}

/// Two blocks after the same symbols, which begin the same bits, have their first
/// `n` symbols in common.
proof fn lemma_block_symbols(
    sa: Seq<CodedSymbol>,
    sb: Seq<CodedSymbol>,
    t: TablesModel,
    all: Seq<bool>,
    p: int,
    qa: Seq<i16>,
    qb: Seq<i16>,
    before: int,
    table: u8,
    n: int,
)
    requires
        qa.len() == 64,
        qb.len() == 64,
        block_ok(qa),
        block_ok(qb),
        -32768 <= before < 32768,
        0 <= p,
        forall|k: int| 0 <= k < p ==> #[trigger] sa[k] == sb[k],
        goes_on(sa, p, block_symbols(qa, before, table)),
        goes_on(sb, p, block_symbols(qb, before, table)),
        begins(sa, t, sa.len() as int, all),
        begins(sb, t, sb.len() as int, all),
        t.dc[table as int] matches Some(h) && table_fits(h),
        t.ac[table as int] matches Some(h) && table_fits(h),
        0 <= n <= block_symbols(qa, before, table).len(),
        n <= block_symbols(qb, before, table).len(),
    ensures
        forall|k: int| 0 <= k < p + n ==> #[trigger] sa[k] == sb[k],
    decreases n,
{
    let la = block_symbols(qa, before, table);
    let lb = block_symbols(qb, before, table);
    if n > 0 {
        lemma_block_symbols(sa, sb, t, all, p, qa, qb, before, table, n - 1);
        lemma_block_alike(qa, qb, before, table, n - 1);
        let k = p + n - 1;
        assert(sa[k] == la[n - 1]);
        assert(sb[k] == lb[n - 1]);
        lemma_begins(sa, t, k + 1, sa.len() as int, all);
        lemma_begins(sb, t, k + 1, sb.len() as int, all);
        lemma_next_symbol(sa, sb, t, k, all);
    }
}

/// Blocks with the same symbols have the same coefficients.
proof fn lemma_symbols_block(qa: Seq<i16>, qb: Seq<i16>, before: int, table: u8)
    requires
        qa.len() == 64,
        qb.len() == 64,
        block_ok(qa),
        block_ok(qb),
        -32768 <= before < 32768,
        block_symbols(qa, before, table) == block_symbols(qb, before, table),
    ensures
        qa == qb,
{
    law_block_read(qa, before, table);
    law_block_read(qb, before, table);
    law_zigzag_permutes();
    assert forall|i: int| 0 <= i < 64 implies #[trigger] qa[i] == qb[i] by {
        if i > 0 {
            let k = ZIGZAG[i] as int;
            assert(NATURAL[k] == i);
            assert(NATURAL[0] == 0);
            assert(k >= 1);
            assert(coefs_of(qa, 1)[k - 1] == qa[i]);
            assert(coefs_of(qb, 1)[k - 1] == qb[i]);
        }
    }
    assert(qa =~= qb);
}

/// Two blocks after the same symbols, which begin the same bits, are the same.
proof fn lemma_same_block(
    sa: Seq<CodedSymbol>,
    sb: Seq<CodedSymbol>,
    t: TablesModel,
    all: Seq<bool>,
    p: int,
    qa: Seq<i16>,
    qb: Seq<i16>,
    before: int,
    table: u8,
)
    requires
        qa.len() == 64,
        qb.len() == 64,
        block_ok(qa),
        block_ok(qb),
        -32768 <= before < 32768,
        0 <= p,
        forall|k: int| 0 <= k < p ==> #[trigger] sa[k] == sb[k],
        goes_on(sa, p, block_symbols(qa, before, table)),
        goes_on(sb, p, block_symbols(qb, before, table)),
        begins(sa, t, sa.len() as int, all),
        begins(sb, t, sb.len() as int, all),
        t.dc[table as int] matches Some(h) && table_fits(h),
        t.ac[table as int] matches Some(h) && table_fits(h),
    ensures
        qa == qb,
{
    let la = block_symbols(qa, before, table);
    let lb = block_symbols(qb, before, table);
    let n = if la.len() < lb.len() { la.len() as int } else { lb.len() as int };
    lemma_block_symbols(sa, sb, t, all, p, qa, qb, before, table, n);
    assert forall|j: int| 0 <= j < n implies #[trigger] la[j] == lb[j] by {
        assert(sa[p + j] == la[j]);
        assert(sb[p + j] == lb[j]);
    }
    let a = ac_symbols(qa, table, 1, 0);
    let b = ac_symbols(qb, table, 1, 0);
    lemma_ac_complete(qa, table, 1, 0);
    lemma_ac_complete(qb, table, 1, 0);
    assert forall|i: int| 0 <= i < n - 1 implies #[trigger] a[i] == b[i] by {
        assert(la[i + 1] == a[i]);
        assert(lb[i + 1] == b[i]);
    }
    lemma_reached_same(a, b, 1, n - 1);
    if la.len() < lb.len() {
        assert(reached(b, 1, n - 1) < 64);
    } else if lb.len() < la.len() {
        assert(reached(a, 1, n - 1) < 64);
    }
    assert(la =~= lb);
    lemma_symbols_block(qa, qb, before, table);
}

/// The symbols of the first blocks begin those of all.
proof fn lemma_dct_begin(frame: JpegFrame, cs: Seq<ComponentModel>, blocks: Seq<[i16; 64]>, m: int, n: int)
    requires
        0 <= m <= n,
    ensures
        dct_symbols(frame, cs, blocks, m).is_prefix_of(dct_symbols(frame, cs, blocks, n)),
    decreases n,
{
    if m < n {
        lemma_dct_begin(frame, cs, blocks, m, n - 1);
        let a = dct_symbols(frame, cs, blocks, n - 1);
        let b = dct_symbols(frame, cs, blocks, n);
        let p = dct_symbols(frame, cs, blocks, m);
        assert(a =~= b.take(a.len() as int));
        assert(p =~= b.take(p.len() as int));
    }
}

/// What the average of a block is compared with depends on the blocks before.
proof fn lemma_same_average(
    frame: JpegFrame,
    a: Seq<ComponentModel>,
    b: Seq<ComponentModel>,
    blocks_a: Seq<[i16; 64]>,
    blocks_b: Seq<[i16; 64]>,
    n: int,
    c: int,
)
    requires
        frame_ok(frame, a),
        frame_ok(frame, b),
        shapes(a) == shapes(b),
        forall|k: int| 0 <= k < n ==> (#[trigger] blocks_a[k])@ == blocks_b[k]@,
    ensures
        average_before(frame, a, blocks_a, n, c) == average_before(frame, b, blocks_b, n, c),
    decreases n,
{
    if n > 0 {
        lemma_same_unit(frame, a, b, 8, n - 1);
        lemma_same_average(frame, a, b, blocks_a, blocks_b, n - 1, c);
        assert(blocks_a[n - 1]@ == blocks_b[n - 1]@);
    }
}

/// The first `n` blocks of frames of one shape that begin the same bits are the
/// same, and so are their symbols.
proof fn lemma_same_blocks(
    frame: JpegFrame,
    a: Seq<ComponentModel>,
    b: Seq<ComponentModel>,
    t: TablesModel,
    blocks_a: Seq<[i16; 64]>,
    blocks_b: Seq<[i16; 64]>,
    all: Seq<bool>,
    n: int,
)
    requires
        frame.process is Dct,
        frame_ok(frame, a),
        frame_ok(frame, b),
        shapes(a) == shapes(b),
        blocks_ok(frame, a, blocks_a),
        blocks_ok(frame, b, blocks_b),
        tables_fit(a, t.dc),
        tables_fit(a, t.ac),
        begins(
            dct_symbols(frame, a, blocks_a, blocks_a.len() as int),
            t,
            dct_symbols(frame, a, blocks_a, blocks_a.len() as int).len() as int,
            all,
        ),
        begins(
            dct_symbols(frame, b, blocks_b, blocks_b.len() as int),
            t,
            dct_symbols(frame, b, blocks_b, blocks_b.len() as int).len() as int,
            all,
        ),
        0 <= n <= blocks_a.len(),
        blocks_a.len() == blocks_b.len(),
    ensures
        forall|k: int| 0 <= k < n ==> (#[trigger] blocks_a[k])@ == blocks_b[k]@,
        dct_symbols(frame, a, blocks_a, n) == dct_symbols(frame, b, blocks_b, n),
    decreases n,
{
    if n > 0 {
        let m = n - 1;
        let last = blocks_a.len() as int;
        lemma_same_blocks(frame, a, b, t, blocks_a, blocks_b, all, m);
        lemma_same_unit(frame, a, b, 8, m);
        let c = unit_at(frame, a, 8, m).0;
        let before = average_before(frame, a, blocks_a, m, c);
        lemma_same_average(frame, a, b, blocks_a, blocks_b, m, c);
        lemma_average_range(frame, a, blocks_a, m, c);
        let table = a[c].huff_id;
        assert(b[c].huff_id == table);
        let qa = blocks_a[m]@;
        let qb = blocks_b[m]@;
        assert(block_ok(qa) && block_ok(qb));
        let sa = dct_symbols(frame, a, blocks_a, last);
        let sb = dct_symbols(frame, b, blocks_b, last);
        let pa = dct_symbols(frame, a, blocks_a, m);
        let la = block_symbols(qa, before, table);
        let lb = block_symbols(qb, before, table);
        let p = pa.len() as int;
        lemma_dct_begin(frame, a, blocks_a, n, last);
        lemma_dct_begin(frame, b, blocks_b, n, last);
        assert(dct_symbols(frame, a, blocks_a, n) == pa + la);
        assert(dct_symbols(frame, b, blocks_b, n) == pa + lb);
        lemma_prefix_parts(sa, pa, la);
        lemma_prefix_parts(sb, pa, lb);
        assert forall|k: int| 0 <= k < p implies #[trigger] sa[k] == sb[k] by {
            assert(sa[k] == pa[k]);
            assert(sb[k] == pa[k]);
        }
        assert(a[c].huff_id == table);
        lemma_same_block(sa, sb, t, all, p, qa, qb, before, table);
        assert forall|k: int| 0 <= k < n implies (#[trigger] blocks_a[k])@ == blocks_b[k]@ by {
            if k < m {
                assert(blocks_a[k]@ == blocks_b[k]@);
            }
        }
    }
}

/// Symbols that begin with two parts.
proof fn lemma_prefix_parts(s: Seq<CodedSymbol>, a: Seq<CodedSymbol>, b: Seq<CodedSymbol>)
    requires
        (a + b).is_prefix_of(s),
    ensures
        goes_on(s, a.len() as int, b),
        forall|k: int| 0 <= k < a.len() ==> #[trigger] s[k] == a[k],
{
    assert forall|k: int| 0 <= k < a.len() implies #[trigger] s[k] == a[k] by {
        assert((a + b)[k] == s[k]);
    }
    assert forall|j: int| 0 <= j < b.len() implies s[a.len() + j] == #[trigger] b[j] by {
        assert((a + b)[a.len() + j] == s[a.len() + j]);
    }
}

/// The stream of a transformed frame determines its coefficients: frames of one
/// shape with the same stream have the same blocks. No code word of their tables
/// may begin with another.
pub proof fn law_dct_exact(
    frame: JpegFrame,
    a: Seq<ComponentModel>,
    b: Seq<ComponentModel>,
    t: TablesModel,
    emit_tables: bool,
    blocks_a: Seq<[i16; 64]>,
    blocks_b: Seq<[i16; 64]>,
)
    requires
        frame.process is Dct,
        shapes(a) == shapes(b),
        tables_fit(a, t.dc),
        tables_fit(a, t.ac),
        frame_stream(frame, a, t, emit_tables, blocks_a) is Some,
        frame_stream(frame, a, t, emit_tables, blocks_a) == frame_stream(frame, b, t, emit_tables, blocks_b),
    ensures
        blocks_a.len() == blocks_b.len(),
        forall|k: int| 0 <= k < blocks_a.len() ==> (#[trigger] blocks_a[k])@ == blocks_b[k]@,
{
    let all = lemma_stream_bits(frame, a, b, t, emit_tables, blocks_a, blocks_b);
    lemma_same_unit(frame, a, b, 8, 0);
    lemma_same_blocks(frame, a, b, t, blocks_a, blocks_b, all, blocks_a.len() as int);
}

// ----------------------------------------------------------------------
// Frames with the usual tables
// ----------------------------------------------------------------------

/// The Huffman tables at a place are usual ones.
pub open spec fn usual_at(t: TablesModel, i: int) -> bool {
    match (t.dc[i], t.ac[i]) {
        (Some(d), Some(a)) => usual_dc(d) && usual_ac(a),
        _ => false,
    }
}

/// Coefficients are no greater than those of 8-bit samples.
pub open spec fn small_block(q: Seq<i16>) -> bool {
    -1024 <= q[0] < 1024 && forall|i: int| 1 <= i < 64 ==> -1024 < #[trigger] q[i] < 1024
}

/// A symbol that frames of 8-bit samples have.
spec fn small_symbol(s: CodedSymbol) -> bool {
    if s.ac { frequency_symbol(s.symbol as int) } else { s.symbol <= 11 }
}

/// The symbols of small coefficients.
proof fn lemma_ac_small(q: Seq<i16>, table: u8, k: int, run: int)
    requires
        q.len() == 64,
        small_block(q),
        1 <= k <= 64,
        0 <= run,
    ensures
        forall|i: int| 0 <= i < ac_symbols(q, table, k, run).len() ==> small_symbol(#[trigger] ac_symbols(q, table, k, run)[i]),
    decreases 64 - k,
{
    let s = ac_symbols(q, table, k, run);
    if k == 64 {
        assert(small_symbol(plain_symbol(true, table, 0)));
    } else {
        law_zigzag_permutes();
        assert(ZIGZAG[NATURAL[k] as int] == k);
        let coef = q[NATURAL[k] as int] as int;
        if coef == 0 {
            lemma_ac_small(q, table, k + 1, run + 1);
            assert(s == ac_symbols(q, table, k + 1, run + 1));
        } else {
            lemma_ac_small(q, table, k + 1, 0);
            lemma_symbol_read(true, table, run % 16, coef);
            lemma2_to64();
            lemma_bit_length_bound(magnitude(coef), 10);
            let head = zero_runs((run / 16) as nat, table);
            let last = amplitude_symbol(true, table, run % 16, coef);
            let rest = ac_symbols(q, table, k + 1, 0);
            let n = bit_length(magnitude(coef)) as int;
            assert((16 * (run % 16) + n) % 16 == n);
            assert(s =~= head + seq![last] + rest);
            assert forall|i: int| 0 <= i < s.len() implies small_symbol(#[trigger] s[i]) by {
                if i < head.len() {
                    assert(s[i] == head[i]);
                } else if i == head.len() {
                    assert(s[i] == last);
                } else {
                    assert(s[i] == rest[i - head.len() - 1]);
                }
            }
        }
    }
}

/// An average that a block is compared with is small.
proof fn lemma_small_average(frame: JpegFrame, cs: Seq<ComponentModel>, blocks: Seq<[i16; 64]>, n: int, c: int)
    requires
        n <= blocks.len(),
        forall|k: int| 0 <= k < blocks.len() ==> small_block(#[trigger] blocks[k]@),
    ensures
        -1024 <= average_before(frame, cs, blocks, n, c) < 1024,
    decreases n,
{
    if n > 0 {
        lemma_small_average(frame, cs, blocks, n - 1, c);
        assert(small_block(blocks[n - 1]@));
    }
}

/// The symbols of blocks of small coefficients.
proof fn lemma_dct_small(frame: JpegFrame, cs: Seq<ComponentModel>, blocks: Seq<[i16; 64]>, n: int)
    requires
        n <= blocks.len(),
        forall|k: int| 0 <= k < blocks.len() ==> small_block(#[trigger] blocks[k]@),
    ensures
        forall|i: int| 0 <= i < dct_symbols(frame, cs, blocks, n).len() ==> small_symbol(#[trigger] dct_symbols(frame, cs, blocks, n)[i]),
    decreases n,
{
    if n > 0 {
        lemma_dct_small(frame, cs, blocks, n - 1);
        let c = unit_at(frame, cs, 8, n - 1).0;
        let q = blocks[n - 1]@;
        let table = cs[c].huff_id;
        let before = average_before(frame, cs, blocks, n - 1, c);
        assert(small_block(q));
        lemma_small_average(frame, cs, blocks, n - 1, c);
        lemma_ac_small(q, table, 1, 0);
        lemma2_to64();
        lemma_bit_length_bound(magnitude(q[0] - before), 11);
        let a = dct_symbols(frame, cs, blocks, n - 1);
        let b = block_symbols(q, before, table);
        let s = dct_symbols(frame, cs, blocks, n);
        assert(s == a + b);
        assert forall|i: int| 0 <= i < s.len() implies small_symbol(#[trigger] s[i]) by {
            if i < a.len() {
                assert(s[i] == a[i]);
            } else if i == a.len() {
                assert(s[i] == b[0]);
            } else {
                assert(s[i] == b[i - a.len()]);
                assert(b[i - a.len()] == ac_symbols(q, table, 1, 0)[i - a.len() - 1]);
            }
        }
    }
}

/// Symbols that all have code words have bits.
proof fn lemma_scan_coded(s: Seq<CodedSymbol>, t: TablesModel, n: int)
    requires
        n <= s.len(),
        forall|i: int| 0 <= i < s.len() ==> symbol_bits(#[trigger] s[i], t) is Some,
    ensures
        scan_bits(s, t, n) is Some,
    decreases n,
{
    if n > 0 {
        lemma_scan_coded(s, t, n - 1);
        assert(symbol_bits(s[n - 1], t) is Some);
    }
}

/// The Huffman tables at a place have a code for every small symbol.
spec fn covering(t: TablesModel, i: int) -> bool {
    match (t.dc[i], t.ac[i]) {
        (Some(d), Some(a)) => {
            &&& table_fits(d)
            &&& table_fits(a)
            &&& forall|v: u8| v <= 11 ==> #[trigger] d.vals.contains(v)
            &&& forall|v: u8| frequency_symbol(v as int) ==> #[trigger] a.vals.contains(v)
        },
        _ => false,
    }
}

/// The usual tables have a code for every small symbol.
proof fn lemma_usual_covers(t: TablesModel, i: int)
    requires
        usual_at(t, i),
    ensures
        covering(t, i),
{
    law_usual_dc(t.dc[i]->Some_0);
    law_usual_ac(t.ac[i]->Some_0);
}

/// Small coefficients have a stream where the tables have codes for small symbols.
proof fn lemma_covered_stream(
    frame: JpegFrame,
    cs: Seq<ComponentModel>,
    t: TablesModel,
    emit_tables: bool,
    blocks: Seq<[i16; 64]>,
)
    requires
        frame.process is Dct,
        scan_ok(frame, cs, t, blocks),
        forall|i: int| 0 <= i < cs.len() ==> covering(t, (#[trigger] cs[i]).huff_id as int),
        forall|k: int| 0 <= k < blocks.len() ==> small_block(#[trigger] blocks[k]@),
    ensures
        frame_stream(frame, cs, t, emit_tables, blocks) is Some,
        tables_fit(cs, t.dc),
        tables_fit(cs, t.ac),
{
    let s = scan_symbols(frame, cs, blocks);
    lemma_scan_tables(frame, cs, blocks);
    lemma_dct_small(frame, cs, blocks, unit_count(frame, cs, 8));
    assert forall|i: int| 0 <= i < s.len() implies symbol_bits(#[trigger] s[i], t) is Some by {
        let x = s[i];
        assert(uses(cs, x.table as int));
        let c = choose|c: int| 0 <= c < cs.len() && (#[trigger] cs[c]).huff_id == x.table;
        assert(covering(t, cs[c].huff_id as int));
        assert(small_symbol(x));
    }
    lemma_scan_coded(s, t, s.len() as int);
    assert(huff_ok(cs, t.dc));
    assert(huff_ok(cs, t.ac));
}

/// Every frame of 8-bit samples whose coefficients are no greater than such samples
/// can have has a stream with the usual tables, and it determines the coefficients.
pub proof fn law_usual_stream(
    frame: JpegFrame,
    cs: Seq<ComponentModel>,
    t: TablesModel,
    emit_tables: bool,
    blocks: Seq<[i16; 64]>,
)
    requires
        frame.process is Dct,
        scan_ok(frame, cs, t, blocks),
        forall|i: int| 0 <= i < cs.len() ==> usual_at(t, (#[trigger] cs[i]).huff_id as int),
        forall|k: int| 0 <= k < blocks.len() ==> small_block(#[trigger] blocks[k]@),
    ensures
        frame_stream(frame, cs, t, emit_tables, blocks) is Some,
        tables_fit(cs, t.dc),
        tables_fit(cs, t.ac),
{
    assert forall|i: int| 0 <= i < cs.len() implies covering(t, (#[trigger] cs[i]).huff_id as int) by {
        lemma_usual_covers(t, cs[i].huff_id as int);
    }
    lemma_covered_stream(frame, cs, t, emit_tables, blocks);
}

} // verus!
