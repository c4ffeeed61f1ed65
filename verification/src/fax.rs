//! What facsimile codes say of the pixels.
use vstd::prelude::*;
use crate::bits::{bits_value, value_bits};
use crate::ccitt::{
    change_after, change_from, changes_at, eol_end, lemma_mode_at_end, lemma_run_at_end, mode_at, mode_bits, one_d_row, other_after,
    pixels, row_start, run_at, stretch_end, two_d_row, word_bits, CcittVariant, TwoDMode,
};
use crate::fax_tables::{
    code_place, fax_table, BLACK, BLACK_FINAL, BLACK_LEADING, WHITE, WHITE_FINAL, WHITE_LEADING,
};

verus! {

/// Words of white runs: bits and number, for runs of 0 to 63, then for 64, 128 and so on.
pub const WHITE_WORDS: [(u32, u32); 104] = [
    (8, 0b00110101),
    (6, 0b000111),
    (4, 0b0111),
    (4, 0b1000),
    (4, 0b1011),
    (4, 0b1100),
    (4, 0b1110),
    (4, 0b1111),
    (5, 0b10011),
    (5, 0b10100),
    (5, 0b00111),
    (5, 0b01000),
    (6, 0b001000),
    (6, 0b000011),
    (6, 0b110100),
    (6, 0b110101),
    (6, 0b101010),
    (6, 0b101011),
    (7, 0b0100111),
    (7, 0b0001100),
    (7, 0b0001000),
    (7, 0b0010111),
    (7, 0b0000011),
    (7, 0b0000100),
    (7, 0b0101000),
    (7, 0b0101011),
    (7, 0b0010011),
    (7, 0b0100100),
    (7, 0b0011000),
    (8, 0b00000010),
    (8, 0b00000011),
    (8, 0b00011010),
    (8, 0b00011011),
    (8, 0b00010010),
    (8, 0b00010011),
    (8, 0b00010100),
    (8, 0b00010101),
    (8, 0b00010110),
    (8, 0b00010111),
    (8, 0b00101000),
    (8, 0b00101001),
    (8, 0b00101010),
    (8, 0b00101011),
    (8, 0b00101100),
    (8, 0b00101101),
    (8, 0b00000100),
    (8, 0b00000101),
    (8, 0b00001010),
    (8, 0b00001011),
    (8, 0b01010010),
    (8, 0b01010011),
    (8, 0b01010100),
    (8, 0b01010101),
    (8, 0b00100100),
    (8, 0b00100101),
    (8, 0b01011000),
    (8, 0b01011001),
    (8, 0b01011010),
    (8, 0b01011011),
    (8, 0b01001010),
    (8, 0b01001011),
    (8, 0b00110010),
    (8, 0b00110011),
    (8, 0b00110100),
    (5, 0b11011),
    (5, 0b10010),
    (6, 0b010111),
    (7, 0b0110111),
    (8, 0b00110110),
    (8, 0b00110111),
    (8, 0b01100100),
    (8, 0b01100101),
    (8, 0b01101000),
    (8, 0b01100111),
    (9, 0b011001100),
    (9, 0b011001101),
    (9, 0b011010010),
    (9, 0b011010011),
    (9, 0b011010100),
    (9, 0b011010101),
    (9, 0b011010110),
    (9, 0b011010111),
    (9, 0b011011000),
    (9, 0b011011001),
    (9, 0b011011010),
    (9, 0b011011011),
    (9, 0b010011000),
    (9, 0b010011001),
    (9, 0b010011010),
    (6, 0b011000),
    (9, 0b010011011),
    (11, 0b00000001000),
    (11, 0b00000001100),
    (11, 0b00000001101),
    (12, 0b000000010010),
    (12, 0b000000010011),
    (12, 0b000000010100),
    (12, 0b000000010101),
    (12, 0b000000010110),
    (12, 0b000000010111),
    (12, 0b000000011100),
    (12, 0b000000011101),
    (12, 0b000000011110),
    (12, 0b000000011111),
];

/// Words of black runs: bits and number, for runs of 0 to 63, then for 64, 128 and so on.
pub const BLACK_WORDS: [(u32, u32); 104] = [
    (10, 0b0000110111),
    (3, 0b010),
    (2, 0b11),
    (2, 0b10),
    (3, 0b011),
    (4, 0b0011),
    (4, 0b0010),
    (5, 0b00011),
    (6, 0b000101),
    (6, 0b000100),
    (7, 0b0000100),
    (7, 0b0000101),
    (7, 0b0000111),
    (8, 0b00000100),
    (8, 0b00000111),
    (9, 0b000011000),
    (10, 0b0000010111),
    (10, 0b0000011000),
    (10, 0b0000001000),
    (11, 0b00001100111),
    (11, 0b00001101000),
    (11, 0b00001101100),
    (11, 0b00000110111),
    (11, 0b00000101000),
    (11, 0b00000010111),
    (11, 0b00000011000),
    (12, 0b000011001010),
    (12, 0b000011001011),
    (12, 0b000011001100),
    (12, 0b000011001101),
    (12, 0b000001101000),
    (12, 0b000001101001),
    (12, 0b000001101010),
    (12, 0b000001101011),
    (12, 0b000011010010),
    (12, 0b000011010011),
    (12, 0b000011010100),
    (12, 0b000011010101),
    (12, 0b000011010110),
    (12, 0b000011010111),
    (12, 0b000001101100),
    (12, 0b000001101101),
    (12, 0b000011011010),
    (12, 0b000011011011),
    (12, 0b000001010100),
    (12, 0b000001010101),
    (12, 0b000001010110),
    (12, 0b000001010111),
    (12, 0b000001100100),
    (12, 0b000001100101),
    (12, 0b000001010010),
    (12, 0b000001010011),
    (12, 0b000000100100),
    (12, 0b000000110111),
    (12, 0b000000111000),
    (12, 0b000000100111),
    (12, 0b000000101000),
    (12, 0b000001011000),
    (12, 0b000001011001),
    (12, 0b000000101011),
    (12, 0b000000101100),
    (12, 0b000001011010),
    (12, 0b000001100110),
    (12, 0b000001100111),
    (10, 0b0000001111),
    (12, 0b000011001000),
    (12, 0b000011001001),
    (12, 0b000001011011),
    (12, 0b000000110011),
    (12, 0b000000110100),
    (12, 0b000000110101),
    (13, 0b0000001101100),
    (13, 0b0000001101101),
    (13, 0b0000001001010),
    (13, 0b0000001001011),
    (13, 0b0000001001100),
    (13, 0b0000001001101),
    (13, 0b0000001110010),
    (13, 0b0000001110011),
    (13, 0b0000001110100),
    (13, 0b0000001110101),
    (13, 0b0000001110110),
    (13, 0b0000001110111),
    (13, 0b0000001010010),
    (13, 0b0000001010011),
    (13, 0b0000001010100),
    (13, 0b0000001010101),
    (13, 0b0000001011010),
    (13, 0b0000001011011),
    (13, 0b0000001100100),
    (13, 0b0000001100101),
    (11, 0b00000001000),
    (11, 0b00000001100),
    (11, 0b00000001101),
    (12, 0b000000010010),
    (12, 0b000000010011),
    (12, 0b000000010100),
    (12, 0b000000010101),
    (12, 0b000000010110),
    (12, 0b000000010111),
    (12, 0b000000011100),
    (12, 0b000000011101),
    (12, 0b000000011110),
    (12, 0b000000011111),
];

/// Each run length has its own word.
pub proof fn law_run_words(white: bool, run: int)
    requires
        0 <= run <= 2560,
    ensures
        run < 64 && white ==> word_bits(white, run, false) == value_bits(
            WHITE_WORDS[run].1 as nat,
            WHITE_WORDS[run].0 as nat,
        ),
        run < 64 && !white ==> word_bits(white, run, false) == value_bits(
            BLACK_WORDS[run].1 as nat,
            BLACK_WORDS[run].0 as nat,
        ),
        run >= 64 && run % 64 == 0 && white ==> word_bits(white, run, true) == value_bits(
            WHITE_WORDS[63 + run / 64].1 as nat,
            WHITE_WORDS[63 + run / 64].0 as nat,
        ),
        run >= 64 && run % 64 == 0 && !white ==> word_bits(white, run, true) == value_bits(
            BLACK_WORDS[63 + run / 64].1 as nat,
            BLACK_WORDS[63 + run / 64].0 as nat,
        ),
{
    reveal(code_place);
    reveal(fax_table);
    if run < 64 {
        if white {
            lemma_white_final(run);
        } else {
            lemma_black_final(run);
        }
    } else if run % 64 == 0 {
        if white {
            lemma_white_leading(run / 64 - 1);
        } else {
            lemma_black_leading(run / 64 - 1);
        }
    }
}

proof fn lemma_white_final(k: int)
    requires
        0 <= k < 64,
    ensures
        ({
            let p = WHITE_FINAL[k] as int;
            &&& 0 <= p < 104
            &&& WHITE@[p].0 == WHITE_WORDS[k].0
            &&& WHITE@[p].1 == WHITE_WORDS[k].1
        }),
{
    assert(WHITE@[WHITE_FINAL[k] as int] == WHITE[WHITE_FINAL[k] as int]);
}

proof fn lemma_white_leading(k: int)
    requires
        0 <= k < 40,
    ensures
        ({
            let p = WHITE_LEADING[k] as int;
            &&& 0 <= p < 104
            &&& WHITE@[p].0 == WHITE_WORDS[k + 64].0
            &&& WHITE@[p].1 == WHITE_WORDS[k + 64].1
        }),
{
    assert(WHITE@[WHITE_LEADING[k] as int] == WHITE[WHITE_LEADING[k] as int]);
}

proof fn lemma_black_final(k: int)
    requires
        0 <= k < 64,
    ensures
        ({
            let p = BLACK_FINAL[k] as int;
            &&& 0 <= p < 104
            &&& BLACK@[p].0 == BLACK_WORDS[k].0
            &&& BLACK@[p].1 == BLACK_WORDS[k].1
        }),
{
    assert(BLACK@[BLACK_FINAL[k] as int] == BLACK[BLACK_FINAL[k] as int]);
}

proof fn lemma_black_leading(k: int)
    requires
        0 <= k < 40,
    ensures
        ({
            let p = BLACK_LEADING[k] as int;
            &&& 0 <= p < 104
            &&& BLACK@[p].0 == BLACK_WORDS[k + 64].0
            &&& BLACK@[p].1 == BLACK_WORDS[k + 64].1
        }),
{
    assert(BLACK@[BLACK_LEADING[k] as int] == BLACK[BLACK_LEADING[k] as int]);
}

/// The bits of `word` stand at `pos`.
pub open spec fn reads(bits: Seq<bool>, pos: int, word: Seq<bool>) -> bool {
    &&& pos + word.len() <= bits.len()
    &&& forall|i: int| 0 <= i < word.len() ==> bits[pos + i] == #[trigger] word[i]
}

/// The words of the modes: 0001 passes, 001 is followed by two runs, 1 ends at a change of
/// the row above, 011, 000011 and 0000011 one, two and three pixels right of it, 010, 000010
/// and 0000010 left of it.
pub open spec fn mode_word_of(m: TwoDMode) -> Seq<bool> {
    let o = false;
    let l = true;
    match m {
        TwoDMode::Pass => seq![o, o, o, l],
        TwoDMode::Horizontal => seq![o, o, l],
        TwoDMode::Vertical(d) => if d == 0 {
            seq![l]
        } else if d == 1 || d == -1 {
            seq![o, l, d > 0]
        } else if d == 2 || d == -2 {
            seq![o, o, o, o, l, d > 0]
        } else {
            seq![o, o, o, o, o, l, d > 0]
        },
        _ => Seq::empty(),
    }
}

/// A mode is read from its word and written as its word.
pub proof fn law_mode_words(bits: Seq<bool>, pos: int, m: TwoDMode)
    requires
        0 <= pos,
        m is Pass || m is Horizontal || (m matches TwoDMode::Vertical(d) && -3 <= d <= 3),
        reads(bits, pos, mode_word_of(m)),
    ensures
        mode_at(bits, pos, 1) == Some((m, pos + mode_word_of(m).len())),
        mode_bits(m) == mode_word_of(m),
{
    let w = mode_word_of(m);
    reveal_with_fuel(bits_value, 8);
    reveal_with_fuel(mode_at, 8);
    assert(forall|i: int| 0 <= i < w.len() ==> bits[pos + i] == #[trigger] w[i]);
    assert(bits[pos + 0] == w[0]);
    if w.len() > 1 {
        assert(bits[pos + 1] == w[1] && bits[pos + 2] == w[2]);
    }
    if w.len() > 3 {
        assert(bits[pos + 3] == w[3]);
    }
    if w.len() > 4 {
        assert(bits[pos + 4] == w[4] && bits[pos + 5] == w[5]);
    }
    if w.len() > 6 {
        assert(bits[pos + 6] == w[6]);
    }
    lemma_written(m);
}

proof fn lemma_written(m: TwoDMode)
    requires
        m is Pass || m is Horizontal || (m matches TwoDMode::Vertical(d) && -3 <= d <= 3),
    ensures
        mode_bits(m) == mode_word_of(m),
{
    reveal(mode_bits);
    lemma_small_words();
    assert(mode_bits(m) =~= mode_word_of(m));
}

proof fn lemma_small_words()
    ensures
        value_bits(1, 1) == seq![true],
        value_bits(1, 3) == seq![false, false, true],
        value_bits(1, 4) == seq![false, false, false, true],
        value_bits(2, 3) == seq![false, true, false],
        value_bits(3, 3) == seq![false, true, true],
        value_bits(2, 6) == seq![false, false, false, false, true, false],
        value_bits(3, 6) == seq![false, false, false, false, true, true],
        value_bits(2, 7) == seq![false, false, false, false, false, true, false],
        value_bits(3, 7) == seq![false, false, false, false, false, true, true],
{
    assert(value_bits(0, 0) =~= seq![]);
    assert(value_bits(0, 1) =~= seq![false]);
    assert(value_bits(0, 2) =~= seq![false, false]);
    assert(value_bits(0, 3) =~= seq![false, false, false]);
    assert(value_bits(0, 4) =~= seq![false, false, false, false]);
    assert(value_bits(0, 5) =~= seq![false, false, false, false, false]);
    assert(value_bits(1, 1) =~= seq![true]);
    assert(value_bits(1, 2) =~= seq![false, true]);
    assert(value_bits(1, 5) =~= seq![false, false, false, false, true]);
    assert(value_bits(1, 6) =~= seq![false, false, false, false, false, true]);
}

/// The change of the row above that modes refer to is the first one to the given colour that
/// is right of the pixel, or at the start of the row.
pub proof fn law_change(row: Seq<bool>, from: int, to_white: bool, width: int)
    requires
        0 <= from < width <= row.len(),
    ensures
        ({
            let c = change_after(row, from, to_white, width);
            let s = if from == 0 { 0 } else { from + 1 };
            &&& s <= c <= width
            &&& c < width ==> row[c] != to_white && (if c == 0 { !to_white } else { row[c - 1] == to_white })
            &&& forall|k: int| s <= k < c && k > 0 && #[trigger] row[k] != to_white ==> row[k - 1] != to_white
            &&& from == 0 && row[0] && !to_white ==> c == 0
        }),
{
    lemma_change(row, if from == 0 { 0 } else { from + 1 }, to_white, width);
}

proof fn lemma_change(row: Seq<bool>, s: int, to_white: bool, width: int)
    requires
        0 <= s <= width <= row.len(),
    ensures
        ({
            let c = change_from(row, s, to_white, width);
            &&& s <= c <= width
            &&& c < width ==> changes_at(row, c, to_white)
            &&& forall|k: int| s <= k < c && k > 0 && #[trigger] row[k] != to_white ==> row[k - 1] != to_white
        }),
    decreases width - s,
{
    if s < width && !changes_at(row, s, to_white) {
        lemma_change(row, s + 1, to_white, width);
    }
}

/// A stretch ends at the first pixel of another colour.
pub proof fn law_stretch(row: Seq<bool>, from: int, width: int)
    requires
        0 <= from < width <= row.len(),
    ensures
        ({
            let e = other_after(row, from, width);
            &&& from < e <= width
            &&& e < width ==> row[e] != row[from]
            &&& forall|k: int| from <= k < e ==> #[trigger] row[k] == row[from]
        }),
{
    lemma_stretch(row, from, from + 1, width);
}

proof fn lemma_stretch(row: Seq<bool>, from: int, i: int, width: int)
    requires
        0 <= from < i <= width <= row.len(),
        forall|k: int| from <= k < i ==> #[trigger] row[k] == row[from],
    ensures
        ({
            let e = stretch_end(row, from, i, width);
            &&& i <= e <= width
            &&& e < width ==> row[e] != row[from]
            &&& forall|k: int| from <= k < e ==> #[trigger] row[k] == row[from]
        }),
    decreases width - i,
{
    if i < width && row[i] == row[from] {
        lemma_stretch(row, from, i + 1, width);
    }
}

/// A row that is read on starts with what was read.
proof fn lemma_one_d_keeps(bits: Seq<bool>, pos: int, width: int, row: Seq<bool>, white: bool)
    ensures
        one_d_row(bits, pos, width, row, white) matches Some(r) ==> row.len() <= r.0.len() && forall|k: int|
            0 <= k < row.len() ==> #[trigger] r.0[k] == row[k],
    decreases bits.len() - pos,
{
    if row.len() < width {
        if let Some((run, end)) = run_at(bits, pos, white, 0) {
            if row.len() + run <= width {
                lemma_run_at_end(bits, pos, white, 0);
                let next = row + pixels(!white, run);
                lemma_one_d_keeps(bits, end, width, next, !white);
                if let Some(r) = one_d_row(bits, end, width, next, !white) {
                    assert forall|k: int| 0 <= k < row.len() implies #[trigger] r.0[k] == row[k] by {
                        assert(r.0[k] == next[k]);
                    }
                }
            }
        }
    }
}

/// Where no pixel was read the next run is white; where a run of a colour is read, its pixels
/// have that colour, and the next run has the other one.
pub proof fn law_one_d(bits: Seq<bool>, pos: int, width: int, row: Seq<bool>, white: bool, k: int)
    requires
        row.len() < width,
        one_d_row(bits, pos, width, row, white) is Some,
    ensures
        ({
            let out = one_d_row(bits, pos, width, row, white).unwrap().0;
            let first = run_at(bits, pos, white, 0);
            let second = run_at(bits, first.unwrap().1, !white, 0);
            let a = row.len() as int;
            let b = a + first.unwrap().0;
            &&& first is Some
            &&& a <= b <= width
            &&& a <= k < b ==> out[k] == !white
            &&& b < width ==> second is Some && (b <= k < b + second.unwrap().0 ==> out[k] == white)
        }),
{
    lemma_run_at_end(bits, pos, white, 0);
    let (run, end) = run_at(bits, pos, white, 0).unwrap();
    let next = row + pixels(!white, run);
    lemma_one_d_keeps(bits, end, width, next, !white);
    let out = one_d_row(bits, pos, width, row, white).unwrap().0;
    if row.len() <= k < next.len() {
        assert(out[k] == next[k]);
    }
    if next.len() < width {
        lemma_run_at_end(bits, end, !white, 0);
        let (run2, end2) = run_at(bits, end, !white, 0).unwrap();
        let third = next + pixels(white, run2);
        lemma_one_d_keeps(bits, end2, width, third, white);
        if next.len() <= k < third.len() {
            assert(out[k] == third[k]);
        }
    }
}

/// A row that is read on starts with what was read.
proof fn lemma_two_d_keeps(bits: Seq<bool>, pos: int, above: Seq<bool>, width: int, row: Seq<bool>, white: bool)
    requires
        width <= above.len(),
    ensures
        two_d_row(bits, pos, above, width, row, white) matches Some(r) ==> row.len() <= r.0.len() && forall|k: int|
            0 <= k < row.len() ==> #[trigger] r.0[k] == row[k],
    decreases bits.len() - pos,
{
    let a0 = row.len() as int;
    if a0 < width {
        lemma_mode_at_end(bits, pos, 1);
        match mode_at(bits, pos, 1) {
            Some((TwoDMode::Pass, end)) => {
                let b2 = other_after(above, change_after(above, a0, !white, width), width);
                let next = row + pixels(!white, b2 - a0);
                lemma_two_d_keeps(bits, end, above, width, next, white);
                lemma_prefix(row, next, two_d_row(bits, end, above, width, next, white));
            },
            Some((TwoDMode::Horizontal, end)) => {
                if let Some((run1, end1)) = run_at(bits, end, white, 0) {
                    if let Some((run2, end2)) = run_at(bits, end1, !white, 0) {
                        if a0 + run1 + run2 <= width {
                            lemma_run_at_end(bits, end, white, 0);
                            lemma_run_at_end(bits, end1, !white, 0);
                            let next = row + pixels(!white, run1) + pixels(white, run2);
                            lemma_two_d_keeps(bits, end2, above, width, next, white);
                            lemma_prefix(row, next, two_d_row(bits, end2, above, width, next, white));
                        }
                    }
                }
            },
            Some((TwoDMode::Vertical(offset), end)) => {
                let a1 = change_after(above, a0, !white, width) + offset;
                if a0 <= a1 <= width {
                    let next = row + pixels(!white, a1 - a0);
                    lemma_two_d_keeps(bits, end, above, width, next, !white);
                    lemma_prefix(row, next, two_d_row(bits, end, above, width, next, !white));
                }
            },
            _ => {},
        }
    }
}

proof fn lemma_prefix(row: Seq<bool>, next: Seq<bool>, r: Option<(Seq<bool>, int)>)
    requires
        row.len() <= next.len(),
        forall|k: int| 0 <= k < row.len() ==> #[trigger] next[k] == row[k],
        r matches Some(x) ==> next.len() <= x.0.len() && forall|k: int| 0 <= k < next.len() ==> #[trigger] x.0[k] == next[k],
    ensures
        r matches Some(x) ==> row.len() <= x.0.len() && forall|k: int| 0 <= k < row.len() ==> #[trigger] x.0[k] == row[k],
{
    if let Some(x) = r {
        assert forall|k: int| 0 <= k < row.len() implies #[trigger] x.0[k] == row[k] by {
            assert(x.0[k] == next[k]);
        }
    }
}

/// In two dimensions: a row starts white; a vertical mode gives pixels of the colour up to the
/// change of the row above to the other colour, moved by its distance, and the colour turns; a
/// pass gives them up to the end of the run above, and the colour stays; two runs give pixels
/// of the colour, then of the other.
pub proof fn law_two_d(bits: Seq<bool>, pos: int, above: Seq<bool>, width: int, row: Seq<bool>, white: bool, k: int)
    requires
        row.len() < width <= above.len(),
        row.len() <= k,
        two_d_row(bits, pos, above, width, row, white) is Some,
    ensures
        ({
            let out = two_d_row(bits, pos, above, width, row, white).unwrap().0;
            let a0 = row.len() as int;
            let b1 = change_after(above, a0, !white, width);
            match mode_at(bits, pos, 1) {
                Some((TwoDMode::Vertical(d), end)) => a0 <= b1 + d <= width && (k < b1 + d ==> out[k] == !white),
                Some((TwoDMode::Pass, end)) => k < other_after(above, b1, width) ==> out[k] == !white,
                Some((TwoDMode::Horizontal, end)) => {
                    let first = run_at(bits, end, white, 0);
                    let second = run_at(bits, first.unwrap().1, !white, 0);
                    let a1 = a0 + first.unwrap().0;
                    &&& first is Some && second is Some
                    &&& k < a1 ==> out[k] == !white
                    &&& a1 <= k < a1 + second.unwrap().0 ==> out[k] == white
                },
                _ => false,
            }
        }),
{
    let a0 = row.len() as int;
    let out = two_d_row(bits, pos, above, width, row, white).unwrap().0;
    match mode_at(bits, pos, 1) {
        Some((TwoDMode::Pass, end)) => {
            let b2 = other_after(above, change_after(above, a0, !white, width), width);
            let next = row + pixels(!white, b2 - a0);
            lemma_two_d_keeps(bits, end, above, width, next, white);
            if k < b2 {
                assert(out[k] == next[k]);
            }
        },
        Some((TwoDMode::Horizontal, end)) => {
            lemma_run_at_end(bits, end, white, 0);
            let (run1, end1) = run_at(bits, end, white, 0).unwrap();
            lemma_run_at_end(bits, end1, !white, 0);
            let (run2, end2) = run_at(bits, end1, !white, 0).unwrap();
            let next = row + pixels(!white, run1) + pixels(white, run2);
            lemma_two_d_keeps(bits, end2, above, width, next, white);
            if k < next.len() {
                assert(out[k] == next[k]);
            }
        },
        Some((TwoDMode::Vertical(offset), end)) => {
            let a1 = change_after(above, a0, !white, width) + offset;
            let next = row + pixels(!white, a1 - a0);
            lemma_two_d_keeps(bits, end, above, width, next, !white);
            if k < a1 {
                assert(out[k] == next[k]);
            }
        },
        _ => {},
    }
}

/// Which rows are in one dimension: all of the first two schemes, none of the last; in the
/// third a bit after the end-of-line code tells, 1 for one dimension.
pub proof fn law_dimensions(bits: Seq<bool>, pos: int, variant: CcittVariant)
    ensures
        row_start(bits, pos, variant) matches Some((two_d, begin)) ==> match variant {
            CcittVariant::ModifiedHuffman => !two_d && begin == pos,
            CcittVariant::T4OneD { .. } => !two_d,
            CcittVariant::T4TwoD { .. } => two_d == !bits[begin - 1],
            CcittVariant::T6 => two_d && begin == pos,
        },
{
}

/// An end-of-line code is read where there are eleven to 1024 bits 0 and a bit 1, which ends a
/// byte where the codes are aligned, and nowhere else.
pub proof fn law_end_of_line(bits: Seq<bool>, pos: int, zeros: int, aligned: bool, end: int)
    requires
        0 <= pos,
        0 <= zeros <= 1024,
    ensures
        eol_end(bits, pos, zeros, aligned) == Some(end) <==> {
            &&& pos < end <= bits.len()
            &&& 11 <= zeros + (end - 1 - pos) <= 1024
            &&& bits[end - 1]
            &&& forall|k: int| pos <= k < end - 1 ==> !#[trigger] bits[k]
            &&& aligned ==> end % 8 == 0
        },
    decreases bits.len() - pos,
{
    if pos < bits.len() && !bits[pos] && zeros < 1024 {
        law_end_of_line(bits, pos + 1, zeros + 1, aligned, end);
    }
}

} // verus!
