//! Code words of the facsimile run lengths.
use vstd::prelude::*;

verus! {

/// White runs: length of the code word in bits, code word, run length, and
/// whether another code word follows for the same run. In the order of the
/// code words.
pub const WHITE: [(u32, u32, u32, bool); 104] = [
    (11, 0b00000001000, 1792, true),
    (12, 0b000000010010, 1984, true),
    (12, 0b000000010011, 2048, true),
    (12, 0b000000010100, 2112, true),
    (12, 0b000000010101, 2176, true),
    (12, 0b000000010110, 2240, true),
    (12, 0b000000010111, 2304, true),
    (11, 0b00000001100, 1856, true),
    (11, 0b00000001101, 1920, true),
    (12, 0b000000011100, 2368, true),
    (12, 0b000000011101, 2432, true),
    (12, 0b000000011110, 2496, true),
    (12, 0b000000011111, 2560, true),
    (8, 0b00000010, 29, false),
    (8, 0b00000011, 30, false),
    (8, 0b00000100, 45, false),
    (8, 0b00000101, 46, false),
    (7, 0b0000011, 22, false),
    (7, 0b0000100, 23, false),
    (8, 0b00001010, 47, false),
    (8, 0b00001011, 48, false),
    (6, 0b000011, 13, false),
    (7, 0b0001000, 20, false),
    (8, 0b00010010, 33, false),
    (8, 0b00010011, 34, false),
    (8, 0b00010100, 35, false),
    (8, 0b00010101, 36, false),
    (8, 0b00010110, 37, false),
    (8, 0b00010111, 38, false),
    (7, 0b0001100, 19, false),
    (8, 0b00011010, 31, false),
    (8, 0b00011011, 32, false),
    (6, 0b000111, 1, false),
    (6, 0b001000, 12, false),
    (8, 0b00100100, 53, false),
    (8, 0b00100101, 54, false),
    (7, 0b0010011, 26, false),
    (8, 0b00101000, 39, false),
    (8, 0b00101001, 40, false),
    (8, 0b00101010, 41, false),
    (8, 0b00101011, 42, false),
    (8, 0b00101100, 43, false),
    (8, 0b00101101, 44, false),
    (7, 0b0010111, 21, false),
    (7, 0b0011000, 28, false),
    (8, 0b00110010, 61, false),
    (8, 0b00110011, 62, false),
    (8, 0b00110100, 63, false),
    (8, 0b00110101, 0, false),
    (8, 0b00110110, 320, true),
    (8, 0b00110111, 384, true),
    (5, 0b00111, 10, false),
    (5, 0b01000, 11, false),
    (7, 0b0100100, 27, false),
    (8, 0b01001010, 59, false),
    (8, 0b01001011, 60, false),
    (9, 0b010011000, 1472, true),
    (9, 0b010011001, 1536, true),
    (9, 0b010011010, 1600, true),
    (9, 0b010011011, 1728, true),
    (7, 0b0100111, 18, false),
    (7, 0b0101000, 24, false),
    (8, 0b01010010, 49, false),
    (8, 0b01010011, 50, false),
    (8, 0b01010100, 51, false),
    (8, 0b01010101, 52, false),
    (7, 0b0101011, 25, false),
    (8, 0b01011000, 55, false),
    (8, 0b01011001, 56, false),
    (8, 0b01011010, 57, false),
    (8, 0b01011011, 58, false),
    (6, 0b010111, 192, true),
    (6, 0b011000, 1664, true),
    (8, 0b01100100, 448, true),
    (8, 0b01100101, 512, true),
    (9, 0b011001100, 704, true),
    (9, 0b011001101, 768, true),
    (8, 0b01100111, 640, true),
    (8, 0b01101000, 576, true),
    (9, 0b011010010, 832, true),
    (9, 0b011010011, 896, true),
    (9, 0b011010100, 960, true),
    (9, 0b011010101, 1024, true),
    (9, 0b011010110, 1088, true),
    (9, 0b011010111, 1152, true),
    (9, 0b011011000, 1216, true),
    (9, 0b011011001, 1280, true),
    (9, 0b011011010, 1344, true),
    (9, 0b011011011, 1408, true),
    (7, 0b0110111, 256, true),
    (4, 0b0111, 2, false),
    (4, 0b1000, 3, false),
    (5, 0b10010, 128, true),
    (5, 0b10011, 8, false),
    (5, 0b10100, 9, false),
    (6, 0b101010, 16, false),
    (6, 0b101011, 17, false),
    (4, 0b1011, 4, false),
    (4, 0b1100, 5, false),
    (6, 0b110100, 14, false),
    (6, 0b110101, 15, false),
    (5, 0b11011, 64, true),
    (4, 0b1110, 6, false),
    (4, 0b1111, 7, false),
];

/// Black runs: length of the code word in bits, code word, run length, and
/// whether another code word follows for the same run. In the order of the
/// code words.
pub const BLACK: [(u32, u32, u32, bool); 104] = [
    (11, 0b00000001000, 1792, true),
    (12, 0b000000010010, 1984, true),
    (12, 0b000000010011, 2048, true),
    (12, 0b000000010100, 2112, true),
    (12, 0b000000010101, 2176, true),
    (12, 0b000000010110, 2240, true),
    (12, 0b000000010111, 2304, true),
    (11, 0b00000001100, 1856, true),
    (11, 0b00000001101, 1920, true),
    (12, 0b000000011100, 2368, true),
    (12, 0b000000011101, 2432, true),
    (12, 0b000000011110, 2496, true),
    (12, 0b000000011111, 2560, true),
    (10, 0b0000001000, 18, false),
    (12, 0b000000100100, 52, false),
    (13, 0b0000001001010, 640, true),
    (13, 0b0000001001011, 704, true),
    (13, 0b0000001001100, 768, true),
    (13, 0b0000001001101, 832, true),
    (12, 0b000000100111, 55, false),
    (12, 0b000000101000, 56, false),
    (13, 0b0000001010010, 1280, true),
    (13, 0b0000001010011, 1344, true),
    (13, 0b0000001010100, 1408, true),
    (13, 0b0000001010101, 1472, true),
    (12, 0b000000101011, 59, false),
    (12, 0b000000101100, 60, false),
    (13, 0b0000001011010, 1536, true),
    (13, 0b0000001011011, 1600, true),
    (11, 0b00000010111, 24, false),
    (11, 0b00000011000, 25, false),
    (13, 0b0000001100100, 1664, true),
    (13, 0b0000001100101, 1728, true),
    (12, 0b000000110011, 320, true),
    (12, 0b000000110100, 384, true),
    (12, 0b000000110101, 448, true),
    (13, 0b0000001101100, 512, true),
    (13, 0b0000001101101, 576, true),
    (12, 0b000000110111, 53, false),
    (12, 0b000000111000, 54, false),
    (13, 0b0000001110010, 896, true),
    (13, 0b0000001110011, 960, true),
    (13, 0b0000001110100, 1024, true),
    (13, 0b0000001110101, 1088, true),
    (13, 0b0000001110110, 1152, true),
    (13, 0b0000001110111, 1216, true),
    (10, 0b0000001111, 64, true),
    (8, 0b00000100, 13, false),
    (11, 0b00000101000, 23, false),
    (12, 0b000001010010, 50, false),
    (12, 0b000001010011, 51, false),
    (12, 0b000001010100, 44, false),
    (12, 0b000001010101, 45, false),
    (12, 0b000001010110, 46, false),
    (12, 0b000001010111, 47, false),
    (12, 0b000001011000, 57, false),
    (12, 0b000001011001, 58, false),
    (12, 0b000001011010, 61, false),
    (12, 0b000001011011, 256, true),
    (10, 0b0000010111, 16, false),
    (10, 0b0000011000, 17, false),
    (12, 0b000001100100, 48, false),
    (12, 0b000001100101, 49, false),
    (12, 0b000001100110, 62, false),
    (12, 0b000001100111, 63, false),
    (12, 0b000001101000, 30, false),
    (12, 0b000001101001, 31, false),
    (12, 0b000001101010, 32, false),
    (12, 0b000001101011, 33, false),
    (12, 0b000001101100, 40, false),
    (12, 0b000001101101, 41, false),
    (11, 0b00000110111, 22, false),
    (8, 0b00000111, 14, false),
    (7, 0b0000100, 10, false),
    (7, 0b0000101, 11, false),
    (9, 0b000011000, 15, false),
    (12, 0b000011001000, 128, true),
    (12, 0b000011001001, 192, true),
    (12, 0b000011001010, 26, false),
    (12, 0b000011001011, 27, false),
    (12, 0b000011001100, 28, false),
    (12, 0b000011001101, 29, false),
    (11, 0b00001100111, 19, false),
    (11, 0b00001101000, 20, false),
    (12, 0b000011010010, 34, false),
    (12, 0b000011010011, 35, false),
    (12, 0b000011010100, 36, false),
    (12, 0b000011010101, 37, false),
    (12, 0b000011010110, 38, false),
    (12, 0b000011010111, 39, false),
    (11, 0b00001101100, 21, false),
    (12, 0b000011011010, 42, false),
    (12, 0b000011011011, 43, false),
    (10, 0b0000110111, 0, false),
    (7, 0b0000111, 12, false),
    (6, 0b000100, 9, false),
    (6, 0b000101, 8, false),
    (5, 0b00011, 7, false),
    (4, 0b0010, 6, false),
    (4, 0b0011, 5, false),
    (3, 0b010, 1, false),
    (3, 0b011, 4, false),
    (2, 0b10, 3, false),
    (2, 0b11, 2, false),
];

/// Places of the final code words in the white table, by run length.
pub const WHITE_FINAL: [usize; 64] = [48, 32, 90, 91, 97, 98, 102, 103, 93, 94, 51, 52, 33, 21, 99, 100, 95, 96, 60, 29, 22, 43, 17, 18, 61, 66, 36, 53, 44, 13, 14, 30, 31, 23, 24, 25, 26, 27, 28, 37, 38, 39, 40, 41, 42, 15, 16, 19, 20, 62, 63, 64, 65, 34, 35, 67, 68, 69, 70, 54, 55, 45, 46, 47];

/// Places of the leading code words in the white table, by run length over 64,
/// less one.
pub const WHITE_LEADING: [usize; 40] = [101, 92, 71, 89, 49, 50, 73, 74, 78, 77, 75, 76, 79, 80, 81, 82, 83, 84, 85, 86, 87, 88, 56, 57, 58, 72, 59, 0, 7, 8, 1, 2, 3, 4, 5, 6, 9, 10, 11, 12];

/// Places of the final code words in the black table, by run length.
pub const BLACK_FINAL: [usize; 64] = [93, 100, 103, 102, 101, 99, 98, 97, 96, 95, 73, 74, 94, 47, 72, 75, 59, 60, 13, 82, 83, 90, 71, 48, 29, 30, 78, 79, 80, 81, 65, 66, 67, 68, 84, 85, 86, 87, 88, 89, 69, 70, 91, 92, 51, 52, 53, 54, 61, 62, 49, 50, 14, 38, 39, 19, 20, 55, 56, 25, 26, 57, 63, 64];

/// Places of the leading code words in the black table, by run length over 64,
/// less one.
pub const BLACK_LEADING: [usize; 40] = [46, 76, 77, 58, 33, 34, 35, 36, 37, 15, 16, 17, 18, 40, 41, 42, 43, 44, 45, 21, 22, 23, 24, 27, 28, 31, 32, 0, 7, 8, 1, 2, 3, 4, 5, 6, 9, 10, 11, 12];

/// The table of one colour.
#[verifier::opaque]
pub open spec fn fax_table(white: bool) -> Seq<(u32, u32, u32, bool)> {
    if white { WHITE@ } else { BLACK@ }
}

/// The first 13-bit string that starts with the `n`-bit code word `v`.
pub open spec fn scaled(v: int, n: int) -> int {
    if n == 0 {
        8192 * v
    } else if n == 1 {
        4096 * v
    } else if n == 2 {
        2048 * v
    } else if n == 3 {
        1024 * v
    } else if n == 4 {
        512 * v
    } else if n == 5 {
        256 * v
    } else if n == 6 {
        128 * v
    } else if n == 7 {
        64 * v
    } else if n == 8 {
        32 * v
    } else if n == 9 {
        16 * v
    } else if n == 10 {
        8 * v
    } else if n == 11 {
        4 * v
    } else if n == 12 {
        2 * v
    } else {
        v
    }
}

/// Number of 13-bit strings that start with a given code word of `n` bits.
pub open spec fn room(n: int) -> int {
    scaled(1, n)
}

/// The first 13-bit string that starts with the code word of an entry.
pub open spec fn first_string(e: (u32, u32, u32, bool)) -> int {
    scaled(e.1 as int, e.0 as int)
}

proof fn lemma_white_neighbours(i: int)
    requires
        0 <= i < 103,
    ensures
        first_string(WHITE[i]) + room(WHITE[i].0 as int) <= first_string(WHITE[i + 1]),
{
}

proof fn lemma_black_neighbours(i: int)
    requires
        0 <= i < 103,
    ensures
        first_string(BLACK[i]) + room(BLACK[i].0 as int) <= first_string(BLACK[i + 1]),
{
}

proof fn lemma_neighbours(white: bool, i: int)
    requires
        0 <= i < 103,
    ensures
        first_string(fax_table(white)[i]) + room(fax_table(white)[i].0 as int) <= first_string(fax_table(white)[i + 1]),
{
    reveal(fax_table);
    if white {
        lemma_white_neighbours(i);
    } else {
        lemma_black_neighbours(i);
    }
}

/// Sizes in the tables: code words of 2 to 13 bits that do not start like an
/// end-of-line code, runs of at most 2560.
pub proof fn lemma_entries(white: bool)
    ensures
        fax_table(white).len() == 104,
        forall|i: int|
            0 <= i < 104 ==> {
                let e = #[trigger] fax_table(white)[i];
                &&& 2 <= e.0 <= 13
                &&& 32 <= first_string(e)
                &&& first_string(e) + room(e.0 as int) <= 8192
                &&& e.2 <= 2560
                &&& e.1 < 8192
            },
{
    reveal(fax_table);
    if white {
        assert forall|i: int| 0 <= i < 104 implies {
            let e = #[trigger] WHITE@[i];
            &&& 2 <= e.0 <= 13
            &&& 32 <= first_string(e)
                &&& first_string(e) + room(e.0 as int) <= 8192
            &&& e.2 <= 2560
            &&& e.1 < 8192
        } by {
            assert(WHITE[i] == WHITE@[i]);
        }
    } else {
        assert forall|i: int| 0 <= i < 104 implies {
            let e = #[trigger] BLACK@[i];
            &&& 2 <= e.0 <= 13
            &&& 32 <= first_string(e)
                &&& first_string(e) + room(e.0 as int) <= 8192
            &&& e.2 <= 2560
            &&& e.1 < 8192
        } by {
            assert(BLACK[i] == BLACK@[i]);
        }
    }
}

/// The 13-bit strings that start with one code word are apart from those that
/// start with another.
pub proof fn lemma_apart(white: bool, i: int, j: int)
    requires
        0 <= i < j < 104,
    ensures
        first_string(fax_table(white)[i]) + room(fax_table(white)[i].0 as int) <= first_string(fax_table(white)[j]),
    decreases j - i,
{
    lemma_neighbours(white, i);
    if i + 1 < j {
        lemma_apart(white, i + 1, j);
    }
}

/// Place of the code word for `run`: a leading one, for a multiple of 64 from
/// 64 to 2560, or a final one, for a run below 64.
#[verifier::opaque]
pub open spec fn code_place(white: bool, run: int, leading: bool) -> int {
    if leading {
        if white { WHITE_LEADING[run / 64 - 1] as int } else { BLACK_LEADING[run / 64 - 1] as int }
    } else {
        if white { WHITE_FINAL[run] as int } else { BLACK_FINAL[run] as int }
    }
}

/// A run length that has a code word of the given sort.
pub open spec fn has_code(run: int, leading: bool) -> bool {
    if leading { 64 <= run <= 2560 && run % 64 == 0 } else { 0 <= run < 64 }
}

/// The code word at the place of a run is for that run.
pub proof fn lemma_code_place(white: bool, run: int, leading: bool)
    requires
        has_code(run, leading),
    ensures
        0 <= code_place(white, run, leading) < 104,
        fax_table(white)[code_place(white, run, leading)].2 == run,
        fax_table(white)[code_place(white, run, leading)].3 == leading,
{
    reveal(code_place);
    reveal(fax_table);
    if leading {
        let k = run / 64 - 1;
        assert(0 <= k < 40 && run == 64 * (k + 1));
        if white {
            lemma_white_leading(k);
        } else {
            lemma_black_leading(k);
        }
    } else if white {
        lemma_white_final(run);
    } else {
        lemma_black_final(run);
    }
}

proof fn lemma_white_final(run: int)
    requires
        0 <= run < 64,
    ensures
        WHITE_FINAL[run] < 104,
        WHITE[WHITE_FINAL[run] as int].2 == run,
        !WHITE[WHITE_FINAL[run] as int].3,
{
}

proof fn lemma_black_final(run: int)
    requires
        0 <= run < 64,
    ensures
        BLACK_FINAL[run] < 104,
        BLACK[BLACK_FINAL[run] as int].2 == run,
        !BLACK[BLACK_FINAL[run] as int].3,
{
}

proof fn lemma_white_leading(k: int)
    requires
        0 <= k < 40,
    ensures
        WHITE_LEADING[k] < 104,
        WHITE[WHITE_LEADING[k] as int].2 == 64 * (k + 1),
        WHITE[WHITE_LEADING[k] as int].3,
{
}

proof fn lemma_black_leading(k: int)
    requires
        0 <= k < 40,
    ensures
        BLACK_LEADING[k] < 104,
        BLACK[BLACK_LEADING[k] as int].2 == 64 * (k + 1),
        BLACK[BLACK_LEADING[k] as int].3,
{
}

/// The entry at place `i` of the table of one colour.
pub fn fax_entry(white: bool, i: usize) -> (e: (u32, u32, u32, bool))
    requires
        i < 104,
    ensures
        e == fax_table(white)[i as int],
{
    proof {
        reveal(fax_table);
    }
    if white {
        WHITE[i]
    } else {
        BLACK[i]
    }
}

/// Bit length and code word for the last code of a run, where there is one.
pub fn lookup_terminating(run: u32, white: bool) -> (r: Option<(u32, u32)>)
    ensures
        r == (if has_code(run as int, false) {
            let e = fax_table(white)[code_place(white, run as int, false)];
            Some((e.0, e.1))
        } else {
            None
        }),
{
    if run >= 64 {
        return None;
    }
    proof {
        lemma_code_place(white, run as int, false);
        reveal(code_place);
    }
    let i: usize = if white { WHITE_FINAL[run as usize] } else { BLACK_FINAL[run as usize] };
    let e = fax_entry(white, i);
    Some((e.0, e.1))
}

/// Bit length and code word for a leading code of a run, where there is one.
pub fn lookup_makeup(run: u32, white: bool) -> (r: Option<(u32, u32)>)
    ensures
        r == (if has_code(run as int, true) {
            let e = fax_table(white)[code_place(white, run as int, true)];
            Some((e.0, e.1))
        } else {
            None
        }),
{
    if run < 64 || run > 2560 || run % 64 != 0 {
        return None;
    }
    proof {
        lemma_code_place(white, run as int, true);
        reveal(code_place);
    }
    let k: usize = (run / 64 - 1) as usize;
    let i: usize = if white { WHITE_LEADING[k] } else { BLACK_LEADING[k] };
    let e = fax_entry(white, i);
    Some((e.0, e.1))
}

} // verus!
