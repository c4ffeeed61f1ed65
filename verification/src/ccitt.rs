//! The facsimile compression schemes for bilevel images: Modified Huffman,
//! T.4 in one and two dimensions, and T.6.
//!
//! A row is a string of pixels, `true` for black. One-dimensional coding writes
//! the lengths of its runs, white first; two-dimensional coding writes where the
//! colour changes relative to the row above.
use vstd::prelude::*;
use crate::bits::{bits_of, bits_value, byte_bit, bytes_of, read_bit, stands_at, value_bits, MsbWriter};
use crate::bits::{
    lemma_bits_of_bytes_of, lemma_byte_bits, lemma_read_where_written, lemma_stands_split, lemma_value_bits_len,
};
use crate::compress::append;
use crate::error::{bytes_agree, ErrorKind, Outcome, Result, TiffError};
use crate::fax_tables::{code_place, fax_entry, fax_table, lookup_makeup, lookup_terminating};
use crate::fax_tables::{lemma_apart, lemma_code_place, lemma_entries, room, scaled};

verus! {

/// Order of the bits within a byte.
#[derive(Debug, Clone, Copy, PartialEq, Eq, Structural)]
pub enum FillOrder {
    /// The first bit of a stream is the most significant bit of its byte.
    MsbFirst,
    /// The first bit of a stream is the least significant bit of its byte.
    LsbFirst,
}

/// How the rows of a stream are framed and coded.
#[derive(Debug, Clone, Copy, PartialEq, Eq, Structural)]
pub enum CcittVariant {
    /// One-dimensional rows that each start on a byte.
    ModifiedHuffman,
    /// One-dimensional rows that each follow an end-of-line code.
    T4OneD { eol_byte_aligned: bool },
    /// Rows that each follow an end-of-line code and a bit that tells whether
    /// the row is coded in one dimension.
    T4TwoD { eol_byte_aligned: bool },
    /// Two-dimensional rows with nothing between them.
    T6,
}

// ----------------------------------------------------------------------
// Bit order
// ----------------------------------------------------------------------

/// A byte with its bits in the opposite order.
pub open spec fn reversed(b: u8) -> u8 {
    ((b & 1u8) << 7u8) | ((b & 2u8) << 5u8) | ((b & 4u8) << 3u8) | ((b & 8u8) << 1u8) | ((b & 16u8) >> 1u8) | ((b
        & 32u8) >> 3u8) | ((b & 64u8) >> 5u8) | ((b & 128u8) >> 7u8)
}

/// Bytes with the bits of each in the opposite order.
pub open spec fn reversed_all(s: Seq<u8>) -> Seq<u8> {
    Seq::new(s.len(), |i: int| reversed(s[i]))
}

/// The byte with its bits in the opposite order.
pub fn reverse_bits_u8(b: u8) -> (r: u8)
    ensures
        r == reversed(b),
{
    ((b & 1u8) << 7u8) | ((b & 2u8) << 5u8) | ((b & 4u8) << 3u8) | ((b & 8u8) << 1u8) | ((b & 16u8) >> 1u8) | ((b
        & 32u8) >> 3u8) | ((b & 64u8) >> 5u8) | ((b & 128u8) >> 7u8)
}

/// Puts the bits of every byte in the opposite order.
pub fn reverse_bits_in_place(buf: &mut [u8])
    ensures
        final(buf)@ == reversed_all(old(buf)@),
{
    let ghost before = buf@;
    let mut i: usize = 0;
    while i < buf.len()
        invariant
            i <= buf@.len(),
            buf@.len() == before.len(),
            forall|k: int| 0 <= k < i ==> #[trigger] buf@[k] == reversed(before[k]),
            forall|k: int| i <= k < before.len() ==> #[trigger] buf@[k] == before[k],
        decreases buf@.len() - i,
    {
        buf[i] = reverse_bits_u8(buf[i]);
        i = i + 1;
    }
    assert(buf@ =~= reversed_all(before));
}

fn reversed_copy(s: &[u8]) -> (v: Vec<u8>)
    ensures
        v@ == reversed_all(s@),
{
    let mut v: Vec<u8> = Vec::new();
    let mut i: usize = 0;
    while i < s.len()
        invariant
            i <= s@.len(),
            v@.len() == i,
            forall|k: int| 0 <= k < i ==> #[trigger] v@[k] == reversed(s@[k]),
        decreases s@.len() - i,
    {
        v.push(reverse_bits_u8(s[i]));
        i = i + 1;
    }
    assert(v@ =~= reversed_all(s@));
    v
}

/// Bit `k` of the reversed byte is bit `7 - k` of the byte.
pub proof fn law_reversed_bit(b: u8, k: int)
    requires
        0 <= k < 8,
    ensures
        byte_bit(reversed(b), k) == byte_bit(b, 7 - k),
{
    let c: u8 = k as u8;
    let d: u8 = (7 - k) as u8;
    let r: u8 = reversed(b);
    assert(r == reversed(b));
    assert((r >> d) & 1u8 == (b >> c) & 1u8) by (bit_vector)
        requires
            c + d == 7u8,
            r == (((b & 1u8) << 7u8) | ((b & 2u8) << 5u8) | ((b & 4u8) << 3u8) | ((b & 8u8) << 1u8) | ((b & 16u8)
                >> 1u8) | ((b & 32u8) >> 3u8) | ((b & 64u8) >> 5u8) | ((b & 128u8) >> 7u8)),
    ;
}

/// Reversing the bits of every byte twice changes nothing.
pub proof fn law_reverse_twice(s: Seq<u8>)
    ensures
        reversed_all(reversed_all(s)) == s,
{
    assert forall|i: int| 0 <= i < s.len() implies reversed(reversed(s[i])) == s[i] by {
        let b = s[i];
        assert forall|k: int| 0 <= k < 8 implies #[trigger] byte_bit(reversed(reversed(b)), k) == byte_bit(b, k) by {
            law_reversed_bit(reversed(b), k);
            law_reversed_bit(b, 7 - k);
        }
        lemma_byte_bits(b);
        lemma_byte_bits(reversed(reversed(b)));
    }
    assert(reversed_all(reversed_all(s)) =~= s);
}

// ----------------------------------------------------------------------
// Reading bits
// ----------------------------------------------------------------------

/// Reads a byte string bit by bit, most significant bit first.
pub struct BitReader<'a> {
    pub src: &'a [u8],
    pub bit_pos: u128,
}

impl<'a> BitReader<'a> {
    pub open spec fn wf(self) -> bool {
        self.bit_pos <= 8 * self.src@.len()
    }

    /// All bits of the string.
    pub open spec fn all(self) -> Seq<bool> {
        bits_of(self.src@)
    }

    pub fn new(src: &'a [u8]) -> (r: BitReader<'a>)
        ensures
            r.wf(),
            r.src == src,
            r.bit_pos == 0,
    {
        BitReader { src, bit_pos: 0 }
    }

    /// The next bit, or nothing at the end.
    pub fn read_bit(&mut self) -> (r: Option<u8>)
        requires
            old(self).wf(),
        ensures
            final(self).wf(),
            final(self).src == old(self).src,
            old(self).bit_pos < 8 * old(self).src@.len() ==> {
                &&& final(self).bit_pos == old(self).bit_pos + 1
                &&& r == Some(if old(self).all()[old(self).bit_pos as int] { 1u8 } else { 0u8 })
            },
            old(self).bit_pos >= 8 * old(self).src@.len() ==> {
                &&& r is None
                &&& final(self).bit_pos == old(self).bit_pos
            },
    {
        let n: usize = self.src.len();
        if self.bit_pos >= 8 * (n as u128) {
            return None;
        }
        let b: bool = read_bit(self.src, self.bit_pos);
        self.bit_pos = self.bit_pos + 1;
        Some(if b { 1 } else { 0 })
    }

    /// Skips to the next byte.
    pub fn align_to_byte(&mut self)
        requires
            old(self).wf(),
        ensures
            final(self).wf(),
            final(self).src == old(self).src,
            final(self).bit_pos == byte_edge(old(self).bit_pos as int),
    {
        let n: usize = self.src.len();
        let rem: u128 = self.bit_pos % 8;
        if rem != 0 {
            self.bit_pos = self.bit_pos + (8 - rem);
        }
    }
}

/// The first byte boundary at or after bit position `pos`.
pub open spec fn byte_edge(pos: int) -> int {
    (pos + 7) / 8 * 8
}

// ----------------------------------------------------------------------
// Run lengths
// ----------------------------------------------------------------------

/// What one code word says.
#[derive(Debug, Clone, Copy, PartialEq, Eq, Structural)]
pub enum Code {
    /// The rest of the run.
    Terminating(u32),
    /// A part of the run; more follows.
    MakeUp(u32),
    /// End of a line.
    Eol,
}

/// Place, from `i` on, of the entry with code word `code` of `len` bits; 104
/// where there is none.
pub open spec fn place_of_code(white: bool, len: int, code: int, i: int) -> int
    decreases 104 - i,
{
    if i < 0 || i >= 104 || (fax_table(white)[i].0 == len && fax_table(white)[i].1 == code) {
        i
    } else {
        place_of_code(white, len, code, i + 1)
    }
}

/// The code word at `pos`, known to have at least `len` bits, and its end.
pub open spec fn code_at(bits: Seq<bool>, pos: int, white: bool, len: int) -> Option<(Code, int)>
    decreases 14 - len,
{
    if len > 13 || pos + len > bits.len() {
        None
    } else {
        let v = bits_value(bits, pos, len as nat) as int;
        let i = place_of_code(white, len, v, 0);
        if len == 12 && v == 1 {
            Some((Code::Eol, pos + 12))
        } else if i < 104 {
            let e = fax_table(white)[i];
            Some((if e.3 { Code::MakeUp(e.2) } else { Code::Terminating(e.2) }, pos + len))
        } else {
            code_at(bits, pos, white, len + 1)
        }
    }
}

pub proof fn lemma_code_at_end(bits: Seq<bool>, pos: int, white: bool, len: int)
    requires
        1 <= len,
    ensures
        code_at(bits, pos, white, len) matches Some(c) ==> pos < c.1 <= bits.len() && (c.0 matches Code::MakeUp(n) ==> n
            <= 2560) && (c.0 matches Code::Terminating(n) ==> n <= 2560),
    decreases 14 - len,
{
    if len <= 13 && pos + len <= bits.len() {
        lemma_entries(white);
        lemma_place_range(white, len, bits_value(bits, pos, len as nat) as int, 0);
        lemma_code_at_end(bits, pos, white, len + 1);
    }
}

proof fn lemma_place_range(white: bool, len: int, code: int, i: int)
    requires
        0 <= i <= 104,
    ensures
        i <= place_of_code(white, len, code, i) <= 104,
    decreases 104 - i,
{
    if i < 104 {
        lemma_place_range(white, len, code, i + 1);
    }
}

/// The run coded at `pos`, on top of `total` pixels of it that were read before,
/// and the end of its last code word.
pub open spec fn run_at(bits: Seq<bool>, pos: int, white: bool, total: int) -> Option<(int, int)>
    decreases bits.len() - pos,
{
    match code_at(bits, pos, white, 1) {
        None => None,
        Some((Code::Eol, _)) => None,
        Some((Code::Terminating(n), end)) => Some((total + n, end)),
        Some((Code::MakeUp(n), end)) => {
            proof {
                lemma_code_at_end(bits, pos, white, 1);
            }
            run_at(bits, end, white, total + n)
        },
    }
}

pub proof fn lemma_run_at_end(bits: Seq<bool>, pos: int, white: bool, total: int)
    ensures
        run_at(bits, pos, white, total) matches Some(r) ==> pos < r.1 <= bits.len() && r.0 >= total,
    decreases bits.len() - pos,
{
    lemma_code_at_end(bits, pos, white, 1);
    match code_at(bits, pos, white, 1) {
        Some((Code::MakeUp(n), end)) => {
            lemma_run_at_end(bits, end, white, total + n);
        },
        _ => {},
    }
}

/// Place of the entry with code word `code` of `len` bits, or 104.
fn find_code(white: bool, len: u32, code: u32) -> (i: usize)
    ensures
        i == place_of_code(white, len as int, code as int, 0),
        i <= 104,
{
    let mut i: usize = 0;
    while i < 104
        invariant
            i <= 104,
            place_of_code(white, len as int, code as int, 0) == place_of_code(white, len as int, code as int, i as int),
        decreases 104 - i,
    {
        let e = fax_entry(white, i);
        if e.0 == len && e.1 == code {
            return i;
        }
        i = i + 1;
    }
    i
}

/// Reads one code word of the given colour.
#[verifier::loop_isolation(false)]
pub fn next_code(bits: &mut BitReader<'_>, is_white: bool) -> (r: Result<(u32, Code)>)
    requires
        old(bits).wf(),
    ensures
        final(bits).wf(),
        final(bits).src == old(bits).src,
        (match (r, code_at(old(bits).all(), old(bits).bit_pos as int, is_white, 1)) {
            (Ok(v), Some(s)) => v.1 == s.0 && final(bits).bit_pos == s.1 && v.0 == s.1 - old(bits).bit_pos,
            (Err(e), None) => e is InvalidData,
            _ => false,
        }),
{
    let ghost all = bits.all();
    let ghost pos = bits.bit_pos as int;
    let ghost src = bits.src;
    let ghost goal = code_at(all, pos, is_white, 1);
    let mut acc: u32 = 0;
    let mut len: u32 = 0;
    while len < 13
        invariant
            len <= 13,
            bits.wf(),
            bits.src == src,
            all == bits_of(src@),
            bits.bit_pos == pos + len,
            acc == bits_value(all, pos, len as nat),
            acc < 8192,
            len < 13 ==> acc < 4096,
            len < 12 ==> acc < 2048,
            len < 11 ==> acc < 1024,
            len < 10 ==> acc < 512,
            len < 9 ==> acc < 256,
            len < 8 ==> acc < 128,
            len < 7 ==> acc < 64,
            len < 6 ==> acc < 32,
            len < 5 ==> acc < 16,
            len < 4 ==> acc < 8,
            len < 3 ==> acc < 4,
            len < 2 ==> acc < 2,
            len < 1 ==> acc < 1,
            goal == code_at(all, pos, is_white, len + 1),
            goal == code_at(all, pos, is_white, 1),
        decreases 13 - len,
    {
        let b: u8 = match bits.read_bit() {
            Some(b) => b,
            None => {
                return Err(TiffError::invalid("TIFF/CCITT: bit stream exhausted mid-code"));
            },
        };
        acc = 2 * acc + b as u32;
        len = len + 1;
        assert(acc == bits_value(all, pos, len as nat));
        if len == 12 && acc == 1 {
            return Ok((12, Code::Eol));
        }
        let i: usize = find_code(is_white, len, acc);
        if i < 104 {
            let e = fax_entry(is_white, i);
            return Ok((len, if e.3 { Code::MakeUp(e.2) } else { Code::Terminating(e.2) }));
        }
    }
    Err(TiffError::invalid("TIFF/CCITT: unknown run-length code"))
}

/// Reads one run of the given colour.
#[verifier::loop_isolation(false)]
pub fn read_run(bits: &mut BitReader<'_>, is_white: bool) -> (r: Result<u128>)
    requires
        old(bits).wf(),
    ensures
        final(bits).wf(),
        final(bits).src == old(bits).src,
        (match (r, run_at(old(bits).all(), old(bits).bit_pos as int, is_white, 0)) {
            (Ok(v), Some(s)) => v == s.0 && final(bits).bit_pos == s.1,
            (Err(e), None) => e is InvalidData,
            _ => false,
        }),
        r matches Ok(v) ==> v <= 2560 * (8 * usize::MAX) + 2560,
{
    let ghost all = bits.all();
    let ghost src = bits.src;
    let ghost goal = run_at(all, bits.bit_pos as int, is_white, 0);
    let n: usize = bits.src.len();
    let mut total: u128 = 0;
    loop
        invariant
            bits.wf(),
            bits.src == src,
            n == src@.len(),
            all == bits_of(src@),
            total <= 2560 * bits.bit_pos,
            goal == run_at(all, bits.bit_pos as int, is_white, total as int),
        decreases 8 * src@.len() - bits.bit_pos,
    {
        proof {
            lemma_code_at_end(all, bits.bit_pos as int, is_white, 1);
        }
        let (_len, code) = next_code(bits, is_white)?;
        match code {
            Code::Terminating(n) => {
                total = total + n as u128;
                return Ok(total);
            },
            Code::MakeUp(n) => {
                total = total + n as u128;
            },
            Code::Eol => {
                return Err(TiffError::invalid("TIFF/CCITT: unexpected EOL inside a run"));
            },
        }
    }
}

// ----------------------------------------------------------------------
// Rows in one dimension
// ----------------------------------------------------------------------

/// `n` pixels of one colour.
pub open spec fn pixels(black: bool, n: int) -> Seq<bool> {
    Seq::new(n as nat, |i: int| black)
}

/// The row of `width` pixels coded in one dimension at `pos`, when `row` has
/// been read and the next run is white or not, and the end of its code.
pub open spec fn one_d_row(bits: Seq<bool>, pos: int, width: int, row: Seq<bool>, white: bool) -> Option<
    (Seq<bool>, int),
>
    decreases bits.len() - pos,
{
    if row.len() >= width {
        Some((row, pos))
    } else {
        match run_at(bits, pos, white, 0) {
            None => None,
            Some((run, end)) => if row.len() + run > width {
                None
            } else {
                proof {
                    lemma_run_at_end(bits, pos, white, 0);
                }
                one_d_row(bits, end, width, row + pixels(!white, run), !white)
            },
        }
    }
}

/// Sets the pixels `start..end` of a packed row to black.
fn fill_run(out: &mut Vec<u8>, start: usize, end: usize, is_white: bool)
    requires
        start <= end <= 8 * old(out)@.len(),
    ensures
        final(out)@.len() == old(out)@.len(),
        forall|k: int|
            0 <= k < 8 * old(out)@.len() ==> #[trigger] bits_of(final(out)@)[k] == (bits_of(old(out)@)[k] || (!is_white
                && start <= k < end)),
{
    if is_white {
        return ;
    }
    let ghost before = out@;
    let mut k: usize = start;
    while k < end
        invariant
            start <= k <= end,
            end <= 8 * out@.len(),
            out@.len() == before.len(),
            forall|j: int|
                0 <= j < 8 * before.len() ==> #[trigger] bits_of(out@)[j] == (bits_of(before)[j] || start <= j < k),
        decreases end - k,
    {
        let ghost mid = out@;
        let at: usize = k / 8;
        let sh: u8 = (7 - k % 8) as u8;
        let b: u8 = out[at];
        out[at] = b | (1u8 << sh);
        proof {
            assert forall|j: int| 0 <= j < 8 * before.len() implies #[trigger] bits_of(out@)[j] == (bits_of(before)[j]
                || start <= j < k + 1) by {
                assert(bits_of(mid)[j] == (bits_of(before)[j] || start <= j < k));
                if j / 8 == at {
                    crate::bits::lemma_or_bit(b, (k % 8) as int, j % 8);
                    assert(out@[at as int] == b | (1u8 << sh));
                } else {
                    assert(out@[j / 8] == mid[j / 8]);
                }
            }
        }
        k = k + 1;
    }
}

/// A packed row holds the pixels `row`, then white ones.
pub open spec fn packs(packed: Seq<u8>, row: Seq<bool>) -> bool {
    &&& row.len() <= 8 * packed.len()
    &&& forall|k: int| 0 <= k < 8 * packed.len() ==> #[trigger] bits_of(packed)[k] == (k < row.len() && row[k])
}

/// Bytes a row of `width` pixels takes.
pub open spec fn row_size(width: int) -> int {
    (width + 7) / 8
}

/// Bytes a row of `width` pixels takes.
pub(crate) fn packed_size(width: usize) -> (n: usize)
    ensures
        n == row_size(width as int),
{
    width / 8 + if width % 8 == 0 { 0 } else { 1 }
}

/// A packed row of the right size is the packing of its pixels.
proof fn lemma_packs_bytes(packed: Seq<u8>, row: Seq<bool>)
    requires
        packs(packed, row),
        packed.len() == row_size(row.len() as int),
    ensures
        packed == bytes_of(row),
{
    lemma_bits_of_bytes_of(row);
    assert forall|i: int| 0 <= i < packed.len() implies packed[i] == bytes_of(row)[i] by {
        let other = bytes_of(row);
        assert forall|k: int| 0 <= k < 8 implies #[trigger] byte_bit(packed[i], k) == byte_bit(other[i], k) by {
            let j = 8 * i + k;
            assert(j / 8 == i && j % 8 == k);
            assert(bits_of(packed)[j] == (j < row.len() && row[j]));
            assert(bits_of(other)[j] == (j < row.len() && row[j]));
        }
        lemma_byte_bits(packed[i]);
        lemma_byte_bits(other[i]);
    }
    assert(packed =~= bytes_of(row));
}

/// An all-white packed row of `n` bytes.
fn white_row(n: usize) -> (v: Vec<u8>)
    ensures
        v@.len() == n,
        packs(v@, Seq::empty()),
{
    let v: Vec<u8> = vec![0; n];
    proof {
        assert forall|k: int| 0 <= k < 8 * v@.len() implies !#[trigger] bits_of(v@)[k] by {
            crate::bits::lemma_no_bit(k % 8);
        }
    }
    v
}

/// Reads a row coded in one dimension.
#[verifier::loop_isolation(false)]
fn decode_one_d_row(bits: &mut BitReader<'_>, width: usize) -> (r: Result<Vec<u8>>)
    requires
        old(bits).wf(),
        width <= u32::MAX,
    ensures
        final(bits).wf(),
        final(bits).src == old(bits).src,
        (match (r, one_d_row(old(bits).all(), old(bits).bit_pos as int, width as int, Seq::empty(), true)) {
            (Ok(v), Some(s)) => s.0.len() == width && v@ == bytes_of(s.0) && final(bits).bit_pos == s.1,
            (Err(e), None) => e is InvalidData,
            _ => false,
        }),
{
    let ghost all = bits.all();
    let ghost src = bits.src;
    let ghost goal = one_d_row(all, bits.bit_pos as int, width as int, Seq::empty(), true);
    let mut out: Vec<u8> = white_row(packed_size(width));
    let ghost mut row: Seq<bool> = Seq::empty();
    let mut x: usize = 0;
    let mut white: bool = true;
    while x < width
        invariant
            width <= u32::MAX,
            bits.wf(),
            bits.src == src,
            all == bits_of(src@),
            x <= width,
            row.len() == x,
            out@.len() == row_size(width as int),
            packs(out@, row),
            goal == one_d_row(all, bits.bit_pos as int, width as int, row, white),
        decreases 8 * src@.len() - bits.bit_pos,
    {
        proof {
            lemma_run_at_end(all, bits.bit_pos as int, white, 0);
        }
        let run: u128 = read_run(bits, white)?;
        if run > (width - x) as u128 {
            return Err(TiffError::invalid("TIFF/CCITT: run overflows the row"));
        }
        let end: usize = x + run as usize;
        let ghost before = out@;
        fill_run(&mut out, x, end, white);
        proof {
            let row2 = row + pixels(!white, run as int);
            assert forall|k: int| 0 <= k < 8 * out@.len() implies #[trigger] bits_of(out@)[k] == (k < row2.len()
                && row2[k]) by {
                assert(bits_of(before)[k] == (k < row.len() && row[k]));
            }
            row = row2;
        }
        x = end;
        white = !white;
    }
    proof {
        lemma_packs_bytes(out@, row);
    }
    Ok(out)
}

// ----------------------------------------------------------------------
// Rows in two dimensions
// ----------------------------------------------------------------------

/// How a two-dimensional row goes on.
#[derive(Debug, Clone, Copy, PartialEq, Eq, Structural)]
pub enum TwoDMode {
    /// Skip a run of the row above.
    Pass,
    /// Two runs follow in one-dimensional coding.
    Horizontal,
    /// The colour changes this many pixels right of where it does above.
    Vertical(i32),
    /// What follows is not compressed.
    Uncompressed,
    /// An extension of one-dimensional coding.
    Extension1D,
}

/// What the `len` bits with value `v` say as a mode: a mode, an unknown
/// extension (`Some(None)`), or nothing yet.
pub open spec fn mode_word(len: int, v: int) -> Option<Option<TwoDMode>> {
    if len == 1 && v == 1 {
        Some(Some(TwoDMode::Vertical(0)))
    } else if len == 3 && v == 1 {
        Some(Some(TwoDMode::Horizontal))
    } else if len == 3 && v == 2 {
        Some(Some(TwoDMode::Vertical((-1int) as i32)))
    } else if len == 3 && v == 3 {
        Some(Some(TwoDMode::Vertical(1)))
    } else if len == 4 && v == 1 {
        Some(Some(TwoDMode::Pass))
    } else if len == 6 && v == 2 {
        Some(Some(TwoDMode::Vertical((-2int) as i32)))
    } else if len == 6 && v == 3 {
        Some(Some(TwoDMode::Vertical(2)))
    } else if len == 7 && v == 2 {
        Some(Some(TwoDMode::Vertical((-3int) as i32)))
    } else if len == 7 && v == 3 {
        Some(Some(TwoDMode::Vertical(3)))
    } else if len == 10 && v == 15 {
        Some(Some(TwoDMode::Uncompressed))
    } else if len == 10 && 8 <= v < 15 {
        Some(None)
    } else if len == 12 && 8 <= v <= 15 {
        Some(Some(TwoDMode::Extension1D))
    } else {
        None
    }
}

/// The mode at `pos`, known to have at least `len` bits, and its end.
pub open spec fn mode_at(bits: Seq<bool>, pos: int, len: int) -> Option<(TwoDMode, int)>
    decreases 13 - len,
{
    if len > 12 || pos + len > bits.len() {
        None
    } else {
        match mode_word(len, bits_value(bits, pos, len as nat) as int) {
            Some(Some(m)) => Some((m, pos + len)),
            Some(None) => None,
            None => mode_at(bits, pos, len + 1),
        }
    }
}

pub proof fn lemma_mode_at_end(bits: Seq<bool>, pos: int, len: int)
    requires
        1 <= len,
    ensures
        mode_at(bits, pos, len) matches Some(m) ==> pos < m.1 <= bits.len() && (m.0 matches TwoDMode::Vertical(o) ==> -3
            <= o <= 3),
    decreases 13 - len,
{
    if len <= 12 && pos + len <= bits.len() {
        lemma_mode_at_end(bits, pos, len + 1);
    }
}

/// Reads one mode.
#[verifier::loop_isolation(false)]
pub fn next_two_d_mode(bits: &mut BitReader<'_>) -> (r: Result<TwoDMode>)
    requires
        old(bits).wf(),
    ensures
        final(bits).wf(),
        final(bits).src == old(bits).src,
        (match (r, mode_at(old(bits).all(), old(bits).bit_pos as int, 1)) {
            (Ok(v), Some(s)) => v == s.0 && final(bits).bit_pos == s.1,
            (Err(e), None) => e is InvalidData,
            _ => false,
        }),
{
    let ghost all = bits.all();
    let ghost pos = bits.bit_pos as int;
    let ghost src = bits.src;
    let ghost goal = mode_at(all, pos, 1);
    let mut acc: u32 = 0;
    let mut len: u32 = 0;
    while len < 12
        invariant
            len <= 12,
            bits.wf(),
            bits.src == src,
            all == bits_of(src@),
            bits.bit_pos == pos + len,
            acc == bits_value(all, pos, len as nat),
            acc <= 31,
            len <= 11 ==> acc <= 15,
            len <= 10 ==> acc <= 7,
            len <= 8 ==> acc <= 3,
            len <= 7 ==> acc <= 1,
            len == 0 || len == 1 || len == 3 || len == 4 ==> acc == 0,
            goal == mode_at(all, pos, len + 1),
        decreases 12 - len,
    {
        let b: u8 = match bits.read_bit() {
            Some(b) => b,
            None => {
                return Err(TiffError::invalid("TIFF/CCITT: bit stream exhausted reading 2-D mode code"));
            },
        };
        acc = 2 * acc + b as u32;
        len = len + 1;
        assert(acc == bits_value(all, pos, len as nat));
        match (len, acc) {
            (1, 1) => {
                return Ok(TwoDMode::Vertical(0));
            },
            (3, 1) => {
                return Ok(TwoDMode::Horizontal);
            },
            (3, 2) => {
                return Ok(TwoDMode::Vertical(-1));
            },
            (3, 3) => {
                return Ok(TwoDMode::Vertical(1));
            },
            (4, 1) => {
                return Ok(TwoDMode::Pass);
            },
            (6, 2) => {
                return Ok(TwoDMode::Vertical(-2));
            },
            (6, 3) => {
                return Ok(TwoDMode::Vertical(2));
            },
            (7, 2) => {
                return Ok(TwoDMode::Vertical(-3));
            },
            (7, 3) => {
                return Ok(TwoDMode::Vertical(3));
            },
            (10, 15) => {
                return Ok(TwoDMode::Uncompressed);
            },
            _ => {},
        }
        if len == 10 && acc >= 8 {
            return Err(TiffError::invalid("TIFF/CCITT: unknown 2-D extension"));
        }
        if len == 12 && acc >= 8 && acc <= 15 {
            return Ok(TwoDMode::Extension1D);
        }
    }
    Err(TiffError::invalid("TIFF/CCITT: unknown 2-D mode code prefix"))
}

/// The colour of pixel `k` of a row differs from the one before it (white,
/// before the first) and is the given one.
pub open spec fn changes_at(row: Seq<bool>, k: int, to_white: bool) -> bool {
    &&& row[k] == !to_white
    &&& (if k == 0 { row[0] } else { row[k] != row[k - 1] })
}

/// First change to the given colour at or after `k`; `width` where there is
/// none.
pub open spec fn change_from(row: Seq<bool>, k: int, to_white: bool, width: int) -> int
    decreases width - k,
{
    if k >= width {
        width
    } else if changes_at(row, k, to_white) {
        k
    } else {
        change_from(row, k + 1, to_white, width)
    }
}

/// First change to the given colour right of pixel `from`; at the start of the
/// row the first pixel counts too.
pub open spec fn change_after(row: Seq<bool>, from: int, to_white: bool, width: int) -> int {
    if from >= width {
        width
    } else {
        change_from(row, if from == 0 { 0 } else { from + 1 }, to_white, width)
    }
}

/// End of the stretch of equal pixels that starts at `from` and is known to
/// reach `i`.
pub open spec fn stretch_end(row: Seq<bool>, from: int, i: int, width: int) -> int
    decreases width - i,
{
    if i >= width || row[i] != row[from] {
        i
    } else {
        stretch_end(row, from, i + 1, width)
    }
}

/// First pixel right of `from` of another colour.
pub open spec fn other_after(row: Seq<bool>, from: int, width: int) -> int {
    if from >= width { width } else { stretch_end(row, from, from + 1, width) }
}

proof fn lemma_change_range(row: Seq<bool>, k: int, to_white: bool, width: int)
    requires
        k <= width,
    ensures
        k <= change_from(row, k, to_white, width) <= width,
    decreases width - k,
{
    if k < width {
        lemma_change_range(row, k + 1, to_white, width);
    }
}

proof fn lemma_stretch_range(row: Seq<bool>, from: int, i: int, width: int)
    requires
        i <= width,
    ensures
        i <= stretch_end(row, from, i, width) <= width,
    decreases width - i,
{
    if i < width {
        lemma_stretch_range(row, from, i + 1, width);
    }
}

/// Bounds of the places that two-dimensional coding looks up in the row above.
pub proof fn lemma_places(row: Seq<bool>, from: int, to_white: bool, width: int)
    requires
        0 <= from <= width,
    ensures
        from <= change_after(row, from, to_white, width) <= width,
        from <= other_after(row, change_after(row, from, to_white, width), width) <= width,
{
    if from < width {
        let k = if from == 0 { 0 } else { from + 1 };
        lemma_change_range(row, k, to_white, width);
        let b1 = change_after(row, from, to_white, width);
        if b1 < width {
            lemma_stretch_range(row, b1, b1 + 1, width);
        }
    }
}

/// First change to the given colour right of `from` in a packed row.
#[verifier::loop_isolation(false)]
pub fn first_change_after(reference: &[u8], from: usize, target_white: bool, width: usize) -> (k: usize)
    requires
        width <= 8 * reference@.len(),
    ensures
        k == change_after(bits_of(reference@), from as int, target_white, width as int),
        k <= width,
        from <= width ==> from <= k,
{
    if from >= width {
        return width;
    }
    let ghost row = bits_of(reference@);
    let ghost goal = change_after(row, from as int, target_white, width as int);
    let mut k: usize = if from == 0 { 0 } else { from + 1 };
    let mut before: bool = if from == 0 { false } else { read_bit(reference, from as u128) };
    while k < width
        invariant
            from <= k <= width,
            width <= 8 * reference@.len(),
            row == bits_of(reference@),
            before == (if k == 0 { false } else { row[k - 1] }),
            goal == change_from(row, k as int, target_white, width as int),
        decreases width - k,
    {
        let here: bool = read_bit(reference, k as u128);
        if here != before && here == !target_white {
            return k;
        }
        before = here;
        k = k + 1;
    }
    width
}

/// First pixel right of `from` of another colour in a packed row.
fn next_change_after(reference: &[u8], from: usize, width: usize) -> (k: usize)
    requires
        width <= 8 * reference@.len(),
    ensures
        k == other_after(bits_of(reference@), from as int, width as int),
        k <= width,
{
    if from >= width {
        return width;
    }
    let ghost row = bits_of(reference@);
    let here: bool = read_bit(reference, from as u128);
    let mut i: usize = from + 1;
    while i < width && read_bit(reference, i as u128) == here
        invariant
            from < i <= width,
            width <= 8 * reference@.len(),
            row == bits_of(reference@),
            here == row[from as int],
            other_after(row, from as int, width as int) == stretch_end(row, from as int, i as int, width as int),
        decreases width - i,
    {
        i = i + 1;
    }
    i
}

/// The row of `width` pixels coded at `pos` in two dimensions against `above`,
/// when `row` has been read and the colour is white or not, and the end of its
/// code.
pub open spec fn two_d_row(
    bits: Seq<bool>,
    pos: int,
    above: Seq<bool>,
    width: int,
    row: Seq<bool>,
    white: bool,
) -> Option<(Seq<bool>, int)>
    decreases bits.len() - pos,
{
    let a0 = row.len() as int;
    if a0 >= width {
        Some((row, pos))
    } else {
        proof {
            lemma_mode_at_end(bits, pos, 1);
        }
        match mode_at(bits, pos, 1) {
            None => None,
            Some((TwoDMode::Pass, end)) => {
                let b2 = other_after(above, change_after(above, a0, !white, width), width);
                two_d_row(bits, end, above, width, row + pixels(!white, b2 - a0), white)
            },
            Some((TwoDMode::Horizontal, end)) => match run_at(bits, end, white, 0) {
                None => None,
                Some((run1, end1)) => match run_at(bits, end1, !white, 0) {
                    None => None,
                    Some((run2, end2)) => if a0 + run1 + run2 > width {
                        None
                    } else {
                        proof {
                            lemma_run_at_end(bits, end, white, 0);
                            lemma_run_at_end(bits, end1, !white, 0);
                        }
                        two_d_row(bits, end2, above, width, row + pixels(!white, run1) + pixels(white, run2), white)
                    },
                },
            },
            Some((TwoDMode::Vertical(offset), end)) => {
                let a1 = change_after(above, a0, !white, width) + offset;
                if a1 < a0 || a1 > width {
                    None
                } else {
                    two_d_row(bits, end, above, width, row + pixels(!white, a1 - a0), !white)
                }
            },
            Some((TwoDMode::Uncompressed, _)) => None,
            Some((TwoDMode::Extension1D, _)) => None,
        }
    }
}

/// Reads a row coded in two dimensions against the packed row above it.
#[verifier::loop_isolation(false)]
fn decode_two_d_row(bits: &mut BitReader<'_>, reference: &[u8], width: usize) -> (r: Result<Vec<u8>>)
    requires
        old(bits).wf(),
        width <= u32::MAX,
        reference@.len() == row_size(width as int),
    ensures
        final(bits).wf(),
        final(bits).src == old(bits).src,
        (match (
            r,
            two_d_row(old(bits).all(), old(bits).bit_pos as int, bits_of(reference@), width as int, Seq::empty(), true),
        ) {
            (Ok(v), Some(s)) => s.0.len() == width && v@ == bytes_of(s.0) && final(bits).bit_pos == s.1,
            (Err(e), None) => e is InvalidData,
            _ => false,
        }),
{
    let ghost all = bits.all();
    let ghost src = bits.src;
    let ghost above = bits_of(reference@);
    let ghost goal = two_d_row(all, bits.bit_pos as int, above, width as int, Seq::empty(), true);
    let mut out: Vec<u8> = white_row(packed_size(width));
    let ghost mut row: Seq<bool> = Seq::empty();
    let mut a0: usize = 0;
    let mut white: bool = true;
    while a0 < width
        invariant
            width <= u32::MAX,
            bits.wf(),
            bits.src == src,
            all == bits_of(src@),
            above == bits_of(reference@),
            reference@.len() == row_size(width as int),
            a0 <= width,
            row.len() == a0,
            out@.len() == row_size(width as int),
            packs(out@, row),
            goal == two_d_row(all, bits.bit_pos as int, above, width as int, row, white),
        decreases 8 * src@.len() - bits.bit_pos,
    {
        proof {
            lemma_mode_at_end(all, bits.bit_pos as int, 1);
            lemma_places(above, a0 as int, !white, width as int);
        }
        let ghost before = out@;
        match next_two_d_mode(bits)? {
            TwoDMode::Pass => {
                let b1: usize = first_change_after(reference, a0, !white, width);
                let b2: usize = next_change_after(reference, b1, width);
                fill_run(&mut out, a0, b2, white);
                proof {
                    let row2 = row + pixels(!white, b2 - a0);
                    lemma_filled(before, row, out@, a0 as int, b2 as int, !white);
                    row = row2;
                }
                a0 = b2;
            },
            TwoDMode::Horizontal => {
                proof {
                    lemma_run_at_end(all, bits.bit_pos as int, white, 0);
                }
                let run1: u128 = read_run(bits, white)?;
                proof {
                    lemma_run_at_end(all, bits.bit_pos as int, !white, 0);
                }
                let run2: u128 = read_run(bits, !white)?;
                if a0 as u128 + run1 + run2 > width as u128 {
                    return Err(TiffError::invalid("TIFF/CCITT: H mode run overflows the row"));
                }
                let end1: usize = a0 + run1 as usize;
                let end2: usize = end1 + run2 as usize;
                fill_run(&mut out, a0, end1, white);
                proof {
                    lemma_filled(before, row, out@, a0 as int, end1 as int, !white);
                    row = row + pixels(!white, run1 as int);
                }
                let ghost mid = out@;
                fill_run(&mut out, end1, end2, !white);
                proof {
                    lemma_filled(mid, row, out@, end1 as int, end2 as int, white);
                    row = row + pixels(white, run2 as int);
                }
                a0 = end2;
            },
            TwoDMode::Vertical(offset) => {
                let b1: usize = first_change_after(reference, a0, !white, width);
                let a1: i64 = b1 as i64 + offset as i64;
                if a1 < a0 as i64 || a1 > width as i64 {
                    return Err(TiffError::invalid("TIFF/CCITT: vertical mode leaves the row"));
                }
                let end: usize = a1 as usize;
                fill_run(&mut out, a0, end, white);
                proof {
                    lemma_filled(before, row, out@, a0 as int, end as int, !white);
                    row = row + pixels(!white, end - a0);
                }
                a0 = end;
                white = !white;
            },
            TwoDMode::Uncompressed => {
                return Err(
                    TiffError::invalid("TIFF/CCITT: 2-D uncompressed mode (extension `0000001111`) not supported"),
                );
            },
            TwoDMode::Extension1D => {
                return Err(
                    TiffError::invalid("TIFF/CCITT: 1-D extension code `000000001xxx` inside a 2-D row"),
                );
            },
        }
    }
    proof {
        lemma_packs_bytes(out@, row);
    }
    Ok(out)
}

/// Filling the pixels after a packed row makes the row longer.
proof fn lemma_filled(before: Seq<u8>, row: Seq<bool>, after: Seq<u8>, start: int, end: int, black: bool)
    requires
        packs(before, row),
        row.len() == start,
        start <= end <= 8 * before.len(),
        after.len() == before.len(),
        forall|k: int|
            0 <= k < 8 * before.len() ==> #[trigger] bits_of(after)[k] == (bits_of(before)[k] || (black && start <= k
                < end)),
    ensures
        packs(after, row + pixels(black, end - start)),
{
    let row2 = row + pixels(black, end - start);
    assert forall|k: int| 0 <= k < 8 * after.len() implies #[trigger] bits_of(after)[k] == (k < row2.len() && row2[k]) by {
        assert(bits_of(before)[k] == (k < row.len() && row[k]));
    }
}

// ----------------------------------------------------------------------
// Streams of rows
// ----------------------------------------------------------------------

/// End of the end-of-line code at `pos`, when `zeros` 0 bits were read before:
/// eleven 0 bits or more, but not over 1024, then a 1 bit, which is the last of
/// its byte where `aligned`.
pub open spec fn eol_end(bits: Seq<bool>, pos: int, zeros: int, aligned: bool) -> Option<int>
    decreases bits.len() - pos,
{
    if pos < 0 || pos >= bits.len() {
        None
    } else if !bits[pos] {
        if zeros >= 1024 { None } else { eol_end(bits, pos + 1, zeros + 1, aligned) }
    } else if zeros < 11 || (aligned && (pos + 1) % 8 != 0) {
        None
    } else {
        Some(pos + 1)
    }
}

/// Reads an end-of-line code.
#[verifier::loop_isolation(false)]
fn expect_eol(bits: &mut BitReader<'_>, byte_aligned: bool) -> (r: Result<()>)
    requires
        old(bits).wf(),
    ensures
        final(bits).wf(),
        final(bits).src == old(bits).src,
        (match (r, eol_end(old(bits).all(), old(bits).bit_pos as int, 0, byte_aligned)) {
            (Ok(_), Some(s)) => final(bits).bit_pos == s,
            (Err(e), None) => e is InvalidData,
            _ => false,
        }),
{
    let ghost all = bits.all();
    let ghost src = bits.src;
    let ghost goal = eol_end(all, bits.bit_pos as int, 0, byte_aligned);
    let mut zeros: u32 = 0;
    loop
        invariant
            bits.wf(),
            bits.src == src,
            all == bits_of(src@),
            zeros <= 1024,
            goal == eol_end(all, bits.bit_pos as int, zeros as int, byte_aligned),
        decreases 8 * src@.len() - bits.bit_pos,
    {
        let b: u8 = match bits.read_bit() {
            Some(b) => b,
            None => {
                return Err(TiffError::invalid("TIFF/CCITT: bit stream exhausted searching for EOL"));
            },
        };
        if b == 0 {
            zeros = zeros + 1;
            if zeros > 1024 {
                return Err(TiffError::invalid("TIFF/CCITT: runaway zero-bit run, no EOL"));
            }
        } else {
            if zeros < 11 {
                return Err(TiffError::invalid("TIFF/CCITT: stray 1-bit (expected EOL)"));
            }
            if byte_aligned && bits.bit_pos % 8 != 0 {
                return Err(TiffError::invalid("TIFF/CCITT: byte-aligned EOL not aligned"));
            }
            return Ok(());
        }
    }
}

/// Whether the row framed at `pos` is coded in two dimensions, and where its
/// code starts.
pub open spec fn row_start(bits: Seq<bool>, pos: int, variant: CcittVariant) -> Option<(bool, int)> {
    match variant {
        CcittVariant::ModifiedHuffman => Some((false, pos)),
        CcittVariant::T6 => Some((true, pos)),
        CcittVariant::T4OneD { eol_byte_aligned } => match eol_end(bits, pos, 0, eol_byte_aligned) {
            None => None,
            Some(end) => Some((false, end)),
        },
        CcittVariant::T4TwoD { eol_byte_aligned } => match eol_end(bits, pos, 0, eol_byte_aligned) {
            None => None,
            Some(end) => if end >= bits.len() { None } else { Some((!bits[end], end + 1)) },
        },
    }
}

/// The packed rows of a stream from `pos` on, after the rows `out`, the last of
/// which has the pixels `above`.
pub open spec fn rows_at(
    bits: Seq<bool>,
    pos: int,
    width: int,
    rows: int,
    variant: CcittVariant,
    above: Seq<bool>,
    out: Seq<u8>,
) -> Option<Seq<u8>>
    decreases rows,
{
    if rows <= 0 {
        Some(out)
    } else {
        match row_start(bits, pos, variant) {
            None => None,
            Some((two_d, begin)) => {
                let row = if two_d {
                    two_d_row(bits, begin, above, width, Seq::empty(), true)
                } else {
                    one_d_row(bits, begin, width, Seq::empty(), true)
                };
                match row {
                    None => None,
                    Some((row, end)) => rows_at(
                        bits,
                        if variant == CcittVariant::ModifiedHuffman { byte_edge(end) } else { end },
                        width,
                        rows - 1,
                        variant,
                        bits_of(bytes_of(row)),
                        out + bytes_of(row),
                    ),
                }
            },
        }
    }
}

/// Bytes as they are read with the given bit order.
pub open spec fn in_order(s: Seq<u8>, fill: FillOrder) -> Seq<u8> {
    match fill {
        FillOrder::MsbFirst => s,
        FillOrder::LsbFirst => reversed_all(s),
    }
}

/// An all-white packed row.
pub open spec fn blank_row(width: int) -> Seq<u8> {
    Seq::new(row_size(width) as nat, |i: int| 0u8)
}

/// Decoding of a strip or tile of `rows` rows: every row packed into whole
/// bytes, black as 1, filled up with 0.
pub open spec fn ccitt_decode(input: Seq<u8>, width: int, rows: int, variant: CcittVariant, fill: FillOrder) -> Outcome<
    Seq<u8>,
> {
    match rows_at(
        bits_of(in_order(input, fill)),
        0,
        width,
        rows,
        variant,
        bits_of(blank_row(width)),
        Seq::empty(),
    ) {
        None => Err(ErrorKind::Invalid),
        Some(v) => Ok(v),
    }
}

/// Decodes a strip or tile.
#[verifier::loop_isolation(false)]
pub fn decode_ccitt(input: &[u8], width: u32, rows: u32, variant: CcittVariant, fill: FillOrder) -> (r: Result<Vec<u8>>)
    ensures
        bytes_agree(r, ccitt_decode(input@, width as int, rows as int, variant, fill)),
{
    let owned: Vec<u8>;
    let stream: &[u8] = match fill {
        FillOrder::MsbFirst => input,
        FillOrder::LsbFirst => {
            owned = reversed_copy(input);
            &owned
        },
    };
    let ghost all = bits_of(stream@);
    let mut out: Vec<u8> = Vec::new();
    let mut bits = BitReader::new(stream);
    let mut reference: Vec<u8> = vec![0; packed_size(width as usize)];
    assert(reference@ =~= blank_row(width as int));
    let ghost goal = rows_at(all, 0, width as int, rows as int, variant, bits_of(reference@), Seq::empty());
    let mut left: u32 = rows;
    while left > 0
        invariant
            bits.wf(),
            bits.src@ == stream@,
            reference@.len() == row_size(width as int),
            goal == rows_at(
                all,
                bits.bit_pos as int,
                width as int,
                left as int,
                variant,
                bits_of(reference@),
                out@,
            ),
        decreases left,
    {
        let two_d: bool = match variant {
            CcittVariant::ModifiedHuffman => false,
            CcittVariant::T4OneD { eol_byte_aligned } => {
                expect_eol(&mut bits, eol_byte_aligned)?;
                false
            },
            CcittVariant::T4TwoD { eol_byte_aligned } => {
                expect_eol(&mut bits, eol_byte_aligned)?;
                match bits.read_bit() {
                    Some(tag) => tag == 0,
                    None => {
                        return Err(TiffError::invalid("TIFF/CCITT: stream exhausted reading T.4-2D tag bit"));
                    },
                }
            },
            CcittVariant::T6 => true,
        };
        let row: Vec<u8> = if two_d {
            decode_two_d_row(&mut bits, &reference, width as usize)?
        } else {
            decode_one_d_row(&mut bits, width as usize)?
        };
        if let CcittVariant::ModifiedHuffman = variant {
            bits.align_to_byte();
        }
        append(&mut out, &row);
        reference = row;
        left = left - 1;
    }
    Ok(out)
}

// ----------------------------------------------------------------------
// Encoder
// ----------------------------------------------------------------------

/// The runs of `row` from pixel `x` on, after `len` pixels of the current run.
pub open spec fn runs_from(row: Seq<bool>, x: int, black: bool, len: int) -> Seq<int>
    decreases row.len() - x,
{
    if x < 0 || x >= row.len() {
        seq![len]
    } else if row[x] == black {
        runs_from(row, x + 1, black, len + 1)
    } else {
        seq![len] + runs_from(row, x + 1, !black, 1)
    }
}

/// The runs of a row, by turns white and black, white first (of length 0 where
/// the row starts black).
pub open spec fn row_runs(row: Seq<bool>) -> Seq<int> {
    runs_from(row, 0, false, 0)
}

/// The bits of a code word.
pub open spec fn word_bits(white: bool, run: int, leading: bool) -> Seq<bool> {
    let e = fax_table(white)[code_place(white, run, leading)];
    value_bits(e.1 as nat, e.0 as nat)
}

/// The code of one run: leading code words of 2560 while 2624 pixels or more
/// are left, at most one more leading code word, then a final one.
pub open spec fn run_code(run: int, white: bool) -> Seq<bool>
    decreases run,
{
    if run >= 2624 {
        word_bits(white, 2560, true) + run_code(run - 2560, white)
    } else if run >= 64 {
        word_bits(white, run / 64 * 64, true) + word_bits(white, run % 64, false)
    } else {
        word_bits(white, run, false)
    }
}

/// The codes of the runs from number `i` on, by turns of either colour.
pub open spec fn runs_code(runs: Seq<int>, i: int, white: bool) -> Seq<bool>
    decreases runs.len() - i,
{
    if i < 0 || i >= runs.len() {
        Seq::empty()
    } else {
        run_code(runs[i], white) + runs_code(runs, i + 1, !white)
    }
}

/// Row number `r` of packed rows.
pub open spec fn row_of(input: Seq<u8>, width: int, r: int) -> Seq<bool> {
    Seq::new(width as nat, |x: int| bits_of(input)[8 * (row_size(width) * r) + x])
}

/// End of the run of the given colour that starts at pixel `k`.
pub open spec fn run_end(row: Seq<bool>, k: int, black: bool) -> int
    decreases row.len() - k,
{
    if k >= row.len() {
        row.len() as int
    } else if row[k] != black {
        k
    } else {
        run_end(row, k + 1, black)
    }
}

pub proof fn lemma_run_end(row: Seq<bool>, k: int, black: bool)
    requires
        0 <= k <= row.len(),
    ensures
        k <= run_end(row, k, black) <= row.len(),
        k < row.len() && row[k] == black ==> k < run_end(row, k, black),
        forall|j: int| k <= j < run_end(row, k, black) ==> #[trigger] row[j] == black,
        run_end(row, k, black) < row.len() ==> row[run_end(row, k, black)] != black,
    decreases row.len() - k,
{
    if k < row.len() && row[k] == black {
        lemma_run_end(row, k + 1, black);
    }
}

/// The bits of a mode.
#[verifier::opaque]
pub open spec fn mode_bits(m: TwoDMode) -> Seq<bool> {
    match m {
        TwoDMode::Pass => value_bits(1, 4),
        TwoDMode::Horizontal => value_bits(1, 3),
        TwoDMode::Vertical(o) => if o == 0 {
            value_bits(1, 1)
        } else if o == 1 {
            value_bits(3, 3)
        } else if o == -1 {
            value_bits(2, 3)
        } else if o == 2 {
            value_bits(3, 6)
        } else if o == -2 {
            value_bits(2, 6)
        } else if o == 3 {
            value_bits(3, 7)
        } else {
            value_bits(2, 7)
        },
        _ => Seq::empty(),
    }
}

/// One mode of the code of `row` against the row above, from pixel `a0` on, when
/// the colour is white or not: its bits, the next pixel and the colour there. Where
/// the row above has a run that ends before the current one does, it is passed;
/// where the colour changes at most 3 pixels from where it does above, that
/// distance is coded; elsewhere two runs are.
pub open spec fn two_d_step(row: Seq<bool>, above: Seq<bool>, a0: int, white: bool) -> (Seq<bool>, int, bool) {
    let width = row.len() as int;
    let a1 = run_end(row, a0, !white);
    let b1 = change_after(above, a0, !white, width);
    let b2 = other_after(above, b1, width);
    if a0 < b2 < a1 {
        (mode_bits(TwoDMode::Pass), b2, white)
    } else if -3 <= a1 - b1 <= 3 {
        (mode_bits(TwoDMode::Vertical((a1 - b1) as i32)), a1, !white)
    } else {
        let a2 = run_end(row, a1, white);
        (mode_bits(TwoDMode::Horizontal) + run_code(a1 - a0, white) + run_code(a2 - a1, !white), a2, white)
    }
}

/// 1 where the pixel at `a0` has the other colour, else 0.
pub open spec fn other_colour(row: Seq<bool>, a0: int, white: bool) -> int {
    if 0 <= a0 < row.len() && row[a0] == white { 1 } else { 0 }
}

/// A mode moves on, or stays at a pixel of the other colour and takes that colour.
pub proof fn lemma_step(row: Seq<bool>, above: Seq<bool>, a0: int, white: bool)
    requires
        0 <= a0 < row.len(),
    ensures
        ({
            let (_, next, colour) = two_d_step(row, above, a0, white);
            &&& a0 <= next <= row.len()
            &&& next == a0 ==> other_colour(row, a0, white) == 1 && other_colour(row, a0, colour) == 0
        }),
{
    let width = row.len() as int;
    lemma_run_end(row, a0, !white);
    lemma_places(above, a0, !white, width);
    lemma_run_end(row, run_end(row, a0, !white), white);
}

/// The code of the pixels of `row` from `a0` on against the row above.
pub open spec fn two_d_code(row: Seq<bool>, above: Seq<bool>, a0: int, white: bool) -> Seq<bool>
    decreases row.len() - a0, other_colour(row, a0, white),
{
    if a0 < 0 || a0 >= row.len() {
        Seq::empty()
    } else {
        let (code, next, colour) = two_d_step(row, above, a0, white);
        proof {
            lemma_step(row, above, a0, white);
        }
        code + two_d_code(row, above, next, colour)
    }
}

/// Whether row number `r` is coded in two dimensions.
pub open spec fn two_d_at(variant: CcittVariant, r: int) -> bool {
    variant is T6 || (variant is T4TwoD && r > 0)
}

/// The row above row number `r`; an all-white one above the first.
pub open spec fn above_of(input: Seq<u8>, width: int, r: int) -> Seq<bool> {
    if r <= 0 { pixels(false, width) } else { row_of(input, width, r - 1) }
}

/// An end of line at bit `at`, which ends with a byte where `aligned`.
pub open spec fn eol_bits(at: int, aligned: bool) -> Seq<bool> {
    pixels(false, if aligned { (12 - at % 8) % 8 } else { 0 }) + value_bits(1, 12)
}

/// What precedes a row whose frame starts at bit `at`: nothing or an end of line,
/// and where rows may be coded in two dimensions a bit that says which.
pub open spec fn row_lead(at: int, variant: CcittVariant, two_d: bool) -> Seq<bool> {
    match variant {
        CcittVariant::T4OneD { eol_byte_aligned } => eol_bits(at, eol_byte_aligned),
        CcittVariant::T4TwoD { eol_byte_aligned } => eol_bits(at, eol_byte_aligned) + seq![!two_d],
        _ => Seq::empty(),
    }
}

/// The code of a row.
pub open spec fn row_code(row: Seq<bool>, above: Seq<bool>, two_d: bool) -> Seq<bool> {
    if two_d { two_d_code(row, above, 0, true) } else { runs_code(row_runs(row), 0, true) }
}

/// What follows a row whose code ends at bit `at`.
pub open spec fn row_tail(at: int, variant: CcittVariant) -> Seq<bool> {
    match variant {
        CcittVariant::ModifiedHuffman => pixels(false, (8 - at % 8) % 8),
        _ => Seq::empty(),
    }
}

/// The bits `acc` and one more row.
pub open spec fn with_row(
    acc: Seq<bool>,
    row: Seq<bool>,
    above: Seq<bool>,
    variant: CcittVariant,
    two_d: bool,
) -> Seq<bool> {
    let a = acc + row_lead(acc.len() as int, variant, two_d) + row_code(row, above, two_d);
    a + row_tail(a.len() as int, variant)
}

/// The bits `acc`, then the rows from number `r` on.
pub open spec fn with_rows(acc: Seq<bool>, input: Seq<u8>, width: int, r: int, rows: int, variant: CcittVariant) -> Seq<
    bool,
>
    decreases rows - r,
{
    if r >= rows {
        acc
    } else {
        with_rows(
            with_row(acc, row_of(input, width, r), above_of(input, width, r), variant, two_d_at(variant, r)),
            input,
            width,
            r + 1,
            rows,
            variant,
        )
    }
}

/// Encoding of `rows` packed rows.
pub open spec fn ccitt_encode(input: Seq<u8>, width: int, rows: int, variant: CcittVariant, fill: FillOrder) -> Outcome<
    Seq<u8>,
> {
    if input.len() < row_size(width) * rows {
        Err(ErrorKind::Invalid)
    } else {
        Ok(in_order(bytes_of(with_rows(Seq::empty(), input, width, 0, rows, variant)), fill))
    }
}

/// Run lengths as mathematical values.
pub open spec fn as_ints(v: Seq<usize>) -> Seq<int> {
    Seq::new(v.len(), |i: int| v[i] as int)
}

/// The runs of the first `width` pixels of a packed row.
#[verifier::loop_isolation(false)]
fn scan_runs(packed: &[u8], width: usize, Ghost(row): Ghost<Seq<bool>>) -> (runs: Vec<usize>)
    requires
        width <= 8 * packed@.len(),
        row == Seq::new(width as nat, |x: int| bits_of(packed@)[x]),
    ensures
        as_ints(runs@) == row_runs(row),
{
    let mut runs: Vec<usize> = Vec::new();
    let mut black: bool = false;
    let mut len: usize = 0;
    let mut x: usize = 0;
    assert(as_ints(runs@) + runs_from(row, 0, false, 0) =~= row_runs(row));
    while x < width
        invariant
            x <= width,
            len <= x,
            as_ints(runs@) + runs_from(row, x as int, black, len as int) == row_runs(row),
        decreases width - x,
    {
        if read_bit(packed, x as u128) == black {
            len = len + 1;
        } else {
            let ghost before = as_ints(runs@);
            runs.push(len);
            assert(as_ints(runs@) =~= before.push(len as int));
            assert(before + (seq![len as int] + runs_from(row, x + 1, !black, 1)) =~= as_ints(runs@) + runs_from(
                row,
                x + 1,
                !black,
                1,
            ));
            black = !black;
            len = 1;
        }
        x = x + 1;
    }
    let ghost before = as_ints(runs@);
    runs.push(len);
    assert(as_ints(runs@) =~= before + seq![len as int]);
    runs
}

/// Appends the code of a run.
#[verifier::loop_isolation(false)]
fn emit_run(bw: &mut MsbWriter, run: usize, is_white: bool)
    requires
        old(bw).wf(),
    ensures
        final(bw).wf(),
        final(bw)@ == old(bw)@ + run_code(run as int, is_white),
{
    let ghost start = bw@;
    let mut left: usize = run;
    proof {
        lemma_entries(is_white);
    }
    while left >= 2624
        invariant
            bw.wf(),
            bw@ + run_code(left as int, is_white) == start + run_code(run as int, is_white),
        decreases left,
    {
        let ghost before = bw@;
        proof {
            lemma_code_place(is_white, 2560, true);
        }
        if let Some((len, code)) = lookup_makeup(2560, is_white) {
            bw.put_value(code, len);
        }
        left = left - 2560;
        assert(bw@ + run_code(left as int, is_white) =~= before + (word_bits(is_white, 2560, true) + run_code(
            left as int,
            is_white,
        )));
    }
    let ghost mid = bw@;
    let ghost rest = left as int;
    if left >= 64 {
        let bucket: usize = left / 64 * 64;
        proof {
            lemma_code_place(is_white, bucket as int, true);
        }
        if let Some((len, code)) = lookup_makeup(bucket as u32, is_white) {
            bw.put_value(code, len);
        }
        left = left - bucket;
    }
    proof {
        lemma_code_place(is_white, left as int, false);
    }
    if let Some((len, code)) = lookup_terminating(left as u32, is_white) {
        bw.put_value(code, len);
    }
    assert(bw@ =~= mid + run_code(rest, is_white));
}

/// Appends the codes of runs, white first.
fn emit_runs(bw: &mut MsbWriter, runs: &Vec<usize>)
    requires
        old(bw).wf(),
    ensures
        final(bw).wf(),
        final(bw)@ == old(bw)@ + runs_code(as_ints(runs@), 0, true),
{
    let ghost lead = bw@;
    let mut white: bool = true;
    let mut i: usize = 0;
    let ghost ints = as_ints(runs@);
    assert(bw@ + runs_code(ints, 0, true) =~= lead + runs_code(ints, 0, true));
    while i < runs.len()
        invariant
            i <= runs@.len(),
            ints == as_ints(runs@),
            bw.wf(),
            bw@ + runs_code(ints, i as int, white) == lead + runs_code(ints, 0, true),
        decreases runs@.len() - i,
    {
        let ghost before = bw@;
        emit_run(bw, runs[i], white);
        assert(ints[i as int] == runs@[i as int]);
        assert(before + (run_code(ints[i as int], white) + runs_code(ints, i + 1, !white)) =~= bw@ + runs_code(
            ints,
            i + 1,
            !white,
        ));
        white = !white;
        i = i + 1;
    }
    assert(bw@ =~= lead + runs_code(ints, 0, true));
}

/// End of the run of the given colour that starts at pixel `from` of a packed row.
fn run_end_at(packed: &[u8], from: usize, black: bool, width: usize, Ghost(row): Ghost<Seq<bool>>) -> (k: usize)
    requires
        from <= width,
        width <= 8 * packed@.len(),
        row == Seq::new(width as nat, |x: int| bits_of(packed@)[x]),
    ensures
        k == run_end(row, from as int, black),
        from <= k <= width,
{
    let mut k: usize = from;
    while k < width && read_bit(packed, k as u128) == black
        invariant
            from <= k <= width,
            width <= 8 * packed@.len(),
            row == Seq::new(width as nat, |x: int| bits_of(packed@)[x]),
            run_end(row, from as int, black) == run_end(row, k as int, black),
        decreases width - k,
    {
        assert(row[k as int] == bits_of(packed@)[k as int]);
        k = k + 1;
    }
    k
}

/// Appends the bits of a mode.
fn emit_mode(bw: &mut MsbWriter, m: TwoDMode)
    requires
        old(bw).wf(),
    ensures
        final(bw).wf(),
        final(bw)@ == old(bw)@ + mode_bits(m),
{
    proof {
        reveal(mode_bits);
    }
    let ghost before = bw@;
    match m {
        TwoDMode::Pass => bw.put_value(1, 4),
        TwoDMode::Horizontal => bw.put_value(1, 3),
        TwoDMode::Vertical(o) => {
            if o == 0 {
                bw.put_value(1, 1);
            } else if o == 1 {
                bw.put_value(3, 3);
            } else if o == -1 {
                bw.put_value(2, 3);
            } else if o == 2 {
                bw.put_value(3, 6);
            } else if o == -2 {
                bw.put_value(2, 6);
            } else if o == 3 {
                bw.put_value(3, 7);
            } else {
                bw.put_value(2, 7);
            }
        },
        TwoDMode::Uncompressed | TwoDMode::Extension1D => {},
    }
    assert(bw@ =~= before + mode_bits(m));
}

/// The places that two-dimensional coding looks up depend on the first `width`
/// pixels alone.
proof fn lemma_same_changes(a: Seq<bool>, b: Seq<bool>, k: int, to_white: bool, width: int)
    requires
        0 <= k,
        forall|i: int| 0 <= i < width ==> #[trigger] a[i] == b[i],
    ensures
        change_from(a, k, to_white, width) == change_from(b, k, to_white, width),
    decreases width - k,
{
    if k < width {
        assert(a[k] == b[k] && a[0] == b[0]);
        if k > 0 {
            assert(a[k - 1] == b[k - 1]);
        }
        lemma_same_changes(a, b, k + 1, to_white, width);
    }
}

proof fn lemma_same_stretch(a: Seq<bool>, b: Seq<bool>, from: int, i: int, width: int)
    requires
        0 <= from < width,
        0 <= i,
        forall|j: int| 0 <= j < width ==> #[trigger] a[j] == b[j],
    ensures
        stretch_end(a, from, i, width) == stretch_end(b, from, i, width),
    decreases width - i,
{
    if i < width {
        assert(a[i] == b[i] && a[from] == b[from]);
        lemma_same_stretch(a, b, from, i + 1, width);
    }
}

/// The same places above, where the first `width` pixels are the same.
proof fn lemma_same_places(a: Seq<bool>, b: Seq<bool>, from: int, to_white: bool, width: int)
    requires
        0 <= from <= width,
        forall|i: int| 0 <= i < width ==> #[trigger] a[i] == b[i],
    ensures
        change_after(a, from, to_white, width) == change_after(b, from, to_white, width),
        other_after(a, change_after(a, from, to_white, width), width) == other_after(
            b,
            change_after(b, from, to_white, width),
            width,
        ),
{
    lemma_same_changes(a, b, if from == 0 { 0 } else { from + 1 }, to_white, width);
    lemma_places(a, from, to_white, width);
    let b1 = change_after(a, from, to_white, width);
    if b1 < width {
        lemma_same_stretch(a, b, b1, b1 + 1, width);
    }
}

/// Appends one mode of the code of a row against the packed row above it, and
/// gives the next pixel and the colour there.
fn emit_step(
    bw: &mut MsbWriter,
    packed: &[u8],
    reference: &[u8],
    width: usize,
    a0: usize,
    white: bool,
    Ghost(row): Ghost<Seq<bool>>,
    Ghost(above): Ghost<Seq<bool>>,
) -> (r: (usize, bool))
    requires
        old(bw).wf(),
        a0 < width <= u32::MAX,
        width <= 8 * packed@.len(),
        width <= 8 * reference@.len(),
        row == Seq::new(width as nat, |x: int| bits_of(packed@)[x]),
        forall|x: int| 0 <= x < width ==> #[trigger] above[x] == bits_of(reference@)[x],
    ensures
        final(bw).wf(),
        final(bw)@ == old(bw)@ + two_d_step(row, above, a0 as int, white).0,
        r.0 == two_d_step(row, above, a0 as int, white).1,
        r.1 == two_d_step(row, above, a0 as int, white).2,
{
    let ghost before = bw@;
    proof {
        lemma_run_end(row, a0 as int, !white);
        lemma_places(above, a0 as int, !white, width as int);
        lemma_same_places(above, bits_of(reference@), a0 as int, !white, width as int);
    }
    let a1: usize = run_end_at(packed, a0, !white, width, Ghost(row));
    let b1: usize = first_change_after(reference, a0, !white, width);
    let b2: usize = next_change_after(reference, b1, width);
    let far: i64 = a1 as i64 - b1 as i64;
    if a0 < b2 && b2 < a1 {
        emit_mode(bw, TwoDMode::Pass);
        return (b2, white);
    }
    if -3 <= far && far <= 3 {
        emit_mode(bw, TwoDMode::Vertical(far as i32));
        return (a1, !white);
    }
    proof {
        lemma_run_end(row, a1 as int, white);
    }
    let a2: usize = run_end_at(packed, a1, white, width, Ghost(row));
    emit_mode(bw, TwoDMode::Horizontal);
    emit_run(bw, a1 - a0, white);
    emit_run(bw, a2 - a1, !white);
    proof {
        let mode = mode_bits(TwoDMode::Horizontal);
        let first = run_code(a1 - a0, white);
        let second = run_code(a2 - a1, !white);
        assert(before + mode + first + second =~= before + (mode + first + second));
    }
    (a2, white)
}

/// Appends the code of a row against the packed row above it.
fn emit_two_d(
    bw: &mut MsbWriter,
    packed: &[u8],
    reference: &[u8],
    width: usize,
    Ghost(row): Ghost<Seq<bool>>,
    Ghost(above): Ghost<Seq<bool>>,
)
    requires
        old(bw).wf(),
        width <= u32::MAX,
        width <= 8 * packed@.len(),
        width <= 8 * reference@.len(),
        row == Seq::new(width as nat, |x: int| bits_of(packed@)[x]),
        forall|x: int| 0 <= x < width ==> #[trigger] above[x] == bits_of(reference@)[x],
    ensures
        final(bw).wf(),
        final(bw)@ == old(bw)@ + two_d_code(row, above, 0, true),
{
    let ghost goal = bw@ + two_d_code(row, above, 0, true);
    let mut a0: usize = 0;
    let mut white: bool = true;
    while a0 < width
        invariant
            a0 <= width <= u32::MAX,
            bw.wf(),
            width <= 8 * packed@.len(),
            width <= 8 * reference@.len(),
            row == Seq::new(width as nat, |x: int| bits_of(packed@)[x]),
            forall|x: int| 0 <= x < width ==> #[trigger] above[x] == bits_of(reference@)[x],
            bw@ + two_d_code(row, above, a0 as int, white) == goal,
        decreases width - a0, other_colour(row, a0 as int, white),
    {
        let ghost before = bw@;
        let ghost (code, next, colour) = two_d_step(row, above, a0 as int, white);
        proof {
            lemma_step(row, above, a0 as int, white);
        }
        let r: (usize, bool) = emit_step(bw, packed, reference, width, a0, white, Ghost(row), Ghost(above));
        assert(before + code + two_d_code(row, above, next, colour) =~= before + (code + two_d_code(
            row,
            above,
            next,
            colour,
        )));
        a0 = r.0;
        white = r.1;
    }
    assert(bw@ + Seq::<bool>::empty() =~= bw@);
}

/// Appends what precedes a row.
fn emit_lead(bw: &mut MsbWriter, variant: CcittVariant, two_d: bool)
    requires
        old(bw).wf(),
    ensures
        final(bw).wf(),
        final(bw)@ == old(bw)@ + row_lead(old(bw)@.len() as int, variant, two_d),
{
    let ghost acc = bw@;
    let aligned: bool = match variant {
        CcittVariant::T4OneD { eol_byte_aligned } => eol_byte_aligned,
        CcittVariant::T4TwoD { eol_byte_aligned } => eol_byte_aligned,
        CcittVariant::ModifiedHuffman | CcittVariant::T6 => {
            assert(bw@ =~= acc + row_lead(acc.len() as int, variant, two_d));
            return ;
        },
    };
    if aligned {
        let pad: u8 = (12 - bw.used) % 8;
        bw.put_value(0, pad as u32);
        proof {
            lemma_zero_bits(pad as nat);
        }
    }
    bw.put_value(1, 12);
    assert(bw@ =~= acc + eol_bits(acc.len() as int, aligned));
    if let CcittVariant::T4TwoD { .. } = variant {
        bw.put(!two_d);
    }
    assert(bw@ =~= acc + row_lead(acc.len() as int, variant, two_d));
}

/// The pixels of a row of packed rows are those of its bytes.
proof fn lemma_row_bytes(input: Seq<u8>, packed: Seq<u8>, width: int, r: int)
    requires
        0 <= width,
        0 <= r,
        row_size(width) * r + row_size(width) <= input.len(),
        packed == input.subrange(row_size(width) * r, row_size(width) * r + row_size(width)),
    ensures
        row_of(input, width, r) == Seq::new(width as nat, |x: int| bits_of(packed)[x]),
{
    let n = row_size(width);
    assert(0 <= n * r) by (nonlinear_arith)
        requires
            n >= 0,
            r >= 0,
    ;
    assert forall|x: int| 0 <= x < width implies bits_of(input)[8 * (n * r) + x] == bits_of(packed)[x] by {
        assert((8 * (n * r) + x) / 8 == n * r + x / 8);
        assert((8 * (n * r) + x) % 8 == x % 8);
        assert(packed[x / 8] == input[n * r + x / 8]);
    }
    assert(row_of(input, width, r) =~= Seq::new(width as nat, |x: int| bits_of(packed)[x]));
}

/// Encodes packed rows.
#[verifier::loop_isolation(false)]
#[verifier::rlimit(40)]
pub fn encode_ccitt(input: &[u8], width: u32, rows: u32, variant: CcittVariant, fill: FillOrder) -> (r: Result<Vec<u8>>)
    ensures
        bytes_agree(r, ccitt_encode(input@, width as int, rows as int, variant, fill)),
{
    let size: usize = packed_size(width as usize);
    proof {
        assert(size * rows <= 0x2000_0000 * 0x1_0000_0000) by (nonlinear_arith)
            requires
                0 <= size <= 0x2000_0000,
                0 <= rows <= 0x1_0000_0000,
        ;
    }
    let need: u128 = size as u128 * rows as u128;
    if (input.len() as u128) < need {
        return Err(TiffError::invalid("TIFF/CCITT encode: input buffer too short"));
    }
    let mut bw = MsbWriter::new();
    let ghost goal = with_rows(Seq::empty(), input@, width as int, 0, rows as int, variant);
    let blank: Vec<u8> = white_row(size);
    let mut r: u32 = 0;
    while r < rows
        invariant
            r <= rows,
            bw.wf(),
            goal == with_rows(bw@, input@, width as int, r as int, rows as int, variant),
        decreases rows - r,
    {
        let ghost acc = bw@;
        let two_d: bool = match variant {
            CcittVariant::T6 => true,
            CcittVariant::T4TwoD { .. } => r > 0,
            CcittVariant::ModifiedHuffman | CcittVariant::T4OneD { .. } => false,
        };
        emit_lead(&mut bw, variant, two_d);
        proof {
            assert(size * r + size <= size * rows) by (nonlinear_arith)
                requires
                    0 <= size,
                    0 <= r < rows,
            ;
        }
        let off: usize = size * (r as usize);
        let ghost row = row_of(input@, width as int, r as int);
        let ghost above = above_of(input@, width as int, r as int);
        let packed: &[u8] = &input[off..off + size];
        proof {
            lemma_row_bytes(input@, packed@, width as int, r as int);
        }
        if two_d {
            let reference: &[u8] = if r == 0 {
                assert forall|x: int| 0 <= x < width implies #[trigger] above[x] == bits_of(blank@)[x] by {
                }
                blank.as_slice()
            } else {
                assert(size * r == size * (r - 1) + size) by (nonlinear_arith);
                let prior: &[u8] = &input[off - size..off];
                proof {
                    lemma_row_bytes(input@, prior@, width as int, r - 1);
                }
                prior
            };
            emit_two_d(&mut bw, packed, reference, width as usize, Ghost(row), Ghost(above));
        } else {
            let runs = scan_runs(packed, width as usize, Ghost(row));
            emit_runs(&mut bw, &runs);
        }
        if let CcittVariant::ModifiedHuffman = variant {
            bw.align();
        }
        assert(bw@ =~= with_row(acc, row, above, variant, two_d));
        r = r + 1;
    }
    let mut out: Vec<u8> = bw.finish();
    if let FillOrder::LsbFirst = fill {
        reverse_bits_in_place(&mut out);
    }
    Ok(out)
}

/// The number 0 is written as 0 bits.
proof fn lemma_zero_bits(n: nat)
    ensures
        value_bits(0, n) == pixels(false, n as int),
    decreases n,
{
    if n > 0 {
        lemma_zero_bits((n - 1) as nat);
    }
    assert(value_bits(0, n) =~= pixels(false, n as int));
}

// ----------------------------------------------------------------------
// Decoding what was encoded
// ----------------------------------------------------------------------

/// The 13-bit strings that start with `n` bits of a stream are among those that
/// start with fewer.
proof fn lemma_strings_nest(bits: Seq<bool>, pos: int, l: int, n: int)
    requires
        0 <= l <= n <= 13,
    ensures
        scaled(bits_value(bits, pos, l as nat) as int, l) <= scaled(bits_value(bits, pos, n as nat) as int, n),
        scaled(bits_value(bits, pos, n as nat) as int, n) + room(n) <= scaled(bits_value(bits, pos, l as nat) as int, l)
            + room(l),
    decreases n - l,
{
    if l < n {
        lemma_strings_nest(bits, pos, l, n - 1);
        let v = bits_value(bits, pos, (n - 1) as nat) as int;
        let b = if bits[pos + n - 1] { 1int } else { 0int };
        assert(bits_value(bits, pos, n as nat) == 2 * v + b);
        assert(scaled(2 * v + b, n) == scaled(v, n - 1) + b * room(n));
        assert(room(n - 1) == 2 * room(n));
    }
}

proof fn lemma_place_matches(white: bool, len: int, code: int, i: int)
    requires
        0 <= i <= 104,
    ensures
        i <= place_of_code(white, len, code, i) <= 104,
        place_of_code(white, len, code, i) < 104 ==> fax_table(white)[place_of_code(white, len, code, i)].0 == len
            && fax_table(white)[place_of_code(white, len, code, i)].1 == code,
        forall|j: int|
            i <= j < 104 && (#[trigger] fax_table(white)[j]).0 == len && fax_table(white)[j].1 == code ==> place_of_code(
                white,
                len,
                code,
                i,
            ) <= j,
    decreases 104 - i,
{
    if i < 104 {
        lemma_place_matches(white, len, code, i + 1);
    }
}

/// The bits of entry `i` are read as that entry.
proof fn lemma_word_read(bits: Seq<bool>, pos: int, white: bool, i: int, len: int)
    requires
        0 <= pos,
        0 <= i < 104,
        1 <= len <= fax_table(white)[i].0,
        stands_at(bits, pos, value_bits(fax_table(white)[i].1 as nat, fax_table(white)[i].0 as nat)),
    ensures
        code_at(bits, pos, white, len) == Some(
            (
                if fax_table(white)[i].3 {
                    Code::MakeUp(fax_table(white)[i].2)
                } else {
                    Code::Terminating(fax_table(white)[i].2)
                },
                pos + fax_table(white)[i].0,
            ),
        ),
    decreases fax_table(white)[i].0 - len,
{
    let e = fax_table(white)[i];
    let n = e.0 as int;
    lemma_entries(white);
    lemma_value_bits_len(e.1 as nat, e.0 as nat);
    assert((e.1 as nat) < vstd::arithmetic::power2::pow2(e.0 as nat)) by {
        vstd::arithmetic::power2::lemma2_to64();
    }
    lemma_read_where_written(bits, pos, e.1 as nat, e.0 as nat);
    lemma_strings_nest(bits, pos, len, n);
    let v = bits_value(bits, pos, len as nat) as int;
    lemma_place_matches(white, len, v, 0);
    let j = place_of_code(white, len, v, 0);
    if j < 104 && j != i {
        if j < i {
            lemma_apart(white, j, i);
        } else {
            lemma_apart(white, i, j);
        }
        assert(false);
    }
    if len < n {
        lemma_word_read(bits, pos, white, i, len + 1);
    }
}

/// The code of a run is read as that run.
proof fn lemma_run_read(bits: Seq<bool>, pos: int, white: bool, run: int, total: int)
    requires
        0 <= pos,
        0 <= run,
        stands_at(bits, pos, run_code(run, white)),
    ensures
        run_at(bits, pos, white, total) == Some((total + run, pos + run_code(run, white).len())),
    decreases run,
{
    if run >= 2624 {
        lemma_code_place(white, 2560, true);
        let i = code_place(white, 2560, true);
        lemma_entries(white);
        lemma_stands_split(bits, pos, word_bits(white, 2560, true), run_code(run - 2560, white));
        lemma_word_read(bits, pos, white, i, 1);
        lemma_value_bits_len(fax_table(white)[i].1 as nat, fax_table(white)[i].0 as nat);
        let end = pos + word_bits(white, 2560, true).len();
        lemma_run_read(bits, end, white, run - 2560, total + 2560);
    } else if run >= 64 {
        let lead = run / 64 * 64;
        lemma_code_place(white, lead, true);
        lemma_code_place(white, run % 64, false);
        lemma_entries(white);
        let i = code_place(white, lead, true);
        let j = code_place(white, run % 64, false);
        lemma_stands_split(bits, pos, word_bits(white, lead, true), word_bits(white, run % 64, false));
        lemma_word_read(bits, pos, white, i, 1);
        lemma_value_bits_len(fax_table(white)[i].1 as nat, fax_table(white)[i].0 as nat);
        lemma_value_bits_len(fax_table(white)[j].1 as nat, fax_table(white)[j].0 as nat);
        let end = pos + word_bits(white, lead, true).len();
        lemma_word_read(bits, end, white, j, 1);
        assert(run_at(bits, end, white, total + lead) == Some((total + run, pos + run_code(run, white).len())));
    } else {
        lemma_code_place(white, run, false);
        lemma_entries(white);
        let j = code_place(white, run, false);
        lemma_value_bits_len(fax_table(white)[j].1 as nat, fax_table(white)[j].0 as nat);
        lemma_word_read(bits, pos, white, j, 1);
    }
}

proof fn lemma_runs_code_shift(a: int, s: Seq<int>, i: int, white: bool)
    requires
        0 <= i <= s.len(),
    ensures
        runs_code(seq![a] + s, i + 1, white) == runs_code(s, i, white),
    decreases s.len() - i,
{
    if i < s.len() {
        assert((seq![a] + s)[i + 1] == s[i]);
        lemma_runs_code_shift(a, s, i + 1, !white);
    }
}

/// The code of the runs of a row is read as the row.
proof fn lemma_row_read(bits: Seq<bool>, pos: int, row: Seq<bool>, x: int, black: bool, len: int)
    requires
        0 <= pos,
        0 <= len <= x <= row.len(),
        row.len() > 0,
        len > 0 || x == 0,
        forall|k: int| x - len <= k < x ==> #[trigger] row[k] == black,
        stands_at(bits, pos, runs_code(runs_from(row, x, black, len), 0, !black)),
    ensures
        one_d_row(bits, pos, row.len() as int, row.take(x - len), !black) == Some(
            (row, pos + runs_code(runs_from(row, x, black, len), 0, !black).len()),
        ),
    decreases row.len() - x,
{
    let code = runs_code(runs_from(row, x, black, len), 0, !black);
    let before = row.take(x - len);
    if x < row.len() && row[x] == black {
        lemma_row_read(bits, pos, row, x + 1, black, len + 1);
        assert(x + 1 - (len + 1) == x - len);
    } else {
        let rest = if x >= row.len() { Seq::empty() } else { runs_from(row, x + 1, !black, 1) };
        assert(runs_from(row, x, black, len) =~= seq![len] + rest);
        lemma_runs_code_shift(len, rest, 0, black);
        let tail = runs_code(rest, 0, black);
        assert(code == run_code(len, !black) + tail);
        lemma_stands_split(bits, pos, run_code(len, !black), tail);
        lemma_run_read(bits, pos, !black, len, 0);
        let end = pos + run_code(len, !black).len();
        assert(before + pixels(black, len) =~= row.take(x));
        assert(one_d_row(bits, pos, row.len() as int, before, !black) == one_d_row(
            bits,
            end,
            row.len() as int,
            row.take(x),
            black,
        ));
        if x < row.len() {
            lemma_row_read(bits, end, row, x + 1, !black, 1);
            assert(x + 1 - 1 == x);
        } else {
            assert(row.take(x) =~= row);
            assert(tail =~= Seq::empty());
        }
    }
}

/// A frame of 0 bits and a 1 bit is read as an end of line.
proof fn lemma_eol_read(bits: Seq<bool>, pos: int, zeros: int, n: int, aligned: bool)
    requires
        0 <= pos,
        0 <= zeros,
        0 <= n,
        pos + n < bits.len(),
        11 <= zeros + n <= 1024,
        forall|j: int| pos <= j < pos + n ==> !#[trigger] bits[j],
        bits[pos + n],
        aligned ==> (pos + n + 1) % 8 == 0,
    ensures
        eol_end(bits, pos, zeros, aligned) == Some(pos + n + 1),
    decreases n,
{
    if n > 0 {
        assert(!bits[pos]);
        lemma_eol_read(bits, pos + 1, zeros + 1, n - 1, aligned);
    }
}

proof fn lemma_eol_bits()
    ensures
        value_bits(1, 12).len() == 12,
        value_bits(1, 12)[11],
        forall|j: int| 0 <= j < 11 ==> !#[trigger] value_bits(1, 12)[j],
{
    lemma_value_bits_len(0, 11);
    lemma_zero_bits(11);
    assert(value_bits(1, 12) == value_bits(0, 11).push(true));
}

proof fn lemma_with_rows_prefix(acc: Seq<bool>, input: Seq<u8>, width: int, r: int, rows: int, variant: CcittVariant)
    ensures
        acc.len() <= with_rows(acc, input, width, r, rows, variant).len(),
        with_rows(acc, input, width, r, rows, variant).take(acc.len() as int) == acc,
    decreases rows - r,
{
    let all = with_rows(acc, input, width, r, rows, variant);
    if r < rows {
        let acc2 = with_row(acc, row_of(input, width, r), above_of(input, width, r), variant, two_d_at(variant, r));
        lemma_with_rows_prefix(acc2, input, width, r + 1, rows, variant);
        assert forall|k: int| 0 <= k < acc.len() implies all[k] == acc[k] by {
            assert(all.take(acc2.len() as int)[k] == acc2[k]);
        }
    }
    assert(all.take(acc.len() as int) =~= acc);
}

/// The rows from number `r` on, packed, with white fill.
pub open spec fn clean_rows(input: Seq<u8>, width: int, r: int, rows: int) -> Seq<u8>
    decreases rows - r,
{
    if r >= rows {
        Seq::empty()
    } else {
        bytes_of(row_of(input, width, r)) + clean_rows(input, width, r + 1, rows)
    }
}

/// The bits of a mode are read as the mode.
proof fn lemma_mode_read(bits: Seq<bool>, pos: int, m: TwoDMode)
    requires
        0 <= pos,
        m is Pass || m is Horizontal || (m matches TwoDMode::Vertical(o) && -3 <= o <= 3),
        stands_at(bits, pos, mode_bits(m)),
    ensures
        mode_at(bits, pos, 1) == Some((m, pos + mode_bits(m).len())),
{
    let (v, n): (nat, nat) = match m {
        TwoDMode::Pass => (1, 4),
        TwoDMode::Horizontal => (1, 3),
        TwoDMode::Vertical(o) => if o == 0 {
            (1, 1)
        } else if o == 1 {
            (3, 3)
        } else if o == -1 {
            (2, 3)
        } else if o == 2 {
            (3, 6)
        } else if o == -2 {
            (2, 6)
        } else if o == 3 {
            (3, 7)
        } else {
            (2, 7)
        },
        _ => (0, 0),
    };
    reveal(mode_bits);
    vstd::arithmetic::power2::lemma2_to64();
    lemma_value_bits_len(v, n);
    lemma_read_where_written(bits, pos, v, n);
    reveal_with_fuel(bits_value, 8);
    reveal_with_fuel(mode_at, 8);
}

/// A mode is read as what it codes, against a row above with the same pixels.
proof fn lemma_step_read(
    bits: Seq<bool>,
    pos: int,
    row: Seq<bool>,
    above: Seq<bool>,
    seen: Seq<bool>,
    a0: int,
    white: bool,
)
    requires
        0 <= pos,
        0 <= a0 < row.len(),
        forall|i: int| 0 <= i < row.len() ==> #[trigger] above[i] == seen[i],
        stands_at(bits, pos, two_d_step(row, above, a0, white).0),
    ensures
        ({
            let (code, next, colour) = two_d_step(row, above, a0, white);
            two_d_row(bits, pos, seen, row.len() as int, row.take(a0), white) == two_d_row(
                bits,
                pos + code.len(),
                seen,
                row.len() as int,
                row.take(next),
                colour,
            )
        }),
{
    let width = row.len() as int;
    let part = row.take(a0);
    let a1 = run_end(row, a0, !white);
    let b1 = change_after(above, a0, !white, width);
    let b2 = other_after(above, b1, width);
    lemma_run_end(row, a0, !white);
    lemma_places(above, a0, !white, width);
    lemma_same_places(above, seen, a0, !white, width);
    if a0 < b2 < a1 {
        lemma_mode_read(bits, pos, TwoDMode::Pass);
        assert(part + pixels(!white, b2 - a0) =~= row.take(b2));
    } else if -3 <= a1 - b1 <= 3 {
        lemma_mode_read(bits, pos, TwoDMode::Vertical((a1 - b1) as i32));
        assert(part + pixels(!white, a1 - a0) =~= row.take(a1));
    } else {
        let a2 = run_end(row, a1, white);
        lemma_run_end(row, a1, white);
        let head = mode_bits(TwoDMode::Horizontal);
        let first = run_code(a1 - a0, white);
        let second = run_code(a2 - a1, !white);
        lemma_stands_split(bits, pos, head + first, second);
        lemma_stands_split(bits, pos, head, first);
        lemma_mode_read(bits, pos, TwoDMode::Horizontal);
        let p1 = pos + head.len();
        let p2 = p1 + first.len();
        lemma_run_read(bits, p1, white, a1 - a0, 0);
        lemma_run_read(bits, p2, !white, a2 - a1, 0);
        assert(part + pixels(!white, a1 - a0) + pixels(white, a2 - a1) =~= row.take(a2));
    }
}

/// The code of a row is read as the row, against a row above with the same pixels.
proof fn lemma_two_d_read(
    bits: Seq<bool>,
    pos: int,
    row: Seq<bool>,
    above: Seq<bool>,
    seen: Seq<bool>,
    a0: int,
    white: bool,
)
    requires
        0 <= pos,
        0 <= a0 <= row.len(),
        forall|i: int| 0 <= i < row.len() ==> #[trigger] above[i] == seen[i],
        stands_at(bits, pos, two_d_code(row, above, a0, white)),
    ensures
        two_d_row(bits, pos, seen, row.len() as int, row.take(a0), white) == Some(
            (row, pos + two_d_code(row, above, a0, white).len()),
        ),
    decreases row.len() - a0, other_colour(row, a0, white),
{
    if a0 >= row.len() {
        assert(row.take(a0) =~= row);
    } else {
        let (code, next, colour) = two_d_step(row, above, a0, white);
        lemma_step(row, above, a0, white);
        lemma_stands_split(bits, pos, code, two_d_code(row, above, next, colour));
        lemma_step_read(bits, pos, row, above, seen, a0, white);
        lemma_two_d_read(bits, pos + code.len(), row, above, seen, next, colour);
    }
}

/// An end of line is read as one.
proof fn lemma_eol_at(bits: Seq<bool>, pos: int, aligned: bool)
    requires
        0 <= pos,
        stands_at(bits, pos, eol_bits(pos, aligned)),
    ensures
        eol_end(bits, pos, 0, aligned) == Some(pos + eol_bits(pos, aligned).len()),
{
    let lead = eol_bits(pos, aligned);
    let pad = if aligned { (12 - pos % 8) % 8 } else { 0 };
    lemma_eol_bits();
    assert forall|j: int| pos <= j < pos + (pad + 11) implies !#[trigger] bits[j] by {
        assert(bits[j] == lead[j - pos]);
    }
    assert(bits[pos + (pad + 11)] == lead[pad + 11]);
    lemma_eol_read(bits, pos, 0, pad + 11, aligned);
}

/// What precedes a row is read as its frame.
proof fn lemma_lead_read(bits: Seq<bool>, pos: int, variant: CcittVariant, r: int)
    requires
        0 <= pos,
        stands_at(bits, pos, row_lead(pos, variant, two_d_at(variant, r))),
    ensures
        row_start(bits, pos, variant) == Some(
            (two_d_at(variant, r), pos + row_lead(pos, variant, two_d_at(variant, r)).len()),
        ),
{
    match variant {
        CcittVariant::T4OneD { eol_byte_aligned } => {
            lemma_eol_at(bits, pos, eol_byte_aligned);
        },
        CcittVariant::T4TwoD { eol_byte_aligned } => {
            let eol = eol_bits(pos, eol_byte_aligned);
            let tag = seq![!two_d_at(variant, r)];
            lemma_stands_split(bits, pos, eol, tag);
            lemma_eol_at(bits, pos, eol_byte_aligned);
            assert(bits[pos + eol.len()] == tag[0]);
        },
        _ => {},
    }
}

/// Where a row stands in the bits of all rows.
proof fn lemma_row_stands(
    bits: Seq<bool>,
    acc: Seq<bool>,
    input: Seq<u8>,
    width: int,
    r: int,
    rows: int,
    variant: CcittVariant,
)
    requires
        r < rows,
        stands_at(bits, 0, with_rows(acc, input, width, r, rows, variant)),
    ensures
        ({
            let two_d = two_d_at(variant, r);
            let lead = row_lead(acc.len() as int, variant, two_d);
            let code = row_code(row_of(input, width, r), above_of(input, width, r), two_d);
            &&& stands_at(bits, acc.len() as int, lead)
            &&& stands_at(bits, (acc.len() + lead.len()) as int, code)
        }),
{
    let two_d = two_d_at(variant, r);
    let row = row_of(input, width, r);
    let above = above_of(input, width, r);
    let pos = acc.len() as int;
    let lead = row_lead(pos, variant, two_d);
    let code = row_code(row, above, two_d);
    let a = acc + lead + code;
    let acc2 = with_row(acc, row, above, variant, two_d);
    assert(acc2 == a + row_tail(a.len() as int, variant));
    let all = with_rows(acc, input, width, r, rows, variant);
    lemma_with_rows_prefix(acc2, input, width, r + 1, rows, variant);
    assert forall|j: int| pos <= j < pos + (lead + code).len() implies #[trigger] bits[j] == (lead + code)[j - pos] by {
        assert(bits[j] == all[j]);
        assert(all.take(acc2.len() as int)[j] == acc2[j]);
    }
    assert(stands_at(bits, pos, lead + code));
    lemma_stands_split(bits, pos, lead, code);
}

proof fn lemma_rows_read(
    bits: Seq<bool>,
    acc: Seq<bool>,
    input: Seq<u8>,
    width: int,
    r: int,
    rows: int,
    variant: CcittVariant,
    seen: Seq<bool>,
    out: Seq<u8>,
)
    requires
        width > 0,
        0 <= r <= rows,
        stands_at(bits, 0, with_rows(acc, input, width, r, rows, variant)),
        forall|i: int| 0 <= i < width ==> #[trigger] above_of(input, width, r)[i] == seen[i],
    ensures
        rows_at(bits, acc.len() as int, width, rows - r, variant, seen, out) == Some(
            out + clean_rows(input, width, r, rows),
        ),
    decreases rows - r,
{
    if r == rows {
        assert(out + clean_rows(input, width, r, rows) =~= out);
    } else {
        let two_d = two_d_at(variant, r);
        let row = row_of(input, width, r);
        let above = above_of(input, width, r);
        let pos = acc.len() as int;
        let lead = row_lead(pos, variant, two_d);
        let code = row_code(row, above, two_d);
        let a = acc + lead + code;
        let tail = row_tail(a.len() as int, variant);
        let acc2 = with_row(acc, row, above, variant, two_d);
        assert(acc2 == a + tail);
        lemma_row_stands(bits, acc, input, width, r, rows, variant);
        let begin = pos + lead.len();
        lemma_lead_read(bits, pos, variant, r);
        assert(row.take(0) =~= Seq::empty());
        let end = begin + code.len();
        if two_d {
            lemma_two_d_read(bits, begin, row, above, seen, 0, true);
            assert(two_d_row(bits, begin, seen, width, Seq::empty(), true) == Some((row, end)));
        } else {
            lemma_row_read(bits, begin, row, 0, false, 0);
            assert(one_d_row(bits, begin, width, Seq::empty(), true) == Some((row, end)));
        }
        assert(end == a.len());
        let next = if variant == CcittVariant::ModifiedHuffman { byte_edge(end) } else { end };
        assert(next == acc2.len());
        let packed = bits_of(bytes_of(row));
        lemma_bits_of_bytes_of(row);
        assert forall|i: int| 0 <= i < width implies #[trigger] above_of(input, width, r + 1)[i] == packed[i] by {
        }
        lemma_rows_read(bits, acc2, input, width, r + 1, rows, variant, packed, out + bytes_of(row));
        assert(out + clean_rows(input, width, r, rows) =~= out + bytes_of(row) + clean_rows(input, width, r + 1, rows));
    }
}

/// Decoding what was encoded gives the rows back, with the bits that fill up
/// the last byte of each row cleared, for rows of any content and any bit order.
pub proof fn law_ccitt_roundtrip(input: Seq<u8>, width: int, rows: int, variant: CcittVariant, fill: FillOrder)
    requires
        width > 0,
        rows >= 0,
        ccitt_encode(input, width, rows, variant, fill) is Ok,
    ensures
        ccitt_decode(ccitt_encode(input, width, rows, variant, fill)->Ok_0, width, rows, variant, fill) == Outcome::<
            Seq<u8>,
        >::Ok(clean_rows(input, width, 0, rows)),
{
    let all = with_rows(Seq::empty(), input, width, 0, rows, variant);
    let stream = bytes_of(all);
    let encoded = in_order(stream, fill);
    law_reverse_twice(stream);
    assert(in_order(encoded, fill) == stream);
    lemma_bits_of_bytes_of(all);
    let bits = bits_of(stream);
    assert(stands_at(bits, 0, all));
    assert forall|i: int| 0 <= i < width implies #[trigger] above_of(input, width, 0)[i] == bits_of(blank_row(width))[i] by {
        crate::bits::lemma_no_bit(i % 8);
    }
    lemma_rows_read(
        bits,
        Seq::empty(),
        input,
        width,
        0,
        rows,
        variant,
        bits_of(blank_row(width)),
        Seq::empty(),
    );
    assert(Seq::<u8>::empty() + clean_rows(input, width, 0, rows) =~= clean_rows(input, width, 0, rows));
}

/// Every row of packed rows is filled up with 0 bits.
pub open spec fn rows_are_clean(input: Seq<u8>, width: int, rows: int) -> bool {
    forall|r: int, k: int|
        0 <= r < rows && width <= k < 8 * row_size(width) ==> !#[trigger] bits_of(input)[8 * (row_size(width) * r) + k]
}

proof fn lemma_clean_rows_from(input: Seq<u8>, width: int, r: int, rows: int)
    requires
        width >= 0,
        0 <= r <= rows,
        input.len() == row_size(width) * rows,
        rows_are_clean(input, width, rows),
    ensures
        clean_rows(input, width, r, rows) == input.subrange(row_size(width) * r, input.len() as int),
    decreases rows - r,
{
    let n = row_size(width);
    assert(n * r <= n * rows) by (nonlinear_arith)
        requires
            n >= 0,
            r <= rows,
    ;
    assert(0 <= n * r) by (nonlinear_arith)
        requires
            n >= 0,
            r >= 0,
    ;
    if r < rows {
        assert(n * r + n == n * (r + 1)) by (nonlinear_arith);
        assert(n * (r + 1) <= n * rows) by (nonlinear_arith)
            requires
                n >= 0,
                r + 1 <= rows,
        ;
        let row = row_of(input, width, r);
        let packed = input.subrange(n * r, n * r + n);
        assert(packs(packed, row)) by {
            assert forall|k: int| 0 <= k < 8 * packed.len() implies #[trigger] bits_of(packed)[k] == (k < row.len()
                && row[k]) by {
                assert((8 * (n * r) + k) / 8 == n * r + k / 8);
                assert((8 * (n * r) + k) % 8 == k % 8);
                assert(packed[k / 8] == input[n * r + k / 8]);
                assert(bits_of(input)[8 * (n * r) + k] == bits_of(packed)[k]);
            }
        }
        lemma_packs_bytes(packed, row);
        lemma_clean_rows_from(input, width, r + 1, rows);
        assert(clean_rows(input, width, r, rows) =~= input.subrange(n * r, input.len() as int));
    } else {
        assert(clean_rows(input, width, r, rows) =~= input.subrange(n * r, input.len() as int));
    }
}

/// Rows that are filled up with 0 bits come back as they were.
pub proof fn law_clean_rows(input: Seq<u8>, width: int, rows: int)
    requires
        width >= 0,
        rows >= 0,
        input.len() == row_size(width) * rows,
        rows_are_clean(input, width, rows),
    ensures
        clean_rows(input, width, 0, rows) == input,
{
    lemma_clean_rows_from(input, width, 0, rows);
    assert(input.subrange(0, input.len() as int) =~= input);
}

/// Sum of run lengths.
pub open spec fn total_run(runs: Seq<int>) -> int
    decreases runs.len(),
{
    if runs.len() == 0 {
        0
    } else {
        runs[0] + total_run(runs.skip(1))
    }
}

proof fn lemma_runs_total(row: Seq<bool>, x: int, black: bool, len: int)
    requires
        0 <= x <= row.len(),
    ensures
        total_run(runs_from(row, x, black, len)) == len + (row.len() - x),
    decreases row.len() - x,
{
    if x >= row.len() {
        assert(seq![len].skip(1) =~= Seq::empty());
        assert(total_run(Seq::empty()) == 0);
    } else if row[x] == black {
        lemma_runs_total(row, x + 1, black, len + 1);
    } else {
        lemma_runs_total(row, x + 1, !black, 1);
        let rest = runs_from(row, x + 1, !black, 1);
        assert((seq![len] + rest).skip(1) =~= rest);
    }
}

/// The runs of a row cover it.
pub proof fn law_runs_cover_row(row: Seq<bool>)
    ensures
        total_run(row_runs(row)) == row.len(),
{
    lemma_runs_total(row, 0, false, 0);
}

/// A stream read least significant bit first decodes as its bytes, bits
/// reversed, do most significant bit first.
pub proof fn law_fill_order(input: Seq<u8>, width: int, rows: int, variant: CcittVariant)
    ensures
        ccitt_decode(reversed_all(input), width, rows, variant, FillOrder::LsbFirst) == ccitt_decode(
            input,
            width,
            rows,
            variant,
            FillOrder::MsbFirst,
        ),
{
    law_reverse_twice(input);
}

} // verus!
