//! Huffman tables of JPEG streams: how a table is specified, which code words
//! that gives, and how a table is made for given symbol counts.
use vstd::prelude::*;
use vstd::arithmetic::power2::{lemma2_to64, lemma_pow2_adds, lemma_pow2_pos, lemma_pow2_unfold, pow2};
use crate::bits::value_bits;
use crate::error::{invalid_with, Result, TiffError};

verus! {

/// Codes of each length for differences of luminance averages.
pub const BITS_DC_LUMINANCE: [u8; 16] = [0, 1, 5, 1, 1, 1, 1, 1, 1, 0, 0, 0, 0, 0, 0, 0];

/// Symbols for differences of luminance averages, in code order.
pub const VAL_DC_LUMINANCE: [u8; 12] = [0, 1, 2, 3, 4, 5, 6, 7, 8, 9, 10, 11];

/// Codes of each length for differences of chrominance averages.
pub const BITS_DC_CHROMINANCE: [u8; 16] = [0, 3, 1, 1, 1, 1, 1, 1, 1, 1, 1, 0, 0, 0, 0, 0];

/// Symbols for differences of chrominance averages, in code order.
pub const VAL_DC_CHROMINANCE: [u8; 12] = [0, 1, 2, 3, 4, 5, 6, 7, 8, 9, 10, 11];

/// Codes of each length for luminance frequencies.
pub const BITS_AC_LUMINANCE: [u8; 16] = [0, 2, 1, 3, 3, 2, 4, 3, 5, 5, 4, 4, 0, 0, 1, 0x7D];

/// Symbols for luminance frequencies, in code order.
pub const VAL_AC_LUMINANCE: [u8; 162] = [
    0x01, 0x02, 0x03, 0x00, 0x04, 0x11, 0x05, 0x12, 0x21, 0x31, 0x41, 0x06, 0x13, 0x51, 0x61, 0x07,
    0x22, 0x71, 0x14, 0x32, 0x81, 0x91, 0xA1, 0x08, 0x23, 0x42, 0xB1, 0xC1, 0x15, 0x52, 0xD1, 0xF0,
    0x24, 0x33, 0x62, 0x72, 0x82, 0x09, 0x0A, 0x16, 0x17, 0x18, 0x19, 0x1A, 0x25, 0x26, 0x27, 0x28,
    0x29, 0x2A, 0x34, 0x35, 0x36, 0x37, 0x38, 0x39, 0x3A, 0x43, 0x44, 0x45, 0x46, 0x47, 0x48, 0x49,
    0x4A, 0x53, 0x54, 0x55, 0x56, 0x57, 0x58, 0x59, 0x5A, 0x63, 0x64, 0x65, 0x66, 0x67, 0x68, 0x69,
    0x6A, 0x73, 0x74, 0x75, 0x76, 0x77, 0x78, 0x79, 0x7A, 0x83, 0x84, 0x85, 0x86, 0x87, 0x88, 0x89,
    0x8A, 0x92, 0x93, 0x94, 0x95, 0x96, 0x97, 0x98, 0x99, 0x9A, 0xA2, 0xA3, 0xA4, 0xA5, 0xA6, 0xA7,
    0xA8, 0xA9, 0xAA, 0xB2, 0xB3, 0xB4, 0xB5, 0xB6, 0xB7, 0xB8, 0xB9, 0xBA, 0xC2, 0xC3, 0xC4, 0xC5,
    0xC6, 0xC7, 0xC8, 0xC9, 0xCA, 0xD2, 0xD3, 0xD4, 0xD5, 0xD6, 0xD7, 0xD8, 0xD9, 0xDA, 0xE1, 0xE2,
    0xE3, 0xE4, 0xE5, 0xE6, 0xE7, 0xE8, 0xE9, 0xEA, 0xF1, 0xF2, 0xF3, 0xF4, 0xF5, 0xF6, 0xF7, 0xF8,
    0xF9, 0xFA,
];

/// Codes of each length for chrominance frequencies.
pub const BITS_AC_CHROMINANCE: [u8; 16] = [0, 2, 1, 2, 4, 4, 3, 4, 7, 5, 4, 4, 0, 1, 2, 0x77];

/// Symbols for chrominance frequencies, in code order.
pub const VAL_AC_CHROMINANCE: [u8; 162] = [
    0x00, 0x01, 0x02, 0x03, 0x11, 0x04, 0x05, 0x21, 0x31, 0x06, 0x12, 0x41, 0x51, 0x07, 0x61, 0x71,
    0x13, 0x22, 0x32, 0x81, 0x08, 0x14, 0x42, 0x91, 0xA1, 0xB1, 0xC1, 0x09, 0x23, 0x33, 0x52, 0xF0,
    0x15, 0x62, 0x72, 0xD1, 0x0A, 0x16, 0x24, 0x34, 0xE1, 0x25, 0xF1, 0x17, 0x18, 0x19, 0x1A, 0x26,
    0x27, 0x28, 0x29, 0x2A, 0x35, 0x36, 0x37, 0x38, 0x39, 0x3A, 0x43, 0x44, 0x45, 0x46, 0x47, 0x48,
    0x49, 0x4A, 0x53, 0x54, 0x55, 0x56, 0x57, 0x58, 0x59, 0x5A, 0x63, 0x64, 0x65, 0x66, 0x67, 0x68,
    0x69, 0x6A, 0x73, 0x74, 0x75, 0x76, 0x77, 0x78, 0x79, 0x7A, 0x82, 0x83, 0x84, 0x85, 0x86, 0x87,
    0x88, 0x89, 0x8A, 0x92, 0x93, 0x94, 0x95, 0x96, 0x97, 0x98, 0x99, 0x9A, 0xA2, 0xA3, 0xA4, 0xA5,
    0xA6, 0xA7, 0xA8, 0xA9, 0xAA, 0xB2, 0xB3, 0xB4, 0xB5, 0xB6, 0xB7, 0xB8, 0xB9, 0xBA, 0xC2, 0xC3,
    0xC4, 0xC5, 0xC6, 0xC7, 0xC8, 0xC9, 0xCA, 0xD2, 0xD3, 0xD4, 0xD5, 0xD6, 0xD7, 0xD8, 0xD9, 0xDA,
    0xE2, 0xE3, 0xE4, 0xE5, 0xE6, 0xE7, 0xE8, 0xE9, 0xEA, 0xF2, 0xF3, 0xF4, 0xF5, 0xF6, 0xF7, 0xF8,
    0xF9, 0xFA,
];

/// Place in code order of each symbol for luminance frequencies; 255 for those
/// without a code.
pub const PLACE_AC_LUMINANCE: [u8; 256] = [
      3,   0,   1,   2,   4,   6,  11,  15,  23,  37,  38, 255, 255, 255, 255, 255,
    255,   5,   7,  12,  18,  28,  39,  40,  41,  42,  43, 255, 255, 255, 255, 255,
    255,   8,  16,  24,  32,  44,  45,  46,  47,  48,  49, 255, 255, 255, 255, 255,
    255,   9,  19,  33,  50,  51,  52,  53,  54,  55,  56, 255, 255, 255, 255, 255,
    255,  10,  25,  57,  58,  59,  60,  61,  62,  63,  64, 255, 255, 255, 255, 255,
    255,  13,  29,  65,  66,  67,  68,  69,  70,  71,  72, 255, 255, 255, 255, 255,
    255,  14,  34,  73,  74,  75,  76,  77,  78,  79,  80, 255, 255, 255, 255, 255,
    255,  17,  35,  81,  82,  83,  84,  85,  86,  87,  88, 255, 255, 255, 255, 255,
    255,  20,  36,  89,  90,  91,  92,  93,  94,  95,  96, 255, 255, 255, 255, 255,
    255,  21,  97,  98,  99, 100, 101, 102, 103, 104, 105, 255, 255, 255, 255, 255,
    255,  22, 106, 107, 108, 109, 110, 111, 112, 113, 114, 255, 255, 255, 255, 255,
    255,  26, 115, 116, 117, 118, 119, 120, 121, 122, 123, 255, 255, 255, 255, 255,
    255,  27, 124, 125, 126, 127, 128, 129, 130, 131, 132, 255, 255, 255, 255, 255,
    255,  30, 133, 134, 135, 136, 137, 138, 139, 140, 141, 255, 255, 255, 255, 255,
    255, 142, 143, 144, 145, 146, 147, 148, 149, 150, 151, 255, 255, 255, 255, 255,
     31, 152, 153, 154, 155, 156, 157, 158, 159, 160, 161, 255, 255, 255, 255, 255,
];

/// Place in code order of each symbol for chrominance frequencies; 255 for those
/// without a code.
pub const PLACE_AC_CHROMINANCE: [u8; 256] = [
      0,   1,   2,   3,   5,   6,   9,  13,  20,  27,  36, 255, 255, 255, 255, 255,
    255,   4,  10,  16,  21,  32,  37,  43,  44,  45,  46, 255, 255, 255, 255, 255,
    255,   7,  17,  28,  38,  41,  47,  48,  49,  50,  51, 255, 255, 255, 255, 255,
    255,   8,  18,  29,  39,  52,  53,  54,  55,  56,  57, 255, 255, 255, 255, 255,
    255,  11,  22,  58,  59,  60,  61,  62,  63,  64,  65, 255, 255, 255, 255, 255,
    255,  12,  30,  66,  67,  68,  69,  70,  71,  72,  73, 255, 255, 255, 255, 255,
    255,  14,  33,  74,  75,  76,  77,  78,  79,  80,  81, 255, 255, 255, 255, 255,
    255,  15,  34,  82,  83,  84,  85,  86,  87,  88,  89, 255, 255, 255, 255, 255,
    255,  19,  90,  91,  92,  93,  94,  95,  96,  97,  98, 255, 255, 255, 255, 255,
    255,  23,  99, 100, 101, 102, 103, 104, 105, 106, 107, 255, 255, 255, 255, 255,
    255,  24, 108, 109, 110, 111, 112, 113, 114, 115, 116, 255, 255, 255, 255, 255,
    255,  25, 117, 118, 119, 120, 121, 122, 123, 124, 125, 255, 255, 255, 255, 255,
    255,  26, 126, 127, 128, 129, 130, 131, 132, 133, 134, 255, 255, 255, 255, 255,
    255,  35, 135, 136, 137, 138, 139, 140, 141, 142, 143, 255, 255, 255, 255, 255,
    255,  40, 144, 145, 146, 147, 148, 149, 150, 151, 152, 255, 255, 255, 255, 255,
     31,  42, 153, 154, 155, 156, 157, 158, 159, 160, 161, 255, 255, 255, 255, 255,
];

// ----------------------------------------------------------------------
// Code words of a table
// ----------------------------------------------------------------------

/// A Huffman table as it is written: `bits[i]` codes of `i + 1` bits, and the
/// symbols in code order.
#[derive(Debug, Clone, PartialEq, Eq)]
pub struct HuffSpec {
    /// How many codes there are of each length, from 1 bit on.
    pub bits: [u8; 16],
    /// The symbols, in code order.
    pub vals: Vec<u8>,
}

/// What a table says.
#[verifier::ext_equal]
pub struct HuffModel {
    pub bits: Seq<u8>,
    pub vals: Seq<u8>,
}

impl View for HuffSpec {
    type V = HuffModel;

    open spec fn view(&self) -> HuffModel {
        HuffModel { bits: self.bits@, vals: self.vals@ }
    }
}

/// Codes of at most `n` bits.
pub open spec fn code_count(bits: Seq<u8>, n: int) -> int
    decreases n,
{
    if n <= 0 { 0 } else { code_count(bits, n - 1) + bits[n - 1] }
}

/// Lengths of the codes of at most `n` bits, in code order.
pub open spec fn code_sizes(bits: Seq<u8>, n: int) -> Seq<int>
    decreases n,
{
    if n <= 0 { Seq::empty() } else { code_sizes(bits, n - 1) + Seq::new(bits[n - 1] as nat, |k: int| n) }
}

/// Code `k`: codes of one length are consecutive, and a longer code follows the
/// codes before it, extended by 0 bits.
pub open spec fn code_at(sizes: Seq<int>, k: int) -> int
    decreases k,
{
    if k <= 0 { 0 } else { (code_at(sizes, k - 1) + 1) * pow2((sizes[k] - sizes[k - 1]) as nat) }
}

/// There are as many symbols as codes.
pub open spec fn spec_valid(bits: Seq<u8>, vals: Seq<u8>) -> bool {
    code_count(bits, 16) == vals.len() && vals.len() <= 256
}

/// The table gives every symbol one code of at most 16 bits.
pub open spec fn spec_usable(bits: Seq<u8>, vals: Seq<u8>) -> bool {
    let sizes = code_sizes(bits, 16);
    &&& spec_valid(bits, vals)
    &&& forall|k: int| 0 <= k < vals.len() ==> #[trigger] code_at(sizes, k) <= u16::MAX
    &&& vals.no_duplicates()
}

/// The code word of a symbol, if the table has one for it.
pub open spec fn code_word(bits: Seq<u8>, vals: Seq<u8>, symbol: u8) -> Option<Seq<bool>> {
    let sizes = code_sizes(bits, 16);
    if vals.contains(symbol) {
        let k = vals.index_of(symbol);
        Some(value_bits(code_at(sizes, k) as nat, sizes[k] as nat))
    } else {
        None
    }
}

/// What the codes of at most `n` bits take of the space of 16-bit codes.
pub open spec fn code_space(bits: Seq<u8>, n: int) -> int
    decreases n,
{
    if n <= 0 { 0 } else { code_space(bits, n - 1) + bits[n - 1] * pow2((16 - n) as nat) }
}

/// What the first `k` codes take of the space of 16-bit codes.
pub open spec fn space_before(sizes: Seq<int>, k: int) -> int
    decreases k,
{
    if k <= 0 { 0 } else { space_before(sizes, k - 1) + pow2((16 - sizes[k - 1]) as nat) }
}

/// Lengths are listed from short to long, one for each code.
pub proof fn lemma_sizes(bits: Seq<u8>, n: int)
    requires
        0 <= n <= 16,
        bits.len() == 16,
    ensures
        code_sizes(bits, n).len() == code_count(bits, n),
        forall|k: int| 0 <= k < code_sizes(bits, n).len() ==> 1 <= #[trigger] code_sizes(bits, n)[k] <= n,
        forall|j: int, k: int|
            0 <= j <= k < code_sizes(bits, n).len() ==> #[trigger] code_sizes(bits, n)[j] <= #[trigger] code_sizes(
                bits,
                n,
            )[k],
    decreases n,
{
    if n > 0 {
        lemma_sizes(bits, n - 1);
    }
}

/// What a list of codes takes is what its lengths take.
proof fn lemma_space_split(sizes: Seq<int>, more: nat, size: int, k: int)
    requires
        0 <= k <= more,
    ensures
        space_before(sizes + Seq::new(more, |i: int| size), sizes.len() + k) == space_before(sizes, sizes.len() as int)
            + k * pow2((16 - size) as nat),
    decreases k,
{
    let all = sizes + Seq::new(more, |i: int| size);
    if k == 0 {
        lemma_space_prefix(all, sizes, sizes.len() as int);
    } else {
        lemma_space_split(sizes, more, size, k - 1);
        assert(all[sizes.len() + k - 1] == size);
        let p = pow2((16 - size) as nat) as int;
        assert(k * p == (k - 1) * p + p) by (nonlinear_arith);
    }
}

/// What the first `k` codes take depends on them alone.
proof fn lemma_space_prefix(a: Seq<int>, b: Seq<int>, k: int)
    requires
        k <= a.len(),
        k <= b.len(),
        forall|i: int| 0 <= i < k ==> #[trigger] a[i] == b[i],
    ensures
        space_before(a, k) == space_before(b, k),
    decreases k,
{
    if k > 0 {
        lemma_space_prefix(a, b, k - 1);
        assert(a[k - 1] == b[k - 1]);
    }
}

/// All codes take what their counts take.
proof fn lemma_space(bits: Seq<u8>, n: int)
    requires
        0 <= n <= 16,
        bits.len() == 16,
    ensures
        space_before(code_sizes(bits, n), code_count(bits, n)) == code_space(bits, n),
    decreases n,
{
    if n > 0 {
        lemma_space(bits, n - 1);
        lemma_sizes(bits, n - 1);
        lemma_space_split(code_sizes(bits, n - 1), bits[n - 1] as nat, n, bits[n - 1] as int);
    }
}

/// A code, filled up with 0 bits to 16, is what the codes before it take.
proof fn lemma_code_place(bits: Seq<u8>, k: int)
    requires
        bits.len() == 16,
        0 <= k < code_count(bits, 16),
    ensures
        ({
            let sizes = code_sizes(bits, 16);
            &&& 0 <= code_at(sizes, k)
            &&& code_at(sizes, k) * pow2((16 - sizes[k]) as nat) == space_before(sizes, k)
        }),
    decreases k,
{
    let sizes = code_sizes(bits, 16);
    lemma_sizes(bits, 16);
    lemma_pow2_pos((16 - sizes[k]) as nat);
    if k > 0 {
        lemma_code_place(bits, k - 1);
        let c = code_at(sizes, k - 1);
        let d = (sizes[k] - sizes[k - 1]) as nat;
        let r = (16 - sizes[k]) as nat;
        lemma_pow2_adds(d, r);
        lemma_pow2_pos(d);
        let pd = pow2(d) as int;
        let pr = pow2(r) as int;
        let q = pow2(d + r) as int;
        assert(((c + 1) * pd) * pr == c * q + q) by (nonlinear_arith)
            requires
                pd * pr == q,
        ;
        assert(0 <= (c + 1) * pd) by (nonlinear_arith)
            requires
                0 <= c,
                0 < pd,
        ;
    }
}

/// More codes take more space.
proof fn lemma_space_mono(sizes: Seq<int>, j: int, k: int)
    requires
        0 <= j <= k,
    ensures
        space_before(sizes, j) <= space_before(sizes, k),
    decreases k - j,
{
    if j < k {
        lemma_space_mono(sizes, j, k - 1);
    }
}

/// Where the codes take no more than the whole space, each fits its length; where
/// they take less, none is all ones.
pub proof fn law_codes_fit(bits: Seq<u8>, k: int)
    requires
        bits.len() == 16,
        0 <= k < code_count(bits, 16),
        code_space(bits, 16) <= 65536,
    ensures
        ({
            let sizes = code_sizes(bits, 16);
            &&& 0 <= code_at(sizes, k) < pow2(sizes[k] as nat)
            &&& code_at(sizes, k) <= u16::MAX
            &&& code_space(bits, 16) < 65536 ==> code_at(sizes, k) < pow2(sizes[k] as nat) - 1
        }),
{
    let sizes = code_sizes(bits, 16);
    lemma_sizes(bits, 16);
    lemma_space(bits, 16);
    lemma_code_place(bits, k);
    lemma_space_mono(sizes, k + 1, code_count(bits, 16));
    lemma_pow2_adds(sizes[k] as nat, (16 - sizes[k]) as nat);
    lemma2_to64();
    lemma_pow2_pos((16 - sizes[k]) as nat);
    lemma_pow2_pos(sizes[k] as nat);
    let c = code_at(sizes, k);
    let r = pow2((16 - sizes[k]) as nat) as int;
    let s = pow2(sizes[k] as nat) as int;
    assert(space_before(sizes, k + 1) == c * r + r);
    assert(c < s) by (nonlinear_arith)
        requires
            c * r + r <= 65536,
            s * r == 65536,
            r > 0,
    ;
    assert(s <= 65536) by (nonlinear_arith)
        requires
            s * r == 65536,
            r >= 1,
            s >= 1,
    ;
    if code_space(bits, 16) < 65536 {
        assert(c < s - 1) by (nonlinear_arith)
            requires
                c * r + r < 65536,
                s * r == 65536,
                r > 0,
        ;
    }
}

/// A code that is cut to the length of an earlier one is greater: no code begins
/// with another.
pub proof fn law_prefix_free(bits: Seq<u8>, j: int, k: int)
    requires
        bits.len() == 16,
        0 <= j < k < code_count(bits, 16),
    ensures
        ({
            let sizes = code_sizes(bits, 16);
            &&& sizes[j] <= sizes[k]
            &&& code_at(sizes, k) / (pow2((sizes[k] - sizes[j]) as nat) as int) > code_at(sizes, j)
        }),
{
    let sizes = code_sizes(bits, 16);
    lemma_sizes(bits, 16);
    lemma_code_place(bits, j);
    lemma_code_place(bits, k);
    lemma_space_mono(sizes, j + 1, k);
    let d = (sizes[k] - sizes[j]) as nat;
    let r = (16 - sizes[k]) as nat;
    lemma_pow2_adds(d, r);
    lemma_pow2_pos(d);
    lemma_pow2_pos(r);
    let a = code_at(sizes, j);
    let b = code_at(sizes, k);
    let pd = pow2(d) as int;
    let pr = pow2(r) as int;
    assert(space_before(sizes, j + 1) == a * pow2((16 - sizes[j]) as nat) + pow2((16 - sizes[j]) as nat));
    assert(b >= (a + 1) * pd) by (nonlinear_arith)
        requires
            b * pr >= a * (pd * pr) + pd * pr,
            pr > 0,
    ;
    assert(b / pd >= a + 1) by (nonlinear_arith)
        requires
            b >= (a + 1) * pd,
            pd > 0,
    ;
}

/// The first code is all zeros, and every code begins where the one before ends: filled up
/// with zeros to 16 bits, the next code is this one with 1 added at its end.
pub proof fn law_codes_adjoin(bits: Seq<u8>, k: int)
    requires
        bits.len() == 16,
        0 <= k,
        k + 1 < code_count(bits, 16),
    ensures
        ({
            let sizes = code_sizes(bits, 16);
            &&& code_at(sizes, 0) == 0
            &&& 1 <= sizes[k] <= sizes[k + 1] <= 16
            &&& code_at(sizes, k + 1) * pow2((16 - sizes[k + 1]) as nat) == (code_at(sizes, k) + 1) * pow2(
                (16 - sizes[k]) as nat,
            )
        }),
{
    let sizes = code_sizes(bits, 16);
    lemma_sizes(bits, 16);
    lemma_code_place(bits, k);
    lemma_code_place(bits, k + 1);
    let c = code_at(sizes, k);
    let p = pow2((16 - sizes[k]) as nat) as int;
    assert((c + 1) * p == c * p + p) by (nonlinear_arith);
}

/// As many codes have a length as the table says, the shorter ones first.
pub proof fn law_code_lengths(bits: Seq<u8>, n: int, k: int)
    requires
        bits.len() == 16,
        1 <= n <= 16,
        code_count(bits, n - 1) <= k < code_count(bits, n),
    ensures
        code_count(bits, n) == code_count(bits, n - 1) + bits[n - 1],
        code_count(bits, 0) == 0,
        0 <= k < code_count(bits, 16),
        code_sizes(bits, 16)[k] == n,
{
    lemma_lengths(bits, n, k, 16);
    lemma_count_grows(bits, 0, n - 1);
    lemma_count_grows(bits, n, 16);
}

proof fn lemma_count_grows(bits: Seq<u8>, m: int, n: int)
    requires
        0 <= m <= n,
    ensures
        code_count(bits, m) <= code_count(bits, n),
    decreases n - m,
{
    if m < n {
        lemma_count_grows(bits, m, n - 1);
    }
}

proof fn lemma_lengths(bits: Seq<u8>, n: int, k: int, m: int)
    requires
        bits.len() == 16,
        1 <= n <= m <= 16,
        code_count(bits, n - 1) <= k < code_count(bits, n),
    ensures
        code_sizes(bits, m)[k] == n,
        code_sizes(bits, m).len() == code_count(bits, m),
    decreases m - n,
{
    lemma_sizes(bits, m);
    lemma_sizes(bits, m - 1);
    lemma_count_grows(bits, 0, n - 1);
    if m > n {
        lemma_lengths(bits, n, k, m - 1);
        lemma_count_grows(bits, n, m - 1);
    }
}

/// The code word of a symbol: the symbol at place `k` of the list has code `k`, written in
/// as many bits as its length says.
pub proof fn law_code_word(bits: Seq<u8>, vals: Seq<u8>, k: int)
    requires
        spec_usable(bits, vals),
        bits.len() == 16,
        0 <= k < vals.len(),
    ensures
        code_word(bits, vals, vals[k]) == Some(
            value_bits(code_at(code_sizes(bits, 16), k) as nat, code_sizes(bits, 16)[k] as nat),
        ),
        forall|b: u8| !vals.contains(b) ==> #[trigger] code_word(bits, vals, b) is None,
{
    assert(vals.contains(vals[k]));
    assert(vals.index_of(vals[k]) == k);
}

impl HuffSpec {
    fn new(bits: [u8; 16], vals: &[u8]) -> (r: HuffSpec)
        ensures
            r.bits == bits,
            r.vals@ == vals@,
    {
        HuffSpec { bits, vals: copy_bytes(vals) }
    }

    /// The usual table for differences of luminance averages.
    pub fn k3_dc_luminance() -> (r: HuffSpec)
        ensures
            r.bits@ == BITS_DC_LUMINANCE@,
            r.vals@ == VAL_DC_LUMINANCE@,
    {
        Self::new(BITS_DC_LUMINANCE, &VAL_DC_LUMINANCE)
    }

    /// The usual table for differences of chrominance averages.
    pub fn k4_dc_chrominance() -> (r: HuffSpec)
        ensures
            r.bits@ == BITS_DC_CHROMINANCE@,
            r.vals@ == VAL_DC_CHROMINANCE@,
    {
        Self::new(BITS_DC_CHROMINANCE, &VAL_DC_CHROMINANCE)
    }

    /// The usual table for luminance frequencies.
    pub fn k5_ac_luminance() -> (r: HuffSpec)
        ensures
            r.bits@ == BITS_AC_LUMINANCE@,
            r.vals@ == VAL_AC_LUMINANCE@,
    {
        Self::new(BITS_AC_LUMINANCE, &VAL_AC_LUMINANCE)
    }

    /// The usual table for chrominance frequencies.
    pub fn k6_ac_chrominance() -> (r: HuffSpec)
        ensures
            r.bits@ == BITS_AC_CHROMINANCE@,
            r.vals@ == VAL_AC_CHROMINANCE@,
    {
        Self::new(BITS_AC_CHROMINANCE, &VAL_AC_CHROMINANCE)
    }

    /// Checks that there are as many symbols as codes.
    pub fn validate(&self) -> (r: Result<()>)
        ensures
            r is Ok <==> spec_valid(self.bits@, self.vals@),
            r matches Err(e) ==> e is InvalidData,
    {
        let mut total: usize = 0;
        let mut i: usize = 0;
        while i < 16
            invariant
                i <= 16,
                total == code_count(self.bits@, i as int),
                total <= 255 * i,
            decreases 16 - i,
        {
            total = total + self.bits[i] as usize;
            i = i + 1;
        }
        if total != self.vals.len() || total > 256 {
            return Err(invalid_with("JPEG encode: Huffman table of ", total as u64, " codes has other symbols"));
        }
        Ok(())
    }
}

/// A copy of some bytes.
fn copy_bytes(s: &[u8]) -> (v: Vec<u8>)
    ensures
        v@ == s@,
{
    let mut v: Vec<u8> = Vec::new();
    let mut i: usize = 0;
    while i < s.len()
        invariant
            i <= s@.len(),
            v@ == s@.subrange(0, i as int),
        decreases s@.len() - i,
    {
        v.push(s[i]);
        i = i + 1;
        assert(v@ =~= s@.subrange(0, i as int));
    }
    assert(v@ =~= s@);
    v
}

/// The code words of a table by symbol: the code and its length, which is 0 where
/// the symbol has none.
#[derive(Debug, Clone)]
pub struct HuffCodes {
    /// The code of each symbol.
    pub code: [u16; 256],
    /// Its length in bits.
    pub size: [u8; 256],
}

impl HuffCodes {
    /// These are the code words of a table.
    pub open spec fn of_spec(self, bits: Seq<u8>, vals: Seq<u8>) -> bool {
        let sizes = code_sizes(bits, 16);
        &&& spec_usable(bits, vals)
        &&& forall|k: int|
            0 <= k < vals.len() ==> {
                &&& self.code@[#[trigger] vals[k] as int] == code_at(sizes, k)
                &&& self.size@[vals[k] as int] == sizes[k]
            }
        &&& forall|s: int| 0 <= s < 256 && !vals.contains(s as u8) ==> #[trigger] self.size@[s] == 0
    }

    /// The code words of a table.
    pub fn from_spec(spec: &HuffSpec) -> (r: Result<HuffCodes>)
        ensures
            (match r {
                Ok(c) => c.of_spec(spec.bits@, spec.vals@),
                Err(e) => e is InvalidData && !spec_usable(spec.bits@, spec.vals@),
            }),
    {
        spec.validate()?;
        let sizes = size_list(&spec.bits);
        proof {
            lemma_sizes(spec.bits@, 16);
        }
        let codes = match code_list(spec, &sizes) {
            Some(c) => c,
            None => {
                return Err(TiffError::invalid("JPEG encode: Huffman BITS list over-subscribes the code space"));
            },
        };
        order_codes(spec, &sizes, &codes)
    }
}

/// The lengths of all codes.
fn size_list(bits: &[u8; 16]) -> (v: Vec<u8>)
    ensures
        v@.len() == code_sizes(bits@, 16).len(),
        forall|k: int| 0 <= k < v@.len() ==> #[trigger] v@[k] == code_sizes(bits@, 16)[k],
{
    let mut v: Vec<u8> = Vec::new();
    let mut i: u8 = 0;
    while i < 16
        invariant
            i <= 16,
            v@.len() == code_sizes(bits@, i as int).len(),
            forall|k: int| 0 <= k < v@.len() ==> #[trigger] v@[k] == code_sizes(bits@, i as int)[k],
        decreases 16 - i,
    {
        let ghost before = v@;
        let n: u8 = bits[i as usize];
        let mut c: u8 = 0;
        while c < n
            invariant
                c <= n,
                i < 16,
                v@.len() == before.len() + c,
                forall|k: int| 0 <= k < before.len() ==> #[trigger] v@[k] == before[k],
                forall|k: int| before.len() <= k < v@.len() ==> #[trigger] v@[k] == i + 1,
            decreases n - c,
        {
            v.push(i + 1);
            c = c + 1;
        }
        i = i + 1;
    }
    v
}

/// The codes, unless one has more than 16 bits.
fn code_list(spec: &HuffSpec, sizes: &Vec<u8>) -> (r: Option<Vec<u16>>)
    requires
        sizes@.len() == code_sizes(spec.bits@, 16).len(),
        sizes@.len() == spec.vals@.len(),
        forall|k: int| 0 <= k < sizes@.len() ==> #[trigger] sizes@[k] == code_sizes(spec.bits@, 16)[k],
    ensures
        (match r {
            Some(c) => c@.len() == sizes@.len() && forall|k: int|
                0 <= k < c@.len() ==> #[trigger] c@[k] == code_at(code_sizes(spec.bits@, 16), k),
            None => !spec_usable(spec.bits@, spec.vals@),
        }),
{
    let ghost sz = code_sizes(spec.bits@, 16);
    proof {
        lemma_sizes(spec.bits@, 16);
    }
    let n: usize = sizes.len();
    let mut codes: Vec<u16> = Vec::new();
    let mut code: u32 = 0;
    let mut at: u8 = if n > 0 { sizes[0] } else { 0 };
    let mut k: usize = 0;
    while k < n
        invariant
            k <= n,
            n == sizes@.len(),
            n == sz.len(),
            sz == code_sizes(spec.bits@, 16),
            n == spec.vals@.len(),
            forall|i: int| 0 <= i < n ==> #[trigger] sizes@[i] == sz[i],
            forall|i: int| 0 <= i < n ==> 1 <= #[trigger] sz[i] <= 16,
            forall|i: int, j: int| 0 <= i <= j < n ==> #[trigger] sz[i] <= #[trigger] sz[j],
            codes@.len() == k,
            forall|i: int| 0 <= i < k ==> #[trigger] codes@[i] == code_at(sz, i),
            code <= 65536,
            k == 0 ==> code == 0 && (n > 0 ==> at == sz[0]),
            k > 0 ==> code == code_at(sz, k - 1) + 1 && at == sz[k - 1],
        decreases n - k,
    {
        let size: u8 = sizes[k];
        let ghost base = code as int;
        let ghost from = at as int;
        proof {
            lemma2_to64();
            assert(sz[k as int] >= 1);
            if k > 0 {
                assert(sz[k - 1] <= sz[k as int]);
                assert(sz[k - 1] >= 1);
            }
            assert(base * 1 == base);
        }
        while at != size
            invariant
                1 <= from <= at <= size <= 16,
                0 <= base <= 65536,
                code == base * pow2((at - from) as nat),
            decreases size - at,
        {
            proof {
                let d = (at - from) as nat;
                lemma_pow2_unfold(d + 1);
                lemma2_to64();
                vstd::arithmetic::power2::lemma_pow2_strictly_increases(d, 15);
                let p = pow2(d) as int;
                assert(base * p <= 65536 * 16384) by (nonlinear_arith)
                    requires
                        0 <= base <= 65536,
                        0 <= p <= 16384,
                ;
                assert(base * (2 * p) == 2 * (base * p)) by (nonlinear_arith);
            }
            code = 2 * code;
            at = at + 1;
        }
        assert(code == code_at(sz, k as int)) by {
            if k == 0 {
                assert(base == 0);
                assert(0 * pow2((at - from) as nat) == 0) by (nonlinear_arith);
            }
        }
        if code > 65535 {
            assert(code_at(sz, k as int) > u16::MAX);
            return None;
        }
        codes.push(code as u16);
        code = code + 1;
        k = k + 1;
    }
    Some(codes)
}

/// The codes by symbol.
fn order_codes(spec: &HuffSpec, sizes: &Vec<u8>, codes: &Vec<u16>) -> (r: Result<HuffCodes>)
    requires
        spec_valid(spec.bits@, spec.vals@),
        sizes@.len() == spec.vals@.len(),
        codes@.len() == spec.vals@.len(),
        forall|k: int| 0 <= k < sizes@.len() ==> #[trigger] sizes@[k] == code_sizes(spec.bits@, 16)[k],
        forall|k: int| 0 <= k < codes@.len() ==> #[trigger] codes@[k] == code_at(code_sizes(spec.bits@, 16), k),
        forall|k: int| 0 <= k < sizes@.len() ==> 1 <= #[trigger] sizes@[k],
    ensures
        (match r {
            Ok(c) => c.of_spec(spec.bits@, spec.vals@),
            Err(e) => e is InvalidData && !spec_usable(spec.bits@, spec.vals@),
        }),
{
    let ghost vals = spec.vals@;
    let mut code: [u16; 256] = [0u16; 256];
    let mut size: [u8; 256] = [0u8; 256];
    let n: usize = spec.vals.len();
    let mut k: usize = 0;
    while k < n
        invariant
            k <= n,
            n == vals.len(),
            vals == spec.vals@,
            sizes@.len() == n,
            codes@.len() == n,
            forall|i: int| 0 <= i < n ==> 1 <= #[trigger] sizes@[i],
            forall|i: int|
                0 <= i < k ==> code@[#[trigger] vals[i] as int] == codes@[i] && size@[vals[i] as int] == sizes@[i],
            forall|s: int|
                0 <= s < 256 && (forall|i: int| 0 <= i < k ==> #[trigger] vals[i] != s) ==> #[trigger] size@[s] == 0,
            forall|i: int, j: int| 0 <= i < j < k ==> #[trigger] vals[i] != #[trigger] vals[j],
        decreases n - k,
    {
        let v: u8 = spec.vals[k];
        if size[v as usize] != 0 {
            proof {
                if forall|i: int| 0 <= i < k ==> #[trigger] vals[i] != v {
                    assert(size@[v as int] == 0);
                }
                let i = choose|i: int| 0 <= i < k && #[trigger] vals[i] == v;
                assert(vals[i] == vals[k as int]);
                assert(!vals.no_duplicates());
            }
            return Err(invalid_with("JPEG encode: Huffman HUFFVAL lists symbol ", v as u64, " twice"));
        }
        assert(forall|i: int| 0 <= i < k ==> #[trigger] vals[i] != v);
        code[v as usize] = codes[k];
        size[v as usize] = sizes[k];
        k = k + 1;
        assert forall|s: int|
            0 <= s < 256 && (forall|i: int| 0 <= i < k ==> #[trigger] vals[i] != s) implies #[trigger] size@[s] == 0 by {
            assert(vals[k - 1] == v);
            assert(s != v);
            assert(forall|i: int| 0 <= i < k - 1 ==> #[trigger] vals[i] != s);
        }
    }
    let c = HuffCodes { code, size };
    proof {
        let sz = code_sizes(spec.bits@, 16);
        assert(vals.no_duplicates());
        assert forall|i: int| 0 <= i < vals.len() implies #[trigger] code_at(sz, i) <= u16::MAX by {
            assert(codes@[i] == code_at(sz, i));
        }
        assert forall|i: int| 0 <= i < vals.len() implies {
            &&& c.code@[#[trigger] vals[i] as int] == code_at(sz, i)
            &&& c.size@[vals[i] as int] == sz[i]
        } by {
            assert(codes@[i] == code_at(sz, i));
            assert(sizes@[i] == sz[i]);
        }
        assert forall|s: int| 0 <= s < 256 && !vals.contains(s as u8) implies #[trigger] c.size@[s] == 0 by {
            assert forall|i: int| 0 <= i < n implies #[trigger] vals[i] != s by {
                if vals[i] == s {
                    assert(vals.contains(s as u8));
                }
            }
        }
    }
    Ok(c)
}

/// A symbol for frequencies of 8-bit samples: the end of a block, 16 zeros, or fewer
/// zeros and a coefficient of at most 10 bits.
pub open spec fn frequency_symbol(v: int) -> bool {
    v == 0 || v == 0xF0 || 1 <= v % 16 <= 10
}

/// A usual table can be used and leaves space free.
proof fn lemma_usual_usable(bits: Seq<u8>, vals: Seq<u8>)
    requires
        bits.len() == 16,
        code_count(bits, 16) == vals.len(),
        vals.len() <= 256,
        code_space(bits, 16) < 65536,
        vals.no_duplicates(),
    ensures
        spec_usable(bits, vals),
{
    let sizes = code_sizes(bits, 16);
    assert forall|k: int| 0 <= k < vals.len() implies #[trigger] code_at(sizes, k) <= u16::MAX by {
        law_codes_fit(bits, k);
    }
}

/// Every symbol for frequencies has a place, and every place another symbol.
spec fn placed(vals: Seq<u8>, place: Seq<u8>) -> bool {
    &&& vals.len() == 162
    &&& place.len() == 256
    &&& forall|i: int| 0 <= i < 162 ==> place[(#[trigger] vals[i]) as int] == i
    &&& forall|v: int|
        0 <= v < 256 && frequency_symbol(v) ==> (#[trigger] place[v]) < 162 && vals[place[v] as int] == v
}

proof fn lemma_placed(vals: Seq<u8>, place: Seq<u8>)
    requires
        placed(vals, place),
    ensures
        vals.no_duplicates(),
        forall|v: u8| frequency_symbol(v as int) ==> #[trigger] vals.contains(v),
{
    assert forall|i: int, j: int| 0 <= i < vals.len() && 0 <= j < vals.len() && i != j implies vals[i] != vals[j] by {
        assert(place[vals[i] as int] == i);
        assert(place[vals[j] as int] == j);
    }
    assert forall|v: u8| frequency_symbol(v as int) implies #[trigger] vals.contains(v) by {
        assert(vals[place[v as int] as int] == v);
    }
}

/// What the codes of one more length take.
proof fn lemma_space_step(bits: Seq<u8>, n: int, codes: int, each: int, before: int, after: int)
    requires
        0 < n <= 16,
        bits[n - 1] == codes,
        pow2((16 - n) as nat) == each,
        code_space(bits, n - 1) == before,
        codes * each == after - before,
    ensures
        code_space(bits, n) == after,
{
    let b = bits[n - 1] as int;
    let p = pow2((16 - n) as nat) as int;
    assert(b * p == codes * each) by (nonlinear_arith)
        requires
            b == codes,
            p == each,
    ;
}

/// What the counts of codes come to.
proof fn lemma_dc_luminance_counts()
    ensures
        code_count(BITS_DC_LUMINANCE@, 16) == 12,
        code_space(BITS_DC_LUMINANCE@, 16) == 65408,
{
    let bits = BITS_DC_LUMINANCE@;
    lemma2_to64();
    reveal_with_fuel(code_count, 17);
    assert(0int * 32768 == 0) by (nonlinear_arith);
    lemma_space_step(bits, 1, 0, 32768, 0, 0);
    assert(1int * 16384 == 16384) by (nonlinear_arith);
    lemma_space_step(bits, 2, 1, 16384, 0, 16384);
    assert(5int * 8192 == 40960) by (nonlinear_arith);
    lemma_space_step(bits, 3, 5, 8192, 16384, 57344);
    assert(1int * 4096 == 4096) by (nonlinear_arith);
    lemma_space_step(bits, 4, 1, 4096, 57344, 61440);
    assert(1int * 2048 == 2048) by (nonlinear_arith);
    lemma_space_step(bits, 5, 1, 2048, 61440, 63488);
    assert(1int * 1024 == 1024) by (nonlinear_arith);
    lemma_space_step(bits, 6, 1, 1024, 63488, 64512);
    assert(1int * 512 == 512) by (nonlinear_arith);
    lemma_space_step(bits, 7, 1, 512, 64512, 65024);
    assert(1int * 256 == 256) by (nonlinear_arith);
    lemma_space_step(bits, 8, 1, 256, 65024, 65280);
    assert(1int * 128 == 128) by (nonlinear_arith);
    lemma_space_step(bits, 9, 1, 128, 65280, 65408);
    assert(0int * 64 == 0) by (nonlinear_arith);
    lemma_space_step(bits, 10, 0, 64, 65408, 65408);
    assert(0int * 32 == 0) by (nonlinear_arith);
    lemma_space_step(bits, 11, 0, 32, 65408, 65408);
    assert(0int * 16 == 0) by (nonlinear_arith);
    lemma_space_step(bits, 12, 0, 16, 65408, 65408);
    assert(0int * 8 == 0) by (nonlinear_arith);
    lemma_space_step(bits, 13, 0, 8, 65408, 65408);
    assert(0int * 4 == 0) by (nonlinear_arith);
    lemma_space_step(bits, 14, 0, 4, 65408, 65408);
    assert(0int * 2 == 0) by (nonlinear_arith);
    lemma_space_step(bits, 15, 0, 2, 65408, 65408);
    assert(0int * 1 == 0) by (nonlinear_arith);
    lemma_space_step(bits, 16, 0, 1, 65408, 65408);
}

proof fn lemma_dc_luminance_table()
    ensures
        spec_usable(BITS_DC_LUMINANCE@, VAL_DC_LUMINANCE@),
        forall|v: u8| v <= 11 ==> #[trigger] VAL_DC_LUMINANCE@.contains(v),
{
    lemma_dc_luminance_counts();
    assert(forall|i: int| 0 <= i < 12 ==> #[trigger] VAL_DC_LUMINANCE@[i] == i);
    lemma_usual_usable(BITS_DC_LUMINANCE@, VAL_DC_LUMINANCE@);
    assert forall|v: u8| v <= 11 implies #[trigger] VAL_DC_LUMINANCE@.contains(v) by {
        assert(VAL_DC_LUMINANCE@[v as int] == v);
    }
}

/// What the counts of codes come to.
proof fn lemma_dc_chrominance_counts()
    ensures
        code_count(BITS_DC_CHROMINANCE@, 16) == 12,
        code_space(BITS_DC_CHROMINANCE@, 16) == 65504,
{
    let bits = BITS_DC_CHROMINANCE@;
    lemma2_to64();
    reveal_with_fuel(code_count, 17);
    assert(0int * 32768 == 0) by (nonlinear_arith);
    lemma_space_step(bits, 1, 0, 32768, 0, 0);
    assert(3int * 16384 == 49152) by (nonlinear_arith);
    lemma_space_step(bits, 2, 3, 16384, 0, 49152);
    assert(1int * 8192 == 8192) by (nonlinear_arith);
    lemma_space_step(bits, 3, 1, 8192, 49152, 57344);
    assert(1int * 4096 == 4096) by (nonlinear_arith);
    lemma_space_step(bits, 4, 1, 4096, 57344, 61440);
    assert(1int * 2048 == 2048) by (nonlinear_arith);
    lemma_space_step(bits, 5, 1, 2048, 61440, 63488);
    assert(1int * 1024 == 1024) by (nonlinear_arith);
    lemma_space_step(bits, 6, 1, 1024, 63488, 64512);
    assert(1int * 512 == 512) by (nonlinear_arith);
    lemma_space_step(bits, 7, 1, 512, 64512, 65024);
    assert(1int * 256 == 256) by (nonlinear_arith);
    lemma_space_step(bits, 8, 1, 256, 65024, 65280);
    assert(1int * 128 == 128) by (nonlinear_arith);
    lemma_space_step(bits, 9, 1, 128, 65280, 65408);
    assert(1int * 64 == 64) by (nonlinear_arith);
    lemma_space_step(bits, 10, 1, 64, 65408, 65472);
    assert(1int * 32 == 32) by (nonlinear_arith);
    lemma_space_step(bits, 11, 1, 32, 65472, 65504);
    assert(0int * 16 == 0) by (nonlinear_arith);
    lemma_space_step(bits, 12, 0, 16, 65504, 65504);
    assert(0int * 8 == 0) by (nonlinear_arith);
    lemma_space_step(bits, 13, 0, 8, 65504, 65504);
    assert(0int * 4 == 0) by (nonlinear_arith);
    lemma_space_step(bits, 14, 0, 4, 65504, 65504);
    assert(0int * 2 == 0) by (nonlinear_arith);
    lemma_space_step(bits, 15, 0, 2, 65504, 65504);
    assert(0int * 1 == 0) by (nonlinear_arith);
    lemma_space_step(bits, 16, 0, 1, 65504, 65504);
}

proof fn lemma_dc_chrominance_table()
    ensures
        spec_usable(BITS_DC_CHROMINANCE@, VAL_DC_CHROMINANCE@),
        forall|v: u8| v <= 11 ==> #[trigger] VAL_DC_CHROMINANCE@.contains(v),
{
    lemma_dc_chrominance_counts();
    assert(forall|i: int| 0 <= i < 12 ==> #[trigger] VAL_DC_CHROMINANCE@[i] == i);
    lemma_usual_usable(BITS_DC_CHROMINANCE@, VAL_DC_CHROMINANCE@);
    assert forall|v: u8| v <= 11 implies #[trigger] VAL_DC_CHROMINANCE@.contains(v) by {
        assert(VAL_DC_CHROMINANCE@[v as int] == v);
    }
}

/// What the counts of codes come to.
proof fn lemma_ac_luminance_counts()
    ensures
        code_count(BITS_AC_LUMINANCE@, 16) == 162,
        code_space(BITS_AC_LUMINANCE@, 16) == 65535,
{
    let bits = BITS_AC_LUMINANCE@;
    lemma2_to64();
    reveal_with_fuel(code_count, 17);
    assert(0int * 32768 == 0) by (nonlinear_arith);
    lemma_space_step(bits, 1, 0, 32768, 0, 0);
    assert(2int * 16384 == 32768) by (nonlinear_arith);
    lemma_space_step(bits, 2, 2, 16384, 0, 32768);
    assert(1int * 8192 == 8192) by (nonlinear_arith);
    lemma_space_step(bits, 3, 1, 8192, 32768, 40960);
    assert(3int * 4096 == 12288) by (nonlinear_arith);
    lemma_space_step(bits, 4, 3, 4096, 40960, 53248);
    assert(3int * 2048 == 6144) by (nonlinear_arith);
    lemma_space_step(bits, 5, 3, 2048, 53248, 59392);
    assert(2int * 1024 == 2048) by (nonlinear_arith);
    lemma_space_step(bits, 6, 2, 1024, 59392, 61440);
    assert(4int * 512 == 2048) by (nonlinear_arith);
    lemma_space_step(bits, 7, 4, 512, 61440, 63488);
    assert(3int * 256 == 768) by (nonlinear_arith);
    lemma_space_step(bits, 8, 3, 256, 63488, 64256);
    assert(5int * 128 == 640) by (nonlinear_arith);
    lemma_space_step(bits, 9, 5, 128, 64256, 64896);
    assert(5int * 64 == 320) by (nonlinear_arith);
    lemma_space_step(bits, 10, 5, 64, 64896, 65216);
    assert(4int * 32 == 128) by (nonlinear_arith);
    lemma_space_step(bits, 11, 4, 32, 65216, 65344);
    assert(4int * 16 == 64) by (nonlinear_arith);
    lemma_space_step(bits, 12, 4, 16, 65344, 65408);
    assert(0int * 8 == 0) by (nonlinear_arith);
    lemma_space_step(bits, 13, 0, 8, 65408, 65408);
    assert(0int * 4 == 0) by (nonlinear_arith);
    lemma_space_step(bits, 14, 0, 4, 65408, 65408);
    assert(1int * 2 == 2) by (nonlinear_arith);
    lemma_space_step(bits, 15, 1, 2, 65408, 65410);
    assert(125int * 1 == 125) by (nonlinear_arith);
    lemma_space_step(bits, 16, 125, 1, 65410, 65535);
}

/// Symbols and their places in a usual table.
proof fn lemma_ac_luminance_places()
    ensures
        placed(VAL_AC_LUMINANCE@, PLACE_AC_LUMINANCE@),
{
}

proof fn lemma_ac_luminance_table()
    ensures
        spec_usable(BITS_AC_LUMINANCE@, VAL_AC_LUMINANCE@),
        forall|v: u8| frequency_symbol(v as int) ==> #[trigger] VAL_AC_LUMINANCE@.contains(v),
{
    lemma_ac_luminance_counts();
    lemma_ac_luminance_places();
    lemma_placed(VAL_AC_LUMINANCE@, PLACE_AC_LUMINANCE@);
    lemma_usual_usable(BITS_AC_LUMINANCE@, VAL_AC_LUMINANCE@);
}

/// What the counts of codes come to.
proof fn lemma_ac_chrominance_counts()
    ensures
        code_count(BITS_AC_CHROMINANCE@, 16) == 162,
        code_space(BITS_AC_CHROMINANCE@, 16) == 65535,
{
    let bits = BITS_AC_CHROMINANCE@;
    lemma2_to64();
    reveal_with_fuel(code_count, 17);
    assert(0int * 32768 == 0) by (nonlinear_arith);
    lemma_space_step(bits, 1, 0, 32768, 0, 0);
    assert(2int * 16384 == 32768) by (nonlinear_arith);
    lemma_space_step(bits, 2, 2, 16384, 0, 32768);
    assert(1int * 8192 == 8192) by (nonlinear_arith);
    lemma_space_step(bits, 3, 1, 8192, 32768, 40960);
    assert(2int * 4096 == 8192) by (nonlinear_arith);
    lemma_space_step(bits, 4, 2, 4096, 40960, 49152);
    assert(4int * 2048 == 8192) by (nonlinear_arith);
    lemma_space_step(bits, 5, 4, 2048, 49152, 57344);
    assert(4int * 1024 == 4096) by (nonlinear_arith);
    lemma_space_step(bits, 6, 4, 1024, 57344, 61440);
    assert(3int * 512 == 1536) by (nonlinear_arith);
    lemma_space_step(bits, 7, 3, 512, 61440, 62976);
    assert(4int * 256 == 1024) by (nonlinear_arith);
    lemma_space_step(bits, 8, 4, 256, 62976, 64000);
    assert(7int * 128 == 896) by (nonlinear_arith);
    lemma_space_step(bits, 9, 7, 128, 64000, 64896);
    assert(5int * 64 == 320) by (nonlinear_arith);
    lemma_space_step(bits, 10, 5, 64, 64896, 65216);
    assert(4int * 32 == 128) by (nonlinear_arith);
    lemma_space_step(bits, 11, 4, 32, 65216, 65344);
    assert(4int * 16 == 64) by (nonlinear_arith);
    lemma_space_step(bits, 12, 4, 16, 65344, 65408);
    assert(0int * 8 == 0) by (nonlinear_arith);
    lemma_space_step(bits, 13, 0, 8, 65408, 65408);
    assert(1int * 4 == 4) by (nonlinear_arith);
    lemma_space_step(bits, 14, 1, 4, 65408, 65412);
    assert(2int * 2 == 4) by (nonlinear_arith);
    lemma_space_step(bits, 15, 2, 2, 65412, 65416);
    assert(119int * 1 == 119) by (nonlinear_arith);
    lemma_space_step(bits, 16, 119, 1, 65416, 65535);
}

/// Symbols and their places in a usual table.
proof fn lemma_ac_chrominance_places()
    ensures
        placed(VAL_AC_CHROMINANCE@, PLACE_AC_CHROMINANCE@),
{
}

proof fn lemma_ac_chrominance_table()
    ensures
        spec_usable(BITS_AC_CHROMINANCE@, VAL_AC_CHROMINANCE@),
        forall|v: u8| frequency_symbol(v as int) ==> #[trigger] VAL_AC_CHROMINANCE@.contains(v),
{
    lemma_ac_chrominance_counts();
    lemma_ac_chrominance_places();
    lemma_placed(VAL_AC_CHROMINANCE@, PLACE_AC_CHROMINANCE@);
    lemma_usual_usable(BITS_AC_CHROMINANCE@, VAL_AC_CHROMINANCE@);
}

/// A usual table for averages.
#[verifier::opaque]
pub open spec fn usual_dc(h: HuffModel) -> bool {
    ||| h.bits == BITS_DC_LUMINANCE@ && h.vals == VAL_DC_LUMINANCE@
    ||| h.bits == BITS_DC_CHROMINANCE@ && h.vals == VAL_DC_CHROMINANCE@
}

/// A usual table for frequencies.
#[verifier::opaque]
pub open spec fn usual_ac(h: HuffModel) -> bool {
    ||| h.bits == BITS_AC_LUMINANCE@ && h.vals == VAL_AC_LUMINANCE@
    ||| h.bits == BITS_AC_CHROMINANCE@ && h.vals == VAL_AC_CHROMINANCE@
}

/// The usual tables for averages can be used, leave space free, and have a code for
/// every symbol of a frame of 8-bit samples.
pub proof fn law_usual_dc(h: HuffModel)
    requires
        usual_dc(h),
    ensures
        h.bits.len() == 16,
        spec_usable(h.bits, h.vals),
        code_space(h.bits, 16) < 65536,
        forall|v: u8| v <= 11 ==> #[trigger] h.vals.contains(v),
{
    reveal(usual_dc);
    if h.vals == VAL_DC_LUMINANCE@ && h.bits == BITS_DC_LUMINANCE@ {
        lemma_dc_luminance_counts();
        lemma_dc_luminance_table();
    } else {
        lemma_dc_chrominance_counts();
        lemma_dc_chrominance_table();
    }
}

/// The usual tables for frequencies can be used, leave space free, and have a code
/// for every symbol of a frame of 8-bit samples.
pub proof fn law_usual_ac(h: HuffModel)
    requires
        usual_ac(h),
    ensures
        h.bits.len() == 16,
        spec_usable(h.bits, h.vals),
        code_space(h.bits, 16) < 65536,
        forall|v: u8| frequency_symbol(v as int) ==> #[trigger] h.vals.contains(v),
{
    reveal(usual_ac);
    if h.vals == VAL_AC_LUMINANCE@ && h.bits == BITS_AC_LUMINANCE@ {
        lemma_ac_luminance_counts();
        lemma_ac_luminance_table();
    } else {
        lemma_ac_chrominance_counts();
        lemma_ac_chrominance_table();
    }
}

} // verus!
