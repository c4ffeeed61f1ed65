//! What packed bytes stand for: the packets of PackBits and the codes of LZW, one by one.
use vstd::prelude::*;
use vstd::arithmetic::power2::{lemma2_to64, pow2};
use crate::bits::bits_value;
use crate::compress::{min_int, packbits_decode, repeated};
use crate::error::Outcome;
use crate::lzw::{lzw_decode_from, lzw_leaves, lzw_width};

verus! {

/// What comes before the rest of the input, and before the rest of the output, does not
/// matter.
proof fn lemma_packbits_rest(a: Seq<u8>, rest: Seq<u8>, j: int, before: Seq<u8>, out: Seq<u8>, expected: int)
    requires
        0 <= j,
    ensures
        (match packbits_decode(rest, j, out, expected) {
            Ok(r) => packbits_decode(a + rest, a.len() + j, before + out, before.len() + expected) == Outcome::<Seq<u8>>::Ok(
                before + r,
            ),
            Err(k) => packbits_decode(a + rest, a.len() + j, before + out, before.len() + expected) == Outcome::<
                Seq<u8>,
            >::Err(k),
        }),
    decreases rest.len() - j,
{
    let all = a + rest;
    if j < rest.len() && out.len() < expected {
        let i = a.len() + j;
        let h = rest[j] as int;
        assert(all[i] == rest[j]);
        if h < 128 {
            if j + 2 + h <= rest.len() {
                let part = rest.subrange(j + 1, j + 2 + h);
                assert(all.subrange(i + 1, i + 2 + h) =~= part);
                assert((before + out) + part =~= before + (out + part));
                lemma_packbits_rest(a, rest, j + 2 + h, before, out + part, expected);
            }
        } else if h == 128 {
            lemma_packbits_rest(a, rest, j + 1, before, out, expected);
        } else if j + 1 < rest.len() {
            assert(all[i + 1] == rest[j + 1]);
            let n = min_int(257 - h, expected - out.len());
            let part = repeated(rest[j + 1], n as nat);
            assert((before + out) + part =~= before + (out + part));
            lemma_packbits_rest(a, rest, j + 2, before, out + part, expected);
        }
    }
}

/// Packets of PackBits: a byte `n` from 0 to 127 stands before `n + 1` bytes that are
/// meant as they are.
pub proof fn law_packbits_literal(literal: Seq<u8>, rest: Seq<u8>, expected: int)
    requires
        1 <= literal.len() <= 128,
        0 <= expected,
    ensures
        (match packbits_decode(rest, 0, Seq::empty(), expected) {
            Ok(r) => packbits_decode(
                seq![(literal.len() - 1) as u8] + literal + rest,
                0,
                Seq::empty(),
                literal.len() + expected,
            ) == Outcome::<Seq<u8>>::Ok(literal + r),
            Err(k) => packbits_decode(
                seq![(literal.len() - 1) as u8] + literal + rest,
                0,
                Seq::empty(),
                literal.len() + expected,
            ) is Err,
        }),
{
    let a = seq![(literal.len() - 1) as u8] + literal;
    let all = a + rest;
    let n = literal.len() as int;
    assert(all[0] == (n - 1) as u8);
    assert(all.subrange(1, n + 1) =~= literal);
    assert(Seq::<u8>::empty() + literal =~= literal);
    assert(literal + Seq::<u8>::empty() =~= literal);
    lemma_packbits_rest(a, rest, 0, literal, Seq::empty(), expected);
}

/// A byte `257 - n`, for `n` from 2 to 128, stands before one byte that is meant `n` times.
pub proof fn law_packbits_run(b: u8, n: int, rest: Seq<u8>, expected: int)
    requires
        2 <= n <= 128,
        0 <= expected,
    ensures
        (match packbits_decode(rest, 0, Seq::empty(), expected) {
            Ok(r) => packbits_decode(seq![(257 - n) as u8, b] + rest, 0, Seq::empty(), n + expected) == Outcome::<
                Seq<u8>,
            >::Ok(Seq::new(n as nat, |i: int| b) + r),
            Err(k) => packbits_decode(seq![(257 - n) as u8, b] + rest, 0, Seq::empty(), n + expected) is Err,
        }),
{
    let a = seq![(257 - n) as u8, b];
    let all = a + rest;
    let run = Seq::new(n as nat, |i: int| b);
    assert(all[0] == (257 - n) as u8 && all[1] == b);
    assert(repeated(b, n as nat) =~= run);
    assert(Seq::<u8>::empty() + run =~= run);
    assert(run + Seq::<u8>::empty() =~= run);
    lemma_packbits_rest(a, rest, 0, run, Seq::empty(), expected);
}

/// A byte of 128 stands for nothing.
pub proof fn law_packbits_nothing(rest: Seq<u8>, expected: int)
    requires
        0 < expected,
    ensures
        (match packbits_decode(rest, 0, Seq::empty(), expected) {
            Ok(r) => packbits_decode(seq![128u8] + rest, 0, Seq::empty(), expected) == Outcome::<Seq<u8>>::Ok(r),
            Err(k) => packbits_decode(seq![128u8] + rest, 0, Seq::empty(), expected) is Err,
        }),
{
    let a = seq![128u8];
    assert((a + rest)[0] == 128u8);
    let none = Seq::<u8>::empty();
    assert(none + none =~= none);
    lemma_packbits_rest(a, rest, 0, none, none, expected);
    if let Ok(r) = packbits_decode(rest, 0, none, expected) {
        assert(none + r =~= r);
    }
}

/// Codes have 9 bits to begin with, and one more as soon as the next code to be known is
/// one short of what would not fit, up to 12.
pub proof fn law_lzw_width(known: int)
    requires
        258 <= known <= 4096,
    ensures
        ({
            let w = lzw_width(known);
            &&& 9 <= w <= 12
            &&& w < 12 ==> known + 1 < pow2(w)
            &&& w > 9 ==> known + 1 >= pow2((w - 1) as nat)
        }),
{
    lemma2_to64();
}

/// Codes of LZW: 257 ends, 256 forgets all codes but those of single bytes, and after that
/// the next code, below 256, stands for its byte and nothing is learnt from it. A later
/// code stands for the string that was learnt with it; the one that is just about to be
/// known, for the string before and its first byte again. With each of them the string
/// before and the first byte of the new one become the next code.
pub proof fn law_lzw_codes(bits: Seq<bool>, pos: int, table: Seq<Seq<u8>>, prev: Option<Seq<u8>>, out: Seq<u8>, expected: int)
    requires
        0 <= pos,
        258 <= table.len() <= 4096,
        pos + lzw_width(table.len() as int) <= bits.len(),
        forall|c: int| 0 <= c < 256 ==> #[trigger] table[c] == seq![c as u8],
        prev matches Some(p) ==> p.len() > 0,
    ensures
        ({
            let w = lzw_width(table.len() as int);
            let code = bits_value(bits, pos, w) as int;
            let r = lzw_decode_from(bits, pos, table, prev, out, expected);
            &&& code == 257 ==> r == Ok::<Seq<u8>, crate::lzw::LzwFault>(out)
            &&& code == 256 ==> r == lzw_decode_from(bits, pos + w, lzw_leaves(), None, out, expected)
            &&& code < 256 && prev is None && out.len() + 1 < expected ==> r == lzw_decode_from(
                bits,
                pos + w,
                table,
                Some(seq![code as u8]),
                out.push(code as u8),
                expected,
            )
            &&& code >= 258 && prev is None ==> r is Err
            &&& code > table.len() && prev is Some ==> r is Err
            &&& prev matches Some(p) ==> (code != 256 && code != 257 && code <= table.len() ==> {
                let s = if code == table.len() { p.push(p[0]) } else { table[code] };
                let learnt = if table.len() < 4096 { table.push(p.push(s[0])) } else { table };
                &&& out.len() + s.len() < expected ==> r == lzw_decode_from(bits, pos + w, learnt, Some(s), out + s, expected)
                &&& out.len() + s.len() >= expected ==> r == Ok::<Seq<u8>, crate::lzw::LzwFault>(out + s)
            })
        }),
{
    let w = lzw_width(table.len() as int);
    let code = bits_value(bits, pos, w) as int;
    if code < 256 {
        assert(table[code] == seq![code as u8]);
        assert(out + seq![code as u8] =~= out.push(code as u8));
    }
}

} // verus!
