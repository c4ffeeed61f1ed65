//! Bits of byte strings, most significant bit of each byte first.
use vstd::prelude::*;
use vstd::arithmetic::power2::pow2;

verus! {

/// Bit `k` of a byte, counted from its most significant bit.
pub open spec fn byte_bit(b: u8, k: int) -> bool {
    (b >> ((7 - k) as u8)) & 1u8 == 1u8
}

/// The bits of `s`, most significant bit of each byte first.
pub open spec fn bits_of(s: Seq<u8>) -> Seq<bool> {
    Seq::new(8 * s.len(), |i: int| byte_bit(s[i / 8], i % 8))
}

/// The number written by the `n` bits of `s` that start at `pos`.
pub open spec fn bits_value(s: Seq<bool>, pos: int, n: nat) -> nat
    decreases n,
{
    if n == 0 {
        0
    } else {
        2 * bits_value(s, pos, (n - 1) as nat) + if s[pos + n - 1] { 1nat } else { 0nat }
    }
}

/// The low `n` bits of `v`, most significant first.
pub open spec fn value_bits(v: nat, n: nat) -> Seq<bool>
    decreases n,
{
    if n == 0 {
        Seq::empty()
    } else {
        value_bits(v / 2, (n - 1) as nat).push(v % 2 == 1)
    }
}

/// The byte whose bits are those of `s`; bits past the end of `s` are 0.
pub open spec fn byte_of(s: Seq<bool>) -> u8 {
    let f = |k: int| if k < s.len() && s[k] { 1int } else { 0int };
    (128 * f(0) + 64 * f(1) + 32 * f(2) + 16 * f(3) + 8 * f(4) + 4 * f(5) + 2 * f(6) + f(7)) as u8
}

/// Bytes holding the bits of `s`; the last byte is filled up with 0 bits.
pub open spec fn bytes_of(s: Seq<bool>) -> Seq<u8> {
    Seq::new(
        ((s.len() + 7) / 8) as nat,
        |i: int| byte_of(s.subrange(8 * i, if 8 * i + 8 <= s.len() { 8 * i + 8 } else { s.len() as int })),
    )
}

/// The bits of a number, the one that counts most first: bit `i` of `n` is set where the
/// number has that power of two.
pub proof fn law_value_bits(v: nat, n: nat, i: int)
    requires
        0 <= i < n,
    ensures
        value_bits(v, n).len() == n,
        value_bits(v, n)[i] == (v as int / (pow2((n - 1 - i) as nat) as int) % 2 == 1),
    decreases n,
{
    lemma_value_bits_len(v, n);
    lemma_value_bits_len(v / 2, (n - 1) as nat);
    vstd::arithmetic::power2::lemma2_to64();
    if i < n - 1 {
        law_value_bits(v / 2, (n - 1) as nat, i);
        let d = (n - 2 - i) as nat;
        vstd::arithmetic::power2::lemma_pow2_pos(d);
        vstd::arithmetic::power2::lemma_pow2_unfold((n - 1 - i) as nat);
        vstd::arithmetic::div_mod::lemma_div_denominator(v as int, 2, pow2(d) as int);
        assert((n - 1 - i) as nat == d + 1);
        assert(pow2((n - 1 - i) as nat) == 2 * pow2(d));
        assert(value_bits(v, n)[i] == value_bits(v / 2, (n - 1) as nat)[i]);
        assert(((n - 1) as nat) - 1 - i == n - 2 - i);
    } else {
        assert(pow2(0) == 1);
        assert((n - 1 - i) as nat == 0);
        assert(value_bits(v, n)[i] == (v % 2 == 1));
        assert(v as int / 1 == v);
    }
}

pub proof fn lemma_value_bits_len(v: nat, n: nat)
    ensures
        value_bits(v, n).len() == n,
    decreases n,
{
    if n > 0 {
        lemma_value_bits_len(v / 2, (n - 1) as nat);
    }
}

/// `bits_value` looks only at the bits it names.
pub proof fn lemma_bits_value_local(s: Seq<bool>, t: Seq<bool>, p: int, q: int, n: nat)
    requires
        forall|j: int| p <= j < p + n ==> #[trigger] s[j] == t[j - p + q],
    ensures
        bits_value(s, p, n) == bits_value(t, q, n),
    decreases n,
{
    if n > 0 {
        lemma_bits_value_local(s, t, p, q, (n - 1) as nat);
        assert(s[p + n - 1] == t[q + n - 1]);
    }
}

pub proof fn lemma_bits_value_bound(s: Seq<bool>, p: int, n: nat)
    ensures
        bits_value(s, p, n) < pow2(n),
    decreases n,
{
    vstd::arithmetic::power2::lemma2_to64();
    if n > 0 {
        lemma_bits_value_bound(s, p, (n - 1) as nat);
        vstd::arithmetic::power2::lemma_pow2_unfold(n);
    }
}

/// Writing a number in `n` bits and reading it back is the identity.
pub proof fn lemma_value_bits_roundtrip(v: nat, n: nat)
    requires
        v < pow2(n),
    ensures
        bits_value(value_bits(v, n), 0, n) == v,
    decreases n,
{
    vstd::arithmetic::power2::lemma2_to64();
    if n > 0 {
        vstd::arithmetic::power2::lemma_pow2_unfold(n);
        lemma_value_bits_roundtrip(v / 2, (n - 1) as nat);
        lemma_value_bits_len(v / 2, (n - 1) as nat);
        lemma_bits_value_local(value_bits(v, n), value_bits(v / 2, (n - 1) as nat), 0, 0, (n - 1) as nat);
    }
}

/// Setting one bit of a byte leaves the others.
proof fn lemma_set_bit(b: u8, k: u8, j: u8)
    requires
        k < 8,
        j < 8,
    ensures
        ((b | (1u8 << ((7 - k) as u8))) >> ((7 - j) as u8)) & 1u8 == (if j == k { 1u8 } else { (b >> ((7 - j) as u8)) & 1u8 }),
{
    let a: u8 = (7 - k) as u8;
    let c: u8 = (7 - j) as u8;
    assert(((b | (1u8 << a)) >> c) & 1u8 == (if a == c { 1u8 } else { (b >> c) & 1u8 })) by (bit_vector)
        requires a < 8u8, c < 8u8;
}

proof fn lemma_zero_bit(j: u8)
    requires
        j < 8,
    ensures
        (0u8 >> ((7 - j) as u8)) & 1u8 == 0u8,
{
    let c: u8 = (7 - j) as u8;
    assert((0u8 >> c) & 1u8 == 0u8) by (bit_vector);
}

/// Setting bit `k` of a byte leaves the others.
pub proof fn lemma_or_bit(b: u8, k: int, j: int)
    requires
        0 <= k < 8,
        0 <= j < 8,
    ensures
        byte_bit(b | (1u8 << ((7 - k) as u8)), j) == (j == k || byte_bit(b, j)),
{
    lemma_set_bit(b, k as u8, j as u8);
}

/// The byte 0 has no bit set.
pub proof fn lemma_no_bit(j: int)
    requires
        0 <= j < 8,
    ensures
        !byte_bit(0u8, j),
{
    lemma_zero_bit(j as u8);
}

/// A byte is determined by its eight bits.
pub proof fn lemma_byte_bits(b: u8)
    ensures
        b == 128 * (if byte_bit(b, 0) { 1int } else { 0 }) + 64 * (if byte_bit(b, 1) { 1int } else { 0 })
            + 32 * (if byte_bit(b, 2) { 1int } else { 0 }) + 16 * (if byte_bit(b, 3) { 1int } else { 0 })
            + 8 * (if byte_bit(b, 4) { 1int } else { 0 }) + 4 * (if byte_bit(b, 5) { 1int } else { 0 })
            + 2 * (if byte_bit(b, 6) { 1int } else { 0 }) + (if byte_bit(b, 7) { 1int } else { 0 }),
{
    assert(b == 128u8 * ((b >> 7u8) & 1u8) + 64u8 * ((b >> 6u8) & 1u8) + 32u8 * ((b >> 5u8) & 1u8)
        + 16u8 * ((b >> 4u8) & 1u8) + 8u8 * ((b >> 3u8) & 1u8) + 4u8 * ((b >> 2u8) & 1u8)
        + 2u8 * ((b >> 1u8) & 1u8) + ((b >> 0u8) & 1u8)) by (bit_vector);
    assert forall|s: u8| #[trigger] (b >> s) & 1u8 == 0u8 || (b >> s) & 1u8 == 1u8 by {
        assert((b >> s) & 1u8 == 0u8 || (b >> s) & 1u8 == 1u8) by (bit_vector);
    }
}

/// Bits `k` of the byte assembled from `s`.
pub proof fn lemma_byte_of_bit(s: Seq<bool>, k: int)
    requires
        0 <= k < 8,
    ensures
        byte_bit(byte_of(s), k) == (k < s.len() && s[k]),
{
    let f = |k: int| if k < s.len() && s[k] { 1u8 } else { 0u8 };
    let (f0, f1, f2, f3, f4, f5, f6, f7) = (f(0), f(1), f(2), f(3), f(4), f(5), f(6), f(7));
    let b = byte_of(s);
    assert(b == 128 * f0 + 64 * f1 + 32 * f2 + 16 * f3 + 8 * f4 + 4 * f5 + 2 * f6 + f7);
    assert((b >> 7u8) & 1u8 == f0 && (b >> 6u8) & 1u8 == f1 && (b >> 5u8) & 1u8 == f2
        && (b >> 4u8) & 1u8 == f3 && (b >> 3u8) & 1u8 == f4 && (b >> 2u8) & 1u8 == f5
        && (b >> 1u8) & 1u8 == f6 && (b >> 0u8) & 1u8 == f7) by (bit_vector)
        requires
            b == 128u8 * f0 + 64u8 * f1 + 32u8 * f2 + 16u8 * f3 + 8u8 * f4 + 4u8 * f5 + 2u8 * f6 + f7,
            f0 <= 1u8, f1 <= 1u8, f2 <= 1u8, f3 <= 1u8, f4 <= 1u8, f5 <= 1u8, f6 <= 1u8, f7 <= 1u8;
}

/// Bytes packed from bits hold those bits, then 0 bits up to the byte edge.
pub proof fn lemma_bits_of_bytes_of(s: Seq<bool>)
    ensures
        bits_of(bytes_of(s)).len() == 8 * ((s.len() + 7) / 8),
        forall|i: int| 0 <= i < bits_of(bytes_of(s)).len() ==> #[trigger] bits_of(bytes_of(s))[i] == (i < s.len() && s[i]),
{
    assert forall|i: int| 0 <= i < bits_of(bytes_of(s)).len() implies #[trigger] bits_of(bytes_of(s))[i] == (i < s.len() && s[i]) by {
        let q = i / 8;
        let sub = s.subrange(8 * q, if 8 * q + 8 <= s.len() { 8 * q + 8 } else { s.len() as int });
        lemma_byte_of_bit(sub, i % 8);
    }
}

/// Appends bits to a byte string, most significant bit of each byte first.
pub struct MsbWriter {
    pub out: Vec<u8>,
    pub cur: u8,
    pub used: u8,
}

impl MsbWriter {
    pub open spec fn wf(self) -> bool {
        &&& self.used < 8
        &&& forall|k: int| self.used <= k < 8 ==> !#[trigger] byte_bit(self.cur, k)
    }

    /// All bits written so far.
    pub open spec fn view(&self) -> Seq<bool> {
        bits_of(self.out@) + Seq::new(self.used as nat, |k: int| byte_bit(self.cur, k))
    }

    pub fn new() -> (w: MsbWriter)
        ensures
            w.wf(),
            w@ == Seq::<bool>::empty(),
    {
        proof {
            assert forall|k: int| 0 <= k < 8 implies !#[trigger] byte_bit(0u8, k) by {
                lemma_zero_bit(k as u8);
            }
        }
        let w = MsbWriter { out: Vec::new(), cur: 0, used: 0 };
        assert(w@ =~= Seq::<bool>::empty());
        w
    }

    /// Appends one bit.
    pub fn put(&mut self, bit: bool)
        requires
            old(self).wf(),
        ensures
            final(self).wf(),
            final(self)@ == old(self)@.push(bit),
    {
        let ghost before = self@;
        let ghost cur0 = self.cur;
        let ghost out0 = self.out@;
        if bit {
            self.cur = self.cur | (1u8 << (7 - self.used));
        }
        proof {
            assert forall|k: int| 0 <= k < 8 implies #[trigger] byte_bit(self.cur, k) == (if k == self.used { bit } else { byte_bit(cur0, k) }) by {
                lemma_set_bit(cur0, self.used, k as u8);
                assert(byte_bit(cur0, k) == byte_bit(cur0, k));
            }
        }
        self.used = self.used + 1;
        if self.used == 8 {
            let done: u8 = self.cur;
            self.out.push(done);
            self.cur = 0;
            self.used = 0;
            proof {
                assert forall|k: int| 0 <= k < 8 implies !#[trigger] byte_bit(0u8, k) by {
                    lemma_zero_bit(k as u8);
                }
                assert(self@.len() == before.len() + 1);
                assert forall|i: int| 0 <= i < self@.len() implies self@[i] == before.push(bit)[i] by {
                    if i < 8 * out0.len() {
                        assert(self.out@[i / 8] == out0[i / 8]);
                    } else {
                        assert(i / 8 == out0.len());
                        assert(self.out@[i / 8] == done);
                        assert(byte_bit(done, i % 8) == byte_bit(done, i - 8 * out0.len()));
                    }
                }
                assert(self@ =~= before.push(bit));
            }
        } else {
            assert(self@ =~= before.push(bit));
        }
    }

    /// Appends the low `n` bits of `v`, most significant first.
    pub fn put_value(&mut self, v: u32, n: u32)
        requires
            old(self).wf(),
            n <= 32,
        ensures
            final(self).wf(),
            final(self)@ == old(self)@ + value_bits(v as nat, n as nat),
        decreases n,
    {
        if n > 0 {
            let ghost start = self@;
            self.put_value(v / 2, n - 1);
            self.put(v % 2 == 1);
            proof {
                assert(self@ =~= start + value_bits(v as nat, n as nat));
            }
        } else {
            assert(self@ =~= old(self)@ + value_bits(v as nat, 0));
        }
    }

    /// Appends 0 bits up to the next byte.
    pub fn align(&mut self)
        requires
            old(self).wf(),
        ensures
            final(self).wf(),
            final(self)@ == old(self)@ + Seq::new(((8 - old(self)@.len() % 8) % 8) as nat, |i: int| false),
            final(self)@.len() % 8 == 0,
    {
        let ghost start = self@;
        let ghost n = ((8 - start.len() % 8) % 8) as int;
        assert(self@ =~= start + Seq::new(0, |i: int| false));
        while self.used != 0
            invariant
                self.wf(),
                start.len() <= self@.len() <= start.len() + n,
                n == (8 - start.len() % 8) % 8,
                self@ == start + Seq::new((self@.len() - start.len()) as nat, |i: int| false),
                self.used == self@.len() % 8,
            decreases start.len() + n - self@.len(),
        {
            let ghost before = self@;
            self.put(false);
            assert(self@ =~= start + Seq::new((self@.len() - start.len()) as nat, |i: int| false));
        }
    }

    /// The bytes written; an unfinished last byte is filled up with 0 bits.
    pub fn finish(self) -> (out: Vec<u8>)
        requires
            self.wf(),
        ensures
            out@ == bytes_of(self@),
    {
        let ghost all = self@;
        let MsbWriter { out, cur, used } = self;
        let mut out = out;
        let ghost out0 = out@;
        if used > 0 {
            out.push(cur);
        }
        proof {
            assert(out@.len() == bytes_of(all).len());
            assert forall|i: int| 0 <= i < out@.len() implies out@[i] == bytes_of(all)[i] by {
                let hi = if 8 * i + 8 <= all.len() { 8 * i + 8 } else { all.len() as int };
                let sub = all.subrange(8 * i, hi);
                assert forall|k: int| 0 <= k < 8 implies #[trigger] byte_bit(out@[i], k) == (k < sub.len() && sub[k]) by {
                    if i < out0.len() {
                        assert(all[8 * i + k] == bits_of(out0)[8 * i + k]);
                        assert((8 * i + k) / 8 == i && (8 * i + k) % 8 == k);
                    } else if k < used {
                        assert(all[8 * i + k] == byte_bit(cur, k));
                    }
                }
                lemma_byte_bits(out@[i]);
            }
            assert(out@ =~= bytes_of(all));
        }
        out
    }
}

/// `part` stands in `s` at position `pos`.
pub open spec fn stands_at(s: Seq<bool>, pos: int, part: Seq<bool>) -> bool {
    &&& 0 <= pos
    &&& pos + part.len() <= s.len()
    &&& forall|j: int| pos <= j < pos + part.len() ==> #[trigger] s[j] == part[j - pos]
}

/// A part that is made of two stands where both of its pieces stand.
pub proof fn lemma_stands_split(s: Seq<bool>, pos: int, a: Seq<bool>, b: Seq<bool>)
    requires
        stands_at(s, pos, a + b),
    ensures
        stands_at(s, pos, a),
        stands_at(s, pos + a.len(), b),
{
    assert forall|j: int| pos <= j < pos + a.len() implies #[trigger] s[j] == a[j - pos] by {
        assert(s[j] == (a + b)[j - pos]);
    }
    assert forall|j: int| pos + a.len() <= j < pos + a.len() + b.len() implies #[trigger] s[j] == b[j - (pos + a.len())] by {
        assert(s[j] == (a + b)[j - pos]);
    }
}

/// Reading a number where its bits stand gives the number.
pub proof fn lemma_read_where_written(s: Seq<bool>, pos: int, v: nat, n: nat)
    requires
        stands_at(s, pos, value_bits(v, n)),
        v < pow2(n),
    ensures
        bits_value(s, pos, n) == v,
{
    lemma_value_bits_len(v, n);
    lemma_value_bits_roundtrip(v, n);
    lemma_bits_value_local(s, value_bits(v, n), pos, 0, n);
}

/// Reads bit `i` of `s`.
pub fn read_bit(s: &[u8], i: u128) -> (b: bool)
    requires
        i < 8 * s@.len(),
    ensures
        b == bits_of(s@)[i as int],
{
    let k: u8 = (7 - i % 8) as u8;
    let at: usize = (i / 8) as usize;
    (s[at] >> k) & 1 == 1
}

/// Reads the number written by the `n` bits of `s` that start at `pos`.
pub fn read_value(s: &[u8], pos: u128, n: u32) -> (v: u32)
    requires
        n <= 31,
        pos + n <= 8 * s@.len(),
    ensures
        v == bits_value(bits_of(s@), pos as int, n as nat),
        v < pow2(n as nat),
{
    let mut v: u32 = 0;
    let mut i: u32 = 0;
    let total: usize = s.len();
    while i < n
        invariant
            i <= n <= 31,
            total == s@.len(),
            pos + n <= 8 * s@.len(),
            v == bits_value(bits_of(s@), pos as int, i as nat),
        decreases n - i,
    {
        proof {
            lemma_bits_value_bound(bits_of(s@), pos as int, i as nat);
            vstd::arithmetic::power2::lemma2_to64();
            if i < 30 {
                vstd::arithmetic::power2::lemma_pow2_strictly_increases(i as nat, 30);
            }
        }
        v = 2 * v + if read_bit(s, pos + i as u128) { 1 } else { 0 };
        i = i + 1;
    }
    proof {
        lemma_bits_value_bound(bits_of(s@), pos as int, n as nat);
    }
    v
}

} // verus!
