//! The code lengths of tables made for given counts are the best there are: no
//! prefix code for the same symbols writes them in fewer bits.
use vstd::prelude::*;
use vstd::arithmetic::power2::{lemma2_to64, lemma_pow2_adds, lemma_pow2_pos, pow2};
use crate::huffman_stats::{depths, grown, joined_trees, length_counts, longest_upto, no_symbol, pair_of, seedlings, shallow};
use crate::huffman_stats::{lemma_depths, lemma_length_counts, lemma_pair, lemma_seedlings, lemma_step, lemma_total_nonnegative};
use crate::huffman_stats::{coded, lemma_longest_code, lemma_shortened, lemma_sizes_nonnegative, lemma_table_bits};
use crate::huffman_stats::{lemma_total_update, shortened, table_bits, total, trees_wf, whole_share, without_free, TreeModel};

verus! {

/// The bits that each symbol takes, of which there are `freq`, when its code has
/// `len` bits.
pub open spec fn weighted(freq: Seq<int>, len: Seq<int>) -> Seq<int> {
    Seq::new(freq.len(), |i: int| freq[i] * len[i])
}

/// The bits that all symbols take.
pub open spec fn cost(freq: Seq<int>, len: Seq<int>) -> int {
    total(weighted(freq, len), freq.len() as int)
}

/// What each symbol that occurs takes of the space of codes of `most` bits.
pub open spec fn room(freq: Seq<int>, len: Seq<int>, most: nat) -> Seq<int> {
    Seq::new(freq.len(), |i: int| if freq[i] > 0 { pow2((most - len[i]) as nat) as int } else { 0 })
}

/// The symbols that occur can have codes of the lengths `len`, none of which starts
/// another: they have room in the space of codes of `most` bits.
pub open spec fn code_lengths(freq: Seq<int>, len: Seq<int>, most: nat) -> bool {
    &&& len.len() == freq.len()
    &&& forall|i: int| 0 <= i < freq.len() && freq[i] > 0 ==> 0 <= #[trigger] len[i] <= most
    &&& total(room(freq, len, most), freq.len() as int) <= pow2(most)
}

/// Exchanging the lengths of a rarer symbol and of one with a longer code does not
/// cost more.
proof fn lemma_exchange(freq: Seq<int>, len: Seq<int>, most: nat, a: int, x: int) -> (l: Seq<int>)
    requires
        code_lengths(freq, len, most),
        0 <= a < freq.len(),
        0 <= x < freq.len(),
        0 < freq[a] <= freq[x],
        len[a] <= len[x],
    ensures
        code_lengths(freq, l, most),
        cost(freq, l) <= cost(freq, len),
        l == len.update(a, len[x]).update(x, len[a]),
{
    let l = len.update(a, len[x]).update(x, len[a]);
    let n = freq.len() as int;
    if a == x {
        assert(l =~= len);
    } else {
        let w = weighted(freq, len);
        let w1 = w.update(a, freq[a] * len[x]);
        let w2 = w1.update(x, freq[x] * len[a]);
        assert(weighted(freq, l) =~= w2);
        lemma_total_update(w, a, freq[a] * len[x], n);
        lemma_total_update(w1, x, freq[x] * len[a], n);
        let fa = freq[a];
        let fx = freq[x];
        let la = len[a];
        let lx = len[x];
        assert(fa * lx - fa * la + (fx * la - fx * lx) <= 0) by (nonlinear_arith)
            requires
                fa <= fx,
                la <= lx,
        ;
        let r = room(freq, len, most);
        let r1 = r.update(a, r[x]);
        let r2 = r1.update(x, r[a]);
        assert(room(freq, l, most) =~= r2);
        lemma_total_update(r, a, r[x], n);
        lemma_total_update(r1, x, r[a], n);
    }
    l
}

/// The symbol with the longest code among the first `n` and `s`, but not `skip`.
proof fn lemma_deepest(freq: Seq<int>, len: Seq<int>, skip: int, s: int, n: int) -> (x: int)
    requires
        0 <= n <= freq.len(),
        0 <= s < freq.len(),
        s != skip,
        freq[s] > 0,
    ensures
        0 <= x < freq.len(),
        x != skip,
        freq[x] > 0,
        len[s] <= len[x],
        forall|i: int| 0 <= i < n && i != skip && freq[i] > 0 ==> #[trigger] len[i] <= len[x],
    decreases n,
{
    if n == 0 {
        s
    } else {
        let y = lemma_deepest(freq, len, skip, s, n - 1);
        if n - 1 != skip && freq[n - 1] > 0 && len[n - 1] > len[y] {
            n - 1
        } else {
            y
        }
    }
}

proof fn lemma_scaled(r: Seq<int>, s: Seq<int>, q: int, n: int)
    requires
        0 <= n <= r.len(),
        r.len() == s.len(),
        forall|i: int| 0 <= i < r.len() ==> #[trigger] r[i] == q * s[i],
    ensures
        total(r, n) == q * total(s, n),
    decreases n,
{
    if n > 0 {
        lemma_scaled(r, s, q, n - 1);
        let t = total(s, n - 1);
        assert(r[n - 1] == q * s[n - 1]);
        assert(q * t + q * s[n - 1] == q * (t + s[n - 1])) by (nonlinear_arith);
    } else {
        assert(q * 0 == 0) by (nonlinear_arith);
    }
}

/// Where one code is longer than all others, it can be cut to the longest of them.
proof fn lemma_cut(freq: Seq<int>, len: Seq<int>, most: nat, a: int, e: nat) -> (l: Seq<int>)
    requires
        code_lengths(freq, len, most),
        0 <= a < freq.len(),
        freq[a] > 0,
        e <= len[a],
        forall|i: int| 0 <= i < freq.len() && i != a && freq[i] > 0 ==> #[trigger] len[i] <= e,
    ensures
        l == len.update(a, e as int),
        code_lengths(freq, l, e),
        cost(freq, l) <= cost(freq, len),
{
    let l = len.update(a, e as int);
    let n = freq.len() as int;
    assert(len[a] <= most);
    let q = pow2((most - e) as nat) as int;
    let r = room(freq, len, most);
    let s = room(freq, l, e);
    let r0 = r.update(a, 0);
    let s0 = s.update(a, 0);
    assert forall|i: int| 0 <= i < r0.len() implies #[trigger] r0[i] == q * s0[i] by {
        if i != a && freq[i] > 0 {
            assert(0 <= len[i] <= e);
            lemma_pow2_adds((most - e) as nat, (e - len[i]) as nat);
        } else {
            assert(q * 0 == 0) by (nonlinear_arith);
        }
    }
    lemma_scaled(r0, s0, q, n);
    lemma_total_update(r, a, 0, n);
    lemma_total_update(s, a, 0, n);
    lemma_pow2_pos((most - len[a]) as nat);
    lemma_pow2_adds((most - e) as nat, e);
    lemma2_to64();
    let sum = total(s0, n);
    let whole = pow2(e) as int;
    assert(q * sum < q * whole);
    assert(sum < whole) by (nonlinear_arith)
        requires
            q * sum < q * whole,
            q >= 0,
    ;
    assert(s[a] == 1);
    assert forall|i: int| 0 <= i < freq.len() && freq[i] > 0 implies 0 <= #[trigger] l[i] <= e by {
        if i != a {
            assert(0 <= len[i]);
        }
    }
    let w = weighted(freq, len);
    assert(weighted(freq, l) =~= w.update(a, freq[a] * e));
    lemma_total_update(w, a, freq[a] * e, n);
    let fa = freq[a];
    let la = len[a];
    assert(fa * e <= fa * la) by (nonlinear_arith)
        requires
            fa >= 0,
            e <= la,
    ;
    l
}

/// Codes of the same length for the two rarest trees make one for their joined tree,
/// one bit shorter.
proof fn lemma_join_codes(freq: Seq<int>, len: Seq<int>, e: nat, a: int, b: int) -> (l: Seq<int>)
    requires
        forall|i: int| 0 <= i < freq.len() ==> 0 <= #[trigger] freq[i],
        code_lengths(freq, len, e),
        0 <= a < freq.len(),
        0 <= b < freq.len(),
        a != b,
        freq[a] > 0,
        freq[b] > 0,
        len[a] == e,
        len[b] == e,
    ensures
        code_lengths(freq.update(a, freq[a] + freq[b]).update(b, 0), l, e),
        cost(freq.update(a, freq[a] + freq[b]).update(b, 0), l) + freq[a] + freq[b] == cost(freq, len),
{
    let n = freq.len() as int;
    let f2 = freq.update(a, freq[a] + freq[b]).update(b, 0);
    let l = len.update(a, e - 1);
    lemma2_to64();
    let r = room(freq, len, e);
    assert(r[a] == 1 && r[b] == 1);
    let ra = r.update(a, 0);
    let rb = ra.update(b, 0);
    lemma_total_update(r, a, 0, n);
    lemma_total_update(ra, b, 0, n);
    assert forall|i: int| 0 <= i < rb.len() implies 0 <= #[trigger] rb[i] by {
    }
    lemma_total_nonnegative(rb, n);
    assert(e >= 1);
    let r1 = r.update(a, 2);
    let r2 = r1.update(b, 0);
    assert(room(f2, l, e) =~= r2);
    lemma_total_update(r, a, 2, n);
    lemma_total_update(r1, b, 0, n);
    assert forall|i: int| 0 <= i < f2.len() && f2[i] > 0 implies 0 <= #[trigger] l[i] <= e by {
        if i != a {
            assert(0 <= len[i] <= e);
        }
    }
    let fa = freq[a];
    let fb = freq[b];
    let w = weighted(freq, len);
    let w1 = w.update(a, (fa + fb) * (e - 1));
    let w2 = w1.update(b, 0);
    assert(weighted(f2, l) =~= w2) by {
        let lb = l[b];
        assert(0 * lb == 0) by (nonlinear_arith);
    }
    lemma_total_update(w, a, (fa + fb) * (e - 1), n);
    lemma_total_update(w1, b, 0, n);
    assert((fa + fb) * (e - 1) == fa * e + fb * e - fa - fb) by (nonlinear_arith);
    l
}

/// Any code lengths for trees give some for the trees after a step, which save the
/// bits that the step adds.
proof fn lemma_step_codes(freq: Seq<int>, len: Seq<int>, most: nat, p: (int, int)) -> (r: (Seq<int>, nat))
    requires
        freq.len() == 257,
        forall|i: int| 0 <= i < freq.len() ==> 0 <= #[trigger] freq[i],
        pair_of(freq) == Some(p),
        code_lengths(freq, len, most),
    ensures
        code_lengths(freq.update(p.0, freq[p.0] + freq[p.1]).update(p.1, 0), r.0, r.1),
        cost(freq.update(p.0, freq[p.0] + freq[p.1]).update(p.1, 0), r.0) + freq[p.0] + freq[p.1] <= cost(freq, len),
{
    let (a, b) = p;
    lemma_pair(freq);
    let x = lemma_deepest(freq, len, -1, a, 257);
    let la = lemma_exchange(freq, len, most, a, x);
    assert forall|i: int| 0 <= i < 257 && freq[i] > 0 implies #[trigger] la[i] <= la[a] by {
        assert(len[i] <= len[x]);
        assert(len[a] <= len[x]);
    }
    let y = lemma_deepest(freq, la, a, b, 257);
    let lb = lemma_exchange(freq, la, most, b, y);
    assert forall|i: int| 0 <= i < 257 && i != a && freq[i] > 0 implies #[trigger] lb[i] <= lb[b] by {
        assert(la[i] <= la[y]);
        assert(la[b] <= la[y]);
    }
    assert(lb[b] == la[y]);
    assert(0 <= la[y] <= la[a]);
    assert(lb[a] == la[a]);
    let e = lb[b] as nat;
    let lc = lemma_cut(freq, lb, most, a, e);
    let l = lemma_join_codes(freq, lc, e, a, b);
    (l, e)
}

/// How often the first `n` symbols occur that are in tree `h`.
pub open spec fn weight_in(group: Seq<int>, freq: Seq<int>, h: int, n: int) -> int
    decreases n,
{
    if n <= 0 { 0 } else { weight_in(group, freq, h, n - 1) + if group[n - 1] == h { freq[n - 1] } else { 0 } }
}

/// Each tree occurs as often as its symbols do.
pub open spec fn weights_held(t: TreeModel, freq: Seq<int>) -> bool {
    forall|h: int| 0 <= h < 257 ==> #[trigger] t.freq[h] == weight_in(t.group, freq, h, 257)
}

proof fn lemma_joined_weights(t: TreeModel, freq: Seq<int>, a: int, b: int, h: int, n: int)
    requires
        0 <= n <= 257,
        a != b,
    ensures
        weight_in(joined_trees(t, a, b).group, freq, h, n) == (if h == a {
            weight_in(t.group, freq, a, n) + weight_in(t.group, freq, b, n)
        } else if h == b {
            0
        } else {
            weight_in(t.group, freq, h, n)
        }),
    decreases n,
{
    if n > 0 {
        lemma_joined_weights(t, freq, a, b, h, n - 1);
    }
}

proof fn lemma_joined_cost(t: TreeModel, freq: Seq<int>, a: int, b: int, n: int)
    requires
        0 <= n <= 257,
        freq.len() == 257,
        a != b,
    ensures
        total(weighted(freq, joined_trees(t, a, b).size), n) == total(weighted(freq, t.size), n) + weight_in(
            t.group,
            freq,
            a,
            n,
        ) + weight_in(t.group, freq, b, n),
    decreases n,
{
    if n > 0 {
        lemma_joined_cost(t, freq, a, b, n - 1);
        let f = freq[n - 1];
        let z = t.size[n - 1];
        assert(f * (z + 1) == f * z + f) by (nonlinear_arith);
        assert(f * (z + 0) == f * z) by (nonlinear_arith);
    }
}

proof fn lemma_seed_weights(freq: Seq<int>, h: int, n: int)
    requires
        0 <= n <= 257,
        0 <= h,
    ensures
        weight_in(Seq::new(257, |s: int| s), freq, h, n) == (if h < n { freq[h] } else { 0 }),
    decreases n,
{
    if n > 0 {
        lemma_seed_weights(freq, h, n - 1);
    }
}

/// The steps that are left add no more bits than any code for the trees would.
proof fn lemma_steps_best(t: TreeModel, freq: Seq<int>, n: nat, len: Seq<int>, most: nat)
    requires
        trees_wf(t),
        freq.len() == 257,
        weights_held(t, freq),
        code_lengths(t.freq, len, most),
    ensures
        cost(freq, grown(t, n).size) - cost(freq, t.size) <= cost(t.freq, len),
    decreases n,
{
    let w = weighted(t.freq, len);
    if n == 0 || pair_of(t.freq) is None {
        assert forall|i: int| 0 <= i < w.len() implies 0 <= #[trigger] w[i] by {
            let f = t.freq[i];
            let z = len[i];
            assert(f >= 0);
            if f > 0 {
                assert(z >= 0);
            }
            assert(0 <= f * z) by (nonlinear_arith)
                requires
                    f == 0 || (f > 0 && z >= 0),
            ;
        }
        lemma_total_nonnegative(w, 257);
    } else {
        let p = pair_of(t.freq).unwrap();
        let u = joined_trees(t, p.0, p.1);
        lemma_pair(t.freq);
        lemma_step(t, p);
        assert forall|i: int| 0 <= i < t.freq.len() implies 0 <= #[trigger] t.freq[i] by {
        }
        let (l, m) = lemma_step_codes(t.freq, len, most, p);
        lemma_joined_cost(t, freq, p.0, p.1, 257);
        assert forall|h: int| 0 <= h < 257 implies #[trigger] u.freq[h] == weight_in(u.group, freq, h, 257) by {
            lemma_joined_weights(t, freq, p.0, p.1, h, 257);
            assert(t.freq[h] == weight_in(t.group, freq, h, 257));
            assert(t.freq[p.0] == weight_in(t.group, freq, p.0, 257));
            assert(t.freq[p.1] == weight_in(t.group, freq, p.1, 257));
        }
        assert(t.freq[p.0] == weight_in(t.group, freq, p.0, 257));
        assert(t.freq[p.1] == weight_in(t.group, freq, p.1, 257));
        lemma_steps_best(u, freq, (n - 1) as nat, l, m);
    }
}

/// How often each symbol occurs; the free code counts once.
pub open spec fn counts_with_free(freq: Seq<u32>) -> Seq<int> {
    seedlings(freq).freq
}

/// The depths of the tree for given counts are the best code lengths: no lengths of
/// a prefix code for the symbols that occur and the free code make fewer bits.
pub proof fn law_depths_best(freq: Seq<u32>, len: Seq<int>, most: nat)
    requires
        freq.len() == 257,
        code_lengths(counts_with_free(freq), len, most),
    ensures
        cost(counts_with_free(freq), depths(freq)) <= cost(counts_with_free(freq), len),
{
    let t = seedlings(freq);
    lemma_seedlings(freq);
    assert forall|h: int| 0 <= h < 257 implies #[trigger] t.freq[h] == weight_in(t.group, t.freq, h, 257) by {
        lemma_seed_weights(t.freq, h, 257);
    }
    lemma_steps_best(t, t.freq, 257, len, most);
    assert(cost(t.freq, t.size) == 0) by {
        lemma_no_cost(t.freq, t.size, 257);
    }
}

proof fn lemma_no_cost(freq: Seq<int>, len: Seq<int>, n: int)
    requires
        0 <= n <= freq.len(),
        forall|i: int| 0 <= i < freq.len() ==> #[trigger] len[i] == 0,
    ensures
        total(weighted(freq, len), n) == 0,
    decreases n,
{
    if n > 0 {
        lemma_no_cost(freq, len, n - 1);
        let f = freq[n - 1];
        assert(len[n - 1] == 0);
        assert(f * 0 == 0) by (nonlinear_arith);
    }
}

proof fn lemma_room_shared(freq: Seq<int>, size: Seq<int>, n: int)
    requires
        0 <= n <= freq.len(),
        size.len() == freq.len(),
        shallow(size),
        forall|i: int| 0 <= i < freq.len() ==> (freq[i] > 0 <==> #[trigger] size[i] > 0),
    ensures
        total(room(freq, size, 32), n) == whole_share(size, n),
    decreases n,
{
    if n > 0 {
        lemma_room_shared(freq, size, n - 1);
        assert(size[n - 1] <= 32);
        assert(freq[n - 1] > 0 <==> size[n - 1] > 0);
    }
}

/// The depths of a tree that is not deeper than 32 are lengths of a prefix code.
pub proof fn law_depths_code(freq: Seq<u32>)
    requires
        freq.len() == 257,
        !no_symbol(freq),
        shallow(depths(freq)),
    ensures
        code_lengths(counts_with_free(freq), depths(freq), 32),
{
    let f = counts_with_free(freq);
    let size = depths(freq);
    lemma_depths(freq);
    assert forall|i: int| 0 <= i < f.len() implies (f[i] > 0 <==> #[trigger] size[i] > 0) by {
    }
    assert forall|i: int| 0 <= i < f.len() && f[i] > 0 implies 0 <= #[trigger] size[i] <= 32 by {
        assert(size[i] > 0);
    }
    lemma_room_shared(f, size, 257);
    lemma2_to64();
}

proof fn lemma_none_longer(size: Seq<int>, k: int, n: int)
    requires
        0 <= n <= size.len(),
        forall|s: int| 0 <= s < size.len() ==> 0 <= #[trigger] size[s] <= 16,
        16 < k <= 32,
    ensures
        length_counts(size, n).len() == 33,
        length_counts(size, n)[k] == 0,
    decreases n,
{
    if n > 0 {
        lemma_none_longer(size, k, n - 1);
        assert(0 <= size[n - 1] <= 16);
    }
}

proof fn lemma_kept(b: Seq<int>, i: int)
    requires
        i <= 32,
        forall|k: int| 16 < k <= 32 ==> #[trigger] b[k] == 0,
    ensures
        shortened(b, i) == b,
    decreases i,
{
    if i > 16 {
        assert(b[i] == 0);
        lemma_kept(b, i - 1);
    }
}

/// Where no depth is above 16, a table has as many codes of each length as there are
/// symbols of that depth, less the free code, which is one of the longest. With the
/// free code its lengths are then the best there are.
pub proof fn law_table_best(freq: Seq<u32>, len: Seq<int>, most: nat)
    requires
        freq.len() == 257,
        !no_symbol(freq),
        forall|s: int| 0 <= s < 257 ==> #[trigger] depths(freq)[s] <= 16,
        code_lengths(counts_with_free(freq), len, most),
    ensures
        cost(counts_with_free(freq), depths(freq)) <= cost(counts_with_free(freq), len),
        ({
            let counts = length_counts(depths(freq), 257);
            let last = longest_upto(counts, 16);
            forall|k: int|
                0 <= k < 16 ==> #[trigger] table_bits(freq)[k] == counts[k + 1] - if k + 1 == last { 1int } else { 0 }
        }),
{
    law_depths_best(freq, len, most);
    let size = depths(freq);
    lemma_depths(freq);
    let counts = length_counts(size, 257);
    assert forall|k: int| 16 < k <= 32 implies #[trigger] counts[k] == 0 by {
        lemma_none_longer(size, k, 257);
    }
    lemma_kept(counts, 32);
    lemma_sizes_nonnegative(freq);
    lemma_length_counts(size, 257);
    let codes = coded(size, 257);
    lemma_shortened(counts, 32, codes);
    lemma_table_bits(counts, codes, table_bits(freq));
    lemma_longest_code(counts, codes);
    let last = longest_upto(counts, 16);
    assert forall|k: int| 0 <= k < 16 implies #[trigger] table_bits(freq)[k] == counts[k + 1] - if k + 1 == last {
        1int
    } else {
        0
    } by {
        assert(table_bits(freq)[k] == without_free(counts)[k + 1]);
    }
}

} // verus!
