//! Huffman tables made for given symbol counts.
//!
//! The two rarest symbols are joined again and again to a tree, whose depths are
//! code lengths; lengths above 16 bits are then shortened at the cost of shorter
//! ones, and one code is kept free so that none is all ones.
use vstd::prelude::*;
use vstd::arithmetic::power2::{lemma2_to64, lemma_pow2_adds, lemma_pow2_pos, lemma_pow2_unfold, pow2};
use crate::huffman::{code_at, code_count, code_sizes, code_space, law_codes_fit, lemma_sizes, spec_usable, spec_valid};
use crate::huffman::HuffSpec;

verus! {

/// How often each symbol occurs. Place 256 stands for the code that is kept free.
#[derive(Debug, Clone)]
pub struct HuffStats {
    /// The counts.
    pub freq: [u32; 257],
}

impl Default for HuffStats {
    fn default() -> (r: HuffStats)
        ensures
            forall|i: int| 0 <= i < 257 ==> #[trigger] r.freq@[i] == 0,
    {
        HuffStats { freq: [0u32; 257] }
    }
}

/// One more, up to the greatest count.
pub open spec fn one_more(n: u32) -> u32 {
    if n < u32::MAX { (n + 1) as u32 } else { n }
}

/// No symbol occurs.
pub open spec fn no_symbol(freq: Seq<u32>) -> bool {
    forall|i: int| 0 <= i < 256 ==> #[trigger] freq[i] == 0
}

// ----------------------------------------------------------------------
// The tree
// ----------------------------------------------------------------------

/// Trees over the symbols, each named by one of its symbols: how often the
/// symbols of a tree occur (0 where there is no such tree), how deep each symbol
/// is in its tree, and in which tree it is.
#[verifier::ext_equal]
pub struct TreeModel {
    pub freq: Seq<int>,
    pub size: Seq<int>,
    pub group: Seq<int>,
}

/// The rarest tree among the first `n`, the last of them where they are equally
/// rare; not tree `skip`.
pub open spec fn rarest(freq: Seq<int>, skip: int, n: int) -> Option<int>
    decreases n,
{
    if n <= 0 {
        None
    } else {
        let b = rarest(freq, skip, n - 1);
        let v = n - 1;
        if v != skip && freq[v] > 0 && (b is None || freq[v] <= freq[b.unwrap()]) { Some(v) } else { b }
    }
}

/// The two rarest trees.
pub open spec fn pair_of(freq: Seq<int>) -> Option<(int, int)> {
    match rarest(freq, -1, 257) {
        None => None,
        Some(a) => match rarest(freq, a, 257) {
            None => None,
            Some(b) => Some((a, b)),
        },
    }
}

/// Two trees put under a new root.
pub open spec fn joined_trees(t: TreeModel, a: int, b: int) -> TreeModel {
    TreeModel {
        freq: t.freq.update(a, t.freq[a] + t.freq[b]).update(b, 0),
        size: Seq::new(257, |s: int| t.size[s] + if t.group[s] == a || t.group[s] == b { 1int } else { 0 }),
        group: Seq::new(257, |s: int| if t.group[s] == b { a } else { t.group[s] }),
    }
}

/// The trees after `n` such steps, or as many as there are.
pub open spec fn grown(t: TreeModel, n: nat) -> TreeModel
    decreases n,
{
    if n == 0 {
        t
    } else {
        match pair_of(t.freq) {
            None => t,
            Some(p) => grown(joined_trees(t, p.0, p.1), (n - 1) as nat),
        }
    }
}

/// Every symbol that occurs, and the free code, as a tree of its own.
pub open spec fn seedlings(freq: Seq<u32>) -> TreeModel {
    TreeModel {
        freq: Seq::new(257, |s: int| if s == 256 { 1int } else { freq[s] as int }),
        size: Seq::new(257, |s: int| 0int),
        group: Seq::new(257, |s: int| s),
    }
}

/// The depth of each symbol in the whole tree; 0 for one that does not occur.
pub open spec fn depths(freq: Seq<u32>) -> Seq<int> {
    grown(seedlings(freq), 257).size
}

/// Finds the rarest tree.
fn find_rarest(freq: &[u64; 257], skip: usize, Ghost(f): Ghost<Seq<int>>, Ghost(k): Ghost<int>) -> (r: Option<usize>)
    requires
        f.len() == 257,
        forall|s: int| 0 <= s < 257 ==> #[trigger] freq@[s] == f[s],
        k == skip || (skip >= 257 && k == -1),
    ensures
        (match r {
            Some(v) => rarest(f, k, 257) == Some(v as int) && v < 257 && v != skip && freq@[v as int] > 0,
            None => rarest(f, k, 257) is None,
        }),
{
    let mut best: Option<usize> = None;
    let mut v: usize = 0;
    while v < 257
        invariant
            v <= 257,
            f.len() == 257,
            forall|s: int| 0 <= s < 257 ==> #[trigger] freq@[s] == f[s],
            k == skip || (skip >= 257 && k == -1),
            (match best {
                Some(b) => rarest(f, k, v as int) == Some(b as int) && b < 257 && b != skip && freq@[b as int] > 0,
                None => rarest(f, k, v as int) is None,
            }),
        decreases 257 - v,
    {
        assert(freq@[v as int] == f[v as int]);
        let better: bool = match best {
            None => true,
            Some(b) => {
                assert(freq@[b as int] == f[b as int]);
                freq[v] <= freq[b]
            },
        };
        if v != skip && freq[v] > 0 && better {
            best = Some(v);
        }
        v = v + 1;
    }
    best
}

/// How often the symbols of the first `n` trees occur.
pub open spec fn total(freq: Seq<int>, n: int) -> int
    decreases n,
{
    if n <= 0 { 0 } else { total(freq, n - 1) + freq[n - 1] }
}

pub proof fn lemma_total_update(f: Seq<int>, k: int, x: int, n: int)
    requires
        0 <= k < f.len(),
        n <= f.len(),
    ensures
        total(f.update(k, x), n) == total(f, n) + if k < n { x - f[k] } else { 0 },
    decreases n,
{
    if n > 0 {
        lemma_total_update(f, k, x, n - 1);
    }
}

proof fn lemma_total_part(f: Seq<int>, k: int, n: int)
    requires
        0 <= k < n <= f.len(),
        forall|i: int| 0 <= i < f.len() ==> 0 <= #[trigger] f[i],
    ensures
        0 <= f[k] <= total(f, n),
    decreases n,
{
    lemma_total_nonnegative(f, n - 1);
    assert(f[n - 1] >= 0);
    if k < n - 1 {
        lemma_total_part(f, k, n - 1);
    }
}

pub proof fn lemma_total_nonnegative(f: Seq<int>, n: int)
    requires
        n <= f.len(),
        forall|i: int| 0 <= i < f.len() ==> 0 <= #[trigger] f[i],
    ensures
        0 <= total(f, n),
    decreases n,
{
    if n > 0 {
        lemma_total_nonnegative(f, n - 1);
    }
}

proof fn lemma_total_bound(f: Seq<int>, m: int, n: int)
    requires
        0 <= n <= f.len(),
        forall|i: int| 0 <= i < f.len() ==> #[trigger] f[i] <= m,
    ensures
        total(f, n) <= n * m,
    decreases n,
{
    if n > 0 {
        lemma_total_bound(f, m, n - 1);
        assert(f[n - 1] <= m);
        assert(n * m == (n - 1) * m + m) by (nonlinear_arith);
    } else {
        assert(n * m == 0) by (nonlinear_arith)
            requires
                n == 0,
        ;
    }
}

/// What the rarest tree is.
proof fn lemma_rarest(freq: Seq<int>, skip: int, n: int)
    requires
        0 <= n <= freq.len(),
    ensures
        (match rarest(freq, skip, n) {
            Some(v) => {
                &&& 0 <= v < n
                &&& v != skip
                &&& freq[v] > 0
                &&& forall|u: int| 0 <= u < n && u != skip && #[trigger] freq[u] > 0 ==> freq[v] <= freq[u]
            },
            None => forall|u: int| 0 <= u < n && u != skip ==> #[trigger] freq[u] <= 0,
        }),
    decreases n,
{
    if n > 0 {
        lemma_rarest(freq, skip, n - 1);
    }
}

/// What the two rarest trees are.
pub proof fn lemma_pair(freq: Seq<int>)
    requires
        freq.len() == 257,
    ensures
        (match pair_of(freq) {
            Some(p) => {
                &&& 0 <= p.0 < 257
                &&& 0 <= p.1 < 257
                &&& p.0 != p.1
                &&& 0 < freq[p.0] <= freq[p.1]
                &&& forall|u: int| 0 <= u < 257 && u != p.0 && #[trigger] freq[u] > 0 ==> freq[p.1] <= freq[u]
            },
            None => forall|u: int, v: int|
                0 <= u < 257 && 0 <= v < 257 && #[trigger] freq[u] > 0 && #[trigger] freq[v] > 0 ==> u == v,
        }),
{
    lemma_rarest(freq, -1, 257);
    if let Some(a) = rarest(freq, -1, 257) {
        lemma_rarest(freq, a, 257);
    }
}

/// Trees of 257 symbols.
pub open spec fn trees_wf(t: TreeModel) -> bool {
    &&& t.freq.len() == 257
    &&& t.size.len() == 257
    &&& t.group.len() == 257
    &&& forall|s: int| 0 <= s < 257 ==> 0 <= #[trigger] t.freq[s]
}

/// Puts two trees under a new root.
fn join_trees(
    freq: &mut [u64; 257],
    size: &mut [u32; 257],
    group: &mut [usize; 257],
    a: usize,
    b: usize,
    Ghost(t): Ghost<TreeModel>,
)
    requires
        trees_wf(t),
        a < 257,
        b < 257,
        a != b,
        forall|s: int| 0 <= s < 257 ==> #[trigger] old(freq)@[s] == t.freq[s],
        forall|s: int| 0 <= s < 257 ==> #[trigger] old(size)@[s] == t.size[s],
        forall|s: int| 0 <= s < 257 ==> #[trigger] t.size[s] < 1000,
        forall|s: int| 0 <= s < 257 ==> #[trigger] old(group)@[s] == t.group[s],
        t.freq[a as int] + t.freq[b as int] <= u64::MAX,
    ensures
        ({
            let u = joined_trees(t, a as int, b as int);
            &&& forall|s: int| 0 <= s < 257 ==> #[trigger] final(freq)@[s] == u.freq[s]
            &&& forall|s: int| 0 <= s < 257 ==> #[trigger] final(size)@[s] == u.size[s]
            &&& forall|s: int| 0 <= s < 257 ==> #[trigger] final(group)@[s] == u.group[s]
        }),
{
    let ghost u = joined_trees(t, a as int, b as int);
    assert(freq@[a as int] == t.freq[a as int]);
    assert(freq@[b as int] == t.freq[b as int]);
    let sum: u64 = freq[a] + freq[b];
    freq[a] = sum;
    freq[b] = 0;
    assert forall|s: int| 0 <= s < 257 implies #[trigger] freq@[s] == u.freq[s] by {
        assert(old(freq)@[s] == t.freq[s]);
    }
    let mut s: usize = 0;
    while s < 257
        invariant
            s <= 257,
            u == joined_trees(t, a as int, b as int),
            trees_wf(t),
            forall|i: int| 0 <= i < s ==> #[trigger] size@[i] == u.size[i],
            forall|i: int| 0 <= i < s ==> #[trigger] group@[i] == u.group[i],
            forall|i: int| s <= i < 257 ==> #[trigger] size@[i] == t.size[i],
            forall|i: int| 0 <= i < 257 ==> #[trigger] t.size[i] < 1000,
            forall|i: int| s <= i < 257 ==> #[trigger] group@[i] == t.group[i],
        decreases 257 - s,
    {
        assert(size@[s as int] == t.size[s as int]);
        assert(group@[s as int] == t.group[s as int]);
        if group[s] == a || group[s] == b {
            let n: u32 = size[s] + 1;
            size[s] = n;
            group[s] = a;
        }
        s = s + 1;
    }
}

/// Steps do not make trees less well formed, keep how often symbols occur, and
/// make no symbol deeper than there were steps.
pub proof fn lemma_step(t: TreeModel, p: (int, int))
    requires
        trees_wf(t),
        pair_of(t.freq) == Some(p),
    ensures
        trees_wf(joined_trees(t, p.0, p.1)),
        total(joined_trees(t, p.0, p.1).freq, 257) == total(t.freq, 257),
        t.freq[p.0] + t.freq[p.1] <= total(t.freq, 257),
{
    lemma_pair(t.freq);
    let f = t.freq;
    let g = f.update(p.0, f[p.0] + f[p.1]);
    lemma_total_update(f, p.0, f[p.0] + f[p.1], 257);
    lemma_total_update(g, p.1, 0, 257);
    let u = joined_trees(t, p.0, p.1);
    assert forall|s: int| 0 <= s < 257 implies 0 <= #[trigger] u.freq[s] by {
        assert(f[s] >= 0);
    }
    lemma_total_part(u.freq, p.0, 257);
}

/// Grows the whole tree.
fn grow_tree(stats: &[u32; 257]) -> (size: [u32; 257])
    ensures
        forall|s: int| 0 <= s < 257 ==> #[trigger] size@[s] == depths(stats@)[s],
{
    let ghost t0 = seedlings(stats@);
    let mut freq: [u64; 257] = [0u64; 257];
    let mut size: [u32; 257] = [0u32; 257];
    let mut group: [usize; 257] = [0usize; 257];
    let mut i: usize = 0;
    while i < 257
        invariant
            i <= 257,
            t0 == seedlings(stats@),
            forall|s: int| 0 <= s < i ==> #[trigger] freq@[s] == t0.freq[s],
            forall|s: int| 0 <= s < i ==> #[trigger] group@[s] == t0.group[s],
        decreases 257 - i,
    {
        freq[i] = if i == 256 { 1 } else { stats[i] as u64 };
        group[i] = i;
        i = i + 1;
    }
    proof {
        assert(trees_wf(t0));
        lemma_total_bound(t0.freq, u32::MAX as int, 257);
    }
    let ghost mut t = t0;
    let mut round: u32 = 0;
    while round < 257
        invariant
            round <= 257,
            trees_wf(t),
            forall|s: int| 0 <= s < 257 ==> #[trigger] freq@[s] == t.freq[s],
            forall|s: int| 0 <= s < 257 ==> #[trigger] size@[s] == t.size[s],
            forall|s: int| 0 <= s < 257 ==> #[trigger] t.size[s] <= round,
            forall|s: int| 0 <= s < 257 ==> #[trigger] group@[s] == t.group[s],
            total(t.freq, 257) <= 257 * u32::MAX,
            grown(t, (257 - round) as nat) == grown(seedlings(stats@), 257),
        decreases 257 - round,
    {
        let a = match find_rarest(&freq, 257, Ghost(t.freq), Ghost(-1)) {
            Some(a) => a,
            None => {
                return size;
            },
        };
        let b = match find_rarest(&freq, a, Ghost(t.freq), Ghost(a as int)) {
            Some(b) => b,
            None => {
                return size;
            },
        };
        proof {
            lemma_step(t, (a as int, b as int));
        }
        join_trees(&mut freq, &mut size, &mut group, a, b, Ghost(t));
        proof {
            let u = joined_trees(t, a as int, b as int);
            assert forall|s: int| 0 <= s < 257 implies #[trigger] u.size[s] <= round + 1 by {
                assert(t.size[s] <= round);
            }
            t = u;
        }
        round = round + 1;
    }
    size
}

// ----------------------------------------------------------------------
// What holds of the tree
// ----------------------------------------------------------------------

/// What a symbol of some depth takes of the space of 32-bit codes, where deeper
/// ones count as 32 bits deep.
pub open spec fn share(size: int) -> int {
    pow2((if size <= 32 { 32 - size } else { 0 }) as nat) as int
}

/// What the first `n` symbols take that are in tree `h`.
pub open spec fn tree_share(t: TreeModel, h: int, n: int) -> int
    decreases n,
{
    if n <= 0 {
        0
    } else {
        tree_share(t, h, n - 1) + if t.group[n - 1] == h { share(t.size[n - 1]) } else { 0 }
    }
}

/// No symbol is deeper than 32.
pub open spec fn shallow(size: Seq<int>) -> bool {
    forall|s: int| 0 <= s < size.len() ==> #[trigger] size[s] <= 32
}

/// How trees over the symbols that occur in `t0` stand: every such symbol is in a
/// tree, every tree takes all of the space, and a symbol at the root is alone.
pub open spec fn forest(t: TreeModel, t0: TreeModel) -> bool {
    &&& trees_wf(t)
    &&& forall|s: int|
        0 <= s < 257 && t0.freq[s] > 0 ==> 0 <= #[trigger] t.group[s] < 257 && t.freq[t.group[s]] > 0 && t.size[s] >= 0
    &&& forall|s: int|
        0 <= s < 257 && t0.freq[s] == 0 ==> #[trigger] t.group[s] == s && t.freq[s] == 0 && t.size[s] == 0
    &&& forall|h: int|
        0 <= h < 257 && #[trigger] t.freq[h] > 0 ==> tree_share(t, h, 257) >= 0x1_0000_0000 && (shallow(t.size)
            ==> tree_share(t, h, 257) == 0x1_0000_0000)
    &&& forall|r: int, s: int|
        0 <= r < 257 && 0 <= s < 257 && r != s && t0.freq[r] > 0 && t0.freq[s] > 0 && t.size[r] == 0
            ==> #[trigger] t.group[r] != #[trigger] t.group[s]
}

proof fn lemma_share_step(x: int)
    requires
        0 <= x,
    ensures
        2 * share(x + 1) >= share(x),
        x + 1 <= 32 ==> 2 * share(x + 1) == share(x),
        share(x) >= 1,
        share(0) == 0x1_0000_0000,
{
    lemma2_to64();
    if x < 32 {
        lemma_pow2_unfold((32 - x) as nat);
        lemma_pow2_pos((32 - x) as nat);
    }
}

/// A tree put together of two takes half of what each of them takes.
proof fn lemma_joined_share(t: TreeModel, a: int, b: int, n: int)
    requires
        trees_wf(t),
        0 <= n <= 257,
        a != b,
        forall|s: int| 0 <= s < 257 ==> #[trigger] t.size[s] >= 0,
    ensures
        ({
            let u = joined_trees(t, a, b);
            &&& 2 * tree_share(u, a, n) >= tree_share(t, a, n) + tree_share(t, b, n)
            &&& shallow(u.size) ==> 2 * tree_share(u, a, n) == tree_share(t, a, n) + tree_share(t, b, n)
        }),
    decreases n,
{
    if n > 0 {
        let u = joined_trees(t, a, b);
        lemma_joined_share(t, a, b, n - 1);
        assert(t.size[n - 1] >= 0);
        lemma_share_step(t.size[n - 1]);
        assert(shallow(u.size) ==> u.size[n - 1] <= 32);
    }
}

/// Other trees take what they took.
proof fn lemma_other_share(t: TreeModel, a: int, b: int, h: int, n: int)
    requires
        trees_wf(t),
        0 <= n <= 257,
        h != a,
        h != b,
    ensures
        tree_share(joined_trees(t, a, b), h, n) == tree_share(t, h, n),
    decreases n,
{
    if n > 0 {
        lemma_other_share(t, a, b, h, n - 1);
    }
}

/// A tree of one symbol takes what the symbol takes.
proof fn lemma_seed_share(t: TreeModel, h: int, n: int)
    requires
        0 <= n <= 257,
        t.group.len() == 257,
        forall|s: int| 0 <= s < 257 ==> #[trigger] t.group[s] == s,
    ensures
        tree_share(t, h, n) == if 0 <= h < n { share(t.size[h]) } else { 0 },
    decreases n,
{
    if n > 0 {
        lemma_seed_share(t, h, n - 1);
        assert(t.group[n - 1] == n - 1);
    }
}

pub proof fn lemma_seedlings(freq: Seq<u32>)
    requires
        freq.len() == 257,
    ensures
        forest(seedlings(freq), seedlings(freq)),
{
    let t = seedlings(freq);
    lemma_share_step(0);
    assert forall|h: int| 0 <= h < 257 && #[trigger] t.freq[h] > 0 implies tree_share(t, h, 257) == 0x1_0000_0000 by {
        lemma_seed_share(t, h, 257);
    }
}

/// A step keeps how the trees stand.
proof fn lemma_forest_step(t: TreeModel, t0: TreeModel, p: (int, int))
    requires
        forest(t, t0),
        trees_wf(t0),
        pair_of(t.freq) == Some(p),
    ensures
        forest(joined_trees(t, p.0, p.1), t0),
{
    let (a, b) = p;
    let u = joined_trees(t, a, b);
    lemma_pair(t.freq);
    lemma_step(t, p);
    assert forall|s: int| 0 <= s < 257 implies #[trigger] t.size[s] >= 0 by {
        assert(t0.freq[s] >= 0);
        if t0.freq[s] > 0 {
            assert(0 <= t.group[s] < 257);
        } else {
            assert(t.group[s] == s);
        }
    }
    assert forall|s: int| 0 <= s < 257 && t0.freq[s] > 0 implies 0 <= #[trigger] u.group[s] < 257
        && u.freq[u.group[s]] > 0 && u.size[s] >= 0 by {
        assert(0 <= t.group[s] < 257 && t.freq[t.group[s]] > 0);
    }
    assert forall|s: int| 0 <= s < 257 && t0.freq[s] == 0 implies #[trigger] u.group[s] == s && u.freq[s] == 0
        && u.size[s] == 0 by {
        assert(t.group[s] == s);
        assert(t.freq[s] == 0 && t.size[s] == 0);
    }
    assert forall|h: int| 0 <= h < 257 && #[trigger] u.freq[h] > 0 implies tree_share(u, h, 257) >= 0x1_0000_0000 && (
    shallow(u.size) ==> tree_share(u, h, 257) == 0x1_0000_0000) by {
        if shallow(u.size) {
            assert forall|s: int| 0 <= s < t.size.len() implies #[trigger] t.size[s] <= 32 by {
                assert(u.size[s] <= 32);
            }
        }
        assert(t.freq[a] > 0 && t.freq[b] > 0);
        if h == a {
            lemma_joined_share(t, a, b, 257);
        } else {
            lemma_other_share(t, a, b, h, 257);
            assert(t.freq[h] > 0);
        }
    }
    assert forall|r: int, s: int|
        0 <= r < 257 && 0 <= s < 257 && r != s && t0.freq[r] > 0 && t0.freq[s] > 0 && u.size[r] == 0 implies
        #[trigger] u.group[r] != #[trigger] u.group[s] by {
        assert(t.size[r] >= 0);
        assert(t.group[r] != t.group[s]);
    }
}

/// Trees among the first `n`.
pub open spec fn tree_count(freq: Seq<int>, n: int) -> int
    decreases n,
{
    if n <= 0 { 0 } else { tree_count(freq, n - 1) + if freq[n - 1] > 0 { 1int } else { 0 } }
}

proof fn lemma_tree_count_update(f: Seq<int>, k: int, x: int, n: int)
    requires
        0 <= k < f.len(),
        0 <= n <= f.len(),
    ensures
        tree_count(f.update(k, x), n) == tree_count(f, n) + if k < n {
            (if x > 0 { 1int } else { 0 }) - (if f[k] > 0 { 1int } else { 0 })
        } else {
            0
        },
        0 <= tree_count(f, n) <= n,
    decreases n,
{
    if n > 0 {
        lemma_tree_count_update(f, k, x, n - 1);
    }
}

proof fn lemma_some_tree(f: Seq<int>, k: int, n: int)
    requires
        0 <= k < n <= f.len(),
        f[k] > 0,
    ensures
        tree_count(f, n) >= 1,
    decreases n,
{
    lemma_tree_count_update(f, k, 1, n - 1);
    if k < n - 1 {
        lemma_some_tree(f, k, n - 1);
    }
}

/// All trees are joined to one.
proof fn lemma_grown(t: TreeModel, t0: TreeModel, n: nat)
    requires
        forest(t, t0),
        trees_wf(t0),
        tree_count(t.freq, 257) <= n,
    ensures
        forest(grown(t, n), t0),
        pair_of(grown(t, n).freq) is None,
        total(grown(t, n).freq, 257) == total(t.freq, 257),
    decreases n,
{
    if n == 0 {
        lemma_pair(t.freq);
        if let Some(p) = pair_of(t.freq) {
            lemma_some_tree(t.freq, p.0, 257);
        }
    } else if let Some(p) = pair_of(t.freq) {
        lemma_pair(t.freq);
        lemma_step(t, p);
        lemma_forest_step(t, t0, p);
        let f = t.freq;
        lemma_tree_count_update(f, p.0, f[p.0] + f[p.1], 257);
        lemma_tree_count_update(f.update(p.0, f[p.0] + f[p.1]), p.1, 0, 257);
        lemma_grown(joined_trees(t, p.0, p.1), t0, (n - 1) as nat);
    }
}

/// What the symbols that have a code take, the first `n` of them.
pub open spec fn whole_share(size: Seq<int>, n: int) -> int
    decreases n,
{
    if n <= 0 { 0 } else { whole_share(size, n - 1) + if size[n - 1] > 0 { share(size[n - 1]) } else { 0 } }
}

proof fn lemma_one_tree(t: TreeModel, h: int, n: int)
    requires
        0 <= n <= 257,
        trees_wf(t),
        forall|s: int| 0 <= s < 257 ==> (#[trigger] t.group[s] == h <==> t.size[s] > 0),
    ensures
        tree_share(t, h, n) == whole_share(t.size, n),
    decreases n,
{
    if n > 0 {
        lemma_one_tree(t, h, n - 1);
        assert(t.group[n - 1] == h <==> t.size[n - 1] > 0);
    }
}

/// The depths of the whole tree: those symbols have one that occur, and the free
/// code; together they take all of the space, or more where some are deeper than
/// 32.
pub proof fn lemma_depths(freq: Seq<u32>)
    requires
        freq.len() == 257,
        !no_symbol(freq),
    ensures
        ({
            let size = depths(freq);
            &&& size.len() == 257
            &&& forall|s: int| 0 <= s < 256 ==> #[trigger] size[s] >= 0 && (size[s] > 0 <==> freq[s] > 0)
            &&& size[256] > 0
            &&& whole_share(size, 257) >= 0x1_0000_0000
            &&& shallow(size) ==> whole_share(size, 257) == 0x1_0000_0000
        }),
{
    let t0 = seedlings(freq);
    let t = grown(t0, 257);
    lemma_seedlings(freq);
    lemma_tree_count_update(t0.freq, 0, 0, 257);
    lemma_grown(t0, t0, 257);
    lemma_pair(t.freq);
    let k = choose|k: int| 0 <= k < 256 && #[trigger] freq[k] != 0;
    assert(t0.freq[k] > 0 && t0.freq[256] > 0);
    let h = t.group[256];
    assert(0 <= h < 257 && t.freq[h] > 0);
    assert forall|s: int| 0 <= s < 257 implies (#[trigger] t.group[s] == h <==> t.size[s] > 0) && t.size[s] >= 0 && (
    t.size[s] > 0 <==> t0.freq[s] > 0) by {
        assert(t0.freq[s] >= 0);
        if t0.freq[s] > 0 {
            assert(t.freq[t.group[s]] > 0);
            assert(t.group[s] == h);
            let other = if s == 256 { k } else { 256 };
            assert(t0.freq[other] > 0);
            assert(0 <= t.group[other] < 257 && t.freq[t.group[other]] > 0);
            assert(t.group[other] == h);
            if t.size[s] == 0 {
                assert(t.group[s] != t.group[other]);
            }
        }
    }
    lemma_one_tree(t, h, 257);
    assert forall|s: int| 0 <= s < 256 implies #[trigger] t.size[s] >= 0 && (t.size[s] > 0 <==> freq[s] > 0) by {
        assert(t.group[s] == h <==> t.size[s] > 0);
    }
    assert(t.group[256] == h <==> t.size[256] > 0);
}

// ----------------------------------------------------------------------
// Code lengths
// ----------------------------------------------------------------------

/// How many of the first `n` symbols have a code of each length, where lengths
/// above 32 count as 32.
pub open spec fn length_counts(size: Seq<int>, n: int) -> Seq<int>
    decreases n,
{
    if n <= 0 {
        Seq::new(33, |k: int| 0int)
    } else {
        let c = length_counts(size, n - 1);
        let k = if size[n - 1] <= 32 { size[n - 1] } else { 32 };
        if size[n - 1] == 0 { c } else { c.update(k, c[k] + 1) }
    }
}

/// The longest length up to `j` of which there are codes; -1 where there is none.
pub open spec fn longest_upto(b: Seq<int>, j: int) -> int
    decreases j + 1,
{
    if j < 0 { -1 } else if b[j] > 0 { j } else { longest_upto(b, j - 1) }
}

/// Two codes of length `i` are taken away: one of them moves up, the other moves
/// below a code of length `j`, which thereby becomes two.
pub open spec fn moved_up(b: Seq<int>, i: int, j: int) -> Seq<int> {
    let b1 = b.update(i, b[i] - 2);
    let b2 = b1.update(i - 1, b1[i - 1] + 1);
    let b3 = b2.update(j + 1, b2[j + 1] + 2);
    b3.update(j, b3[j] - 1)
}

/// The counts once no code is longer than 16, where those longer than `i` are
/// gone.
pub open spec fn shortened(b: Seq<int>, i: int) -> Seq<int>
    decreases i, (if b[i] > 0 { b[i] } else { 0 }),
{
    if i <= 16 {
        b
    } else if b[i] > 0 {
        let j = longest_upto(b, i - 2);
        if 0 <= j <= i - 2 && i < b.len() { shortened(moved_up(b, i, j), i) } else { b }
    } else {
        shortened(b, i - 1)
    }
}

/// The counts without the free code, which is one of the longest.
pub open spec fn without_free(b: Seq<int>) -> Seq<int> {
    let i = longest_upto(b, 16);
    b.update(i, b[i] - 1)
}

/// The first `n` symbols that have codes of `k` bits, but not the free code.
pub open spec fn symbols_of_size(size: Seq<int>, k: int, n: int) -> Seq<u8>
    decreases n,
{
    if n <= 0 {
        Seq::empty()
    } else {
        let v = symbols_of_size(size, k, n - 1);
        if size[n - 1] == k { v.push((n - 1) as u8) } else { v }
    }
}

/// The symbols that have codes of at most `k` bits, from short to long.
pub open spec fn symbols_upto(size: Seq<int>, k: int) -> Seq<u8>
    decreases k,
{
    if k <= 0 { Seq::empty() } else { symbols_upto(size, k - 1) + symbols_of_size(size, k, 256) }
}

/// The number of codes of each length in the table for given counts.
pub open spec fn table_bits(freq: Seq<u32>) -> Seq<u8> {
    let b = without_free(shortened(length_counts(depths(freq), 257), 32));
    Seq::new(16, |k: int| (if b[k + 1] > 0 { b[k + 1] % 256 } else { 0 }) as u8)
}

/// The symbols of the table for given counts, in code order.
pub open spec fn table_vals(freq: Seq<u32>) -> Seq<u8> {
    symbols_upto(depths(freq), 32)
}

/// What codes of at most `n - 1` bits take of the space of codes of that length.
pub open spec fn horner(b: Seq<int>, n: int) -> int
    decreases n,
{
    if n <= 0 { 0 } else { 2 * horner(b, n - 1) + b[n - 1] }
}

proof fn lemma_horner_update(b: Seq<int>, k: int, x: int, n: int)
    requires
        0 <= k < b.len(),
        0 <= n <= b.len(),
    ensures
        horner(b.update(k, x), n) == horner(b, n) + if k < n { (x - b[k]) * pow2((n - 1 - k) as nat) } else { 0 },
    decreases n,
{
    if n > 0 {
        lemma_horner_update(b, k, x, n - 1);
        if k < n - 1 {
            lemma_pow2_unfold((n - 1 - k) as nat);
            let p = pow2((n - 2 - k) as nat) as int;
            let d = x - b[k];
            assert(d * (2 * p) == 2 * (d * p)) by (nonlinear_arith);
        } else if k == n - 1 {
            lemma2_to64();
            assert((x - b[k]) * 1 == x - b[k]);
        }
    }
}

proof fn lemma_horner_grows(b: Seq<int>, m: int, n: int)
    requires
        0 <= m <= n <= b.len(),
        forall|k: int| m <= k < n ==> #[trigger] b[k] <= 0,
    ensures
        horner(b, n) <= horner(b, m) * pow2((n - m) as nat),
        (forall|k: int| m <= k < n ==> #[trigger] b[k] == 0) ==> horner(b, n) == horner(b, m) * pow2((n - m) as nat),
    decreases n - m,
{
    lemma2_to64();
    if m < n {
        lemma_horner_grows(b, m, n - 1);
        lemma_pow2_unfold((n - m) as nat);
        let h = horner(b, m);
        let p = pow2((n - 1 - m) as nat) as int;
        assert(h * (2 * p) == 2 * (h * p)) by (nonlinear_arith);
        assert(b[n - 1] <= 0);
    } else {
        assert(horner(b, m) * 1 == horner(b, m));
    }
}

proof fn lemma_horner_zero(b: Seq<int>, n: int)
    requires
        0 <= n <= b.len(),
        forall|k: int| 0 <= k < n ==> #[trigger] b[k] == 0,
    ensures
        horner(b, n) == 0,
        total(b, n) == 0,
    decreases n,
{
    if n > 0 {
        lemma_horner_zero(b, n - 1);
        assert(b[n - 1] == 0);
    }
}

/// What the counted lengths take, and how many there are.
pub proof fn lemma_length_counts(size: Seq<int>, n: int)
    requires
        0 <= n <= size.len(),
        forall|s: int| 0 <= s < size.len() ==> #[trigger] size[s] >= 0,
    ensures
        length_counts(size, n).len() == 33,
        forall|k: int| 0 <= k < 33 ==> #[trigger] length_counts(size, n)[k] >= 0,
        length_counts(size, n)[0] == 0,
        horner(length_counts(size, n), 33) == whole_share(size, n),
        total(length_counts(size, n), 33) == coded(size, n),
        0 <= coded(size, n) <= n,
    decreases n,
{
    if n > 0 {
        lemma_length_counts(size, n - 1);
        assert(size[n - 1] >= 0);
        let c = length_counts(size, n - 1);
        let k = if size[n - 1] <= 32 { size[n - 1] } else { 32 };
        if size[n - 1] > 0 {
            lemma_horner_update(c, k, c[k] + 1, 33);
            lemma_total_update(c, k, c[k] + 1, 33);
            assert(1 * pow2((32 - k) as nat) == pow2((32 - k) as nat));
        }
    } else {
        lemma_horner_zero(length_counts(size, n), 33);
    }
}

/// How many of the first `n` symbols have a code.
pub open spec fn coded(size: Seq<int>, n: int) -> int
    decreases n,
{
    if n <= 0 { 0 } else { coded(size, n - 1) + if size[n - 1] > 0 { 1int } else { 0 } }
}

/// Counts while lengths are shortened, those longer than `i` being gone.
pub open spec fn shortening(b: Seq<int>, i: int, codes: int) -> bool {
    &&& b.len() == 33
    &&& b[0] == 0
    &&& forall|k: int| 0 <= k <= i ==> 0 <= #[trigger] b[k]
    &&& forall|k: int| i < k < 33 ==> -1 <= #[trigger] b[k] <= 0
    &&& horner(b, 33) >= 0x1_0000_0000
    &&& horner(b, 33) == 0x1_0000_0000 ==> forall|k: int| i < k < 33 ==> #[trigger] b[k] == 0
    &&& total(b, 33) == codes
    &&& codes <= 257
}

proof fn lemma_total_above(b: Seq<int>, m: int, n: int)
    requires
        0 <= m <= n <= b.len(),
        forall|k: int| m <= k < n ==> -1 <= #[trigger] b[k],
    ensures
        total(b, n) >= total(b, m) - (n - m),
    decreases n - m,
{
    if m < n {
        lemma_total_above(b, m, n - 1);
        assert(b[n - 1] >= -1);
    }
}

/// No count is great.
proof fn lemma_counts_small(b: Seq<int>, i: int, codes: int, k: int)
    requires
        shortening(b, i, codes),
        0 <= i <= 32,
        0 <= k < 33,
    ensures
        b[k] <= 300,
{
    assert(-1 <= b[k]);
    let c = b.update(k, 0);
    lemma_total_update(b, k, 0, 33);
    assert forall|j: int| 0 <= j < 33 implies -1 <= #[trigger] c[j] by {
        assert(-1 <= b[j]);
    }
    lemma_total_above(c, 0, 33);
}

proof fn lemma_longest(b: Seq<int>, j: int)
    requires
        -1 <= j < b.len(),
    ensures
        -1 <= longest_upto(b, j) <= j,
        longest_upto(b, j) >= 0 ==> b[longest_upto(b, j)] > 0,
        forall|k: int| longest_upto(b, j) < k <= j ==> #[trigger] b[k] <= 0,
    decreases j + 1,
{
    if j >= 0 && b[j] <= 0 {
        lemma_longest(b, j - 1);
    }
}

/// There is a shorter code that can become two.
proof fn lemma_shorter_code(b: Seq<int>, i: int, codes: int)
    requires
        shortening(b, i, codes),
        16 < i <= 32,
        b[i] > 0,
    ensures
        1 <= longest_upto(b, i - 2) <= i - 2,
        b[longest_upto(b, i - 2)] > 0,
{
    let j = longest_upto(b, i - 2);
    lemma_longest(b, i - 2);
    if j < 0 {
        assert forall|k: int| 0 <= k < i - 1 implies #[trigger] b[k] == 0 by {
            assert(0 <= b[k]);
        }
        lemma_horner_zero(b, i - 1);
        lemma_horner_grows(b, i + 1, 33);
        assert(horner(b, i + 1) == 2 * b[i - 1] + b[i]) by {
            reveal_with_fuel(horner, 3);
        }
        lemma_counts_small(b, i, codes, i);
        lemma_counts_small(b, i, codes, i - 1);
        lemma2_to64();
        lemma_pow2_bound((32 - i) as nat, 15);
        let h = horner(b, i + 1);
        let p = pow2((32 - i) as nat) as int;
        assert(h * p < 0x1_0000_0000) by (nonlinear_arith)
            requires
                h <= 900,
                0 <= p <= 32768,
        ;
    } else if j == 0 {
        assert(b[0] == 0);
    }
}

proof fn lemma_pow2_bound(m: nat, n: nat)
    requires
        m <= n,
    ensures
        0 < pow2(m) <= pow2(n),
{
    lemma_pow2_pos(m);
    if m < n {
        vstd::arithmetic::power2::lemma_pow2_strictly_increases(m, n);
    }
}

/// Moving two codes up keeps what all codes take, and how many there are.
proof fn lemma_moved_up(b: Seq<int>, i: int, codes: int, j: int)
    requires
        shortening(b, i, codes),
        16 < i <= 32,
        b[i] > 0,
        1 <= j <= i - 2,
        b[j] > 0,
    ensures
        shortening(moved_up(b, i, j), i, codes) || (b[i] == 1 && shortening(moved_up(b, i, j), i - 1, codes)),
        b[i] == 1 ==> shortening(moved_up(b, i, j), i - 1, codes),
        horner(moved_up(b, i, j), 33) == horner(b, 33),
        moved_up(b, i, j)[i] == b[i] - 2,
        horner(b, 33) == 0x1_0000_0000 ==> b[i] >= 2,
{
    let b1 = b.update(i, b[i] - 2);
    let b2 = b1.update(i - 1, b1[i - 1] + 1);
    let b3 = b2.update(j + 1, b2[j + 1] + 2);
    let b4 = b3.update(j, b3[j] - 1);
    lemma_horner_update(b, i, b[i] - 2, 33);
    lemma_horner_update(b1, i - 1, b1[i - 1] + 1, 33);
    lemma_horner_update(b2, j + 1, b2[j + 1] + 2, 33);
    lemma_horner_update(b3, j, b3[j] - 1, 33);
    lemma_total_update(b, i, b[i] - 2, 33);
    lemma_total_update(b1, i - 1, b1[i - 1] + 1, 33);
    lemma_total_update(b2, j + 1, b2[j + 1] + 2, 33);
    lemma_total_update(b3, j, b3[j] - 1, 33);
    lemma_pow2_unfold((33 - i) as nat);
    lemma_pow2_unfold((32 - j) as nat);
    let p = pow2((32 - i) as nat) as int;
    let q = pow2((31 - j) as nat) as int;
    assert((-2) * p + 1 * (2 * p) + 2 * q + (-1) * (2 * q) == 0) by (nonlinear_arith);
    assert(horner(b4, 33) == horner(b, 33));
    assert(total(b4, 33) == codes);
    if horner(b, 33) == 0x1_0000_0000 {
        lemma_even_count(b, i);
    }
    assert forall|k: int| 0 <= k < i implies 0 <= #[trigger] b4[k] by {
        assert(0 <= b[k]);
    }
    assert forall|k: int| i < k < 33 implies -1 <= #[trigger] b4[k] <= 0 && b4[k] == b[k] by {
        assert(-1 <= b[k] <= 0);
    }
    assert(b4[i] == b[i] - 2);
    if horner(b, 33) == 0x1_0000_0000 {
        assert forall|k: int| i < k < 33 implies #[trigger] b4[k] == 0 by {
            assert(b[k] == 0);
        }
    }
}

/// Where the codes take exactly all of the space and none is longer than `i`,
/// those of length `i` come in pairs.
proof fn lemma_even_count(b: Seq<int>, i: int)
    requires
        b.len() == 33,
        1 <= i <= 32,
        horner(b, 33) == 0x1_0000_0000,
        forall|k: int| i < k < 33 ==> #[trigger] b[k] == 0,
    ensures
        b[i] % 2 == 0,
        horner(b, i + 1) == pow2(i as nat),
{
    lemma_horner_grows(b, i + 1, 33);
    lemma_pow2_adds(i as nat, (32 - i) as nat);
    lemma2_to64();
    lemma_pow2_pos((32 - i) as nat);
    lemma_pow2_unfold(i as nat);
    let h = horner(b, i + 1);
    let p = pow2((32 - i) as nat) as int;
    let q = pow2(i as nat) as int;
    assert(h == q) by (nonlinear_arith)
        requires
            h * p == q * p,
            p > 0,
    ;
    assert(h == 2 * horner(b, i) + b[i]);
}

/// What holds of the counts once they are shortened.
pub proof fn lemma_shortened(b: Seq<int>, i: int, codes: int)
    requires
        shortening(b, i, codes),
        16 <= i <= 32,
    ensures
        shortening(shortened(b, i), 16, codes),
        horner(shortened(b, i), 33) == horner(b, 33),
    decreases i, (if b[i] > 0 { b[i] } else { 0 }),
{
    if i > 16 {
        if b[i] > 0 {
            let j = longest_upto(b, i - 2);
            lemma_shorter_code(b, i, codes);
            lemma_moved_up(b, i, codes, j);
            let m = moved_up(b, i, j);
            if b[i] == 1 {
                assert(m[i] == -1);
                lemma_shortened(m, i - 1, codes);
                assert(shortened(m, i) == shortened(m, i - 1));
            } else {
                lemma_shortened(m, i, codes);
            }
        } else {
            assert(b[i] == 0);
            lemma_shortened(b, i - 1, codes);
        }
    }
}

/// There is a longest code.
pub proof fn lemma_longest_code(b: Seq<int>, codes: int)
    requires
        shortening(b, 16, codes),
    ensures
        1 <= longest_upto(b, 16) <= 16,
        b[longest_upto(b, 16)] > 0,
{
    let i = longest_upto(b, 16);
    lemma_longest(b, 16);
    if i < 0 {
        assert forall|k: int| 0 <= k < 33 implies #[trigger] b[k] <= 0 by {
            if k > 16 {
                assert(-1 <= b[k] <= 0);
            }
        }
        lemma_horner_grows(b, 0, 33);
        assert(0 * pow2(33) == 0) by (nonlinear_arith);
    } else if i == 0 {
        assert(b[0] == 0);
    }
}

/// Counts the lengths.
fn count_lengths(size: &[u32; 257], Ghost(z): Ghost<Seq<int>>) -> (b: [i32; 33])
    requires
        z.len() == 257,
        forall|s: int| 0 <= s < 257 ==> #[trigger] size@[s] == z[s],
    ensures
        forall|k: int| 0 <= k < 33 ==> #[trigger] b@[k] == length_counts(z, 257)[k],
{
    let mut b: [i32; 33] = [0i32; 33];
    let mut s: usize = 0;
    while s < 257
        invariant
            s <= 257,
            z.len() == 257,
            forall|i: int| 0 <= i < 257 ==> #[trigger] size@[i] == z[i],
            length_counts(z, s as int).len() == 33,
            forall|k: int| 0 <= k < 33 ==> #[trigger] b@[k] == length_counts(z, s as int)[k],
            forall|k: int| 0 <= k < 33 ==> 0 <= #[trigger] b@[k] <= s,
        decreases 257 - s,
    {
        let ghost before = b@;
        assert(size@[s as int] == z[s as int]);
        if size[s] != 0 {
            let k: usize = if size[s] <= 32 { size[s] as usize } else { 32 };
            assert(before[k as int] <= s);
            let n: i32 = b[k] + 1;
            b[k] = n;
        }
        s = s + 1;
        assert forall|k: int| 0 <= k < 33 implies 0 <= #[trigger] b@[k] <= s by {
            assert(0 <= before[k]);
        }
        assert forall|k: int| 0 <= k < 33 implies #[trigger] b@[k] == length_counts(z, s as int)[k] by {
            assert(before[k] == length_counts(z, s - 1)[k]);
        }
    }
    b
}

/// The counts of an array.
pub open spec fn counts_of(b: Seq<i32>) -> Seq<int> {
    Seq::new(33, |k: int| b[k] as int)
}

/// Finds the longest length up to `top` of which there are codes.
fn find_longest(b: &[i32; 33], top: usize) -> (j: usize)
    requires
        top < 33,
        longest_upto(counts_of(b@), top as int) >= 0,
    ensures
        j == longest_upto(counts_of(b@), top as int),
        j <= top,
        b@[j as int] > 0,
{
    let ghost c = counts_of(b@);
    let mut j: usize = top;
    while b[j] <= 0
        invariant
            j <= top < 33,
            c == counts_of(b@),
            longest_upto(c, j as int) == longest_upto(c, top as int),
            longest_upto(c, top as int) >= 0,
        decreases j,
    {
        assert(c[j as int] <= 0);
        if j == 0 {
            assert(longest_upto(c, -1) == -1);
        }
        j = j - 1;
    }
    assert(c[j as int] > 0);
    j
}

/// Moves two codes up.
fn move_up(b: &mut [i32; 33], i: usize, j: usize)
    requires
        16 < i < 33,
        j <= i - 2,
        forall|k: int| 0 <= k < 33 ==> -1 <= #[trigger] old(b)@[k] <= 300,
    ensures
        counts_of(final(b)@) == moved_up(counts_of(old(b)@), i as int, j as int),
{
    let ghost c = counts_of(b@);
    assert(-1 <= b@[i as int] <= 300 && -1 <= b@[i - 1] <= 300 && -1 <= b@[j + 1] <= 300 && -1 <= b@[j as int] <= 300);
    let x: i32 = b[i] - 2;
    b[i] = x;
    let x: i32 = b[i - 1] + 1;
    b[i - 1] = x;
    let x: i32 = b[j + 1] + 2;
    b[j + 1] = x;
    let x: i32 = b[j] - 1;
    b[j] = x;
    assert(counts_of(b@) =~= moved_up(c, i as int, j as int));
}

/// Shortens lengths to 16 bits.
fn shorten(b: &mut [i32; 33], Ghost(codes): Ghost<int>)
    requires
        shortening(counts_of(old(b)@), 32, codes),
    ensures
        counts_of(final(b)@) == shortened(counts_of(old(b)@), 32),
        shortening(counts_of(final(b)@), 16, codes),
{
    let ghost goal = shortened(counts_of(b@), 32);
    proof {
        lemma_shortened(counts_of(b@), 32, codes);
    }
    let mut i: usize = 32;
    while i > 16
        invariant
            16 <= i <= 32,
            shortening(counts_of(b@), i as int, codes),
            shortened(counts_of(b@), i as int) == goal,
        decreases i, (if b@[i as int] > 0 { b@[i as int] as int } else { 0 }),
    {
        let ghost c = counts_of(b@);
        assert(c[i as int] == b@[i as int]);
        if b[i] > 0 {
            proof {
                lemma_shorter_code(c, i as int, codes);
                assert forall|k: int| 0 <= k < 33 implies -1 <= #[trigger] b@[k] <= 300 by {
                    lemma_counts_small(c, i as int, codes, k);
                    assert(-1 <= c[k]);
                }
            }
            let j: usize = find_longest(b, i - 2);
            let one: bool = b[i] == 1;
            proof {
                lemma_moved_up(c, i as int, codes, j as int);
            }
            move_up(b, i, j);
            proof {
                let m = counts_of(b@);
                assert(m[i as int] == c[i as int] - 2);
                assert(shortened(c, i as int) == shortened(m, i as int));
                if one {
                    assert(shortened(m, i as int) == shortened(m, i - 1));
                }
            }
            if one {
                i = i - 1;
            }
        } else {
            assert(c[i as int] == 0);
            i = i - 1;
        }
    }
}

/// Appends the symbols that have codes of `k` bits.
fn push_symbols(v: &mut Vec<u8>, size: &[u32; 257], k: u32, Ghost(z): Ghost<Seq<int>>)
    requires
        z.len() == 257,
        forall|s: int| 0 <= s < 257 ==> #[trigger] size@[s] == z[s],
    ensures
        final(v)@ == old(v)@ + symbols_of_size(z, k as int, 256),
{
    let ghost before = v@;
    let mut s: usize = 0;
    assert(v@ =~= before + symbols_of_size(z, k as int, 0));
    while s < 256
        invariant
            s <= 256,
            z.len() == 257,
            forall|i: int| 0 <= i < 257 ==> #[trigger] size@[i] == z[i],
            v@ == before + symbols_of_size(z, k as int, s as int),
        decreases 256 - s,
    {
        assert(size@[s as int] == z[s as int]);
        if size[s] == k {
            v.push(s as u8);
        }
        s = s + 1;
        assert(v@ =~= before + symbols_of_size(z, k as int, s as int));
    }
}

impl HuffStats {
    /// Counts a symbol.
    pub fn count(&mut self, symbol: u8)
        ensures
            final(self).freq@ == old(self).freq@.update(symbol as int, one_more(old(self).freq@[symbol as int])),
    {
        let n: u32 = self.freq[symbol as usize];
        let m: u32 = if n < u32::MAX { n + 1 } else { n };
        self.freq[symbol as usize] = m;
        assert(self.freq@ =~= old(self).freq@.update(symbol as int, one_more(n)));
    }

    /// Whether no symbol was counted.
    pub fn is_empty(&self) -> (r: bool)
        ensures
            r == no_symbol(self.freq@),
    {
        let mut i: usize = 0;
        while i < 256
            invariant
                i <= 256,
                forall|k: int| 0 <= k < i ==> #[trigger] self.freq@[k] == 0,
            decreases 256 - i,
        {
            if self.freq[i] != 0 {
                assert(self.freq@[i as int] != 0);
                return false;
            }
            i = i + 1;
        }
        true
    }

    /// A table whose code lengths suit the counts, none longer than 16 bits.
    pub fn to_spec(&self) -> (r: HuffSpec)
        requires
            !no_symbol(self.freq@),
        ensures
            r.bits@ == table_bits(self.freq@),
            r.vals@ == table_vals(self.freq@),
    {
        let size = grow_tree(&self.freq);
        let ghost z = depths(self.freq@);
        proof {
            lemma_depths(self.freq@);
            lemma_sizes_nonnegative(self.freq@);
            lemma_length_counts(z, 257);
        }
        let mut b = count_lengths(&size, Ghost(z));
        let ghost codes = coded(z, 257);
        assert(counts_of(b@) =~= length_counts(z, 257));
        shorten(&mut b, Ghost(codes));
        proof {
            lemma_longest_code(counts_of(b@), codes);
        }
        let i: usize = find_longest(&b, 16);
        let ghost c = counts_of(b@);
        let n: i32 = b[i] - 1;
        b[i] = n;
        assert(counts_of(b@) =~= without_free(c));
        let mut vals: Vec<u8> = Vec::new();
        let mut k: u32 = 0;
        while k < 32
            invariant
                k <= 32,
                z.len() == 257,
                forall|s: int| 0 <= s < 257 ==> #[trigger] size@[s] == z[s],
                vals@ == symbols_upto(z, k as int),
            decreases 32 - k,
        {
            k = k + 1;
            push_symbols(&mut vals, &size, k, Ghost(z));
        }
        let mut bits: [u8; 16] = [0u8; 16];
        let mut k: usize = 0;
        while k < 16
            invariant
                k <= 16,
                counts_of(b@) == without_free(shortened(length_counts(z, 257), 32)),
                z == depths(self.freq@),
                forall|j: int| 0 <= j < k ==> #[trigger] bits@[j] == table_bits(self.freq@)[j],
            decreases 16 - k,
        {
            assert(counts_of(b@)[k + 1] == b@[k + 1]);
            let x: u8 = if b[k + 1] > 0 { (b[k + 1] % 256) as u8 } else { 0 };
            bits[k] = x;
            k = k + 1;
        }
        assert(bits@ =~= table_bits(self.freq@));
        HuffSpec { bits, vals }
    }
}

/// No depth is negative.
pub proof fn lemma_sizes_nonnegative(freq: Seq<u32>)
    requires
        freq.len() == 257,
        !no_symbol(freq),
    ensures
        forall|s: int| 0 <= s < 257 ==> #[trigger] depths(freq)[s] >= 0,
{
    lemma_depths(freq);
    assert forall|s: int| 0 <= s < 257 implies #[trigger] depths(freq)[s] >= 0 by {
        if s == 256 {
            assert(depths(freq)[256] > 0);
        }
    }
}

// ----------------------------------------------------------------------
// What holds of the table
// ----------------------------------------------------------------------

/// What the counts take is what the table takes.
proof fn lemma_table_space(b: Seq<int>, bits: Seq<u8>, n: int)
    requires
        b.len() == 33,
        bits.len() == 16,
        0 <= n <= 16,
        b[0] == 0,
        forall|k: int| 0 <= k < 16 ==> #[trigger] bits[k] == b[k + 1],
    ensures
        code_space(bits, n) == horner(b, n + 1) * pow2((16 - n) as nat),
        code_count(bits, n) == total(b, n + 1),
    decreases n,
{
    if n > 0 {
        lemma_table_space(b, bits, n - 1);
        lemma_pow2_unfold((17 - n) as nat);
        let h = horner(b, n);
        let p = pow2((16 - n) as nat) as int;
        assert(bits[n - 1] == b[n]);
        assert(h * (2 * p) + b[n] * p == (2 * h + b[n]) * p) by (nonlinear_arith);
    } else {
        reveal_with_fuel(horner, 2);
        reveal_with_fuel(total, 2);
        assert(0 * pow2(16) == 0) by (nonlinear_arith);
    }
}

proof fn lemma_total_zero(b: Seq<int>, m: int, n: int)
    requires
        0 <= m <= n <= b.len(),
        forall|k: int| m <= k < n ==> #[trigger] b[k] == 0,
    ensures
        total(b, n) == total(b, m),
    decreases n - m,
{
    if m < n {
        lemma_total_zero(b, m, n - 1);
        assert(b[n - 1] == 0);
    }
}

/// Counts that take exactly all of the space make a table without the code that
/// is all ones.
pub proof fn lemma_table_bits(b: Seq<int>, codes: int, bits: Seq<u8>)
    requires
        shortening(b, 16, codes),
        horner(b, 33) == 0x1_0000_0000,
        bits == Seq::new(
            16,
            |k: int| (if without_free(b)[k + 1] > 0 { without_free(b)[k + 1] % 256 } else { 0 }) as u8,
        ),
    ensures
        code_space(bits, 16) < 65536,
        code_count(bits, 16) == codes - 1,
        forall|k: int| 0 <= k < 16 ==> #[trigger] bits[k] == without_free(b)[k + 1],
{
    let i = longest_upto(b, 16);
    let c = without_free(b);
    lemma_longest_code(b, codes);
    lemma_longest(b, 16);
    assert forall|k: int| i < k < 33 implies #[trigger] b[k] == 0 by {
        if k <= 16 {
            assert(0 <= b[k]);
        }
    }
    lemma_even_count(b, i);
    assert(b[i] >= 2);
    lemma_total_update(b, i, b[i] - 1, 33);
    assert forall|k: int| 0 <= k < 33 implies 0 <= #[trigger] c[k] by {
        assert(k <= 16 ==> 0 <= b[k]);
        assert(k > i ==> b[k] == 0);
    }
    assert forall|k: int| 0 <= k < 33 implies #[trigger] c[k] <= 255 by {
        lemma_total_part(c, k, 33);
        if k != i {
            let d = c.update(k, 0);
            lemma_total_update(c, k, 0, 33);
            assert(d[i] == c[i] && c[i] >= 1);
            assert forall|j: int| 0 <= j < 33 implies 0 <= #[trigger] d[j] by {
                assert(0 <= c[j]);
            }
            lemma_total_part(d, i, 33);
        }
    }
    assert forall|k: int| 0 <= k < 16 implies #[trigger] bits[k] == c[k + 1] by {
        assert(0 <= c[k + 1] <= 255);
    }
    assert(c[0] == 0);
    lemma_table_space(c, bits, 16);
    lemma_horner_update(b, i, b[i] - 1, 17);
    lemma_even_count(b, 16);
    lemma2_to64();
    lemma_pow2_pos((16 - i) as nat);
    assert(horner(c, 17) < 65536) by {
        let p = pow2((16 - i) as nat) as int;
        assert((-1) * p < 0) by (nonlinear_arith)
            requires
                p > 0,
        ;
    }
    assert forall|k: int| 17 <= k < 33 implies #[trigger] c[k] == 0 by {
        assert(b[k] == 0);
    }
    lemma_total_zero(c, 17, 33);
    let h = horner(c, 17);
    let one = pow2((16 - 16) as nat) as int;
    assert(one == 1);
    assert(h * one == h) by (nonlinear_arith)
        requires
            one == 1,
    ;
    assert(code_space(bits, 16) == h * one);
}

/// The symbols of one length are in order.
proof fn lemma_symbols_of_size(size: Seq<int>, k: int, n: int)
    requires
        0 <= n <= 256,
        size.len() == 257,
    ensures
        symbols_of_size(size, k, n).no_duplicates(),
        forall|i: int|
            0 <= i < symbols_of_size(size, k, n).len() ==> (#[trigger] symbols_of_size(size, k, n)[i]) < n
                && size[symbols_of_size(size, k, n)[i] as int] == k,
        forall|s: u8| s < n && size[s as int] == k ==> #[trigger] symbols_of_size(size, k, n).contains(s),
    decreases n,
{
    let v = symbols_of_size(size, k, n);
    if n > 0 {
        lemma_symbols_of_size(size, k, n - 1);
        let w = symbols_of_size(size, k, n - 1);
        assert forall|s: u8| s < n && size[s as int] == k implies #[trigger] v.contains(s) by {
            if s == n - 1 {
                assert(v[v.len() - 1] == s);
            } else {
                assert(w.contains(s));
                let i = choose|i: int| 0 <= i < w.len() && w[i] == s;
                assert(v[i] == s);
            }
        }
    }
}

/// The symbols are listed once each, up to some length.
proof fn lemma_symbols_upto(size: Seq<int>, k: int)
    requires
        0 <= k,
        size.len() == 257,
    ensures
        symbols_upto(size, k).no_duplicates(),
        forall|i: int|
            0 <= i < symbols_upto(size, k).len() ==> 0 < size[(#[trigger] symbols_upto(size, k)[i]) as int] <= k,
        forall|s: u8| 0 < size[s as int] <= k ==> #[trigger] symbols_upto(size, k).contains(s),
    decreases k,
{
    if k > 0 {
        lemma_symbols_upto(size, k - 1);
        lemma_symbols_of_size(size, k, 256);
        let a = symbols_upto(size, k - 1);
        let b = symbols_of_size(size, k, 256);
        let v = symbols_upto(size, k);
        assert forall|s: u8| 0 < size[s as int] <= k implies #[trigger] v.contains(s) by {
            if size[s as int] == k {
                assert(b.contains(s));
                let i = choose|i: int| 0 <= i < b.len() && b[i] == s;
                assert(v[a.len() + i] == s);
            } else {
                assert(a.contains(s));
                let i = choose|i: int| 0 <= i < a.len() && a[i] == s;
                assert(v[i] == s);
            }
        }
    }
}

/// How many symbols of at most some length there are.
pub open spec fn coded_upto(size: Seq<int>, k: int, n: int) -> int
    decreases n,
{
    if n <= 0 { 0 } else { coded_upto(size, k, n - 1) + if 0 < size[n - 1] <= k { 1int } else { 0 } }
}

proof fn lemma_symbols_len(size: Seq<int>, k: int, n: int)
    requires
        0 <= n <= 256,
        0 < k,
        size.len() == 257,
    ensures
        coded_upto(size, k, n) == coded_upto(size, k - 1, n) + symbols_of_size(size, k, n).len(),
    decreases n,
{
    if n > 0 {
        lemma_symbols_len(size, k, n - 1);
    }
}

proof fn lemma_symbols_upto_len(size: Seq<int>, k: int)
    requires
        0 <= k,
        size.len() == 257,
    ensures
        symbols_upto(size, k).len() == coded_upto(size, k, 256),
    decreases k,
{
    if k > 0 {
        lemma_symbols_upto_len(size, k - 1);
        lemma_symbols_len(size, k, 256);
    } else {
        lemma_none_coded(size, 256);
    }
}

proof fn lemma_none_coded(size: Seq<int>, n: int)
    ensures
        coded_upto(size, 0, n) == 0,
    decreases n,
{
    if n > 0 {
        lemma_none_coded(size, n - 1);
    }
}

proof fn lemma_all_coded(size: Seq<int>, n: int)
    requires
        0 <= n <= 256,
        size.len() == 257,
        shallow(size),
    ensures
        coded_upto(size, 32, n) == coded(size, n),
    decreases n,
{
    if n > 0 {
        lemma_all_coded(size, n - 1);
        assert(size[n - 1] <= 32);
    }
}

/// Where no symbol is deeper than 32 in the tree, the table for some counts can be
/// used: it has one code for each symbol that was counted and for no other, and
/// leaves space free, so that every code fits its length and none is all ones.
pub proof fn law_table_usable(freq: Seq<u32>)
    requires
        freq.len() == 257,
        !no_symbol(freq),
        shallow(depths(freq)),
    ensures
        spec_usable(table_bits(freq), table_vals(freq)),
        code_space(table_bits(freq), 16) < 65536,
        forall|s: u8| #[trigger] table_vals(freq).contains(s) <==> freq[s as int] > 0,
{
    let size = depths(freq);
    let bits = table_bits(freq);
    let vals = table_vals(freq);
    lemma_depths(freq);
    lemma_sizes_nonnegative(freq);
    lemma_length_counts(size, 257);
    let codes = coded(size, 257);
    let counts = length_counts(size, 257);
    lemma_shortened(counts, 32, codes);
    lemma_table_bits(shortened(counts, 32), codes, bits);
    lemma_symbols_upto(size, 32);
    lemma_symbols_upto_len(size, 32);
    lemma_all_coded(size, 256);
    assert(spec_valid(bits, vals));
    lemma_sizes(bits, 16);
    assert forall|k: int| 0 <= k < vals.len() implies #[trigger] code_at(code_sizes(bits, 16), k) <= u16::MAX by {
        law_codes_fit(bits, k);
    }
    assert forall|s: u8| #[trigger] vals.contains(s) <==> freq[s as int] > 0 by {
        assert(size[s as int] <= 32);
        if vals.contains(s) {
            let i = choose|i: int| 0 <= i < vals.len() && vals[i] == s;
            assert(0 < size[vals[i] as int]);
        }
    }
}

/// The least count of a tree of some depth.
pub open spec fn least_count(depth: nat) -> nat
    decreases depth,
{
    if depth == 0 {
        1
    } else if depth == 1 {
        2
    } else {
        least_count((depth - 1) as nat) + least_count((depth - 2) as nat)
    }
}

/// Deep trees have great counts, and so have the trees beside them.
pub open spec fn balanced(t: TreeModel, t0: TreeModel) -> bool {
    &&& forall|s: int|
        0 <= s < 257 && t0.freq[s] > 0 ==> t.freq[#[trigger] t.group[s]] >= least_count(t.size[s] as nat)
    &&& forall|s: int, h: int|
        0 <= s < 257 && 0 <= h < 257 && t0.freq[s] > 0 && t.freq[h] > 0 && h != t.group[s] && t.size[s] >= 1 ==> (
        #[trigger] t.freq[h]) >= least_count((#[trigger] t.size[s] - 1) as nat)
}

proof fn lemma_least_count_mono(a: nat, b: nat)
    requires
        a <= b,
    ensures
        1 <= least_count(a) <= least_count(b),
    decreases b,
{
    if b > 1 {
        lemma_least_count_mono((b - 2) as nat, (b - 1) as nat);
        if a < b {
            lemma_least_count_mono(a, (b - 1) as nat);
        } else {
            lemma_least_count_mono((b - 2) as nat, (b - 2) as nat);
        }
    }
}

proof fn lemma_balanced_step(t: TreeModel, t0: TreeModel, p: (int, int))
    requires
        forest(t, t0),
        trees_wf(t0),
        balanced(t, t0),
        pair_of(t.freq) == Some(p),
    ensures
        balanced(joined_trees(t, p.0, p.1), t0),
{
    let (a, b) = p;
    let u = joined_trees(t, a, b);
    lemma_pair(t.freq);
    assert forall|s: int| 0 <= s < 257 && t0.freq[s] > 0 implies u.freq[#[trigger] u.group[s]] >= least_count(
        u.size[s] as nat,
    ) by {
        let g = t.group[s];
        assert(0 <= g < 257 && t.freq[g] > 0 && t.size[s] >= 0);
        assert(t.freq[g] >= least_count(t.size[s] as nat));
        if g == a || g == b {
            let o = if g == a { b } else { a };
            assert(t.freq[o] > 0);
            if t.size[s] >= 1 {
                assert(t.freq[o] >= least_count((t.size[s] - 1) as nat));
            }
        }
    }
    assert forall|s: int, h: int|
        0 <= s < 257 && 0 <= h < 257 && t0.freq[s] > 0 && u.freq[h] > 0 && h != u.group[s] && u.size[s] >= 1 implies (
    #[trigger] u.freq[h]) >= least_count((#[trigger] u.size[s] - 1) as nat) by {
        let g = t.group[s];
        assert(0 <= g < 257 && t.freq[g] > 0 && t.size[s] >= 0);
        assert(t.freq[g] >= least_count(t.size[s] as nat));
        assert(t.freq[h] > 0);
        if g == a || g == b {
            assert(h != a && h != b);
            assert(t.freq[b] <= t.freq[h]);
        } else {
            assert(t.freq[h] >= least_count((t.size[s] - 1) as nat));
        }
    }
}

proof fn lemma_grown_balanced(t: TreeModel, t0: TreeModel, n: nat)
    requires
        forest(t, t0),
        trees_wf(t0),
        balanced(t, t0),
    ensures
        balanced(grown(t, n), t0),
        forest(grown(t, n), t0),
        total(grown(t, n).freq, 257) == total(t.freq, 257),
    decreases n,
{
    if n > 0 {
        if let Some(p) = pair_of(t.freq) {
            lemma_step(t, p);
            lemma_forest_step(t, t0, p);
            lemma_balanced_step(t, t0, p);
            lemma_grown_balanced(joined_trees(t, p.0, p.1), t0, (n - 1) as nat);
        }
    }
}

proof fn lemma_least_count_deep()
    ensures
        least_count(33) == 9227465,
{
    assert(least_count(0) == 1);
    assert(least_count(1) == 2);
    assert(least_count(2) == 3);
    assert(least_count(3) == 5);
    assert(least_count(4) == 8);
    assert(least_count(5) == 13);
    assert(least_count(6) == 21);
    assert(least_count(7) == 34);
    assert(least_count(8) == 55);
    assert(least_count(9) == 89);
    assert(least_count(10) == 144);
    assert(least_count(11) == 233);
    assert(least_count(12) == 377);
    assert(least_count(13) == 610);
    assert(least_count(14) == 987);
    assert(least_count(15) == 1597);
    assert(least_count(16) == 2584);
    assert(least_count(17) == 4181);
    assert(least_count(18) == 6765);
    assert(least_count(19) == 10946);
    assert(least_count(20) == 17711);
    assert(least_count(21) == 28657);
    assert(least_count(22) == 46368);
    assert(least_count(23) == 75025);
    assert(least_count(24) == 121393);
    assert(least_count(25) == 196418);
    assert(least_count(26) == 317811);
    assert(least_count(27) == 514229);
    assert(least_count(28) == 832040);
    assert(least_count(29) == 1346269);
    assert(least_count(30) == 2178309);
    assert(least_count(31) == 3524578);
    assert(least_count(32) == 5702887);
    assert(least_count(33) == 9227465);
}

/// Where fewer than 9227464 symbols were counted, none is deeper than 32.
pub proof fn law_shallow(freq: Seq<u32>)
    requires
        freq.len() == 257,
        total(seedlings(freq).freq, 257) < 9227465,
    ensures
        shallow(depths(freq)),
{
    let t0 = seedlings(freq);
    let t = grown(t0, 257);
    lemma_seedlings(freq);
    lemma_grown_balanced(t0, t0, 257);
    lemma_least_count_deep();
    assert forall|s: int| 0 <= s < t.size.len() implies #[trigger] t.size[s] <= 32 by {
        assert(t0.freq[s] >= 0);
        if t0.freq[s] == 0 {
            assert(t.group[s] == s);
        } else if t.size[s] > 32 {
            let g = t.group[s];
            assert(0 <= g < 257 && t.freq[g] > 0);
            assert(t.freq[g] >= least_count(t.size[s] as nat));
            lemma_least_count_mono(33, t.size[s] as nat);
            lemma_total_part(t.freq, g, 257);
        }
    }
}

} // verus!
