//! The base depth-robust graph: a deterministic backward-parents sampler.
//!
//! Every node of index at least two draws its parents from exponentially
//! sized buckets of earlier nodes, using a linear-congruential generator
//! seeded from the graph seed and the node index; nodes 0 and 1 are padded
//! with references to node 0. The sampler is pure: the same seed and node
//! always give the same parents.

use vstd::prelude::*;
use vstd::arithmetic::power2::pow2;

verus! {

/// Fresh random seed material for a graph.
///
/// Relies on rand::random: seven independent draws of a `u32`.
pub assume_specification<T>[ rand::random::<T> ]() -> (r: T)
    where
        rand::distributions::Standard: rand::distributions::Distribution<T>,
;

/// Draws a fresh 7-word random seed. Nothing is promised of the values.
pub fn new_seed() -> [u32; 7] {
    [
        rand::random::<u32>(),
        rand::random::<u32>(),
        rand::random::<u32>(),
        rand::random::<u32>(),
        rand::random::<u32>(),
        rand::random::<u32>(),
        rand::random::<u32>(),
    ]
}

/// One step of the linear-congruential generator, modulo 2^32.
pub open spec fn lcg(s: int) -> int {
    (s * 1664525 + 1013904223) % 0x1_0000_0000
}

/// Folds the seed words into a starting generator state.
pub open spec fn fold_seed(seed: Seq<u32>) -> int
    decreases seed.len(),
{
    if seed.len() == 0 {
        0
    } else {
        (fold_seed(seed.drop_last()) * 31 + seed.last() as int) % 0x1_0000_0000
    }
}

/// The generator state a node's sampling starts from.
pub open spec fn node_state(seed: Seq<u32>, node: int) -> int {
    (fold_seed(seed) * 31 + node) % 0x1_0000_0000
}

/// Floor of the base-two logarithm.
pub open spec fn spec_ilog2(n: int) -> nat
    decreases n,
{
    if n < 2 {
        0
    } else {
        (1 + spec_ilog2(n / 2)) as nat
    }
}

/// One parent draw for `node` (at least 2) with degree `m`: picks a bucket
/// whose size is a power of two, then a backward distance inside it.
/// Returns the parent and the next generator state.
pub open spec fn parent_step(m: int, node: int, k: int, s: int) -> (int, int) {
    let s1 = lcg(s);
    let logi = spec_ilog2(m * node) as int;
    let j = s1 % logi;
    let cap = pow2((j + 1) as nat) as int;
    let jj = if node * m + k <= cap { node * m + k } else { cap };
    let s2 = lcg(s1);
    let lo = if jj / 2 >= 2 { jj / 2 } else { 2 };
    let back_dist = lo + s2 % (jj + 1 - lo);
    let out = (node * m + k - back_dist) / m;
    (if out == node { node - 1 } else { out }, s2)
}

/// Generator state before drawing parent `k` of `node`.
pub open spec fn state_at(seed: Seq<u32>, m: int, node: int, k: int) -> int
    decreases k,
{
    if k <= 0 {
        node_state(seed, node)
    } else {
        parent_step(m, node, k - 1, state_at(seed, m, node, k - 1)).1
    }
}

/// Parent `k` of `node`, before sorting.
pub open spec fn parent_at(seed: Seq<u32>, m: int, node: int, k: int) -> int {
    parent_step(m, node, k, state_at(seed, m, node, k)).0
}

/// The unsorted parent draws of a node; nodes 0 and 1 reference node 0.
pub open spec fn spec_bucket_parents(seed: Seq<u32>, m: nat, node: int) -> Seq<usize> {
    if node < 2 {
        Seq::new(m, |k: int| 0usize)
    } else {
        Seq::new(m, |k: int| parent_at(seed, m as int, node, k) as usize)
    }
}

proof fn lemma_ilog2_pow2(n: int)
    requires
        n >= 1,
    ensures
        pow2(spec_ilog2(n)) <= n,
        n >= 2 ==> spec_ilog2(n) >= 1,
    decreases n,
{
    vstd::arithmetic::power2::lemma2_to64();
    if n >= 2 {
        lemma_ilog2_pow2(n / 2);
        vstd::arithmetic::power2::lemma_pow2_adds(1, spec_ilog2(n / 2));
        assert(pow2(spec_ilog2(n)) == 2 * pow2(spec_ilog2(n / 2)));
        assert(2 * (n / 2) <= n);
    }
}

proof fn lemma_ilog2_le_31(n: int)
    requires
        1 <= n <= 0xFFFF_FFFF,
    ensures
        spec_ilog2(n) <= 31,
{
    lemma_ilog2_pow2(n);
    vstd::arithmetic::power2::lemma2_to64();
    if spec_ilog2(n) > 32 {
        vstd::arithmetic::power2::lemma_pow2_strictly_increases(32, spec_ilog2(n));
    }
    if spec_ilog2(n) > 31 {
        assert(pow2(spec_ilog2(n)) >= 0x1_0000_0000);
        assert(false);
    }
}

proof fn lemma_ilog2_le_63(n: int)
    requires
        1 <= n <= 0xFFFF_FFFF_FFFF_FFFF,
    ensures
        spec_ilog2(n) <= 63,
{
    lemma_ilog2_pow2(n);
    vstd::arithmetic::power2::lemma2_to64();
    if spec_ilog2(n) > 64 {
        vstd::arithmetic::power2::lemma_pow2_strictly_increases(64, spec_ilog2(n));
    }
    if spec_ilog2(n) > 63 {
        assert(pow2(spec_ilog2(n)) >= 0x1_0000_0000_0000_0000);
        assert(false);
    }
}

/// Every drawn parent of a node of index at least two lies strictly below it.
pub proof fn lemma_bucket_parent_range(seed: Seq<u32>, m: int, node: int, k: int)
    requires
        1 <= m,
        2 <= node,
        0 <= k < m,
    ensures
        0 <= parent_at(seed, m, node, k) < node,
{
    let s = state_at(seed, m, node, k);
    let s1 = lcg(s);
    vstd::arithmetic::div_mod::lemma_mod_bound(s * 1664525 + 1013904223, 0x1_0000_0000);
    assert(m * node >= 2) by (nonlinear_arith)
        requires m >= 1 && node >= 2;
    lemma_ilog2_pow2(m * node);
    let logi = spec_ilog2(m * node) as int;
    assert(logi >= 1);
    vstd::arithmetic::div_mod::lemma_mod_bound(s1, logi);
    let j = s1 % logi;
    vstd::arithmetic::power2::lemma2_to64();
    if j + 1 > 1 {
        vstd::arithmetic::power2::lemma_pow2_strictly_increases(1, (j + 1) as nat);
    }
    let cap = pow2((j + 1) as nat) as int;
    assert(cap >= 2);
    assert(node * m + k >= 2) by (nonlinear_arith)
        requires m >= 1 && node >= 2 && k >= 0;
    let jj = if node * m + k <= cap { node * m + k } else { cap };
    assert(jj >= 2);
    let s2 = lcg(s1);
    vstd::arithmetic::div_mod::lemma_mod_bound(s1 * 1664525 + 1013904223, 0x1_0000_0000);
    let lo = if jj / 2 >= 2 { jj / 2 } else { 2 };
    assert(lo <= jj);
    vstd::arithmetic::div_mod::lemma_mod_bound(s2, jj + 1 - lo);
    let back_dist = lo + s2 % (jj + 1 - lo);
    assert(2 <= back_dist <= jj);
    let out = (node * m + k - back_dist) / m;
    assert(0 <= out <= node) by (nonlinear_arith)
        requires
            out == (node * m + k - back_dist) / m && 2 <= back_dist
                && back_dist <= node * m + k && k < m && m >= 1 && node >= 2,
    ;
}

/// A sequence of machine integers is sorted ascending.
pub open spec fn sorted(s: Seq<usize>) -> bool {
    forall|i: int, j: int| 0 <= i <= j < s.len() ==> s[i] <= s[j]
}

/// Sorts a vector of indices ascending; the elements are preserved.
pub fn sort_usize(v: Vec<usize>) -> (r: Vec<usize>)
    ensures
        sorted(r@),
        r@.to_multiset() == v@.to_multiset(),
        r@.len() == v@.len(),
{
    proof {
        broadcast use vstd::seq_lib::group_to_multiset_ensures;
    }
    let mut out: Vec<usize> = Vec::new();
    let mut i: usize = 0;
    while i < v.len()
        invariant
            i <= v@.len(),
            sorted(out@),
            out@.len() == i,
            out@.to_multiset() == v@.subrange(0, i as int).to_multiset(),
        decreases v@.len() - i,
    {
        let x = v[i];
        let mut p: usize = 0;
        while p < out.len() && out[p] <= x
            invariant
                p <= out@.len(),
                forall|q: int| 0 <= q < p ==> out@[q] <= x,
                sorted(out@),
            decreases out@.len() - p,
        {
            p = p + 1;
        }
        let ghost pre = out@;
        out.insert(p, x);
        proof {
            broadcast use vstd::seq_lib::group_to_multiset_ensures;
            let s2 = pre.insert(p as int, x);
            assert(out@ == s2);
            assert forall|a: int, b: int| 0 <= a <= b < s2.len() implies s2[a] <= s2[b] by {
                if a < p && b == p {
                    assert(s2[a] == pre[a]);
                } else if a == p && b > p {
                    assert(s2[b] == pre[b - 1]);
                    assert(p < pre.len() + 1);
                    assert(pre[p as int] > x);
                }
            }
            assert(s2.remove(p as int) =~= pre);
            assert(s2.remove(p as int).to_multiset() =~= s2.to_multiset().remove(s2[p as int]));
            assert(s2[p as int] == x);
            assert forall|y: usize| true implies s2.to_multiset().count(y)
                == pre.to_multiset().insert(x).count(y) by {
                if y == x {
                    assert(s2.to_multiset().contains(x));
                    assert(s2.to_multiset().count(x) >= 1);
                }
            }
            assert(s2.to_multiset() =~= pre.to_multiset().insert(x));
            assert(v@.subrange(0, i + 1).drop_last() =~= v@.subrange(0, i as int));
            assert(v@.subrange(0, i + 1) =~= v@.subrange(0, i as int).push(x));
        }
        i = i + 1;
    }
    proof {
        assert(v@.subrange(0, v@.len() as int) =~= v@);
    }
    out
}

/// The base bucket graph.
#[derive(Clone, Copy, Debug)]
pub struct BucketGraph {
    /// Number of nodes.
    pub nodes: usize,
    /// In-degree of every node.
    pub base_degree: usize,
    /// Seed of the parents sampler.
    pub seed: [u32; 7],
}

impl BucketGraph {
    /// Sizes stay small enough for the sampler's index arithmetic.
    pub open spec fn wf(self) -> bool {
        &&& 1 <= self.base_degree
        &&& 1 <= self.nodes
        &&& self.nodes * self.base_degree <= 0x4000_0000
    }

    /// Builds a bucket graph; the expansion degree of the base layer is
    /// always zero.
    pub fn new(nodes: usize, base_degree: usize, expansion_degree: usize, seed: [u32; 7]) -> (g: BucketGraph)
        requires
            expansion_degree == 0,
            1 <= base_degree,
            1 <= nodes,
            nodes * base_degree <= 0x4000_0000,
        ensures
            g.wf(),
            g.nodes == nodes,
            g.base_degree == base_degree,
            g.seed == seed,
    {
        BucketGraph { nodes, base_degree, seed }
    }

    pub fn size(&self) -> (n: usize)
        ensures
            n == self.nodes,
    {
        self.nodes
    }

    pub fn degree(&self) -> (d: usize)
        ensures
            d == self.base_degree,
    {
        self.base_degree
    }

    /// The sorted backward parents of `node`: `base_degree` indices, all at
    /// most `node`, strictly below it for every node but node 0 (node 1's
    /// parents are all 0).
    pub fn parents(&self, node: usize) -> (r: Vec<usize>)
        requires
            self.wf(),
            node < self.nodes,
        ensures
            r@.len() == self.base_degree,
            sorted(r@),
            forall|q: int| 0 <= q < r@.len() ==> #[trigger] r@[q] <= node,
            node > 0 ==> forall|q: int| 0 <= q < r@.len() ==> #[trigger] r@[q] < node,
            r@.to_multiset()
                == spec_bucket_parents(self.seed@, self.base_degree as nat, node as int).to_multiset(),
    {
        let m = self.base_degree;
        let ghost gseed = self.seed@;
        let mut raw: Vec<usize> = Vec::new();
        if node < 2 {
            let mut k: usize = 0;
            while k < m
                invariant
                    k <= m,
                    raw@.len() == k,
                    forall|q: int| 0 <= q < k ==> raw@[q] == 0usize,
                decreases m - k,
            {
                raw.push(0);
                k = k + 1;
            }
            proof {
                assert(raw@ =~= spec_bucket_parents(gseed, m as nat, node as int));
            }
            // Already sorted: everything is zero.
            return raw;
        }
        let mut s: u64 = self.init_state(node);
        let mut k: usize = 0;
        while k < m
            invariant
                self.wf(),
                2 <= node < self.nodes,
                m == self.base_degree,
                gseed == self.seed@,
                k <= m,
                raw@.len() == k,
                s < 0x1_0000_0000,
                s as int == state_at(gseed, m as int, node as int, k as int),
                forall|q: int| 0 <= q < k ==> #[trigger] raw@[q] as int
                    == parent_at(gseed, m as int, node as int, q),
                forall|q: int| 0 <= q < k ==> #[trigger] raw@[q] < node,
            decreases m - k,
        {
            let (p, s2) = self.parent_draw(node, k, s);
            raw.push(p);
            s = s2;
            k = k + 1;
        }
        proof {
            assert(raw@ =~= spec_bucket_parents(gseed, m as nat, node as int));
        }
        let ghost raw_view = raw@;
        let sorted_parents = sort_usize(raw);
        proof {
            broadcast use vstd::seq_lib::group_to_multiset_ensures;
            assert forall|q: int| 0 <= q < sorted_parents@.len() implies #[trigger] sorted_parents@[q] < node by {
                let y = sorted_parents@[q];
                assert(sorted_parents@.to_multiset().contains(y));
                assert(raw_view.to_multiset().contains(y));
                assert(raw_view.contains(y));
            }
        }
        sorted_parents
    }

    /// The generator state seeding `node`'s draws.
    fn init_state(&self, node: usize) -> (s: u64)
        requires
            self.wf(),
            node < self.nodes,
        ensures
            s as int == node_state(self.seed@, node as int),
            s < 0x1_0000_0000,
    {
        let mut acc: u64 = 0;
        let mut i: usize = 0;
        while i < 7
            invariant
                i <= 7,
                acc < 0x1_0000_0000,
                self.seed@.len() == 7,
                acc as int == fold_seed(self.seed@.subrange(0, i as int)),
            decreases 7 - i,
        {
            let w = self.seed[i];
            proof {
                assert(self.seed@.subrange(0, i + 1).drop_last() =~= self.seed@.subrange(0, i as int));
            }
            acc = (acc * 31 + w as u64) % 0x1_0000_0000;
            i = i + 1;
        }
        proof {
            assert(self.seed@.subrange(0, 7) =~= self.seed@);
            assert(node <= 0x4000_0000) by (nonlinear_arith)
                requires
                    node < self.nodes && self.nodes * self.base_degree <= 0x4000_0000
                        && self.base_degree >= 1 && node >= 0,
            ;
        }
        (acc * 31 + node as u64) % 0x1_0000_0000
    }

    /// Draws parent `k` of `node`, returning it and the next state.
    fn parent_draw(&self, node: usize, k: usize, s: u64) -> (res: (usize, u64))
        requires
            self.wf(),
            2 <= node < self.nodes,
            k < self.base_degree,
            s < 0x1_0000_0000,
        ensures
            res.0 as int == parent_step(self.base_degree as int, node as int, k as int, s as int).0,
            res.1 as int == parent_step(self.base_degree as int, node as int, k as int, s as int).1,
            res.1 < 0x1_0000_0000,
            res.0 < node,
    {
        let m = self.base_degree;
        proof {
            assert(node * m + m <= 0x4000_0000 && m * node == node * m && node * m >= 2
                && node <= 0x4000_0000 && m <= 0x4000_0000) by (nonlinear_arith)
                requires
                    2 <= node < self.nodes && m == self.base_degree && m >= 1
                        && self.nodes * m <= 0x4000_0000,
            ;
            lemma_ilog2_pow2(m as int * node as int);
            lemma_ilog2_le_31(m as int * node as int);
        }
        let s1: u64 = (s * 1664525 + 1013904223) % 0x1_0000_0000;
        let logi: usize = ilog2_usize(m * node);
        let j: u64 = s1 % (logi as u64);
        let cap: u64 = pow2_u64((j + 1) as u32);
        proof {
            vstd::arithmetic::power2::lemma2_to64();
            if j + 1 > 1 {
                vstd::arithmetic::power2::lemma_pow2_strictly_increases(1, (j + 1) as nat);
            }
            assert(cap >= 2);
        }
        let nmk: u64 = (node as u64) * (m as u64) + k as u64;
        let jj: u64 = if nmk <= cap { nmk } else { cap };
        let s2: u64 = (s1 * 1664525 + 1013904223) % 0x1_0000_0000;
        let lo: u64 = if jj / 2 >= 2 { jj / 2 } else { 2 };
        proof {
            assert(nmk >= 2);
            assert(jj >= 2);
            assert(lo <= jj);
            vstd::arithmetic::div_mod::lemma_mod_bound(s2 as int, jj as int + 1 - lo as int);
        }
        let back_dist: u64 = lo + s2 % (jj + 1 - lo);
        let out64: u64 = (nmk - back_dist) / (m as u64);
        proof {
            assert(out64 <= node) by (nonlinear_arith)
                requires
                    out64 == ((node * m + k) - back_dist) / (m as int) && 2 <= back_dist
                        && back_dist <= node * m + k && k < m && m >= 1 && node >= 2,
            ;
        }
        let out: usize = out64 as usize;
        let parent: usize = if out == node { node - 1 } else { out };
        (parent, s2)
    }
}

/// Floor base-two logarithm of a positive number.
fn ilog2_usize(n: usize) -> (r: usize)
    requires
        n >= 1,
    ensures
        r == spec_ilog2(n as int),
{
    proof {
        lemma_ilog2_le_63(n as int);
    }
    let mut v: usize = n;
    let mut l: usize = 0;
    while v >= 2
        invariant
            1 <= v <= n,
            spec_ilog2(n as int) == l + spec_ilog2(v as int),
            l <= spec_ilog2(n as int) <= 63,
        decreases v,
    {
        proof {
            lemma_ilog2_pow2(v as int);
        }
        v = v / 2;
        l = l + 1;
    }
    l
}

/// `2^e` for small exponents.
fn pow2_u64(e: u32) -> (r: u64)
    requires
        e <= 32,
    ensures
        r == pow2(e as nat),
        2 <= r <= 0x1_0000_0000 || e == 0,
{
    proof {
        vstd::arithmetic::power2::lemma2_to64();
    }
    let mut r: u64 = 1;
    let mut i: u32 = 0;
    while i < e
        invariant
            i <= e <= 32,
            r == pow2(i as nat),
            r <= 0x1_0000_0000,
        decreases e - i,
    {
        proof {
            vstd::arithmetic::power2::lemma_pow2_adds(i as nat, 1);
            vstd::arithmetic::power2::lemma2_to64();
            if i as nat + 1 <= 32 {
                if pow2(i as nat + 1) > 0x1_0000_0000 {
                    vstd::arithmetic::power2::lemma_pow2_strictly_increases(32, i as nat + 1);
                    assert(false);
                }
            }
        }
        r = r * 2;
        i = i + 1;
    }
    proof {
        vstd::arithmetic::power2::lemma2_to64();
        if e >= 1 && r < 2 {
            vstd::arithmetic::power2::lemma_pow2_strictly_increases(0, e as nat);
            assert(false);
        }
    }
    r
}

} // verus!
