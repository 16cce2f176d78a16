//! The ZigZag graph: a bucket base graph with a Feistel-derived expansion
//! overlay and a reversible direction.
//!
//! In the forward direction every parent of a node lies at or below it; after
//! `zigzag()` toggles the direction, every parent lies at or above it. Node 0
//! (forward) and node `n - 1` (reversed) are padded with self-loops.

use vstd::prelude::*;
use crate::drgraph::{BucketGraph, sorted, sort_usize, spec_bucket_parents};
use crate::feistel::{FeistelPrecomputed, pre_valid, precompute, permute, invert_permute};
use crate::feistel::{enc_fn, dec_fn, walk_reaches, lemma_walk_unique, lemma_walk_back, lemma_feistel_fns_good};
use crate::hasher::HasherKind;

verus! {

/// Default fan-in of the expansion overlay.
pub const DEFAULT_EXPANSION_DEGREE: usize = 8;

/// Approximate cap of the expanded-parents cache, in MiB per direction pair.
pub const MAX_CACHE_SIZE: usize = 10;

/// The Feistel round keys of the expansion overlay.
pub open spec fn feistel_keys() -> Seq<u32> {
    seq![1u32, 2u32, 3u32, 4u32]
}

/// A bucket graph with a Feistel expansion overlay and a direction flag.
#[derive(Clone, Copy, Debug)]
pub struct ZigZagGraph {
    /// The underlying depth-robust base graph.
    pub base_graph: BucketGraph,
    /// Fan-in of the expansion overlay.
    pub expansion_degree: usize,
    /// Direction flag; `forward` is its negation.
    pub reversed: bool,
    /// Feistel metadata for the domain `expansion_degree * nodes`.
    pub feistel_precomputed: FeistelPrecomputed,
    /// How many nodes the expanded-parents cache may hold per direction.
    pub cache_entries: usize,
    /// Which digest backend accompanies this graph.
    pub hasher: HasherKind,
}

/// The ZigZag graph over a bucket base graph.
pub type ZigZagBucketGraph = ZigZagGraph;

/// The cache capacity a fresh graph is given: as many nodes as fit the
/// budget — 10 MiB split over two directions, eight bytes per parent index
/// per node.
pub open spec fn spec_cache_entries(nodes: int, expansion_degree: int) -> int {
    let cap: int = 5242880int / (8 * expansion_degree);
    if nodes <= cap {
        nodes
    } else {
        cap
    }
}

impl ZigZagGraph {
    /// Number of nodes.
    pub open spec fn spec_size(self) -> int {
        self.base_graph.nodes as int
    }

    /// Total in-degree of every node.
    pub open spec fn spec_degree(self) -> int {
        self.base_graph.base_degree + self.expansion_degree
    }

    /// Domain of the expansion permutation.
    pub open spec fn spec_domain(self) -> int {
        self.expansion_degree * self.spec_size()
    }

    pub open spec fn wf(self) -> bool {
        &&& self.base_graph.wf()
        &&& 1 <= self.expansion_degree <= 0x4000_0000
        &&& self.spec_domain() <= 0xFFFF_FFFF
        &&& pre_valid(self.feistel_precomputed, self.spec_domain())
        &&& self.cache_entries <= self.base_graph.nodes
    }

    /// The walk direction of the expansion permutation: forward graphs walk
    /// the permutation forward, reversed graphs walk its inverse.
    pub open spec fn dir_fn(self) -> spec_fn(int) -> int {
        if self.reversed {
            dec_fn(feistel_keys(), self.feistel_precomputed.half as int)
        } else {
            enc_fn(feistel_keys(), self.feistel_precomputed.half as int)
        }
    }

    /// The expansion correspondent of `node` at overlay slot `i`.
    pub open spec fn corr_of(self, node: int, i: int) -> int {
        (choose|t: int|
            #[trigger] walk_reaches(self.dir_fn(), self.spec_domain(),
                node * self.expansion_degree + i, t))
            / self.expansion_degree as int
    }

    /// Whether an expansion correspondent is kept as a parent: strictly
    /// earlier in the graph's direction.
    pub open spec fn keeps(self, node: int, p: int) -> bool {
        if self.reversed {
            p > node
        } else {
            p < node
        }
    }

    /// The expanded parents of `node`: the kept correspondents, in overlay
    /// slot order.
    pub open spec fn spec_expanded_parents(self, node: int) -> Seq<usize> {
        Seq::new(self.expansion_degree as nat, |i: int| self.corr_of(node, i) as usize)
            .filter(|p: usize| self.keeps(node, p as int))
    }

    /// Builds a ZigZag graph over the given base graph, or over a fresh
    /// bucket graph when none is given. The cache is bounded by the
    /// configured budget.
    pub fn new(
        base_graph: Option<BucketGraph>,
        nodes: usize,
        base_degree: usize,
        expansion_degree: usize,
        seed: [u32; 7],
    ) -> (g: ZigZagGraph)
        requires
            1 <= base_degree,
            1 <= nodes,
            1 <= expansion_degree <= 0x4000_0000,
            nodes * base_degree <= 0x4000_0000,
            expansion_degree * nodes <= 0xFFFF_FFFF,
            base_graph is Some ==> (base_graph->0.wf() && base_graph->0.nodes == nodes
                && base_graph->0.base_degree == base_degree),
        ensures
            g.wf(),
            g.base_graph.nodes == nodes,
            g.base_graph.base_degree == base_degree,
            g.expansion_degree == expansion_degree,
            !g.reversed,
            g.hasher == HasherKind::Pedersen,
            g.cache_entries == spec_cache_entries(nodes as int, expansion_degree as int),
            g.feistel_precomputed.half
                == crate::feistel::spec_feistel_half(expansion_degree as int * nodes as int),
            base_graph is Some ==> g.base_graph == base_graph->0,
            base_graph is None ==> g.base_graph.seed == seed,
    {
        // Estimate how many entries fit in the cache budget: two directions,
        // each entry holding about `expansion_degree` indexes of 8 bytes.
        let size_bytes: u64 = (MAX_CACHE_SIZE as u64) * 1024 * 1024;
        let size_per_direction: u64 = size_bytes / 2;
        let cache_max_entries: u64 = size_per_direction / ((expansion_degree as u64) * 8);
        proof {
            assert((expansion_degree as u64 * 8) as int == 8 * expansion_degree as int)
                by (nonlinear_arith)
                requires 1 <= expansion_degree <= 0x4000_0000;
            vstd::arithmetic::div_mod::lemma_fundamental_div_mod(5242880int,
                8 * expansion_degree as int);
            vstd::arithmetic::div_mod::lemma_mod_bound(5242880int, 8 * expansion_degree as int);
            assert(cache_max_entries as int <= 5242880) by (nonlinear_arith)
                requires
                    5242880int == (8 * expansion_degree as int) * (cache_max_entries as int)
                        + 5242880int % (8 * expansion_degree as int)
                        && 0 <= 5242880int % (8 * expansion_degree as int)
                        && expansion_degree >= 1 && cache_max_entries >= 0,
            ;
        }
        let cache_entries: usize = if (nodes as u64) > cache_max_entries {
            cache_max_entries as usize
        } else {
            nodes
        };
        proof {
            assert(cache_entries as int == spec_cache_entries(nodes as int,
                expansion_degree as int));
            assert(expansion_degree * nodes <= 0xFFFF_FFFF) by (nonlinear_arith)
                requires expansion_degree * nodes <= 0xFFFF_FFFF;
        }
        let feistel_precomputed = precompute((expansion_degree * nodes) as u32);
        ZigZagGraph {
            base_graph: match base_graph {
                Some(graph) => graph,
                None => BucketGraph::new(nodes, base_degree, 0, seed),
            },
            expansion_degree,
            reversed: false,
            feistel_precomputed,
            cache_entries,
            hasher: HasherKind::Pedersen,
        }
    }

    /// Builds a fresh ZigZag graph in the forward direction.
    pub fn new_zigzag(
        nodes: usize,
        base_degree: usize,
        expansion_degree: usize,
        seed: [u32; 7],
    ) -> (g: ZigZagGraph)
        requires
            1 <= base_degree,
            1 <= nodes,
            1 <= expansion_degree <= 0x4000_0000,
            nodes * base_degree <= 0x4000_0000,
            expansion_degree * nodes <= 0xFFFF_FFFF,
        ensures
            g.wf(),
            g.base_graph.nodes == nodes,
            g.base_graph.base_degree == base_degree,
            g.expansion_degree == expansion_degree,
            !g.reversed,
            g.base_graph.seed == seed,
            g.hasher == HasherKind::Pedersen,
            g.cache_entries == spec_cache_entries(nodes as int, expansion_degree as int),
            g.feistel_precomputed.half
                == crate::feistel::spec_feistel_half(expansion_degree as int * nodes as int),
    {
        Self::new(None, nodes, base_degree, expansion_degree, seed)
    }

    /// As `new_zigzag`, with a chosen digest backend.
    pub fn new_zigzag_with_hasher(
        hasher: HasherKind,
        nodes: usize,
        base_degree: usize,
        expansion_degree: usize,
        seed: [u32; 7],
    ) -> (g: ZigZagGraph)
        requires
            1 <= base_degree,
            1 <= nodes,
            1 <= expansion_degree <= 0x4000_0000,
            nodes * base_degree <= 0x4000_0000,
            expansion_degree * nodes <= 0xFFFF_FFFF,
        ensures
            g.wf(),
            g.base_graph.nodes == nodes,
            g.base_graph.base_degree == base_degree,
            g.expansion_degree == expansion_degree,
            !g.reversed,
            g.base_graph.seed == seed,
            g.hasher == hasher,
            g.cache_entries == spec_cache_entries(nodes as int, expansion_degree as int),
            g.feistel_precomputed.half
                == crate::feistel::spec_feistel_half(expansion_degree as int * nodes as int),
    {
        let mut g = Self::new(None, nodes, base_degree, expansion_degree, seed);
        g.hasher = hasher;
        g
    }

    /// The spec-level direction toggle.
    pub open spec fn spec_zigzag(self) -> ZigZagGraph {
        ZigZagGraph { reversed: !self.reversed, ..self }
    }

    /// Returns the same graph with its direction toggled; base graph,
    /// overlay and cache bound are shared.
    pub fn zigzag(&self) -> (g: ZigZagGraph)
        ensures
            g == self.spec_zigzag(),
            self.wf() ==> g.wf(),
    {
        let mut g = *self;
        g.reversed = !g.reversed;
        g
    }

    pub fn size(&self) -> (n: usize)
        ensures
            n == self.spec_size(),
    {
        self.base_graph.size()
    }

    pub fn degree(&self) -> (d: usize)
        requires
            self.spec_degree() <= usize::MAX,
        ensures
            d == self.spec_degree(),
    {
        self.base_graph.degree() + self.expansion_degree
    }

    pub fn expansion_degree(&self) -> (d: usize)
        ensures
            d == self.expansion_degree,
    {
        self.expansion_degree
    }

    pub fn reversed(&self) -> (r: bool)
        ensures
            r == self.reversed,
    {
        self.reversed
    }

    pub fn forward(&self) -> (r: bool)
        ensures
            r == !self.reversed,
    {
        !self.reversed
    }

    pub fn seed(&self) -> (s: [u32; 7])
        ensures
            s == self.base_graph.seed,
    {
        self.base_graph.seed
    }

    /// The node this index refers to in the underlying forward base graph:
    /// itself, or its mirror when the graph is reversed.
    pub open spec fn spec_real_index(self, i: int) -> int {
        if self.reversed {
            self.spec_size() - 1 - i
        } else {
            i
        }
    }

    pub fn real_index(&self, i: usize) -> (r: usize)
        requires
            i < self.spec_size(),
        ensures
            r == self.spec_real_index(i as int),
            r < self.spec_size(),
    {
        if self.reversed {
            self.base_graph.nodes - 1 - i
        } else {
            i
        }
    }

    /// Computes the expansion correspondent of `node` at overlay slot `i` by
    /// walking the keyed Feistel permutation (its inverse when reversed).
    pub fn correspondent(&self, node: usize, i: usize) -> (r: usize)
        requires
            self.wf(),
            node < self.spec_size(),
            i < self.expansion_degree,
        ensures
            r as int == self.corr_of(node as int, i as int),
            r < self.spec_size(),
    {
        let e = self.expansion_degree;
        let n = self.base_graph.nodes;
        proof {
            assert(node * e + i < n * e && n * e == e * n) by (nonlinear_arith)
                requires node < n && i < e && 1 <= e;
        }
        let a: u32 = (node * e + i) as u32;
        let d: u32 = (n * e) as u32;
        let keys: [u32; 4] = [1, 2, 3, 4];
        proof {
            assert(keys@ =~= feistel_keys());
        }
        let transformed: u32 = if self.reversed {
            invert_permute(d, a, &keys, self.feistel_precomputed)
        } else {
            permute(d, a, &keys, self.feistel_precomputed)
        };
        proof {
            let t0 = choose|t: int|
                #[trigger] walk_reaches(self.dir_fn(), self.spec_domain(), (node * e + i) as int, t);
            lemma_walk_unique(self.dir_fn(), self.spec_domain(), (node * e + i) as int,
                t0, transformed as int);
            assert((transformed as int) / (e as int) < n) by (nonlinear_arith)
                requires transformed < e * n && 1 <= e && transformed >= 0 && n >= 1;
        }
        (transformed as usize) / e
    }

    /// The kept expansion correspondents of `node`, in overlay slot order:
    /// those strictly on the parent side of `node` for the current direction.
    pub fn expanded_parents(&self, node: usize) -> (r: Vec<usize>)
        requires
            self.wf(),
            node < self.spec_size(),
        ensures
            r@ == self.spec_expanded_parents(node as int),
            forall|q: int| 0 <= q < r@.len() ==> #[trigger] r@[q] < self.spec_size(),
            forall|q: int| 0 <= q < r@.len() ==> self.keeps(node as int, #[trigger] r@[q] as int),
            r@.len() <= self.expansion_degree,
    {
        let e = self.expansion_degree;
        let ghost pred = |p: usize| self.keeps(node as int, p as int);
        let mut out: Vec<usize> = Vec::new();
        let mut i: usize = 0;
        proof {
            assert(Seq::new(0, |q: int| self.corr_of(node as int, q) as usize)
                .filter(pred) =~= Seq::<usize>::empty()) by {
                reveal(Seq::filter);
            }
        }
        while i < e
            invariant
                self.wf(),
                node < self.spec_size(),
                e == self.expansion_degree,
                i <= e,
                pred == (|p: usize| self.keeps(node as int, p as int)),
                out@ == Seq::new(i as nat, |q: int| self.corr_of(node as int, q) as usize).filter(pred),
                forall|q: int| 0 <= q < out@.len() ==> #[trigger] out@[q] < self.spec_size(),
            decreases e - i,
        {
            let other = self.correspondent(node, i);
            let keep = if self.reversed { other > node } else { other < node };
            let ghost prefix = Seq::new(i as nat, |q: int| self.corr_of(node as int, q) as usize);
            let ghost next = Seq::new((i + 1) as nat, |q: int| self.corr_of(node as int, q) as usize);
            if keep {
                out.push(other);
            }
            proof {
                reveal(Seq::filter);
                assert(next.drop_last() =~= prefix);
                assert(next.last() == other);
                assert(pred(other) == keep);
                assert(out@ == next.filter(pred));
            }
            i = i + 1;
        }
        proof {
            assert(Seq::new(e as nat, |q: int| self.corr_of(node as int, q) as usize)
                =~= Seq::new(self.expansion_degree as nat, |q: int| self.corr_of(node as int, q) as usize));
            broadcast use vstd::prelude::Seq::lemma_filter_len;
            broadcast use vstd::prelude::Seq::lemma_filter_pred;
        }
        out
    }

    /// The parents of a node, as a single sorted sequence.
    pub open spec fn spec_parents(self, node: int) -> Seq<usize> {
        self.spec_all_parents(node).sort_by(|x: usize, y: usize| x <= y)
    }

    /// The padding parent: node 0 forward, node `n - 1` reversed.
    pub open spec fn pad_parent(self) -> usize {
        if self.reversed {
            (self.spec_size() - 1) as usize
        } else {
            0usize
        }
    }

    /// Everything `parents` gathers before sorting: the base parents seen
    /// through `real_index`, the expanded parents, and padding up to the
    /// degree.
    pub open spec fn spec_all_parents(self, node: int) -> Seq<usize> {
        let base = spec_bucket_parents(self.base_graph.seed@, self.base_graph.base_degree as nat,
            self.spec_real_index(node)).sort_by(|x: usize, y: usize| x <= y)
            .map_values(|p: usize| self.spec_real_index(p as int) as usize);
        let expanded = self.spec_expanded_parents(node);
        let combined = base + expanded;
        combined + Seq::new((self.spec_degree() - combined.len()) as nat, |q: int| self.pad_parent())
    }

    /// The sorted parents of `raw_node`: exactly `degree()` of them, all at
    /// or below the node in the forward direction and at or above it when
    /// reversed; strictly so except at the self-loop node of each direction.
    pub fn parents(&self, raw_node: usize) -> (r: Vec<usize>)
        requires
            self.wf(),
            raw_node < self.spec_size(),
        ensures
            r@.len() == self.spec_degree(),
            sorted(r@),
            forall|q: int| 0 <= q < r@.len() ==> #[trigger] r@[q] < self.spec_size(),
            !self.reversed ==> forall|q: int| 0 <= q < r@.len() ==> #[trigger] r@[q] <= raw_node,
            self.reversed ==> forall|q: int| 0 <= q < r@.len() ==> #[trigger] r@[q] >= raw_node,
            !self.reversed && raw_node > 0 ==> forall|q: int| 0 <= q < r@.len()
                ==> #[trigger] r@[q] < raw_node,
            self.reversed && (raw_node as int) < self.spec_size() - 1 ==> forall|q: int|
                0 <= q < r@.len() ==> #[trigger] r@[q] > raw_node,
            r@.to_multiset() == self.spec_all_parents(raw_node as int).to_multiset(),
            r@ == self.spec_parents(raw_node as int),
    {
        let n = self.base_graph.nodes;
        let m = self.base_graph.base_degree;
        let ri = self.real_index(raw_node);
        let base = self.base_graph.parents(ri);
        let ghost sorted_base = spec_bucket_parents(self.base_graph.seed@, m as nat, ri as int)
            .sort_by(|x: usize, y: usize| x <= y);
        proof {
            let leq = |x: usize, y: usize| x <= y;
            assert(vstd::relations::total_ordering(leq)) by {
                assert(vstd::relations::reflexive(leq));
                assert(vstd::relations::transitive(leq));
                assert(vstd::relations::antisymmetric(leq));
                assert(vstd::relations::connected(leq));
            }
            spec_bucket_parents(self.base_graph.seed@, m as nat, ri as int).lemma_sort_by_ensures(leq);
            assert(vstd::relations::sorted_by(base@, leq));
            assert(vstd::relations::sorted_by(sorted_base, leq));
            vstd::seq_lib::lemma_sorted_unique(base@, sorted_base, leq);
        }
        // Map the base parents back through the direction mirror.
        let mut all: Vec<usize> = Vec::new();
        let mut i: usize = 0;
        while i < base.len()
            invariant
                self.wf(),
                raw_node < n == self.spec_size(),
                ri == self.spec_real_index(raw_node as int),
                ri < n,
                i <= base@.len(),
                base@.len() == m == self.base_graph.base_degree,
                forall|q: int| 0 <= q < base@.len() ==> #[trigger] base@[q] <= ri,
                ri > 0 ==> forall|q: int| 0 <= q < base@.len() ==> #[trigger] base@[q] < ri,
                all@.len() == i,
                forall|q: int| 0 <= q < i ==> #[trigger] all@[q] == self.spec_real_index(base@[q] as int),
            decreases base@.len() - i,
        {
            let b = base[i];
            all.push(self.real_index(b));
            i = i + 1;
        }
        let ghost mapped = sorted_base.map_values(|p: usize| self.spec_real_index(p as int) as usize);
        proof {
            assert(all@ =~= mapped);
        }
        let expanded = self.expanded_parents(raw_node);
        let mut j: usize = 0;
        let ghost all_base = all@;
        while j < expanded.len()
            invariant
                j <= expanded@.len(),
                all@ == all_base + expanded@.subrange(0, j as int),
            decreases expanded@.len() - j,
        {
            let p = expanded[j];
            all.push(p);
            proof {
                assert(all_base + expanded@.subrange(0, j + 1)
                    =~= (all_base + expanded@.subrange(0, j as int)).push(expanded@[j as int]));
            }
            j = j + 1;
        }
        proof {
            assert(expanded@.subrange(0, expanded@.len() as int) =~= expanded@);
        }
        let pad = if self.reversed { n - 1 } else { 0 };
        proof {
            assert(m <= 0x4000_0000) by (nonlinear_arith)
                requires
                    m == self.base_graph.base_degree && self.base_graph.nodes >= 1
                        && self.base_graph.nodes * m <= 0x4000_0000,
            ;
        }
        let degree = m + self.expansion_degree;
        let ghost before_pad = all@;
        proof {
            assert(before_pad.len() <= degree);
            assert(before_pad + Seq::new(0, |q: int| self.pad_parent()) =~= before_pad);
        }
        while all.len() < degree
            invariant
                degree == self.spec_degree(),
                before_pad.len() <= all@.len(),
                all@.len() <= degree,
                pad == self.pad_parent(),
                all@ == before_pad + Seq::new((all@.len() - before_pad.len()) as nat, |q: int| self.pad_parent()),
            decreases degree - all@.len(),
        {
            all.push(pad);
            proof {
                assert(all@ =~= before_pad + Seq::new((all@.len() - before_pad.len()) as nat,
                    |q: int| self.pad_parent()));
            }
        }
        proof {
            assert(all@.len() == degree);
            assert(all@ =~= self.spec_all_parents(raw_node as int));
        }
        let ghost all_view = all@;
        proof {
            // Every gathered parent respects the direction bounds.
            assert forall|w: int| 0 <= w < all_view.len() implies {
                let y = #[trigger] all_view[w];
                &&& y < self.spec_size()
                &&& (!self.reversed ==> y <= raw_node)
                &&& (self.reversed ==> y >= raw_node)
                &&& (!self.reversed && raw_node > 0 ==> y < raw_node)
                &&& (self.reversed && (raw_node as int) < self.spec_size() - 1 ==> y > raw_node)
            } by {
                let y = all_view[w];
                if w < mapped.len() {
                    assert(y == self.spec_real_index(base@[w] as int));
                    assert(base@[w] <= ri);
                    if ri > 0 {
                        assert(base@[w] < ri);
                    }
                } else if w < before_pad.len() {
                    let q = w - mapped.len();
                    assert(y == expanded@[q]);
                    assert(self.keeps(raw_node as int, y as int));
                    assert(y < self.spec_size());
                } else {
                    assert(y == self.pad_parent());
                }
            }
        }
        let r = sort_usize(all);
        proof {
            broadcast use vstd::seq_lib::group_to_multiset_ensures;
            assert forall|q: int| 0 <= q < r@.len() implies {
                let y = #[trigger] r@[q];
                &&& y < self.spec_size()
                &&& (!self.reversed ==> y <= raw_node)
                &&& (self.reversed ==> y >= raw_node)
                &&& (!self.reversed && raw_node > 0 ==> y < raw_node)
                &&& (self.reversed && (raw_node as int) < self.spec_size() - 1 ==> y > raw_node)
            } by {
                let y = r@[q];
                assert(r@.to_multiset().contains(y));
                assert(all_view.to_multiset().contains(y));
                assert(all_view.contains(y));
            }
            // Sorted plus multiset-equal pins the sequence: it is the sort.
            let leq = |x: usize, y: usize| x <= y;
            assert(vstd::relations::total_ordering(leq)) by {
                assert(vstd::relations::reflexive(leq));
                assert(vstd::relations::transitive(leq));
                assert(vstd::relations::antisymmetric(leq));
                assert(vstd::relations::connected(leq));
            }
            all_view.lemma_sort_by_ensures(leq);
            assert(vstd::relations::sorted_by(r@, leq));
            vstd::seq_lib::lemma_sorted_unique(r@, all_view.sort_by(leq), leq);
            assert(r@ == self.spec_parents(raw_node as int));
        }
        r
    }
}


/// The two-direction expanded-parents cache. One cache serves a graph and
/// its `zigzag()` counterpart, so alternating layers benefit from both
/// directions; it holds the first `cache_entries` nodes only.
pub struct ParentsCache {
    /// Entries of the forward direction.
    pub forward: Vec<Option<Vec<usize>>>,
    /// Entries of the reversed direction.
    pub reversed: Vec<Option<Vec<usize>>>,
}

impl ParentsCache {
    /// Every present entry holds exactly the expanded parents of its node in
    /// its direction, for the graph the cache was built for.
    pub open spec fn wf(self, g: ZigZagGraph) -> bool {
        &&& self.forward@.len() == self.reversed@.len()
        &&& forall|i: int| 0 <= i < self.forward@.len()
            ==> ((#[trigger] self.forward@[i]) matches Some(v)
                ==> v@ == ZigZagGraph { reversed: false, ..g }.spec_expanded_parents(i))
        &&& forall|i: int| 0 <= i < self.reversed@.len()
            ==> ((#[trigger] self.reversed@[i]) matches Some(v)
                ==> v@ == ZigZagGraph { reversed: true, ..g }.spec_expanded_parents(i))
    }

    /// An empty cache sized to the graph's cache budget.
    pub fn new(g: &ZigZagGraph) -> (c: ParentsCache)
        ensures
            c.wf(*g),
            c.forward@.len() == g.cache_entries,
    {
        let mut forward: Vec<Option<Vec<usize>>> = Vec::new();
        let mut reversed: Vec<Option<Vec<usize>>> = Vec::new();
        let mut i: usize = 0;
        while i < g.cache_entries
            invariant
                i <= g.cache_entries,
                forward@.len() == i,
                reversed@.len() == i,
                forall|q: int| 0 <= q < i ==> (#[trigger] forward@[q]) is None,
                forall|q: int| 0 <= q < i ==> (#[trigger] reversed@[q]) is None,
            decreases g.cache_entries - i,
        {
            forward.push(None);
            reversed.push(None);
            i = i + 1;
        }
        ParentsCache { forward, reversed }
    }
}

impl ZigZagGraph {
    /// Which of the two caches the current direction reads: the first for
    /// forward graphs, the second for reversed ones.
    pub fn get_cache_index(&self) -> (r: usize)
        ensures
            r == if self.reversed { 1int } else { 0int },
    {
        if self.forward() {
            0
        } else {
            1
        }
    }

    /// Reads the node's entry of the cache for the current direction: a node
    /// beyond the cache capacity yields `None`, a present entry is returned
    /// (and is exactly the node's expanded parents), an absent one yields
    /// `None`.
    pub fn read_parents_cache(&self, cache: &ParentsCache, node: usize) -> (r: Option<Vec<usize>>)
        requires
            cache.wf(*self),
        ensures
            (node as int) >= cache.forward@.len() ==> r is None,
            (node as int) < cache.forward@.len() ==> {
                let entry = if self.reversed {
                    cache.reversed@[node as int]
                } else {
                    cache.forward@[node as int]
                };
                match entry {
                    Some(v) => r matches Some(w) && w@ == v@,
                    None => r is None,
                }
            },
            r matches Some(v) ==> v@ == self.spec_expanded_parents(node as int),
    {
        // If the index exceeds the cache size don't bother checking.
        if node >= cache.forward.len() {
            return None;
        }
        let entry = if self.reversed {
            &cache.reversed[node]
        } else {
            &cache.forward[node]
        };
        proof {
            if self.reversed {
                assert(ZigZagGraph { reversed: true, ..*self } == *self);
            } else {
                assert(ZigZagGraph { reversed: false, ..*self } == *self);
            }
        }
        match entry {
            Some(v) => Some(clone_usizes(v)),
            None => None,
        }
    }

    /// Saves the node's expanded parents in the cache of the current
    /// direction: the node's entry now holds the given parents, every other
    /// entry and the other direction are unchanged, and a node beyond the
    /// cache capacity leaves the cache untouched. A caller may only write a
    /// computed value, and never rewrites an entry: a second write at the
    /// same key would be a logic error.
    pub fn write_parents_cache(&self, cache: &mut ParentsCache, node: usize, parents: Vec<usize>)
        requires
            old(cache).wf(*self),
            parents@ == self.spec_expanded_parents(node as int),
            (node as int) < old(cache).forward@.len()
                ==> (if self.reversed { old(cache).reversed@[node as int] } else {
                    old(cache).forward@[node as int]
                }) is None,
        ensures
            final(cache).wf(*self),
            final(cache).forward@.len() == old(cache).forward@.len(),
            (node as int) >= old(cache).forward@.len() ==> *final(cache) == *old(cache),
            (node as int) < old(cache).forward@.len() ==> if self.reversed {
                &&& final(cache).reversed@
                    == old(cache).reversed@.update(node as int, Some(parents))
                &&& final(cache).forward@ == old(cache).forward@
            } else {
                &&& final(cache).forward@
                    == old(cache).forward@.update(node as int, Some(parents))
                &&& final(cache).reversed@ == old(cache).reversed@
            },
    {
        // Don't allow writing more entries than the allocated budget.
        if node >= cache.forward.len() {
            return;
        }
        proof {
            if self.reversed {
                assert(ZigZagGraph { reversed: true, ..*self } == *self);
            } else {
                assert(ZigZagGraph { reversed: false, ..*self } == *self);
            }
        }
        if self.reversed {
            cache.reversed.set(node, Some(parents));
        } else {
            cache.forward.set(node, Some(parents));
        }
    }

    /// The expanded parents of `node`, answered from the cache when present
    /// and computed and cached otherwise; always the same value
    /// `expanded_parents` computes.
    pub fn expanded_parents_cached(&self, cache: &mut ParentsCache, node: usize) -> (r: Vec<usize>)
        requires
            self.wf(),
            node < self.spec_size(),
            old(cache).wf(*self),
        ensures
            r@ == self.spec_expanded_parents(node as int),
            final(cache).wf(*self),
            final(cache).forward@.len() == old(cache).forward@.len(),
    {
        if let Some(parents) = self.read_parents_cache(cache, node) {
            return parents;
        }
        let computed = self.expanded_parents(node);
        let absent = node < cache.forward.len() && {
            if self.reversed {
                cache.reversed[node].is_none()
            } else {
                cache.forward[node].is_none()
            }
        };
        if absent {
            self.write_parents_cache(cache, node, clone_usizes(&computed));
        }
        computed
    }
}

/// Copies a vector of indices.
fn clone_usizes(v: &Vec<usize>) -> (r: Vec<usize>)
    ensures
        r@ == v@,
{
    let mut out: Vec<usize> = Vec::new();
    let mut i: usize = 0;
    while i < v.len()
        invariant
            i <= v@.len(),
            out@ == v@.subrange(0, i as int),
        decreases v@.len() - i,
    {
        out.push(v[i]);
        proof {
            assert(v@.subrange(0, i + 1) =~= v@.subrange(0, i as int).push(v@[i as int]));
        }
        i = i + 1;
    }
    proof {
        assert(v@.subrange(0, v@.len() as int) =~= v@);
    }
    out
}

/// Every parent in the parents sequence lies inside the graph.
pub proof fn lemma_spec_parents_in_range(g: ZigZagGraph, node: int)
    requires
        g.wf(),
        0 <= node < g.spec_size(),
    ensures
        forall|q: int| 0 <= q < g.spec_parents(node).len()
            ==> (#[trigger] g.spec_parents(node)[q] as int) < g.spec_size(),
{
    broadcast use vstd::seq_lib::group_to_multiset_ensures;
    let n = g.spec_size();
    let all = g.spec_all_parents(node);
    let leq = |x: usize, y: usize| x <= y;
    assert(vstd::relations::total_ordering(leq)) by {
        assert(vstd::relations::reflexive(leq));
        assert(vstd::relations::transitive(leq));
        assert(vstd::relations::antisymmetric(leq));
        assert(vstd::relations::connected(leq));
    }
    all.lemma_sort_by_ensures(leq);
    // Every element of the combined sequence is in range.
    assert forall|w: int| 0 <= w < all.len() implies (#[trigger] all[w] as int) < n by {
        let m = g.base_graph.base_degree as nat;
        let base = spec_bucket_parents(g.base_graph.seed@, m, g.spec_real_index(node))
            .sort_by(leq);
        let mapped = base.map_values(|p: usize| g.spec_real_index(p as int) as usize);
        let expanded = g.spec_expanded_parents(node);
        let ri = g.spec_real_index(node);
        if w < mapped.len() {
            let bp = base[w];
            // A bucket parent is at most its node's index.
            spec_bucket_parents(g.base_graph.seed@, m, ri).lemma_sort_by_ensures(leq);
            assert(base.to_multiset().contains(bp));
            assert(spec_bucket_parents(g.base_graph.seed@, m, ri).contains(bp));
            let q0 = choose|q0: int| 0 <= q0
                < spec_bucket_parents(g.base_graph.seed@, m, ri).len()
                && spec_bucket_parents(g.base_graph.seed@, m, ri)[q0] == bp;
            if ri >= 2 {
                crate::drgraph::lemma_bucket_parent_range(g.base_graph.seed@, m as int, ri, q0);
            }
            assert((bp as int) <= ri < n);
        } else if w < mapped.len() + expanded.len() {
            let y = expanded[w - mapped.len()];
            assert(expanded.contains(y));
            lemma_filter_member(
                Seq::new(g.expansion_degree as nat, |q: int| g.corr_of(node, q) as usize),
                |p: usize| g.keeps(node, p as int), y);
            let corrs = Seq::new(g.expansion_degree as nat, |q: int| g.corr_of(node, q) as usize);
            let j = choose|j: int| 0 <= j < corrs.len() && #[trigger] corrs[j] == y;
            lemma_corr_props(g, node, j);
            assert(corrs[j] == y);
        } else {
            assert(all[w] == g.pad_parent());
        }
    }
    assert forall|q: int| 0 <= q < g.spec_parents(node).len()
        implies (#[trigger] g.spec_parents(node)[q] as int) < n by {
        let y = g.spec_parents(node)[q];
        assert(g.spec_parents(node).to_multiset().contains(y));
        assert(all.to_multiset().contains(y));
        assert(all.contains(y));
    }
}

/// Every parent lies on the node's parent side: at or below it forward, at
/// or above it reversed, strictly so except at the direction's self-loop
/// node.
pub proof fn lemma_spec_parents_monotone(g: ZigZagGraph, node: int)
    requires
        g.wf(),
        0 <= node < g.spec_size(),
    ensures
        forall|q: int| 0 <= q < g.spec_parents(node).len() ==> {
            let p = (#[trigger] g.spec_parents(node)[q]) as int;
            &&& (!g.reversed ==> p <= node)
            &&& (g.reversed ==> p >= node)
            &&& (!g.reversed && node > 0 ==> p < node)
            &&& (g.reversed && node < g.spec_size() - 1 ==> p > node)
        },
{
    broadcast use vstd::seq_lib::group_to_multiset_ensures;
    let n = g.spec_size();
    let all = g.spec_all_parents(node);
    let leq = |x: usize, y: usize| x <= y;
    assert(vstd::relations::total_ordering(leq)) by {
        assert(vstd::relations::reflexive(leq));
        assert(vstd::relations::transitive(leq));
        assert(vstd::relations::antisymmetric(leq));
        assert(vstd::relations::connected(leq));
    }
    all.lemma_sort_by_ensures(leq);
    assert forall|w: int| 0 <= w < all.len() implies {
        let p = (#[trigger] all[w]) as int;
        &&& (!g.reversed ==> p <= node)
        &&& (g.reversed ==> p >= node)
        &&& (!g.reversed && node > 0 ==> p < node)
        &&& (g.reversed && node < n - 1 ==> p > node)
    } by {
        let m = g.base_graph.base_degree as nat;
        let base = spec_bucket_parents(g.base_graph.seed@, m, g.spec_real_index(node))
            .sort_by(leq);
        let mapped = base.map_values(|p: usize| g.spec_real_index(p as int) as usize);
        let expanded = g.spec_expanded_parents(node);
        let ri = g.spec_real_index(node);
        if w < mapped.len() {
            let bp = base[w];
            spec_bucket_parents(g.base_graph.seed@, m, ri).lemma_sort_by_ensures(leq);
            assert(base.to_multiset().contains(bp));
            assert(spec_bucket_parents(g.base_graph.seed@, m, ri).contains(bp));
            let q0 = choose|q0: int| 0 <= q0
                < spec_bucket_parents(g.base_graph.seed@, m, ri).len()
                && spec_bucket_parents(g.base_graph.seed@, m, ri)[q0] == bp;
            if ri >= 2 {
                crate::drgraph::lemma_bucket_parent_range(g.base_graph.seed@, m as int, ri, q0);
                assert((bp as int) < ri);
            } else {
                assert(bp == 0usize);
            }
            assert(all[w] as int == g.spec_real_index(bp as int));
        } else if w < mapped.len() + expanded.len() {
            let y = expanded[w - mapped.len()];
            assert(expanded.contains(y));
            lemma_filter_member(
                Seq::new(g.expansion_degree as nat, |q: int| g.corr_of(node, q) as usize),
                |p: usize| g.keeps(node, p as int), y);
        } else {
            assert(all[w] == g.pad_parent());
        }
    }
    assert forall|q: int| 0 <= q < g.spec_parents(node).len() implies {
        let p = (#[trigger] g.spec_parents(node)[q]) as int;
        &&& (!g.reversed ==> p <= node)
        &&& (g.reversed ==> p >= node)
        &&& (!g.reversed && node > 0 ==> p < node)
        &&& (g.reversed && node < n - 1 ==> p > node)
    } by {
        let y = g.spec_parents(node)[q];
        assert(g.spec_parents(node).to_multiset().contains(y));
        assert(all.to_multiset().contains(y));
        assert(all.contains(y));
    }
}

/// An element of a filtered sequence is an element of the sequence.
proof fn lemma_filter_member<A>(s: Seq<A>, pred: spec_fn(A) -> bool, x: A)
    requires
        s.filter(pred).contains(x),
    ensures
        s.contains(x),
        pred(x),
    decreases s.len(),
{
    reveal(Seq::filter);
    if s.len() > 0 {
        if pred(s.last()) && x == s.last() {
            assert(s[s.len() - 1] == x);
        } else {
            lemma_filter_member(s.drop_last(), pred, x);
            let j = choose|j: int| 0 <= j < s.drop_last().len() && s.drop_last()[j] == x;
            assert(s[j] == x);
        }
    }
}

/// The expansion correspondent always exists, is unique, and lies inside the
/// graph.
proof fn lemma_corr_props(g: ZigZagGraph, node: int, j: int)
    requires
        g.wf(),
        0 <= node < g.spec_size(),
        0 <= j < g.expansion_degree,
    ensures
        ({
            let t = choose|t: int|
                #[trigger] walk_reaches(g.dir_fn(), g.spec_domain(),
                    node * g.expansion_degree + j, t);
            &&& walk_reaches(g.dir_fn(), g.spec_domain(), node * g.expansion_degree + j, t)
            &&& 0 <= t < g.spec_domain()
            &&& g.corr_of(node, j) == t / (g.expansion_degree as int)
            &&& 0 <= g.corr_of(node, j) < g.spec_size()
        }),
{
    let h = g.feistel_precomputed.half as int;
    let d = g.spec_domain();
    let e = g.expansion_degree as int;
    let n = g.spec_size();
    let x = node * e + j;
    lemma_feistel_fns_good(feistel_keys(), h);
    assert(0 <= x < d) by (nonlinear_arith)
        requires 0 <= node < n && 0 <= j < e && d == e * n && x == node * e + j;
    crate::feistel::lemma_walk_exists(g.dir_fn(), h * h, d, x);
    let y = choose|y: int| walk_reaches(g.dir_fn(), d, x, y);
    let t = choose|t: int| #[trigger] walk_reaches(g.dir_fn(), d, x, t);
    crate::feistel::lemma_walk_unique(g.dir_fn(), d, x, y, t);
    let k = choose|k: nat| crate::feistel::walk_reaches_at(g.dir_fn(), d, x, t, k);
    crate::feistel::lemma_iter_range(g.dir_fn(), h * h, k, x);
    assert(0 <= t < d);
    assert(0 <= t / e < n) by (nonlinear_arith)
        requires 0 <= t && t < e * n && e >= 1;
}

/// ZigZag reciprocity over the expansion overlay: `p` is an expanded parent
/// of `i` exactly when `i` is an expanded parent of `p` in the graph's
/// zigzag counterpart.
pub proof fn lemma_zigzag_expansion_reciprocity(g: ZigZagGraph, i: usize, p: usize)
    requires
        g.wf(),
        (i as int) < g.spec_size(),
        (p as int) < g.spec_size(),
    ensures
        g.spec_expanded_parents(i as int).contains(p)
            <==> g.spec_zigzag().spec_expanded_parents(p as int).contains(i),
{
    let gz = g.spec_zigzag();
    assert(gz.wf());
    if g.spec_expanded_parents(i as int).contains(p) {
        lemma_reciprocity_one(g, i, p);
    }
    if gz.spec_expanded_parents(p as int).contains(i) {
        assert(gz.spec_zigzag() == g);
        lemma_reciprocity_one(gz, p, i);
    }
}

/// One direction of reciprocity: a kept correspondent of `i` keeps `i` as a
/// correspondent once the direction is toggled.
proof fn lemma_reciprocity_one(g: ZigZagGraph, i: usize, p: usize)
    requires
        g.wf(),
        (i as int) < g.spec_size(),
        (p as int) < g.spec_size(),
        g.spec_expanded_parents(i as int).contains(p),
    ensures
        g.spec_zigzag().spec_expanded_parents(p as int).contains(i),
{
    let gz = g.spec_zigzag();
    let h = g.feistel_precomputed.half as int;
    let d = g.spec_domain();
    let e = g.expansion_degree as int;
    let n = g.spec_size();
    lemma_feistel_fns_good(feistel_keys(), h);
    let corrs = Seq::new(g.expansion_degree as nat, |q: int| g.corr_of(i as int, q) as usize);
    let pred = |q: usize| g.keeps(i as int, q as int);
    lemma_filter_member(corrs, pred, p);
    let j = choose|j: int| 0 <= j < corrs.len() && corrs[j] == p;
    lemma_corr_props(g, i as int, j);
    let x = (i as int) * e + j;
    let t = choose|t: int| #[trigger] walk_reaches(g.dir_fn(), d, x, t);
    assert(g.corr_of(i as int, j) == t / e);
    assert(p as int == t / e);
    assert(0 <= x < d) by (nonlinear_arith)
        requires (i as int) < n && 0 <= j < e && d == e * n && x == (i as int) * e + j;
    // Walk back with the inverse direction.
    assert(forall|u: int| 0 <= u < h * h ==> #[trigger] gz.dir_fn()(g.dir_fn()(u)) == u);
    assert(crate::feistel::maps_range(g.dir_fn(), h * h));
    crate::feistel::lemma_walk_back(g.dir_fn(), gz.dir_fn(), h * h, d, x, t);
    // The slot of `t` inside p's correspondents.
    vstd::arithmetic::div_mod::lemma_fundamental_div_mod(t, e);
    vstd::arithmetic::div_mod::lemma_mod_bound(t, e);
    let j2 = t % e;
    assert(t == (p as int) * e + j2) by (nonlinear_arith)
        requires t == e * (t / e) + t % e && p as int == t / e && j2 == t % e;
    lemma_corr_props(gz, p as int, j2);
    let t2 = choose|t2: int| #[trigger] walk_reaches(gz.dir_fn(), d, (p as int) * e + j2, t2);
    crate::feistel::lemma_walk_unique(gz.dir_fn(), d, t, x, t2);
    assert(gz.corr_of(p as int, j2) == x / e);
    crate::feistel::lemma_split_pair(i as int, j, e);
    assert(x / e == i as int);
    // Membership in the filtered sequence.
    let corrs2 = Seq::new(gz.expansion_degree as nat, |q: int| gz.corr_of(p as int, q) as usize);
    let pred2 = |q: usize| gz.keeps(p as int, q as int);
    assert(corrs2[j2] == i);
    assert(g.keeps(i as int, p as int));
    assert(pred2(corrs2[j2]));
    corrs2.lemma_filter_contains(pred2, j2);
}

} // verus!
