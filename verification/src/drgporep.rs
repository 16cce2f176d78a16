//! Single-layer DRG proof of replication: per-node keyed encoding of a
//! sector, commitments, and the challenge openings.
//!
//! Replication walks the nodes in graph order (ascending forward, descending
//! reversed), derives each node's key from the replica id and its parents'
//! current slots, and Sloth-encodes the node's slot in place. Extraction
//! walks backwards and inverts each step; a node's own slot never enters its
//! key, so the walk is invertible.

use vstd::prelude::*;
use crate::zigzag_graph::ZigZagGraph;
use crate::field::{fr_valid, le_value, spec_sloth_encode, spec_sloth_decode, sloth_encode,
    sloth_decode, bytes_of_value, lemma_bytes_of_le_value, lemma_le_value_of_bytes,
    lemma_sloth_round_trip, pow256, lemma_pow256_pos, slice_to_vec};
use crate::hasher::{HasherKind, spec_digest, digest};
use crate::merkle::{MerkleTree, spec_merkle_root, slots_view, append_slice};

verus! {

/// Graph construction parameters.
#[derive(Clone, Copy, Debug)]
pub struct DrgParams {
    pub nodes: usize,
    pub degree: usize,
    pub expansion_degree: usize,
    pub seed: [u32; 7],
}

/// Setup parameters of one layer.
#[derive(Clone, Copy, Debug)]
pub struct SetupParams {
    pub lambda: usize,
    pub drg: DrgParams,
    pub sloth_iter: usize,
}

/// Public parameters of one layer.
#[derive(Clone, Copy, Debug)]
pub struct PublicParams {
    pub graph: ZigZagGraph,
    pub lambda: usize,
    pub sloth_iter: usize,
}

impl PublicParams {
    pub open spec fn wf(self) -> bool {
        &&& self.graph.wf()
        &&& self.lambda == 32
        &&& self.graph.spec_size() * 32 <= 0x4000_0000
        &&& self.graph.spec_size() <= 0x0200_0000
    }

    /// Number of nodes, and so of slots.
    pub open spec fn spec_nodes(self) -> int {
        self.graph.spec_size()
    }
}

/// Builds the layer's public parameters: a fresh forward ZigZag graph.
pub fn setup(sp: &SetupParams) -> (pp: PublicParams)
    requires
        sp.lambda == 32,
        1 <= sp.drg.degree,
        1 <= sp.drg.nodes <= 0x0200_0000,
        1 <= sp.drg.expansion_degree <= 0x4000_0000,
        sp.drg.nodes * sp.drg.degree <= 0x4000_0000,
        sp.drg.expansion_degree * sp.drg.nodes <= 0xFFFF_FFFF,
    ensures
        pp.wf(),
        pp.graph.base_graph.nodes == sp.drg.nodes,
        pp.graph.base_graph.base_degree == sp.drg.degree,
        pp.graph.expansion_degree == sp.drg.expansion_degree,
        pp.graph.base_graph.seed == sp.drg.seed,
        !pp.graph.reversed,
        pp.lambda == 32,
        pp.sloth_iter == sp.sloth_iter,
{
    let graph = ZigZagGraph::new_zigzag(sp.drg.nodes, sp.drg.degree, sp.drg.expansion_degree,
        sp.drg.seed);
    PublicParams { graph, lambda: sp.lambda, sloth_iter: sp.sloth_iter }
}

/// Slot `i` of a sector buffer.
pub open spec fn spec_slot(d: Seq<u8>, i: int) -> Seq<u8> {
    d.subrange(32 * i, 32 * i + 32)
}

/// A sector buffer of `n` valid field-element slots.
pub open spec fn data_wf(d: Seq<u8>, n: int) -> bool {
    &&& d.len() == 32 * n
    &&& forall|i: int| 0 <= i < n ==> fr_valid(#[trigger] spec_slot(d, i))
}

/// The buffer with slot `i` replaced.
pub open spec fn spec_set_slot(d: Seq<u8>, i: int, s: Seq<u8>) -> Seq<u8> {
    d.subrange(0, 32 * i) + s + d.subrange(32 * i + 32, d.len() as int)
}

proof fn lemma_set_slot_frame(d: Seq<u8>, n: int, i: int, s: Seq<u8>)
    requires
        d.len() == 32 * n,
        0 <= i < n,
        s.len() == 32,
    ensures
        spec_set_slot(d, i, s).len() == 32 * n,
        spec_slot(spec_set_slot(d, i, s), i) == s,
        forall|j: int| 0 <= j < n && j != i ==> spec_slot(spec_set_slot(d, i, s), j)
            == #[trigger] spec_slot(d, j),
{
    let d2 = spec_set_slot(d, i, s);
    assert(32 * i + 32 <= 32 * n) by (nonlinear_arith)
        requires i < n;
    assert(d2.len() == 32 * n);
    assert(spec_slot(d2, i) =~= s);
    assert forall|j: int| 0 <= j < n && j != i implies spec_slot(d2, j)
        == #[trigger] spec_slot(d, j) by {
        assert(32 * j + 32 <= 32 * n) by (nonlinear_arith)
            requires j < n;
        if j < i {
            assert(32 * j + 32 <= 32 * i) by (nonlinear_arith)
                requires j < i;
        } else {
            assert(32 * i + 32 <= 32 * j) by (nonlinear_arith)
                requires i < j;
        }
        assert(spec_slot(d2, j) =~= spec_slot(d, j));
    }
}

/// The digest input of a node's key: the replica id followed by the parents'
/// slots, the node's own slot excluded.
pub open spec fn spec_key_input(rid: Seq<u8>, parents: Seq<usize>, d: Seq<u8>, node: int) -> Seq<u8>
    decreases parents.len(),
{
    if parents.len() == 0 {
        rid
    } else {
        spec_key_input(rid, parents.drop_last(), d, node)
            + if parents.last() as int == node {
                Seq::empty()
            } else {
                spec_slot(d, parents.last() as int)
            }
    }
}

/// A node's encoding key.
pub open spec fn spec_key(kind: HasherKind, rid: Seq<u8>, parents: Seq<usize>, d: Seq<u8>, node: int) -> Seq<u8> {
    spec_digest(kind, spec_key_input(rid, parents, d, node))
}

/// The key only reads the parents' slots, never the node's own.
proof fn lemma_key_frame(rid: Seq<u8>, parents: Seq<usize>, d1: Seq<u8>, d2: Seq<u8>, node: int)
    requires
        forall|q: int| #![trigger parents[q]] 0 <= q < parents.len() && parents[q] as int != node
            ==> spec_slot(d1, parents[q] as int) == spec_slot(d2, parents[q] as int),
    ensures
        spec_key_input(rid, parents, d1, node) == spec_key_input(rid, parents, d2, node),
    decreases parents.len(),
{
    if parents.len() > 0 {
        lemma_key_frame(rid, parents.drop_last(), d1, d2, node);
        assert(parents.last() == parents[parents.len() - 1]);
    }
}

/// The node visited at step `k` of the traversal: ascending forward,
/// descending reversed.
pub open spec fn spec_trav(g: ZigZagGraph, k: int) -> int {
    if g.reversed {
        g.spec_size() - 1 - k
    } else {
        k
    }
}

/// One encode step: Sloth-encode the slot of the step's node under its key.
pub open spec fn spec_encode_step(g: ZigZagGraph, rid: Seq<u8>, iters: nat, d: Seq<u8>, k: int) -> Seq<u8> {
    let node = spec_trav(g, k);
    let parents = g.spec_parents(node);
    let key = spec_key(g.hasher, rid, parents, d, node);
    let newv = spec_sloth_encode(le_value(key), le_value(spec_slot(d, node)), iters);
    spec_set_slot(d, node, bytes_of_value(newv, 32))
}

/// The buffer after the first `k` encode steps.
pub open spec fn spec_encode_upto(g: ZigZagGraph, rid: Seq<u8>, iters: nat, d: Seq<u8>, k: int) -> Seq<u8>
    decreases k,
{
    if k <= 0 {
        d
    } else {
        spec_encode_step(g, rid, iters, spec_encode_upto(g, rid, iters, d, k - 1), k - 1)
    }
}

/// The fully replicated buffer.
pub open spec fn spec_encoded(g: ZigZagGraph, rid: Seq<u8>, iters: nat, d: Seq<u8>) -> Seq<u8> {
    spec_encode_upto(g, rid, iters, d, g.spec_size())
}

/// One decode step: the inverse of the encode step at the same position.
pub open spec fn spec_decode_step(g: ZigZagGraph, rid: Seq<u8>, iters: nat, d: Seq<u8>, k: int) -> Seq<u8> {
    let node = spec_trav(g, k);
    let parents = g.spec_parents(node);
    let key = spec_key(g.hasher, rid, parents, d, node);
    let newv = spec_sloth_decode(le_value(key), le_value(spec_slot(d, node)), iters);
    spec_set_slot(d, node, bytes_of_value(newv, 32))
}

/// The buffer after undoing the steps `n - 1` down to `k`.
pub open spec fn spec_decode_from(g: ZigZagGraph, rid: Seq<u8>, iters: nat, d: Seq<u8>, k: int) -> Seq<u8>
    decreases g.spec_size() - k,
{
    if k >= g.spec_size() {
        d
    } else {
        spec_decode_step(g, rid, iters, spec_decode_from(g, rid, iters, d, k + 1), k)
    }
}

/// The fully extracted buffer.
pub open spec fn spec_decoded(g: ZigZagGraph, rid: Seq<u8>, iters: nat, d: Seq<u8>) -> Seq<u8> {
    spec_decode_from(g, rid, iters, d, 0)
}

proof fn lemma_fr_valid_of_value(v: int)
    requires
        0 <= v < crate::field::modulus(),
    ensures
        fr_valid(bytes_of_value(v, 32)),
        le_value(bytes_of_value(v, 32)) == v,
{
    lemma_le_value_of_bytes(v, 32);
    crate::field::lemma_le_value_bound(crate::field::modulus_bytes());
    vstd::arithmetic::div_mod::lemma_small_mod(v as nat, pow256(32) as nat);
    lemma_pow256_pos(32);
}

/// Validity of the key under any buffer.
proof fn lemma_key_valid(kind: HasherKind, rid: Seq<u8>, parents: Seq<usize>, d: Seq<u8>, node: int)
    ensures
        fr_valid(spec_key(kind, rid, parents, d, node)),
        spec_key(kind, rid, parents, d, node).len() == 32,
{
    reveal(crate::hasher::spec_digest);
    let input = spec_key_input(rid, parents, d, node);
    let out = spec_digest(kind, input);
    crate::field::lemma_masked_is_valid(out);
}

/// Encode steps keep the buffer well-formed.
proof fn lemma_encode_upto_wf(g: ZigZagGraph, rid: Seq<u8>, iters: nat, d: Seq<u8>, k: int)
    requires
        g.wf(),
        data_wf(d, g.spec_size()),
        0 <= k <= g.spec_size(),
    ensures
        data_wf(spec_encode_upto(g, rid, iters, d, k), g.spec_size()),
        forall|j: int| k <= j < g.spec_size()
            ==> #[trigger] spec_slot(spec_encode_upto(g, rid, iters, d, k), spec_trav(g, j))
                == spec_slot(d, spec_trav(g, j)),
    decreases k,
{
    let n = g.spec_size();
    if k > 0 {
        lemma_encode_upto_wf(g, rid, iters, d, k - 1);
        let prev = spec_encode_upto(g, rid, iters, d, k - 1);
        let node = spec_trav(g, k - 1);
        assert(0 <= node < n);
        let parents = g.spec_parents(node);
        let key = spec_key(g.hasher, rid, parents, prev, node);
        lemma_key_valid(g.hasher, rid, parents, prev, node);
        crate::field::lemma_sloth_enc_range_pub(le_value(key), le_value(spec_slot(prev, node)), iters);
        let newv = spec_sloth_encode(le_value(key), le_value(spec_slot(prev, node)), iters);
        lemma_fr_valid_of_value(newv);
        lemma_set_slot_frame(prev, n, node, bytes_of_value(newv, 32));
        let next = spec_encode_upto(g, rid, iters, d, k);
        assert(next == spec_set_slot(prev, node, bytes_of_value(newv, 32)));
        assert forall|j: int| k <= j < n implies #[trigger] spec_slot(next, spec_trav(g, j))
            == spec_slot(d, spec_trav(g, j)) by {
            assert(spec_trav(g, j) != node);
            assert(spec_slot(next, spec_trav(g, j)) == spec_slot(prev, spec_trav(g, j)));
            assert(spec_slot(spec_encode_upto(g, rid, iters, d, k - 1), spec_trav(g, j))
                == spec_slot(d, spec_trav(g, j)));
        }
        assert forall|i: int| 0 <= i < n implies fr_valid(#[trigger] spec_slot(next, i)) by {
            if i == node {
                assert(spec_slot(next, node) == bytes_of_value(newv, 32));
            } else {
                assert(spec_slot(next, i) == spec_slot(prev, i));
            }
        }
    }
}

/// Each decode step undoes the matching encode step, so extraction inverts
/// replication: the graph walk touches each slot exactly once and a node's
/// key never reads the node's own slot.
proof fn lemma_decode_prefix(g: ZigZagGraph, rid: Seq<u8>, iters: nat, d: Seq<u8>, k: int)
    requires
        g.wf(),
        data_wf(d, g.spec_size()),
        0 <= k <= g.spec_size(),
    ensures
        spec_decode_from(g, rid, iters, spec_encoded(g, rid, iters, d), k)
            == spec_encode_upto(g, rid, iters, d, k),
    decreases g.spec_size() - k,
{
    let n = g.spec_size();
    if k < n {
        lemma_decode_prefix(g, rid, iters, d, k + 1);
        let s = spec_encode_upto(g, rid, iters, d, k + 1);
        let prev = spec_encode_upto(g, rid, iters, d, k);
        let node = spec_trav(g, k);
        assert(0 <= node < n);
        let parents = g.spec_parents(node);
        crate::zigzag_graph::lemma_spec_parents_in_range(g, node);
        lemma_encode_upto_wf(g, rid, iters, d, k);
        let keyv = le_value(spec_key(g.hasher, rid, parents, prev, node));
        let slotv = le_value(spec_slot(prev, node));
        lemma_key_valid(g.hasher, rid, parents, prev, node);
        crate::field::lemma_sloth_enc_range_pub(keyv, slotv, iters);
        let newv = spec_sloth_encode(keyv, slotv, iters);
        lemma_fr_valid_of_value(newv);
        lemma_set_slot_frame(prev, n, node, bytes_of_value(newv, 32));
        assert(s == spec_set_slot(prev, node, bytes_of_value(newv, 32)));
        // The key recomputed from `s` equals the encode-time key: the buffers
        // differ only at `node`, which the key skips.
        assert forall|q: int| #![trigger parents[q]] 0 <= q < parents.len()
            && parents[q] as int != node
            implies spec_slot(s, parents[q] as int) == spec_slot(prev, parents[q] as int) by {
            assert((parents[q] as int) < n);
        }
        lemma_key_frame(rid, parents, s, prev, node);
        assert(spec_key(g.hasher, rid, parents, s, node)
            == spec_key(g.hasher, rid, parents, prev, node));
        // Decoding the slot returns the pre-encode slot.
        lemma_sloth_round_trip(keyv, slotv, iters);
        assert(le_value(spec_slot(s, node)) == newv);
        assert(spec_sloth_decode(keyv, newv, iters) == slotv);
        lemma_fr_valid_of_value(slotv);
        assert(bytes_of_value(slotv, 32) == spec_slot(prev, node)) by {
            lemma_bytes_of_le_value(spec_slot(prev, node));
        }
        // Putting the original slot back restores the whole buffer.
        lemma_set_slot_frame(s, n, node, spec_slot(prev, node));
        let restored = spec_decode_step(g, rid, iters, s, k);
        assert forall|j: int| 0 <= j < n implies #[trigger] spec_slot(restored, j)
            == spec_slot(prev, j) by {
        }
        lemma_slots_eq(restored, prev, n);
    }
}

/// Buffers with equal slots are equal.
proof fn lemma_slots_eq(a: Seq<u8>, b: Seq<u8>, n: int)
    requires
        a.len() == 32 * n,
        b.len() == 32 * n,
        n >= 0,
        forall|j: int| 0 <= j < n ==> #[trigger] spec_slot(a, j) == spec_slot(b, j),
    ensures
        a == b,
{
    assert forall|p: int| 0 <= p < a.len() implies a[p] == b[p] by {
        let j = p / 32;
        vstd::arithmetic::div_mod::lemma_fundamental_div_mod(p, 32);
        vstd::arithmetic::div_mod::lemma_mod_bound(p, 32);
        assert(0 <= j < n) by (nonlinear_arith)
            requires 0 <= p < 32 * n && j == p / 32 && p == 32 * j + p % 32 && 0 <= p % 32 < 32;
        assert(spec_slot(a, j)[p - 32 * j] == a[p]);
        assert(spec_slot(b, j)[p - 32 * j] == b[p]);
    }
    assert(a =~= b);
}

/// Replication keeps the buffer well-formed.
pub proof fn lemma_encoded_wf(g: ZigZagGraph, rid: Seq<u8>, iters: nat, d: Seq<u8>)
    requires
        g.wf(),
        data_wf(d, g.spec_size()),
    ensures
        data_wf(spec_encoded(g, rid, iters, d), g.spec_size()),
{
    lemma_encode_upto_wf(g, rid, iters, d, g.spec_size());
}

/// The verifier's decision depends only on the views of the public inputs.
pub proof fn lemma_verify_depends_on_views(pp: PublicParams, a: PublicInputs, b: PublicInputs,
    proof: Proof)
    requires
        a.replica_id@ == b.replica_id@,
        a.challenges@ == b.challenges@,
        a.tau is Some,
        b.tau is Some,
        a.tau->0.comm_r@ == b.tau->0.comm_r@,
        a.tau->0.comm_d@ == b.tau->0.comm_d@,
    ensures
        spec_verify(pp, a, proof) == spec_verify(pp, b, proof),
{
    assert forall|i: int| 0 <= i < a.challenges@.len() implies
        spec_check_challenge(pp, a.replica_id@, a.tau->0, #[trigger] a.challenges@[i],
            proof.replica_nodes@[i], proof.replica_parents@[i]@, proof.nodes@[i])
        == spec_check_challenge(pp, b.replica_id@, b.tau->0, b.challenges@[i],
            proof.replica_nodes@[i], proof.replica_parents@[i]@, proof.nodes@[i]) by {
        assert(a.challenges@[i] == b.challenges@[i]);
    }
    if spec_verify(pp, a, proof) {
        assert forall|i: int| 0 <= i < b.challenges@.len() implies
            spec_check_challenge(pp, b.replica_id@, b.tau->0, #[trigger] b.challenges@[i],
                proof.replica_nodes@[i], proof.replica_parents@[i]@, proof.nodes@[i]) by {
            assert(spec_check_challenge(pp, a.replica_id@, a.tau->0, a.challenges@[i],
                proof.replica_nodes@[i], proof.replica_parents@[i]@, proof.nodes@[i]));
        }
    }
    if spec_verify(pp, b, proof) {
        assert forall|i: int| 0 <= i < a.challenges@.len() implies
            spec_check_challenge(pp, a.replica_id@, a.tau->0, #[trigger] a.challenges@[i],
                proof.replica_nodes@[i], proof.replica_parents@[i]@, proof.nodes@[i]) by {
            assert(spec_check_challenge(pp, b.replica_id@, b.tau->0, b.challenges@[i],
                proof.replica_nodes@[i], proof.replica_parents@[i]@, proof.nodes@[i]));
        }
    }
}

/// Extraction inverts replication on any well-formed sector buffer.
pub proof fn lemma_extract_inverts_replicate(g: ZigZagGraph, rid: Seq<u8>, iters: nat, d: Seq<u8>)
    requires
        g.wf(),
        data_wf(d, g.spec_size()),
    ensures
        spec_decoded(g, rid, iters, spec_encoded(g, rid, iters, d)) == d,
{
    lemma_decode_prefix(g, rid, iters, d, 0);
}

/// Copies slot `i` out of the buffer.
fn get_slot(d: &Vec<u8>, n: usize, i: usize) -> (r: Vec<u8>)
    requires
        d@.len() == 32 * n,
        i < n,
        n <= 0x0200_0000,
    ensures
        r@ == spec_slot(d@, i as int),
{
    proof {
        assert(32 * i + 32 <= 32 * n) by (nonlinear_arith)
            requires i < n;
    }
    let mut out: Vec<u8> = Vec::new();
    let mut j: usize = 0;
    while j < 32
        invariant
            j <= 32,
            d@.len() == 32 * n,
            32 * i + 32 <= 32 * n,
            i < n <= 0x0200_0000,
            out@ == d@.subrange(32 * i as int, 32 * i + j),
        decreases 32 - j,
    {
        out.push(d[32 * i + j]);
        proof {
            assert(d@.subrange(32 * i as int, 32 * i + j + 1)
                =~= d@.subrange(32 * i as int, 32 * i + j).push(d@[32 * i + j]));
        }
        j = j + 1;
    }
    out
}

/// Overwrites slot `i` of the buffer.
fn put_slot(d: &mut Vec<u8>, n: usize, i: usize, s: &Vec<u8>)
    requires
        old(d)@.len() == 32 * n,
        i < n,
        n <= 0x0200_0000,
        s@.len() == 32,
    ensures
        final(d)@ == spec_set_slot(old(d)@, i as int, s@),
{
    proof {
        assert(32 * i + 32 <= 32 * n) by (nonlinear_arith)
            requires i < n;
    }
    let mut j: usize = 0;
    while j < 32
        invariant
            j <= 32,
            d@.len() == 32 * n,
            32 * i + 32 <= 32 * n,
            i < n <= 0x0200_0000,
            s@.len() == 32,
            forall|p: int| 0 <= p < 32 * i ==> #[trigger] d@[p] == old(d)@[p],
            forall|p: int| 0 <= p < j ==> #[trigger] d@[32 * i + p] == s@[p],
            forall|p: int| 32 * i + j <= p < 32 * n ==> #[trigger] d@[p] == old(d)@[p],
        decreases 32 - j,
    {
        d.set(32 * i + j, s[j]);
        j = j + 1;
    }
    proof {
        assert forall|p: int| 0 <= p < 32 * n implies #[trigger] d@[p]
            == spec_set_slot(old(d)@, i as int, s@)[p] by {
            if 32 * i <= p < 32 * i + 32 {
                assert(d@[32 * i + (p - 32 * i)] == s@[p - 32 * i]);
            }
        }
        assert(d@ =~= spec_set_slot(old(d)@, i as int, s@));
    }
}

/// Derives a node's encoding key: the digest of the replica id followed by
/// the parents' slots, skipping the node itself.
fn create_key(kind: HasherKind, replica_id: &[u8], parents: &Vec<usize>, d: &Vec<u8>, n: usize, node: usize) -> (r: Vec<u8>)
    requires
        d@.len() == 32 * n,
        n <= 0x0200_0000,
        node < n,
        forall|q: int| 0 <= q < parents@.len() ==> (#[trigger] parents@[q] as int) < n,
    ensures
        r@ == spec_key(kind, replica_id@, parents@, d@, node as int),
        fr_valid(r@),
{
    let mut input: Vec<u8> = slice_to_vec(replica_id);
    let mut q: usize = 0;
    while q < parents.len()
        invariant
            q <= parents@.len(),
            d@.len() == 32 * n,
            n <= 0x0200_0000,
            node < n,
            forall|w: int| 0 <= w < parents@.len() ==> (#[trigger] parents@[w] as int) < n,
            input@ == spec_key_input(replica_id@, parents@.subrange(0, q as int), d@, node as int),
        decreases parents@.len() - q,
    {
        let p = parents[q];
        proof {
            assert(parents@.subrange(0, q + 1).drop_last() =~= parents@.subrange(0, q as int));
        }
        if p != node {
            let slot = get_slot(d, n, p);
            append_slice(&mut input, slot.as_slice());
        } else {
            proof {
                assert(input@ + Seq::<u8>::empty() =~= input@);
            }
        }
        q = q + 1;
    }
    proof {
        assert(parents@.subrange(0, parents@.len() as int) =~= parents@);
    }
    digest(kind, input.as_slice())
}

/// Replicates the sector in place: one keyed Sloth encoding per node, in
/// graph order.
pub fn vde_encode(pp: &PublicParams, replica_id: &[u8], data: &mut Vec<u8>)
    requires
        pp.wf(),
        data_wf(old(data)@, pp.spec_nodes()),
    ensures
        final(data)@ == spec_encoded(pp.graph, replica_id@, pp.sloth_iter as nat, old(data)@),
        data_wf(final(data)@, pp.spec_nodes()),
{
    let n = pp.graph.size();
    let ghost d0 = data@;
    let ghost g = pp.graph;
    let ghost rid = replica_id@;
    let ghost iters = pp.sloth_iter as nat;
    let mut k: usize = 0;
    while k < n
        invariant
            k <= n,
            pp.wf(),
            n == pp.spec_nodes(),
            g == pp.graph,
            rid == replica_id@,
            iters == pp.sloth_iter as nat,
            data_wf(d0, n as int),
            data@ == spec_encode_upto(g, rid, iters, d0, k as int),
            data_wf(data@, n as int),
        decreases n - k,
    {
        let node: usize = if pp.graph.reversed() { n - 1 - k } else { k };
        proof {
            assert(node as int == spec_trav(g, k as int));
            crate::zigzag_graph::lemma_spec_parents_in_range(g, node as int);
        }
        let parents = pp.graph.parents(node);
        let key = create_key(pp.graph.hasher, replica_id, &parents, data, n, node);
        let slot = get_slot(data, n, node);
        proof {
            assert(fr_valid(slot@));
        }
        let enc = sloth_encode(key.as_slice(), slot.as_slice(), pp.sloth_iter);
        proof {
            lemma_bytes_of_le_value(enc@);
            crate::field::lemma_le_value_bound(enc@);
            vstd::arithmetic::div_mod::lemma_small_mod(le_value(enc@) as nat, pow256(32) as nat);
        }
        let ghost before = data@;
        put_slot(data, n, node, &enc);
        proof {
            assert(enc@ == bytes_of_value(le_value(enc@), 32));
            assert(data@ == spec_encode_upto(g, rid, iters, d0, k + 1));
            lemma_encode_upto_wf(g, rid, iters, d0, k + 1);
        }
        k = k + 1;
    }
}

/// Extracts the original sector from a replica, walking the graph backwards
/// and inverting each encoding step.
pub fn vde_decode(pp: &PublicParams, replica_id: &[u8], data: &Vec<u8>) -> (r: Vec<u8>)
    requires
        pp.wf(),
        data_wf(data@, pp.spec_nodes()),
    ensures
        r@ == spec_decoded(pp.graph, replica_id@, pp.sloth_iter as nat, data@),
        data_wf(r@, pp.spec_nodes()),
{
    let n = pp.graph.size();
    let ghost g = pp.graph;
    let ghost rid = replica_id@;
    let ghost iters = pp.sloth_iter as nat;
    let mut cur: Vec<u8> = slice_to_vec(data.as_slice());
    let mut k: usize = n;
    while k > 0
        invariant
            k <= n,
            pp.wf(),
            n == pp.spec_nodes(),
            g == pp.graph,
            rid == replica_id@,
            iters == pp.sloth_iter as nat,
            data_wf(data@, n as int),
            cur@ == spec_decode_from(g, rid, iters, data@, k as int),
            data_wf(cur@, n as int),
        decreases k,
    {
        let step = k - 1;
        let node: usize = if pp.graph.reversed() { n - 1 - step } else { step };
        proof {
            assert(node as int == spec_trav(g, step as int));
            crate::zigzag_graph::lemma_spec_parents_in_range(g, node as int);
        }
        let parents = pp.graph.parents(node);
        let key = create_key(pp.graph.hasher, replica_id, &parents, &cur, n, node);
        let slot = get_slot(&cur, n, node);
        let dec = sloth_decode(key.as_slice(), slot.as_slice(), pp.sloth_iter);
        proof {
            lemma_bytes_of_le_value(dec@);
            crate::field::lemma_le_value_bound(dec@);
            vstd::arithmetic::div_mod::lemma_small_mod(le_value(dec@) as nat, pow256(32) as nat);
        }
        put_slot(&mut cur, n, node, &dec);
        proof {
            assert(dec@ == bytes_of_value(le_value(dec@), 32));
            assert(cur@ == spec_decode_from(g, rid, iters, data@, step as int));
            lemma_decode_from_wf(g, rid, iters, data@, step as int);
        }
        k = step;
    }
    cur
}

/// Runtime check that a buffer is a sector of `n` valid field slots.
pub fn data_check(d: &Vec<u8>, n: usize) -> (r: bool)
    requires
        n <= 0x0200_0000,
    ensures
        r == data_wf(d@, n as int),
{
    proof {
        assert(32 * (n as int) <= 0x4000_0000) by (nonlinear_arith)
            requires n <= 0x0200_0000;
    }
    if d.len() != 32 * n {
        return false;
    }
    let mut i: usize = 0;
    while i < n
        invariant
            i <= n <= 0x0200_0000,
            d@.len() == 32 * n,
            forall|q: int| 0 <= q < i ==> fr_valid(#[trigger] spec_slot(d@, q)),
        decreases n - i,
    {
        let s = get_slot(d, n, i);
        if !crate::field::fr_check(s.as_slice()) {
            return false;
        }
        i = i + 1;
    }
    true
}

/// A layer commitment pair: replica root and data root.
#[derive(Clone, Debug)]
pub struct Tau {
    pub comm_r: Vec<u8>,
    pub comm_d: Vec<u8>,
}

/// The prover's trees over the layer's data and replica.
pub struct ProverAux {
    pub tree_d: MerkleTree,
    pub tree_r: MerkleTree,
}

/// The slots of a sector buffer, as leaf vectors.
pub open spec fn spec_slots(d: Seq<u8>, n: int) -> Seq<Seq<u8>> {
    Seq::new(n as nat, |i: int| spec_slot(d, i))
}

fn data_slots(d: &Vec<u8>, n: usize) -> (r: Vec<Vec<u8>>)
    requires
        d@.len() == 32 * n,
        n <= 0x0200_0000,
    ensures
        slots_view(r@) == spec_slots(d@, n as int),
        r@.len() == n,
{
    let mut out: Vec<Vec<u8>> = Vec::new();
    let mut i: usize = 0;
    while i < n
        invariant
            i <= n,
            d@.len() == 32 * n,
            n <= 0x0200_0000,
            out@.len() == i,
            forall|q: int| 0 <= q < i ==> slots_view(out@)[q] == spec_slot(d@, q),
        decreases n - i,
    {
        let s = get_slot(d, n, i);
        let ghost prev = out@;
        out.push(s);
        proof {
            assert forall|q: int| 0 <= q < i + 1 implies slots_view(out@)[q] == spec_slot(d@, q) by {
                if q < i {
                    assert(out@[q] == prev[q]);
                    assert(slots_view(prev)[q] == spec_slot(d@, q));
                }
            }
        }
        i = i + 1;
    }
    proof {
        assert(slots_view(out@) =~= spec_slots(d@, n as int));
    }
    out
}

/// The data commitment of a buffer.
pub open spec fn spec_comm(kind: HasherKind, d: Seq<u8>, n: int) -> Seq<u8> {
    spec_merkle_root(kind, spec_slots(d, n))
}

/// Replicates the sector in place and returns the layer commitments and the
/// prover's trees: `comm_d` commits to the buffer before, `comm_r` to the
/// replica after.
pub fn replicate(pp: &PublicParams, replica_id: &[u8], data: &mut Vec<u8>) -> (res: (Tau, ProverAux))
    requires
        pp.wf(),
        data_wf(old(data)@, pp.spec_nodes()),
        pp.spec_nodes() >= 1,
    ensures
        final(data)@ == spec_encoded(pp.graph, replica_id@, pp.sloth_iter as nat, old(data)@),
        data_wf(final(data)@, pp.spec_nodes()),
        res.0.comm_d@ == spec_comm(pp.graph.hasher, old(data)@, pp.spec_nodes()),
        res.0.comm_r@ == spec_comm(pp.graph.hasher, final(data)@, pp.spec_nodes()),
        res.1.tree_d.wf(),
        res.1.tree_r.wf(),
        res.1.tree_d.kind == pp.graph.hasher,
        res.1.tree_r.kind == pp.graph.hasher,
        res.1.tree_d.spec_leaves() == spec_slots(old(data)@, pp.spec_nodes()),
        res.1.tree_r.spec_leaves() == spec_slots(final(data)@, pp.spec_nodes()),
{
    let n = pp.graph.size();
    let leaves_d = data_slots(data, n);
    let tree_d = MerkleTree::build(pp.graph.hasher, leaves_d);
    vde_encode(pp, replica_id, data);
    let leaves_r = data_slots(data, n);
    let tree_r = MerkleTree::build(pp.graph.hasher, leaves_r);
    let comm_d = tree_d.root();
    let comm_r = tree_r.root();
    (Tau { comm_r, comm_d }, ProverAux { tree_d, tree_r })
}

/// Recovers the original sector from a replica.
pub fn extract_all(pp: &PublicParams, replica_id: &[u8], data: &Vec<u8>) -> (r: Vec<u8>)
    requires
        pp.wf(),
        data_wf(data@, pp.spec_nodes()),
    ensures
        r@ == spec_decoded(pp.graph, replica_id@, pp.sloth_iter as nat, data@),
        data_wf(r@, pp.spec_nodes()),
{
    vde_decode(pp, replica_id, data)
}

/// One opened node: its slot value and its Merkle opening.
pub struct DataProof {
    pub proof: Vec<(Vec<u8>, bool)>,
    pub data: Vec<u8>,
}

/// A layer proof: for every challenge, the opened replica node, its opened
/// parents, and the opened data node.
pub struct Proof {
    pub replica_nodes: Vec<DataProof>,
    pub replica_parents: Vec<Vec<(usize, DataProof)>>,
    pub nodes: Vec<DataProof>,
}

/// Public inputs of one layer.
pub struct PublicInputs {
    pub replica_id: Vec<u8>,
    pub challenges: Vec<usize>,
    pub tau: Option<Tau>,
}

/// The key recomputed from opened parent values, the challenged node's own
/// opening excluded.
pub open spec fn spec_opened_key_input(rid: Seq<u8>, parents: Seq<(usize, DataProof)>, c: int) -> Seq<u8>
    decreases parents.len(),
{
    if parents.len() == 0 {
        rid
    } else {
        spec_opened_key_input(rid, parents.drop_last(), c)
            + if parents.last().0 as int == c {
                Seq::empty()
            } else {
                parents.last().1.data@
            }
    }
}

/// All checks `verify` makes for one challenge: the three openings bind to
/// the layer commitments, the parent indices are the graph's parents of the
/// challenge, the opened values are field elements, and un-Sloth-ing the
/// opened replica node under the recomputed key gives the opened data node.
pub open spec fn spec_check_challenge(pp: PublicParams, rid: Seq<u8>, tau: Tau, c: usize,
    rn: DataProof, parents: Seq<(usize, DataProof)>, node: DataProof) -> bool {
    let kind = pp.graph.hasher;
    let key = spec_digest(kind, spec_opened_key_input(rid, parents, c as int));
    &&& (c as int) < pp.spec_nodes()
    &&& fr_valid(rn.data@)
    &&& fr_valid(node.data@)
    &&& crate::merkle::spec_path_fold(kind, rn.data@, crate::merkle::path_view(rn.proof@)) == tau.comm_r@
    &&& crate::merkle::spec_path_fold(kind, node.data@, crate::merkle::path_view(node.proof@)) == tau.comm_d@
    &&& parents.len() == pp.graph.spec_parents(c as int).len()
    &&& forall|q: int| 0 <= q < parents.len()
        ==> (#[trigger] parents[q]).0 == pp.graph.spec_parents(c as int)[q]
    &&& forall|q: int| 0 <= q < parents.len() ==> fr_valid((#[trigger] parents[q]).1.data@)
    &&& forall|q: int| 0 <= q < parents.len()
        ==> crate::merkle::spec_path_fold(kind, (#[trigger] parents[q]).1.data@,
            crate::merkle::path_view(parents[q].1.proof@)) == tau.comm_r@
    &&& spec_sloth_decode(le_value(key), le_value(rn.data@), pp.sloth_iter as nat)
        == le_value(node.data@)
}

/// What `verify` accepts: a commitment pair, one full challenge check per
/// challenge.
pub open spec fn spec_verify(pp: PublicParams, pub_inputs: PublicInputs, proof: Proof) -> bool {
    &&& pub_inputs.tau is Some
    &&& proof.replica_nodes@.len() == pub_inputs.challenges@.len()
    &&& proof.replica_parents@.len() == pub_inputs.challenges@.len()
    &&& proof.nodes@.len() == pub_inputs.challenges@.len()
    &&& forall|i: int| 0 <= i < pub_inputs.challenges@.len()
        ==> spec_check_challenge(pp, pub_inputs.replica_id@, pub_inputs.tau->0,
            #[trigger] pub_inputs.challenges@[i], proof.replica_nodes@[i],
            proof.replica_parents@[i]@, proof.nodes@[i])
}

/// Checks a layer proof against the public inputs; accepts exactly when
/// every challenge passes all its checks.
pub fn verify(pp: &PublicParams, pub_inputs: &PublicInputs, proof: &Proof) -> (ok: bool)
    requires
        pp.wf(),
    ensures
        ok == spec_verify(*pp, *pub_inputs, *proof),
{
    let tau = match &pub_inputs.tau {
        Some(t) => t,
        None => {
            return false;
        },
    };
    let count = pub_inputs.challenges.len();
    if proof.replica_nodes.len() != count || proof.replica_parents.len() != count
        || proof.nodes.len() != count {
        return false;
    }
    let mut i: usize = 0;
    while i < count
        invariant
            i <= count,
            pp.wf(),
            count == pub_inputs.challenges@.len(),
            proof.replica_nodes@.len() == count,
            proof.replica_parents@.len() == count,
            proof.nodes@.len() == count,
            pub_inputs.tau is Some,
            tau == pub_inputs.tau->0,
            forall|w: int| 0 <= w < i ==> spec_check_challenge(*pp, pub_inputs.replica_id@,
                pub_inputs.tau->0, #[trigger] pub_inputs.challenges@[w],
                proof.replica_nodes@[w], proof.replica_parents@[w]@, proof.nodes@[w]),
        decreases count - i,
    {
        let ok = check_challenge(pp, pub_inputs.replica_id.as_slice(), tau,
            pub_inputs.challenges[i], &proof.replica_nodes[i], &proof.replica_parents[i],
            &proof.nodes[i]);
        if !ok {
            return false;
        }
        i = i + 1;
    }
    true
}

/// Checks one challenge of a layer proof.
#[verifier::rlimit(100)]
fn check_challenge(pp: &PublicParams, rid: &[u8], tau: &Tau, c: usize, rn: &DataProof,
    parents: &Vec<(usize, DataProof)>, node: &DataProof) -> (ok: bool)
    requires
        pp.wf(),
    ensures
        ok == spec_check_challenge(*pp, rid@, *tau, c, *rn, parents@, *node),
{
    let kind = pp.graph.hasher;
    if c >= pp.graph.size() {
        return false;
    }
    if !crate::field::fr_check(rn.data.as_slice()) || !crate::field::fr_check(node.data.as_slice()) {
        return false;
    }
    if !crate::merkle::verify_path(kind, rn.data.as_slice(), &rn.proof, tau.comm_r.as_slice()) {
        return false;
    }
    if !crate::merkle::verify_path(kind, node.data.as_slice(), &node.proof, tau.comm_d.as_slice()) {
        return false;
    }
    let expected_parents = pp.graph.parents(c);
    if parents.len() != expected_parents.len() {
        return false;
    }
    let mut input: Vec<u8> = slice_to_vec(rid);
    let mut q: usize = 0;
    while q < parents.len()
        invariant
            q <= parents@.len(),
            pp.wf(),
            kind == pp.graph.hasher,
            parents@.len() == expected_parents@.len(),
            expected_parents@ == pp.graph.spec_parents(c as int),
            (c as int) < pp.spec_nodes(),
            input@ == spec_opened_key_input(rid@, parents@.subrange(0, q as int), c as int),
            forall|w: int| 0 <= w < q ==> (#[trigger] parents@[w]).0 == expected_parents@[w],
            forall|w: int| 0 <= w < q ==> fr_valid((#[trigger] parents@[w]).1.data@),
            forall|w: int| 0 <= w < q
                ==> crate::merkle::spec_path_fold(pp.graph.hasher, (#[trigger] parents@[w]).1.data@,
                    crate::merkle::path_view(parents@[w].1.proof@)) == tau.comm_r@,
        decreases parents@.len() - q,
    {
        let (p, dp) = &parents[q];
        if *p != expected_parents[q] {
            return false;
        }
        if !crate::field::fr_check(dp.data.as_slice()) {
            return false;
        }
        if !crate::merkle::verify_path(kind, dp.data.as_slice(), &dp.proof, tau.comm_r.as_slice()) {
            return false;
        }
        proof {
            assert(parents@.subrange(0, q + 1).drop_last() =~= parents@.subrange(0, q as int));
        }
        if *p != c {
            append_slice(&mut input, dp.data.as_slice());
        } else {
            proof {
                assert(input@ + Seq::<u8>::empty() =~= input@);
            }
        }
        proof {
            assert(parents@.subrange(0, q + 1).last() == parents@[q as int]);
            assert(input@ == spec_opened_key_input(rid@, parents@.subrange(0, q + 1), c as int));
        }
        q = q + 1;
    }
    proof {
        assert(parents@.subrange(0, parents@.len() as int) =~= parents@);
    }
    let key = digest(kind, input.as_slice());
    let decoded = sloth_decode(key.as_slice(), rn.data.as_slice(), pp.sloth_iter);
    let ok = crate::merkle::eq_bytes(decoded.as_slice(), node.data.as_slice());
    proof {
        crate::field::lemma_le_value_inj(decoded@, node.data@);
        assert(key@ == spec_digest(kind, spec_opened_key_input(rid@, parents@, c as int)));
        assert(le_value(decoded@)
            == spec_sloth_decode(le_value(key@), le_value(rn.data@), pp.sloth_iter as nat));
        assert(ok == (le_value(decoded@) == le_value(node.data@)));
    }
    ok
}

/// Builds the layer proof for the given challenges from the prover's trees.
pub fn prove(pp: &PublicParams, pub_inputs: &PublicInputs, replica: &Vec<u8>, aux: &ProverAux) -> (proof: Proof)
    requires
        pp.wf(),
        data_wf(replica@, pp.spec_nodes()),
        aux.tree_r.wf(),
        aux.tree_d.wf(),
        aux.tree_r.spec_leaves() == spec_slots(replica@, pp.spec_nodes()),
        aux.tree_d.spec_leaves().len() == pp.spec_nodes(),
        aux.tree_r.kind == pp.graph.hasher,
        aux.tree_d.kind == pp.graph.hasher,
        forall|i: int| 0 <= i < pub_inputs.challenges@.len()
            ==> (#[trigger] pub_inputs.challenges@[i] as int) < pp.spec_nodes(),
    ensures
        proof.replica_nodes@.len() == pub_inputs.challenges@.len(),
        proof.replica_parents@.len() == pub_inputs.challenges@.len(),
        proof.nodes@.len() == pub_inputs.challenges@.len(),
        forall|i: int| 0 <= i < pub_inputs.challenges@.len() ==> {
            let c = #[trigger] pub_inputs.challenges@[i];
            let kind = pp.graph.hasher;
            &&& proof.replica_nodes@[i].data@ == spec_slot(replica@, c as int)
            &&& proof.nodes@[i].data@ == aux.tree_d.spec_leaves()[c as int]
            &&& crate::merkle::spec_path_fold(kind, proof.replica_nodes@[i].data@,
                crate::merkle::path_view(proof.replica_nodes@[i].proof@)) == aux.tree_r.spec_root()
            &&& crate::merkle::spec_path_fold(kind, proof.nodes@[i].data@,
                crate::merkle::path_view(proof.nodes@[i].proof@)) == aux.tree_d.spec_root()
            &&& proof.replica_parents@[i]@.len() == pp.graph.spec_parents(c as int).len()
            &&& forall|q: int| 0 <= q < proof.replica_parents@[i]@.len() ==> {
                &&& (#[trigger] proof.replica_parents@[i]@[q]).0
                    == pp.graph.spec_parents(c as int)[q]
                &&& proof.replica_parents@[i]@[q].1.data@
                    == spec_slot(replica@, proof.replica_parents@[i]@[q].0 as int)
                &&& crate::merkle::spec_path_fold(kind, proof.replica_parents@[i]@[q].1.data@,
                    crate::merkle::path_view(proof.replica_parents@[i]@[q].1.proof@))
                    == aux.tree_r.spec_root()
            }
        },
{
    let n = pp.graph.size();
    let mut replica_nodes: Vec<DataProof> = Vec::new();
    let mut replica_parents: Vec<Vec<(usize, DataProof)>> = Vec::new();
    let mut nodes: Vec<DataProof> = Vec::new();
    let count = pub_inputs.challenges.len();
    let mut i: usize = 0;
    while i < count
        invariant
            i <= count,
            pp.wf(),
            n == pp.spec_nodes(),
            data_wf(replica@, n as int),
            aux.tree_r.wf(),
            aux.tree_d.wf(),
            aux.tree_r.spec_leaves() == spec_slots(replica@, n as int),
            aux.tree_d.spec_leaves().len() == n,
            aux.tree_r.kind == pp.graph.hasher,
            aux.tree_d.kind == pp.graph.hasher,
            count == pub_inputs.challenges@.len(),
            forall|w: int| 0 <= w < count
                ==> (#[trigger] pub_inputs.challenges@[w] as int) < n,
            replica_nodes@.len() == i,
            replica_parents@.len() == i,
            nodes@.len() == i,
            forall|w: int| 0 <= w < i ==> {
                let c = #[trigger] pub_inputs.challenges@[w];
                let kind = pp.graph.hasher;
                &&& replica_nodes@[w].data@ == spec_slot(replica@, c as int)
                &&& nodes@[w].data@ == aux.tree_d.spec_leaves()[c as int]
                &&& crate::merkle::spec_path_fold(kind, replica_nodes@[w].data@,
                    crate::merkle::path_view(replica_nodes@[w].proof@)) == aux.tree_r.spec_root()
                &&& crate::merkle::spec_path_fold(kind, nodes@[w].data@,
                    crate::merkle::path_view(nodes@[w].proof@)) == aux.tree_d.spec_root()
                &&& replica_parents@[w]@.len() == pp.graph.spec_parents(c as int).len()
                &&& forall|q: int| 0 <= q < replica_parents@[w]@.len() ==> {
                    &&& (#[trigger] replica_parents@[w]@[q]).0
                        == pp.graph.spec_parents(c as int)[q]
                    &&& replica_parents@[w]@[q].1.data@
                        == spec_slot(replica@, replica_parents@[w]@[q].0 as int)
                    &&& crate::merkle::spec_path_fold(kind, replica_parents@[w]@[q].1.data@,
                        crate::merkle::path_view(replica_parents@[w]@[q].1.proof@))
                        == aux.tree_r.spec_root()
                }
            },
        decreases count - i,
    {
        let c = pub_inputs.challenges[i];
        let rn = DataProof {
            data: get_slot(replica, n, c),
            proof: aux.tree_r.gen_path(c),
        };
        let parents = pp.graph.parents(c);
        proof {
            crate::zigzag_graph::lemma_spec_parents_in_range(pp.graph, c as int);
        }
        let mut parent_proofs: Vec<(usize, DataProof)> = Vec::new();
        let mut q: usize = 0;
        while q < parents.len()
            invariant
                q <= parents@.len(),
                pp.wf(),
                n == pp.spec_nodes(),
                data_wf(replica@, n as int),
                aux.tree_r.wf(),
                aux.tree_r.spec_leaves() == spec_slots(replica@, n as int),
                (c as int) < n,
                parents@ == pp.graph.spec_parents(c as int),
                forall|w: int| 0 <= w < parents@.len()
                    ==> (#[trigger] parents@[w] as int) < n,
                aux.tree_r.kind == pp.graph.hasher,
                parent_proofs@.len() == q,
                forall|w: int| 0 <= w < q ==> {
                    &&& (#[trigger] parent_proofs@[w]).0 == parents@[w]
                    &&& parent_proofs@[w].1.data@ == spec_slot(replica@, parents@[w] as int)
                    &&& crate::merkle::spec_path_fold(pp.graph.hasher, parent_proofs@[w].1.data@,
                        crate::merkle::path_view(parent_proofs@[w].1.proof@))
                        == aux.tree_r.spec_root()
                },
            decreases parents@.len() - q,
        {
            let p = parents[q];
            let dp = DataProof {
                data: get_slot(replica, n, p),
                proof: aux.tree_r.gen_path(p),
            };
            parent_proofs.push((p, dp));
            q = q + 1;
        }
        let node = DataProof {
            data: tree_leaf(&aux.tree_d, c),
            proof: aux.tree_d.gen_path(c),
        };
        replica_nodes.push(rn);
        replica_parents.push(parent_proofs);
        nodes.push(node);
        i = i + 1;
    }
    Proof { replica_nodes, replica_parents, nodes }
}

/// Copies leaf `i` of a tree.
fn tree_leaf(t: &MerkleTree, i: usize) -> (r: Vec<u8>)
    requires
        t.wf(),
        (i as int) < t.spec_leaves().len(),
    ensures
        r@ == t.spec_leaves()[i as int],
{
    slice_to_vec(t.levels[0][i].as_slice())
}

/// Decode steps keep the buffer well-formed.
proof fn lemma_decode_from_wf(g: ZigZagGraph, rid: Seq<u8>, iters: nat, d: Seq<u8>, k: int)
    requires
        g.wf(),
        data_wf(d, g.spec_size()),
        0 <= k <= g.spec_size(),
    ensures
        data_wf(spec_decode_from(g, rid, iters, d, k), g.spec_size()),
    decreases g.spec_size() - k,
{
    let n = g.spec_size();
    if k < n {
        lemma_decode_from_wf(g, rid, iters, d, k + 1);
        let prev = spec_decode_from(g, rid, iters, d, k + 1);
        let node = spec_trav(g, k);
        let parents = g.spec_parents(node);
        let key = spec_key(g.hasher, rid, parents, prev, node);
        lemma_key_valid(g.hasher, rid, parents, prev, node);
        crate::field::lemma_sloth_dec_range_pub(le_value(key), le_value(spec_slot(prev, node)), iters);
        let newv = spec_sloth_decode(le_value(key), le_value(spec_slot(prev, node)), iters);
        lemma_fr_valid_of_value(newv);
        lemma_set_slot_frame(prev, n, node, bytes_of_value(newv, 32));
        let next = spec_decode_from(g, rid, iters, d, k);
        assert(next == spec_set_slot(prev, node, bytes_of_value(newv, 32)));
        assert forall|i: int| 0 <= i < n implies fr_valid(#[trigger] spec_slot(next, i)) by {
            if i == node {
                assert(spec_slot(next, node) == bytes_of_value(newv, 32));
            } else {
                assert(spec_slot(next, i) == spec_slot(prev, i));
            }
        }
    }
}


/// The traversal step at which `node` is encoded.
pub open spec fn spec_pos(g: ZigZagGraph, node: int) -> int {
    if g.reversed {
        g.spec_size() - 1 - node
    } else {
        node
    }
}

/// A slot never changes after its own encoding step.
proof fn lemma_slot_stable(g: ZigZagGraph, rid: Seq<u8>, iters: nat, d: Seq<u8>, p: int, a: int, b: int)
    requires
        g.wf(),
        data_wf(d, g.spec_size()),
        0 <= p < g.spec_size(),
        spec_pos(g, p) < a <= b <= g.spec_size(),
    ensures
        spec_slot(spec_encode_upto(g, rid, iters, d, b), p)
            == spec_slot(spec_encode_upto(g, rid, iters, d, a), p),
    decreases b - a,
{
    let n = g.spec_size();
    if b > a {
        lemma_slot_stable(g, rid, iters, d, p, a, b - 1);
        let prev = spec_encode_upto(g, rid, iters, d, b - 1);
        let node = spec_trav(g, b - 1);
        assert(node != p);
        lemma_encode_upto_wf(g, rid, iters, d, b - 1);
        let parents = g.spec_parents(node);
        let key = spec_key(g.hasher, rid, parents, prev, node);
        lemma_key_valid(g.hasher, rid, parents, prev, node);
        crate::field::lemma_sloth_enc_range_pub(le_value(key), le_value(spec_slot(prev, node)), iters);
        let newv = spec_sloth_encode(le_value(key), le_value(spec_slot(prev, node)), iters);
        lemma_fr_valid_of_value(newv);
        lemma_set_slot_frame(prev, n, node, bytes_of_value(newv, 32));
        assert(spec_encode_upto(g, rid, iters, d, b)
            == spec_set_slot(prev, node, bytes_of_value(newv, 32)));
        assert(spec_slot(spec_encode_upto(g, rid, iters, d, b), p) == spec_slot(prev, p));
    }
}

/// Opened parent values that mirror the buffer give the same key input as
/// the buffer itself.
proof fn lemma_opened_key_input(rid: Seq<u8>, parents: Seq<usize>, opened: Seq<(usize, DataProof)>,
    d: Seq<u8>, c: int)
    requires
        opened.len() == parents.len(),
        forall|q: int| 0 <= q < parents.len() ==> (#[trigger] opened[q]).0 == parents[q],
        forall|q: int| 0 <= q < parents.len()
            ==> (#[trigger] opened[q]).1.data@ == spec_slot(d, parents[q] as int),
    ensures
        spec_opened_key_input(rid, opened, c) == spec_key_input(rid, parents, d, c),
    decreases parents.len(),
{
    if parents.len() > 0 {
        lemma_opened_key_input(rid, parents.drop_last(), opened.drop_last(), d, c);
        assert(opened.last() == opened[opened.len() - 1]);
        assert(parents.last() == parents[parents.len() - 1]);
    }
}

/// A proof whose openings come straight from the replica of `d0`: the data
/// and parent values are the true slots, the commitments are the true roots,
/// and every opening folds to its root.
#[verifier::opaque]
pub open spec fn proof_opens(pp: PublicParams, rid: Seq<u8>, challenges: Seq<usize>, tau: Tau,
    proof: Proof, d0: Seq<u8>) -> bool {
    let g = pp.graph;
    let kind = g.hasher;
    let n = pp.spec_nodes();
    let iters = pp.sloth_iter as nat;
    let enc = spec_encoded(g, rid, iters, d0);
    &&& tau.comm_d@ == spec_comm(kind, d0, n)
    &&& tau.comm_r@ == spec_comm(kind, enc, n)
    &&& proof.replica_nodes@.len() == challenges.len()
    &&& proof.replica_parents@.len() == challenges.len()
    &&& proof.nodes@.len() == challenges.len()
    &&& forall|i: int| 0 <= i < challenges.len()
        ==> 0 <= (#[trigger] challenges[i] as int) < n
    &&& forall|i: int| 0 <= i < challenges.len() ==> {
        let c = #[trigger] challenges[i];
        &&& proof.replica_nodes@[i].data@ == spec_slot(enc, c as int)
        &&& proof.nodes@[i].data@ == spec_slot(d0, c as int)
        &&& crate::merkle::spec_path_fold(kind, proof.replica_nodes@[i].data@,
            crate::merkle::path_view(proof.replica_nodes@[i].proof@)) == tau.comm_r@
        &&& crate::merkle::spec_path_fold(kind, proof.nodes@[i].data@,
            crate::merkle::path_view(proof.nodes@[i].proof@)) == tau.comm_d@
        &&& proof.replica_parents@[i]@.len() == pp.graph.spec_parents(c as int).len()
        &&& forall|q: int| 0 <= q < proof.replica_parents@[i]@.len() ==> {
            &&& (#[trigger] proof.replica_parents@[i]@[q]).0
                == pp.graph.spec_parents(c as int)[q]
            &&& proof.replica_parents@[i]@[q].1.data@
                == spec_slot(enc, proof.replica_parents@[i]@[q].0 as int)
            &&& crate::merkle::spec_path_fold(kind, proof.replica_parents@[i]@[q].1.data@,
                crate::merkle::path_view(proof.replica_parents@[i]@[q].1.proof@))
                == tau.comm_r@
        }
    }
}

/// The opening predicate, written out.
pub open spec fn proof_opens_body(pp: PublicParams, rid: Seq<u8>, challenges: Seq<usize>,
    tau: Tau, proof: Proof, d0: Seq<u8>) -> bool {
    let g = pp.graph;
    let kind = g.hasher;
    let n = pp.spec_nodes();
    let iters = pp.sloth_iter as nat;
    let enc = spec_encoded(g, rid, iters, d0);
    &&& tau.comm_d@ == spec_comm(kind, d0, n)
    &&& tau.comm_r@ == spec_comm(kind, enc, n)
    &&& proof.replica_nodes@.len() == challenges.len()
    &&& proof.replica_parents@.len() == challenges.len()
    &&& proof.nodes@.len() == challenges.len()
    &&& forall|i: int| 0 <= i < challenges.len()
        ==> 0 <= (#[trigger] challenges[i] as int) < n
    &&& forall|i: int| 0 <= i < challenges.len() ==> {
        let c = #[trigger] challenges[i];
        &&& proof.replica_nodes@[i].data@ == spec_slot(enc, c as int)
        &&& proof.nodes@[i].data@ == spec_slot(d0, c as int)
        &&& crate::merkle::spec_path_fold(kind, proof.replica_nodes@[i].data@,
            crate::merkle::path_view(proof.replica_nodes@[i].proof@)) == tau.comm_r@
        &&& crate::merkle::spec_path_fold(kind, proof.nodes@[i].data@,
            crate::merkle::path_view(proof.nodes@[i].proof@)) == tau.comm_d@
        &&& proof.replica_parents@[i]@.len() == pp.graph.spec_parents(c as int).len()
        &&& forall|q: int| 0 <= q < proof.replica_parents@[i]@.len() ==> {
            &&& (#[trigger] proof.replica_parents@[i]@[q]).0
                == pp.graph.spec_parents(c as int)[q]
            &&& proof.replica_parents@[i]@[q].1.data@
                == spec_slot(enc, proof.replica_parents@[i]@[q].0 as int)
            &&& crate::merkle::spec_path_fold(kind, proof.replica_parents@[i]@[q].1.data@,
                crate::merkle::path_view(proof.replica_parents@[i]@[q].1.proof@))
                == tau.comm_r@
        }
    }
}

/// What `prove` built from a replica's trees opens the layer: the bridge
/// from the prover's per-tree facts to the opening predicate.
pub proof fn lemma_opens_of_prove(pp: PublicParams, rid: Seq<u8>, challenges: Seq<usize>,
    tau: Tau, proof: Proof, d0: Seq<u8>, enc: Seq<u8>, tree_d: MerkleTree, tree_r: MerkleTree)
    requires
        enc == spec_encoded(pp.graph, rid, pp.sloth_iter as nat, d0),
        tree_r.wf(),
        tree_d.wf(),
        tree_r.kind == pp.graph.hasher,
        tree_d.kind == pp.graph.hasher,
        tree_r.spec_leaves() == spec_slots(enc, pp.spec_nodes()),
        tree_d.spec_leaves() == spec_slots(d0, pp.spec_nodes()),
        tau.comm_d@ == spec_comm(pp.graph.hasher, d0, pp.spec_nodes()),
        tau.comm_r@ == spec_comm(pp.graph.hasher, enc, pp.spec_nodes()),
        proof.replica_nodes@.len() == challenges.len(),
        proof.replica_parents@.len() == challenges.len(),
        proof.nodes@.len() == challenges.len(),
        forall|i: int| 0 <= i < challenges.len()
            ==> 0 <= (#[trigger] challenges[i] as int) < pp.spec_nodes(),
        forall|i: int| 0 <= i < challenges.len() ==> {
            let c = #[trigger] challenges[i];
            let kind = pp.graph.hasher;
            &&& proof.replica_nodes@[i].data@ == spec_slot(enc, c as int)
            &&& proof.nodes@[i].data@ == tree_d.spec_leaves()[c as int]
            &&& crate::merkle::spec_path_fold(kind, proof.replica_nodes@[i].data@,
                crate::merkle::path_view(proof.replica_nodes@[i].proof@)) == tree_r.spec_root()
            &&& crate::merkle::spec_path_fold(kind, proof.nodes@[i].data@,
                crate::merkle::path_view(proof.nodes@[i].proof@)) == tree_d.spec_root()
            &&& proof.replica_parents@[i]@.len() == pp.graph.spec_parents(c as int).len()
            &&& forall|q: int| 0 <= q < proof.replica_parents@[i]@.len() ==> {
                &&& (#[trigger] proof.replica_parents@[i]@[q]).0
                    == pp.graph.spec_parents(c as int)[q]
                &&& proof.replica_parents@[i]@[q].1.data@
                    == spec_slot(enc, proof.replica_parents@[i]@[q].0 as int)
                &&& crate::merkle::spec_path_fold(kind, proof.replica_parents@[i]@[q].1.data@,
                    crate::merkle::path_view(proof.replica_parents@[i]@[q].1.proof@))
                    == tree_r.spec_root()
            }
        },
    ensures
        proof_opens(pp, rid, challenges, tau, proof, d0),
{
    reveal(proof_opens);
    crate::merkle::lemma_tree_root(tree_r);
    crate::merkle::lemma_tree_root(tree_d);
    let n = pp.spec_nodes();
    assert forall|i: int| 0 <= i < challenges.len() implies
        (#[trigger] proof.nodes@[i]).data@ == spec_slot(d0, challenges[i] as int) by {
        assert(tree_d.spec_leaves()[challenges[i] as int] == spec_slot(d0, challenges[i] as int));
    }
}

/// The opening predicate reads the commitment pair only through its views.
pub proof fn lemma_opens_views(pp: PublicParams, rid: Seq<u8>, challenges: Seq<usize>, t1: Tau,
    t2: Tau, proof: Proof, d0: Seq<u8>)
    requires
        proof_opens(pp, rid, challenges, t1, proof, d0),
        t1.comm_r@ == t2.comm_r@,
        t1.comm_d@ == t2.comm_d@,
    ensures
        proof_opens(pp, rid, challenges, t2, proof, d0),
{
    reveal(proof_opens);
}

/// Completeness of one layer: a proof whose openings come from the actual
/// replica of `d0` and whose commitments are the actual roots passes
/// verification.
pub proof fn lemma_prove_verifies(pp: PublicParams, pub_inputs: PublicInputs, proof: Proof, d0: Seq<u8>)
    requires
        pp.wf(),
        data_wf(d0, pp.spec_nodes()),
        pub_inputs.tau is Some,
        proof_opens(pp, pub_inputs.replica_id@, pub_inputs.challenges@, pub_inputs.tau->0, proof,
            d0),
    ensures
        spec_verify(pp, pub_inputs, proof),
{
    let g = pp.graph;
    let kind = g.hasher;
    let n = pp.spec_nodes();
    let rid = pub_inputs.replica_id@;
    let iters = pp.sloth_iter as nat;
    let enc = spec_encoded(g, rid, iters, d0);
    let tau = pub_inputs.tau->0;
    reveal(proof_opens);
    lemma_encode_upto_wf(g, rid, iters, d0, n);
    assert forall|i: int| 0 <= i < pub_inputs.challenges@.len() implies
        spec_check_challenge(pp, rid, tau, #[trigger] pub_inputs.challenges@[i],
            proof.replica_nodes@[i], proof.replica_parents@[i]@, proof.nodes@[i]) by {
        let c = pub_inputs.challenges@[i];
        let cc = c as int;
        let rn = proof.replica_nodes@[i];
        let node = proof.nodes@[i];
        let opened = proof.replica_parents@[i]@;
        let parents = g.spec_parents(cc);
        let k = spec_pos(g, cc);
        assert(spec_trav(g, k) == cc);
        crate::zigzag_graph::lemma_spec_parents_in_range(g, cc);
        crate::zigzag_graph::lemma_spec_parents_monotone(g, cc);
        // The opened values are valid field elements.
        assert(fr_valid(rn.data@));
        assert(fr_valid(node.data@));
        assert forall|q: int| 0 <= q < opened.len() implies fr_valid((#[trigger] opened[q]).1.data@) by {
            assert(opened[q].1.data@ == spec_slot(enc, parents[q] as int));
        }
        // The verifier's key equals the encoding key of the challenged node.
        lemma_opened_key_input(rid, parents, opened, enc, cc);
        let prev = spec_encode_upto(g, rid, iters, d0, k);
        lemma_encode_upto_wf(g, rid, iters, d0, k);
        assert forall|q: int| #![trigger parents[q]] 0 <= q < parents.len()
            && parents[q] as int != cc
            implies spec_slot(enc, parents[q] as int) == spec_slot(prev, parents[q] as int) by {
            let p = parents[q] as int;
            // A strict parent is encoded before the challenged node, and its
            // slot never changes afterwards.
            assert(spec_pos(g, p) < k);
            lemma_slot_stable(g, rid, iters, d0, p, k, n);
        }
        lemma_key_frame(rid, parents, enc, prev, cc);
        let key = spec_key(kind, rid, parents, prev, cc);
        lemma_key_valid(kind, rid, parents, prev, cc);
        // The opened replica node is the Sloth encoding of the data node.
        crate::field::lemma_sloth_enc_range_pub(le_value(key), le_value(spec_slot(prev, cc)), iters);
        let newv = spec_sloth_encode(le_value(key), le_value(spec_slot(prev, cc)), iters);
        lemma_fr_valid_of_value(newv);
        lemma_set_slot_frame(prev, n, cc, bytes_of_value(newv, 32));
        assert(spec_encode_upto(g, rid, iters, d0, k + 1)
            == spec_set_slot(prev, cc, bytes_of_value(newv, 32)));
        lemma_slot_stable(g, rid, iters, d0, cc, k + 1, n);
        assert(spec_slot(enc, cc) == bytes_of_value(newv, 32));
        assert(le_value(rn.data@) == newv);
        crate::field::lemma_sloth_round_trip(le_value(key), le_value(spec_slot(prev, cc)), iters);
        // Before its own step the challenged slot still holds the data.
        assert(spec_slot(prev, spec_trav(g, k)) == spec_slot(d0, spec_trav(g, k)));
        assert(spec_sloth_decode(le_value(key), le_value(rn.data@), iters)
            == le_value(spec_slot(d0, cc)));
    }
}

} // verus!
