//! Merkle commitments over 32-byte slots.
//!
//! A tree keeps every level, leaves first; an odd node at the end of a level
//! is paired with itself. Openings carry the sibling of each level and on
//! which side the running node sits.

use vstd::prelude::*;
use crate::hasher::{HasherKind, spec_digest, digest};
use crate::field::slice_to_vec;

verus! {

/// The view of a vector of slots.
pub open spec fn slots_view(v: Seq<Vec<u8>>) -> Seq<Seq<u8>> {
    v.map_values(|s: Vec<u8>| s@)
}

/// The parent digest of two child nodes.
pub open spec fn spec_combine(kind: HasherKind, a: Seq<u8>, b: Seq<u8>) -> Seq<u8> {
    spec_digest(kind, a + b)
}

/// One level up: adjacent pairs are combined; a trailing odd node pairs with
/// itself.
pub open spec fn spec_level_up(kind: HasherKind, level: Seq<Seq<u8>>) -> Seq<Seq<u8>> {
    Seq::new((level.len() + 1) / 2, |i: int|
        if 2 * i + 1 < level.len() {
            spec_combine(kind, level[2 * i], level[2 * i + 1])
        } else {
            spec_combine(kind, level[2 * i], level[2 * i])
        })
}

/// The Merkle root over a non-empty level of slots.
pub open spec fn spec_merkle_root(kind: HasherKind, level: Seq<Seq<u8>>) -> Seq<u8>
    decreases level.len(),
{
    if level.len() <= 1 {
        if level.len() == 1 {
            level[0]
        } else {
            Seq::empty()
        }
    } else {
        spec_merkle_root(kind, spec_level_up(kind, level))
    }
}

/// An opening: the recomputed node after folding a path of siblings onto a
/// leaf. Each path element carries the sibling and whether the running node
/// is the left child.
pub open spec fn spec_path_fold(kind: HasherKind, leaf: Seq<u8>, path: Seq<(Seq<u8>, bool)>) -> Seq<u8>
    decreases path.len(),
{
    if path.len() == 0 {
        leaf
    } else {
        let prev = spec_path_fold(kind, leaf, path.drop_last());
        let (sib, is_left) = path.last();
        if is_left {
            spec_combine(kind, prev, sib)
        } else {
            spec_combine(kind, sib, prev)
        }
    }
}

/// A Merkle tree: all levels, leaves first, down to the single root.
pub struct MerkleTree {
    /// Digest backend.
    pub kind: HasherKind,
    /// `levels[0]` are the leaves; the last level is the root alone.
    pub levels: Vec<Vec<Vec<u8>>>,
}

impl MerkleTree {
    /// Each level is the combination of the one below, and the top level is
    /// a single node.
    pub open spec fn wf(self) -> bool {
        &&& self.levels@.len() >= 1
        &&& self.levels@[0]@.len() >= 1
        &&& self.levels@.last()@.len() == 1
        &&& forall|l: int| 0 <= l < self.levels@.len() - 1
            ==> slots_view(#[trigger] self.levels@[l + 1]@) == spec_level_up(self.kind, slots_view(self.levels@[l]@))
        &&& forall|l: int| 0 <= l < self.levels@.len() - 1 ==> #[trigger] self.levels@[l]@.len() >= 2
    }

    /// The leaves this tree commits to.
    pub open spec fn spec_leaves(self) -> Seq<Seq<u8>> {
        slots_view(self.levels@[0]@)
    }

    /// The root slot.
    pub open spec fn spec_root(self) -> Seq<u8> {
        slots_view(self.levels@.last()@)[0]
    }

    /// Builds the tree over the given leaf slots.
    pub fn build(kind: HasherKind, leaves: Vec<Vec<u8>>) -> (t: MerkleTree)
        requires
            1 <= leaves@.len() <= 0x1000_0000,
        ensures
            t.wf(),
            t.kind == kind,
            t.spec_leaves() == slots_view(leaves@),
            t.spec_root() == spec_merkle_root(kind, slots_view(leaves@)),
    {
        let ghost orig = leaves@;
        let mut levels: Vec<Vec<Vec<u8>>> = Vec::new();
        levels.push(leaves);
        while levels[levels.len() - 1].len() > 1
            invariant
                levels@.len() >= 1,
                levels@[0]@ == orig,
                1 <= orig.len() <= 0x1000_0000,
                levels@.last()@.len() >= 1,
                levels@.last()@.len() <= 0x1000_0000,
                forall|l: int| 0 <= l < levels@.len() - 1
                    ==> slots_view(#[trigger] levels@[l + 1]@) == spec_level_up(kind, slots_view(levels@[l]@)),
                forall|l: int| 0 <= l < levels@.len() - 1 ==> #[trigger] levels@[l]@.len() >= 2,
                spec_merkle_root(kind, slots_view(levels@.last()@))
                    == spec_merkle_root(kind, slots_view(orig)),
            decreases levels@.last()@.len(),
        {
            let cur = levels.len() - 1;
            let next = level_up_exec(kind, &levels[cur]);
            proof {
                assert((levels@[cur as int]@.len() + 1) / 2 < levels@[cur as int]@.len())
                    by (nonlinear_arith)
                    requires levels@[cur as int]@.len() >= 2;
            }
            levels.push(next);
        }
        proof {
            assert(levels@.last()@.len() == 1);
        }
        MerkleTree { kind, levels }
    }

    /// Returns the root commitment.
    pub fn root(&self) -> (r: Vec<u8>)
        requires
            self.wf(),
        ensures
            r@ == self.spec_root(),
            r@ == spec_merkle_root(self.kind, self.spec_leaves()),
    {
        proof {
            lemma_root_of_levels(*self, 0);
        }
        let last = self.levels.len() - 1;
        slice_to_vec(self.levels[last][0].as_slice())
    }

    /// Produces the opening of leaf `index`: one sibling per level, bottom
    /// up, with the side the running node sits on. Folding the opening onto
    /// the leaf reproduces the root, so `verify_path` accepts it.
    pub fn gen_path(&self, index: usize) -> (p: Vec<(Vec<u8>, bool)>)
        requires
            self.wf(),
            index < self.spec_leaves().len(),
        ensures
            p@.len() == self.levels@.len() - 1,
            spec_path_fold(self.kind, self.spec_leaves()[index as int], path_view(p@))
                == self.spec_root(),
    {
        let mut path: Vec<(Vec<u8>, bool)> = Vec::new();
        let mut idx: usize = index;
        let mut l: usize = 0;
        proof {
            assert(path_view(path@) =~= Seq::<(Seq<u8>, bool)>::empty());
        }
        while l < self.levels.len() - 1
            invariant
                self.wf(),
                index < self.spec_leaves().len(),
                l < self.levels@.len(),
                idx < self.levels@[l as int]@.len(),
                path@.len() == l,
                spec_path_fold(self.kind, self.spec_leaves()[index as int], path_view(path@))
                    == slots_view(self.levels@[l as int]@)[idx as int],
            decreases self.levels@.len() - l,
        {
            let level_len = self.levels[l].len();
            let is_left = idx % 2 == 0;
            let sib_idx = if is_left {
                if idx + 1 < level_len { idx + 1 } else { idx }
            } else {
                idx - 1
            };
            let sib = slice_to_vec(self.levels[l][sib_idx].as_slice());
            let ghost prev_path = path@;
            let ghost cur = slots_view(self.levels@[l as int]@)[idx as int];
            path.push((sib, is_left));
            proof {
                let lv = slots_view(self.levels@[l as int]@);
                let up = spec_level_up(self.kind, lv);
                assert(slots_view(self.levels@[l + 1]@) == up);
                vstd::arithmetic::div_mod::lemma_fundamental_div_mod(idx as int, 2);
                vstd::arithmetic::div_mod::lemma_mod_bound(idx as int, 2);
                assert(idx as int / 2 < up.len()) by (nonlinear_arith)
                    requires up.len() == (lv.len() + 1) / 2 && idx < lv.len();
                // The next level's node at idx / 2 combines the running node
                // with the recorded sibling, on the recorded side.
                let half = idx as int / 2;
                assert(path_view(path@) =~= path_view(prev_path).push((sib@, is_left)));
                assert(path_view(path@).drop_last() =~= path_view(prev_path));
                if is_left {
                    assert(2 * half == idx);
                    assert(up[half] == if 2 * half + 1 < lv.len() {
                        spec_combine(self.kind, lv[2 * half], lv[2 * half + 1])
                    } else {
                        spec_combine(self.kind, lv[2 * half], lv[2 * half])
                    });
                    assert(spec_path_fold(self.kind, self.spec_leaves()[index as int],
                        path_view(path@)) == spec_combine(self.kind, cur, sib@));
                } else {
                    assert(2 * half + 1 == idx);
                    assert(up[half] == spec_combine(self.kind, lv[2 * half], lv[idx as int]));
                    assert(sib@ == lv[2 * half]);
                    assert(spec_path_fold(self.kind, self.spec_leaves()[index as int],
                        path_view(path@)) == spec_combine(self.kind, sib@, cur));
                }
            }
            idx = idx / 2;
            l = l + 1;
        }
        proof {
            assert(l == self.levels@.len() - 1);
            assert(self.levels@[l as int]@.len() == 1);
            assert(idx == 0);
            assert(slots_view(self.levels@[l as int]@)[0] == self.spec_root());
        }
        path
    }

    /// How many leaves the tree has.
    pub fn leaf_count(&self) -> (n: usize)
        requires
            self.wf(),
        ensures
            n == self.spec_leaves().len(),
    {
        self.levels[0].len()
    }
}

/// One level of tree construction.
#[verifier::rlimit(50)]
fn level_up_exec(kind: HasherKind, level: &Vec<Vec<u8>>) -> (next: Vec<Vec<u8>>)
    requires
        2 <= level@.len() <= 0x1000_0000,
    ensures
        slots_view(next@) == spec_level_up(kind, slots_view(level@)),
        next@.len() == (level@.len() + 1) / 2,
{
    let this_len = level.len();
    let mut next: Vec<Vec<u8>> = Vec::new();
    let mut i: usize = 0;
    while 2 * i < this_len
        invariant
            this_len == level@.len() >= 2,
            this_len <= 0x1000_0000,
            i <= (this_len + 1) / 2,
            next@.len() == i,
            forall|q: int| 0 <= q < i
                ==> slots_view(next@)[q] == spec_level_up(kind, slots_view(level@))[q],
        decreases this_len + 1 - 2 * i,
    {
        proof {
            assert(i + 1 <= (this_len + 1) / 2) by (nonlinear_arith)
                requires 2 * i < this_len;
        }
        let mut input = slice_to_vec(level[2 * i].as_slice());
        if 2 * i + 1 < this_len {
            append_slice(&mut input, level[2 * i + 1].as_slice());
            proof {
                assert(input@ == slots_view(level@)[2 * i as int] + slots_view(level@)[2 * i + 1]);
            }
        } else {
            append_slice(&mut input, level[2 * i].as_slice());
            proof {
                assert(input@ == slots_view(level@)[2 * i as int] + slots_view(level@)[2 * i as int]);
            }
        }
        let node = digest(kind, input.as_slice());
        let ghost expected = spec_level_up(kind, slots_view(level@))[i as int];
        proof {
            assert(node@ == expected);
        }
        let ghost prev_next = next@;
        next.push(node);
        proof {
            assert forall|q: int| 0 <= q < i + 1 implies slots_view(next@)[q]
                == spec_level_up(kind, slots_view(level@))[q] by {
                if q < i {
                    assert(next@[q] == prev_next[q]);
                    assert(slots_view(prev_next)[q] == spec_level_up(kind, slots_view(level@))[q]);
                } else {
                    assert(next@[q] == node);
                }
            }
        }
        i = i + 1;
    }
    proof {
        assert(i == (this_len + 1) / 2) by (nonlinear_arith)
            requires 2 * i >= this_len && i <= (this_len + 1) / 2;
        assert(slots_view(next@) =~= spec_level_up(kind, slots_view(level@)));
    }
    next
}

/// A well-formed tree's root is the Merkle root of its leaves.
pub proof fn lemma_tree_root(t: MerkleTree)
    requires
        t.wf(),
    ensures
        t.spec_root() == spec_merkle_root(t.kind, t.spec_leaves()),
{
    lemma_root_of_levels(t, 0);
}

proof fn lemma_root_of_levels(t: MerkleTree, l: int)
    requires
        t.wf(),
        0 <= l < t.levels@.len(),
    ensures
        spec_merkle_root(t.kind, slots_view(t.levels@[l]@)) == t.spec_root(),
    decreases t.levels@.len() - l,
{
    if l == t.levels@.len() - 1 {
        assert(slots_view(t.levels@[l]@).len() == 1);
    } else {
        lemma_root_of_levels(t, l + 1);
        assert(slots_view(t.levels@[l]@).len() >= 2);
    }
}

/// Checks an opening: folds the path onto the leaf and compares with the
/// root.
pub fn verify_path(kind: HasherKind, leaf: &[u8], path: &Vec<(Vec<u8>, bool)>, root: &[u8]) -> (ok: bool)
    ensures
        ok == (spec_path_fold(kind, leaf@, path_view(path@)) == root@),
{
    let mut cur = slice_to_vec(leaf);
    let mut i: usize = 0;
    while i < path.len()
        invariant
            i <= path@.len(),
            cur@ == spec_path_fold(kind, leaf@, path_view(path@).subrange(0, i as int)),
        decreases path@.len() - i,
    {
        let (sib, is_left) = &path[i];
        let mut input: Vec<u8>;
        if *is_left {
            input = cur;
            append_slice(&mut input, sib.as_slice());
        } else {
            input = slice_to_vec(sib.as_slice());
            append_slice(&mut input, cur.as_slice());
        }
        proof {
            assert(path_view(path@).subrange(0, i + 1).drop_last()
                =~= path_view(path@).subrange(0, i as int));
        }
        cur = digest(kind, input.as_slice());
        i = i + 1;
    }
    proof {
        assert(path_view(path@).subrange(0, path@.len() as int) =~= path_view(path@));
    }
    eq_bytes(cur.as_slice(), root)
}

/// The view of a path.
pub open spec fn path_view(p: Seq<(Vec<u8>, bool)>) -> Seq<(Seq<u8>, bool)> {
    p.map_values(|e: (Vec<u8>, bool)| (e.0@, e.1))
}

/// Byte-string equality.
pub fn eq_bytes(a: &[u8], b: &[u8]) -> (r: bool)
    ensures
        r == (a@ == b@),
{
    if a.len() != b.len() {
        proof {
            assert(a@ != b@);
        }
        return false;
    }
    let mut i: usize = 0;
    while i < a.len()
        invariant
            i <= a@.len(),
            a@.len() == b@.len(),
            forall|q: int| 0 <= q < i ==> a@[q] == b@[q],
        decreases a@.len() - i,
    {
        if a[i] != b[i] {
            proof {
                assert(a@[i as int] != b@[i as int]);
            }
            return false;
        }
        i = i + 1;
    }
    proof {
        assert(a@ =~= b@);
    }
    true
}

/// Appends a slice to a vector.
pub fn append_slice(v: &mut Vec<u8>, s: &[u8])
    ensures
        final(v)@ == old(v)@ + s@,
{
    let mut i: usize = 0;
    while i < s.len()
        invariant
            i <= s@.len(),
            v@ == old(v)@ + s@.subrange(0, i as int),
        decreases s@.len() - i,
    {
        v.push(s[i]);
        proof {
            assert(old(v)@ + s@.subrange(0, i + 1)
                =~= (old(v)@ + s@.subrange(0, i as int)).push(s@[i as int]));
        }
        i = i + 1;
    }
    proof {
        assert(old(v)@ + s@.subrange(0, s@.len() as int) =~= old(v)@ + s@);
    }
}

} // verus!
