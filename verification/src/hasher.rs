//! The hashing capability the proofs of replication are parameterized over.
//!
//! The concrete digest primitives are external collaborators; the library
//! selects among them through a tagged variant and derives every digest it
//! needs from the crate's own mixing permutation, domain-separated by the
//! variant's tag.

use vstd::prelude::*;

verus! {

/// The available hashing backends of the protocol.
#[derive(Clone, Copy, Debug, PartialEq, Eq, Structural)]
pub enum HasherKind {
    Pedersen,
    Sha256,
    Blake2s,
}

impl HasherKind {
    /// The domain-separation tag mixed into every digest of this backend.
    pub open spec fn spec_tag(self) -> u64 {
        match self {
            HasherKind::Pedersen => 1,
            HasherKind::Sha256 => 2,
            HasherKind::Blake2s => 3,
        }
    }

    /// Returns the backend's domain-separation tag.
    pub fn tag(&self) -> (t: u64)
        ensures
            t == self.spec_tag(),
    {
        match self {
            HasherKind::Pedersen => 1,
            HasherKind::Sha256 => 2,
            HasherKind::Blake2s => 3,
        }
    }
}

/// One step of the 64-bit mixing permutation.
pub open spec fn mix64(s: int, b: int) -> int {
    (s * 6364136223846793005 + b * 1442695040888963407 + 1) % 0x1_0000_0000_0000_0000
}

/// The mixer state after absorbing a byte string, from state `s0`.
pub open spec fn absorb(bytes: Seq<u8>, s0: int) -> int
    decreases bytes.len(),
{
    if bytes.len() == 0 {
        s0
    } else {
        mix64(absorb(bytes.drop_last(), s0), bytes.last() as int)
    }
}

/// The eight little-endian bytes of a 64-bit word.
pub open spec fn word_bytes(w: int) -> Seq<u8> {
    Seq::new(8, |j: int| ((w / crate::field::pow256(j as nat)) % 256) as u8)
}

/// The 32-byte digest of an input under a backend: four squeezed words of
/// the mixer, with the two top bits of the last byte cleared so the digest
/// is always a valid field element.
#[verifier::opaque]
pub open spec fn spec_digest(kind: HasherKind, input: Seq<u8>) -> Seq<u8> {
    let acc = absorb(input, kind.spec_tag() as int);
    let raw = word_bytes(mix64(acc, 1)) + word_bytes(mix64(acc, 2))
        + word_bytes(mix64(acc, 3)) + word_bytes(mix64(acc, 4));
    raw.update(31, (raw[31] % 64) as u8)
}

/// One exec step of the mixer.
fn mix_step(s: u64, b: u64) -> (r: u64)
    ensures
        r as int == mix64(s as int, b as int),
{
    let t: u128 = (s as u128) * 6364136223846793005 + (b as u128) * 1442695040888963407 + 1;
    proof {
        assert((s as int) * 6364136223846793005 <= 0xFFFF_FFFF_FFFF_FFFF * 6364136223846793005)
            by (nonlinear_arith)
            requires s <= 0xFFFF_FFFF_FFFF_FFFF;
        assert((b as int) * 1442695040888963407 <= 0xFFFF_FFFF_FFFF_FFFF * 1442695040888963407)
            by (nonlinear_arith)
            requires b <= 0xFFFF_FFFF_FFFF_FFFF;
        vstd::arithmetic::div_mod::lemma_mod_bound(t as int, 0x1_0000_0000_0000_0000);
    }
    (t % 0x1_0000_0000_0000_0000) as u64
}

/// Appends the eight little-endian bytes of `w` to `out`.
fn push_word_bytes(out: &mut Vec<u8>, w: u64)
    ensures
        final(out)@ == old(out)@ + word_bytes(w as int),
{
    let ghost base = out@;
    let mut cur: u64 = w;
    let mut j: usize = 0;
    proof {
        assert(crate::field::pow256(0) == 1);
    }
    while j < 8
        invariant
            j <= 8,
            out@.len() == base.len() + j,
            cur as int == (w as int) / crate::field::pow256(j as nat),
            forall|q: int| 0 <= q < base.len() ==> #[trigger] out@[q] == base[q],
            forall|q: int| 0 <= q < j ==> #[trigger] out@[base.len() + q] == word_bytes(w as int)[q],
        decreases 8 - j,
    {
        let b: u8 = (cur % 256) as u8;
        out.push(b);
        proof {
            crate::field::lemma_pow256_pos(j as nat);
            vstd::arithmetic::div_mod::lemma_div_denominator(w as int,
                crate::field::pow256(j as nat), 256);
            assert(crate::field::pow256((j + 1) as nat)
                == 256 * crate::field::pow256(j as nat));
            assert(crate::field::pow256(j as nat) * 256
                == 256 * crate::field::pow256(j as nat)) by (nonlinear_arith);
        }
        cur = cur / 256;
        j = j + 1;
    }
    proof {
        assert forall|k: int| 0 <= k < out@.len() implies #[trigger] out@[k]
            == (base + word_bytes(w as int))[k] by {
            if k >= base.len() {
                let q = k - base.len();
                assert(out@[base.len() + q] == word_bytes(w as int)[q]);
            }
        }
        assert(out@ =~= base + word_bytes(w as int));
    }
}

/// The digest of `input` under this backend; always a valid field element.
pub fn digest(kind: HasherKind, input: &[u8]) -> (r: Vec<u8>)
    ensures
        r@ == spec_digest(kind, input@),
        crate::field::fr_valid(r@),
        r@.len() == 32,
{
    let mut acc: u64 = kind.tag();
    let mut i: usize = 0;
    proof {
        assert(input@.subrange(0, 0) =~= Seq::<u8>::empty());
    }
    while i < input.len()
        invariant
            i <= input@.len(),
            acc as int == absorb(input@.subrange(0, i as int), kind.spec_tag() as int),
        decreases input@.len() - i,
    {
        let b = input[i];
        proof {
            assert(input@.subrange(0, i + 1).drop_last() =~= input@.subrange(0, i as int));
        }
        acc = mix_step(acc, b as u64);
        i = i + 1;
    }
    proof {
        assert(input@.subrange(0, input@.len() as int) =~= input@);
    }
    let mut out: Vec<u8> = Vec::new();
    push_word_bytes(&mut out, mix_step(acc, 1));
    push_word_bytes(&mut out, mix_step(acc, 2));
    push_word_bytes(&mut out, mix_step(acc, 3));
    push_word_bytes(&mut out, mix_step(acc, 4));
    let top: u8 = out[31] % 64;
    out.set(31, top);
    proof {
        reveal(spec_digest);
        let ghost accg = absorb(input@, kind.spec_tag() as int);
        assert(out@ =~= spec_digest(kind, input@));
        crate::field::lemma_masked_is_valid(out@);
    }
    out
}

/// The 32-byte replica key of a prover and sector pair, derived from the
/// protocol's identity digest.
pub fn replica_id(prover_id: &[u8], sector_id: &[u8]) -> (r: Vec<u8>)
    requires
        prover_id@.len() == 32,
        sector_id@.len() == 32,
    ensures
        r@ == spec_digest(HasherKind::Blake2s, prover_id@ + sector_id@),
        crate::field::fr_valid(r@),
{
    let mut input = crate::field::slice_to_vec(prover_id);
    let mut i: usize = 0;
    while i < sector_id.len()
        invariant
            i <= sector_id@.len(),
            input@ == prover_id@ + sector_id@.subrange(0, i as int),
        decreases sector_id@.len() - i,
    {
        input.push(sector_id[i]);
        proof {
            assert(prover_id@ + sector_id@.subrange(0, i + 1)
                =~= (prover_id@ + sector_id@.subrange(0, i as int)).push(sector_id@[i as int]));
        }
        i = i + 1;
    }
    proof {
        assert(prover_id@ + sector_id@.subrange(0, sector_id@.len() as int)
            =~= prover_id@ + sector_id@);
    }
    digest(HasherKind::Blake2s, input.as_slice())
}

} // verus!
