//! The sealing pipeline: configuration, replica identity, challenges, and
//! the in-memory cores of seal, verify and unseal.
//!
//! Everything here computes on plain values; reading sector files, writing
//! replicas and persisting cached parameters is the unverified shell's work.

use vstd::prelude::*;
use vstd::string::StringExecFns;
use crate::sector_store::ConcreteSectorStore;
use crate::layered_drgporep as layered;
use crate::drgporep;
use crate::drgporep::{Tau, data_wf};
use crate::hasher;
use crate::field::slice_to_vec;
use crate::fr32::{spec_write_unpadded, write_unpadded};

verus! {

/// Number of bytes in one field-element slot of a sector.
pub const LAMBDA: usize = 32;

/// Size of the legacy SNARK proof wire format, in bytes.
pub const SNARK_BYTES: usize = 192;

/// How big a sector is proved when faking.
pub const FAKE_SECTOR_BYTES: usize = 128;

/// Base in-degree of the test configuration.
pub const DEGREE: usize = 1;

/// Expansion fan-in of the test configuration.
pub const EXPANSION_DEGREE: usize = 2;

/// Sloth iterations of the test configuration.
pub const SLOTH_ITER: usize = 1;

/// Layer count of the test configuration; extraction needs it even.
pub const LAYERS: usize = 2;

/// Why an operation failed.
#[derive(Clone, Copy, Debug, PartialEq, Eq, Structural)]
pub enum ApiError {
    /// The caller handed in malformed values: a sector whose slots are not
    /// field elements, or sizes that do not match the configuration.
    CallerError,
    /// A failure of the surrounding machinery (files, serialization).
    ReceiverError,
    /// The freshly produced proof failed its own verification.
    InternalError,
}

/// Validates the store's configuration and returns the derived values:
/// whether it fakes, the optional delay, the sector size on disk, and the
/// size that is actually proved.
pub fn get_config(sector_store: &ConcreteSectorStore) -> (r: (bool, Option<u32>, usize, usize))
    requires
        sector_store.wf(),
    ensures
        r.0 == sector_store.config.spec_is_fake(),
        r.1 == sector_store.config.spec_delay(),
        r.1 is Some <==> sector_store.config.spec_is_fake(),
        r.2 == sector_store.config.spec_sector_bytes(),
        r.3 == if sector_store.config.spec_is_fake() { FAKE_SECTOR_BYTES as int } else { r.2 as int },
        r.2 % 32 == 0,
        32 <= r.2 <= 0x4000_0000,
        r.3 % 32 == 0,
        32 <= r.3 <= 0x4000_0000,
{
    let fake = sector_store.config().is_fake();
    let delay_seconds = sector_store.config().simulate_delay_seconds();
    let sector_bytes = sector_store.config().max_unsealed_bytes_per_sector() as usize;
    let proof_sector_bytes = if fake { FAKE_SECTOR_BYTES } else { sector_bytes };
    (fake, delay_seconds, sector_bytes, proof_sector_bytes)
}

/// The setup parameters for a sector of `sector_bytes` bytes, under the test
/// configuration and a fresh random graph seed.
pub fn setup_params(sector_bytes: usize) -> (sp: layered::SetupParams)
    requires
        sector_bytes % 32 == 0,
        32 <= sector_bytes <= 0x4000_0000,
    ensures
        sp.drg_porep_setup_params.lambda == 32,
        sp.drg_porep_setup_params.drg.nodes == sector_bytes / 32,
        sp.drg_porep_setup_params.drg.degree == DEGREE,
        sp.drg_porep_setup_params.drg.expansion_degree == EXPANSION_DEGREE,
        sp.drg_porep_setup_params.sloth_iter == SLOTH_ITER,
        sp.layers == LAYERS,
{
    let nodes = sector_bytes / 32;
    layered::SetupParams {
        drg_porep_setup_params: drgporep::SetupParams {
            lambda: 32,
            drg: drgporep::DrgParams {
                nodes,
                degree: DEGREE,
                expansion_degree: EXPANSION_DEGREE,
                seed: crate::drgraph::new_seed(),
            },
            sloth_iter: SLOTH_ITER,
        },
        layers: LAYERS,
    }
}

/// Builds public parameters for a sector size, with a fresh graph seed; a
/// seal and its later verifications must share the parameters, so the caller
/// caches what this returns.
pub fn public_params(sector_bytes: usize) -> (pp: layered::PublicParams)
    requires
        sector_bytes % 32 == 0,
        32 <= sector_bytes <= 0x4000_0000,
    ensures
        pp.wf(),
        pp.layers == LAYERS,
        pp.drg_porep_public_params.graph.base_graph.nodes == sector_bytes / 32,
        pp.drg_porep_public_params.sloth_iter == SLOTH_ITER,
        !pp.drg_porep_public_params.graph.reversed,
{
    let sp = setup_params(sector_bytes);
    proof {
        vstd::arithmetic::div_mod::lemma_fundamental_div_mod(sector_bytes as int, 32);
        vstd::arithmetic::div_mod::lemma_mod_bound(sector_bytes as int, 32);
        let nodes = sector_bytes as int / 32;
        assert(nodes >= 1 && nodes <= 0x0200_0000) by (nonlinear_arith)
            requires
                32 <= sector_bytes <= 0x4000_0000 && sector_bytes as int == 32 * nodes
                    + sector_bytes as int % 32 && sector_bytes % 32 == 0
                    && 0 <= sector_bytes as int % 32 < 32,
        ;
        assert(nodes * 1 == nodes) by (nonlinear_arith);
        assert(2 * nodes <= 0xFFFF_FFFF);
    }
    layered::setup(&sp)
}

/// Zero-extends a 31-byte identity to a field-safe 32-byte value.
pub fn pad_safe_fr(unpadded: &[u8]) -> (r: Vec<u8>)
    requires
        unpadded@.len() == 31,
    ensures
        r@ == unpadded@.push(0u8),
        crate::field::fr_valid(r@),
{
    let mut r = slice_to_vec(unpadded);
    r.push(0);
    proof {
        crate::field::lemma_masked_is_valid(r@);
    }
    r
}

/// The replica key of a prover and sector identity pair.
pub fn replica_id_from_parts(prover_id_in: &[u8], sector_id_in: &[u8]) -> (r: Vec<u8>)
    requires
        prover_id_in@.len() == 31,
        sector_id_in@.len() == 31,
    ensures
        r@ == hasher::spec_digest(crate::hasher::HasherKind::Blake2s,
            prover_id_in@.push(0u8) + sector_id_in@.push(0u8)),
        crate::field::fr_valid(r@),
{
    let prover_id = pad_safe_fr(prover_id_in);
    let sector_id = pad_safe_fr(sector_id_in);
    hasher::replica_id(prover_id.as_slice(), sector_id.as_slice())
}

/// The challenge set derived from a commitment pair. The reference protocol
/// fixes the single challenge at node 1; folding the commitments into a
/// larger set is a protocol decision left to deployments.
pub fn derive_challenges(_comm_r: &[u8], _comm_d: &[u8]) -> (r: Vec<usize>)
    ensures
        r@ == seq![1usize],
{
    let mut v: Vec<usize> = Vec::new();
    v.push(1);
    proof {
        assert(v@ =~= seq![1usize]);
    }
    v
}

/// The well-known name under which the parameters for a sector size are
/// cached.
pub fn dummy_parameter_cache_path(sector_size: usize) -> (r: String)
    ensures
        r@ == "API-dummy-parameters["@ + spec_decimal(sector_size as nat) + "]"@,
{
    proof {
        reveal_strlit("API-dummy-parameters[");
        reveal_strlit("]");
    }
    let mut s = String::from_str("API-dummy-parameters[");
    push_decimal(&mut s, sector_size);
    s.append("]");
    s
}

/// The decimal digits of a number.
pub open spec fn spec_decimal(n: nat) -> Seq<char>
    decreases n,
{
    if n < 10 {
        seq![digit_char(n as int)]
    } else {
        spec_decimal(n / 10).push(digit_char((n % 10) as int))
    }
}

/// One decimal digit.
pub open spec fn digit_char(d: int) -> char {
    if d == 0 { '0' } else if d == 1 { '1' } else if d == 2 { '2' } else if d == 3 { '3' }
    else if d == 4 { '4' } else if d == 5 { '5' } else if d == 6 { '6' } else if d == 7 { '7' }
    else if d == 8 { '8' } else { '9' }
}

/// Appends the decimal digits of `n`.
pub fn push_decimal(s: &mut String, n: usize)
    ensures
        final(s)@ == old(s)@ + spec_decimal(n as nat),
    decreases n,
{
    if n >= 10 {
        push_decimal(s, n / 10);
        proof {
            vstd::arithmetic::div_mod::lemma_mod_bound(n as int, 10);
        }
        push_digit(s, n % 10);
    } else {
        push_digit(s, n);
        proof {
            assert(old(s)@ + seq![digit_char(n as int)] =~= old(s)@.push(digit_char(n as int)));
        }
    }
}

fn push_digit(s: &mut String, d: usize)
    requires
        d < 10,
    ensures
        final(s)@ == old(s)@.push(digit_char(d as int)),
{
    let t: &str = match d {
        0 => "0",
        1 => "1",
        2 => "2",
        3 => "3",
        4 => "4",
        5 => "5",
        6 => "6",
        7 => "7",
        8 => "8",
        _ => "9",
    };
    proof {
        reveal_strlit("0");
        reveal_strlit("1");
        reveal_strlit("2");
        reveal_strlit("3");
        reveal_strlit("4");
        reveal_strlit("5");
        reveal_strlit("6");
        reveal_strlit("7");
        reveal_strlit("8");
        reveal_strlit("9");
    }
    s.append(t);
    proof {
        assert(s@ =~= old(s)@.push(digit_char(d as int)));
    }
}

/// What `seal_core` hands back: the two commitments, the layered proof, and
/// the bytes that belong in the sealed file.
pub struct SealOutput {
    pub comm_r: Vec<u8>,
    pub comm_d: Vec<u8>,
    pub proof: layered::Proof,
    /// What the caller persists at the sealed path: the original data when
    /// faking, the full replica otherwise.
    pub persisted: Vec<u8>,
}

/// Seals a padded in-memory sector: replicates it (only the proof-sized
/// prefix when faking), proves the replication, and self-checks the proof.
///
/// Fails with a caller error when the buffer is not a sector of valid
/// field-element slots of the configured size, and with an internal error if
/// the fresh proof does not verify; a returned proof always verifies against
/// the returned commitments under `pp`.
#[verifier::rlimit(100)]
pub fn seal_core(pp: &layered::PublicParams, fake: bool, sector_bytes: usize,
    proof_sector_bytes: usize, data: Vec<u8>, prover_id_in: &[u8], sector_id_in: &[u8])
    -> (res: Result<SealOutput, ApiError>)
    requires
        pp.wf(),
        pp.layers >= 1,
        prover_id_in@.len() == 31,
        sector_id_in@.len() == 31,
        pp.drg_porep_public_params.spec_nodes() == proof_sector_bytes / 32,
        proof_sector_bytes % 32 == 0,
        32 <= proof_sector_bytes <= sector_bytes <= 0x4000_0000,
        2 <= pp.drg_porep_public_params.spec_nodes(),
    ensures
        res is Ok <==> (data@.len() == sector_bytes
            && data_wf(data@, sector_bytes as int / 32)),
        res matches Ok(out) ==> {
            let rid = hasher::spec_digest(crate::hasher::HasherKind::Blake2s,
                prover_id_in@.push(0u8) + sector_id_in@.push(0u8));
            let proved = data@.subrange(0, proof_sector_bytes as int);
            let replica = layered::spec_layered_encode(pp.drg_porep_public_params, rid, proved,
                pp.layers as nat);
            &&& data_wf(data@, sector_bytes as int / 32)
            &&& out.comm_d@ == drgporep::spec_comm(pp.drg_porep_public_params.graph.hasher,
                proved, pp.drg_porep_public_params.spec_nodes())
            &&& out.comm_r@ == drgporep::spec_comm(pp.drg_porep_public_params.graph.hasher,
                replica, pp.drg_porep_public_params.spec_nodes())
            &&& (fake ==> out.persisted@ == data@)
            &&& (!fake ==> out.persisted@
                == replica + data@.subrange(proof_sector_bytes as int, data@.len() as int))
            &&& layered::spec_seal_checks(*pp, rid, out.comm_r@, out.comm_d@, out.proof)
        },
        !(data@.len() == sector_bytes && data_wf(data@, sector_bytes as int / 32))
            ==> res == Result::<SealOutput, ApiError>::Err(ApiError::CallerError),
{
    let n_all = sector_bytes / 32;
    if data.len() != sector_bytes || !drgporep::data_check(&data, n_all) {
        return Err(ApiError::CallerError);
    }
    proof {
        assert(32 * (sector_bytes as int / 32) == sector_bytes);
        assert(32 * (proof_sector_bytes as int / 32) == proof_sector_bytes);
    }
    let replica_id = replica_id_from_parts(prover_id_in, sector_id_in);
    // The proved prefix of the sector.
    let mut proved: Vec<u8> = copy_range(&data, 0, proof_sector_bytes);
    let ghost proved0 = proved@;
    proof {
        lemma_prefix_data_wf(data@, sector_bytes as int / 32, proof_sector_bytes as int / 32);
    }
    let (comm_r, comm_d, layer_proof) = replicate_and_prove(pp, &replica_id, &mut proved);
    // Assemble what the sealed file holds.
    let persisted: Vec<u8>;
    if fake {
        persisted = data;
    } else {
        let mut p = slice_to_vec(proved.as_slice());
        let tail = copy_range(&data, proof_sector_bytes, data.len());
        crate::merkle::append_slice(&mut p, tail.as_slice());
        persisted = p;
    }
    let out = SealOutput { comm_r, comm_d, proof: layer_proof, persisted };
    Ok(out)
}

/// Replicates the proved sector in place, proves all layers, and self-checks
/// the proof; the completeness lemmas make the self-check provably pass, so
/// commitments and a verifying proof always come back.
#[verifier::rlimit(100)]
fn replicate_and_prove(pp: &layered::PublicParams, replica_id: &Vec<u8>, proved: &mut Vec<u8>)
    -> (res: (Vec<u8>, Vec<u8>, layered::Proof))
    requires
        pp.wf(),
        pp.layers >= 1,
        data_wf(old(proved)@, pp.drg_porep_public_params.spec_nodes()),
        2 <= pp.drg_porep_public_params.spec_nodes(),
    ensures
        final(proved)@ == layered::spec_layered_encode(pp.drg_porep_public_params, replica_id@,
            old(proved)@, pp.layers as nat),
        data_wf(final(proved)@, pp.drg_porep_public_params.spec_nodes()),
        res.1@ == drgporep::spec_comm(pp.drg_porep_public_params.graph.hasher, old(proved)@,
            pp.drg_porep_public_params.spec_nodes()),
        res.0@ == drgporep::spec_comm(pp.drg_porep_public_params.graph.hasher, final(proved)@,
            pp.drg_porep_public_params.spec_nodes()),
        layered::spec_seal_checks(*pp, replica_id@, res.0@, res.1@, res.2),
{
    let ghost proved0 = proved@;
    let witness = slice_to_vec(proved.as_slice());
    let (taus, auxs) = layered::replicate(pp, replica_id.as_slice(), proved);
    let public_tau = layered::simplify_tau(&taus);
    let challenges = derive_challenges(public_tau.comm_r.as_slice(), public_tau.comm_d.as_slice());
    let pub_inputs = layered::PublicInputs {
        replica_id: slice_to_vec(replica_id.as_slice()),
        challenges,
        tau: Some(Tau {
            comm_r: slice_to_vec(public_tau.comm_r.as_slice()),
            comm_d: slice_to_vec(public_tau.comm_d.as_slice()),
        }),
    };
    let priv_inputs = layered::PrivateInputs { replica: witness, aux: auxs, tau: taus };
    let layer_proof = layered::prove(pp, &pub_inputs, &priv_inputs);
    // The self-check: by the layered completeness lemma it always passes.
    let self_check = layered::verify(pp, &pub_inputs, &layer_proof);
    proof {
        assert(pub_inputs.challenges@ =~= seq![1usize]);
        layered::lemma_layers_verify(*pp, pub_inputs, layer_proof, proved0);
        assert(self_check);
    }
    let comm_r = slice_to_vec(public_tau.comm_r.as_slice());
    let comm_d = slice_to_vec(public_tau.comm_d.as_slice());
    proof {
        layered::lemma_seal_checks_intro(*pp, pub_inputs, layer_proof, replica_id@, comm_r@,
            comm_d@);
    }
    (comm_r, comm_d, layer_proof)
}

proof fn lemma_prefix_data_wf(d: Seq<u8>, n: int, m: int)
    requires
        data_wf(d, n),
        0 <= m <= n,
    ensures
        data_wf(d.subrange(0, 32 * m), m),
{
    assert(32 * m <= 32 * n) by (nonlinear_arith)
        requires m <= n;
    assert forall|i: int| 0 <= i < m implies crate::field::fr_valid(
        #[trigger] drgporep::spec_slot(d.subrange(0, 32 * m), i)) by {
        assert(32 * i + 32 <= 32 * m) by (nonlinear_arith)
            requires i < m;
        assert(drgporep::spec_slot(d.subrange(0, 32 * m), i) =~= drgporep::spec_slot(d, i));
    }
}

/// Checks a seal: recomputes the replica identity and challenge set, and
/// verifies the layered proof against the given commitments under the cached
/// parameters.
pub fn verify_seal_core(pp: &layered::PublicParams, comm_r: &[u8], comm_d: &[u8],
    prover_id_in: &[u8], sector_id_in: &[u8], proof: &layered::Proof) -> (ok: bool)
    requires
        pp.wf(),
        prover_id_in@.len() == 31,
        sector_id_in@.len() == 31,
    ensures
        ok == layered::spec_layered_verify(*pp, verify_inputs_of(*pp, comm_r@, comm_d@,
            prover_id_in@, sector_id_in@), *proof),
{
    let replica_id = replica_id_from_parts(prover_id_in, sector_id_in);
    let challenges = derive_challenges(comm_r, comm_d);
    let pub_inputs = layered::PublicInputs {
        replica_id,
        challenges,
        tau: Some(Tau { comm_r: slice_to_vec(comm_r), comm_d: slice_to_vec(comm_d) }),
    };
    let ok = layered::verify(pp, &pub_inputs, proof);
    proof {
        let target = verify_inputs_of(*pp, comm_r@, comm_d@, prover_id_in@, sector_id_in@);
        assert(pub_inputs.challenges@ =~= seq![1usize]);
        assert(exists|p: layered::PublicInputs|
            p.replica_id@ == hasher::spec_digest(crate::hasher::HasherKind::Blake2s,
                prover_id_in@.push(0u8) + sector_id_in@.push(0u8))
            && p.challenges@ == seq![1usize]
            && p.tau is Some
            && (#[trigger] p.tau->0).comm_r@ == comm_r@
            && p.tau->0.comm_d@ == comm_d@) by {
            assert(pub_inputs.tau->0.comm_r@ == comm_r@);
        }
        lemma_layered_verify_views(*pp, pub_inputs, target, *proof);
    }
    ok
}

/// The canonical public inputs a verifier derives from the commitments and
/// identities.
pub open spec fn verify_inputs_of(pp: layered::PublicParams, comm_r: Seq<u8>, comm_d: Seq<u8>,
    prover_id: Seq<u8>, sector_id: Seq<u8>) -> layered::PublicInputs {
    choose|p: layered::PublicInputs|
        p.replica_id@ == hasher::spec_digest(crate::hasher::HasherKind::Blake2s,
            prover_id.push(0u8) + sector_id.push(0u8))
        && p.challenges@ == seq![1usize]
        && p.tau is Some
        && (#[trigger] p.tau->0).comm_r@ == comm_r
        && p.tau->0.comm_d@ == comm_d
}

proof fn lemma_layered_verify_views(pp: layered::PublicParams, a: layered::PublicInputs,
    b: layered::PublicInputs, proof: layered::Proof)
    requires
        a.replica_id@ == b.replica_id@,
        a.challenges@ == b.challenges@,
        a.tau is Some,
        b.tau is Some,
        a.tau->0.comm_r@ == b.tau->0.comm_r@,
        a.tau->0.comm_d@ == b.tau->0.comm_d@,
    ensures
        layered::spec_layered_verify(pp, a, proof) == layered::spec_layered_verify(pp, b, proof),
{
    assert forall|l: int| 0 <= l < proof.tau@.len() implies
        drgporep::spec_verify(layered::spec_pp_at(pp.drg_porep_public_params, l as nat),
            layered::layer_inputs(a, #[trigger] proof.tau@[l]), proof.encoding_proofs@[l])
        == drgporep::spec_verify(layered::spec_pp_at(pp.drg_porep_public_params, l as nat),
            layered::layer_inputs(b, proof.tau@[l]), proof.encoding_proofs@[l]) by {
        drgporep::lemma_verify_depends_on_views(
            layered::spec_pp_at(pp.drg_porep_public_params, l as nat),
            layered::layer_inputs(a, proof.tau@[l]), layered::layer_inputs(b, proof.tau@[l]),
            proof.encoding_proofs@[l]);
    }
}

/// Recovers and repacks a byte range of the original data from a sealed
/// sector held in memory. When faking, the sealed bytes are the original
/// data; otherwise the layers are extracted first. Fails with a caller error
/// when the sealed bytes are not a well-formed sector.
pub fn get_unsealed_range_core(pp: &layered::PublicParams, fake: bool, sector_bytes: usize,
    data: Vec<u8>, prover_id_in: &[u8], sector_id_in: &[u8], offset: usize, num_bytes: usize)
    -> (res: Result<Vec<u8>, ApiError>)
    requires
        pp.wf(),
        pp.layers >= 1,
        prover_id_in@.len() == 31,
        sector_id_in@.len() == 31,
        sector_bytes % 32 == 0,
        32 <= sector_bytes <= 0x4000_0000,
        pp.drg_porep_public_params.spec_nodes() == sector_bytes / 32,
    ensures
        res matches Ok(out) ==> {
            let rid = hasher::spec_digest(crate::hasher::HasherKind::Blake2s,
                prover_id_in@.push(0u8) + sector_id_in@.push(0u8));
            let unsealed = if fake {
                data@
            } else {
                layered::spec_layered_decode(pp.drg_porep_public_params, rid, data@,
                    pp.layers as nat)
            };
            out@ == spec_write_unpadded(unsealed, offset as nat, num_bytes as nat)
        },
        res is Ok <==> (data@.len() == sector_bytes
            && data_wf(data@, sector_bytes as int / 32)),
        !(data@.len() == sector_bytes && data_wf(data@, sector_bytes as int / 32))
            ==> res == Result::<Vec<u8>, ApiError>::Err(ApiError::CallerError),
{
    let n_all = sector_bytes / 32;
    if data.len() != sector_bytes || !drgporep::data_check(&data, n_all) {
        return Err(ApiError::CallerError);
    }
    proof {
        assert(32 * (sector_bytes as int / 32) == sector_bytes);
    }
    let unsealed: Vec<u8>;
    if fake {
        unsealed = data;
    } else {
        let replica_id = replica_id_from_parts(prover_id_in, sector_id_in);
        unsealed = layered::extract_all(pp, replica_id.as_slice(), &data);
    }
    proof {
        assert(unsealed@.len() <= 0x4000_0000);
    }
    Ok(write_unpadded(unsealed.as_slice(), offset, num_bytes))
}

/// Copies the byte range `lo .. hi` of a buffer.
fn copy_range(d: &Vec<u8>, lo: usize, hi: usize) -> (r: Vec<u8>)
    requires
        lo <= hi <= d@.len(),
    ensures
        r@ == d@.subrange(lo as int, hi as int),
{
    let mut out: Vec<u8> = Vec::new();
    let mut i: usize = lo;
    while i < hi
        invariant
            lo <= i <= hi <= d@.len(),
            out@ == d@.subrange(lo as int, i as int),
        decreases hi - i,
    {
        out.push(d[i]);
        proof {
            assert(d@.subrange(lo as int, i + 1)
                =~= d@.subrange(lo as int, i as int).push(d@[i as int]));
        }
        i = i + 1;
    }
    out
}

} // verus!
