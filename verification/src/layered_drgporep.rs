//! The layered proof of replication: N single-layer encodings with the
//! graph's direction toggled between layers.
//!
//! Replication runs the layers in order, collecting one commitment pair and
//! one tree pair per layer; extraction inverts the layers in reverse. With an
//! even number of layers the toggled graph sequence of extraction mirrors
//! that of replication exactly, and extraction returns the original sector.

use vstd::prelude::*;
use crate::drgporep;
use crate::drgporep::{PublicParams as DrgPublicParams, Tau, ProverAux, data_wf, spec_encoded,
    spec_decoded, spec_comm};
use crate::field::slice_to_vec;

verus! {

/// Setup parameters: one layer's parameters plus the layer count.
#[derive(Clone, Copy, Debug)]
pub struct SetupParams {
    pub drg_porep_setup_params: drgporep::SetupParams,
    pub layers: usize,
}

/// Public parameters: one layer's parameters plus the layer count.
#[derive(Clone, Copy, Debug)]
pub struct PublicParams {
    pub drg_porep_public_params: DrgPublicParams,
    pub layers: usize,
}

impl PublicParams {
    pub open spec fn wf(self) -> bool {
        self.drg_porep_public_params.wf()
    }
}

impl From<&PublicParams> for PublicParams {
    /// Copies the parameters.
    fn from(pp: &PublicParams) -> (r: PublicParams) {
        PublicParams {
            drg_porep_public_params: pp.drg_porep_public_params,
            layers: pp.layers,
        }
    }
}

impl vstd::std_specs::convert::FromSpecImpl<&PublicParams> for PublicParams {
    open spec fn obeys_from_spec() -> bool {
        true
    }

    open spec fn from_spec(pp: &PublicParams) -> PublicParams {
        *pp
    }
}

/// One layer's proof.
pub type EncodingProof = drgporep::Proof;

/// Public inputs of the layered proof.
pub type PublicInputs = drgporep::PublicInputs;

/// The prover's inputs: the original data, and the per-layer trees and
/// commitments gathered during replication.
pub struct PrivateInputs {
    pub replica: Vec<u8>,
    pub aux: Vec<ProverAux>,
    pub tau: Vec<Tau>,
}

/// The layered proof: one encoding proof and one commitment pair per layer.
pub struct Proof {
    pub encoding_proofs: Vec<EncodingProof>,
    pub tau: Vec<Tau>,
}

impl Proof {
    pub fn new(encoding_proofs: Vec<EncodingProof>, tau: Vec<Tau>) -> (p: Proof)
        ensures
            p.encoding_proofs == encoding_proofs,
            p.tau == tau,
    {
        Proof { encoding_proofs, tau }
    }
}

/// Collapses the per-layer commitments: the first layer's data commitment
/// and the last layer's replica commitment.
pub fn simplify_tau(taus: &Vec<Tau>) -> (t: Tau)
    requires
        taus@.len() >= 1,
    ensures
        t.comm_d@ == taus@[0].comm_d@,
        t.comm_r@ == taus@.last().comm_r@,
{
    Tau {
        comm_r: slice_to_vec(taus[taus.len() - 1].comm_r.as_slice()),
        comm_d: slice_to_vec(taus[0].comm_d.as_slice()),
    }
}

/// The next layer's parameters: the same graph with its direction toggled.
pub open spec fn spec_transform(pp: DrgPublicParams) -> DrgPublicParams {
    DrgPublicParams { graph: pp.graph.spec_zigzag(), ..pp }
}

/// Toggles the graph direction for the next layer.
pub fn transform(pp: &DrgPublicParams, _layer: usize, _layers: usize) -> (r: DrgPublicParams)
    ensures
        r == spec_transform(*pp),
        pp.wf() ==> r.wf(),
{
    DrgPublicParams { graph: pp.graph.zigzag(), lambda: pp.lambda, sloth_iter: pp.sloth_iter }
}

/// Toggles the graph direction back; the toggle is its own inverse.
pub fn invert_transform(pp: &DrgPublicParams, _layer: usize, _layers: usize) -> (r: DrgPublicParams)
    ensures
        r == spec_transform(*pp),
        pp.wf() ==> r.wf(),
{
    DrgPublicParams { graph: pp.graph.zigzag(), lambda: pp.lambda, sloth_iter: pp.sloth_iter }
}

/// The buffer after `l` layers of replication.
pub open spec fn spec_layered_encode(pp: DrgPublicParams, rid: Seq<u8>, d: Seq<u8>, l: nat) -> Seq<u8>
    decreases l,
{
    if l == 0 {
        d
    } else {
        spec_layered_encode(spec_transform(pp), rid,
            spec_encoded(pp.graph, rid, pp.sloth_iter as nat, d), (l - 1) as nat)
    }
}

/// The buffer after undoing `l` layers, newest first.
pub open spec fn spec_layered_decode(pp: DrgPublicParams, rid: Seq<u8>, d: Seq<u8>, l: nat) -> Seq<u8>
    decreases l,
{
    if l == 0 {
        d
    } else {
        spec_layered_decode(spec_transform(pp), rid,
            spec_decoded(spec_transform(pp).graph, rid, pp.sloth_iter as nat, d), (l - 1) as nat)
    }
}

proof fn lemma_layered_encode_wf(pp: DrgPublicParams, rid: Seq<u8>, d: Seq<u8>, l: nat)
    requires
        pp.wf(),
        data_wf(d, pp.spec_nodes()),
    ensures
        data_wf(spec_layered_encode(pp, rid, d, l), pp.spec_nodes()),
    decreases l,
{
    if l > 0 {
        drgporep::lemma_encoded_wf(pp.graph, rid, pp.sloth_iter as nat, d);
        lemma_layered_encode_wf(spec_transform(pp), rid,
            spec_encoded(pp.graph, rid, pp.sloth_iter as nat, d), (l - 1) as nat);
    }
}

/// Peels the outermost layer: `l` layers are `l - 1` layers followed by one
/// encoding with the layer's graph, which is toggled for odd layers.
proof fn lemma_encode_peel(pp: DrgPublicParams, rid: Seq<u8>, d: Seq<u8>, l: nat)
    requires
        l >= 1,
    ensures
        spec_layered_encode(pp, rid, d, l) == spec_encoded(
            (if (l - 1) % 2 == 1 { spec_transform(pp) } else { pp }).graph,
            rid, pp.sloth_iter as nat, spec_layered_encode(pp, rid, d, (l - 1) as nat)),
    decreases l,
{
    let e1 = spec_encoded(pp.graph, rid, pp.sloth_iter as nat, d);
    if l == 1 {
        assert(spec_layered_encode(pp, rid, d, 1)
            == spec_layered_encode(spec_transform(pp), rid, e1, 0));
        assert(spec_layered_encode(spec_transform(pp), rid, e1, 0) == e1);
        assert(spec_layered_encode(pp, rid, d, 0) == d);
    } else {
        lemma_encode_peel(spec_transform(pp), rid, e1, (l - 1) as nat);
        assert(spec_transform(spec_transform(pp)) == pp);
        assert(spec_layered_encode(pp, rid, d, l)
            == spec_layered_encode(spec_transform(pp), rid, e1, (l - 1) as nat));
        assert(spec_layered_encode(pp, rid, d, (l - 1) as nat)
            == spec_layered_encode(spec_transform(pp), rid, e1, (l - 2) as nat));
        if (l - 2) % 2 == 1 {
            assert((l - 1) % 2 == 0) by (nonlinear_arith)
                requires (l - 2) % 2 == 1 && l >= 2;
        } else {
            assert((l - 1) % 2 == 1) by (nonlinear_arith)
                requires (l - 2) % 2 == 0 && l >= 2;
        }
    }
}

/// With an even number of layers, layered extraction inverts layered
/// replication. (With an odd count the toggled graph sequences do not line
/// up, so evenness is required.)
pub proof fn lemma_layered_round_trip(pp: DrgPublicParams, rid: Seq<u8>, d: Seq<u8>, l: nat)
    requires
        pp.wf(),
        data_wf(d, pp.spec_nodes()),
        l % 2 == 0,
    ensures
        spec_layered_decode(pp, rid, spec_layered_encode(pp, rid, d, l), l) == d,
    decreases l,
{
    if l >= 2 {
        let tpp = spec_transform(pp);
        let x = spec_layered_encode(pp, rid, d, l);
        let em1 = spec_layered_encode(pp, rid, d, (l - 1) as nat);
        let em2 = spec_layered_encode(pp, rid, d, (l - 2) as nat);
        assert((l - 1) % 2 == 1 && (l - 2) % 2 == 0) by (nonlinear_arith)
            requires l % 2 == 0 && l >= 2;
        lemma_encode_peel(pp, rid, d, l);
        assert(x == spec_encoded(tpp.graph, rid, pp.sloth_iter as nat, em1));
        lemma_encode_peel(pp, rid, d, (l - 1) as nat);
        assert(em1 == spec_encoded(pp.graph, rid, pp.sloth_iter as nat, em2));
        lemma_layered_encode_wf(pp, rid, d, (l - 1) as nat);
        lemma_layered_encode_wf(pp, rid, d, (l - 2) as nat);
        // Undo the newest layer, then the one below it.
        drgporep::lemma_extract_inverts_replicate(tpp.graph, rid, pp.sloth_iter as nat, em1);
        assert(spec_decoded(tpp.graph, rid, pp.sloth_iter as nat, x) == em1);
        drgporep::lemma_extract_inverts_replicate(pp.graph, rid, pp.sloth_iter as nat, em2);
        assert(spec_decoded(pp.graph, rid, pp.sloth_iter as nat, em1) == em2);
        // Two decode steps leave an even-layer instance of the same shape.
        assert(spec_layered_decode(pp, rid, x, l)
            == spec_layered_decode(tpp, rid, em1, (l - 1) as nat));
        assert(spec_transform(tpp) == pp);
        assert(spec_layered_decode(tpp, rid, em1, (l - 1) as nat)
            == spec_layered_decode(pp, rid, em2, (l - 2) as nat));
        lemma_layered_round_trip(pp, rid, d, (l - 2) as nat);
    }
}

/// Replicates all layers in place, collecting each layer's commitments and
/// trees.
pub fn transform_and_replicate_layers(drgpp: &DrgPublicParams, layers: usize, replica_id: &[u8],
    data: &mut Vec<u8>, taus: &mut Vec<Tau>, auxs: &mut Vec<ProverAux>)
    requires
        drgpp.wf(),
        data_wf(old(data)@, drgpp.spec_nodes()),
        drgpp.spec_nodes() >= 1,
        layers >= 1,
        old(taus)@.len() == 0,
        old(auxs)@.len() == 0,
    ensures
        final(data)@ == spec_layered_encode(*drgpp, replica_id@, old(data)@, layers as nat),
        data_wf(final(data)@, drgpp.spec_nodes()),
        final(taus)@.len() == layers,
        final(auxs)@.len() == layers,
        final(taus)@[0].comm_d@ == spec_comm(drgpp.graph.hasher, old(data)@, drgpp.spec_nodes()),
        final(taus)@[layers - 1].comm_r@
            == spec_comm(drgpp.graph.hasher, final(data)@, drgpp.spec_nodes()),
        forall|l: int| 0 <= l < layers ==> {
            &&& (#[trigger] final(taus)@[l]).comm_d@ == spec_comm(drgpp.graph.hasher,
                spec_layered_encode(*drgpp, replica_id@, old(data)@, l as nat), drgpp.spec_nodes())
            &&& final(taus)@[l].comm_r@ == spec_comm(drgpp.graph.hasher,
                spec_layered_encode(*drgpp, replica_id@, old(data)@, (l + 1) as nat),
                drgpp.spec_nodes())
        },
{
    let ghost d0 = data@;
    let mut pp: DrgPublicParams = *drgpp;
    let mut layer: usize = 0;
    while layer < layers
        invariant
            layer <= layers,
            drgpp.wf(),
            pp.wf(),
            pp.spec_nodes() == drgpp.spec_nodes() >= 1,
            pp.sloth_iter == drgpp.sloth_iter,
            pp.lambda == drgpp.lambda,
            pp.graph.hasher == drgpp.graph.hasher,
            data_wf(d0, drgpp.spec_nodes()),
            pp == spec_pp_at(*drgpp, layer as nat),
            data@ == spec_layered_encode(*drgpp, replica_id@, d0, layer as nat),
            data_wf(data@, drgpp.spec_nodes()),
            taus@.len() == layer,
            auxs@.len() == layer,
            layer >= 1 ==> taus@[0].comm_d@ == spec_comm(drgpp.graph.hasher, d0, drgpp.spec_nodes()),
            layer >= 1 ==> taus@[layer - 1].comm_r@
                == spec_comm(drgpp.graph.hasher, data@, drgpp.spec_nodes()),
            forall|l: int| 0 <= l < layer ==> {
                &&& (#[trigger] taus@[l]).comm_d@ == spec_comm(drgpp.graph.hasher,
                    spec_layered_encode(*drgpp, replica_id@, d0, l as nat), drgpp.spec_nodes())
                &&& taus@[l].comm_r@ == spec_comm(drgpp.graph.hasher,
                    spec_layered_encode(*drgpp, replica_id@, d0, (l + 1) as nat),
                    drgpp.spec_nodes())
            },
        decreases layers - layer,
    {
        let ghost before = data@;
        let (tau, aux) = drgporep::replicate(&pp, replica_id, data);
        proof {
            lemma_pp_at_step(*drgpp, layer as nat);
            lemma_pp_at_parity(*drgpp, layer as nat);
            lemma_pp_at_parity(*drgpp, (layer + 1) as nat);
            lemma_encode_peel(*drgpp, replica_id@, d0, (layer + 1) as nat);
            assert((layer + 1 - 1) % 2 == layer % 2);
            if layer % 2 == 1 {
                assert(pp.graph == spec_transform(*drgpp).graph);
            } else {
                assert(pp.graph == drgpp.graph);
            }
            assert(data@ == spec_layered_encode(*drgpp, replica_id@, d0, (layer + 1) as nat));
        }
        taus.push(tau);
        auxs.push(aux);
        pp = transform(&pp, layer, layers);
        layer = layer + 1;
    }
}

/// The parameters in force at layer `l`: the graph direction alternates.
pub open spec fn spec_pp_at(pp: DrgPublicParams, l: nat) -> DrgPublicParams
    decreases l,
{
    if l == 0 {
        pp
    } else {
        spec_transform(spec_pp_at(pp, (l - 1) as nat))
    }
}

proof fn lemma_pp_at_step(pp: DrgPublicParams, l: nat)
    ensures
        spec_pp_at(pp, l + 1) == spec_transform(spec_pp_at(pp, l)),
{
}

/// The alternating parameters repeat with period two.
proof fn lemma_pp_at_parity(pp: DrgPublicParams, l: nat)
    ensures
        spec_pp_at(pp, l) == if l % 2 == 1 { spec_transform(pp) } else { pp },
    decreases l,
{
    if l > 0 {
        lemma_pp_at_parity(pp, (l - 1) as nat);
        assert(spec_transform(spec_transform(pp)) == pp);
        if (l - 1) % 2 == 1 {
            assert(l % 2 == 0) by (nonlinear_arith)
                requires (l - 1) % 2 == 1 && l >= 1;
        } else {
            assert(l % 2 == 1) by (nonlinear_arith)
                requires (l - 1) % 2 == 0 && l >= 1;
        }
    }
}

/// Undoes all layers, newest first, toggling the direction before each
/// extraction.
pub fn extract_and_invert_transform_layers(drgpp: &DrgPublicParams, layers: usize,
    replica_id: &[u8], data: &mut Vec<u8>)
    requires
        drgpp.wf(),
        data_wf(old(data)@, drgpp.spec_nodes()),
        layers >= 1,
    ensures
        final(data)@ == spec_layered_decode(*drgpp, replica_id@, old(data)@, layers as nat),
        data_wf(final(data)@, drgpp.spec_nodes()),
{
    let ghost d0 = data@;
    let mut pp: DrgPublicParams = *drgpp;
    let mut layer: usize = 0;
    while layer < layers
        invariant
            layer <= layers,
            drgpp.wf(),
            pp.wf(),
            pp.spec_nodes() == drgpp.spec_nodes(),
            pp.sloth_iter == drgpp.sloth_iter,
            data_wf(data@, drgpp.spec_nodes()),
            spec_layered_decode(pp, replica_id@, data@, (layers - layer) as nat)
                == spec_layered_decode(*drgpp, replica_id@, d0, layers as nat),
        decreases layers - layer,
    {
        let inverted = invert_transform(&pp, layer, layers);
        let res = drgporep::extract_all(&inverted, replica_id, data);
        let mut i: usize = 0;
        // Copy the recovered layer back into the working buffer.
        let n32 = data.len();
        proof {
            assert(res@.len() == n32);
        }
        while i < n32
            invariant
                i <= n32,
                data@.len() == n32,
                res@.len() == n32,
                forall|p: int| 0 <= p < i ==> #[trigger] data@[p] == res@[p],
            decreases n32 - i,
        {
            let b = res[i];
            data.set(i, b);
            i = i + 1;
        }
        proof {
            assert(data@ =~= res@);
        }
        pp = inverted;
        layer = layer + 1;
    }
    proof {
        assert(spec_layered_decode(pp, replica_id@, data@, 0) == data@);
    }
}

/// Replicates all layers of a sector and returns the per-layer commitments
/// and trees.
pub fn replicate(pp: &PublicParams, replica_id: &[u8], data: &mut Vec<u8>) -> (res: (Vec<Tau>, Vec<ProverAux>))
    requires
        pp.wf(),
        data_wf(old(data)@, pp.drg_porep_public_params.spec_nodes()),
        pp.drg_porep_public_params.spec_nodes() >= 1,
        pp.layers >= 1,
    ensures
        final(data)@ == spec_layered_encode(pp.drg_porep_public_params, replica_id@, old(data)@,
            pp.layers as nat),
        data_wf(final(data)@, pp.drg_porep_public_params.spec_nodes()),
        res.0@.len() == pp.layers,
        res.1@.len() == pp.layers,
        res.0@[0].comm_d@ == spec_comm(pp.drg_porep_public_params.graph.hasher, old(data)@,
            pp.drg_porep_public_params.spec_nodes()),
        res.0@[pp.layers - 1].comm_r@ == spec_comm(pp.drg_porep_public_params.graph.hasher,
            final(data)@, pp.drg_porep_public_params.spec_nodes()),
        forall|l: int| 0 <= l < pp.layers ==> {
            &&& (#[trigger] res.0@[l]).comm_d@ == spec_comm(pp.drg_porep_public_params.graph.hasher,
                spec_layered_encode(pp.drg_porep_public_params, replica_id@, old(data)@, l as nat),
                pp.drg_porep_public_params.spec_nodes())
            &&& res.0@[l].comm_r@ == spec_comm(pp.drg_porep_public_params.graph.hasher,
                spec_layered_encode(pp.drg_porep_public_params, replica_id@, old(data)@,
                    (l + 1) as nat),
                pp.drg_porep_public_params.spec_nodes())
        },
{
    let mut taus: Vec<Tau> = Vec::new();
    let mut auxs: Vec<ProverAux> = Vec::new();
    transform_and_replicate_layers(&pp.drg_porep_public_params, pp.layers, replica_id, data,
        &mut taus, &mut auxs);
    (taus, auxs)
}

/// Recovers the original sector from a fully replicated one.
pub fn extract_all(pp: &PublicParams, replica_id: &[u8], data: &Vec<u8>) -> (r: Vec<u8>)
    requires
        pp.wf(),
        data_wf(data@, pp.drg_porep_public_params.spec_nodes()),
        pp.layers >= 1,
    ensures
        r@ == spec_layered_decode(pp.drg_porep_public_params, replica_id@, data@, pp.layers as nat),
        data_wf(r@, pp.drg_porep_public_params.spec_nodes()),
{
    let mut buf = slice_to_vec(data.as_slice());
    extract_and_invert_transform_layers(&pp.drg_porep_public_params, pp.layers, replica_id,
        &mut buf);
    buf
}

/// Builds the layered public parameters.
pub fn setup(sp: &SetupParams) -> (pp: PublicParams)
    requires
        sp.drg_porep_setup_params.lambda == 32,
        1 <= sp.drg_porep_setup_params.drg.degree,
        1 <= sp.drg_porep_setup_params.drg.nodes <= 0x0200_0000,
        1 <= sp.drg_porep_setup_params.drg.expansion_degree <= 0x4000_0000,
        sp.drg_porep_setup_params.drg.nodes * sp.drg_porep_setup_params.drg.degree <= 0x4000_0000,
        sp.drg_porep_setup_params.drg.expansion_degree * sp.drg_porep_setup_params.drg.nodes
            <= 0xFFFF_FFFF,
    ensures
        pp.wf(),
        pp.layers == sp.layers,
        pp.drg_porep_public_params.graph.base_graph.nodes == sp.drg_porep_setup_params.drg.nodes,
        pp.drg_porep_public_params.graph.base_graph.seed == sp.drg_porep_setup_params.drg.seed,
        pp.drg_porep_public_params.sloth_iter == sp.drg_porep_setup_params.sloth_iter,
        !pp.drg_porep_public_params.graph.reversed,
{
    let dp_sp = drgporep::setup(&sp.drg_porep_setup_params);
    PublicParams { drg_porep_public_params: dp_sp, layers: sp.layers }
}

/// What the layered verifier accepts: one full single-layer check per layer
/// under the alternating parameters, and the proof's commitment chain
/// collapsing to the public commitments.
pub open spec fn spec_layered_verify(pp: PublicParams, pub_inputs: PublicInputs, proof: Proof) -> bool {
    &&& proof.encoding_proofs@.len() == pp.layers
    &&& proof.tau@.len() == pp.layers
    &&& pp.layers >= 1
    &&& pub_inputs.tau is Some
    &&& proof.tau@[0].comm_d@ == pub_inputs.tau->0.comm_d@
    &&& proof.tau@[pp.layers - 1].comm_r@ == pub_inputs.tau->0.comm_r@
    &&& forall|l: int| 0 <= l < pp.layers
        ==> drgporep::spec_verify(spec_pp_at(pp.drg_porep_public_params, l as nat),
            layer_inputs(pub_inputs, (#[trigger] proof.tau@[l])), proof.encoding_proofs@[l])
}

/// The single-layer public inputs used at one layer.
pub open spec fn layer_inputs(pub_inputs: PublicInputs, tau: Tau) -> drgporep::PublicInputs {
    drgporep::PublicInputs {
        replica_id: pub_inputs.replica_id,
        challenges: pub_inputs.challenges,
        tau: Some(tau),
    }
}

/// Checks a layered proof: each layer's openings under the alternating
/// graph direction, and the commitment chain against the public pair.
pub fn verify(pp: &PublicParams, pub_inputs: &PublicInputs, proof: &Proof) -> (ok: bool)
    requires
        pp.wf(),
    ensures
        ok == spec_layered_verify(*pp, *pub_inputs, *proof),
{
    if proof.encoding_proofs.len() != pp.layers || proof.tau.len() != pp.layers
        || pp.layers == 0 {
        return false;
    }
    let public_tau = match &pub_inputs.tau {
        Some(t) => t,
        None => {
            return false;
        },
    };
    if !crate::merkle::eq_bytes(proof.tau[0].comm_d.as_slice(), public_tau.comm_d.as_slice()) {
        return false;
    }
    if !crate::merkle::eq_bytes(proof.tau[pp.layers - 1].comm_r.as_slice(),
        public_tau.comm_r.as_slice()) {
        return false;
    }
    let mut cur = pp.drg_porep_public_params;
    let mut l: usize = 0;
    while l < pp.layers
        invariant
            l <= pp.layers,
            pp.wf(),
            cur.wf(),
            cur == spec_pp_at(pp.drg_porep_public_params, l as nat),
            proof.encoding_proofs@.len() == pp.layers,
            proof.tau@.len() == pp.layers,
            pub_inputs.tau is Some,
            forall|w: int| 0 <= w < l
                ==> drgporep::spec_verify(spec_pp_at(pp.drg_porep_public_params, w as nat),
                    layer_inputs(*pub_inputs, (#[trigger] proof.tau@[w])),
                    proof.encoding_proofs@[w]),
        decreases pp.layers - l,
    {
        let layer_pub = drgporep::PublicInputs {
            replica_id: slice_to_vec(pub_inputs.replica_id.as_slice()),
            challenges: copy_usizes(&pub_inputs.challenges),
            tau: Some(Tau {
                comm_r: slice_to_vec(proof.tau[l].comm_r.as_slice()),
                comm_d: slice_to_vec(proof.tau[l].comm_d.as_slice()),
            }),
        };
        proof {
            assert(layer_pub.replica_id@ == pub_inputs.replica_id@);
            assert(layer_pub.challenges@ == pub_inputs.challenges@);
        }
        let res = drgporep::verify(&cur, &layer_pub, &proof.encoding_proofs[l]);
        proof {
            lemma_layer_inputs_eq(*pp, *pub_inputs, *proof, l as int, layer_pub);
            lemma_pp_at_step(pp.drg_porep_public_params, l as nat);
        }
        if !res {
            return false;
        }
        cur = transform(&cur, l, pp.layers);
        l = l + 1;
    }
    true
}

/// The rebuilt per-layer inputs check the same statement as the spec-level
/// ones: the single-layer checks depend only on the views of the fields.
proof fn lemma_layer_inputs_eq(pp: PublicParams, pub_inputs: PublicInputs, proof: Proof, l: int,
    built: drgporep::PublicInputs)
    requires
        0 <= l < proof.tau@.len(),
        built.replica_id@ == pub_inputs.replica_id@,
        built.challenges@ == pub_inputs.challenges@,
        built.tau is Some,
        built.tau->0.comm_r@ == proof.tau@[l].comm_r@,
        built.tau->0.comm_d@ == proof.tau@[l].comm_d@,
    ensures
        forall|dpp: DrgPublicParams, ep: EncodingProof|
            #[trigger] drgporep::spec_verify(dpp, built, ep)
                == drgporep::spec_verify(dpp, layer_inputs(pub_inputs, proof.tau@[l]), ep),
{
    assert forall|dpp: DrgPublicParams, ep: EncodingProof|
        #[trigger] drgporep::spec_verify(dpp, built, ep)
            == drgporep::spec_verify(dpp, layer_inputs(pub_inputs, proof.tau@[l]), ep) by {
        drgporep::lemma_verify_depends_on_views(dpp, built,
            layer_inputs(pub_inputs, proof.tau@[l]), ep);
    }
}

/// Proof soundness, the completeness direction: the proof the layered prover
/// builds from the true layer states passes the layered verifier against the
/// collapsed commitments.
pub proof fn lemma_layers_verify(pp: PublicParams, pub_inputs: PublicInputs, proof: Proof,
    d0: Seq<u8>)
    requires
        pp.wf(),
        pp.layers >= 1,
        data_wf(d0, pp.drg_porep_public_params.spec_nodes()),
        pub_inputs.tau is Some,
        proof.encoding_proofs@.len() == pp.layers,
        proof.tau@.len() == pp.layers,
        pub_inputs.tau->0.comm_d@ == proof.tau@[0].comm_d@,
        pub_inputs.tau->0.comm_r@ == proof.tau@[pp.layers - 1].comm_r@,
        forall|l: int| 0 <= l < pp.layers ==> drgporep::proof_opens(
            spec_pp_at(pp.drg_porep_public_params, l as nat), pub_inputs.replica_id@,
            pub_inputs.challenges@, #[trigger] proof.tau@[l], proof.encoding_proofs@[l],
            spec_layered_encode(pp.drg_porep_public_params, pub_inputs.replica_id@, d0, l as nat)),
    ensures
        spec_layered_verify(pp, pub_inputs, proof),
{
    let pp0 = pp.drg_porep_public_params;
    let rid = pub_inputs.replica_id@;
    assert forall|l: int| 0 <= l < pp.layers implies
        drgporep::spec_verify(spec_pp_at(pp0, l as nat),
            layer_inputs(pub_inputs, #[trigger] proof.tau@[l]), proof.encoding_proofs@[l]) by {
        lemma_pp_at_parity(pp0, l as nat);
        let ppl = spec_pp_at(pp0, l as nat);
        assert(ppl.wf());
        lemma_layered_encode_wf(pp0, rid, d0, l as nat);
        assert(ppl.spec_nodes() == pp0.spec_nodes());
        drgporep::lemma_prove_verifies(ppl, layer_inputs(pub_inputs, proof.tau@[l]),
            proof.encoding_proofs@[l],
            spec_layered_encode(pp0, rid, d0, l as nat));
    }
}

/// There is a set of public inputs — the given replica identity, the
/// reference challenge, and the given commitment pair — that this proof
/// verifies against.
pub open spec fn spec_seal_checks(pp: PublicParams, rid: Seq<u8>, comm_r: Seq<u8>,
    comm_d: Seq<u8>, proof: Proof) -> bool {
    exists|pi: PublicInputs| {
        &&& pi.replica_id@ == rid
        &&& pi.challenges@ == seq![1usize]
        &&& pi.tau is Some
        &&& (#[trigger] pi.tau->0).comm_r@ == comm_r
        &&& pi.tau->0.comm_d@ == comm_d
        &&& spec_layered_verify(pp, pi, proof)
    }
}

/// Introduces `spec_seal_checks` from a concrete verifying input set.
pub proof fn lemma_seal_checks_intro(pp: PublicParams, pi: PublicInputs, proof: Proof,
    rid: Seq<u8>, comm_r: Seq<u8>, comm_d: Seq<u8>)
    requires
        pi.replica_id@ == rid,
        pi.challenges@ == seq![1usize],
        pi.tau is Some,
        pi.tau->0.comm_r@ == comm_r,
        pi.tau->0.comm_d@ == comm_d,
        spec_layered_verify(pp, pi, proof),
    ensures
        spec_seal_checks(pp, rid, comm_r, comm_d, proof),
{
}

/// Copies a vector of indices.
fn copy_usizes(v: &Vec<usize>) -> (r: Vec<usize>)
    ensures
        r@ == v@,
{
    let mut out: Vec<usize> = Vec::new();
    let mut i: usize = 0;
    while i < v.len()
        invariant
            i <= v@.len(),
            out@ == v@.subrange(0, i as int),
        decreases v@.len() - i,
    {
        out.push(v[i]);
        proof {
            assert(v@.subrange(0, i + 1) =~= v@.subrange(0, i as int).push(v@[i as int]));
        }
        i = i + 1;
    }
    proof {
        assert(v@.subrange(0, v@.len() as int) =~= v@);
    }
    out
}

/// Builds the layered proof: for each layer, re-replicate a scratch copy up
/// to that layer's state and defer to the single-layer prover. Each layer's
/// proof opens the true layer states against the given commitments.
#[verifier::rlimit(100)]
pub fn prove_layers(pp: &DrgPublicParams, pub_inputs: &PublicInputs, priv_replica: &Vec<u8>,
    tau: &Vec<Tau>, aux: &Vec<ProverAux>, layers: usize, proofs: &mut Vec<EncodingProof>)
    requires
        pp.wf(),
        layers >= 1,
        data_wf(priv_replica@, pp.spec_nodes()),
        pp.spec_nodes() >= 1,
        tau@.len() >= layers,
        aux@.len() >= layers,
        forall|i: int| 0 <= i < pub_inputs.challenges@.len()
            ==> 0 <= (#[trigger] pub_inputs.challenges@[i] as int) < pp.spec_nodes(),
        forall|l: int| 0 <= l < layers ==> {
            &&& (#[trigger] tau@[l]).comm_d@ == spec_comm(pp.graph.hasher,
                spec_layered_encode(*pp, pub_inputs.replica_id@, priv_replica@, l as nat),
                pp.spec_nodes())
            &&& tau@[l].comm_r@ == spec_comm(pp.graph.hasher,
                spec_layered_encode(*pp, pub_inputs.replica_id@, priv_replica@, (l + 1) as nat),
                pp.spec_nodes())
        },
        old(proofs)@.len() == 0,
    ensures
        final(proofs)@.len() == layers,
        forall|l: int| 0 <= l < layers ==> drgporep::proof_opens(
            spec_pp_at(*pp, l as nat), pub_inputs.replica_id@, pub_inputs.challenges@,
            #[trigger] tau@[l], final(proofs)@[l],
            spec_layered_encode(*pp, pub_inputs.replica_id@, priv_replica@, l as nat)),
{
    let mut scratch = slice_to_vec(priv_replica.as_slice());
    let mut cur: DrgPublicParams = *pp;
    let mut layer: usize = 0;
    while layer < layers
        invariant
            layer <= layers,
            pp.wf(),
            cur.wf(),
            cur.spec_nodes() == pp.spec_nodes() >= 1,
            cur.sloth_iter == pp.sloth_iter,
            cur.lambda == pp.lambda,
            cur.graph.hasher == pp.graph.hasher,
            cur == spec_pp_at(*pp, layer as nat),
            data_wf(priv_replica@, pp.spec_nodes()),
            scratch@ == spec_layered_encode(*pp, pub_inputs.replica_id@, priv_replica@,
                layer as nat),
            data_wf(scratch@, pp.spec_nodes()),
            layers >= 1,
            tau@.len() >= layers,
            forall|i: int| 0 <= i < pub_inputs.challenges@.len()
                ==> 0 <= (#[trigger] pub_inputs.challenges@[i] as int) < pp.spec_nodes(),
            forall|l: int| 0 <= l < layers ==> {
                &&& (#[trigger] tau@[l]).comm_d@ == spec_comm(pp.graph.hasher,
                    spec_layered_encode(*pp, pub_inputs.replica_id@, priv_replica@, l as nat),
                    pp.spec_nodes())
                &&& tau@[l].comm_r@ == spec_comm(pp.graph.hasher,
                    spec_layered_encode(*pp, pub_inputs.replica_id@, priv_replica@, (l + 1) as nat),
                    pp.spec_nodes())
            },
            proofs@.len() == layer,
            forall|l: int| 0 <= l < layer ==> drgporep::proof_opens(
                spec_pp_at(*pp, l as nat), pub_inputs.replica_id@, pub_inputs.challenges@,
                #[trigger] tau@[l], proofs@[l],
                spec_layered_encode(*pp, pub_inputs.replica_id@, priv_replica@, l as nat)),
        decreases layers - layer,
    {
        let ghost state_l = scratch@;
        // Advance the scratch replica by one layer; its trees answer the
        // challenges for this layer.
        let (_tau, aux_l) = drgporep::replicate(&cur, pub_inputs.replica_id.as_slice(),
            &mut scratch);
        proof {
            lemma_pp_at_step(*pp, layer as nat);
            lemma_pp_at_parity(*pp, layer as nat);
            lemma_pp_at_parity(*pp, (layer + 1) as nat);
            lemma_encode_peel(*pp, pub_inputs.replica_id@, priv_replica@, (layer + 1) as nat);
            assert((layer + 1 - 1) % 2 == layer % 2);
            if layer % 2 == 1 {
                assert(cur.graph == spec_transform(*pp).graph);
            } else {
                assert(cur.graph == pp.graph);
            }
            assert(scratch@ == spec_layered_encode(*pp, pub_inputs.replica_id@, priv_replica@,
                (layer + 1) as nat));
        }
        let layer_proof = prove_one_layer(&cur, pub_inputs, &tau[layer], &scratch, &aux_l,
            Ghost(state_l));
        proofs.push(layer_proof);
        cur = transform(&cur, layer, layers);
        layer = layer + 1;
    }
}


/// One layer of proving: defers to the single-layer prover and packages the
/// result as an opening of the layer's state.
fn prove_one_layer(cur: &DrgPublicParams, pub_inputs: &PublicInputs, tau_l: &Tau,
    scratch: &Vec<u8>, aux_l: &ProverAux, Ghost(state_l): Ghost<Seq<u8>>)
    -> (layer_proof: EncodingProof)
    requires
        cur.wf(),
        data_wf(scratch@, cur.spec_nodes()),
        scratch@ == spec_encoded(cur.graph, pub_inputs.replica_id@, cur.sloth_iter as nat,
            state_l),
        aux_l.tree_r.wf(),
        aux_l.tree_d.wf(),
        aux_l.tree_r.kind == cur.graph.hasher,
        aux_l.tree_d.kind == cur.graph.hasher,
        aux_l.tree_r.spec_leaves() == drgporep::spec_slots(scratch@, cur.spec_nodes()),
        aux_l.tree_d.spec_leaves() == drgporep::spec_slots(state_l, cur.spec_nodes()),
        tau_l.comm_d@ == spec_comm(cur.graph.hasher, state_l, cur.spec_nodes()),
        tau_l.comm_r@ == spec_comm(cur.graph.hasher, scratch@, cur.spec_nodes()),
        forall|i: int| 0 <= i < pub_inputs.challenges@.len()
            ==> 0 <= (#[trigger] pub_inputs.challenges@[i] as int) < cur.spec_nodes(),
    ensures
        drgporep::proof_opens(*cur, pub_inputs.replica_id@, pub_inputs.challenges@, *tau_l,
            layer_proof, state_l),
{
    let layer_pub = drgporep::PublicInputs {
        replica_id: slice_to_vec(pub_inputs.replica_id.as_slice()),
        challenges: copy_usizes(&pub_inputs.challenges),
        tau: Some(Tau {
            comm_r: slice_to_vec(tau_l.comm_r.as_slice()),
            comm_d: slice_to_vec(tau_l.comm_d.as_slice()),
        }),
    };
    let layer_proof = drgporep::prove(cur, &layer_pub, scratch, aux_l);
    proof {
        drgporep::lemma_opens_of_prove(*cur, pub_inputs.replica_id@, pub_inputs.challenges@,
            *tau_l, layer_proof, state_l, scratch@, aux_l.tree_d, aux_l.tree_r);
    }
    layer_proof
}

/// Produces the layered proof from the prover's inputs. Each layer's proof
/// opens the true layer states against the prover's own commitments.
pub fn prove(pub_params: &PublicParams, pub_inputs: &PublicInputs, priv_inputs: &PrivateInputs) -> (p: Proof)
    requires
        pub_params.wf(),
        pub_params.layers >= 1,
        data_wf(priv_inputs.replica@, pub_params.drg_porep_public_params.spec_nodes()),
        pub_params.drg_porep_public_params.spec_nodes() >= 1,
        priv_inputs.tau@.len() >= pub_params.layers,
        priv_inputs.aux@.len() >= pub_params.layers,
        forall|i: int| 0 <= i < pub_inputs.challenges@.len()
            ==> 0 <= (#[trigger] pub_inputs.challenges@[i] as int)
                < pub_params.drg_porep_public_params.spec_nodes(),
        forall|l: int| 0 <= l < pub_params.layers ==> {
            &&& (#[trigger] priv_inputs.tau@[l]).comm_d@
                == spec_comm(pub_params.drg_porep_public_params.graph.hasher,
                    spec_layered_encode(pub_params.drg_porep_public_params,
                        pub_inputs.replica_id@, priv_inputs.replica@, l as nat),
                    pub_params.drg_porep_public_params.spec_nodes())
            &&& priv_inputs.tau@[l].comm_r@
                == spec_comm(pub_params.drg_porep_public_params.graph.hasher,
                    spec_layered_encode(pub_params.drg_porep_public_params,
                        pub_inputs.replica_id@, priv_inputs.replica@, (l + 1) as nat),
                    pub_params.drg_porep_public_params.spec_nodes())
        },
    ensures
        p.encoding_proofs@.len() == pub_params.layers,
        p.tau@.len() == priv_inputs.tau@.len(),
        forall|l: int| 0 <= l < priv_inputs.tau@.len() ==> {
            &&& (#[trigger] p.tau@[l]).comm_r@ == priv_inputs.tau@[l].comm_r@
            &&& p.tau@[l].comm_d@ == priv_inputs.tau@[l].comm_d@
        },
        forall|l: int| 0 <= l < pub_params.layers ==> drgporep::proof_opens(
            spec_pp_at(pub_params.drg_porep_public_params, l as nat), pub_inputs.replica_id@,
            pub_inputs.challenges@, #[trigger] p.tau@[l], p.encoding_proofs@[l],
            spec_layered_encode(pub_params.drg_porep_public_params, pub_inputs.replica_id@,
                priv_inputs.replica@, l as nat)),
{
    let mut proofs: Vec<EncodingProof> = Vec::new();
    prove_layers(&pub_params.drg_porep_public_params, pub_inputs, &priv_inputs.replica,
        &priv_inputs.tau, &priv_inputs.aux, pub_params.layers, &mut proofs);
    let mut tau_copy: Vec<Tau> = Vec::new();
    let mut i: usize = 0;
    while i < priv_inputs.tau.len()
        invariant
            i <= priv_inputs.tau@.len(),
            tau_copy@.len() == i,
            forall|l: int| 0 <= l < i ==> {
                &&& (#[trigger] tau_copy@[l]).comm_r@ == priv_inputs.tau@[l].comm_r@
                &&& tau_copy@[l].comm_d@ == priv_inputs.tau@[l].comm_d@
            },
        decreases priv_inputs.tau@.len() - i,
    {
        tau_copy.push(Tau {
            comm_r: slice_to_vec(priv_inputs.tau[i].comm_r.as_slice()),
            comm_d: slice_to_vec(priv_inputs.tau[i].comm_d.as_slice()),
        });
        i = i + 1;
    }
    let p = Proof::new(proofs, tau_copy);
    proof {
        assert forall|l: int| 0 <= l < pub_params.layers implies drgporep::proof_opens(
            spec_pp_at(pub_params.drg_porep_public_params, l as nat), pub_inputs.replica_id@,
            pub_inputs.challenges@, #[trigger] p.tau@[l], p.encoding_proofs@[l],
            spec_layered_encode(pub_params.drg_porep_public_params, pub_inputs.replica_id@,
                priv_inputs.replica@, l as nat)) by {
            drgporep::lemma_opens_views(
                spec_pp_at(pub_params.drg_porep_public_params, l as nat),
                pub_inputs.replica_id@, pub_inputs.challenges@, priv_inputs.tau@[l], p.tau@[l],
                p.encoding_proofs@[l],
                spec_layered_encode(pub_params.drg_porep_public_params, pub_inputs.replica_id@,
                    priv_inputs.replica@, l as nat));
        }
    }
    p
}

} // verus!
