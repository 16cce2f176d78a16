use rand::Rng;

use storage_proofs::field::{add_mod, sub_mod, sloth_encode, sloth_decode};
use storage_proofs::hasher::{digest, HasherKind};
use storage_proofs::merkle::{verify_path, MerkleTree};

use storage_proofs::drgporep;
use storage_proofs::fr32::{write_padded, write_unpadded};
use storage_proofs::internal::{derive_challenges, dummy_parameter_cache_path, get_config,
    public_params, seal_core, get_unsealed_range_core, verify_seal_core, ApiError,
    FAKE_SECTOR_BYTES};
use storage_proofs::layered_drgporep;
use storage_proofs::responses::{err_code_and_msg, status_to_string, FCPResponseStatus};
use storage_proofs::sector_store::{new_real_sector_store, new_sector_store,
    new_fast_fake_sector_store, new_slow_fake_sector_store, ConfiguredStore};

/// Random sector contents whose every byte keeps its top two bits clear, so
/// every 32-byte slot is a valid field element.
fn make_data(len: usize) -> Vec<u8> {
    let mut rng = rand::thread_rng();
    (0..len).map(|_| rng.gen::<u8>() & 0b0011_1111).collect()
}

#[test]
fn seal_verify_proof_test() {
    // The ProofTest store: a real 128-byte sector.
    let store = new_real_sector_store(String::from("sealed"), String::from("staging"));
    let (fake, _delay, sector_bytes, proof_sector_bytes) = get_config(&store);
    assert!(!fake);
    assert_eq!(sector_bytes, 128);
    assert_eq!(proof_sector_bytes, 128);

    let pp = public_params(proof_sector_bytes);
    let prover_id = [2u8; 31];
    let sector_id = [0u8; 31];
    let data = make_data(sector_bytes);

    let out = seal_core(&pp, fake, sector_bytes, proof_sector_bytes, data.clone(), &prover_id,
        &sector_id).expect("seal failed");

    // The proof the sealer returns verifies against the returned commitments.
    let ok = verify_seal_core(&pp, &out.comm_r, &out.comm_d, &prover_id, &sector_id, &out.proof);
    assert!(ok);

    // A mangled commitment is rejected.
    let mut bad_comm_r = out.comm_r.clone();
    bad_comm_r[0] ^= 1;
    let bad = verify_seal_core(&pp, &bad_comm_r, &out.comm_d, &prover_id, &sector_id, &out.proof);
    assert!(!bad);
}

#[test]
fn seal_unsealed_roundtrip_proof_test() {
    let store = new_real_sector_store(String::from("sealed"), String::from("staging"));
    let (fake, _delay, sector_bytes, proof_sector_bytes) = get_config(&store);

    let pp = public_params(proof_sector_bytes);
    let prover_id = [2u8; 31];
    let sector_id = [0u8; 31];

    // Contents as a user would stage them: padded into the sector.
    let contents = make_data(sector_bytes - 50);
    let mut staged = write_padded(&contents);
    while staged.len() < sector_bytes {
        staged.push(0);
    }

    let out = seal_core(&pp, fake, sector_bytes, proof_sector_bytes, staged.clone(), &prover_id,
        &sector_id).expect("seal failed");

    // Unseal the whole sector and compare the prefix with the contents.
    let unsealed = get_unsealed_range_core(&pp, fake, sector_bytes, out.persisted.clone(),
        &prover_id, &sector_id, 0, sector_bytes).expect("unseal failed");
    assert_eq!(&unsealed[0..contents.len()], contents.as_slice());
}

#[test]
fn seal_unsealed_range_roundtrip_proof_test() {
    let store = new_real_sector_store(String::from("sealed"), String::from("staging"));
    let (fake, _delay, sector_bytes, proof_sector_bytes) = get_config(&store);

    let pp = public_params(proof_sector_bytes);
    let prover_id = [2u8; 31];
    let sector_id = [0u8; 31];

    let contents = make_data(sector_bytes - 50);
    let mut staged = write_padded(&contents);
    while staged.len() < sector_bytes {
        staged.push(0);
    }

    let out = seal_core(&pp, fake, sector_bytes, proof_sector_bytes, staged.clone(), &prover_id,
        &sector_id).expect("seal failed");

    let offset = 5;
    let range_length = contents.len() - offset;
    let unsealed = get_unsealed_range_core(&pp, fake, sector_bytes, out.persisted.clone(),
        &prover_id, &sector_id, offset, range_length).expect("unseal failed");
    assert_eq!(unsealed.len(), range_length);
    assert_eq!(unsealed.as_slice(), &contents[offset..]);
}

#[test]
fn seal_verify_fake_store() {
    // A fake store proves only the first FAKE_SECTOR_BYTES of the sector and
    // persists the original data.
    let store = new_fast_fake_sector_store(String::from("sealed"), String::from("staging"));
    let (fake, delay, sector_bytes, proof_sector_bytes) = get_config(&store);
    assert!(fake);
    assert!(delay.is_some());
    assert_eq!(sector_bytes, 1024);
    assert_eq!(proof_sector_bytes, FAKE_SECTOR_BYTES);

    let pp = public_params(proof_sector_bytes);
    let prover_id = [7u8; 31];
    let sector_id = [1u8; 31];
    let data = make_data(sector_bytes);

    let out = seal_core(&pp, fake, sector_bytes, proof_sector_bytes, data.clone(), &prover_id,
        &sector_id).expect("seal failed");
    assert_eq!(out.persisted, data);

    assert!(verify_seal_core(&pp, &out.comm_r, &out.comm_d, &prover_id, &sector_id, &out.proof));

    // When faking, the sealed file IS the original data.
    let unsealed = get_unsealed_range_core(&pp, fake, sector_bytes, out.persisted.clone(),
        &prover_id, &sector_id, 0, 64).expect("unseal failed");
    // The unpadded view of the original data starts with its payload bytes.
    let expected = write_unpadded(&data, 0, 64);
    assert_eq!(unsealed, expected);
}

#[test]
fn seal_rejects_invalid_sector() {
    let pp = public_params(128);
    let prover_id = [2u8; 31];
    let sector_id = [0u8; 31];
    // A slot with all bits set is not a valid field element.
    let data = vec![0xffu8; 128];
    let res = seal_core(&pp, false, 128, 128, data, &prover_id, &sector_id);
    assert!(matches!(res, Err(ApiError::CallerError)));

    // So is a sector of the wrong size.
    let res2 = seal_core(&pp, false, 128, 128, vec![0u8; 100], &prover_id, &sector_id);
    assert!(matches!(res2, Err(ApiError::CallerError)));
}

#[test]
fn unseal_rejects_invalid_sector() {
    let pp = public_params(128);
    let prover_id = [2u8; 31];
    let sector_id = [0u8; 31];
    let res = get_unsealed_range_core(&pp, false, 128, vec![0xffu8; 128], &prover_id, &sector_id,
        0, 10);
    assert!(matches!(res, Err(ApiError::CallerError)));
}

#[test]
fn layered_extract_inverts_replicate() {
    // Replicate a 128-byte sector through both layers and extract it back.
    let pp = public_params(128);
    let data = make_data(128);
    let prover_id = [3u8; 31];
    let sector_id = [4u8; 31];
    let rid = storage_proofs::internal::replica_id_from_parts(&prover_id, &sector_id);

    let mut replica = data.clone();
    let (taus, _auxs) = layered_drgporep::replicate(&pp, &rid, &mut replica);
    assert_eq!(taus.len(), 2);
    assert_ne!(replica, data);

    let recovered = layered_drgporep::extract_all(&pp, &rid, &replica);
    assert_eq!(recovered, data);
}

#[test]
fn single_layer_extract_inverts_replicate() {
    let pp = public_params(128).drg_porep_public_params;
    let data = make_data(128);
    let rid = make_data(32);

    let mut replica = data.clone();
    let (tau, _aux) = drgporep::replicate(&pp, &rid, &mut replica);
    assert_ne!(tau.comm_r, tau.comm_d);

    let recovered = drgporep::extract_all(&pp, &rid, &replica);
    assert_eq!(recovered, data);
}

#[test]
fn store_configurations() {
    let live = new_slow_fake_sector_store(String::from("a"), String::from("b"));
    assert!(live.config().is_fake());
    assert_eq!(live.config().max_unsealed_bytes_per_sector(), 0x4000_0000);

    let test_store = new_sector_store(&ConfiguredStore::Test, String::from("a"),
        String::from("b"));
    assert!(test_store.config().is_fake());
    assert_eq!(test_store.config().simulate_delay_seconds(), Some(10));

    let proof_store = new_sector_store(&ConfiguredStore::ProofTest, String::from("a"),
        String::from("b"));
    assert!(!proof_store.config().is_fake());
    assert_eq!(proof_store.config().simulate_delay_seconds(), None);
    assert_eq!(proof_store.config().max_unsealed_bytes_per_sector(), 128);
}

#[test]
fn challenge_and_path_helpers() {
    assert_eq!(derive_challenges(&[0u8; 32], &[0u8; 32]), vec![1]);
    assert_eq!(dummy_parameter_cache_path(128), "API-dummy-parameters[128]");
    assert_eq!(dummy_parameter_cache_path(1073741824), "API-dummy-parameters[1073741824]");
}

#[test]
fn status_codes_and_messages() {
    assert_eq!(status_to_string(0), "success");
    assert_eq!(status_to_string(20), "invalid replica and/or data commitment");
    assert_eq!(status_to_string(81), "could not create sealed sector");
    assert_eq!(status_to_string(99), "unknown status code 99");
    assert_eq!(status_to_string(1234), "unknown status code 1234");

    let (code, _msg) = err_code_and_msg(&ApiError::CallerError);
    assert_eq!(code, FCPResponseStatus::FCPCallerError);
    assert_eq!(code.code(), 2);
    let (code2, _msg2) = err_code_and_msg(&ApiError::ReceiverError);
    assert_eq!(code2.code(), 3);
    let (code3, _msg3) = err_code_and_msg(&ApiError::InternalError);
    assert_eq!(code3.code(), 1);
}

#[test]
fn field_arithmetic_round_trip() {
    let a = {
        let mut v = vec![0u8; 32];
        v[0] = 200;
        v[31] = 0x3f;
        v
    };
    let b = {
        let mut v = vec![0u8; 32];
        v[0] = 77;
        v[31] = 0x3f;
        v
    };
    let s = add_mod(&a, &b);
    let back = sub_mod(&s, &b);
    assert_eq!(back, a);

    let enc = sloth_encode(&b, &a, 3);
    let dec = sloth_decode(&b, &enc, 3);
    assert_eq!(dec, a);
    assert_ne!(enc, a);
}

#[test]
fn merkle_openings_bind() {
    let leaves: Vec<Vec<u8>> = (0..5u8).map(|i| vec![i; 32]).collect();
    let tree = MerkleTree::build(HasherKind::Pedersen, leaves.clone());
    let root = tree.root();
    for i in 0..5 {
        let path = tree.gen_path(i);
        assert!(verify_path(HasherKind::Pedersen, &leaves[i], &path, &root));
        // The opening does not check out against a different leaf.
        assert!(!verify_path(HasherKind::Pedersen, &leaves[(i + 1) % 5], &path, &root));
    }
}

#[test]
fn digest_is_field_safe() {
    let d1 = digest(HasherKind::Pedersen, b"abc");
    let d2 = digest(HasherKind::Sha256, b"abc");
    let d3 = digest(HasherKind::Pedersen, b"abc");
    assert_eq!(d1.len(), 32);
    assert!(d1[31] < 64);
    assert_ne!(d1, d2);
    assert_eq!(d1, d3);
}
