use shielded_pool::block::ValidationState;
use shielded_pool::coins::{CoinViewCache, CoinsView};
use shielded_pool::hash::{FrHash, Uint256};
use shielded_pool::mempool::{
    accept_to_mem_pool, admit_to_mem_pool, clashes_with_pool, have_shield_requirements, TxMemPool,
    TxMemPoolEntry,
};
use shielded_pool::proofs::{contextual_check_transaction, shielded_verdict, ProofVerifier};
use shielded_pool::transaction::{
    SaplingOutPoint, SaplingOutputDescription, SaplingSpendDescription, Script, Transaction, TxIn,
};
use shielded_pool::tree::SaplingMerkleTree;

fn digest(n: u8) -> FrHash {
    let mut bytes = [0u8; 32];
    bytes[0] = n;
    bytes[30] = 2;
    FrHash::from_bytes(bytes).unwrap()
}

fn spend(n: u8, anchor: FrHash) -> SaplingSpendDescription {
    SaplingSpendDescription {
        cv: [0u8; 32],
        anchor,
        nullifier: Uint256::new([n; 32]),
        rk: [0u8; 32],
        zkproof: [0u8; 192],
        spend_auth_sig: Some([0u8; 64]),
    }
}

fn tx(hash: u8, inputs: &[(u8, usize)], spends: Vec<SaplingSpendDescription>) -> Transaction {
    Transaction {
        hash: digest(hash),
        coinbase: false,
        vin: inputs
            .iter()
            .map(|(h, n)| TxIn {
                prevout: SaplingOutPoint { hash: digest(*h), n: *n },
                script_sig: Script { bytes: Vec::new() },
            })
            .collect(),
        vout: Vec::new(),
        v_shielded_spend: spends,
        v_shielded_output: Vec::new(),
        balancing_value: 0,
        binding_sig: [0u8; 64],
    }
}

fn uncompressed_g1() -> [u8; 96] {
    bls12_381::G1Affine::generator().to_uncompressed()
}

fn uncompressed_g2() -> [u8; 192] {
    bls12_381::G2Affine::generator().to_uncompressed()
}

fn parameters(inputs: u32) -> Vec<u8> {
    let mut bytes = Vec::new();
    bytes.extend_from_slice(&uncompressed_g1());
    bytes.extend_from_slice(&uncompressed_g1());
    bytes.extend_from_slice(&uncompressed_g2());
    bytes.extend_from_slice(&uncompressed_g2());
    bytes.extend_from_slice(&uncompressed_g1());
    bytes.extend_from_slice(&uncompressed_g2());
    bytes.extend_from_slice(&(inputs + 1).to_be_bytes());
    for _ in 0..(inputs + 1) {
        bytes.extend_from_slice(&uncompressed_g1());
    }
    for _ in 0..5 {
        bytes.extend_from_slice(&0u32.to_be_bytes());
    }
    bytes
}

fn spend_key() -> sapling_crypto::circuit::PreparedSpendVerifyingKey {
    sapling_crypto::circuit::SpendParameters::read(&parameters(7)[..], false)
        .unwrap()
        .prepared_verifying_key()
}

fn output_key() -> sapling_crypto::circuit::PreparedOutputVerifyingKey {
    sapling_crypto::circuit::OutputParameters::read(&parameters(5)[..], false)
        .unwrap()
        .prepared_verifying_key()
}

fn proof_keys() -> ProofVerifier {
    ProofVerifier::new(spend_key(), output_key())
}

fn view_with_anchor() -> (CoinViewCache, FrHash) {
    let mut view = CoinViewCache::new();
    let mut tree = SaplingMerkleTree::new();
    tree.append(digest(1)).unwrap();
    let root = tree.root();
    view.push_anchor(tree);
    (view, root)
}

#[test]
fn a_transaction_without_shielded_parts_needs_no_proof() {
    let state = ValidationState {};
    let plain = tx(1, &[(9, 0)], Vec::new());
    assert!(contextual_check_transaction(&plain, &state, &[0u8; 32], &proof_keys()));
}

#[test]
fn a_spend_that_does_not_decode_fails_the_check() {
    let state = ValidationState {};
    let bad = tx(1, &[], vec![spend(1, digest(0))]);
    assert!(!contextual_check_transaction(&bad, &state, &[0u8; 32], &proof_keys()));
    let mut unsigned = tx(1, &[], vec![spend(1, digest(0))]);
    unsigned.v_shielded_spend[0].spend_auth_sig = None;
    assert!(!contextual_check_transaction(&unsigned, &state, &[0u8; 32], &proof_keys()));
}

#[test]
fn an_output_that_does_not_decode_fails_the_check() {
    let state = ValidationState {};
    let mut bad = tx(1, &[], Vec::new());
    bad.v_shielded_output.push(SaplingOutputDescription {
        cv: [0xffu8; 32],
        cmu: digest(3),
        ephemeral_key: [0xffu8; 32],
        zkproof: [0u8; 192],
    });
    assert!(!contextual_check_transaction(&bad, &state, &[0u8; 32], &proof_keys()));
}

#[test]
fn the_verdict_needs_every_part() {
    assert!(shielded_verdict(false, false, false, false));
    assert!(shielded_verdict(true, true, true, true));
    assert!(!shielded_verdict(true, false, true, true));
    assert!(!shielded_verdict(true, true, false, true));
    assert!(!shielded_verdict(true, true, true, false));
}

#[test]
fn shielded_spends_need_an_unspent_nullifier_and_a_known_anchor() {
    let (mut view, root) = view_with_anchor();
    assert!(have_shield_requirements(&mut view, &tx(1, &[], vec![spend(1, root), spend(2, root)])));
    assert!(!have_shield_requirements(&mut view, &tx(1, &[], vec![spend(1, digest(77))])));
    view.set_nullifiers(&tx(5, &[], vec![spend(2, root)]), true);
    assert!(!have_shield_requirements(&mut view, &tx(1, &[], vec![spend(1, root), spend(2, root)])));
    assert!(have_shield_requirements(&mut view, &tx(1, &[], Vec::new())));
}

#[test]
fn admission_adds_the_transaction_with_what_it_spends() {
    let (mut view, root) = view_with_anchor();
    let mut pool = TxMemPool::new();
    let first = tx(1, &[(9, 0)], vec![spend(1, root)]);
    assert!(!clashes_with_pool(&pool, &first));
    assert!(admit_to_mem_pool(&mut pool, &first, &mut view, true));
    assert!(pool.contains(digest(1)));
    assert!(pool.nullifier_exists(Uint256::new([1; 32])));
    assert!(!pool.nullifier_exists(Uint256::new([2; 32])));
    assert!(pool.spends_input(&SaplingOutPoint { hash: digest(9), n: 0 }));
    assert!(!pool.spends_input(&SaplingOutPoint { hash: digest(9), n: 1 }));

    assert!(!admit_to_mem_pool(&mut pool, &first, &mut view, true));
    assert!(!admit_to_mem_pool(&mut pool, &tx(2, &[(9, 0)], Vec::new()), &mut view, true));
    assert!(!admit_to_mem_pool(&mut pool, &tx(3, &[], vec![spend(1, root)]), &mut view, true));
    assert!(!admit_to_mem_pool(&mut pool, &tx(4, &[], vec![spend(4, digest(77))]), &mut view, true));
    assert!(!admit_to_mem_pool(&mut pool, &tx(5, &[], Vec::new()), &mut view, false));
    let mut coinbase = tx(6, &[], Vec::new());
    coinbase.coinbase = true;
    assert!(!admit_to_mem_pool(&mut pool, &coinbase, &mut view, true));
    for h in 2..=6u8 {
        assert!(!pool.contains(digest(h)));
    }
    assert!(admit_to_mem_pool(&mut pool, &tx(7, &[(9, 1)], vec![spend(7, root)]), &mut view, true));
    assert!(pool.contains(digest(7)));
}

#[test]
fn acceptance_runs_every_check() {
    let state = ValidationState {};
    let (mut view, root) = view_with_anchor();
    let mut pool = TxMemPool::new();
    let keys = proof_keys();
    let plain = tx(1, &[(9, 0)], Vec::new());
    assert!(accept_to_mem_pool(&mut pool, &state, &plain, &mut view, &[0u8; 32], &keys));
    assert!(pool.contains(digest(1)));
    assert!(!accept_to_mem_pool(&mut pool, &state, &plain, &mut view, &[0u8; 32], &keys));
    let doubled = tx(2, &[], vec![spend(1, root), spend(1, root)]);
    assert!(!accept_to_mem_pool(&mut pool, &state, &doubled, &mut view, &[0u8; 32], &keys));
    let unproven = tx(3, &[], vec![spend(3, root)]);
    assert!(!accept_to_mem_pool(&mut pool, &state, &unproven, &mut view, &[0u8; 32], &keys));
    assert!(!pool.contains(digest(3)));
    assert!(!pool.nullifier_exists(Uint256::new([3; 32])));
    assert_eq!(view.base().nullifier_reads(), 0);
    let entry = TxMemPoolEntry::new(&unproven);
    assert_eq!(entry.tx.hash, digest(3));
    pool.add_unchecked(digest(3), entry);
    assert!(pool.nullifier_exists(Uint256::new([3; 32])));
}

#[test]
fn a_block_as_a_whole_passes_on_its_header() {
    let state = ValidationState {};
    let block = shielded_pool::block::Block { vtx: vec![tx(1, &[], vec![spend(1, digest(0)), spend(1, digest(0))])] };
    assert!(shielded_pool::validation::check_block(&block, &state, &proof_keys(), true, true));
    assert!(shielded_pool::validation::check_block(&block, &state, &proof_keys(), false, false));
    assert!(!shielded_pool::validation::accept_block(&block, &state));
}

/// The coordinates of the point of the Jubjub curve that `bytes` encode.
fn coordinates(bytes: [u8; 32]) -> [bls12_381::Scalar; 2] {
    let point = jubjub::AffinePoint::from_bytes(bytes).unwrap();
    [point.get_u(), point.get_v()]
}

/// A proof that the keys of `proof_keys` accept for the public inputs
/// `inputs`. Every element of those keys is a generator, so the pairing
/// equation holds for A = (3 + the sum of the inputs) G1, B = G2 and C = G1.
fn proof_for(inputs: &[bls12_381::Scalar]) -> [u8; 192] {
    let mut exponent = bls12_381::Scalar::from(3u64);
    for input in inputs {
        exponent = exponent + input;
    }
    let proof = groth16::Proof::<bls12_381::Bls12> {
        a: bls12_381::G1Affine::from(bls12_381::G1Affine::generator() * exponent),
        b: bls12_381::G2Affine::generator(),
        c: bls12_381::G1Affine::generator(),
    };
    let mut bytes = Vec::new();
    proof.write(&mut bytes).unwrap();
    bytes.try_into().unwrap()
}

/// A transaction with one spend of 5 and one output of 3, whose proofs the
/// keys of `proof_keys` accept, signed over `sighash`, with the balance 2.
fn balanced(hash: u8, nullifier: u8, anchor: FrHash, sighash: &[u8; 32]) -> Transaction {
    let mut rng = rand::rng();
    let rcv_in = sapling_crypto::value::ValueCommitTrapdoor::random(&mut rng);
    let rcv_out = sapling_crypto::value::ValueCommitTrapdoor::random(&mut rng);
    let cv_in = sapling_crypto::value::ValueCommitment::derive(
        sapling_crypto::value::NoteValue::from_raw(5),
        rcv_in.clone(),
    )
    .to_bytes();
    let cv_out = sapling_crypto::value::ValueCommitment::derive(
        sapling_crypto::value::NoteValue::from_raw(3),
        rcv_out.clone(),
    )
    .to_bytes();
    let ask = redjubjub::SigningKey::<redjubjub::SpendAuth>::new(&mut rng);
    let rk: [u8; 32] = redjubjub::VerificationKey::from(&ask).into();
    let esk = redjubjub::SigningKey::<redjubjub::SpendAuth>::new(&mut rng);
    let epk: [u8; 32] = redjubjub::VerificationKey::from(&esk).into();
    let cmu = digest(3);

    let packed = bellman::gadgets::multipack::compute_multipacking::<bls12_381::Scalar>(
        &bellman::gadgets::multipack::bytes_to_bits_le(&[nullifier; 32]),
    );
    let mut spend_inputs = Vec::new();
    spend_inputs.extend_from_slice(&coordinates(rk));
    spend_inputs.extend_from_slice(&coordinates(cv_in));
    spend_inputs.push(bls12_381::Scalar::from_bytes(&anchor.to_bytes()).unwrap());
    spend_inputs.extend_from_slice(&packed);
    let mut output_inputs = Vec::new();
    output_inputs.extend_from_slice(&coordinates(cv_out));
    output_inputs.extend_from_slice(&coordinates(epk));
    output_inputs.push(bls12_381::Scalar::from_bytes(&cmu.to_bytes()).unwrap());

    let mut trapdoors = sapling_crypto::value::TrapdoorSum::zero() + &rcv_in;
    trapdoors -= &rcv_out;
    let binding_sig: [u8; 64] = trapdoors.into_bsk().sign(&mut rng, sighash).into();
    let mut out = tx(hash, &[], Vec::new());
    out.v_shielded_spend.push(SaplingSpendDescription {
        cv: cv_in,
        anchor,
        nullifier: Uint256::new([nullifier; 32]),
        rk,
        zkproof: proof_for(&spend_inputs),
        spend_auth_sig: Some(ask.sign(&mut rng, sighash).into()),
    });
    out.v_shielded_output.push(SaplingOutputDescription {
        cv: cv_out,
        cmu,
        ephemeral_key: epk,
        zkproof: proof_for(&output_inputs),
    });
    out.balancing_value = 2;
    out.binding_sig = binding_sig;
    out
}

#[test]
fn shielded_parts_that_are_valid_and_balance_pass_the_check() {
    let state = ValidationState {};
    let sighash = [7u8; 32];
    let good = balanced(1, 9, digest(1), &sighash);
    assert!(contextual_check_transaction(&good, &state, &sighash, &proof_keys()));
}

#[test]
fn every_shielded_part_is_checked() {
    let state = ValidationState {};
    let sighash = [7u8; 32];
    let keys = proof_keys();
    let good = balanced(1, 9, digest(1), &sighash);
    assert!(contextual_check_transaction(&good, &state, &sighash, &keys));

    assert!(!contextual_check_transaction(&good, &state, &[8u8; 32], &keys));
    let mut unbalanced = good.duplicate();
    unbalanced.balancing_value = 3;
    assert!(!contextual_check_transaction(&unbalanced, &state, &sighash, &keys));
    let mut respent = good.duplicate();
    respent.v_shielded_spend[0].nullifier = Uint256::new([10; 32]);
    assert!(!contextual_check_transaction(&respent, &state, &sighash, &keys));
    let mut moved = good.duplicate();
    moved.v_shielded_spend[0].anchor = digest(2);
    assert!(!contextual_check_transaction(&moved, &state, &sighash, &keys));
    let mut other_note = good.duplicate();
    other_note.v_shielded_output[0].cmu = digest(4);
    assert!(!contextual_check_transaction(&other_note, &state, &sighash, &keys));
    let mut unsigned = good.duplicate();
    unsigned.v_shielded_spend[0].spend_auth_sig = None;
    assert!(!contextual_check_transaction(&unsigned, &state, &sighash, &keys));
    let mut without_output = good.duplicate();
    without_output.v_shielded_output.clear();
    assert!(!contextual_check_transaction(&without_output, &state, &sighash, &keys));
    let mut without_spend = good.duplicate();
    without_spend.v_shielded_spend.clear();
    assert!(!contextual_check_transaction(&without_spend, &state, &sighash, &keys));
    let mut twice = good.duplicate();
    let again = twice.v_shielded_output[0];
    twice.v_shielded_output.push(again);
    assert!(!contextual_check_transaction(&twice, &state, &sighash, &keys));
}

#[test]
fn a_transaction_with_valid_proofs_is_accepted_to_the_pool() {
    let state = ValidationState {};
    let sighash = [7u8; 32];
    let keys = proof_keys();
    let (mut view, root) = view_with_anchor();
    let mut pool = TxMemPool::new();
    let good = balanced(1, 9, root, &sighash);
    assert!(!accept_to_mem_pool(&mut pool, &state, &good, &mut view, &[8u8; 32], &keys));
    assert!(!pool.contains(digest(1)));
    assert!(accept_to_mem_pool(&mut pool, &state, &good, &mut view, &sighash, &keys));
    assert!(pool.contains(digest(1)));
    assert!(pool.nullifier_exists(Uint256::new([9; 32])));
}
