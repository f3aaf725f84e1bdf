use shielded_pool::block::{Block, BlockIndex, ValidationState};
use shielded_pool::coins::{CoinViewCache, CoinsView};
use shielded_pool::hash::{FrHash, Uint256};
use shielded_pool::notes::{NoteDataMap, SaplingNoteData, WalletError, WITNESS_CACHE_SIZE};
use shielded_pool::transaction::{
    SaplingOutPoint, SaplingOutputDescription, SaplingSpendDescription, Transaction, TxOut, Script,
};
use shielded_pool::tree::SaplingMerkleTree;
use shielded_pool::validation::{
    accept_block, accept_block_header, active_best_chain, active_best_chain_step, best_tree,
    check_block_header, check_transaction,
    check_transaction_without_proof_verification, connect_block, connect_block_from, connect_tip,
    disconnect_block,
    disconnect_tip, process_new_block, update_coins, ChainError,
};
use shielded_pool::wallet::{Wallet, WalletTransaction};

fn digest(n: u8) -> FrHash {
    let mut bytes = [0u8; 32];
    bytes[0] = n;
    bytes[17] = 1;
    FrHash::from_bytes(bytes).unwrap()
}

fn output(cm: u8) -> SaplingOutputDescription {
    SaplingOutputDescription {
        cv: [0u8; 32],
        cmu: digest(cm),
        ephemeral_key: [0u8; 32],
        zkproof: [0u8; 192],
    }
}

fn spend(n: u8) -> SaplingSpendDescription {
    SaplingSpendDescription {
        cv: [0u8; 32],
        anchor: digest(0),
        nullifier: Uint256::new([n; 32]),
        rk: [0u8; 32],
        zkproof: [0u8; 192],
        spend_auth_sig: None,
    }
}

fn tx(hash: u8, coinbase: bool, spends: &[u8], outputs: &[u8]) -> Transaction {
    Transaction {
        hash: digest(hash),
        coinbase,
        vin: Vec::new(),
        vout: Vec::new(),
        v_shielded_spend: spends.iter().map(|n| spend(*n)).collect(),
        v_shielded_output: outputs.iter().map(|c| output(*c)).collect(),
        balancing_value: 0,
        binding_sig: [0u8; 64],
    }
}

fn index(height: i32, hash: u8, prev_root: Option<FrHash>, prev_hash: Option<u8>) -> BlockIndex {
    BlockIndex {
        n_height: height,
        block_hash: Uint256::new([hash; 32]),
        hash_final_sapling_root: digest(0),
        prev_block_hash: prev_hash.map(|h| Uint256::new([h; 32])),
        prev_final_sapling_root: prev_root,
    }
}

fn wallet_tracking(txn: &Transaction, outputs: &[usize]) -> Wallet {
    let mut wallet = Wallet::new();
    let mut notes = NoteDataMap::new();
    for n in outputs {
        notes.insert(SaplingOutPoint { hash: txn.hash, n: *n }, SaplingNoteData::new([0u8; 32]));
    }
    let mut wtx = WalletTransaction::new(txn.duplicate());
    wtx.map_sapling_data = notes;
    assert!(wallet.add_to_wallet(wtx, false));
    wallet
}

#[test]
fn connecting_a_block_with_two_outputs() {
    let state = ValidationState {};
    let coinbase = tx(1, true, &[], &[]);
    let payment = tx(2, false, &[], &[10, 11]);
    let mut wallet = wallet_tracking(&payment, &[1]);
    let block = Block { vtx: vec![coinbase, payment] };
    let pindex = index(5, 50, None, None);
    let mut view = CoinViewCache::new();

    assert_eq!(connect_tip(&mut view, &mut wallet, &state, &pindex, &block), Ok(()));

    let mut expected = SaplingMerkleTree::new();
    expected.append(digest(10)).unwrap();
    expected.append(digest(11)).unwrap();
    let root = expected.root();
    assert_eq!(view.get_best_anchor(), Some(root));
    let tree = view.get_sapling_anchor_at(root).unwrap();
    assert_eq!(tree.size(), 2);
    assert_eq!(tree.root(), root);
    assert_eq!(view.best_block(), Some(Uint256::new([50; 32])));

    let wtx = wallet.get_wallet_tx(&digest(2)).unwrap();
    assert_eq!(wtx.map_sapling_data.len(), 1);
    let note = wallet.get_note(&SaplingOutPoint { hash: digest(2), n: 1 }).unwrap();
    assert_eq!(note.witnesses.len(), 1);
    assert_eq!(note.witness_height, 5);
    let witness = note.front().unwrap();
    assert_eq!(witness.position(), 1);
    assert_eq!(witness.root(), root);
    assert_eq!(wallet.witness_cache_size(), 1);
}

#[test]
fn a_witness_of_an_earlier_output_takes_in_the_later_ones() {
    let state = ValidationState {};
    let payment = tx(2, false, &[], &[10, 11, 12]);
    let mut wallet = wallet_tracking(&payment, &[0, 2]);
    let block = Block { vtx: vec![payment] };
    let mut view = CoinViewCache::new();
    assert_eq!(connect_tip(&mut view, &mut wallet, &state, &index(0, 1, None, None), &block), Ok(()));
    let root = view.get_best_anchor().unwrap();
    let first = wallet.get_note(&SaplingOutPoint { hash: digest(2), n: 0 }).unwrap();
    let last = wallet.get_note(&SaplingOutPoint { hash: digest(2), n: 2 }).unwrap();
    assert_eq!(first.front().unwrap().position(), 0);
    assert_eq!(last.front().unwrap().position(), 2);
    assert_eq!(first.front().unwrap().root(), root);
    assert_eq!(last.front().unwrap().root(), root);
    assert_eq!(first.witness_height, 0);
    assert_eq!(last.witness_height, 0);
}

#[test]
fn witnesses_follow_the_chain_over_several_blocks() {
    let state = ValidationState {};
    let payment = tx(2, false, &[], &[10, 11]);
    let mut wallet = wallet_tracking(&payment, &[0]);
    let mut view = CoinViewCache::new();
    let first = Block { vtx: vec![payment] };
    assert_eq!(connect_tip(&mut view, &mut wallet, &state, &index(1, 1, None, None), &first), Ok(()));
    let root1 = view.get_best_anchor().unwrap();
    let second = Block { vtx: vec![tx(3, false, &[20], &[12, 13, 14])] };
    let i2 = index(2, 2, Some(root1), Some(1));
    assert_eq!(connect_tip(&mut view, &mut wallet, &state, &i2, &second), Ok(()));
    let root2 = view.get_best_anchor().unwrap();
    assert_ne!(root1, root2);
    let note = wallet.get_note(&SaplingOutPoint { hash: digest(2), n: 0 }).unwrap();
    assert_eq!(note.witnesses.len(), 2);
    assert_eq!(note.witness_height, 2);
    assert_eq!(note.witnesses[0].root(), root2);
    assert_eq!(note.witnesses[1].root(), root1);
    assert_eq!(wallet.witness_cache_size(), 2);
    assert!(view.get_nullifier(Uint256::new([20; 32])));
}

#[test]
fn disconnecting_a_block_brings_back_what_was_before() {
    let state = ValidationState {};
    let payment = tx(2, false, &[], &[10, 11]);
    let mut wallet = wallet_tracking(&payment, &[0]);
    let mut view = CoinViewCache::new();
    let first = Block { vtx: vec![payment] };
    connect_tip(&mut view, &mut wallet, &state, &index(1, 1, None, None), &first).unwrap();
    let root1 = view.get_best_anchor().unwrap();
    let front1 = wallet
        .get_note(&SaplingOutPoint { hash: digest(2), n: 0 })
        .unwrap()
        .front()
        .unwrap()
        .root();

    let second = Block { vtx: vec![tx(3, false, &[20], &[12, 13])] };
    let i2 = index(2, 2, Some(root1), Some(1));
    connect_tip(&mut view, &mut wallet, &state, &i2, &second).unwrap();
    assert_ne!(view.get_best_anchor(), Some(root1));
    assert!(view.get_nullifier(Uint256::new([20; 32])));

    assert_eq!(disconnect_tip(&mut view, &mut wallet, &state, &i2, &second), Ok(()));
    assert_eq!(view.get_best_anchor(), Some(root1));
    assert_eq!(view.get_sapling_anchor_at(root1).unwrap().root(), root1);
    assert_eq!(view.best_block(), Some(Uint256::new([1; 32])));
    assert!(!view.get_nullifier(Uint256::new([20; 32])));
    let note = wallet.get_note(&SaplingOutPoint { hash: digest(2), n: 0 }).unwrap();
    assert_eq!(note.witness_height, 1);
    assert_eq!(note.witnesses.len(), 1);
    assert_eq!(note.front().unwrap().root(), front1);
    assert_eq!(wallet.witness_cache_size(), 1);
}

#[test]
fn a_block_without_outputs_can_be_disconnected() {
    let state = ValidationState {};
    let mut wallet = Wallet::new();
    let mut view = CoinViewCache::new();
    let first = Block { vtx: vec![tx(2, false, &[], &[10])] };
    connect_tip(&mut view, &mut wallet, &state, &index(1, 1, None, None), &first).unwrap();
    let root1 = view.get_best_anchor().unwrap();
    let empty = Block { vtx: vec![tx(3, true, &[], &[])] };
    let i2 = index(2, 2, Some(root1), Some(1));
    connect_tip(&mut view, &mut wallet, &state, &i2, &empty).unwrap();
    assert_eq!(view.get_best_anchor(), Some(root1));
    disconnect_tip(&mut view, &mut wallet, &state, &i2, &empty).unwrap();
    assert_eq!(view.get_best_anchor(), Some(root1));
    assert_eq!(view.get_sapling_anchor_at(root1).unwrap().size(), 1);
}

#[test]
fn disconnecting_without_history_is_an_error() {
    let state = ValidationState {};
    let mut wallet = Wallet::new();
    let mut view = CoinViewCache::new();
    let block = Block { vtx: vec![tx(2, false, &[], &[10])] };
    let pindex = index(1, 1, None, None);
    assert_eq!(
        disconnect_tip(&mut view, &mut wallet, &state, &pindex, &block),
        Err(ChainError::Wallet(WalletError::RollbackTooDeep))
    );
    assert_eq!(wallet.witness_cache_size(), 0);
}

#[test]
fn connect_block_fails_without_the_tree_of_the_best_anchor() {
    let state = ValidationState {};
    let mut view = CoinViewCache::new();
    let mut tree = SaplingMerkleTree::new();
    tree.append(digest(1)).unwrap();
    let root = tree.root();
    view.push_anchor(tree);
    view.pop_anchor(Some(digest(99)));
    assert!(view.get_sapling_anchor_at(root).is_none());
    let block = Block { vtx: vec![tx(2, false, &[5], &[10])] };
    let pindex = index(1, 1, None, None);
    assert_eq!(
        connect_block(&block, &state, &pindex, &mut view, false),
        Err(ChainError::MissingAnchor)
    );
    assert_eq!(view.get_best_anchor(), Some(digest(99)));
    assert!(!view.get_nullifier(Uint256::new([5; 32])));
    assert!(best_tree(&mut view).is_none());
}

#[test]
fn connect_block_spends_nullifiers_and_pushes_the_anchor() {
    let state = ValidationState {};
    let mut view = CoinViewCache::new();
    let block = Block { vtx: vec![tx(1, true, &[], &[]), tx(2, false, &[5, 6], &[10])] };
    let pindex = index(3, 9, None, None);
    assert_eq!(connect_block(&block, &state, &pindex, &mut view, true), Ok(()));
    assert!(view.get_nullifier(Uint256::new([5; 32])));
    assert!(view.get_nullifier(Uint256::new([6; 32])));
    assert!(!view.get_nullifier(Uint256::new([7; 32])));
    let mut expected = SaplingMerkleTree::new();
    expected.append(digest(10)).unwrap();
    assert_eq!(view.get_best_anchor(), Some(expected.root()));
    assert_eq!(view.best_block(), Some(Uint256::new([9; 32])));
    disconnect_block(&block, &state, &pindex, &mut view);
    assert_eq!(view.get_best_anchor(), None);
    assert!(!view.get_nullifier(Uint256::new([5; 32])));
    assert_eq!(best_tree(&mut view).unwrap().size(), 0);
}

#[test]
fn update_coins_marks_the_spends() {
    let mut view = CoinViewCache::new();
    update_coins(&tx(2, false, &[8], &[]), &mut view, 1);
    assert!(view.get_nullifier(Uint256::new([8; 32])));
}

#[test]
fn a_wallet_out_of_step_is_left_alone() {
    let state = ValidationState {};
    let payment = tx(2, false, &[], &[10]);
    let mut wallet = wallet_tracking(&payment, &[0]);
    let mut view = CoinViewCache::new();
    let first = Block { vtx: vec![payment] };
    connect_tip(&mut view, &mut wallet, &state, &index(1, 1, None, None), &first).unwrap();
    let root1 = view.get_best_anchor().unwrap();
    let second = Block { vtx: vec![tx(3, false, &[], &[12])] };
    let skipped = index(3, 2, Some(root1), Some(1));
    assert_eq!(
        connect_tip(&mut view, &mut wallet, &state, &skipped, &second),
        Err(ChainError::Wallet(WalletError::WitnessHeightOutOfOrder))
    );
    let note = wallet.get_note(&SaplingOutPoint { hash: digest(2), n: 0 }).unwrap();
    assert_eq!(note.witness_height, 1);
    assert_eq!(note.witnesses.len(), 1);
    assert_eq!(note.front().unwrap().root(), root1);
    assert_eq!(wallet.witness_cache_size(), 1);
    assert_ne!(view.get_best_anchor(), Some(root1));
}

#[test]
fn the_witness_history_is_bounded() {
    let state = ValidationState {};
    let payment = tx(2, false, &[], &[10]);
    let mut wallet = wallet_tracking(&payment, &[0]);
    let mut tree = SaplingMerkleTree::with_depth(3);
    let first = Block { vtx: vec![payment] };
    wallet.chain_tip(&index(0, 0, None, None), &first, &mut tree, true).unwrap();
    let empty = Block { vtx: Vec::new() };
    for h in 1..=(WITNESS_CACHE_SIZE as i32 + 5) {
        assert_eq!(wallet.chain_tip(&index(h, 0, None, None), &empty, &mut tree, true), Ok(()));
        let note = wallet.get_note(&SaplingOutPoint { hash: digest(2), n: 0 }).unwrap();
        let expected = std::cmp::min(h as usize + 1, WITNESS_CACHE_SIZE);
        assert_eq!(note.witnesses.len(), expected);
        assert_eq!(note.witness_height, h);
        assert_eq!(wallet.witness_cache_size(), expected);
    }
    let _ = state;
}

#[test]
fn a_block_too_large_for_the_tree_changes_nothing() {
    let payment = tx(2, false, &[], &[10]);
    let mut wallet = wallet_tracking(&payment, &[0]);
    let mut tree = SaplingMerkleTree::with_depth(1);
    tree.append(digest(1)).unwrap();
    let root = tree.root();
    let block = Block { vtx: vec![tx(2, false, &[], &[10, 11])] };
    assert_eq!(
        wallet.chain_tip(&index(0, 0, None, None), &block, &mut tree, true),
        Err(WalletError::TreeFull)
    );
    assert_eq!(tree.size(), 1);
    assert_eq!(tree.root(), root);
    let note = wallet.get_note(&SaplingOutPoint { hash: digest(2), n: 0 }).unwrap();
    assert_eq!(note.witnesses.len(), 0);
    assert_eq!(note.witness_height, -1);
    assert_eq!(wallet.witness_cache_size(), 0);
}

#[test]
fn duplicate_nullifiers_make_a_transaction_invalid() {
    let state = ValidationState {};
    assert!(check_transaction_without_proof_verification(&tx(1, false, &[1, 2, 3], &[4]), &state));
    assert!(!check_transaction_without_proof_verification(&tx(1, false, &[1, 2, 1], &[4]), &state));
    assert!(!check_transaction(&tx(1, false, &[7, 7], &[]), &state));
    assert!(check_transaction(&tx(1, false, &[], &[]), &state));
}

#[test]
fn a_coinbase_has_no_shielded_parts() {
    let state = ValidationState {};
    assert!(check_transaction(&tx(1, true, &[], &[]), &state));
    assert!(!check_transaction(&tx(1, true, &[1], &[]), &state));
    assert!(!check_transaction(&tx(1, true, &[], &[2]), &state));
    assert!(tx(1, true, &[], &[]).is_coin_base());
    assert!(!tx(1, false, &[], &[]).is_coin_base());
}

#[test]
fn a_block_is_accepted_transaction_by_transaction() {
    let state = ValidationState {};
    let good = Block { vtx: vec![tx(1, true, &[], &[]), tx(2, false, &[1], &[2])] };
    let bad = Block { vtx: vec![tx(1, true, &[], &[]), tx(2, false, &[1, 1], &[2])] };
    assert!(check_block_header(&good, &state, true));
    assert!(accept_block_header(&bad, &state));
    assert!(accept_block(&good, &state));
    assert!(!accept_block(&bad, &state));
}

#[test]
fn a_rejected_block_changes_nothing() {
    let state = ValidationState {};
    let mut view = CoinViewCache::new();
    let mut wallet = Wallet::new();
    let bad = Block { vtx: vec![tx(2, false, &[1, 1], &[2])] };
    let pindex = index(0, 1, None, None);
    assert_eq!(
        process_new_block(&mut view, &mut wallet, &state, &pindex, &bad),
        Err(ChainError::Rejected)
    );
    assert_eq!(view.get_best_anchor(), None);
    assert!(!view.get_nullifier(Uint256::new([1; 32])));
    let good = Block { vtx: vec![tx(2, false, &[1], &[2])] };
    assert_eq!(process_new_block(&mut view, &mut wallet, &state, &pindex, &good), Ok(()));
    assert!(view.get_best_anchor().is_some());
    assert!(view.get_nullifier(Uint256::new([1; 32])));
}

#[test]
fn the_steps_to_the_best_chain_connect_the_block() {
    let state = ValidationState {};
    let mut view = CoinViewCache::new();
    let mut wallet = Wallet::new();
    let first = Block { vtx: vec![tx(2, false, &[], &[2])] };
    assert_eq!(
        active_best_chain(&mut view, &mut wallet, &state, &index(0, 1, None, None), &first),
        Ok(())
    );
    let root = view.get_best_anchor().unwrap();
    let second = Block { vtx: vec![tx(3, false, &[], &[3])] };
    assert_eq!(
        active_best_chain_step(&mut view, &mut wallet, &state, &index(1, 2, Some(root), Some(1)), &second),
        Ok(())
    );
    assert_eq!(view.get_sapling_anchor_at(view.get_best_anchor().unwrap()).unwrap().size(), 2);
    assert_eq!(wallet.witness_cache_size(), 2);
}

#[test]
fn a_null_output_has_the_value_minus_one() {
    assert!(TxOut { n_value: -1, script_pub_key: Script { bytes: Vec::new() } }.is_null());
    assert!(!TxOut { n_value: 0, script_pub_key: Script { bytes: vec![1] } }.is_null());
}

#[test]
fn a_block_too_large_for_the_tree_is_not_connected() {
    let mut view = CoinViewCache::new();
    let mut tree = SaplingMerkleTree::with_depth(1);
    tree.append(digest(1)).unwrap();
    let block = Block { vtx: vec![tx(2, false, &[5], &[10, 11])] };
    let pindex = index(1, 1, None, None);
    assert_eq!(connect_block_from(&block, &pindex, &mut view, tree), Err(ChainError::TreeFull));
    assert_eq!(view.get_best_anchor(), None);
    assert!(view.best_block().is_none());
    assert!(!view.get_nullifier(Uint256::new([5; 32])));
    let mut room = SaplingMerkleTree::with_depth(2);
    room.append(digest(1)).unwrap();
    let mut expected = room.clone();
    expected.append(digest(10)).unwrap();
    expected.append(digest(11)).unwrap();
    assert_eq!(connect_block_from(&block, &pindex, &mut view, room), Ok(()));
    assert_eq!(view.get_best_anchor(), Some(expected.root()));
    assert!(view.get_nullifier(Uint256::new([5; 32])));
}

#[test]
fn the_tree_after_a_block_does_not_depend_on_the_wallet() {
    let state = ValidationState {};
    let payment = tx(2, false, &[], &[10, 11, 12]);
    let mut tracking = wallet_tracking(&payment, &[0, 2]);
    let mut idle = Wallet::new();
    let block = Block { vtx: vec![payment] };
    let pindex = index(0, 1, None, None);
    let mut view_of_tracking = CoinViewCache::new();
    let mut view_of_idle = CoinViewCache::new();
    assert_eq!(connect_tip(&mut view_of_tracking, &mut tracking, &state, &pindex, &block), Ok(()));
    assert_eq!(connect_tip(&mut view_of_idle, &mut idle, &state, &pindex, &block), Ok(()));

    let mut expected = SaplingMerkleTree::new();
    for cm in [10u8, 11, 12] {
        expected.append(digest(cm)).unwrap();
    }
    assert_eq!(view_of_tracking.get_best_anchor(), Some(expected.root()));
    assert_eq!(view_of_idle.get_best_anchor(), Some(expected.root()));
    assert_eq!(tracking.witness_cache_size(), idle.witness_cache_size());
}
