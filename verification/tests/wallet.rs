use shielded_pool::block::{Block, BlockIndex};
use shielded_pool::coins::{CoinViewCache, CoinsView};
use shielded_pool::hash::{FrHash, Uint256};
use shielded_pool::keystore::{address_of_key, key_and_address, same_address, KeyStore};
use shielded_pool::notes::{
    append_note_commitement, copy_previous_witnesses, decrement_note_data, update_witness_heights,
    witness_note_if_mine, NoteDataMap, SaplingNoteData, WalletError, WITNESS_CACHE_SIZE,
};
use shielded_pool::scan::ScanBlock;
use shielded_pool::transaction::{
    SaplingInPoint, SaplingOutPoint, SaplingOutputDescription, Script, Transaction, TxIn,
};
use shielded_pool::tree::SaplingMerkleTree;
use shielded_pool::validation::ChainError;
use shielded_pool::wallet::{count_outputs, Wallet, WalletTransaction};

fn digest(n: u8) -> FrHash {
    let mut bytes = [0u8; 32];
    bytes[0] = n;
    bytes[21] = 4;
    FrHash::from_bytes(bytes).unwrap()
}

fn output(cm: u8) -> SaplingOutputDescription {
    SaplingOutputDescription {
        cv: [0u8; 32],
        cmu: digest(cm),
        ephemeral_key: [0u8; 32],
        zkproof: [0u8; 192],
    }
}

fn tx(hash: u8, outputs: &[u8]) -> Transaction {
    Transaction {
        hash: digest(hash),
        coinbase: false,
        vin: Vec::new(),
        vout: Vec::new(),
        v_shielded_spend: Vec::new(),
        v_shielded_output: outputs.iter().map(|c| output(*c)).collect(),
        balancing_value: 0,
        binding_sig: [0u8; 64],
    }
}

fn index(height: i32, prev_root: Option<FrHash>) -> BlockIndex {
    BlockIndex {
        n_height: height,
        block_hash: Uint256::new([height as u8; 32]),
        hash_final_sapling_root: digest(0),
        prev_block_hash: None,
        prev_final_sapling_root: prev_root,
    }
}

fn point(hash: u8, n: usize) -> SaplingOutPoint {
    SaplingOutPoint { hash: digest(hash), n }
}

fn small_tree(leaves: &[u8]) -> SaplingMerkleTree {
    let mut tree = SaplingMerkleTree::with_depth(4);
    for leaf in leaves {
        tree.append(digest(*leaf)).unwrap();
    }
    tree
}

fn note_with_witness(tree: &SaplingMerkleTree, height: i32) -> SaplingNoteData {
    let mut note = SaplingNoteData::new([7u8; 32]);
    note.push_front(tree.witness().unwrap());
    note.witness_height = height;
    note
}

#[test]
fn test_save_load_wallet() {
    let mut wallet = Wallet::new();
    assert!(wallet.set_seed([1u8; 32]).is_some());
    let addresses1 = wallet.get_sapling_payment_addresses();
    assert_eq!(addresses1.len(), 1);

    let saved: Vec<u8> = wallet.seed().to_vec();
    assert_eq!(saved.len(), 32);
    let mut wallet2 = Wallet::new();
    assert!(wallet2.load_from_bytes(&saved).is_some());
    let addresses2 = wallet2.get_sapling_payment_addresses();
    assert_eq!(addresses1.len(), addresses2.len());
    for add in addresses1.iter() {
        assert!(addresses2.contains(add));
    }
}

#[test]
fn the_address_of_a_seed_is_that_of_its_master_key() {
    let seed = [1u8; 32];
    let xsk = sapling_crypto::zip32::ExtendedSpendingKey::master(&seed).unwrap();
    let expected = xsk.default_address().1.to_bytes();
    let mut wallet = Wallet::new();
    assert_eq!(wallet.set_seed(seed), Some(expected));
    assert_eq!(wallet.seed(), seed);
    assert_ne!(&expected[..32], &seed[..]);
    let (key, address) = key_and_address(&seed).unwrap();
    assert_eq!(key, xsk.to_bytes());
    assert_eq!(address, expected);
    let other = key_and_address(&[2u8; 32]).unwrap();
    assert_ne!(other.1, expected);
    assert!(same_address(&address, &expected));
    assert!(!same_address(&address, &other.1));
}

#[test]
fn a_short_file_gives_no_seed() {
    let mut wallet = Wallet::new();
    assert!(wallet.load_from_bytes(&vec![1u8; 31]).is_none());
    assert_eq!(wallet.seed(), [0u8; 32]);
    assert!(wallet.get_sapling_payment_addresses().is_empty());
    assert!(wallet.load_from_bytes(&vec![1u8; 40]).is_some());
    assert_eq!(wallet.seed(), [1u8; 32]);
}

#[test]
fn keys_are_kept_by_their_address() {
    let mut wallet = Wallet::new();
    let first = wallet.get_new_z_address().unwrap();
    assert_eq!(wallet.get_new_z_address(), Some(first));
    assert_eq!(wallet.get_sapling_payment_addresses(), vec![first]);
    assert_eq!(wallet.seed(), [0u8; 32]);
    let (key, address) = key_and_address(&[3u8; 32]).unwrap();
    assert!(wallet.add_z_key(&key, &address));
    assert!(!wallet.add_z_key(&key, &address));
    assert_eq!(wallet.add_spending_key_to_wallet(&key), Some(address));
    assert_eq!(wallet.get_sapling_payment_addresses(), vec![first, address]);
    assert_eq!(wallet.add_spending_key_to_wallet(&[0xffu8; 169]), None);
    assert_eq!(wallet.add_spending_key_to_wallet(&[0u8; 169]), None);
    let mut damaged = key;
    damaged[72] = 0xff;
    assert_eq!(wallet.add_spending_key_to_wallet(&damaged), None);
    assert_eq!(address_of_key(&key), Some(address));
    let fresh = wallet.generate_new_seed().unwrap();
    assert!(wallet.get_sapling_payment_addresses().contains(&fresh));
    assert_eq!(key_and_address(&wallet.seed()).unwrap().1, fresh);
    let mut store = KeyStore::new();
    assert!(store.add_spending_key(key, address));
    assert!(!store.add_spending_key(key, address));
    assert_eq!(store.get_sapling_payment_addresses(), vec![address]);
}

#[test]
fn copying_duplicates_the_newest_witness() {
    let tree = small_tree(&[1, 2]);
    let mut notes = NoteDataMap::new();
    notes.insert(point(1, 0), note_with_witness(&tree, 4));
    notes.insert(point(1, 1), SaplingNoteData::new([0u8; 32]));
    notes.insert(point(1, 2), note_with_witness(&tree, 5));
    assert_eq!(copy_previous_witnesses(&mut notes, 5, 1), Ok(()));
    assert_eq!(notes.values[0].witnesses.len(), 2);
    assert_eq!(notes.values[0].witnesses[0].root(), notes.values[0].witnesses[1].root());
    assert_eq!(notes.values[0].witness_height, 4);
    assert_eq!(notes.values[1].witnesses.len(), 0);
    assert_eq!(notes.values[2].witnesses.len(), 1);
}

#[test]
fn copying_checks_every_note_first() {
    let tree = small_tree(&[1]);
    let mut notes = NoteDataMap::new();
    notes.insert(point(1, 0), note_with_witness(&tree, 4));
    notes.insert(point(1, 1), note_with_witness(&tree, 2));
    assert_eq!(
        copy_previous_witnesses(&mut notes, 5, 1),
        Err(WalletError::WitnessHeightOutOfOrder)
    );
    assert_eq!(notes.values[0].witnesses.len(), 1);
    assert_eq!(copy_previous_witnesses(&mut notes, 5, 0), Err(WalletError::WitnessCacheOverflow));
    assert_eq!(notes.values[0].witnesses.len(), 1);
    assert_eq!(notes.values[1].witnesses.len(), 1);
}

#[test]
fn copying_drops_the_oldest_witness_beyond_the_bound() {
    let tree = small_tree(&[1]);
    let mut note = SaplingNoteData::new([0u8; 32]);
    for _ in 0..WITNESS_CACHE_SIZE {
        note.push_front(tree.witness().unwrap());
    }
    note.witness_height = 9;
    let mut notes = NoteDataMap::new();
    notes.insert(point(1, 0), note);
    assert_eq!(copy_previous_witnesses(&mut notes, 10, WITNESS_CACHE_SIZE), Ok(()));
    assert_eq!(notes.values[0].witnesses.len(), WITNESS_CACHE_SIZE);
}

#[test]
fn appending_advances_the_newest_witness_only() {
    let mut tree = small_tree(&[1, 2]);
    let mut note = note_with_witness(&tree, 4);
    note.push_front(tree.witness().unwrap());
    let mut notes = NoteDataMap::new();
    notes.insert(point(1, 0), note);
    notes.insert(point(1, 1), note_with_witness(&tree, 5));
    let old_root = tree.root();
    tree.append(digest(3)).unwrap();
    assert_eq!(append_note_commitement(&mut notes, 5, 2, digest(3)), Ok(()));
    assert_eq!(notes.values[0].witnesses[0].root(), tree.root());
    assert_eq!(notes.values[0].witnesses[1].root(), old_root);
    assert_eq!(notes.values[1].witnesses[0].root(), old_root);
    assert_eq!(
        append_note_commitement(&mut notes, 5, 1, digest(4)),
        Err(WalletError::WitnessCacheOverflow)
    );
    assert_eq!(notes.values[0].witnesses[0].root(), tree.root());
}

#[test]
fn appending_to_a_full_witness_is_an_error() {
    let mut tree = SaplingMerkleTree::with_depth(1);
    tree.append(digest(1)).unwrap();
    tree.append(digest(2)).unwrap();
    let mut notes = NoteDataMap::new();
    notes.insert(point(1, 0), note_with_witness(&tree, 4));
    assert_eq!(append_note_commitement(&mut notes, 5, 1, digest(3)), Err(WalletError::TreeFull));
    assert_eq!(notes.values[0].witnesses[0].root(), tree.root());
}

#[test]
fn witnessing_replaces_the_witnesses_of_the_note() {
    let tree = small_tree(&[1, 2]);
    let later = small_tree(&[1, 2, 3]);
    let mut notes = NoteDataMap::new();
    notes.insert(point(1, 0), note_with_witness(&tree, 4));
    notes.insert(point(1, 1), SaplingNoteData::new([0u8; 32]));
    notes.insert(point(1, 2), note_with_witness(&tree, 5));
    assert!(witness_note_if_mine(&mut notes, 5, 1, digest(3), point(1, 0), later.witness().unwrap()));
    assert!(witness_note_if_mine(&mut notes, 5, 1, digest(3), point(1, 1), later.witness().unwrap()));
    assert!(!witness_note_if_mine(&mut notes, 5, 1, digest(3), point(1, 2), later.witness().unwrap()));
    assert!(!witness_note_if_mine(&mut notes, 5, 1, digest(3), point(2, 0), later.witness().unwrap()));
    for i in 0..2 {
        assert_eq!(notes.values[i].witnesses.len(), 1);
        assert_eq!(notes.values[i].witnesses[0].root(), later.root());
        assert_eq!(notes.values[i].witnesses[0].position(), 2);
        assert_eq!(notes.values[i].witness_height, 4);
    }
    assert_eq!(notes.values[2].witnesses[0].root(), tree.root());
    assert_eq!(notes.values[2].witness_height, 5);
}

#[test]
fn heights_are_raised_but_never_lowered() {
    let tree = small_tree(&[1]);
    let mut notes = NoteDataMap::new();
    notes.insert(point(1, 0), note_with_witness(&tree, 4));
    notes.insert(point(1, 1), SaplingNoteData::new([0u8; 32]));
    notes.insert(point(1, 2), note_with_witness(&tree, 7));
    assert_eq!(update_witness_heights(&mut notes, 5, 1), Ok(()));
    assert_eq!(notes.values[0].witness_height, 5);
    assert_eq!(notes.values[1].witness_height, 5);
    assert_eq!(notes.values[2].witness_height, 7);
    assert_eq!(update_witness_heights(&mut notes, 8, 0), Err(WalletError::WitnessCacheOverflow));
    assert_eq!(notes.values[0].witness_height, 5);
}

#[test]
fn decrementing_pops_the_newest_witness() {
    let tree = small_tree(&[1]);
    let later = small_tree(&[1, 2]);
    let mut note = note_with_witness(&tree, 5);
    note.push_front(later.witness().unwrap());
    let mut notes = NoteDataMap::new();
    notes.insert(point(1, 0), note);
    notes.insert(point(1, 1), SaplingNoteData::new([0u8; 32]));
    notes.insert(point(1, 2), note_with_witness(&tree, 6));
    assert_eq!(decrement_note_data(&mut notes, 5, 2), Ok(()));
    assert_eq!(notes.values[0].witnesses.len(), 1);
    assert_eq!(notes.values[0].witnesses[0].root(), tree.root());
    assert_eq!(notes.values[0].witness_height, 4);
    assert_eq!(notes.values[1].witness_height, -1);
    assert_eq!(notes.values[2].witness_height, 6);
    assert_eq!(decrement_note_data(&mut notes, 5, 2), Err(WalletError::WitnessHeightOutOfOrder));
    assert_eq!(notes.values[0].witness_height, 4);
    assert_eq!(decrement_note_data(&mut notes, 4, 0), Err(WalletError::WitnessCacheOverflow));
}

#[test]
fn note_maps_are_keyed_by_output() {
    let mut notes = NoteDataMap::new();
    assert_eq!(notes.len(), 0);
    notes.insert(point(1, 0), SaplingNoteData::new([1u8; 32]));
    notes.insert(point(1, 1), SaplingNoteData::new([2u8; 32]));
    notes.insert(point(1, 0), SaplingNoteData::new([3u8; 32]));
    assert_eq!(notes.len(), 2);
    assert_eq!(notes.position(&point(1, 1)), Some(1));
    assert_eq!(notes.get(&point(1, 0)).unwrap().ivk, [3u8; 32]);
    assert!(notes.contains_key(&point(1, 1)));
    assert!(!notes.contains_key(&point(2, 1)));
    assert!(notes.get(&point(1, 2)).is_none());
    let mut note = SaplingNoteData::new([1u8; 32]);
    assert!(note.front().is_none());
    note.pop_back();
    note.push_front(small_tree(&[1]).witness().unwrap());
    assert_eq!(note.front().unwrap().position(), 0);
    note.pop_back();
    assert!(note.front().is_none());
}

#[test]
fn a_transaction_is_added_once() {
    let mut wallet = Wallet::new();
    let t = tx(1, &[10]);
    let block = Block { vtx: vec![t.duplicate()] };
    let mut notes = NoteDataMap::new();
    notes.insert(point(1, 0), SaplingNoteData::new([1u8; 32]));
    assert!(wallet.add_to_wallet_if_invloving_me(&t, &block, false, notes));
    assert_eq!(wallet.len(), 1);
    assert!(wallet.contains_tx(&digest(1)));
    let mut again = NoteDataMap::new();
    again.insert(point(1, 0), SaplingNoteData::new([2u8; 32]));
    again.insert(point(1, 1), SaplingNoteData::new([2u8; 32]));
    assert!(!wallet.add_to_wallet_if_invloving_me(&t, &block, false, again));
    let mut updated = NoteDataMap::new();
    updated.insert(point(1, 1), SaplingNoteData::new([2u8; 32]));
    assert!(wallet.add_to_wallet_if_invloving_me(&t, &block, true, updated));
    assert_eq!(wallet.len(), 1);
    assert_eq!(wallet.get_wallet_tx(&digest(1)).unwrap().map_sapling_data.len(), 1);
    assert_eq!(wallet.get_note(&point(1, 0)).unwrap().ivk, [1u8; 32]);
    assert!(wallet.get_note(&point(1, 1)).is_none());

    let stranger = tx(2, &[11]);
    assert!(wallet.add_to_wallet_if_invloving_me(&stranger, &block, false, NoteDataMap::new()));
    assert_eq!(wallet.len(), 1);
    assert!(!wallet.contains_tx(&digest(2)));
    assert!(wallet.add_to_wallet(WalletTransaction::new(tx(3, &[])), true));
    assert!(!wallet.contains_tx(&digest(3)));
    assert!(wallet.add_to_wallet(WalletTransaction::new(tx(3, &[])), false));
    assert!(wallet.contains_tx(&digest(3)));
    assert_eq!(wallet.len(), 2);
}

#[test]
fn the_notes_of_a_transaction_are_found_by_attribution() {
    let wallet = Wallet::new();
    let t = tx(1, &[10, 11, 12]);
    let notes = wallet.find_my_sapling_notes(&t, &vec![(2, [5u8; 32]), (0, [6u8; 32]), (3, [7u8; 32]), (2, [8u8; 32])]);
    assert_eq!(notes.len(), 2);
    assert_eq!(notes.get(&point(1, 2)).unwrap().ivk, [8u8; 32]);
    assert_eq!(notes.get(&point(1, 0)).unwrap().ivk, [6u8; 32]);
    assert_eq!(notes.get(&point(1, 0)).unwrap().witness_height, -1);
    assert!(notes.get(&point(1, 0)).unwrap().witnesses.is_empty());
    assert!(notes.get(&point(1, 3)).is_none());
    assert_eq!(wallet.find_my_sapling_notes(&t, &Vec::new()).len(), 0);
}

#[test]
fn scanning_follows_the_chain_block_by_block() {
    let mut view = CoinViewCache::new();
    let mut tree = SaplingMerkleTree::new();
    tree.append(digest(10)).unwrap();
    tree.append(digest(11)).unwrap();
    let root1 = tree.root();
    view.push_anchor(tree.clone());
    tree.append(digest(12)).unwrap();
    let root2 = tree.root();

    let mut wallet = Wallet::new();
    let first = tx(1, &[10, 11]);
    let second = tx(2, &[12]);
    let notes1 = wallet.find_my_sapling_notes(&first, &vec![(1, [5u8; 32])]);
    let notes2 = wallet.find_my_sapling_notes(&second, &vec![(0, [5u8; 32])]);
    let blocks = vec![
        ScanBlock { index: index(0, None), block: Block { vtx: vec![first] }, notes: vec![notes1] },
        ScanBlock {
            index: index(1, Some(root1)),
            block: Block { vtx: vec![tx(9, &[]), second] },
            notes: vec![NoteDataMap::new(), notes2],
        },
    ];
    assert_eq!(wallet.scan_for_wallet_transactions(&mut view, blocks, false), Ok(()));
    assert_eq!(wallet.len(), 2);
    let early = wallet.get_note(&point(1, 1)).unwrap();
    assert_eq!(early.witness_height, 1);
    assert_eq!(early.witnesses.len(), 2);
    assert_eq!(early.witnesses[0].root(), root2);
    assert_eq!(early.witnesses[1].root(), root1);
    let late = wallet.get_note(&point(2, 0)).unwrap();
    assert_eq!(late.witness_height, 1);
    assert_eq!(late.witnesses.len(), 1);
    assert_eq!(late.witnesses[0].root(), root2);
    assert_eq!(late.witnesses[0].position(), 2);
    assert_eq!(wallet.witness_cache_size(), 2);
}

#[test]
fn scanning_stops_where_the_tree_is_missing() {
    let mut view = CoinViewCache::new();
    let mut wallet = Wallet::new();
    let first = tx(1, &[10]);
    let notes1 = wallet.find_my_sapling_notes(&first, &vec![(0, [5u8; 32])]);
    let blocks = vec![
        ScanBlock { index: index(0, None), block: Block { vtx: vec![first] }, notes: vec![notes1] },
        ScanBlock {
            index: index(1, Some(digest(99))),
            block: Block { vtx: vec![tx(2, &[12])] },
            notes: Vec::new(),
        },
        ScanBlock { index: index(2, None), block: Block { vtx: Vec::new() }, notes: Vec::new() },
    ];
    assert_eq!(
        wallet.scan_for_wallet_transactions(&mut view, blocks, false),
        Err(ChainError::MissingAnchor)
    );
    assert_eq!(wallet.len(), 1);
    assert_eq!(wallet.get_note(&point(1, 0)).unwrap().witness_height, 0);
    assert_eq!(wallet.witness_cache_size(), 1);
    assert_eq!(view.base().anchor_reads(), 1);
    assert_eq!(
        wallet.scan_block(&mut view, &index(5, None), &Block { vtx: Vec::new() }, Vec::new(), false),
        Err(ChainError::Wallet(WalletError::WitnessHeightOutOfOrder))
    );
}

#[test]
fn the_newest_witnesses_of_the_wallet_agree_on_the_root() {
    let mut wallet = Wallet::new();
    let payment = tx(1, &[10, 11, 12]);
    let notes = wallet.find_my_sapling_notes(&payment, &vec![(0, [5u8; 32]), (2, [5u8; 32])]);
    let block = Block { vtx: vec![payment.duplicate()] };
    assert!(wallet.add_to_wallet_if_invloving_me(&payment, &block, false, notes));
    let mut tree = SaplingMerkleTree::new();
    wallet.chain_tip(&index(0, None), &block, &mut tree, true).unwrap();
    assert_eq!(tree.size(), 3);
    let (first, second, third, unknown) = (point(1, 0), point(1, 1), point(1, 2), point(9, 0));
    let (witnesses, root) =
        wallet.get_sapling_note_witnesses(vec![&first, &second, &third, &unknown]).unwrap();
    assert_eq!(root, Some(tree.root()));
    assert_eq!(witnesses.len(), 4);
    assert_eq!(witnesses[0].unwrap().position(), 0);
    assert!(witnesses[1].is_none());
    assert_eq!(witnesses[2].unwrap().position(), 2);
    assert!(witnesses[3].is_none());
    let (none, no_root) = wallet.get_sapling_note_witnesses(vec![&second, &unknown]).unwrap();
    assert_eq!(none.len(), 2);
    assert_eq!(no_root, None);
}

#[test]
fn witnesses_with_different_roots_are_an_error() {
    let mut wallet = Wallet::new();
    let mut stale = NoteDataMap::new();
    stale.insert(point(1, 0), note_with_witness(&small_tree(&[1]), 3));
    let mut fresh = NoteDataMap::new();
    fresh.insert(point(2, 0), note_with_witness(&small_tree(&[1, 2]), 3));
    let mut first = WalletTransaction::new(tx(1, &[1]));
    first.map_sapling_data = stale;
    let mut second = WalletTransaction::new(tx(2, &[2]));
    second.map_sapling_data = fresh;
    wallet.add_to_wallet(first, false);
    wallet.add_to_wallet(second, false);
    let (stale_point, fresh_point) = (point(1, 0), point(2, 0));
    assert!(wallet.get_sapling_note_witnesses(vec![&stale_point]).is_ok());
    assert_eq!(
        wallet.get_sapling_note_witnesses(vec![&stale_point, &fresh_point]).err(),
        Some(WalletError::WitnessRootMismatch)
    );
}

#[test]
fn outputs_are_counted_up_to_a_limit() {
    let block = Block { vtx: vec![tx(1, &[1, 2]), tx(2, &[]), tx(3, &[3])] };
    assert_eq!(count_outputs(&block, 3), Some(3));
    assert_eq!(count_outputs(&block, 100), Some(3));
    assert_eq!(count_outputs(&block, 2), None);
    assert_eq!(count_outputs(&Block { vtx: Vec::new() }, 0), Some(0));
}

#[test]
fn a_copy_of_a_transaction_holds_the_same() {
    let mut t = tx(1, &[1, 2]);
    t.vin.push(TxIn { prevout: point(5, 1), script_sig: Script { bytes: vec![1, 2, 3] } });
    let copy = t.duplicate();
    assert_eq!(copy.hash, t.hash);
    assert_eq!(copy.vin.len(), 1);
    assert_eq!(copy.vin[0].prevout, point(5, 1));
    assert_eq!(copy.vin[0].script_sig.bytes, vec![1, 2, 3]);
    assert_eq!(copy.v_shielded_output.len(), 2);
    assert_eq!(copy.v_shielded_output[1].cmu, digest(2));
    let inpoint = SaplingInPoint::new(&t, 0);
    assert_eq!(inpoint.n, 0);
    assert_eq!(inpoint.ptx.hash, digest(1));
}
