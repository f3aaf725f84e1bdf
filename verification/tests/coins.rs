use shielded_pool::coins::{
    AnchorsSaplingCacheEntry, CoinViewCache, CoinViewDB, CoinsView, NullifiersCacheEntry,
};
use shielded_pool::hash::{FrHash, Uint256};
use shielded_pool::transaction::{SaplingSpendDescription, Transaction};
use shielded_pool::tree::SaplingMerkleTree;

fn digest(n: u8) -> FrHash {
    let mut bytes = [0u8; 32];
    bytes[0] = n;
    bytes[9] = 3;
    FrHash::from_bytes(bytes).unwrap()
}

fn nullifier(n: u8) -> Uint256 {
    Uint256::new([n; 32])
}

fn spend(n: u8) -> SaplingSpendDescription {
    SaplingSpendDescription {
        cv: [0u8; 32],
        anchor: digest(0),
        nullifier: nullifier(n),
        rk: [0u8; 32],
        zkproof: [0u8; 192],
        spend_auth_sig: None,
    }
}

fn tx_spending(hash: u8, nullifiers: &[u8]) -> Transaction {
    Transaction {
        hash: digest(hash),
        coinbase: false,
        vin: Vec::new(),
        vout: Vec::new(),
        v_shielded_spend: nullifiers.iter().map(|n| spend(*n)).collect(),
        v_shielded_output: Vec::new(),
        balancing_value: 0,
        binding_sig: [0u8; 64],
    }
}

fn tree_with(leaves: &[u8]) -> SaplingMerkleTree {
    let mut tree = SaplingMerkleTree::new();
    for leaf in leaves {
        tree.append(digest(*leaf)).unwrap();
    }
    tree
}

#[test]
fn a_new_cache_has_no_best_anchor() {
    let cache = CoinViewCache::new();
    assert_eq!(cache.get_best_anchor(), None);
    assert!(cache.best_block().is_none());
    assert_eq!(CoinViewDB::new().get_best_anchor(), None);
}

#[test]
fn new_entries_are_not_entered() {
    let entry = AnchorsSaplingCacheEntry::new(tree_with(&[1]));
    assert!(!entry.entered);
    assert_eq!(entry.flags, '\0');
    assert_eq!(entry.tree.size(), 1);
    let entry = NullifiersCacheEntry::new();
    assert!(!entry.entered);
    assert!(!entry.dirty);
}

#[test]
fn push_anchor_sets_the_best_anchor_to_the_root() {
    let mut cache = CoinViewCache::new();
    let tree = tree_with(&[1, 2, 3]);
    let root = tree.root();
    cache.push_anchor(tree);
    assert_eq!(cache.get_best_anchor(), Some(root));
    let found = cache.get_sapling_anchor_at(root).unwrap();
    assert_eq!(found.size(), 3);
    assert_eq!(found.root(), root);
    assert_eq!(cache.base().anchor_reads(), 0);
}

#[test]
fn a_tree_from_the_cache_is_an_independent_snapshot() {
    let mut cache = CoinViewCache::new();
    let tree = tree_with(&[1, 2]);
    let root = tree.root();
    cache.push_anchor(tree);
    let mut copy = cache.get_sapling_anchor_at(root).unwrap();
    copy.append(digest(9)).unwrap();
    assert_ne!(copy.root(), root);
    let again = cache.get_sapling_anchor_at(root).unwrap();
    assert_eq!(again.size(), 2);
    assert_eq!(again.root(), root);
    assert_eq!(cache.get_best_anchor(), Some(root));
}

#[test]
fn get_anchor_at_reads_the_base_once_on_a_hit() {
    let mut base = CoinViewDB::new();
    let tree = tree_with(&[4, 5, 6]);
    let root = tree.root();
    base.push_anchor(tree);
    assert_eq!(base.anchor_reads(), 0);
    let mut cache = CoinViewCache::with_base(base);
    let first = cache.get_sapling_anchor_at(root).unwrap();
    assert_eq!(cache.base().anchor_reads(), 1);
    let second = cache.get_sapling_anchor_at(root).unwrap();
    assert_eq!(cache.base().anchor_reads(), 1);
    assert_eq!(first.root(), second.root());
    assert_eq!(first.size(), 3);
    assert_eq!(second.size(), 3);
}

#[test]
fn a_miss_in_the_base_is_not_cached() {
    let mut cache = CoinViewCache::new();
    let unknown = digest(77);
    assert!(cache.get_sapling_anchor_at(unknown).is_none());
    assert_eq!(cache.base().anchor_reads(), 1);
    assert!(cache.get_sapling_anchor_at(unknown).is_none());
    assert_eq!(cache.base().anchor_reads(), 2);
}

#[test]
fn set_nullifiers_marks_every_spend_of_the_transaction() {
    let mut cache = CoinViewCache::new();
    let tx = tx_spending(1, &[10, 11, 12]);
    cache.set_nullifiers(&tx, true);
    for n in [10u8, 11, 12] {
        assert!(cache.get_nullifier(nullifier(n)));
    }
    assert_eq!(cache.base().nullifier_reads(), 0);
    assert!(!cache.get_nullifier(nullifier(13)));
    assert_eq!(cache.base().nullifier_reads(), 1);
}

#[test]
fn set_nullifiers_can_mark_as_unspent_again() {
    let mut cache = CoinViewCache::new();
    let tx = tx_spending(1, &[10, 11]);
    cache.set_nullifiers(&tx, true);
    cache.set_nullifiers(&tx, false);
    assert!(!cache.get_nullifier(nullifier(10)));
    assert!(!cache.get_nullifier(nullifier(11)));
    assert_eq!(cache.base().nullifier_reads(), 0);
}

#[test]
fn get_nullifier_asks_the_base_once_and_keeps_the_answer() {
    let mut base = CoinViewDB::new();
    base.set_nullifier(nullifier(5), true);
    let mut cache = CoinViewCache::with_base(base);
    assert!(cache.get_nullifier(nullifier(5)));
    assert_eq!(cache.base().nullifier_reads(), 1);
    assert!(cache.get_nullifier(nullifier(5)));
    assert_eq!(cache.base().nullifier_reads(), 1);
    assert!(!cache.get_nullifier(nullifier(6)));
    assert!(!cache.get_nullifier(nullifier(6)));
    assert_eq!(cache.base().nullifier_reads(), 2);
}

#[test]
fn the_base_store_answers_for_itself() {
    let mut base = CoinViewDB::new();
    let tree = tree_with(&[1]);
    let root = tree.root();
    base.push_anchor(tree);
    assert_eq!(base.get_best_anchor(), Some(root));
    assert_eq!(base.get_sapling_anchor_at(root).unwrap().size(), 1);
    assert!(base.get_sapling_anchor_at(digest(50)).is_none());
    assert_eq!(base.anchor_reads(), 2);
    assert!(!base.get_nullifier(nullifier(1)));
    base.set_nullifier(nullifier(1), true);
    assert!(base.get_nullifier(nullifier(1)));
    assert_eq!(base.nullifier_reads(), 2);
    base.set_best_block(Uint256::new([9; 32]));
    assert_eq!(base.best_block(), Some(Uint256::new([9; 32])));
}

#[test]
fn set_best_block_records_the_hash() {
    let mut cache = CoinViewCache::new();
    cache.set_best_block(Uint256::new([7; 32]));
    assert_eq!(cache.best_block(), Some(Uint256::new([7; 32])));
}

#[test]
fn pop_anchor_takes_the_best_anchor_back() {
    let mut cache = CoinViewCache::new();
    let first = tree_with(&[1]);
    let first_root = first.root();
    let second = tree_with(&[1, 2]);
    let second_root = second.root();
    cache.push_anchor(first);
    cache.push_anchor(second);
    assert_eq!(cache.get_best_anchor(), Some(second_root));
    cache.pop_anchor(Some(first_root));
    assert_eq!(cache.get_best_anchor(), Some(first_root));
    assert!(cache.get_sapling_anchor_at(second_root).is_none());
    assert_eq!(cache.get_sapling_anchor_at(first_root).unwrap().size(), 1);
    cache.pop_anchor(Some(first_root));
    assert_eq!(cache.get_sapling_anchor_at(first_root).unwrap().size(), 1);
}
