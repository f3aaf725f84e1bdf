use shielded_pool::hash::FrHash;
use std::collections::hash_map::DefaultHasher;
use std::hash::{Hash, Hasher};
use shielded_pool::tree::{SaplingMerkleTree, TreeFull};

fn leaf(n: u8) -> FrHash {
    let mut bytes = [0u8; 32];
    bytes[0] = n;
    bytes[5] = 7;
    FrHash::from_bytes(bytes).unwrap()
}

fn node(bytes: [u8; 32]) -> sapling_crypto::Node {
    Option::from(sapling_crypto::Node::from_bytes(bytes)).unwrap()
}

#[test]
fn empty_tree_root_is_the_protocol_constant() {
    let tree = SaplingMerkleTree::new();
    let reference = sapling_crypto::CommitmentTree::empty();
    assert_eq!(tree.root().to_bytes(), reference.root().to_bytes());
    assert_eq!(tree.size(), 0);
}

#[test]
fn root_matches_the_reference_tree_as_leaves_are_appended() {
    let mut tree = SaplingMerkleTree::new();
    let mut reference = sapling_crypto::CommitmentTree::empty();
    for i in 0..40u8 {
        assert_eq!(tree.append(leaf(i)), Ok(()));
        reference.append(node(leaf(i).to_bytes())).unwrap();
        assert_eq!(tree.root().to_bytes(), reference.root().to_bytes());
        assert_eq!(tree.size(), u64::from(i) + 1);
    }
}

#[test]
fn witness_root_tracks_the_tree() {
    let mut tree = SaplingMerkleTree::with_depth(5);
    let mut witnesses = Vec::new();
    for i in 0..32u8 {
        tree.append(leaf(i)).unwrap();
        for w in witnesses.iter_mut() {
            let w: &mut shielded_pool::witness::SaplingWitness = w;
            w.append(leaf(i)).unwrap();
        }
        witnesses.push(tree.witness().unwrap());
        for (p, w) in witnesses.iter().enumerate() {
            assert_eq!(w.position(), p as u64);
            assert_eq!(w.root(), tree.root());
        }
    }
}

#[test]
fn witness_path_matches_the_reference_witness() {
    let mut tree = SaplingMerkleTree::new();
    let mut reference = sapling_crypto::CommitmentTree::empty();
    for i in 0..5u8 {
        tree.append(leaf(i)).unwrap();
        reference.append(node(leaf(i).to_bytes())).unwrap();
    }
    let mut witness = tree.witness().unwrap();
    let mut reference_witness =
        sapling_crypto::IncrementalWitness::from_tree(reference.clone()).unwrap();
    for i in 5..23u8 {
        witness.append(leaf(i)).unwrap();
        reference_witness.append(node(leaf(i).to_bytes())).unwrap();
        let path = reference_witness.path().unwrap();
        let ours: Vec<[u8; 32]> = witness.path().iter().map(|h| h.to_bytes()).collect();
        let theirs: Vec<[u8; 32]> = path.path_elems().iter().map(|n| n.to_bytes()).collect();
        assert_eq!(ours, theirs);
        assert_eq!(witness.root().to_bytes(), reference_witness.root().to_bytes());
    }
}

#[test]
fn a_full_tree_refuses_another_leaf() {
    let mut tree = SaplingMerkleTree::with_depth(2);
    for i in 0..4u8 {
        assert_eq!(tree.append(leaf(i)), Ok(()));
    }
    assert!(tree.is_full());
    let root = tree.root();
    assert_eq!(tree.append(leaf(9)), Err(TreeFull {}));
    assert_eq!(tree.root(), root);
    assert_eq!(tree.size(), 4);
}

#[test]
fn a_witness_of_a_full_tree_refuses_another_leaf() {
    let mut tree = SaplingMerkleTree::with_depth(2);
    tree.append(leaf(0)).unwrap();
    let mut witness = tree.witness().unwrap();
    for i in 1..4u8 {
        tree.append(leaf(i)).unwrap();
        assert_eq!(witness.append(leaf(i)), Ok(()));
        assert_eq!(witness.root(), tree.root());
    }
    assert_eq!(witness.append(leaf(9)), Err(TreeFull {}));
    assert_eq!(witness.root(), tree.root());
}

#[test]
fn an_empty_tree_has_no_witness() {
    assert!(SaplingMerkleTree::new().witness().is_none());
}

#[test]
fn non_canonical_bytes_are_no_digest() {
    assert!(FrHash::from_bytes([0xff; 32]).is_none());
    let modulus: [u8; 32] = [
        0x01, 0x00, 0x00, 0x00, 0xff, 0xff, 0xff, 0xff, 0xfe, 0x5b, 0xfe, 0xff, 0x02, 0xa4, 0xbd,
        0x53, 0x05, 0xd8, 0xa1, 0x09, 0x08, 0xd8, 0x39, 0x33, 0x48, 0x7d, 0x9d, 0x29, 0x53, 0xa7,
        0xed, 0x73,
    ];
    assert!(FrHash::from_bytes(modulus).is_none());
    let mut below = modulus;
    below[0] = 0;
    assert_eq!(FrHash::from_bytes(below).unwrap().to_bytes(), below);
    assert_eq!(
        FrHash::from_bytes(modulus).is_some(),
        bool::from(sapling_crypto::Node::from_bytes(modulus).is_some())
    );
}

#[test]
fn combine_is_the_sapling_merkle_hash() {
    let a = leaf(1);
    let b = leaf(2);
    let ours = FrHash::combine(3, &a, &b);
    let theirs = sapling_crypto::merkle_hash(3, &a.to_bytes(), &b.to_bytes());
    assert_eq!(ours.to_bytes(), theirs);
    assert_ne!(ours, a);
    assert_ne!(ours, b);
    assert_ne!(FrHash::combine(4, &a, &b), ours);
}

#[test]
fn the_root_does_not_depend_on_witnesses() {
    let mut plain = SaplingMerkleTree::with_depth(4);
    let mut watched = SaplingMerkleTree::with_depth(4);
    let mut witnesses = Vec::new();
    for i in 0..11u8 {
        plain.append(leaf(i)).unwrap();
        watched.append(leaf(i)).unwrap();
        for w in witnesses.iter_mut() {
            let w: &mut shielded_pool::witness::SaplingWitness = w;
            w.append(leaf(i)).unwrap();
        }
        if i % 3 == 0 {
            witnesses.push(watched.witness().unwrap());
        }
        assert_eq!(plain.root(), watched.root());
    }
    assert_eq!(watched.clone().root(), plain.root());
    assert_eq!(watched.remaining(), 5);
    assert_eq!(watched.depth(), 4);
    assert_eq!(witnesses[1].size(), 11);
    assert_eq!(witnesses[1].remaining(), 5);
    assert!(!witnesses[1].is_full());
    let copy = witnesses[2].clone();
    assert_eq!(copy.root(), plain.root());
    assert_eq!(copy.position(), 6);
}

#[test]
fn equal_digests_compare_and_hash_alike() {
    let a = leaf(3);
    let b = FrHash::from_bytes(a.to_bytes()).unwrap();
    assert_eq!(a, b);
    assert_ne!(a, leaf(4));
    let mut first = DefaultHasher::new();
    a.hash(&mut first);
    let mut second = DefaultHasher::new();
    b.hash(&mut second);
    assert_eq!(first.finish(), second.finish());
    assert_eq!(FrHash::empty_leaf().to_bytes()[0], 1);
    assert_eq!(&FrHash::empty_leaf().to_bytes()[1..], &[0u8; 31][..]);
}

#[test]
fn the_path_of_a_witness_leads_from_its_leaf_to_the_root() {
    let mut tree = SaplingMerkleTree::with_depth(4);
    for i in 0..6u8 {
        tree.append(leaf(i)).unwrap();
    }
    let mut witness = tree.witness().unwrap();
    for i in 6..13u8 {
        tree.append(leaf(i)).unwrap();
        witness.append(leaf(i)).unwrap();
        let path = witness.path();
        assert_eq!(path.len(), 4);
        let mut cur = leaf(5);
        let mut index = witness.position();
        for (level, sibling) in path.iter().enumerate() {
            cur = if index % 2 == 1 {
                FrHash::combine(level, sibling, &cur)
            } else {
                FrHash::combine(level, &cur, sibling)
            };
            index /= 2;
        }
        assert_eq!(cur, tree.root());
    }
}
