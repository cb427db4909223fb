use alloy_primitives::keccak256;
use incremental_merkle::digest::Digest;
use incremental_merkle::tree::{IncrementalMerkleTree, IncrementalMerkleTreeError};

fn zero() -> Digest {
    Digest { bytes: [0u8; 32] }
}

fn leaf(text: &str) -> Digest {
    Digest { bytes: keccak256(text.as_bytes()).0 }
}

fn pair(left: &Digest, right: &Digest) -> Digest {
    let mut buf = [0u8; 64];
    buf[..32].copy_from_slice(&left.bytes);
    buf[32..].copy_from_slice(&right.bytes);
    Digest { bytes: keccak256(buf).0 }
}

/// Builds the root bottom-up from all `2^height` leaf slots.
fn direct_root(leaves: &[Digest], height: usize) -> Digest {
    let mut level: Vec<Digest> = (0..(1usize << height))
        .map(|i| if i < leaves.len() { leaves[i] } else { zero() })
        .collect();
    while level.len() > 1 {
        level = level.chunks(2).map(|c| pair(&c[0], &c[1])).collect();
    }
    level[0]
}

#[test]
fn fresh_tree_has_zero_root_and_size() {
    let t1 = IncrementalMerkleTree::<1>::new();
    assert_eq!(t1.root(), zero());
    assert_eq!(t1.size(), 0);
    let t4 = IncrementalMerkleTree::<4>::new();
    assert_eq!(t4.root(), zero());
    assert_eq!(t4.size(), 0);
    let t16 = IncrementalMerkleTree::<16>::new();
    assert_eq!(t16.root(), zero());
    assert_eq!(t16.size(), 0);
}

#[test]
fn empty_subtree_table_is_chained() {
    let t = IncrementalMerkleTree::<5>::new();
    assert_eq!(t.zero_hash(0), zero());
    for h in 1..5 {
        let below = t.zero_hash(h - 1);
        assert_eq!(t.zero_hash(h), pair(&below, &below));
    }
    assert_ne!(t.zero_hash(1), zero());
}

#[test]
fn height_two_scenario() {
    let mut t = IncrementalMerkleTree::<2>::new();
    assert_eq!(t.root(), zero());
    let z0 = zero();
    let z1 = pair(&z0, &z0);
    let l0 = leaf("a");
    let l1 = leaf("b");
    let l2 = leaf("c");

    assert!(t.append(l0).is_ok());
    assert_eq!(t.root(), pair(&pair(&l0, &z0), &z1));
    assert!(t.append(l1).is_ok());
    assert_eq!(t.root(), pair(&pair(&l0, &l1), &z1));
    assert!(t.append(l2).is_ok());
    assert_eq!(t.size(), 3);
    let full_root = pair(&pair(&l0, &l1), &pair(&l2, &z0));
    assert_eq!(t.root(), full_root);

    assert_eq!(t.append(leaf("d")), Err(IncrementalMerkleTreeError::TreeFull));
    assert_eq!(t.root(), full_root);
    assert_eq!(t.size(), 3);
}

#[test]
fn append_past_capacity_changes_nothing() {
    let mut t = IncrementalMerkleTree::<3>::new();
    for i in 0..7 {
        assert!(t.append(leaf(&format!("leaf{}", i))).is_ok());
    }
    let before = t.root();
    assert_eq!(t.append(leaf("extra")), Err(IncrementalMerkleTreeError::TreeFull));
    assert_eq!(t.size(), 7);
    assert_eq!(t.root(), before);
    assert_eq!(t.append(leaf("again")), Err(IncrementalMerkleTreeError::TreeFull));
    assert_eq!(t.root(), before);
}

#[test]
fn single_slot_tree_takes_one_leaf() {
    let mut t = IncrementalMerkleTree::<1>::new();
    let l = leaf("only");
    assert!(t.append(l).is_ok());
    assert_eq!(t.root(), pair(&l, &zero()));
    assert_eq!(t.append(leaf("more")), Err(IncrementalMerkleTreeError::TreeFull));
    assert_eq!(t.size(), 1);
}

#[test]
fn zero_height_tree_accepts_nothing() {
    let mut t = IncrementalMerkleTree::<0>::new();
    assert_eq!(t.root(), zero());
    assert_eq!(t.append(leaf("a")), Err(IncrementalMerkleTreeError::TreeFull));
    assert_eq!(t.size(), 0);
    assert_eq!(t.root(), zero());
}

#[test]
fn incremental_root_matches_direct_build() {
    let mut t = IncrementalMerkleTree::<4>::new();
    let mut leaves: Vec<Digest> = Vec::new();
    for i in 0..15 {
        let l = leaf(&format!("item{}", i));
        assert!(t.append(l).is_ok());
        leaves.push(l);
        assert_eq!(t.root(), direct_root(&leaves, 4));
    }
    assert_eq!(t.append(leaf("overflow")), Err(IncrementalMerkleTreeError::TreeFull));
    assert_eq!(t.root(), direct_root(&leaves, 4));
}

#[test]
fn root_depends_on_leaf_order() {
    let a = leaf("a");
    let b = leaf("b");
    let mut ab = IncrementalMerkleTree::<3>::new();
    assert!(ab.append(a).is_ok());
    assert!(ab.append(b).is_ok());
    let mut ba = IncrementalMerkleTree::<3>::new();
    assert!(ba.append(b).is_ok());
    assert!(ba.append(a).is_ok());
    assert_ne!(ab.root(), ba.root());
}

#[test]
fn root_is_stable_between_appends() {
    let mut t = IncrementalMerkleTree::<6>::new();
    assert_eq!(t.root(), t.root());
    for i in 0..5 {
        assert!(t.append(leaf(&format!("x{}", i))).is_ok());
        let first = t.root();
        let second = t.root();
        let third = t.root();
        assert_eq!(first, second);
        assert_eq!(second, third);
    }
}

#[test]
fn appended_leaf_changes_root() {
    let mut t = IncrementalMerkleTree::<8>::new();
    assert!(t.append(leaf("a")).is_ok());
    let one = t.root();
    assert_ne!(one, zero());
    assert!(t.append(leaf("b")).is_ok());
    assert_ne!(t.root(), one);
}
