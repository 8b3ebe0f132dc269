use immutable_ledger::merkle::{BalanceProof, BalanceTree};
use sha2::{Digest, Sha256};

fn leaf(account: &str, balance: i64) -> [u8; 32] {
    let mut h = Sha256::new();
    h.update(account.as_bytes());
    h.update(balance.to_le_bytes());
    h.finalize().into()
}

fn node(l: [u8; 32], r: [u8; 32]) -> [u8; 32] {
    let mut h = Sha256::new();
    h.update(l);
    h.update(r);
    h.finalize().into()
}

#[test]
fn empty_tree_root_is_zero_and_not_cached() {
    let mut tree = BalanceTree::new();
    assert_eq!(tree.compute_root(), [0u8; 32]);
    assert!(tree.generate_proof("ANY").is_none());
    assert!(tree.get("ANY").is_none());
}

#[test]
fn single_leaf_root_is_leaf_hash_and_proof_verifies() {
    let mut tree = BalanceTree::new();
    tree.update("ASSET-CASH", 42);
    let root = tree.compute_root();
    assert_eq!(root, leaf("ASSET-CASH", 42));
    let proof = tree.generate_proof("ASSET-CASH").unwrap();
    assert_eq!(proof.account, "ASSET-CASH");
    assert_eq!(proof.balance, 42);
    assert_eq!(proof.leaf_index, 0);
    assert!(proof.proof_hashes.is_empty());
    assert_eq!(proof.root_hash, root);
    assert!(BalanceTree::verify_proof(&proof));
}

#[test]
fn two_and_three_leaf_roots() {
    let mut tree = BalanceTree::new();
    tree.update("AAAAA", 1);
    tree.update("BBBBB", -1);
    let two = tree.compute_root();
    assert_eq!(two, node(leaf("AAAAA", 1), leaf("BBBBB", -1)));

    tree.update("CCCCC", 5);
    let three = tree.compute_root();
    let c = leaf("CCCCC", 5);
    assert_eq!(three, node(node(leaf("AAAAA", 1), leaf("BBBBB", -1)), node(c, c)));
}

#[test]
fn five_leaf_root_pads_each_odd_level() {
    let mut tree = BalanceTree::new();
    let names = ["AAAAA", "BBBBB", "CCCCC", "DDDDD", "EEEEE"];
    for (i, n) in names.iter().enumerate() {
        tree.update(n, i as i64);
    }
    let l: Vec<[u8; 32]> = names.iter().enumerate().map(|(i, n)| leaf(n, i as i64)).collect();
    let ab = node(l[0], l[1]);
    let cd = node(l[2], l[3]);
    let ee = node(l[4], l[4]);
    let abcd = node(ab, cd);
    let eeee = node(ee, ee);
    assert_eq!(tree.compute_root(), node(abcd, eeee));
}

#[test]
fn update_overwrites_in_place_and_invalidates_root() {
    let mut tree = BalanceTree::new();
    tree.update("AAAAA", 1);
    tree.update("BBBBB", 2);
    tree.compute_root();
    assert!(tree.generate_proof("AAAAA").is_some());
    tree.update("AAAAA", 10);
    assert!(tree.generate_proof("AAAAA").is_none());
    assert_eq!(tree.get("AAAAA"), Some(10));
    assert_eq!(tree.get("BBBBB"), Some(2));
    let root = tree.compute_root();
    assert_eq!(root, node(leaf("AAAAA", 10), leaf("BBBBB", 2)));
    let proof = tree.generate_proof("AAAAA").unwrap();
    assert_eq!(proof.balance, 10);
    assert_eq!(proof.root_hash, root);
}

#[test]
fn generated_proofs_carry_the_sibling_path_and_verify() {
    let mut tree = BalanceTree::new();
    let names = ["AAAAA", "BBBBB", "CCCCC", "DDDDD", "EEEEE"];
    for (i, n) in names.iter().enumerate() {
        tree.update(n, i as i64);
    }
    let root = tree.compute_root();
    let l: Vec<[u8; 32]> = names.iter().enumerate().map(|(i, n)| leaf(n, i as i64)).collect();
    let ab = node(l[0], l[1]);
    let cd = node(l[2], l[3]);
    let ee = node(l[4], l[4]);
    let eeee = node(ee, ee);
    let proof = tree.generate_proof("CCCCC").unwrap();
    assert_eq!(proof.leaf_index, 2);
    assert_eq!(proof.proof_hashes, vec![l[3], ab, eeee]);
    let proof = tree.generate_proof("EEEEE").unwrap();
    assert_eq!(proof.leaf_index, 4);
    assert_eq!(proof.proof_hashes, vec![l[4], ee, node(ab, cd)]);
    for n in names {
        let proof = tree.generate_proof(n).unwrap();
        assert_eq!(proof.root_hash, root);
        assert!(BalanceTree::verify_proof(&proof), "proof for {} fails", n);
        let mut forged = proof.clone();
        forged.balance += 1;
        assert!(!BalanceTree::verify_proof(&forged));
    }
}

#[test]
fn root_does_not_depend_on_update_order() {
    let mut a = BalanceTree::new();
    a.update("ZULU-1", 3);
    a.update("ALPHA", -1);
    a.update("MIKE-7", -2);
    let mut b = BalanceTree::new();
    b.update("MIKE-7", 9);
    b.update("ALPHA", -1);
    b.update("ZULU-1", 3);
    b.update("MIKE-7", -2);
    assert_eq!(a.compute_root(), b.compute_root());
    let expected = node(node(leaf("ALPHA", -1), leaf("MIKE-7", -2)), node(leaf("ZULU-1", 3), leaf("ZULU-1", 3)));
    assert_eq!(a.compute_root(), expected);
}

#[test]
fn verify_proof_folds_siblings() {
    let s1 = [7u8; 32];
    let s2 = [8u8; 32];
    let root = node(node(leaf("ASSET-CASH", 100), s1), s2);
    let proof = BalanceProof {
        account: "ASSET-CASH".to_string(),
        balance: 100,
        leaf_index: 0,
        proof_hashes: vec![s1, s2],
        root_hash: root,
    };
    assert!(BalanceTree::verify_proof(&proof));
    let mut wrong_balance = proof.clone();
    wrong_balance.balance = 101;
    assert!(!BalanceTree::verify_proof(&wrong_balance));
    let mut swapped = proof.clone();
    swapped.proof_hashes = vec![s2, s1];
    assert!(!BalanceTree::verify_proof(&swapped));
}

#[test]
fn verify_proof_puts_the_sibling_left_for_right_children() {
    let s1 = [7u8; 32];
    let s2 = [8u8; 32];
    // Index 1: a right child at the lowest level, a left child above it.
    let root = node(node(s1, leaf("ASSET-CASH", 100)), s2);
    let proof = BalanceProof {
        account: "ASSET-CASH".to_string(),
        balance: 100,
        leaf_index: 1,
        proof_hashes: vec![s1, s2],
        root_hash: root,
    };
    assert!(BalanceTree::verify_proof(&proof));
    let mut wrong_index = proof.clone();
    wrong_index.leaf_index = 0;
    assert!(!BalanceTree::verify_proof(&wrong_index));
}
