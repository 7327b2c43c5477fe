use smt::SimpleStore;
use smt::SparseMerkleTree;

fn new_sparse_merkle_tree() -> SparseMerkleTree {
    let (smn, smv) = (SimpleStore::new(), SimpleStore::new());
    SparseMerkleTree::new_with_stores(smn, smv)
}

#[test]
fn test_smt_update_basic() {
    let mut smt = new_sparse_merkle_tree();

    // Test getting an empty key.
    assert!(smt.get(b"testKey").unwrap().is_none());

    assert!(!smt.contains(b"testKey").unwrap());

    // Test updating the empty key.
    smt.update(b"testKey", b"testValue".to_vec()).unwrap();

    assert_eq!(smt.get(b"testKey").unwrap(), Some(b"testValue".to_vec()));
    assert!(smt.contains(b"testKey").unwrap());

    // Test updating the non-empty key.
    smt.update(b"testKey", b"testValue2".to_vec()).unwrap();
    assert_eq!(smt.get(b"testKey").unwrap(), Some(b"testValue2".to_vec()));

    // Test updating a second empty key where the path for both keys share the
    // first 2 bits (when using SHA256).
    smt.update(b"foo", b"testValue".to_vec()).unwrap();
    assert_eq!(smt.get(b"foo").unwrap(), Some(b"testValue".to_vec()));

    // Test updating a third empty key.
    smt.update(b"testKey2", b"testValue".to_vec()).unwrap();
    assert_eq!(smt.get(b"testKey2").unwrap(), Some(b"testValue".to_vec()));
    assert_eq!(smt.get(b"testKey").unwrap(), Some(b"testValue2".to_vec()));

    // Test that a tree can be imported from its stores.
    let smt2 = SparseMerkleTree::import(smt.nodes().clone(), smt.values().clone(), smt.root());
    assert_eq!(smt2.get(b"testKey").unwrap(), Some(b"testValue2".to_vec()));
}

#[test]
fn test_smt_remove_basic() {
    let mut smt = new_sparse_merkle_tree();

    // Testing inserting, deleting a key, and inserting it again.
    smt.update(b"testKey", b"testValue".to_vec()).unwrap();

    let root1 = smt.root();
    smt.update(b"testKey", Vec::new()).unwrap();
    assert!(smt.get(b"testKey").unwrap().is_none());
    assert!(!smt.contains(b"testKey").unwrap());

    smt.update(b"testKey", b"testValue".to_vec()).unwrap();
    assert_eq!(smt.get(b"testKey").unwrap(), Some(b"testValue".to_vec()));
    assert_eq!(smt.root(), root1);

    // Test inserting and deleting a second key.
    smt.update(b"testKey2", b"testValue".to_vec()).unwrap();
    smt.remove(b"testKey2").unwrap();
    assert!(smt.get(b"testKey2").unwrap().is_none());
    assert_eq!(smt.get(b"testKey").unwrap(), Some(b"testValue".to_vec()));
    assert_eq!(root1, smt.root());

    // Test inserting and deleting a different second key, when the the first 2
    // bits of the path for the two keys in the tree are the same (when using SHA256).

    smt.update(b"foo", b"testValue".to_vec()).unwrap();
    assert_eq!(smt.get(b"foo").unwrap(), Some(b"testValue".to_vec()));
    smt.remove(b"foo").unwrap();
    assert!(smt.get(b"foo").unwrap().is_none());
    assert_eq!(smt.get(b"testKey").unwrap(), Some(b"testValue".to_vec()));
    assert_eq!(root1, smt.root());

    // Testing inserting, deleting a key, and inserting it again, using remove.
    smt.update(b"testKey", b"testValue".to_vec()).unwrap();
    let root1 = smt.root();
    smt.remove(b"testKey").unwrap();
    assert!(smt.get(b"testKey").unwrap().is_none());
    assert!(!smt.contains(b"testKey").unwrap());
    smt.update(b"testKey", b"testValue".to_vec()).unwrap();
    assert_eq!(smt.get(b"testKey").unwrap(), Some(b"testValue".to_vec()));
    assert_eq!(smt.root(), root1);
}

#[test]
fn test_deep_sparse_merkle_sub_tree_basic() {
    let mut smt = new_sparse_merkle_tree();

    smt.update(b"testKey1", b"testValue1".to_vec()).unwrap();
    smt.update(b"testKey2", b"testValue2".to_vec()).unwrap();
    smt.update(b"testKey3", b"testValue3".to_vec()).unwrap();
    smt.update(b"testKey4", b"testValue4".to_vec()).unwrap();
    smt.update(b"testKey6", b"testValue6".to_vec()).unwrap();

    let original_root = smt.root();

    let proof1 = smt.prove_updatable(b"testKey1").unwrap();
    let proof2 = smt.prove_updatable(b"testKey2").unwrap();
    let proof5 = smt.prove_updatable(b"testKey5").unwrap();

    let mut dsmst = SparseMerkleTree::import(SimpleStore::new(), SimpleStore::new(), smt.root());
    dsmst.add_branch(proof1, b"testKey1", b"testValue1").unwrap();

    dsmst.add_branch(proof2, b"testKey2", b"testValue2").unwrap();
    dsmst.add_branch(proof5, b"testKey5", b"").unwrap();

    let val = dsmst.get(b"testKey1").unwrap().unwrap();
    assert_eq!(val, b"testValue1".to_vec());

    let val = dsmst.get_descend(b"testKey1").unwrap().unwrap();
    assert_eq!(val, b"testValue1".to_vec());

    let val = dsmst.get(b"testKey2").unwrap().unwrap();
    assert_eq!(val, b"testValue2".to_vec());

    let val = dsmst.get_descend(b"testKey2").unwrap().unwrap();
    assert_eq!(val, b"testValue2".to_vec());

    let val = dsmst.get(b"testKey5").unwrap();
    assert!(val.is_none());

    let val = dsmst.get_descend(b"testKey5").unwrap();
    assert!(val.is_none());

    assert!(dsmst.get_descend(b"testKey6").unwrap().is_none());

    dsmst.update(b"testKey1", b"testValue3".to_vec()).unwrap();
    dsmst.update(b"testKey2", Vec::new()).unwrap();
    dsmst.update(b"testKey5", b"testValue5".to_vec()).unwrap();

    let val = dsmst.get(b"testKey1").unwrap().unwrap();
    assert_eq!(val, b"testValue3".to_vec());

    let val = dsmst.get(b"testKey2").unwrap();
    assert!(val.is_none());

    let val = dsmst.get(b"testKey5").unwrap().unwrap();
    assert_eq!(val, b"testValue5".to_vec());

    smt.update(b"testKey1", b"testValue3".to_vec()).unwrap();
    smt.update(b"testKey2", Vec::new()).unwrap();
    smt.update(b"testKey5", b"testValue5".to_vec()).unwrap();
    assert_eq!(smt.root(), dsmst.root());
    assert_ne!(smt.root(), original_root);
}

#[test]
fn test_deep_sparse_merkle_sub_tree_bad_input() {
    let mut smt = new_sparse_merkle_tree();

    smt.update(b"testKey1", b"testValue1".to_vec()).unwrap();
    smt.update(b"testKey2", b"testValue2".to_vec()).unwrap();
    smt.update(b"testKey3", b"testValue3".to_vec()).unwrap();
    smt.update(b"testKey4", b"testValue4".to_vec()).unwrap();

    let proof = smt.prove(b"testKey1").unwrap();
    let mut side_nodes = proof.side_nodes().clone();
    let mut corrupted = vec![0; side_nodes[0].len()];
    corrupted[1..].copy_from_slice(&side_nodes[0][1..]);
    side_nodes[0] = corrupted;
    let bad_proof = smt::SparseMerkleProof::new(
        side_nodes,
        proof.non_membership_leaf_data().clone(),
        proof.sibling_data().clone(),
    );

    let mut dsmst = SparseMerkleTree::import(SimpleStore::new(), SimpleStore::new(), smt.root());
    dsmst
        .add_branch(bad_proof, b"testKey1", b"testValue1")
        .unwrap_err();
}

#[test]
fn test_orphan_removal() {}

// The empty tree: the root is all zeros, reads return nothing, and a proof
// of absence verifies against the zero root.
#[test]
fn test_empty_tree() {
    let smt = new_sparse_merkle_tree();
    assert_eq!(smt.root(), vec![0; 32]);
    assert!(smt.get(b"x").unwrap().is_none());
    let proof = smt.prove(b"x").unwrap();
    assert!(proof.verify(&vec![0; 32], b"x", b""));
    assert!(!proof.verify(&vec![0; 32], b"x", b"y"));
}

// Determinism of the root: two insertion orders that produce the same final
// mapping produce the same root.
#[test]
fn test_determinism_of_root() {
    let mut smt1 = new_sparse_merkle_tree();
    smt1.update(b"a", b"1".to_vec()).unwrap();
    smt1.update(b"b", b"2".to_vec()).unwrap();
    smt1.update(b"c", b"3".to_vec()).unwrap();

    let mut smt2 = new_sparse_merkle_tree();
    smt2.update(b"c", b"3".to_vec()).unwrap();
    smt2.update(b"a", b"old".to_vec()).unwrap();
    smt2.update(b"b", b"2".to_vec()).unwrap();
    smt2.update(b"a", b"1".to_vec()).unwrap();

    assert_eq!(smt1.root(), smt2.root());
}

// Idempotent delete: removing an absent key twice in a row leaves the root
// and both stores unchanged after the second call.
#[test]
fn test_idempotent_delete() {
    let mut smt = new_sparse_merkle_tree();
    smt.update(b"testKey", b"testValue".to_vec()).unwrap();
    smt.update(b"testKey2", b"testValue2".to_vec()).unwrap();

    smt.update(b"testKey", Vec::new()).unwrap();
    let root1 = smt.root();
    let nodes1 = smt.nodes().clone();
    let values1 = smt.values().clone();

    smt.update(b"testKey", Vec::new()).unwrap();
    assert_eq!(smt.root(), root1);
    assert_eq!(smt.nodes(), &nodes1);
    assert_eq!(smt.values(), &values1);
}

// A membership proof never verifies a different value, and a non-membership
// proof never verifies a non-empty value.
#[test]
fn test_non_membership_proof() {
    let mut smt = new_sparse_merkle_tree();
    smt.update(b"testKey1", b"testValue1".to_vec()).unwrap();
    smt.update(b"testKey2", b"testValue2".to_vec()).unwrap();
    smt.update(b"testKey3", b"testValue3".to_vec()).unwrap();
    smt.update(b"testKey4", b"testValue4".to_vec()).unwrap();
    let root = smt.root();

    let proof = smt.prove(b"testKey5").unwrap();
    assert!(proof.verify(&root, b"testKey5", b""));
    assert!(!proof.verify(&root, b"testKey5", b"testValue5"));

    // Corrupting any one sidenode byte makes verification fail.
    for i in 0..proof.side_nodes().len() {
        let mut side_nodes = proof.side_nodes().clone();
        side_nodes[i][0] ^= 1;
        let bad = smt::SparseMerkleProof::new(
            side_nodes,
            proof.non_membership_leaf_data().clone(),
            proof.sibling_data().clone(),
        );
        assert!(!bad.verify(&root, b"testKey5", b""));
    }
}

// Compact proofs verify exactly what the full proof verifies.
#[test]
fn test_compact_verify_agrees() {
    let mut smt = new_sparse_merkle_tree();
    smt.update(b"testKey1", b"testValue1".to_vec()).unwrap();
    smt.update(b"testKey2", b"testValue2".to_vec()).unwrap();
    let root = smt.root();

    for key in [&b"testKey1"[..], b"testKey2", b"testKey3"] {
        let proof = smt.prove(key).unwrap();
        let compact = smt.prove_compact(key).unwrap();
        for value in [&b""[..], b"testValue1", b"testValue2", b"other"] {
            assert_eq!(
                proof.verify(&root, key, value),
                compact.verify(&root, key, value)
            );
        }
    }
}

// A same-value overwrite at an explicit root returns that root and leaves
// both stores untouched, even when the engine's own root points elsewhere.
#[test]
fn test_update_for_root_same_value() {
    let mut smt = new_sparse_merkle_tree();
    smt.update(b"testKey", b"testValue".to_vec()).unwrap();
    smt.update(b"testKey2", b"testValue2".to_vec()).unwrap();
    let r = smt.root();
    let nodes = smt.nodes().clone();
    let values = smt.values().clone();

    smt.set_root(vec![7; 32]);
    let out = smt
        .update_for_root(b"testKey", b"testValue".to_vec(), r.clone())
        .unwrap();
    assert_eq!(out, r);
    assert_eq!(smt.nodes(), &nodes);
    assert_eq!(smt.values(), &values);
}
