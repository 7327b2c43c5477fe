use rand::Rng;
use smt::tree_hasher::digest;
use smt::tree_hasher::digest_leaf;
use smt::tree_hasher::path_of;
use smt::SimpleStore;
use smt::SparseCompactMerkleProof;
use smt::SparseMerkleProof;
use smt::SparseMerkleTree;
use smt::PATH_BITS;
use smt::PATH_SIZE;

fn new_sparse_merkle_tree() -> SparseMerkleTree {
    let (smn, smv) = (SimpleStore::new(), SimpleStore::new());
    SparseMerkleTree::new_with_stores(smn, smv)
}

fn check_compact_equivalence(proof: &SparseMerkleProof) {
    let compact = proof.compact().unwrap();
    let decompact = compact.decompact().unwrap();

    for (idx, node) in proof.side_nodes().iter().enumerate() {
        assert_eq!(node, &decompact.side_nodes()[idx]);
    }

    assert_eq!(
        proof.non_membership_leaf_data(),
        decompact.non_membership_leaf_data()
    );
}

fn randomise_proof(proof: &SparseMerkleProof) -> SparseMerkleProof {
    let mut rng = rand::rng();
    let nodes = (0..proof.side_nodes().len())
        .map(|i| {
            let mut node = vec![0; proof.side_nodes()[i].len()];
            rng.fill_bytes(node.as_mut_slice());
            node
        })
        .collect::<Vec<_>>();

    SparseMerkleProof::new(nodes, proof.non_membership_leaf_data().clone(), None)
}

// Test base case Merkle proof operations.
#[test]
fn test_proofs_basic() {
    let mut smt = new_sparse_merkle_tree();

    // Generate and verify a proof on an empty key.
    let proof = smt.prove(b"testKey3").unwrap();
    check_compact_equivalence(&proof);

    assert!(proof.verify(&vec![0; 32], b"testKey3", b""));

    assert!(!proof.verify(&[], b"testKey3", b"badValue"));

    // Add a key, generate and verify a Merkle proof.
    smt.update(b"testKey", b"testValue".to_vec()).unwrap();
    let root = smt.root();
    let proof = smt.prove(b"testKey").unwrap();
    check_compact_equivalence(&proof);

    assert!(proof.verify(&root, b"testKey", b"testValue"));

    assert!(!proof.verify(&root, b"testKey", b"badValue"));

    // Add a key, generate and verify both Merkle proofs.
    smt.update(b"testKey2", b"testValue".to_vec()).unwrap();
    let root = smt.root();
    let proof = smt.prove(b"testKey2").unwrap();
    check_compact_equivalence(&proof);
    assert!(proof.verify(&root, b"testKey2", b"testValue"));
    assert!(!proof.verify(&root, b"testKey2", b"badValue"));

    assert!(!randomise_proof(&proof).verify(&root, b"testKey2", b"testValue"));

    // Try proving a default value for a non-default leaf.
    let path = path_of(b"testKey2");
    let value_hash = digest(b"testValue");
    let (_, leaf_data) = digest_leaf(&path, &value_hash);
    let proof = SparseMerkleProof::new(proof.side_nodes().clone(), Some(leaf_data), None);

    assert!(!proof.verify(&root, b"testKey2", b""));

    // Generate and verify a proof on an empty key.
    let proof = smt.prove(b"testKey3").unwrap();
    check_compact_equivalence(&proof);
    assert!(proof.verify(&root, b"testKey3", b""));
    assert!(!proof.verify(&root, b"testKey3", b"badValue"));
    assert!(!randomise_proof(&proof).verify(&root, b"testKey3", b""));
}

// Test sanity check cases for non-compact proofs.
#[test]
fn test_proofs_sanity_check() {
    let mut smt = new_sparse_merkle_tree();

    smt.update(b"testKey1", b"testValue1".to_vec()).unwrap();
    smt.update(b"testKey2", b"testValue2".to_vec()).unwrap();
    smt.update(b"testKey3", b"testValue3".to_vec()).unwrap();

    smt.update(b"testKey4", b"testValue4".to_vec()).unwrap();
    let root = smt.root();

    // Case: invalid number of sidenodes.
    let proof = smt.prove(b"testKey1").unwrap();
    let side_nodes = (0..PATH_SIZE * 8 + 1)
        .map(|_| proof.side_nodes()[0].clone())
        .collect();
    let proof = SparseMerkleProof::new(
        side_nodes,
        proof.non_membership_leaf_data().clone(),
        proof.sibling_data().clone(),
    );
    assert!(!proof.sanity_check());
    assert!(!proof.verify(&root, b"testKey1", b"testValue1"));
    assert!(proof.compact().is_err());

    // Case: incorrect size for NonMembershipLeafData.
    let proof = smt.prove(b"testKey1").unwrap();
    let proof = SparseMerkleProof::new(
        proof.side_nodes().clone(),
        Some(vec![0; 1]),
        proof.sibling_data().clone(),
    );
    assert!(!proof.sanity_check());
    assert!(!proof.verify(&root, b"testKey1", b"testValue1"));
    assert!(proof.compact().is_err());

    // Case: unexpected sidenode size.
    let proof = smt.prove(b"testKey1").unwrap();
    let mut side_nodes = proof.side_nodes().clone();
    side_nodes[0] = vec![0; 1];
    let proof = SparseMerkleProof::new(
        side_nodes,
        proof.non_membership_leaf_data().clone(),
        proof.sibling_data().clone(),
    );
    assert!(!proof.sanity_check());
    assert!(!proof.verify(&root, b"testKey1", b"testValue1"));
    assert!(proof.compact().is_err());

    // Case: incorrect non-nil sibling data.
    let proof = smt.prove(b"testKey1").unwrap();
    let bad_sibling = digest(&proof.sibling_data().clone().unwrap_or_default());
    let proof = SparseMerkleProof::new(
        proof.side_nodes().clone(),
        proof.non_membership_leaf_data().clone(),
        Some(bad_sibling),
    );
    assert!(!proof.sanity_check());
    assert!(!proof.verify(&root, b"testKey1", b"testValue1"));
    assert!(proof.compact().is_err());
}

// Test sanity check cases for compact proofs.
#[test]
fn test_compact_proofs_sanity_check() {
    let mut smt = new_sparse_merkle_tree();

    smt.update(b"testKey1", b"testValue1".to_vec()).unwrap();
    smt.update(b"testKey2", b"testValue2".to_vec()).unwrap();
    smt.update(b"testKey3", b"testValue3".to_vec()).unwrap();

    smt.update(b"testKey4", b"testValue4".to_vec()).unwrap();
    let root = smt.root();

    // Case (compact proofs): NumSideNodes out of range.
    let proof = smt.prove_compact(b"testKey1").unwrap();
    let bad = SparseCompactMerkleProof::new(
        proof.side_nodes().clone(),
        proof.non_membership_leaf_data().clone(),
        proof.bitmask().clone(),
        0,
        proof.sibling_data().clone(),
    );
    assert!(!bad.sanity_check());

    let bad = SparseCompactMerkleProof::new(
        proof.side_nodes().clone(),
        proof.non_membership_leaf_data().clone(),
        proof.bitmask().clone(),
        PATH_BITS + 1,
        proof.sibling_data().clone(),
    );
    assert!(!bad.sanity_check());
    assert!(!bad.verify(&root, b"testKey1", b"testValue1"));

    // Case (compact proofs): unexpected bit mask length.
    let proof = smt.prove_compact(b"testKey1").unwrap();
    let bad = SparseCompactMerkleProof::new(
        proof.side_nodes().clone(),
        proof.non_membership_leaf_data().clone(),
        proof.bitmask().clone(),
        10,
        proof.sibling_data().clone(),
    );
    assert!(!bad.verify(&root, b"testKey1", b"testValue1"));

    // Case (compact proofs): unexpected number of sidenodes for number of side nodes.
    let proof = smt.prove_compact(b"testKey1").unwrap();
    let mut side_nodes = proof.side_nodes().clone();
    side_nodes.extend(side_nodes.clone());
    let bad = SparseCompactMerkleProof::new(
        side_nodes,
        proof.non_membership_leaf_data().clone(),
        proof.bitmask().clone(),
        proof.original_side_nodes_len(),
        proof.sibling_data().clone(),
    );
    assert!(!bad.sanity_check());
    assert!(!bad.verify(&root, b"testKey1", b"testValue1"));
}

// A proof against one root never verifies against another root.
#[test]
fn test_proof_wrong_root() {
    let mut smt = new_sparse_merkle_tree();
    smt.update(b"testKey", b"testValue".to_vec()).unwrap();
    let root1 = smt.root();
    let proof = smt.prove(b"testKey").unwrap();
    smt.update(b"testKey2", b"testValue2".to_vec()).unwrap();
    let root2 = smt.root();
    assert_ne!(root1, root2);
    assert!(proof.verify(&root1, b"testKey", b"testValue"));
    assert!(!proof.verify(&root2, b"testKey", b"testValue"));
}

// The proof bound: a proof never carries more sidenodes than the tree has
// bits in a path.
#[test]
fn test_proof_bound() {
    let mut smt = new_sparse_merkle_tree();
    for i in 0..20u8 {
        smt.update(&[i], vec![i + 1]).unwrap();
    }
    for i in 0..20u8 {
        let proof = smt.prove(&[i]).unwrap();
        assert!(proof.side_nodes().len() <= PATH_BITS);
    }
}
