use crypto_primitives::error::Error;
use crypto_primitives::implicit::ImplicitCoPath;
use crypto_primitives::tree::MerkleTree;

/// A tree over `num_leaves` distinct 96-byte leaves, and the leaves.
fn make_tree(num_leaves: usize) -> (MerkleTree, Vec<Vec<u8>>) {
    let leaves: Vec<Vec<u8>> = (0..num_leaves)
        .map(|i| (0..96u32).map(|j| ((i as u32) * 131 + j * 17 + 5) as u8 ^ ((i >> 8) as u8)).collect())
        .collect();
    let tree = MerkleTree::new(&leaves).unwrap();
    (tree, leaves)
}

fn clone_proof(p: &ImplicitCoPath) -> ImplicitCoPath {
    ImplicitCoPath {
        tree_height: p.tree_height,
        leaf_copath: p.leaf_copath.clone(),
        inner_copath: p.inner_copath.clone(),
        leaf_indexes: p.leaf_indexes.clone(),
    }
}

#[test]
fn implicit_proof_verifies_single_leaf() {
    let (tree, leaves) = make_tree(8);
    let root = tree.root();

    for i in 0..leaves.len() {
        let proof = tree.generate_implicit_multi_proof(&[i]).unwrap();
        let ok = proof.verify(&root, tree.height(), &[leaves[i].clone()]).unwrap();
        assert!(ok, "single-leaf implicit proof must verify for index {i}");
    }
}

#[test]
fn implicit_proof_verifies_full_batch() {
    let (tree, leaves) = make_tree(16);
    let root = tree.root();

    let all: Vec<usize> = (0..leaves.len()).collect();
    let proof = tree.generate_implicit_multi_proof(&all).unwrap();
    assert!(
        proof.verify(&root, tree.height(), &leaves).unwrap(),
        "full-batch implicit proof must verify"
    );
    // full batch: no inner copath elements needed — every sibling is on-path
    assert_eq!(proof.inner_copath.len(), 0, "full-batch inner copath must be empty");
}

#[test]
fn implicit_proof_matches_coset_proof_node_count() {
    let (tree, _leaves) = make_tree(32);
    for idxs in &[vec![0usize, 1, 2, 3], vec![0, 7, 15, 31], vec![5, 11, 23]] {
        let implicit = tree.generate_implicit_multi_proof(idxs).unwrap();
        let coset = tree.generate_multi_proof(idxs).unwrap();

        let coset_inner_nodes = coset.inner_copath.as_ref().map(|(_, _, _, d)| d.len()).unwrap_or(0);

        assert_eq!(
            implicit.inner_copath.len(),
            coset_inner_nodes,
            "inner node count must match for indexes {:?}",
            idxs
        );
        assert_eq!(
            implicit.leaf_copath.len(),
            coset.leaf_copath.len(),
            "leaf copath length must match for indexes {:?}",
            idxs
        );
    }
}

#[test]
fn implicit_proof_wrong_root_fails() {
    let (tree, leaves) = make_tree(8);
    let mut wrong_root = tree.root();
    wrong_root[31] ^= 1;

    let proof = tree.generate_implicit_multi_proof(&[2usize, 5]).unwrap();
    let opened: Vec<_> = proof.leaf_indexes.iter().map(|&i| leaves[i].clone()).collect();
    let ok = proof.verify(&wrong_root, tree.height(), &opened).unwrap();
    assert!(!ok, "wrong root must fail verification");
}

#[test]
fn implicit_proof_tampered_inner_digest_fails() {
    let (tree, leaves) = make_tree(16);
    let root = tree.root();

    let proof = tree.generate_implicit_multi_proof(&[1usize, 6, 10]).unwrap();
    let mut bad = clone_proof(&proof);
    if let Some(d) = bad.inner_copath.get_mut(0) {
        d[0] ^= 1;
    }
    let opened: Vec<_> = bad.leaf_indexes.iter().map(|&i| leaves[i].clone()).collect();
    let ok = bad.verify(&root, tree.height(), &opened).unwrap();
    assert!(!ok, "tampered inner digest must fail verification");
}

#[test]
fn implicit_proof_extra_digest_fails() {
    let (tree, leaves) = make_tree(16);
    let root = tree.root();

    let proof = tree.generate_implicit_multi_proof(&[3usize, 9]).unwrap();
    let mut bad = clone_proof(&proof);
    bad.inner_copath.push(vec![1u8; 32]); // one spurious digest
    let opened: Vec<_> = bad.leaf_indexes.iter().map(|&i| leaves[i].clone()).collect();
    let ok = bad.verify(&root, tree.height(), &opened).unwrap();
    assert!(!ok, "extra inner digest must fail verification");
}

#[test]
fn implicit_proof_missing_inner_digest_fails() {
    let (tree, leaves) = make_tree(16);
    let root = tree.root();

    let proof = tree.generate_implicit_multi_proof(&[2usize, 5, 9]).unwrap();
    let mut bad = clone_proof(&proof);
    if !bad.inner_copath.is_empty() {
        bad.inner_copath.pop();
    }
    let opened: Vec<_> = bad.leaf_indexes.iter().map(|&i| leaves[i].clone()).collect();
    let ok = bad.verify(&root, tree.height(), &opened).unwrap();
    assert!(!ok, "missing inner digest must fail verification");
}

#[test]
fn implicit_proof_wrong_tree_height_fails() {
    let (tree, leaves) = make_tree(8);
    let root = tree.root();

    let proof = tree.generate_implicit_multi_proof(&[0usize, 3]).unwrap();
    let opened: Vec<_> = proof.leaf_indexes.iter().map(|&i| leaves[i].clone()).collect();
    let ok = proof.verify(&root, tree.height() + 1, &opened).unwrap();
    assert!(!ok, "mismatched tree height must fail verification");
}

#[test]
fn implicit_proof_duplicate_indices_deduped() {
    let (tree, leaves) = make_tree(8);
    let root = tree.root();

    let proof = tree.generate_implicit_multi_proof(&[2usize, 2, 5, 5, 5]).unwrap();
    assert_eq!(proof.leaf_indexes, vec![2, 5], "duplicates must be deduped");

    let opened: Vec<_> = proof.leaf_indexes.iter().map(|&i| leaves[i].clone()).collect();
    assert!(
        proof.verify(&root, tree.height(), &opened).unwrap(),
        "deduped implicit proof must verify"
    );
}

#[test]
fn implicit_proof_errors() {
    let (tree, leaves) = make_tree(8);
    let root = tree.root();
    let empty = tree.generate_implicit_multi_proof(&[]).unwrap();
    assert_eq!(empty.tree_height, 4);
    assert_eq!(empty.verify(&root, 4, &[]), Err(Error::EmptyBatch));
    let low = ImplicitCoPath { tree_height: 1, leaf_copath: vec![], inner_copath: vec![], leaf_indexes: vec![0] };
    assert_eq!(low.verify(&root, 4, &[leaves[0].clone()]), Err(Error::TreeHeightTooSmall));
    assert_eq!(low.check(), Err(Error::TreeHeightTooSmall));
    let proof = tree.generate_implicit_multi_proof(&[1usize, 4]).unwrap();
    assert_eq!(proof.check(), Ok(()));
    assert_eq!(proof.verify(&root, 4, &[leaves[1].clone()]), Err(Error::IncorrectInputLength(2)));
    assert_eq!(tree.generate_implicit_multi_proof(&[11usize]).err(), Some(Error::IncorrectInputLength(8)));
}

#[test]
fn implicit_proof_refuses_heights_beyond_usize_positions() {
    let proof = ImplicitCoPath { tree_height: 100, leaf_copath: vec![], inner_copath: vec![], leaf_indexes: vec![0] };
    assert_eq!(proof.verify(&vec![0u8; 32], 100, &[vec![]]), Ok(false));
}
