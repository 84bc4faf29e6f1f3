use crypto_primitives::copath::CoPath;
use crypto_primitives::encoding::decode_delta;
use crypto_primitives::error::Error;
use crypto_primitives::tree::MerkleTree;

/// Distinct 32-byte leaves, deterministic in `seed`.
fn make_leaves(n: usize, seed: u8) -> Vec<Vec<u8>> {
    (0..n)
        .map(|i| {
            (0..32u32)
                .map(|j| (i as u32).wrapping_mul(31).wrapping_add(j * 7).wrapping_add(seed as u32) as u8 ^ (i >> 8) as u8)
                .collect()
        })
        .collect()
}

fn merkle_tree_test(leaves: &[Vec<u8>], update_query: &[(usize, Vec<u8>)]) {
    let mut leaves = leaves.to_vec();
    let mut tree = MerkleTree::new(&leaves).unwrap();
    let mut root = tree.root();

    // single-leaf proofs
    for (i, leaf) in leaves.iter().enumerate() {
        let proof = tree.generate_proof(i).unwrap();
        assert!(proof.verify(&root, leaf.as_slice()).unwrap());
    }

    // multi-proof
    let all: Vec<usize> = (0..leaves.len()).collect();
    let mut multi_proof = tree.generate_multi_proof(&all).unwrap();
    assert!(multi_proof.verify(&root, tree.height(), &leaves).unwrap());

    // wrong root must fail without panicking
    {
        let mut wrong_root = root.clone();
        wrong_root[0] ^= 1;
        let proof = tree.generate_proof(0).unwrap();
        assert!(!proof.verify(&wrong_root, leaves[0].as_slice()).unwrap());
        assert!(!multi_proof.verify(&wrong_root, tree.height(), &leaves).unwrap());
    }

    // updates
    for (i, v) in update_query {
        tree.update(*i, v).unwrap();
        leaves[*i] = v.clone();
    }
    root = tree.root();
    for (i, leaf) in leaves.iter().enumerate() {
        let proof = tree.generate_proof(i).unwrap();
        assert!(proof.verify(&root, leaf.as_slice()).unwrap());
    }
    multi_proof = tree.generate_multi_proof(&all).unwrap();
    assert!(multi_proof.verify(&root, tree.height(), &leaves).unwrap());
}

#[test]
fn mod_good_root_test() {
    let leaves = make_leaves(2, 1);
    merkle_tree_test(&leaves, &[(0, make_leaves(1, 90)[0].clone()), (1, make_leaves(1, 91)[0].clone())]);

    let leaves = make_leaves(4, 2);
    merkle_tree_test(&leaves, &[(3, make_leaves(1, 92)[0].clone())]);

    let leaves = make_leaves(128, 3);
    merkle_tree_test(
        &leaves,
        &[
            (2, make_leaves(1, 93)[0].clone()),
            (3, make_leaves(1, 94)[0].clone()),
            (5, make_leaves(1, 95)[0].clone()),
            (111, make_leaves(1, 96)[0].clone()),
            (127, make_leaves(1, 97)[0].clone()),
        ],
    );
}

#[test]
fn multi_proof_dissection_test() {
    let leaves = make_leaves(8, 4);
    assert_eq!(leaves.len(), 8);
    let tree = MerkleTree::new(&leaves).unwrap();

    let mut proofs = Vec::with_capacity(leaves.len());
    for (i, _) in leaves.iter().enumerate() {
        proofs.push(tree.generate_proof(i).unwrap());
    }

    let all: Vec<usize> = (0..leaves.len()).collect();
    let multi_proof = tree.generate_multi_proof(&all).unwrap();
    assert!(multi_proof.verify(&tree.root(), tree.height(), &leaves).unwrap());
}

#[test]
fn multiproof_empty_batch_verifies() {
    let leaves = make_leaves(4, 5);
    let tree = MerkleTree::new(&leaves).unwrap();
    let root = tree.root();

    let proof = tree.generate_multi_proof(&[]).unwrap();
    assert!(
        matches!(proof.verify(&root, tree.height(), &[]), Err(Error::EmptyBatch)),
        "empty batch proof must be refused, not accepted vacuously"
    );
    assert_eq!(proof.leaf_indexes.len(), 0);
}

#[test]
fn multiproof_duplicate_indices_deduped() {
    let leaves = make_leaves(8, 6);
    let tree = MerkleTree::new(&leaves).unwrap();
    let root = tree.root();

    let indexes = vec![3usize, 1, 3, 1, 5];
    let proof = tree.generate_multi_proof(&indexes).unwrap();
    assert_eq!(proof.leaf_indexes, vec![1, 3, 5], "indexes should be sorted & deduped");

    let opened: Vec<_> = proof.leaf_indexes.iter().map(|&i| leaves[i].clone()).collect();
    assert!(
        proof.verify(&root, tree.height(), &opened).unwrap(),
        "proof with duplicate input indices should verify after deduplication"
    );
}

#[test]
fn multiproof_wrong_leaf_copath_fails() {
    let leaves = make_leaves(8, 7);
    let tree = MerkleTree::new(&leaves).unwrap();
    let root = tree.root();

    let proof = tree.generate_multi_proof(&[1usize, 6]).unwrap();
    let mut bad = CoPath {
        tree_height: proof.tree_height,
        leaf_copath: proof.leaf_copath.clone(),
        inner_copath: proof.inner_copath.clone(),
        leaf_indexes: proof.leaf_indexes.clone(),
    };
    if let Some(first) = bad.leaf_copath.get_mut(0) {
        first[0] ^= 1; // flip one sibling digest
    }
    let opened: Vec<_> = bad.leaf_indexes.iter().map(|&i| leaves[i].clone()).collect();
    let ok = bad.verify(&root, tree.height(), &opened).unwrap();
    assert!(!ok, "tampered leaf_copath digest must fail verification");
}

#[test]
fn multiproof_missing_inner_entry_fails() {
    let leaves = make_leaves(16, 8);
    let tree = MerkleTree::new(&leaves).unwrap();
    let root = tree.root();

    let proof = tree.generate_multi_proof(&[2usize, 5, 9]).unwrap();
    let mut bad = CoPath {
        tree_height: proof.tree_height,
        leaf_copath: proof.leaf_copath.clone(),
        inner_copath: proof.inner_copath.clone(),
        leaf_indexes: proof.leaf_indexes.clone(),
    };
    if let Some((_, _, _, digests)) = bad.inner_copath.as_mut() {
        if !digests.is_empty() {
            digests.pop(); // drop one inner sibling digest
        }
    }
    let opened: Vec<_> = bad.leaf_indexes.iter().map(|&i| leaves[i].clone()).collect();
    let ok = bad.verify(&root, tree.height(), &opened).unwrap();
    assert!(!ok, "missing inner copath entry must invalidate the proof");
}

#[test]
fn multiproof_open_order_robustness() {
    let leaves = make_leaves(8, 9);
    let tree = MerkleTree::new(&leaves).unwrap();
    let root = tree.root();

    let indexes = vec![4usize, 1, 6];
    let proof = tree.generate_multi_proof(&indexes).unwrap();

    let ordered_leaves: Vec<_> = proof.leaf_indexes.iter().map(|&i| leaves[i].clone()).collect();
    assert!(
        proof.verify(&root, tree.height(), &ordered_leaves).unwrap(),
        "proof should verify when leaves follow proof.leaf_indexes order"
    );

    let shuffled_leaves: Vec<_> = indexes.iter().map(|&i| leaves[i].clone()).collect();
    let ok = proof.verify(&root, tree.height(), &shuffled_leaves).unwrap();
    assert!(!ok, "mismatched leaf ordering must fail verification");
}

#[test]
fn packed_deltas_save_with_large_index_gaps() {
    let d: usize = 14;
    let depth_inner = d - 2;
    let depth_leaf = d - 1;

    let mid = 1usize << (d - 2);
    let end = (1usize << (d - 1)) - 1;

    let entries: Vec<(usize, usize, Vec<u8>)> = vec![
        (depth_inner, 0, vec![10u8]),
        (depth_leaf, 0, vec![20u8]),
        (depth_leaf, mid, vec![30u8]),
        (depth_leaf, end, vec![40u8]),
    ];

    let packed = CoPath::pack_inner_copath(&entries).expect("packs");
    let (_start_depth, _start_index, deltas, _digests) = packed;

    // The first step is from (d-2,0) -> (d-1,0): depth delta is +1, index delta is 0.
    let mut cursor = 0usize;
    let depth_delta = decode_delta(&deltas, &mut cursor).expect("depth delta decodes");
    let index_delta = decode_delta(&deltas, &mut cursor).expect("index delta decodes");
    assert_eq!(depth_delta, 1);
    assert_eq!(index_delta, 0);

    let naive_coord_bytes = entries.len() * 2 * core::mem::size_of::<usize>();
    let packed_coord_bytes = 2 * core::mem::size_of::<usize>() + deltas.len();
    assert!(
        packed_coord_bytes < naive_coord_bytes,
        "expected packed coordinates to be smaller (packed={}, naive={})",
        packed_coord_bytes,
        naive_coord_bytes
    );
}

#[test]
fn multiproof_coset_layout() {
    // Opening leaves 6 and 8 of a height-5 tree: the on-path positions are {6, 8}, {3, 4},
    // {1, 2}, {0, 1}, {0}; the leaf copath is {7, 9}; the inner copath is {(2,0), (2,3)} and
    // {(3,2), (3,5)} (depth 1 needs nothing), packed from (2,0) with the deltas (0,+3),
    // (+1,-1), (0,+3).
    let leaves = make_leaves(16, 10);
    let tree = MerkleTree::new(&leaves).unwrap();
    let proof = tree.generate_multi_proof(&[6usize, 8]).unwrap();
    assert_eq!(proof.tree_height, 5);
    assert_eq!(proof.leaf_indexes, vec![6, 8]);
    assert_eq!(proof.leaf_copath, vec![leaves_digest(&leaves[7]), leaves_digest(&leaves[9])]);
    let (start_depth, start_index, deltas, digests) = proof.inner_copath.clone().unwrap();
    assert_eq!((start_depth, start_index), (2, 0));
    assert_eq!(digests.len(), 4);
    let mut cursor = 0usize;
    let mut steps = Vec::new();
    while cursor < deltas.len() {
        let dd = decode_delta(&deltas, &mut cursor).unwrap();
        let di = decode_delta(&deltas, &mut cursor).unwrap();
        steps.push((dd, di));
    }
    assert_eq!(steps, vec![(0, 3), (1, -1), (0, 3)]);
    let opened = vec![leaves[6].clone(), leaves[8].clone()];
    assert!(proof.verify(&tree.root(), 5, &opened).unwrap());
}

fn leaves_digest(leaf: &[u8]) -> Vec<u8> {
    crypto_primitives::crh::MerkleByteDigest::evaluate(leaf)
}

#[test]
fn multiproof_errors_and_early_answers() {
    let leaves = make_leaves(8, 11);
    let tree = MerkleTree::new(&leaves).unwrap();
    let root = tree.root();
    let proof = tree.generate_multi_proof(&[2usize, 5]).unwrap();
    let opened: Vec<_> = proof.leaf_indexes.iter().map(|&i| leaves[i].clone()).collect();
    // wrong expected height: Ok(false)
    assert_eq!(proof.verify(&root, 5, &opened), Ok(false));
    // wrong number of leaves: the error names the number of indexes
    assert_eq!(proof.verify(&root, 4, &opened[..1]), Err(Error::IncorrectInputLength(2)));
    // a height below two is an error
    let bad = CoPath { tree_height: 1, leaf_copath: vec![], inner_copath: None, leaf_indexes: vec![0] };
    assert_eq!(bad.verify(&root, 4, &[vec![]]), Err(Error::TreeHeightTooSmall));
    assert_eq!(bad.check(), Err(Error::TreeHeightTooSmall));
    assert_eq!(proof.check(), Ok(()));
    // a leaf index beyond the tree cannot be proven
    assert_eq!(tree.generate_multi_proof(&[9usize]).err(), Some(Error::IncorrectInputLength(8)));
    // an index pair beyond the tree fails on the inner copath
    assert_eq!(tree.generate_multi_proof(&[8usize, 9]).err(), Some(Error::IncorrectInputLength(7)));
}

#[test]
fn multiproof_position_list() {
    let leaves = make_leaves(8, 12);
    let tree = MerkleTree::new(&leaves).unwrap();
    let proof = tree.generate_multi_proof(&[5usize, 2]).unwrap();
    let positions = proof.position_list();
    assert_eq!(positions, vec![vec![false, true, false], vec![true, false, true]]);
}

#[test]
fn multiproof_two_sibling_leaves_layout() {
    // Leaves 2 and 3 of a height-4 tree: no leaf copath; inner copath (1,1) then (2,0).
    let leaves = make_leaves(8, 13);
    let tree = MerkleTree::new(&leaves).unwrap();
    let proof = tree.generate_multi_proof(&[3usize, 2]).unwrap();
    assert_eq!(proof.leaf_copath.len(), 0);
    let (start_depth, start_index, deltas, digests) = proof.inner_copath.clone().unwrap();
    assert_eq!((start_depth, start_index), (1, 1));
    let mut cursor = 0usize;
    assert_eq!(decode_delta(&deltas, &mut cursor), Some(1));
    assert_eq!(decode_delta(&deltas, &mut cursor), Some(-1));
    assert_eq!(cursor, deltas.len());
    assert_eq!(digests.len(), 2);
    let opened = vec![leaves[2].clone(), leaves[3].clone()];
    assert!(proof.verify(&tree.root(), 4, &opened).unwrap());
}

#[test]
fn path_refuses_leaf_index_beyond_tree() {
    // In a two-leaf tree, leaf 1's path relabelled with index 3 must not verify.
    let leaves = make_leaves(2, 14);
    let tree = MerkleTree::new(&leaves).unwrap();
    let root = tree.root();
    let mut proof = tree.generate_proof(1).unwrap();
    assert_eq!(proof.verify(&root, leaves[1].as_slice()), Ok(true));
    proof.leaf_index = 3;
    assert_eq!(proof.verify(&root, leaves[1].as_slice()), Ok(false));
    proof.leaf_index = usize::MAX;
    assert_eq!(proof.verify(&root, leaves[1].as_slice()), Ok(false));
}

#[test]
fn multiproof_refuses_out_of_range_and_duplicate_indexes() {
    // Height 3: leaves 0..4. The true proof of leaf 0 with an extra index 4 must not verify.
    let leaves = make_leaves(4, 15);
    let tree = MerkleTree::new(&leaves).unwrap();
    let root = tree.root();
    let proof = tree.generate_multi_proof(&[0usize]).unwrap();
    assert_eq!(proof.verify(&root, 3, &[leaves[0].clone()]), Ok(true));
    let beyond = CoPath {
        tree_height: proof.tree_height,
        leaf_copath: proof.leaf_copath.clone(),
        inner_copath: proof.inner_copath.clone(),
        leaf_indexes: vec![0, 4],
    };
    assert_eq!(beyond.verify(&root, 3, &[leaves[0].clone(), leaves[0].clone()]), Ok(false));
    let repeated = CoPath {
        tree_height: proof.tree_height,
        leaf_copath: proof.leaf_copath.clone(),
        inner_copath: proof.inner_copath.clone(),
        leaf_indexes: vec![0, 0],
    };
    assert_eq!(repeated.verify(&root, 3, &[leaves[0].clone(), leaves[0].clone()]), Ok(false));
    // these answers come before the leaves are counted
    assert_eq!(beyond.verify(&root, 3, &[]), Ok(false));
}

#[test]
fn multiproof_refuses_heights_beyond_usize_positions() {
    let proof = CoPath { tree_height: 200, leaf_copath: vec![], inner_copath: None, leaf_indexes: vec![0] };
    assert_eq!(proof.verify(&vec![0u8; 32], 200, &[vec![]]), Ok(false));
    assert_eq!(proof.verify(&vec![0u8; 32], 199, &[vec![]]), Ok(false));
}
