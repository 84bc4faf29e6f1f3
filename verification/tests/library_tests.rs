use crypto_primitives::converter::{ByteDigestConverter, IdentityDigestConverter};
use crypto_primitives::crh::{
    digest_pair, inner_tag, leaf_pair_tag, ByteDigest, MerkleByteDigest, Sha256,
};
use crypto_primitives::error::Error;
use crypto_primitives::index::{
    compute_on_path, contains_sorted, convert_index_to_last_level, is_left_child, is_root,
    left_child, level_index, log2, parent, right_child, select_left_right_child, sibling,
    sorted_unique, tree_height,
};
use crypto_primitives::path::{index_bits, Path};
use crypto_primitives::tree::MerkleTree;
use crypto_primitives::v2_bench::MultiPathV2Bench;
use crypto_primitives::copath::CoPath;
use crypto_primitives::encoding::encode_delta;

fn hex(bytes: &[u8]) -> String {
    bytes.iter().map(|b| format!("{:02x}", b)).collect()
}

fn make_leaves(n: usize, seed: u8) -> Vec<Vec<u8>> {
    (0..n).map(|i| vec![seed, (i & 0xff) as u8, (i >> 8) as u8, 7]).collect()
}

#[test]
fn sha256_leaf_hash_known_answer() {
    assert_eq!(
        hex(&MerkleByteDigest::evaluate(b"abc")),
        "ba7816bf8f01cfea414140de5dae2223b00361a396177a9cb410ff61f20015ad"
    );
    assert_eq!(
        hex(&Sha256::evaluate(b"")),
        "e3b0c44298fc1c149afbf4c8996fb92427ae41e4649b934ca495991b7852b855"
    );
}

#[test]
fn digest_pair_hashes_the_concatenation() {
    assert_eq!(digest_pair(b"a", b"b", b"c"), MerkleByteDigest::evaluate(b"abc"));
    assert_eq!(leaf_pair_tag(), b"ark-mt:v1:leaf-pair".to_vec());
    assert_eq!(inner_tag(), b"ark-mt:v1:inner".to_vec());
    let l = vec![1u8, 2, 3];
    let r = vec![4u8, 5];
    let mut tagged = b"ark-mt:v1:inner".to_vec();
    tagged.extend_from_slice(&l);
    tagged.extend_from_slice(&r);
    assert_eq!(MerkleByteDigest::compress(&l, &r), MerkleByteDigest::evaluate(&tagged));
}

#[test]
fn two_to_one_hashes_are_domain_separated() {
    let l = vec![9u8; 32];
    let r = vec![3u8; 32];
    assert_ne!(MerkleByteDigest::evaluate_pair(&l, &r), MerkleByteDigest::compress(&l, &r));
    assert_ne!(Sha256::evaluate_pair(&l, &r), Sha256::compress(&l, &r));
    // both schemes compute the same hashes
    assert_eq!(Sha256::evaluate_pair(&l, &r), MerkleByteDigest::evaluate_pair(&l, &r));
    assert_eq!(Sha256::compress(&l, &r), MerkleByteDigest::compress(&l, &r));
    assert_eq!(Sha256::evaluate(&l), MerkleByteDigest::evaluate(&l));
}

#[test]
fn byte_converter_serializes_length_then_bytes() {
    assert_eq!(
        ByteDigestConverter::convert(vec![1u8, 2, 3]),
        Ok(vec![3u8, 0, 0, 0, 0, 0, 0, 0, 1, 2, 3])
    );
    assert_eq!(ByteDigestConverter::convert(vec![]), Ok(vec![0u8; 8]));
    assert_eq!(IdentityDigestConverter::convert(vec![5u8]), Ok(vec![5u8]));
}

#[test]
fn byte_digest_basics() {
    let d: ByteDigest<4> = ByteDigest::default();
    assert_eq!(d.0, [0u8; 4]);
    let e = ByteDigest::from([1u8, 2, 3, 4]);
    assert_eq!(e.as_ref(), &[1u8, 2, 3, 4]);
    let mut dest = vec![9u8];
    e.to_sponge_bytes(&mut dest);
    assert_eq!(dest, vec![9u8, 1, 2, 3, 4]);
}

#[test]
fn index_arithmetic() {
    assert_eq!(level_index(0, 0), 0);
    assert_eq!(level_index(3, 2), 9);
    assert!(is_root(0));
    assert!(!is_root(3));
    assert_eq!(left_child(4), 9);
    assert_eq!(right_child(4), 10);
    assert!(is_left_child(3));
    assert!(!is_left_child(4));
    assert_eq!(sibling(0), None);
    assert_eq!(sibling(3), Some(4));
    assert_eq!(sibling(4), Some(3));
    assert_eq!(parent(0), None);
    assert_eq!(parent(9), Some(4));
    assert_eq!(parent(10), Some(4));
    assert_eq!(convert_index_to_last_level(3, 4), 10);
    assert_eq!(tree_height(1), 1);
    assert_eq!(tree_height(2), 2);
    assert_eq!(tree_height(8), 4);
    assert_eq!(tree_height(9), 5);
    assert_eq!(log2(0), 0);
    assert_eq!(log2(1), 0);
    assert_eq!(log2(5), 3);
    assert_eq!(log2(8), 3);
    let a = vec![1u8];
    let b = vec![2u8];
    assert_eq!(select_left_right_child(4, &a, &b), (a.clone(), b.clone()));
    assert_eq!(select_left_right_child(5, &a, &b), (b.clone(), a.clone()));
    assert_eq!(index_bits(6, 4), vec![false, true, true, false]);
}

#[test]
fn on_path_sets() {
    assert_eq!(sorted_unique(&[3, 1, 3, 2, 1]), vec![1, 2, 3]);
    assert!(contains_sorted(&vec![1, 4, 9], 4));
    assert!(!contains_sorted(&vec![1, 4, 9], 5));
    let on_path = compute_on_path(3, &vec![2, 5]);
    assert_eq!(on_path, vec![vec![0], vec![0, 1], vec![1, 2], vec![2, 5]]);
}

#[test]
fn single_path_completeness_and_position_list() {
    let leaves = make_leaves(16, 1);
    let tree = MerkleTree::new(&leaves).unwrap();
    let root = tree.root();
    for i in 0..16 {
        let proof = tree.generate_proof(i).unwrap();
        assert_eq!(proof.leaf_index, i);
        assert_eq!(proof.auth_path.len(), 3);
        assert_eq!(proof.leaf_sibling_hash, tree.get_leaf_sibling_hash(i));
        assert_eq!(proof.leaf_sibling_hash, MerkleByteDigest::evaluate(&leaves[i ^ 1]));
        assert!(proof.verify(&root, &leaves[i]).unwrap());
        assert!(!proof.verify(&root, &leaves[i ^ 1]).unwrap());
    }
    let proof = tree.generate_proof(13).unwrap();
    assert_eq!(proof.position_list(), vec![true, true, false, true]);
    let moved = Path {
        leaf_sibling_hash: proof.leaf_sibling_hash.clone(),
        auth_path: proof.auth_path.clone(),
        leaf_index: 12,
    };
    assert!(!moved.verify(&root, &leaves[13]).unwrap());
}

#[test]
fn tree_shape_and_root_formula() {
    let leaves = make_leaves(2, 2);
    let tree = MerkleTree::new(&leaves).unwrap();
    assert_eq!(tree.height(), 2);
    let l = ByteDigestConverter::convert(MerkleByteDigest::evaluate(&leaves[0])).unwrap();
    let r = ByteDigestConverter::convert(MerkleByteDigest::evaluate(&leaves[1])).unwrap();
    assert_eq!(tree.root(), MerkleByteDigest::evaluate_pair(&l, &r));

    let leaves = make_leaves(4, 3);
    let tree = MerkleTree::new(&leaves).unwrap();
    let conv = |x: &Vec<u8>| ByteDigestConverter::convert(MerkleByteDigest::evaluate(x)).unwrap();
    let n0 = MerkleByteDigest::evaluate_pair(&conv(&leaves[0]), &conv(&leaves[1]));
    let n1 = MerkleByteDigest::evaluate_pair(&conv(&leaves[2]), &conv(&leaves[3]));
    assert_eq!(tree.root(), MerkleByteDigest::compress(&n0, &n1));
}

#[test]
fn blank_tree_hashes_empty_leaf_digests() {
    let blank = MerkleTree::blank(3).unwrap();
    assert_eq!(blank.height(), 3);
    let e = ByteDigestConverter::convert(Vec::new()).unwrap();
    let bottom = MerkleByteDigest::evaluate_pair(&e, &e);
    assert_eq!(blank.root(), MerkleByteDigest::compress(&bottom, &bottom));
    let built = MerkleTree::new_with_leaf_digest(vec![Vec::new(); 4]).unwrap();
    assert_eq!(built.root(), blank.root());
}

#[test]
fn update_matches_rebuild() {
    let mut leaves = make_leaves(8, 4);
    let mut tree = MerkleTree::new(&leaves).unwrap();
    let new_leaf = vec![42u8, 42];
    tree.update(5, &new_leaf).unwrap();
    leaves[5] = new_leaf.clone();
    let rebuilt = MerkleTree::new(&leaves).unwrap();
    assert_eq!(tree.root(), rebuilt.root());
    let proof = tree.generate_proof(5).unwrap();
    assert!(proof.verify(&tree.root(), &new_leaf).unwrap());
}

#[test]
fn check_update_accepts_only_the_right_root() {
    let leaves = make_leaves(8, 5);
    let mut tree = MerkleTree::new(&leaves).unwrap();
    let before = tree.root();
    let new_leaf = vec![1u8, 2, 3];
    let mut updated = leaves.clone();
    updated[2] = new_leaf.clone();
    let expected = MerkleTree::new(&updated).unwrap().root();

    let mut wrong = expected.clone();
    wrong[0] ^= 0xff;
    assert_eq!(tree.check_update(2, &new_leaf, &wrong), Ok(false));
    assert_eq!(tree.root(), before, "a refused update leaves the tree unchanged");

    assert_eq!(tree.check_update(2, &new_leaf, &expected), Ok(true));
    assert_eq!(tree.root(), expected);
}

#[test]
fn v2_bench_proofs() {
    let leaves = make_leaves(16, 6);
    let tree = MerkleTree::new(&leaves).unwrap();
    let root = tree.root();
    let proof = tree.generate_multi_proof_v2_bench(&[9usize, 3, 9, 14]).unwrap();
    assert_eq!(proof.leaf_indexes, vec![3, 9, 14]);
    let coset = tree.generate_multi_proof(&[3usize, 9, 14]).unwrap();
    assert_eq!(proof.leaf_copath, coset.leaf_copath);
    assert_eq!(proof.inner_copath, coset.inner_copath);
    let opened: Vec<_> = proof.leaf_indexes.iter().map(|&i| leaves[i].clone()).collect();
    assert_eq!(proof.verify(&root, &opened), Ok(true));
    let mut wrong_root = root.clone();
    wrong_root[5] ^= 4;
    assert_eq!(proof.verify(&wrong_root, &opened), Ok(false));
    assert_eq!(proof.verify(&root, &opened[..2]), Err(Error::IncorrectInputLength(3)));

    let low = MultiPathV2Bench { tree_height: 1, leaf_indexes: vec![0], leaf_copath: vec![], inner_copath: None };
    assert_eq!(low.verify(&root, &[leaves[0].clone()]), Ok(false));
    let empty = tree.generate_multi_proof_v2_bench(&[]).unwrap();
    assert_eq!(empty.verify(&wrong_root, &[]), Ok(true));
    let empty_tall = MultiPathV2Bench { tree_height: 300, leaf_indexes: vec![], leaf_copath: vec![], inner_copath: None };
    assert_eq!(empty_tall.verify(&wrong_root, &[]), Ok(true));
    let tall = MultiPathV2Bench { tree_height: 300, leaf_indexes: vec![0], leaf_copath: vec![], inner_copath: None };
    assert_eq!(tall.verify(&root, &[leaves[0].clone()]), Ok(false));
}

#[test]
fn batch_proofs_of_every_subset_of_a_small_tree_verify() {
    let leaves = make_leaves(8, 7);
    let tree = MerkleTree::new(&leaves).unwrap();
    let root = tree.root();
    for mask in 1u32..256 {
        let idx: Vec<usize> = (0..8).filter(|i| mask & (1 << i) != 0).collect();
        let opened: Vec<_> = idx.iter().map(|&i| leaves[i].clone()).collect();
        let coset = tree.generate_multi_proof(&idx).unwrap();
        assert_eq!(coset.verify(&root, 4, &opened), Ok(true));
        let implicit = tree.generate_implicit_multi_proof(&idx).unwrap();
        assert_eq!(implicit.verify(&root, 4, &opened), Ok(true));
        let coset_digests = coset.inner_copath.as_ref().map(|p| p.3.clone()).unwrap_or_default();
        assert_eq!(implicit.inner_copath, coset_digests);
    }
}

#[test]
fn full_batch_needs_no_copath() {
    let leaves = make_leaves(32, 8);
    let tree = MerkleTree::new(&leaves).unwrap();
    let all: Vec<usize> = (0..32).rev().collect();
    let proof = tree.generate_multi_proof(&all).unwrap();
    assert!(proof.leaf_copath.is_empty());
    assert!(proof.inner_copath.is_none());
    assert_eq!(proof.verify(&tree.root(), 6, &leaves), Ok(true));
}

#[test]
fn bench_layout_decodes_without_the_hardened_checks() {
    // Leaves 2 and 3 of a height-4 tree: the inner copath is (1,1,C) then (2,0,D).
    let leaves = make_leaves(8, 16);
    let tree = MerkleTree::new(&leaves).unwrap();
    let root = tree.root();
    let bench = tree.generate_multi_proof_v2_bench(&[2usize, 3]).unwrap();
    let (sd, si, deltas, digests) = bench.inner_copath.clone().unwrap();
    assert_eq!((sd, si), (1, 1));
    // Repeat the first entry: a zero delta pair, then the original deltas.
    let mut repeated_deltas = Vec::new();
    encode_delta(&mut repeated_deltas, 0);
    encode_delta(&mut repeated_deltas, 0);
    repeated_deltas.extend_from_slice(&deltas);
    let mut repeated_digests = vec![digests[0].clone()];
    repeated_digests.extend(digests.iter().cloned());
    let opened = vec![leaves[2].clone(), leaves[3].clone()];
    let padded = MultiPathV2Bench {
        tree_height: bench.tree_height,
        leaf_indexes: bench.leaf_indexes.clone(),
        leaf_copath: bench.leaf_copath.clone(),
        inner_copath: Some((sd, si, repeated_deltas.clone(), repeated_digests.clone())),
    };
    assert_eq!(padded.verify(&root, &opened), Ok(true));
    let hardened = CoPath {
        tree_height: bench.tree_height,
        leaf_copath: bench.leaf_copath.clone(),
        inner_copath: Some((sd, si, repeated_deltas, repeated_digests)),
        leaf_indexes: bench.leaf_indexes.clone(),
    };
    assert_eq!(hardened.verify(&root, 4, &opened), Ok(false));
}
