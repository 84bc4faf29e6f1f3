use crypto_primitives::copath::CoPath;
use std::collections::BTreeSet;

#[test]
fn ctf_c1_tree_height_zero_dos() {
    // A proof claiming height 0 is refused with an error before any arithmetic.
    let malicious_proof = CoPath {
        tree_height: 0,
        leaf_copath: vec![],
        inner_copath: None,
        leaf_indexes: vec![0],
    };

    let result = malicious_proof.verify(&vec![0u8], 2, &[vec![]]);
    assert!(result.is_err(), "C-1 fix: tree_height=0 must return Err, not panic");
}

/// Proof of mechanism: shows the exact arithmetic behind the underflow,
/// safely, without crashing the test process.
#[test]
fn ctf_c1_mechanism_proof() {
    let d: usize = 0;

    // `let leaf_depth = d - 1;`
    let leaf_depth = d.wrapping_sub(1);
    assert_eq!(leaf_depth, usize::MAX,
        "tree_height=0 wraps leaf_depth to usize::MAX in release mode");

    // compute_on_path(usize::MAX, …) then does:
    //   vec![Vec::new(); usize::MAX + 1]  →  usize::MAX + 1 wraps to 0
    let allocation_size = usize::MAX.wrapping_add(1);
    assert_eq!(allocation_size, 0,
        "allocation arg wraps to 0; the subsequent loop body panics OOB");
}

#[test]
fn ctf_c2_tree_height_one_panic() {
    // A proof claiming height 1 is refused with an error before any recomputation.
    let malicious_proof = CoPath {
        tree_height: 1,
        leaf_copath: vec![vec![42u8]],
        inner_copath: None,
        leaf_indexes: vec![0],
    };

    let result = malicious_proof.verify(&vec![0u8], 2, &[vec![]]);
    assert!(result.is_err(), "C-2 fix: tree_height=1 must return Err, not panic");
}

/// Visualise the on_path structure of a height-1 tree.
#[test]
fn ctf_c2_mechanism_proof() {
    let depth_leaves: usize = 0;
    let mut path_sets: Vec<Vec<usize>> = vec![Vec::new(); depth_leaves + 1];
    let indexes: BTreeSet<usize> = [0usize].iter().copied().collect();

    for &leaf_index in &indexes {
        let mut idx = leaf_index;
        let mut depth = depth_leaves;
        loop {
            path_sets[depth].push(idx);
            if depth == 0 {
                break;
            }
            idx >>= 1;
            depth -= 1;
        }
    }

    assert_eq!(path_sets.len(), 1, "on_path has exactly 1 element");
    assert_eq!(path_sets[0], vec![0usize]);

    let leaf_depth: usize = 0;
    let bad_index = leaf_depth.wrapping_sub(1);
    assert_eq!(bad_index, usize::MAX,
        "on_path[usize::MAX] is an out-of-bounds access → panic");
}
