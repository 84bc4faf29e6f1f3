use vstd::prelude::*;
use vstd::arithmetic::power2::{pow2, lemma_pow2_adds, lemma_pow2_pos, lemma_pow2_unfold, lemma_pow2_strictly_increases};
use crate::copath::{ingested, insert_all, coset_set, copath_consistent, parents_fold, children_present, inner_layers_spec};
use crate::index::{ancestor, on_path_contains, sorted_seq_of, strictly_increasing, lemma_sorted_seq_of};
use crate::packed::decode_spec;

verus! {

/// The on-path positions at `depth`: the depth-`depth` ancestors of the leaf positions
/// `indexes`, which sit at depth `leaf_depth`.
pub open spec fn on_path_set(indexes: Set<usize>, leaf_depth: nat, depth: nat) -> Set<usize> {
    Set::new(
        |x: usize|
            exists|i: usize| #[trigger] indexes.contains(i) && x as nat == ancestor(i as nat, (leaf_depth - depth) as nat),
    )
}

/// The on-path positions at `depth`, in increasing order.
pub open spec fn on_path_level(indexes: Set<usize>, leaf_depth: nat, depth: nat) -> Seq<usize> {
    sorted_seq_of(on_path_set(indexes, leaf_depth, depth))
}

/// The on-path positions of every depth from the root (`0`) to the leaves (`leaf_depth`).
pub open spec fn on_path_spec(indexes: Set<usize>, leaf_depth: nat) -> Seq<Seq<usize>> {
    Seq::new(leaf_depth + 1, |j: int| on_path_level(indexes, leaf_depth, j as nat))
}

/// `n` empty digest maps, one per depth.
pub open spec fn empty_levels(n: nat) -> Seq<Map<usize, Seq<u8>>> {
    Seq::new(n, |i: int| Map::<usize, Seq<u8>>::empty())
}

/// The verdict once the copath digests sit in `levels` and the leaf digests in
/// `leaf_level`: every on-path node is recomputed from its two children, the bottom inner
/// level with the leaf-pair hash and the levels above with the inner compression, and the
/// recomputed root must equal `root`. `false` as soon as a child is missing.
pub open spec fn recompute_check(
    tree_height: nat,
    on_path: Seq<Seq<usize>>,
    leaf_level: Map<usize, Seq<u8>>,
    levels: Seq<Map<usize, Seq<u8>>>,
    root: Seq<u8>,
) -> bool {
    let leaf_depth = (tree_height - 1) as nat;
    let bottom = on_path[leaf_depth - 1];
    if !children_present(leaf_level, bottom) {
        false
    } else {
        let levels2 = levels.update(
            leaf_depth - 1,
            parents_fold(levels[leaf_depth - 1], leaf_level, bottom, bottom.len(), true),
        );
        match inner_layers_spec(levels2, on_path, (leaf_depth - 1) as nat) {
            None => false,
            Some(levels3) => levels3[0].contains_key(0) && levels3[0][0] == root,
        }
    }
}

/// The leaf-level part of a batch check: the opened leaves' digests keyed by index, and the
/// leaf copath, which must hold one digest per expected sibling position, each agreeing with
/// an opened leaf at the same position. `None` when the leaf copath is refused.
pub open spec fn leaf_level_spec(
    tree_height: nat,
    leaf_indexes: Seq<usize>,
    leaf_copath: Seq<Seq<u8>>,
    leaves: Seq<Seq<u8>>,
) -> Option<Map<usize, Seq<u8>>> {
    let leaf_depth = (tree_height - 1) as nat;
    let on_path = on_path_spec(leaf_indexes.to_set(), leaf_depth);
    let coset = sorted_seq_of(coset_set(on_path[leaf_depth as int]));
    let opened = ingested(leaf_indexes, leaves, leaf_indexes.len());
    if coset.len() == leaf_copath.len() && copath_consistent(opened, coset, leaf_copath) {
        Some(insert_all(opened, coset, leaf_copath, coset.len()))
    } else {
        None
    }
}

/// The verdict on a coset batch proof of height `tree_height >= 2` whose leaves were
/// supplied in `leaf_indexes` order: the leaf copath is accepted, the packed inner copath
/// decodes (in its hardened form or not, as `hardened` says), and the recomputed root
/// equals `root`.
pub open spec fn coset_check(
    tree_height: nat,
    leaf_indexes: Seq<usize>,
    leaf_copath: Seq<Seq<u8>>,
    inner: Option<(usize, usize, Seq<u8>, Seq<Seq<u8>>)>,
    leaves: Seq<Seq<u8>>,
    root: Seq<u8>,
    hardened: bool,
) -> bool {
    let on_path = on_path_spec(leaf_indexes.to_set(), (tree_height - 1) as nat);
    match leaf_level_spec(tree_height, leaf_indexes, leaf_copath, leaves) {
        None => false,
        Some(leaf_level) => match decode_spec(empty_levels(tree_height), tree_height as int, inner, hardened) {
            None => false,
            Some(levels) => recompute_check(tree_height, on_path, leaf_level, levels, root),
        },
    }
}

/// An ancestor at least one level up of a `usize` position, placed at a depth `j` with
/// `j + k < usize::BITS`, has a level-order index and a right child that fit a `usize`.
pub proof fn lemma_ancestor_bounds(i: usize, k: nat, j: nat)
    requires
        1 <= k,
        j + k < usize::BITS,
    ensures
        2 * ancestor(i as nat, k) + 1 <= usize::MAX,
        pow2(j) + ancestor(i as nat, k) <= usize::MAX,
{
    let b = usize::BITS as nat;
    vstd::layout::unsigned_int_max_values();
    let x = ancestor(i as nat, k);
    let pk = pow2(k);
    lemma_pow2_pos(k);
    vstd::arithmetic::div_mod::lemma_fundamental_div_mod(i as int, pk as int);
    vstd::arithmetic::div_mod::lemma_mod_pos_bound(i as int, pk as int);
    lemma_pow2_adds((b - k) as nat, k);
    let q = pow2((b - k) as nat);
    let ii = i as int;
    let pki = pk as int;
    assert(x < q) by (nonlinear_arith)
        requires
            ii < q * pki,
            pki > 0,
            x == ii / pki,
            ii == pki * (ii / pki) + ii % pki,
            ii % pki >= 0,
    ;
    lemma_pow2_unfold((b - k) as nat);
    lemma_pow2_unfold(((b - k) + 1) as nat);
    let h = pow2(((b - k) - 1) as nat);
    assert(q == 2 * h);
    assert(pow2(((b - k) + 1) as nat) == 2 * q);
    if ((b - k) + 1) < b {
        lemma_pow2_strictly_increases(((b - k) + 1) as nat, b);
    }
    assert(2 * q <= pow2(b));
    if j < (b - k) - 1 {
        lemma_pow2_strictly_increases(j, ((b - k) - 1) as nat);
    }
    assert(pow2(j) <= h);
    assert(usize::MAX == pow2(b) - 1);
}

/// Facts about the on-path sets built from the sorted leaf positions `sorted`, which hold
/// the same values as `leaf_indexes`: each level is the sorted on-path level, and the
/// levels above the leaves hold positions whose level-order index and right child fit a
/// `usize`.
pub proof fn lemma_on_path_facts(
    leaf_indexes: Seq<usize>,
    sorted: Seq<usize>,
    on_path: Seq<Seq<usize>>,
    leaf_depth: nat,
)
    requires
        leaf_depth < usize::BITS,
        forall|x: usize| sorted.contains(x) <==> leaf_indexes.contains(x),
        on_path.len() == leaf_depth + 1,
        forall|j: int| 0 <= j <= leaf_depth ==> #[trigger] strictly_increasing(on_path[j]),
        forall|j: int, x: usize|
            0 <= j <= leaf_depth ==> (#[trigger] on_path[j].contains(x) <==> on_path_contains(
                sorted,
                leaf_depth,
                j as nat,
                x as nat,
            )),
    ensures
        on_path == on_path_spec(leaf_indexes.to_set(), leaf_depth),
        forall|j: int, t: int|
            0 <= j < leaf_depth && 0 <= t < on_path[j].len() ==> 2 * #[trigger] on_path[j][t] + 1
                <= usize::MAX && pow2(j as nat) + on_path[j][t] <= usize::MAX,
{
    let spec = on_path_spec(leaf_indexes.to_set(), leaf_depth);
    assert forall|j: int| 0 <= j <= leaf_depth implies on_path[j] == #[trigger] spec[j] by {
        let s = on_path_set(leaf_indexes.to_set(), leaf_depth, j as nat);
        assert forall|x: usize| #[trigger] on_path[j].contains(x) <==> s.contains(x) by {
            if on_path[j].contains(x) {
                let t = choose|t: int| 0 <= t < sorted.len() && x == ancestor(sorted[t] as nat, (leaf_depth - j) as nat);
                assert(sorted.contains(sorted[t]));
                assert(leaf_indexes.to_set().contains(sorted[t]));
            }
            if s.contains(x) {
                let i = choose|i: usize| #[trigger] leaf_indexes.to_set().contains(i) && x as nat == ancestor(i as nat, (leaf_depth - j) as nat);
                assert(leaf_indexes.contains(i));
                assert(sorted.contains(i));
                let t = choose|t: int| 0 <= t < sorted.len() && sorted[t] == i;
                assert(on_path_contains(sorted, leaf_depth, j as nat, x as nat));
            }
        }
        lemma_sorted_seq_of(on_path[j], s);
    }
    assert(on_path =~= spec);
    assert forall|j: int, t: int|
        0 <= j < leaf_depth && 0 <= t < on_path[j].len() implies 2 * #[trigger] on_path[j][t] + 1
            <= usize::MAX && pow2(j as nat) + on_path[j][t] <= usize::MAX by {
        let x = on_path[j][t];
        assert(on_path[j].contains(x));
        let u = choose|u: int| 0 <= u < sorted.len() && x == ancestor(sorted[u] as nat, (leaf_depth - j) as nat);
        lemma_ancestor_bounds(sorted[u], (leaf_depth - j) as nat, j as nat);
    }
}

} // verus!
