//! Completeness of batch proofs: a proof generated from a tree verifies against the tree's
//! root, and against no other root.
use vstd::prelude::*;
use vstd::arithmetic::power2::{pow2, lemma_pow2_adds, lemma_pow2_pos, lemma_pow2_unfold, lemma_pow2_strictly_increases};
use vstd::arithmetic::div_mod::lemma_div_denominator;
use crate::batch::{on_path_set, on_path_level, on_path_spec};
use crate::copath::{coset_set, parents_fold, children_present, inner_layers_spec, ingested, insert_all};
use crate::crh::leaf_hash_spec;
use crate::packed::{put_all, entry_put, coords_increasing, coords_fit_i64, pack_spec, decode_spec, lemma_pack_decode_roundtrip};
use crate::multiproof::{coset_proof_spec, implicit_proof_spec, inner_coords, lemma_inner_coords_prefix, coset_positions, coset_entries, leaf_copath_spec, leaf_copath_out_of_range, inner_copath_out_of_range};
use crate::batch::{empty_levels, leaf_level_spec, recompute_check, coset_check};
use crate::implicit::{implicit_levels, implicit_check};
use crate::copath::{copath_consistent, batch_shape_ok};
use crate::index::level_index_spec;
use crate::model::{root_spec, lemma_level_index_range};
use crate::tree::MerkleTree;
use crate::crh::{leaf_parent_spec, compress_spec};
use crate::model::node_spec;
use crate::index::{ancestor, sorted_seq_of, strictly_increasing, lemma_sorted_seq_of_finite};
use crate::path::sibling_pos;

verus! {

/// The on-path positions of a depth form a finite set.
proof fn lemma_on_path_set_finite(indexes: Set<usize>, leaf_depth: nat, depth: nat)
    requires
        indexes.finite(),
        depth <= leaf_depth,
    ensures
        on_path_set(indexes, leaf_depth, depth).finite(),
{
    let k = (leaf_depth - depth) as nat;
    let f = |i: usize| (ancestor(i as nat, k)) as usize;
    let s = on_path_set(indexes, leaf_depth, depth);
    lemma_pow2_pos(k);
    assert forall|x: usize| #[trigger] s.contains(x) <==> indexes.map(f).contains(x) by {
        if s.contains(x) {
            let i = choose|i: usize| #[trigger] indexes.contains(i) && x as nat == ancestor(i as nat, k);
            assert(f(i) == x);
        }
        if indexes.map(f).contains(x) {
            let i = choose|i: usize| indexes.contains(i) && #[trigger] f(i) == x;
            vstd::arithmetic::div_mod::lemma_div_is_ordered_by_denominator(i as int, 1, pow2(k) as int);
            assert(ancestor(i as nat, k) <= i);
            assert(x as nat == ancestor(i as nat, k));
        }
    }
    assert(s =~= indexes.map(f));
    indexes.lemma_map_finite(f);
}

/// The on-path levels built from finitely many leaf positions `indexes < 2^leaf_depth`: each
/// level is strictly increasing, holds exactly the on-path positions of its depth, which lie
/// below `2^depth`; the leaf level holds exactly `indexes`; and the positions of a level are
/// the halves of those of the level below.
pub proof fn lemma_on_path_levels(indexes: Set<usize>, leaf_depth: nat)
    requires
        indexes.finite(),
        forall|i: usize| #[trigger] indexes.contains(i) ==> i < pow2(leaf_depth),
    ensures
        ({
            let on_path = on_path_spec(indexes, leaf_depth);
            &&& on_path.len() == leaf_depth + 1
            &&& forall|j: int| 0 <= j <= leaf_depth ==> #[trigger] strictly_increasing(on_path[j])
            &&& forall|j: int, x: usize|
                0 <= j <= leaf_depth ==> (#[trigger] on_path[j].contains(x) <==> on_path_set(indexes, leaf_depth, j as nat).contains(x))
            &&& forall|j: int, x: usize|
                0 <= j <= leaf_depth && #[trigger] on_path[j].contains(x) ==> x < pow2(j as nat)
            &&& forall|x: usize| #[trigger] on_path[leaf_depth as int].contains(x) <==> indexes.contains(x)
            &&& forall|j: int, x: usize|
                1 <= j <= leaf_depth && #[trigger] on_path[j].contains(x) ==> on_path[j - 1].contains((x / 2) as usize)
            &&& forall|j: int, p: usize|
                1 <= j <= leaf_depth && #[trigger] on_path[j - 1].contains(p) ==> exists|x: usize|
                    #[trigger] on_path[j].contains(x) && x / 2 == p
        }),
{
    let on_path = on_path_spec(indexes, leaf_depth);
    assert forall|j: int| 0 <= j <= leaf_depth implies #[trigger] strictly_increasing(on_path[j]) by {
        lemma_on_path_set_finite(indexes, leaf_depth, j as nat);
        lemma_sorted_seq_of_finite(on_path_set(indexes, leaf_depth, j as nat));
        assert(on_path[j] == on_path_level(indexes, leaf_depth, j as nat));
    }
    assert forall|j: int, x: usize| 0 <= j <= leaf_depth implies (#[trigger] on_path[j].contains(x)
        <==> on_path_set(indexes, leaf_depth, j as nat).contains(x)) by {
        lemma_on_path_set_finite(indexes, leaf_depth, j as nat);
        lemma_sorted_seq_of_finite(on_path_set(indexes, leaf_depth, j as nat));
        assert(on_path[j] == on_path_level(indexes, leaf_depth, j as nat));
    }
    assert forall|j: int, x: usize|
        0 <= j <= leaf_depth && #[trigger] on_path[j].contains(x) implies x < pow2(j as nat) by {
        let k = (leaf_depth - j) as nat;
        assert(on_path_set(indexes, leaf_depth, j as nat).contains(x));
        let i = choose|i: usize| #[trigger] indexes.contains(i) && x as nat == ancestor(i as nat, k);
        lemma_pow2_adds(j as nat, k);
        lemma_pow2_pos(k);
        let ii = i as int;
        let pk = pow2(k) as int;
        let pj = pow2(j as nat) as int;
        vstd::arithmetic::div_mod::lemma_fundamental_div_mod(ii, pk);
        vstd::arithmetic::div_mod::lemma_mod_pos_bound(ii, pk);
        assert(x < pj) by (nonlinear_arith)
            requires
                ii < pj * pk,
                pk > 0,
                x == ii / pk,
                ii == pk * (ii / pk) + ii % pk,
                ii % pk >= 0,
        ;
    }
    assert forall|x: usize| #[trigger] on_path[leaf_depth as int].contains(x) <==> indexes.contains(x) by {
        assert(pow2(0) == 1) by {
            vstd::arithmetic::power2::lemma2_to64();
        }
        if on_path[leaf_depth as int].contains(x) {
            assert(on_path_set(indexes, leaf_depth, leaf_depth).contains(x));
            let i = choose|i: usize| #[trigger] indexes.contains(i) && x as nat == ancestor(i as nat, 0);
            assert(i as nat / 1 == i);
        }
        if indexes.contains(x) {
            assert(x as nat / 1 == x);
            assert(on_path_set(indexes, leaf_depth, leaf_depth).contains(x));
        }
    }
    assert forall|j: int, x: usize|
        1 <= j <= leaf_depth && #[trigger] on_path[j].contains(x) implies on_path[j - 1].contains((x / 2) as usize) by {
        let k = (leaf_depth - j) as nat;
        assert(on_path_set(indexes, leaf_depth, j as nat).contains(x));
        let i = choose|i: usize| #[trigger] indexes.contains(i) && x as nat == ancestor(i as nat, k);
        lemma_pow2_unfold(k + 1);
        lemma_pow2_pos(k);
        lemma_div_denominator(i as int, pow2(k) as int, 2);
        assert(((x / 2) as usize) as nat == ancestor(i as nat, k + 1));
        assert(on_path_set(indexes, leaf_depth, (j - 1) as nat).contains((x / 2) as usize));
    }
    assert forall|j: int, p: usize|
        1 <= j <= leaf_depth && #[trigger] on_path[j - 1].contains(p) implies exists|x: usize|
            #[trigger] on_path[j].contains(x) && x / 2 == p by {
        let k = (leaf_depth - j) as nat;
        assert(on_path_set(indexes, leaf_depth, (j - 1) as nat).contains(p));
        let i = choose|i: usize| #[trigger] indexes.contains(i) && p as nat == ancestor(i as nat, k + 1);
        lemma_pow2_unfold(k + 1);
        lemma_pow2_pos(k);
        lemma_div_denominator(i as int, pow2(k) as int, 2);
        vstd::arithmetic::div_mod::lemma_div_is_ordered_by_denominator(i as int, 1, pow2(k) as int);
        let x = ancestor(i as nat, k) as usize;
        assert(on_path_set(indexes, leaf_depth, j as nat).contains(x));
        assert(on_path[j].contains(x));
    }
}

/// The copath positions of a level of positions below `2^depth` (depth at least one): a
/// strictly increasing sequence of the siblings that are not in the level, themselves below
/// `2^depth`.
pub proof fn lemma_coset_positions(level: Seq<usize>, depth: nat)
    requires
        depth >= 1,
        forall|t: int| 0 <= t < level.len() ==> #[trigger] level[t] < pow2(depth),
    ensures
        strictly_increasing(sorted_seq_of(coset_set(level))),
        forall|y: usize| #[trigger] sorted_seq_of(coset_set(level)).contains(y) <==> coset_set(level).contains(y),
        forall|y: usize| #[trigger] coset_set(level).contains(y) ==> y < pow2(depth) && !level.contains(y),
{
    let f = |p: usize| sibling_pos(p as nat) as usize;
    let sup = level.to_set().map(f);
    assert forall|y: usize| #[trigger] coset_set(level).contains(y) implies sup.contains(y) by {
        let t = choose|t: int| 0 <= t < level.len() && y == sibling_pos(level[t] as nat);
        assert(level.to_set().contains(level[t]));
        assert(f(level[t]) == y);
    }
    vstd::seq_lib::seq_to_set_is_finite(level);
    level.to_set().lemma_map_finite(f);
    assert(coset_set(level).subset_of(sup));
    vstd::set_lib::lemma_set_subset_finite(sup, coset_set(level));
    lemma_sorted_seq_of_finite(coset_set(level));
    lemma_pow2_unfold(depth);
    let half = pow2((depth - 1) as nat);
    assert forall|y: usize| #[trigger] coset_set(level).contains(y) implies y < pow2(depth) && !level.contains(y) by {
        let t = choose|t: int| 0 <= t < level.len() && y == sibling_pos(level[t] as nat);
        let p = level[t];
        assert(p < 2 * half);
        if p % 2 == 0 {
            assert(p + 1 < 2 * half) by {
                let a = p / 2;
                assert(p == 2 * a);
            }
        }
    }
}

/// Every digest recorded in `m` is the digest of the node at its position on level `depth`
/// of the tree of height `height` over `leaves`.
pub open spec fn level_good(m: Map<usize, Seq<u8>>, leaves: Seq<Seq<u8>>, height: nat, depth: nat) -> bool {
    forall|x: usize| #[trigger] m.contains_key(x) ==> m[x] == node_spec(leaves, height, depth, x as nat)
}

/// `m` knows every on-path position of `level` and every copath position next to them.
pub open spec fn level_covers(m: Map<usize, Seq<u8>>, level: Seq<usize>) -> bool {
    forall|x: usize| (level.contains(x) || coset_set(level).contains(x)) ==> #[trigger] m.contains_key(x)
}

/// Folding parents computed from good children into a good level keeps it good, and adds
/// the parents.
proof fn lemma_fold_good(
    m: Map<usize, Seq<u8>>,
    children: Map<usize, Seq<u8>>,
    parents: Seq<usize>,
    n: nat,
    leaf: bool,
    leaves: Seq<Seq<u8>>,
    height: nat,
    depth: nat,
)
    requires
        1 <= depth,
        depth + 1 <= height,
        leaf == (depth + 1 == height),
        n <= parents.len(),
        forall|t: int| 0 <= t < parents.len() ==> 2 * #[trigger] parents[t] + 1 <= usize::MAX,
        level_good(children, leaves, height, depth),
        level_good(m, leaves, height, (depth - 1) as nat),
        children_present(children, parents),
    ensures
        level_good(parents_fold(m, children, parents, n, leaf), leaves, height, (depth - 1) as nat),
        forall|t: int| 0 <= t < n ==> parents_fold(m, children, parents, n, leaf).contains_key(#[trigger] parents[t]),
        forall|x: usize| #[trigger] m.contains_key(x) ==> parents_fold(m, children, parents, n, leaf).contains_key(x),
    decreases n,
{
    if n > 0 {
        lemma_fold_good(m, children, parents, (n - 1) as nat, leaf, leaves, height, depth);
        let p = parents[n - 1];
        let l = (2 * p) as usize;
        let r = (2 * p + 1) as usize;
        assert(children.contains_key(l) && children.contains_key(r));
        assert(children[l] == node_spec(leaves, height, depth, 2 * p as nat));
        assert(children[r] == node_spec(leaves, height, depth, (2 * p + 1) as nat));
        let prev = parents_fold(m, children, parents, (n - 1) as nat, leaf);
        let v = if leaf {
            leaf_parent_spec(children[l], children[r])
        } else {
            compress_spec(children[l], children[r])
        };
        assert(v == node_spec(leaves, height, (depth - 1) as nat, p as nat));
        assert(parents_fold(m, children, parents, n, leaf) == prev.insert(p, v));
    }
}

/// Recomputing the levels above `depth` from good levels, where `depth` knows its on-path
/// positions and their copath and each level above it its copath, succeeds and leaves a
/// good root level holding the root position.
proof fn lemma_inner_layers_good(
    levels: Seq<Map<usize, Seq<u8>>>,
    on_path: Seq<Seq<usize>>,
    depth: nat,
    leaves: Seq<Seq<u8>>,
    height: nat,
)
    requires
        depth + 2 <= height,
        levels.len() == height,
        on_path.len() == height,
        forall|j: nat| j <= depth ==> #[trigger] level_good(levels[j as int], leaves, height, j),
        depth >= 1 ==> level_covers(levels[depth as int], on_path[depth as int]),
        forall|j: int, y: usize| 1 <= j < depth && #[trigger] coset_set(on_path[j]).contains(y) ==> levels[j].contains_key(y),
        forall|j: int, t: int| 0 <= j < depth && 0 <= t < on_path[j].len() ==> 2 * #[trigger] on_path[j][t] + 1 <= usize::MAX,
        forall|j: int, p: usize|
            1 <= j <= depth && #[trigger] on_path[j - 1].contains(p) ==> exists|x: usize|
                #[trigger] on_path[j].contains(x) && x / 2 == p,
    ensures
        inner_layers_spec(levels, on_path, depth) is Some,
        level_good(inner_layers_spec(levels, on_path, depth).unwrap()[0], leaves, height, 0),
        forall|x: usize| #[trigger] levels[0].contains_key(x) ==> inner_layers_spec(levels, on_path, depth).unwrap()[0].contains_key(x),
        depth >= 1 ==> forall|x: usize| #[trigger] on_path[0].contains(x) ==> inner_layers_spec(levels, on_path, depth).unwrap()[0].contains_key(x),
    decreases depth,
{
    assert(level_good(levels[0], leaves, height, 0));
    if depth > 0 {
        let ps = on_path[depth - 1];
        let children = levels[depth as int];
        assert(level_good(levels[depth as int], leaves, height, depth));
        assert(level_good(levels[depth - 1], leaves, height, (depth - 1) as nat));
        assert(children_present(children, ps)) by {
            assert forall|t: int| 0 <= t < ps.len() implies children.contains_key((2 * ps[t]) as usize)
                && children.contains_key((2 * ps[t] + 1) as usize) by {
                let p = ps[t];
                assert(ps.contains(p));
                let x = choose|x: usize| #[trigger] on_path[depth as int].contains(x) && x / 2 == p;
                let level = on_path[depth as int];
                let k = choose|k: int| 0 <= k < level.len() && level[k] == x;
                let y = sibling_pos(x as nat) as usize;
                assert(level.contains(y) || coset_set(level).contains(y));
                assert(children.contains_key(x));
                assert(children.contains_key(y));
                if x % 2 == 0 {
                    assert(x == 2 * p && y == 2 * p + 1);
                } else {
                    assert(x == 2 * p + 1 && y == 2 * p);
                }
            }
        }
        lemma_fold_good(levels[depth - 1], children, ps, ps.len(), false, leaves, height, depth);
        let folded = parents_fold(levels[depth - 1], children, ps, ps.len(), false);
        let next = levels.update(depth - 1, folded);
        assert(inner_layers_spec(levels, on_path, depth) == inner_layers_spec(next, on_path, (depth - 1) as nat));
        assert forall|t: int| 0 <= t < ps.len() implies folded.contains_key(#[trigger] ps[t]) by {}
        assert forall|x: usize| #[trigger] ps.contains(x) implies folded.contains_key(x) by {
            let t = choose|t: int| 0 <= t < ps.len() && ps[t] == x;
        }
        if depth >= 2 {
            assert(level_covers(next[depth - 1], on_path[depth - 1])) by {
                assert forall|x: usize| (ps.contains(x) || coset_set(ps).contains(x)) implies #[trigger] next[depth - 1].contains_key(x) by {
                    if coset_set(ps).contains(x) {
                        assert(levels[depth - 1].contains_key(x));
                    }
                }
            }
        }
        assert forall|j: nat| j <= depth - 1 implies #[trigger] level_good(next[j as int], leaves, height, j) by {
            if j < depth - 1 {
                assert(level_good(levels[j as int], leaves, height, j));
            }
        }
        lemma_inner_layers_good(next, on_path, (depth - 1) as nat, leaves, height);
        assert forall|x: usize| #[trigger] levels[0].contains_key(x) implies inner_layers_spec(levels, on_path, depth).unwrap()[0].contains_key(x) by {
            if depth == 1 {
                assert(folded.contains_key(x));
            }
            assert(next[0].contains_key(x));
        }
        if depth == 1 {
            assert forall|x: usize| #[trigger] on_path[0].contains(x) implies inner_layers_spec(levels, on_path, depth).unwrap()[0].contains_key(x) by {
                assert(next[0] == folded);
            }
        }
    }
}

/// The opened leaves' digests keyed by index are good leaf-level digests, held exactly at
/// the opened indexes.
proof fn lemma_ingested_good(indexes: Seq<usize>, opened: Seq<Seq<u8>>, n: nat, leaves: Seq<Seq<u8>>, height: nat)
    requires
        height >= 1,
        n <= indexes.len(),
        n <= opened.len(),
        forall|t: int| 0 <= t < n ==> leaf_hash_spec(#[trigger] opened[t]) == leaves[indexes[t] as int],
    ensures
        level_good(ingested(indexes, opened, n), leaves, height, (height - 1) as nat),
        forall|x: usize| #[trigger] ingested(indexes, opened, n).contains_key(x) <==> exists|t: int| 0 <= t < n && indexes[t] == x,
    decreases n,
{
    if n > 0 {
        lemma_ingested_good(indexes, opened, (n - 1) as nat, leaves, height);
        let prev = ingested(indexes, opened, (n - 1) as nat);
        let cur = ingested(indexes, opened, n);
        assert(cur == prev.insert(indexes[n - 1], leaf_hash_spec(opened[n - 1])));
        assert forall|x: usize| #[trigger] cur.contains_key(x) <==> exists|t: int| 0 <= t < n && indexes[t] == x by {
            if cur.contains_key(x) && x != indexes[n - 1] {
                assert(prev.contains_key(x));
                let t = choose|t: int| 0 <= t < n - 1 && indexes[t] == x;
            }
            if exists|t: int| 0 <= t < n && indexes[t] == x {
                let t = choose|t: int| 0 <= t < n && indexes[t] == x;
                if t < n - 1 {
                    assert(prev.contains_key(x));
                }
            }
        }
        assert forall|x: usize| #[trigger] cur.contains_key(x) implies cur[x] == node_spec(leaves, height, (height - 1) as nat, x as nat) by {
            if x != indexes[n - 1] {
                assert(prev.contains_key(x));
            }
        }
    }
}

/// Adding good digests of level `depth` to a good map of that level keeps it good.
proof fn lemma_insert_all_good(
    m: Map<usize, Seq<u8>>,
    keys: Seq<usize>,
    vals: Seq<Seq<u8>>,
    n: nat,
    leaves: Seq<Seq<u8>>,
    height: nat,
    depth: nat,
)
    requires
        n <= keys.len(),
        n <= vals.len(),
        level_good(m, leaves, height, depth),
        forall|t: int| 0 <= t < n ==> #[trigger] vals[t] == node_spec(leaves, height, depth, keys[t] as nat),
    ensures
        level_good(insert_all(m, keys, vals, n), leaves, height, depth),
        forall|x: usize| #[trigger] insert_all(m, keys, vals, n).contains_key(x) <==> (m.contains_key(x) || exists|t: int| 0 <= t < n && keys[t] == x),
    decreases n,
{
    if n > 0 {
        lemma_insert_all_good(m, keys, vals, (n - 1) as nat, leaves, height, depth);
        let prev = insert_all(m, keys, vals, (n - 1) as nat);
        let cur = insert_all(m, keys, vals, n);
        assert(cur == prev.insert(keys[n - 1], vals[n - 1]));
        assert(vals[n - 1] == node_spec(leaves, height, depth, keys[n - 1] as nat));
        assert forall|x: usize| #[trigger] cur.contains_key(x) <==> (m.contains_key(x) || exists|t: int| 0 <= t < n && keys[t] == x) by {
            if cur.contains_key(x) && x != keys[n - 1] {
                assert(prev.contains_key(x));
            }
            if exists|t: int| 0 <= t < n && keys[t] == x {
                let t = choose|t: int| 0 <= t < n && keys[t] == x;
                if t < n - 1 {
                    assert(prev.contains_key(x));
                }
            }
            if m.contains_key(x) {
                assert(prev.contains_key(x));
            }
        }
        assert forall|x: usize| #[trigger] cur.contains_key(x) implies cur[x] == node_spec(leaves, height, depth, x as nat) by {
            if x != keys[n - 1] {
                assert(prev.contains_key(x));
            }
        }
    }
}

/// Recording good entries into good levels keeps every level good, and records them.
proof fn lemma_put_all_good(
    levels: Seq<Map<usize, Seq<u8>>>,
    entries: Seq<(usize, usize, Seq<u8>)>,
    n: nat,
    leaves: Seq<Seq<u8>>,
    height: nat,
)
    requires
        levels.len() == height,
        n <= entries.len(),
        forall|j: nat| j < height ==> #[trigger] level_good(levels[j as int], leaves, height, j),
        forall|t: int| 0 <= t < n ==> #[trigger] entries[t].0 < height,
        forall|t: int|
            0 <= t < n ==> #[trigger] entries[t].2 == node_spec(leaves, height, entries[t].0 as nat, entries[t].1 as nat),
    ensures
        put_all(levels, entries, n).len() == height,
        forall|j: nat| j < height ==> #[trigger] level_good(put_all(levels, entries, n)[j as int], leaves, height, j),
        forall|t: int| 0 <= t < n ==> put_all(levels, entries, n)[#[trigger] entries[t].0 as int].contains_key(entries[t].1),
        forall|j: int, x: usize| 0 <= j < height && #[trigger] levels[j].contains_key(x) ==> put_all(levels, entries, n)[j].contains_key(x),
    decreases n,
{
    if n > 0 {
        lemma_put_all_good(levels, entries, (n - 1) as nat, leaves, height);
        let prev = put_all(levels, entries, (n - 1) as nat);
        let e = entries[n - 1];
        let cur = put_all(levels, entries, n);
        assert(cur == entry_put(prev, e.0 as int, e.1 as int, e.2));
        assert forall|j: nat| j < height implies #[trigger] level_good(cur[j as int], leaves, height, j) by {
            assert(level_good(prev[j as int], leaves, height, j));
            if j == e.0 {
                assert forall|x: usize| #[trigger] cur[j as int].contains_key(x) implies cur[j as int][x] == node_spec(leaves, height, j, x as nat) by {
                    if x != e.1 {
                        assert(prev[j as int].contains_key(x));
                    }
                }
            }
        }
        assert forall|t: int| 0 <= t < n implies cur[#[trigger] entries[t].0 as int].contains_key(entries[t].1) by {
            if t < n - 1 {
                assert(prev[entries[t].0 as int].contains_key(entries[t].1));
            }
        }
        assert forall|j: int, x: usize| 0 <= j < height && #[trigger] levels[j].contains_key(x) implies cur[j].contains_key(x) by {
            assert(prev[j].contains_key(x));
        }
    }
}

/// The inner copath coordinates of the depths `1` to `n - 1`: each is a copath position of
/// its depth; every such position occurs; and they strictly increase in `(depth, index)`
/// order.
proof fn lemma_inner_coords_facts(on_path: Seq<Seq<usize>>, n: nat)
    requires
        n <= on_path.len(),
        n <= usize::MAX,
        forall|j: int| 1 <= j < n ==> #[trigger] strictly_increasing(coset_positions(on_path, j)),
        forall|j: int, y: usize|
            1 <= j < n ==> (#[trigger] coset_positions(on_path, j).contains(y) <==> coset_set(on_path[j]).contains(y)),
    ensures
        forall|u: int|
            0 <= u < inner_coords(on_path, n).len() ==> 1 <= #[trigger] inner_coords(on_path, n)[u].0 < n
                && coset_set(on_path[inner_coords(on_path, n)[u].0 as int]).contains(inner_coords(on_path, n)[u].1),
        forall|j: int, y: usize|
            1 <= j < n && #[trigger] coset_set(on_path[j]).contains(y) ==> exists|u: int|
                0 <= u < inner_coords(on_path, n).len() && #[trigger] inner_coords(on_path, n)[u] == (j as usize, y),
        forall|a: int, b: int|
            0 <= a < b < inner_coords(on_path, n).len() ==> #[trigger] inner_coords(on_path, n)[a].0
                < #[trigger] inner_coords(on_path, n)[b].0 || (inner_coords(on_path, n)[a].0 == inner_coords(on_path, n)[b].0
                && inner_coords(on_path, n)[a].1 < inner_coords(on_path, n)[b].1),
    decreases n,
{
    if n > 1 {
        lemma_inner_coords_facts(on_path, (n - 1) as nat);
        let prev = inner_coords(on_path, (n - 1) as nat);
        let d = (n - 1) as int;
        let cs = coset_positions(on_path, d);
        let tail = cs.map_values(|p: usize| ((n - 1) as usize, p));
        let cur = inner_coords(on_path, n);
        assert(cur == prev + tail);
        assert(strictly_increasing(cs));
        assert forall|u: int| 0 <= u < cur.len() implies 1 <= #[trigger] cur[u].0 < n
            && coset_set(on_path[cur[u].0 as int]).contains(cur[u].1) by {
            if u >= prev.len() {
                let k = u - prev.len();
                assert(cur[u] == tail[k]);
                assert(cs.contains(cs[k]));
                assert(coset_positions(on_path, d).contains(cs[k]));
                assert(coset_set(on_path[d]).contains(cs[k]));
                assert(cur[u].0 as int == d);
            } else {
                assert(cur[u] == prev[u]);
            }
        }
        assert forall|j: int, y: usize|
            1 <= j < n && #[trigger] coset_set(on_path[j]).contains(y) implies exists|u: int|
                0 <= u < cur.len() && #[trigger] cur[u] == (j as usize, y) by {
            if j < n - 1 {
                let u = choose|u: int| 0 <= u < prev.len() && #[trigger] prev[u] == (j as usize, y);
                assert(cur[u] == prev[u]);
            } else {
                assert(cs.contains(y));
                let k = choose|k: int| 0 <= k < cs.len() && cs[k] == y;
                assert(cur[prev.len() + k] == tail[k]);
            }
        }
        assert forall|a: int, b: int|
            0 <= a < b < cur.len() implies #[trigger] cur[a].0 < #[trigger] cur[b].0 || (cur[a].0 == cur[b].0
                && cur[a].1 < cur[b].1) by {
            if b < prev.len() {
                assert(cur[a] == prev[a] && cur[b] == prev[b]);
            } else if a < prev.len() {
                assert(cur[a] == prev[a]);
                assert(1 <= prev[a].0 < n - 1);
                assert(cur[b] == tail[b - prev.len()]);
            } else {
                assert(cur[a] == tail[a - prev.len()]);
                assert(cur[b] == tail[b - prev.len()]);
            }
        }
    }
}

/// A position below `2^depth`, at a depth below `usize::BITS - 1`, has a right child that
/// fits a `usize`.
proof fn lemma_child_fits(p: usize, depth: nat)
    requires
        p < pow2(depth),
        depth + 1 < usize::BITS,
    ensures
        2 * p + 1 <= usize::MAX,
{
    vstd::layout::unsigned_int_max_values();
    lemma_pow2_unfold(depth + 1);
    if depth + 1 < usize::BITS as nat {
        lemma_pow2_strictly_increases(depth + 1, usize::BITS as nat);
    }
}

/// Both children of every position of level `depth - 1` are known when `children` covers
/// level `depth`, whose halves are the positions of level `depth - 1`.
proof fn lemma_children_from_cover(children: Map<usize, Seq<u8>>, on_path: Seq<Seq<usize>>, depth: int)
    requires
        1 <= depth < on_path.len(),
        level_covers(children, on_path[depth]),
        forall|p: usize| #[trigger] on_path[depth - 1].contains(p) ==> exists|x: usize|
            #[trigger] on_path[depth].contains(x) && x / 2 == p,
        forall|t: int| 0 <= t < on_path[depth - 1].len() ==> 2 * #[trigger] on_path[depth - 1][t] + 1 <= usize::MAX,
    ensures
        children_present(children, on_path[depth - 1]),
{
    let ps = on_path[depth - 1];
    let level = on_path[depth];
    assert forall|t: int| 0 <= t < ps.len() implies children.contains_key((2 * ps[t]) as usize)
        && children.contains_key((2 * ps[t] + 1) as usize) by {
        let p = ps[t];
        assert(ps.contains(p));
        let x = choose|x: usize| #[trigger] level.contains(x) && x / 2 == p;
        let k = choose|k: int| 0 <= k < level.len() && level[k] == x;
        let y = sibling_pos(x as nat) as usize;
        assert(level.contains(y) || coset_set(level).contains(y));
        assert(children.contains_key(x));
        assert(children.contains_key(y));
        if x % 2 == 0 {
            assert(x == 2 * p && y == 2 * p + 1);
        } else {
            assert(x == 2 * p + 1 && y == 2 * p);
        }
    }
}

/// With a good leaf level covering the opened leaves, and good levels holding the copath of
/// every inner depth, recomputation reaches the root of the tree: the verdict is `true` exactly
/// for the tree's root.
proof fn lemma_recompute_complete(
    leaves: Seq<Seq<u8>>,
    height: nat,
    indexes: Set<usize>,
    leaf_level: Map<usize, Seq<u8>>,
    levels: Seq<Map<usize, Seq<u8>>>,
    root: Seq<u8>,
)
    requires
        2 <= height <= usize::BITS,
        indexes.finite(),
        exists|i: usize| #[trigger] indexes.contains(i),
        forall|i: usize| #[trigger] indexes.contains(i) ==> i < pow2((height - 1) as nat),
        level_good(leaf_level, leaves, height, (height - 1) as nat),
        level_covers(leaf_level, on_path_spec(indexes, (height - 1) as nat)[height - 1]),
        levels.len() == height,
        forall|j: nat| j < height ==> #[trigger] level_good(levels[j as int], leaves, height, j),
        forall|j: int, y: usize|
            1 <= j < height - 1 && #[trigger] coset_set(on_path_spec(indexes, (height - 1) as nat)[j]).contains(y)
                ==> levels[j].contains_key(y),
    ensures
        recompute_check(height, on_path_spec(indexes, (height - 1) as nat), leaf_level, levels, root) == (root
            == node_spec(leaves, height, 0, 0)),
{
    let ld = (height - 1) as nat;
    let on_path = on_path_spec(indexes, ld);
    lemma_on_path_levels(indexes, ld);
    assert forall|j: int, t: int| 0 <= j < ld && 0 <= t < on_path[j].len() implies 2 * #[trigger] on_path[j][t] + 1 <= usize::MAX by {
        assert(on_path[j].contains(on_path[j][t]));
        lemma_child_fits(on_path[j][t], j as nat);
    }
    let bottom = on_path[ld - 1];
    lemma_children_from_cover(leaf_level, on_path, ld as int);
    assert(level_good(levels[ld - 1], leaves, height, (ld - 1) as nat));
    lemma_fold_good(levels[ld - 1], leaf_level, bottom, bottom.len(), true, leaves, height, ld);
    let folded = parents_fold(levels[ld - 1], leaf_level, bottom, bottom.len(), true);
    let levels2 = levels.update(ld - 1, folded);
    assert forall|x: usize| #[trigger] bottom.contains(x) implies folded.contains_key(x) by {
        let t = choose|t: int| 0 <= t < bottom.len() && bottom[t] == x;
    }
    if ld >= 2 {
        assert(level_covers(levels2[ld - 1], on_path[ld - 1])) by {
            assert forall|x: usize| (bottom.contains(x) || coset_set(bottom).contains(x)) implies #[trigger] levels2[ld - 1].contains_key(x) by {
                if coset_set(bottom).contains(x) {
                    assert(levels[ld - 1].contains_key(x));
                }
            }
        }
    }
    assert forall|j: nat| j <= ld - 1 implies #[trigger] level_good(levels2[j as int], leaves, height, j) by {
        if j < ld - 1 {
            assert(level_good(levels[j as int], leaves, height, j));
        }
    }
    lemma_inner_layers_good(levels2, on_path, (ld - 1) as nat, leaves, height);
    let l3 = inner_layers_spec(levels2, on_path, (ld - 1) as nat).unwrap();
    let i = choose|i: usize| #[trigger] indexes.contains(i);
    lemma_pow2_pos(ld);
    vstd::arithmetic::div_mod::lemma_basic_div(i as int, pow2(ld) as int);
    assert(on_path_set(indexes, ld, 0).contains(0));
    assert(on_path[0].contains(0));
    if ld == 1 {
        assert(levels2[0] == folded);
        assert(levels2[0].contains_key(0));
    }
    assert(l3[0].contains_key(0));
}

/// The copath positions of every level of the on-path sets below the root.
proof fn lemma_coset_levels(indexes: Set<usize>, leaf_depth: nat)
    requires
        indexes.finite(),
        forall|i: usize| #[trigger] indexes.contains(i) ==> i < pow2(leaf_depth),
    ensures
        ({
            let on_path = on_path_spec(indexes, leaf_depth);
            &&& forall|j: int| 1 <= j <= leaf_depth ==> #[trigger] strictly_increasing(coset_positions(on_path, j))
            &&& forall|j: int, y: usize|
                1 <= j <= leaf_depth ==> (#[trigger] coset_positions(on_path, j).contains(y) <==> coset_set(on_path[j]).contains(y))
            &&& forall|j: int, y: usize|
                1 <= j <= leaf_depth && #[trigger] coset_set(on_path[j]).contains(y) ==> y < pow2(j as nat) && !on_path[j].contains(y)
        }),
{
    let on_path = on_path_spec(indexes, leaf_depth);
    lemma_on_path_levels(indexes, leaf_depth);
    assert forall|j: int, t: int| 1 <= j <= leaf_depth && 0 <= t < on_path[j].len() implies #[trigger] on_path[j][t] < pow2(j as nat) by {
        assert(on_path[j].contains(on_path[j][t]));
    }
    assert forall|j: int| 1 <= j <= leaf_depth implies #[trigger] strictly_increasing(coset_positions(on_path, j)) by {
        lemma_coset_positions(on_path[j], j as nat);
    }
    assert forall|j: int, y: usize|
        1 <= j <= leaf_depth implies (#[trigger] coset_positions(on_path, j).contains(y) <==> coset_set(on_path[j]).contains(y)) by {
        lemma_coset_positions(on_path[j], j as nat);
    }
    assert forall|j: int, y: usize|
        1 <= j <= leaf_depth && #[trigger] coset_set(on_path[j]).contains(y) implies y < pow2(j as nat) && !on_path[j].contains(y) by {
        lemma_coset_positions(on_path[j], j as nat);
    }
}

/// The leaf level of a batch check of a generated proof: the leaf copath lies within the
/// leaves, is accepted, and the resulting leaf level is good and covers the opened leaves.
proof fn lemma_leaf_level_complete(
    leaves: Seq<Seq<u8>>,
    height: nat,
    iset: Set<usize>,
    opened: Seq<Seq<u8>>,
) -> (leaf_level: Map<usize, Seq<u8>>)
    requires
        height >= 2,
        leaves.len() == pow2((height - 1) as nat),
        iset.finite(),
        forall|i: usize| #[trigger] iset.contains(i) ==> i < pow2((height - 1) as nat),
        opened.len() == sorted_seq_of(iset).len(),
        forall|t: int|
            0 <= t < opened.len() ==> leaf_hash_spec(#[trigger] opened[t]) == leaves[sorted_seq_of(iset)[t] as int],
    ensures
        ({
            let ld = (height - 1) as nat;
            let on_path = on_path_spec(iset, ld);
            &&& !leaf_copath_out_of_range(leaves, on_path, ld as int)
            &&& leaf_level_spec(height, sorted_seq_of(iset), leaf_copath_spec(leaves, on_path, ld as int), opened)
                == Some(leaf_level)
            &&& level_good(leaf_level, leaves, height, ld)
            &&& level_covers(leaf_level, on_path[ld as int])
        }),
{
    let ld = (height - 1) as nat;
    let on_path = on_path_spec(iset, ld);
    lemma_on_path_levels(iset, ld);
    lemma_coset_levels(iset, ld);
    let sorted = sorted_seq_of(iset);
    lemma_sorted_seq_of_finite(iset);
    assert(sorted.to_set() =~= iset);
    let coset = coset_positions(on_path, ld as int);
    let leaf_copath = leaf_copath_spec(leaves, on_path, ld as int);
    assert forall|t: int| 0 <= t < coset.len() implies #[trigger] coset[t] < leaves.len() by {
        assert(coset.contains(coset[t]));
    }
    let opened_map = ingested(sorted, opened, sorted.len());
    lemma_ingested_good(sorted, opened, sorted.len(), leaves, height);
    assert(copath_consistent(opened_map, coset, leaf_copath)) by {
        assert forall|t: int| 0 <= t < coset.len() implies !opened_map.contains_key(coset[t]) || opened_map[coset[t]] == leaf_copath[t] by {
            let y = coset[t];
            assert(coset.contains(y));
            if opened_map.contains_key(y) {
                let u = choose|u: int| 0 <= u < sorted.len() && sorted[u] == y;
                assert(sorted.contains(y));
                assert(on_path[ld as int].contains(y));
            }
        }
    }
    assert forall|t: int| 0 <= t < coset.len() implies #[trigger] leaf_copath[t] == node_spec(leaves, height, ld, coset[t] as nat) by {}
    lemma_insert_all_good(opened_map, coset, leaf_copath, coset.len(), leaves, height, ld);
    let leaf_level = insert_all(opened_map, coset, leaf_copath, coset.len());
    assert(leaf_level_spec(height, sorted, leaf_copath, opened) == Some(leaf_level));
    assert(level_covers(leaf_level, on_path[ld as int])) by {
        assert forall|x: usize| (on_path[ld as int].contains(x) || coset_set(on_path[ld as int]).contains(x)) implies #[trigger] leaf_level.contains_key(x) by {
            if on_path[ld as int].contains(x) {
                assert(sorted.contains(x));
                let u = choose|u: int| 0 <= u < sorted.len() && sorted[u] == x;
                assert(opened_map.contains_key(x));
            } else {
                assert(coset.contains(x));
                let u = choose|u: int| 0 <= u < coset.len() && coset[u] == x;
            }
        }
    }
    leaf_level
}

/// The inner copath entries of a generated proof: within the stored inner nodes, each the
/// digest of its node, in increasing coordinate order, and fitting an `i64`.
proof fn lemma_inner_entries_complete(tree: MerkleTree, iset: Set<usize>)
    requires
        tree.wf(),
        iset.finite(),
        forall|i: usize| #[trigger] iset.contains(i) ==> i < tree.leaves().len(),
    ensures
        ({
            let h = tree.spec_height();
            let ld = (h - 1) as nat;
            let on_path = on_path_spec(iset, ld);
            let coords = inner_coords(on_path, ld);
            let entries = coset_entries(tree.inner_nodes(), coords);
            &&& !inner_copath_out_of_range(tree.inner_nodes(), coords)
            &&& coords_increasing(entries)
            &&& coords_fit_i64(entries)
            &&& forall|u: int| 0 <= u < entries.len() ==> 0 < #[trigger] entries[u].0 < h
            &&& forall|u: int| 0 <= u < entries.len() ==> #[trigger] entries[u].1 < pow2(entries[u].0 as nat)
            &&& forall|u: int|
                0 <= u < entries.len() ==> #[trigger] entries[u].2 == node_spec(tree.leaves(), h, entries[u].0 as nat, entries[u].1 as nat)
            &&& forall|j: int, y: usize|
                1 <= j < ld && #[trigger] coset_set(on_path[j]).contains(y) ==> exists|u: int|
                    0 <= u < entries.len() && #[trigger] entries[u].0 == j && entries[u].1 == y
        }),
{
    let h = tree.spec_height();
    let ld = (h - 1) as nat;
    let leaves = tree.leaves();
    let inner = tree.inner_nodes();
    tree.lemma_wf();
    tree.lemma_inner_nodes();
    let on_path = on_path_spec(iset, ld);
    lemma_on_path_levels(iset, ld);
    lemma_coset_levels(iset, ld);
    let coords = inner_coords(on_path, ld);
    lemma_inner_coords_facts(on_path, ld);
    let entries = coset_entries(inner, coords);
    vstd::arithmetic::power2::lemma2_to64();
    assert forall|u: int| 0 <= u < coords.len() implies level_index_spec(#[trigger] coords[u].0 as nat, coords[u].1 as nat) < inner.len()
        && entries[u] == (coords[u].0, coords[u].1, node_spec(leaves, h, coords[u].0 as nat, coords[u].1 as nat))
        && coords[u].1 <= i64::MAX && coords[u].0 <= i64::MAX && coords[u].1 < pow2(coords[u].0 as nat) by {
        let c = coords[u];
        let j = c.0 as nat;
        assert(1 <= j < ld);
        assert(coset_set(on_path[j as int]).contains(c.1));
        assert(c.1 < pow2(j));
        lemma_level_index_range(j, c.1 as nat);
        if j + 1 < ld {
            lemma_pow2_strictly_increases(j + 1, ld);
        }
        assert(level_index_spec(j, c.1 as nat) < inner.len());
        assert(entries[u] == (c.0, c.1, inner[level_index_spec(j, c.1 as nat) as int]));
        assert(inner[level_index_spec(j, c.1 as nat) as int] == node_spec(leaves, h, j, c.1 as nat));
        assert(h <= 64);
        vstd::arithmetic::power2::lemma2_to64_rest();
        if j < 62 {
            lemma_pow2_strictly_increases(j, 62);
        }
        assert(c.1 <= i64::MAX);
    }
    assert forall|j: int, y: usize|
        1 <= j < ld && #[trigger] coset_set(on_path[j]).contains(y) implies exists|u: int|
            0 <= u < entries.len() && #[trigger] entries[u].0 == j && entries[u].1 == y by {
        let u = choose|u: int| 0 <= u < coords.len() && #[trigger] coords[u] == (j as usize, y);
        assert(entries[u].0 == j && entries[u].1 == y);
    }
}

/// Law: a coset batch proof generated from a well-formed tree for leaf indexes of the tree
/// verifies, with the opened leaves supplied in the proof's (sorted) index order, against
/// the tree's root and against no other root. Generation does not fail on such indexes, and
/// the proof's height and indexes pass the checks made before any leaf is read. This holds
/// whichever decoding form the verifier uses (`hardened` or not).
pub proof fn lemma_multi_proof_complete(
    tree: MerkleTree,
    indexes: Seq<usize>,
    opened: Seq<Seq<u8>>,
    root: Seq<u8>,
    hardened: bool,
)
    requires
        tree.wf(),
        indexes.len() > 0,
        forall|t: int| 0 <= t < indexes.len() ==> #[trigger] indexes[t] < tree.leaves().len(),
        opened.len() == sorted_seq_of(indexes.to_set()).len(),
        forall|t: int|
            0 <= t < opened.len() ==> leaf_hash_spec(#[trigger] opened[t]) == tree.leaves()[sorted_seq_of(
                indexes.to_set(),
            )[t] as int],
    ensures
        ({
            let h = tree.spec_height();
            let ld = (h - 1) as nat;
            let on_path = on_path_spec(indexes.to_set(), ld);
            let coords = inner_coords(on_path, ld);
            &&& !leaf_copath_out_of_range(tree.leaves(), on_path, ld as int)
            &&& !inner_copath_out_of_range(tree.inner_nodes(), coords)
            &&& batch_shape_ok(h as usize, h as usize, sorted_seq_of(indexes.to_set()))
            &&& coset_check(
                h,
                sorted_seq_of(indexes.to_set()),
                leaf_copath_spec(tree.leaves(), on_path, ld as int),
                pack_spec(coset_entries(tree.inner_nodes(), coords)),
                opened,
                root,
                hardened,
            ) == (root == root_spec(tree.leaves(), h))
        }),
{
    let h = tree.spec_height();
    let ld = (h - 1) as nat;
    let leaves = tree.leaves();
    let inner = tree.inner_nodes();
    tree.lemma_wf();
    let iset = indexes.to_set();
    vstd::seq_lib::seq_to_set_is_finite(indexes);
    assert forall|i: usize| #[trigger] iset.contains(i) implies i < pow2(ld) by {
        let t = choose|t: int| 0 <= t < indexes.len() && indexes[t] == i;
    }
    assert(iset.contains(indexes[0]));
    let on_path = on_path_spec(iset, ld);
    lemma_sorted_seq_of_finite(iset);
    assert(sorted_seq_of(iset).to_set() =~= iset);
    let sq = sorted_seq_of(iset);
    assert(sq.no_duplicates()) by {
        assert forall|a: int, b: int| 0 <= a < sq.len() && 0 <= b < sq.len() && a != b implies sq[a] != sq[b] by {
            if a < b {
                assert(sq[a] < sq[b]);
            } else {
                assert(sq[b] < sq[a]);
            }
        }
    }
    assert forall|t: int| 0 <= t < sq.len() implies sq[t] < pow2(((h as usize) - 1) as nat) by {
        assert(sq.contains(sq[t]));
        assert(iset.contains(sq[t]));
    }
    assert(batch_shape_ok(h as usize, h as usize, sq));
    let leaf_level = lemma_leaf_level_complete(leaves, h, iset, opened);
    lemma_inner_entries_complete(tree, iset);
    let coords = inner_coords(on_path, ld);
    let entries = coset_entries(inner, coords);
    lemma_put_all_good(empty_levels(h), entries, entries.len(), leaves, h);
    let levels1 = put_all(empty_levels(h), entries, entries.len());
    if entries.len() > 0 {
        lemma_pack_decode_roundtrip(empty_levels(h), h as int, entries, hardened);
    } else {
        assert(pack_spec(entries) is None);
    }
    assert(decode_spec(empty_levels(h), h as int, pack_spec(entries), hardened) == Some(levels1));
    assert forall|j: int, y: usize|
        1 <= j < h - 1 && #[trigger] coset_set(on_path[j]).contains(y) implies levels1[j].contains_key(y) by {
        let u = choose|u: int| 0 <= u < entries.len() && #[trigger] entries[u].0 == j && entries[u].1 == y;
    }
    lemma_recompute_complete(leaves, h, iset, leaf_level, levels1, root);
}

/// The implicit placement, from `depth` on, of the inner copath digests of a generated proof
/// into good levels: it uses up exactly the digests, and leaves good levels holding the
/// copath of every inner depth.
proof fn lemma_implicit_levels_complete(
    tree: MerkleTree,
    iset: Set<usize>,
    levels: Seq<Map<usize, Seq<u8>>>,
    depth: nat,
) -> (placed: Seq<Map<usize, Seq<u8>>>)
    requires
        tree.wf(),
        iset.finite(),
        forall|i: usize| #[trigger] iset.contains(i) ==> i < tree.leaves().len(),
        1 <= depth <= tree.spec_height() - 1,
        levels.len() == tree.spec_height(),
        forall|j: nat| j < tree.spec_height() ==> #[trigger] level_good(levels[j as int], tree.leaves(), tree.spec_height(), j),
        forall|j: int, y: usize|
            1 <= j < depth && #[trigger] coset_set(on_path_spec(iset, (tree.spec_height() - 1) as nat)[j]).contains(y)
                ==> levels[j].contains_key(y),
    ensures
        ({
            let h = tree.spec_height();
            let ld = (h - 1) as nat;
            let on_path = on_path_spec(iset, ld);
            let digests = coset_entries(tree.inner_nodes(), inner_coords(on_path, ld)).map_values(
                |e: (usize, usize, Seq<u8>)| e.2,
            );
            &&& implicit_levels(levels, on_path, digests, depth, ld, inner_coords(on_path, depth).len())
                == Some((placed, digests.len()))
            &&& placed.len() == h
            &&& forall|j: nat| j < h ==> #[trigger] level_good(placed[j as int], tree.leaves(), h, j)
            &&& forall|j: int, y: usize| 1 <= j < ld && #[trigger] coset_set(on_path[j]).contains(y) ==> placed[j].contains_key(y)
        }),
    decreases tree.spec_height() - 1 - depth,
{
    let h = tree.spec_height();
    let ld = (h - 1) as nat;
    let leaves = tree.leaves();
    let inner = tree.inner_nodes();
    let on_path = on_path_spec(iset, ld);
    let coords = inner_coords(on_path, ld);
    let entries = coset_entries(inner, coords);
    let digests = entries.map_values(|e: (usize, usize, Seq<u8>)| e.2);
    let cursor = inner_coords(on_path, depth).len();
    tree.lemma_wf();
    lemma_inner_entries_complete(tree, iset);
    lemma_inner_coords_prefix(on_path, depth, ld);
    if depth >= ld {
        assert(implicit_levels(levels, on_path, digests, depth, ld, cursor) == Some((levels, cursor)));
        levels
    } else {
        lemma_coset_levels(iset, ld);
        let cs = coset_positions(on_path, depth as int);
        assert(cs == sorted_seq_of(coset_set(on_path[depth as int])));
        let next_coords = inner_coords(on_path, depth + 1);
        assert(next_coords == inner_coords(on_path, depth) + cs.map_values(|p: usize| (depth as usize, p)));
        lemma_inner_coords_prefix(on_path, depth + 1, ld);
        assert(cursor + cs.len() <= digests.len());
        let vals = digests.subrange(cursor as int, (cursor + cs.len()) as int);
        assert forall|t: int| 0 <= t < cs.len() implies #[trigger] vals[t] == node_spec(leaves, h, depth, cs[t] as nat) by {
            let u = cursor + t;
            assert(u < next_coords.len());
            assert(coords[u] == next_coords[u]);
            assert(next_coords[u] == (cs.map_values(|p: usize| (depth as usize, p)))[t]);
            assert(next_coords[u] == (depth as usize, cs[t]));
            assert(vals[t] == digests[u]);
            assert(digests[u] == entries[u].2);
            assert(entries[u] == (coords[u].0, coords[u].1, inner[level_index_spec(coords[u].0 as nat, coords[u].1 as nat) as int]));
            assert(entries[u].2 == node_spec(leaves, h, entries[u].0 as nat, entries[u].1 as nat));
        }
        assert(level_good(levels[depth as int], leaves, h, depth));
        lemma_insert_all_good(levels[depth as int], cs, vals, cs.len(), leaves, h, depth);
        let lv = levels.update(depth as int, insert_all(levels[depth as int], cs, vals, cs.len()));
        assert forall|j: nat| j < h implies #[trigger] level_good(lv[j as int], leaves, h, j) by {
            if j != depth {
                assert(level_good(levels[j as int], leaves, h, j));
            }
        }
        assert forall|j: int, y: usize| 1 <= j < depth + 1 && #[trigger] coset_set(on_path[j]).contains(y) implies lv[j].contains_key(y) by {
            if j == depth {
                assert(cs.contains(y));
                let t = choose|t: int| 0 <= t < cs.len() && cs[t] == y;
            } else {
                assert(levels[j].contains_key(y));
            }
        }
        assert(implicit_levels(levels, on_path, digests, depth, ld, cursor) == implicit_levels(
            lv,
            on_path,
            digests,
            depth + 1,
            ld,
            cursor + cs.len(),
        ));
        lemma_implicit_levels_complete(tree, iset, lv, depth + 1)
    }
}

/// Law: a coordinate-free batch proof generated from a well-formed tree for leaf indexes of
/// the tree verifies, with the opened leaves supplied in the proof's (sorted) index order,
/// against the tree's root and against no other root. Generation does not fail on such
/// indexes.
pub proof fn lemma_implicit_proof_complete(tree: MerkleTree, indexes: Seq<usize>, opened: Seq<Seq<u8>>, root: Seq<u8>)
    requires
        tree.wf(),
        indexes.len() > 0,
        forall|t: int| 0 <= t < indexes.len() ==> #[trigger] indexes[t] < tree.leaves().len(),
        opened.len() == sorted_seq_of(indexes.to_set()).len(),
        forall|t: int|
            0 <= t < opened.len() ==> leaf_hash_spec(#[trigger] opened[t]) == tree.leaves()[sorted_seq_of(
                indexes.to_set(),
            )[t] as int],
    ensures
        ({
            let h = tree.spec_height();
            let ld = (h - 1) as nat;
            let on_path = on_path_spec(indexes.to_set(), ld);
            let coords = inner_coords(on_path, ld);
            &&& !leaf_copath_out_of_range(tree.leaves(), on_path, ld as int)
            &&& !inner_copath_out_of_range(tree.inner_nodes(), coords)
            &&& implicit_check(
                h,
                sorted_seq_of(indexes.to_set()),
                leaf_copath_spec(tree.leaves(), on_path, ld as int),
                coset_entries(tree.inner_nodes(), coords).map_values(|e: (usize, usize, Seq<u8>)| e.2),
                opened,
                root,
            ) == (root == root_spec(tree.leaves(), h))
        }),
{
    let h = tree.spec_height();
    let ld = (h - 1) as nat;
    let leaves = tree.leaves();
    tree.lemma_wf();
    let iset = indexes.to_set();
    vstd::seq_lib::seq_to_set_is_finite(indexes);
    assert forall|i: usize| #[trigger] iset.contains(i) implies i < pow2(ld) by {
        let t = choose|t: int| 0 <= t < indexes.len() && indexes[t] == i;
    }
    assert(iset.contains(indexes[0]));
    lemma_sorted_seq_of_finite(iset);
    assert(sorted_seq_of(iset).to_set() =~= iset);
    let leaf_level = lemma_leaf_level_complete(leaves, h, iset, opened);
    lemma_inner_entries_complete(tree, iset);
    let empty = empty_levels(h);
    assert forall|j: nat| j < h implies #[trigger] level_good(empty[j as int], leaves, h, j) by {}
    assert(inner_coords(on_path_spec(iset, ld), 1).len() == 0);
    let placed = lemma_implicit_levels_complete(tree, iset, empty, 1);
    lemma_recompute_complete(leaves, h, iset, leaf_level, placed, root);
}

/// Law: for the same tree and leaf indexes of it, the coordinate-free proof and the coset
/// proof agree: the same height, the same sorted indexes, the same leaf copath, and the
/// coordinate-free inner copath is exactly the digest sequence that the coset proof packs
/// (empty when the coset proof packs no inner copath).
pub proof fn lemma_implicit_matches_coset(tree: MerkleTree, indexes: Seq<usize>)
    requires
        tree.wf(),
        forall|t: int| 0 <= t < indexes.len() ==> #[trigger] indexes[t] < tree.leaves().len(),
    ensures
        implicit_proof_spec(tree, indexes).0 == coset_proof_spec(tree, indexes).0,
        implicit_proof_spec(tree, indexes).1 == coset_proof_spec(tree, indexes).1,
        implicit_proof_spec(tree, indexes).2 == coset_proof_spec(tree, indexes).2,
        implicit_proof_spec(tree, indexes).3 == (match coset_proof_spec(tree, indexes).3 {
            None => Seq::<Seq<u8>>::empty(),
            Some(p) => p.3,
        }),
{
    let iset = indexes.to_set();
    vstd::seq_lib::seq_to_set_is_finite(indexes);
    assert forall|i: usize| #[trigger] iset.contains(i) implies i < tree.leaves().len() by {
        let t = choose|t: int| 0 <= t < indexes.len() && indexes[t] == i;
    }
    lemma_inner_entries_complete(tree, iset);
    let ld = (tree.spec_height() - 1) as nat;
    let entries = coset_entries(tree.inner_nodes(), inner_coords(on_path_spec(iset, ld), ld));
    let digests = entries.map_values(|e: (usize, usize, Seq<u8>)| e.2);
    if digests.len() == 0 {
        assert(digests =~= Seq::<Seq<u8>>::empty());
    }
}

/// Law: a batch proof of every leaf of a well-formed tree needs no copath at all: every
/// sibling of an on-path node is on a path itself, so both the leaf copath and the inner
/// copath are empty.
pub proof fn lemma_full_batch_has_no_copath(tree: MerkleTree, indexes: Seq<usize>)
    requires
        tree.wf(),
        forall|t: int| 0 <= t < indexes.len() ==> #[trigger] indexes[t] < tree.leaves().len(),
        forall|i: usize| i < tree.leaves().len() ==> #[trigger] indexes.contains(i),
    ensures
        ({
            let ld = (tree.spec_height() - 1) as nat;
            let on_path = on_path_spec(indexes.to_set(), ld);
            &&& leaf_copath_spec(tree.leaves(), on_path, ld as int).len() == 0
            &&& inner_coords(on_path, ld).len() == 0
        }),
{
    let h = tree.spec_height();
    let ld = (h - 1) as nat;
    tree.lemma_wf();
    let iset = indexes.to_set();
    vstd::seq_lib::seq_to_set_is_finite(indexes);
    assert forall|i: usize| #[trigger] iset.contains(i) implies i < pow2(ld) by {
        let t = choose|t: int| 0 <= t < indexes.len() && indexes[t] == i;
    }
    let on_path = on_path_spec(iset, ld);
    lemma_on_path_levels(iset, ld);
    lemma_coset_levels(iset, ld);
    assert forall|j: int| 1 <= j <= ld implies #[trigger] coset_positions(on_path, j).len() == 0 by {
        let k = (ld - j) as nat;
        lemma_pow2_adds(j as nat, k);
        lemma_pow2_pos(k);
        vstd::layout::unsigned_int_max_values();
        if ld < usize::BITS as nat {
            lemma_pow2_strictly_increases(ld, usize::BITS as nat);
        }
        assert forall|x: usize| x < pow2(j as nat) implies #[trigger] on_path[j].contains(x) by {
            let prod = pow2(k) * x;
            assert(prod < pow2(j as nat) * pow2(k)) by (nonlinear_arith)
                requires
                    x < pow2(j as nat),
                    pow2(k) > 0,
                    prod == pow2(k) * x,
            ;
            assert(prod < pow2(ld));
            let i = prod as usize;
            assert(i as nat == prod);
            assert(iset.contains(i)) by {
                assert(indexes.contains(i));
            }
            vstd::arithmetic::div_mod::lemma_div_multiples_vanish(x as int, pow2(k) as int);
            assert(ancestor(i as nat, k) == x);
            assert(on_path_set(iset, ld, j as nat).contains(x));
        }
        let cs = coset_positions(on_path, j);
        if cs.len() > 0 {
            let y = cs[0];
            assert(cs.contains(y));
            assert(coset_set(on_path[j]).contains(y));
            assert(y < pow2(j as nat) && !on_path[j].contains(y));
        }
    }
    assert(leaf_copath_spec(tree.leaves(), on_path, ld as int).len() == coset_positions(on_path, ld as int).len());
    lemma_inner_coords_empty(on_path, ld);
}

/// With no copath position at any depth from 1 to `n - 1`, there is no inner copath
/// coordinate.
proof fn lemma_inner_coords_empty(on_path: Seq<Seq<usize>>, n: nat)
    requires
        forall|j: int| 1 <= j < n ==> #[trigger] coset_positions(on_path, j).len() == 0,
    ensures
        inner_coords(on_path, n).len() == 0,
    decreases n,
{
    if n > 1 {
        lemma_inner_coords_empty(on_path, (n - 1) as nat);
        assert(coset_positions(on_path, n - 1).len() == 0);
    }
}

} // verus!
