//! What the batch checks refuse: a batch proof verifies against at most one root, only with
//! a leaf copath of one digest per expected sibling position, and a packed inner copath
//! decodes only when its delta stream is consumed to the last byte.
use vstd::prelude::*;
use crate::batch::{recompute_check, coset_check, leaf_level_spec, on_path_spec, empty_levels};
use crate::copath::{coset_set, parents_fold, inner_layers_spec, children_present};
use crate::encoding::{varint_ends_at, varint_decoded, varint_sum, lemma_varint_end_unique};
use crate::implicit::{implicit_check, implicit_levels};
use crate::index::sorted_seq_of;
use crate::packed::{decode_prefix, decode_spec, next_coord};

verus! {

/// The recomputation accepts at most one root for the same leaves and copath.
proof fn lemma_recompute_check_one_root(
    tree_height: nat,
    on_path: Seq<Seq<usize>>,
    leaf_level: Map<usize, Seq<u8>>,
    levels: Seq<Map<usize, Seq<u8>>>,
    root1: Seq<u8>,
    root2: Seq<u8>,
)
    requires
        recompute_check(tree_height, on_path, leaf_level, levels, root1),
        recompute_check(tree_height, on_path, leaf_level, levels, root2),
    ensures
        root1 == root2,
{
}

/// Law: a coset batch proof, with its leaves, verifies against at most one root. Whatever
/// the proof lacks or holds wrongly (a missing copath digest, a leaf copath of the wrong
/// length), it is not accepted whatever the root: two roots it verifies against are equal.
pub proof fn lemma_coset_check_one_root(
    tree_height: nat,
    leaf_indexes: Seq<usize>,
    leaf_copath: Seq<Seq<u8>>,
    inner: Option<(usize, usize, Seq<u8>, Seq<Seq<u8>>)>,
    leaves: Seq<Seq<u8>>,
    root1: Seq<u8>,
    root2: Seq<u8>,
    hardened: bool,
)
    requires
        coset_check(tree_height, leaf_indexes, leaf_copath, inner, leaves, root1, hardened),
        coset_check(tree_height, leaf_indexes, leaf_copath, inner, leaves, root2, hardened),
    ensures
        root1 == root2,
{
    let on_path = on_path_spec(leaf_indexes.to_set(), (tree_height - 1) as nat);
    let leaf_level = leaf_level_spec(tree_height, leaf_indexes, leaf_copath, leaves).unwrap();
    let levels = decode_spec(empty_levels(tree_height), tree_height as int, inner, hardened).unwrap();
    lemma_recompute_check_one_root(tree_height, on_path, leaf_level, levels, root1, root2);
}

/// Law: a coordinate-free batch proof, with its leaves, verifies against at most one root:
/// two roots it verifies against are equal.
pub proof fn lemma_implicit_check_one_root(
    tree_height: nat,
    leaf_indexes: Seq<usize>,
    leaf_copath: Seq<Seq<u8>>,
    inner: Seq<Seq<u8>>,
    leaves: Seq<Seq<u8>>,
    root1: Seq<u8>,
    root2: Seq<u8>,
)
    requires
        implicit_check(tree_height, leaf_indexes, leaf_copath, inner, leaves, root1),
        implicit_check(tree_height, leaf_indexes, leaf_copath, inner, leaves, root2),
    ensures
        root1 == root2,
{
}

/// Law: a coset batch proof verifies only with a leaf copath of exactly one digest per
/// expected leaf-level sibling position (the siblings of the on-path leaves that are not on
/// a path themselves).
pub proof fn lemma_coset_check_leaf_copath_length(
    tree_height: nat,
    leaf_indexes: Seq<usize>,
    leaf_copath: Seq<Seq<u8>>,
    inner: Option<(usize, usize, Seq<u8>, Seq<Seq<u8>>)>,
    leaves: Seq<Seq<u8>>,
    root: Seq<u8>,
    hardened: bool,
)
    requires
        coset_check(tree_height, leaf_indexes, leaf_copath, inner, leaves, root, hardened),
    ensures
        leaf_copath.len() == sorted_seq_of(
            coset_set(on_path_spec(leaf_indexes.to_set(), (tree_height - 1) as nat)[((tree_height - 1) as nat) as int]),
        ).len(),
{
}

/// Law: a coordinate-free batch proof verifies only with a leaf copath of exactly one digest
/// per derived leaf-level sibling position.
pub proof fn lemma_implicit_check_leaf_copath_length(
    tree_height: nat,
    leaf_indexes: Seq<usize>,
    leaf_copath: Seq<Seq<u8>>,
    inner: Seq<Seq<u8>>,
    leaves: Seq<Seq<u8>>,
    root: Seq<u8>,
)
    requires
        implicit_check(tree_height, leaf_indexes, leaf_copath, inner, leaves, root),
    ensures
        leaf_copath.len() == sorted_seq_of(
            coset_set(on_path_spec(leaf_indexes.to_set(), (tree_height - 1) as nat)[((tree_height - 1) as nat) as int]),
        ).len(),
{
}

/// The LEB128 sum over bytes that lie in `bytes` is the same in any extension of `bytes`.
proof fn lemma_varint_sum_extend(bytes: Seq<u8>, extra: Seq<u8>, pos: int, n: nat)
    requires
        0 <= pos,
        pos + n <= bytes.len(),
    ensures
        varint_sum(bytes + extra, pos, n) == varint_sum(bytes, pos, n),
    decreases n,
{
    if n > 0 {
        lemma_varint_sum_extend(bytes, extra, pos, (n - 1) as nat);
        assert((bytes + extra)[pos + n - 1] == bytes[pos + n - 1]);
    }
}

/// A number that ends within `bytes` reads the same in any extension of `bytes`.
proof fn lemma_varint_extend(bytes: Seq<u8>, extra: Seq<u8>, pos: int, k: int)
    requires
        0 <= pos,
        varint_ends_at(bytes, pos, k),
    ensures
        varint_ends_at(bytes + extra, pos, k),
        (choose|k2: int| varint_ends_at(bytes + extra, pos, k2)) == k,
        varint_decoded(bytes + extra, pos, k) == varint_decoded(bytes, pos, k),
{
    let b2 = bytes + extra;
    assert forall|j: int| pos <= j <= k implies b2[j] == bytes[j] by {}
    assert(varint_ends_at(b2, pos, k));
    lemma_varint_end_unique(b2, pos, k);
    lemma_varint_sum_extend(bytes, extra, pos, (k - pos + 1) as nat);
}

/// The next coordinate read within `deltas` is read the same in any extension of it, and
/// the cursor after it stays within `deltas`.
proof fn lemma_next_coord_extend(deltas: Seq<u8>, extra: Seq<u8>, cursor: int, depth: int, index: int)
    requires
        0 <= cursor,
        next_coord(deltas, cursor, depth, index) is Some,
    ensures
        next_coord(deltas + extra, cursor, depth, index) == next_coord(deltas, cursor, depth, index),
        next_coord(deltas, cursor, depth, index).unwrap().0 <= deltas.len(),
{
    let k1 = choose|k: int| varint_ends_at(deltas, cursor, k);
    lemma_varint_extend(deltas, extra, cursor, k1);
    let c1 = k1 + 1;
    let k2 = choose|k: int| varint_ends_at(deltas, c1, k);
    lemma_varint_extend(deltas, extra, c1, k2);
}

/// Decoding the first `m` entries reads the same in any extension of the delta stream, and
/// its cursor stays within the stream.
proof fn lemma_decode_prefix_extend(
    levels: Seq<Map<usize, Seq<u8>>>,
    tree_height: int,
    deltas: Seq<u8>,
    extra: Seq<u8>,
    digests: Seq<Seq<u8>>,
    start_depth: int,
    start_index: int,
    m: nat,
    hardened: bool,
)
    requires
        decode_prefix(levels, tree_height, deltas, digests, start_depth, start_index, m, hardened) is Some,
    ensures
        decode_prefix(levels, tree_height, deltas + extra, digests, start_depth, start_index, m, hardened)
            == decode_prefix(levels, tree_height, deltas, digests, start_depth, start_index, m, hardened),
        0 <= decode_prefix(levels, tree_height, deltas, digests, start_depth, start_index, m, hardened).unwrap().1
            <= deltas.len(),
    decreases m,
{
    if m > 1 {
        lemma_decode_prefix_extend(levels, tree_height, deltas, extra, digests, start_depth, start_index, (m - 1) as nat, hardened);
        let st = decode_prefix(levels, tree_height, deltas, digests, start_depth, start_index, (m - 1) as nat, hardened).unwrap();
        lemma_next_coord_extend(deltas, extra, st.1, st.2, st.3);
    }
}

/// Law: decoding a packed inner copath consumes its whole delta stream. A packing that
/// decodes no longer decodes once any bytes are appended to its deltas; in particular a
/// packing without digests decodes only with no delta bytes at all.
pub proof fn lemma_decode_consumes_every_delta_byte(
    levels: Seq<Map<usize, Seq<u8>>>,
    tree_height: int,
    packed: (usize, usize, Seq<u8>, Seq<Seq<u8>>),
    extra: Seq<u8>,
    hardened: bool,
)
    requires
        decode_spec(levels, tree_height, Some(packed), hardened) is Some,
        extra.len() > 0,
    ensures
        decode_spec(levels, tree_height, Some((packed.0, packed.1, packed.2 + extra, packed.3)), hardened) is None,
        packed.3.len() == 0 ==> packed.2.len() == 0,
{
    let deltas = packed.2;
    let digests = packed.3;
    if digests.len() > 0 {
        lemma_decode_prefix_extend(
            levels,
            tree_height,
            deltas,
            extra,
            digests,
            packed.0 as int,
            packed.1 as int,
            digests.len(),
            hardened,
        );
    }
}

/// Whether position `x` of a level is known: it holds a digest in `m`, or it is on a path
/// (`on_level`), so that it gets recomputed.
pub open spec fn position_known(m: Map<usize, Seq<u8>>, on_level: Seq<usize>, x: usize) -> bool {
    m.contains_key(x) || on_level.contains(x)
}

/// Whether both children of the `t`-th on-path parent of depth `e - 1` are known at depth
/// `e`: held in `levels` or on a path themselves.
pub open spec fn children_known_at(levels: Seq<Map<usize, Seq<u8>>>, on_path: Seq<Seq<usize>>, e: int, t: int) -> bool {
    &&& position_known(levels[e], on_path[e], (2 * on_path[e - 1][t]) as usize)
    &&& position_known(levels[e], on_path[e], (2 * on_path[e - 1][t] + 1) as usize)
}

/// Whether, at every depth from 1 to `top`, both children of each on-path parent are known
/// at the start of the recomputation.
pub open spec fn inner_children_known(levels: Seq<Map<usize, Seq<u8>>>, on_path: Seq<Seq<usize>>, top: nat) -> bool {
    forall|e: int, t: int|
        1 <= e <= top && 0 <= t < on_path[e - 1].len() ==> #[trigger] children_known_at(levels, on_path, e, t)
}

/// The parents recorded by [`parents_fold`] are the first `n` of `parents`: no other key appears.
proof fn lemma_parents_fold_keys(
    m: Map<usize, Seq<u8>>,
    children: Map<usize, Seq<u8>>,
    parents: Seq<usize>,
    n: nat,
    leaf: bool,
)
    requires
        n <= parents.len(),
    ensures
        forall|x: usize| #[trigger] parents_fold(m, children, parents, n, leaf).contains_key(x) ==> m.contains_key(x)
            || parents.contains(x),
    decreases n,
{
    if n > 0 {
        lemma_parents_fold_keys(m, children, parents, (n - 1) as nat, leaf);
        assert forall|x: usize| #[trigger] parents_fold(m, children, parents, n, leaf).contains_key(x) implies m.contains_key(x)
            || parents.contains(x) by {
            if x == parents[n - 1] {
                assert(parents.contains(x));
            } else {
                assert(parents_fold(m, children, parents, (n - 1) as nat, leaf).contains_key(x));
            }
        }
    }
}

/// A recomputation that completes from `levels` (down from depth `top`) found, at each
/// depth, both children of every on-path parent held in `levels` or on a path.
proof fn lemma_inner_layers_children(levels: Seq<Map<usize, Seq<u8>>>, on_path: Seq<Seq<usize>>, top: nat)
    requires
        inner_layers_spec(levels, on_path, top) is Some,
        top < levels.len(),
        top < on_path.len(),
    ensures
        inner_children_known(levels, on_path, top),
    decreases top,
{
    if top > 0 {
        let ps = on_path[top - 1];
        let next = levels.update(top - 1, parents_fold(levels[top - 1], levels[top as int], ps, ps.len(), false));
        assert(children_present(levels[top as int], ps));
        lemma_inner_layers_children(next, on_path, (top - 1) as nat);
        lemma_parents_fold_keys(levels[top - 1], levels[top as int], ps, ps.len(), false);
        assert forall|e: int, t: int|
            1 <= e <= top && 0 <= t < on_path[e - 1].len() implies #[trigger] children_known_at(levels, on_path, e, t) by {
            if e < top {
                assert(children_known_at(next, on_path, e, t));
                if e < top - 1 {
                    assert(next[e] == levels[e]);
                } else {
                    assert(next[e] == parents_fold(levels[top - 1], levels[top as int], ps, ps.len(), false));
                }
            } else {
                assert(levels[top as int].contains_key((2 * ps[t]) as usize));
                assert(levels[top as int].contains_key((2 * ps[t] + 1) as usize));
            }
        }
    }
}

/// Law: a coset batch proof verifies only when its copaths supply every digest that the
/// recomputation needs: at every inner level, each child of an on-path parent is either on a
/// path itself or among the decoded inner copath digests. A proof that lacks such a digest
/// verifies against no root.
pub proof fn lemma_coset_check_needs_every_inner_digest(
    tree_height: nat,
    leaf_indexes: Seq<usize>,
    leaf_copath: Seq<Seq<u8>>,
    inner: Option<(usize, usize, Seq<u8>, Seq<Seq<u8>>)>,
    leaves: Seq<Seq<u8>>,
    root: Seq<u8>,
    hardened: bool,
)
    requires
        2 <= tree_height,
        coset_check(tree_height, leaf_indexes, leaf_copath, inner, leaves, root, hardened),
    ensures
        decode_spec(empty_levels(tree_height), tree_height as int, inner, hardened) is Some,
        inner_children_known(
            decode_spec(empty_levels(tree_height), tree_height as int, inner, hardened).unwrap(),
            on_path_spec(leaf_indexes.to_set(), (tree_height - 1) as nat),
            (tree_height - 2) as nat,
        ),
{
    let ld = (tree_height - 1) as nat;
    let on_path = on_path_spec(leaf_indexes.to_set(), ld);
    let leaf_level = leaf_level_spec(tree_height, leaf_indexes, leaf_copath, leaves).unwrap();
    let levels = decode_spec(empty_levels(tree_height), tree_height as int, inner, hardened).unwrap();
    if let Some(p) = inner {
        if p.3.len() > 0 {
            lemma_decode_prefix_len(empty_levels(tree_height), tree_height as int, p.2, p.3, p.0 as int, p.1 as int, p.3.len(), hardened);
        }
    }
    assert(levels.len() == tree_height);
    lemma_recompute_children(tree_height, on_path, leaf_level, levels, root);
}

/// A recomputation that accepts found every child of an on-path parent above the bottom
/// inner level held in `levels` or on a path.
proof fn lemma_recompute_children(
    tree_height: nat,
    on_path: Seq<Seq<usize>>,
    leaf_level: Map<usize, Seq<u8>>,
    levels: Seq<Map<usize, Seq<u8>>>,
    root: Seq<u8>,
)
    requires
        2 <= tree_height,
        on_path.len() == tree_height,
        levels.len() == tree_height,
        recompute_check(tree_height, on_path, leaf_level, levels, root),
    ensures
        inner_children_known(levels, on_path, (tree_height - 2) as nat),
{
    let ld = (tree_height - 1) as nat;
    let bottom = on_path[ld - 1];
    let levels2 = levels.update(ld - 1, parents_fold(levels[ld - 1], leaf_level, bottom, bottom.len(), true));
    lemma_inner_layers_children(levels2, on_path, (ld - 1) as nat);
    lemma_parents_fold_keys(levels[ld - 1], leaf_level, bottom, bottom.len(), true);
    let top = (tree_height - 2) as nat;
    assert forall|e: int, t: int|
        1 <= e <= top && 0 <= t < on_path[e - 1].len() implies #[trigger] children_known_at(levels, on_path, e, t) by {
        assert(children_known_at(levels2, on_path, e, t));
        if e < ld - 1 {
            assert(levels2[e] == levels[e]);
        }
    }
}

/// Decoding keeps the number of levels.
proof fn lemma_decode_prefix_len(
    levels: Seq<Map<usize, Seq<u8>>>,
    tree_height: int,
    deltas: Seq<u8>,
    digests: Seq<Seq<u8>>,
    start_depth: int,
    start_index: int,
    m: nat,
    hardened: bool,
)
    requires
        tree_height <= levels.len(),
        decode_prefix(levels, tree_height, deltas, digests, start_depth, start_index, m, hardened) is Some,
    ensures
        decode_prefix(levels, tree_height, deltas, digests, start_depth, start_index, m, hardened).unwrap().0.len()
            == levels.len(),
    decreases m,
{
    if m > 1 {
        lemma_decode_prefix_len(levels, tree_height, deltas, digests, start_depth, start_index, (m - 1) as nat, hardened);
    }
}

/// Placing the coordinate-free inner copath keeps the number of levels.
proof fn lemma_implicit_levels_len(
    levels: Seq<Map<usize, Seq<u8>>>,
    on_path: Seq<Seq<usize>>,
    inner: Seq<Seq<u8>>,
    depth: nat,
    stop: nat,
    cursor: nat,
)
    requires
        stop <= levels.len(),
        implicit_levels(levels, on_path, inner, depth, stop, cursor) is Some,
    ensures
        implicit_levels(levels, on_path, inner, depth, stop, cursor).unwrap().0.len() == levels.len(),
    decreases stop - depth,
{
    if depth < stop {
        let cs = sorted_seq_of(coset_set(on_path[depth as int]));
        let next = levels.update(
            depth as int,
            crate::copath::insert_all(levels[depth as int], cs, inner.subrange(cursor as int, (cursor + cs.len()) as int), cs.len()),
        );
        lemma_implicit_levels_len(next, on_path, inner, depth + 1, stop, cursor + cs.len());
    }
}

/// Law: a coordinate-free batch proof verifies only when its copaths supply every digest
/// that the recomputation needs: at every inner level, each child of an on-path parent is
/// either on a path itself or placed from the inner copath. A proof that lacks such a digest
/// verifies against no root.
pub proof fn lemma_implicit_check_needs_every_inner_digest(
    tree_height: nat,
    leaf_indexes: Seq<usize>,
    leaf_copath: Seq<Seq<u8>>,
    inner: Seq<Seq<u8>>,
    leaves: Seq<Seq<u8>>,
    root: Seq<u8>,
)
    requires
        2 <= tree_height,
        implicit_check(tree_height, leaf_indexes, leaf_copath, inner, leaves, root),
    ensures
        implicit_levels(
            empty_levels(tree_height),
            on_path_spec(leaf_indexes.to_set(), (tree_height - 1) as nat),
            inner,
            1,
            (tree_height - 1) as nat,
            0,
        ) is Some,
        inner_children_known(
            implicit_levels(
                empty_levels(tree_height),
                on_path_spec(leaf_indexes.to_set(), (tree_height - 1) as nat),
                inner,
                1,
                (tree_height - 1) as nat,
                0,
            ).unwrap().0,
            on_path_spec(leaf_indexes.to_set(), (tree_height - 1) as nat),
            (tree_height - 2) as nat,
        ),
{
    let ld = (tree_height - 1) as nat;
    let on_path = on_path_spec(leaf_indexes.to_set(), ld);
    let leaf_level = leaf_level_spec(tree_height, leaf_indexes, leaf_copath, leaves).unwrap();
    let placed = implicit_levels(empty_levels(tree_height), on_path, inner, 1, ld, 0).unwrap();
    lemma_implicit_levels_len(empty_levels(tree_height), on_path, inner, 1, ld, 0);
    lemma_recompute_children(tree_height, on_path, leaf_level, placed.0, root);
}

} // verus!
