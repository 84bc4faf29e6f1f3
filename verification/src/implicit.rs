//! Coordinate-free batch proofs: prover and verifier both derive the positions of the copath
//! nodes from the leaf indexes and the tree height, so only the digests travel, in canonical
//! depth-then-index order.
use vstd::prelude::*;
use vstd::arithmetic::power2::pow2;
use crate::batch::{on_path_spec, empty_levels, leaf_level_spec, recompute_check, lemma_on_path_facts};
use crate::copath::{CoPath, coset_set, insert_all, levels_view, map_view, empty_level_maps};
use crate::crh::{copy_bytes, bytes_eq};
use crate::error::Error;
use crate::index::{sorted_seq_of, sorted_unique, compute_on_path, level_index};
use crate::lut::HashLut;
use crate::model::digests_view;
use crate::path::sibling_pos;

verus! {

/// The levels after placing the implicit inner copath: for each depth from `depth` up to
/// (not including) `stop`, the copath positions of that depth, in increasing order, take the
/// next digests of `inner` from `cursor` on. Returns the levels and the cursor after them, or
/// `None` when the digests run out.
pub open spec fn implicit_levels(
    levels: Seq<Map<usize, Seq<u8>>>,
    on_path: Seq<Seq<usize>>,
    inner: Seq<Seq<u8>>,
    depth: nat,
    stop: nat,
    cursor: nat,
) -> Option<(Seq<Map<usize, Seq<u8>>>, nat)>
    decreases stop - depth,
{
    if depth >= stop {
        Some((levels, cursor))
    } else {
        let cs = sorted_seq_of(coset_set(on_path[depth as int]));
        if cursor + cs.len() > inner.len() {
            None
        } else {
            implicit_levels(
                levels.update(
                    depth as int,
                    insert_all(levels[depth as int], cs, inner.subrange(cursor as int, (cursor + cs.len()) as int), cs.len()),
                ),
                on_path,
                inner,
                depth + 1,
                stop,
                cursor + cs.len(),
            )
        }
    }
}

/// The verdict on a coordinate-free batch proof of height `tree_height >= 2` whose leaves were
/// supplied in `leaf_indexes` order: the leaf copath is accepted, the inner copath holds
/// exactly one digest per derived position, and the recomputed root equals `root`.
pub open spec fn implicit_check(
    tree_height: nat,
    leaf_indexes: Seq<usize>,
    leaf_copath: Seq<Seq<u8>>,
    inner: Seq<Seq<u8>>,
    leaves: Seq<Seq<u8>>,
    root: Seq<u8>,
) -> bool {
    let leaf_depth = (tree_height - 1) as nat;
    let on_path = on_path_spec(leaf_indexes.to_set(), leaf_depth);
    match leaf_level_spec(tree_height, leaf_indexes, leaf_copath, leaves) {
        None => false,
        Some(leaf_level) => match implicit_levels(empty_levels(tree_height), on_path, inner, 1, leaf_depth, 0) {
            None => false,
            Some(placed) => placed.1 == inner.len() && recompute_check(tree_height, on_path, leaf_level, placed.0, root),
        },
    }
}

/// A coordinate-free batch membership proof: the same copath as [`CoPath`], with the inner
/// digests listed in canonical order (depth 1 ascending, then depth 2, ...) and no
/// coordinates, which the verifier derives from `leaf_indexes` and `tree_height`.
pub struct ImplicitCoPath {
    /// Height of the tree the proof was generated from (at least 2).
    pub tree_height: usize,
    /// Leaf-level copath digests, in ascending sibling index order.
    pub leaf_copath: Vec<Vec<u8>>,
    /// Inner copath digests in canonical depth-then-index order.
    pub inner_copath: Vec<Vec<u8>>,
    /// The opened leaf indexes, in ascending order.
    pub leaf_indexes: Vec<usize>,
}

impl ImplicitCoPath {
    /// Checks what deserialization requires of a proof: a tree height of at least two.
    pub fn check(&self) -> (r: Result<(), Error>)
        ensures
            self.tree_height < 2 ==> r == Err::<(), Error>(Error::TreeHeightTooSmall),
            self.tree_height >= 2 ==> r == Ok::<(), Error>(()),
    {
        if self.tree_height < 2 {
            return Err(Error::TreeHeightTooSmall);
        }
        Ok(())
    }

    /// Verifies that `leaves`, supplied in `leaf_indexes` order, are the leaves at
    /// `leaf_indexes` of the tree of height `expected_tree_height` whose root is `root_hash`.
    /// The verifier derives the copath positions itself and consumes `inner_copath` in that
    /// order; too few or too many digests give `Ok(false)`. A height whose level-order
    /// positions do not fit a `usize` is refused with `Ok(false)`.
    pub fn verify(&self, root_hash: &Vec<u8>, expected_tree_height: usize, leaves: &[Vec<u8>]) -> (r: Result<bool, Error>)
        ensures
            self.leaf_indexes@.len() == 0 ==> r == Err::<bool, Error>(Error::EmptyBatch),
            self.leaf_indexes@.len() > 0 && self.tree_height < 2 ==> r == Err::<bool, Error>(
                Error::TreeHeightTooSmall,
            ),
            self.leaf_indexes@.len() > 0 && self.tree_height >= 2 && (self.tree_height
                != expected_tree_height || self.tree_height > usize::BITS) ==> r == Ok::<bool, Error>(false),
            self.leaf_indexes@.len() > 0 && 2 <= self.tree_height <= usize::BITS && self.tree_height
                == expected_tree_height && leaves@.len() != self.leaf_indexes@.len() ==> r == Err::<
                bool,
                Error,
            >(Error::IncorrectInputLength(self.leaf_indexes@.len() as usize)),
            self.leaf_indexes@.len() > 0 && 2 <= self.tree_height <= usize::BITS && self.tree_height
                == expected_tree_height && leaves@.len() == self.leaf_indexes@.len() ==> r == Ok::<
                bool,
                Error,
            >(
                implicit_check(
                    self.tree_height as nat,
                    self.leaf_indexes@,
                    digests_view(self.leaf_copath@),
                    digests_view(self.inner_copath@),
                    digests_view(leaves@),
                    root_hash@,
                ),
            ),
    {
        if self.leaf_indexes.len() == 0 {
            return Err(Error::EmptyBatch);
        }
        if self.tree_height < 2 {
            return Err(Error::TreeHeightTooSmall);
        }
        if self.tree_height != expected_tree_height {
            return Ok(false);
        }
        if self.tree_height > usize::BITS as usize {
            return Ok(false);
        }
        let d = self.tree_height;
        let leaf_depth = d - 1;
        let mut leaf_level = match CoPath::ingest_leaves(self.leaf_indexes.as_slice(), leaves) {
            Ok(m) => m,
            Err(e) => {
                return Err(e);
            },
        };
        let ghost lv = digests_view(leaves@);
        assert(leaves@.map_values(|v: Vec<u8>| v@) =~= lv);
        let index_set = sorted_unique(self.leaf_indexes.as_slice());
        let on_path = compute_on_path(leaf_depth, &index_set);
        let ghost ops = on_path@.map_values(|v: Vec<usize>| v@);
        proof {
            assert forall|j: int| 0 <= j < on_path@.len() implies #[trigger] on_path@[j]@ == ops[j] by {}
            lemma_on_path_facts(self.leaf_indexes@, index_set@, ops, leaf_depth as nat);
        }
        assert(ops[leaf_depth as int] == on_path@[leaf_depth as int]@);
        let expected_leaf_coset = CoPath::expected_leaf_coset(leaf_depth, &on_path);
        let ghost copath_view = digests_view(self.leaf_copath@);
        assert(self.leaf_copath@.map_values(|v: Vec<u8>| v@) =~= copath_view);
        if !CoPath::validate_leaf_copath(expected_leaf_coset.as_slice(), self.leaf_copath.as_slice(), &mut leaf_level) {
            assert(leaf_level_spec(d as nat, self.leaf_indexes@, copath_view, lv) is None);
            return Ok(false);
        }
        let ghost leaf_map = map_view(leaf_level@);
        assert(leaf_level_spec(d as nat, self.leaf_indexes@, copath_view, lv) == Some(leaf_map));
        let mut inner_levels = empty_level_maps(d);
        let mut hash_lut = HashLut::new();
        let ghost inner_v = digests_view(self.inner_copath@);
        let ghost target = implicit_levels(empty_levels(d as nat), ops, inner_v, 1, leaf_depth as nat, 0);
        let mut cursor: usize = 0;
        let mut depth: usize = 1;
        while depth < leaf_depth
            invariant
                ops == on_path_spec(self.leaf_indexes@.to_set(), leaf_depth as nat),
                leaf_level_spec(d as nat, self.leaf_indexes@, digests_view(self.leaf_copath@), digests_view(leaves@)) is Some,
                self.leaf_indexes@.len() > 0,
                self.tree_height == d,
                d == expected_tree_height,
                leaves@.len() == self.leaf_indexes@.len(),
                inner_v == digests_view(self.inner_copath@),
                ops == on_path@.map_values(|v: Vec<usize>| v@),
                ops.len() == leaf_depth + 1,
                1 <= depth <= leaf_depth,
                leaf_depth + 1 == d,
                d <= usize::BITS,
                inner_levels@.len() == d,
                cursor <= inner_v.len(),
                target == implicit_levels(empty_levels(d as nat), ops, inner_v, 1, leaf_depth as nat, 0),
                implicit_levels(levels_view(inner_levels@), ops, inner_v, depth as nat, leaf_depth as nat, cursor as nat)
                    == target,
                forall|j: int| 0 <= j < on_path@.len() ==> #[trigger] on_path@[j]@ == ops[j],
                forall|j: int| 0 <= j <= leaf_depth ==> #[trigger] crate::index::strictly_increasing(ops[j]),
                forall|j: int, t: int|
                    0 <= j < leaf_depth && 0 <= t < ops[j].len() ==> 2 * #[trigger] ops[j][t] + 1
                        <= usize::MAX && pow2(j as nat) + ops[j][t] <= usize::MAX,
            decreases leaf_depth - depth,
        {
            let positions = CoPath::expected_leaf_coset(depth, &on_path);
            let ghost pv = positions@;
            let ghost lv0 = levels_view(inner_levels@);
            let ghost c0 = cursor as nat;
            assert(pv == sorted_seq_of(coset_set(ops[depth as int])));
            let mut t: usize = 0;
            while t < positions.len()
                invariant
                    ops == on_path_spec(self.leaf_indexes@.to_set(), leaf_depth as nat),
                    leaf_level_spec(d as nat, self.leaf_indexes@, digests_view(self.leaf_copath@), digests_view(leaves@)) is Some,
                    self.leaf_indexes@.len() > 0,
                    self.tree_height == d,
                    d == expected_tree_height,
                    leaves@.len() == self.leaf_indexes@.len(),
                    pv == positions@,
                    inner_v == digests_view(self.inner_copath@),
                    pv == sorted_seq_of(coset_set(ops[depth as int])),
                    forall|x: usize| #[trigger] pv.contains(x) <==> coset_set(ops[depth as int]).contains(x),
                    1 <= depth < leaf_depth,
                    leaf_depth + 1 == d,
                    d <= usize::BITS,
                    ops.len() == leaf_depth + 1,
                    inner_levels@.len() == d,
                    lv0.len() == d,
                    t <= pv.len(),
                    cursor == c0 + t,
                    cursor <= inner_v.len(),
                    implicit_levels(lv0, ops, inner_v, depth as nat, leaf_depth as nat, c0) == target,
                    target == implicit_levels(empty_levels(d as nat), ops, inner_v, 1, leaf_depth as nat, 0),
                    c0 + pv.len() <= inner_v.len() ==> levels_view(inner_levels@) == lv0.update(
                        depth as int,
                        insert_all(lv0[depth as int], pv, inner_v.subrange(c0 as int, (c0 + pv.len()) as int), t as nat),
                    ),
                    forall|j: int, u: int|
                        0 <= j < leaf_depth && 0 <= u < ops[j].len() ==> 2 * #[trigger] ops[j][u] + 1
                            <= usize::MAX && pow2(j as nat) + ops[j][u] <= usize::MAX,
                decreases pv.len() - t,
            {
                if cursor >= self.inner_copath.len() {
                    proof {
                        assert(c0 + pv.len() > inner_v.len());
                    }
                    return Ok(false);
                }
                let digest = &self.inner_copath[cursor];
                let sibling_idx = positions[t];
                proof {
                    assert(pv.contains(sibling_idx));
                    let u = choose|u: int| 0 <= u < ops[depth as int].len() && sibling_idx == sibling_pos(ops[depth as int][u] as nat);
                    assert(pow2(depth as nat) + ops[depth as int][u] <= usize::MAX);
                }
                let heap_idx = level_index(depth, sibling_idx);
                hash_lut.insert_if_absent(heap_idx, copy_bytes(digest.as_slice()));
                let ghost before = inner_levels@;
                assert(levels_view(before)[depth as int] == map_view(before[depth as int]@));
                inner_levels[depth].insert(sibling_idx, copy_bytes(digest.as_slice()));
                proof {
                    assert(inner_levels@ == before.update(depth as int, inner_levels@[depth as int]));
                    assert(map_view(inner_levels@[depth as int]@) =~= map_view(before[depth as int]@).insert(
                        sibling_idx,
                        digest@,
                    ));
                    if c0 + pv.len() <= inner_v.len() {
                        let vals = inner_v.subrange(c0 as int, (c0 + pv.len()) as int);
                        assert(vals[t as int] == inner_v[cursor as int]);
                        assert(inner_v[cursor as int] == digest@);
                        let tg = lv0.update(depth as int, insert_all(lv0[depth as int], pv, vals, (t + 1) as nat));
                        assert forall|i: int| 0 <= i < inner_levels@.len() implies #[trigger] levels_view(inner_levels@)[i] == tg[i] by {
                            assert(levels_view(inner_levels@)[i] == map_view(inner_levels@[i]@));
                            assert(levels_view(before)[i] == map_view(before[i]@));
                        }
                        assert(levels_view(inner_levels@) =~= tg);
                    }
                }
                cursor = cursor + 1;
                t = t + 1;
            }
            proof {
                assert(c0 + pv.len() <= inner_v.len());
            }
            depth = depth + 1;
        }
        if cursor != self.inner_copath.len() {
            return Ok(false);
        }
        assert(ops[leaf_depth - 1] == on_path@[leaf_depth - 1]@);
        match CoPath::recompute_bottom_parents(leaf_depth, &on_path, &leaf_level, &mut hash_lut, &mut inner_levels) {
            Ok(true) => {},
            Ok(false) => {
                return Ok(false);
            },
            Err(e) => {
                return Err(e);
            },
        }
        match CoPath::recompute_inner_layers(leaf_depth, &on_path, &mut hash_lut, &mut inner_levels) {
            Ok(true) => {},
            Ok(false) => {
                return Ok(false);
            },
            Err(e) => {
                return Err(e);
            },
        }
        let ghost levels3 = levels_view(inner_levels@);
        assert(levels3[0] == map_view(inner_levels@[0]@));
        match inner_levels[0].get(&0) {
            Some(h) => Ok(bytes_eq(h.as_slice(), root_hash.as_slice())),
            None => Ok(false),
        }
    }
}

} // verus!
