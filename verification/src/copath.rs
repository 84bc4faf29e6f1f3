use vstd::prelude::*;
use std::collections::BTreeMap;
use crate::crh::{leaf_hash_spec, leaf_parent_spec, compress_spec, MerkleByteDigest, copy_bytes, bytes_eq};
use crate::converter::ByteDigestConverter;
use crate::error::Error;
use crate::index::{strictly_increasing, sorted_seq_of, lemma_sorted_seq_of, contains_sorted, level_index, level_index_spec};
use crate::path::{sibling_pos, index_bits};
use crate::lut::{HashLut, lut_contents};
use vstd::arithmetic::power2::pow2;
use crate::batch::{coset_check, leaf_level_spec, empty_levels, lemma_on_path_facts};
use crate::packed::packed_view;
use crate::index::{sorted_unique, compute_on_path, all_below_pow2, has_duplicates};
use crate::model::digests_view;

verus! {

/// The byte views of a map of digests.
pub open spec fn map_view(m: Map<usize, Vec<u8>>) -> Map<usize, Seq<u8>> {
    m.map_values(|v: Vec<u8>| v@)
}

/// The byte views of a sequence of digest maps.
pub open spec fn levels_view(levels: Seq<BTreeMap<usize, Vec<u8>>>) -> Seq<Map<usize, Seq<u8>>> {
    levels.map_values(|m: BTreeMap<usize, Vec<u8>>| map_view(m@))
}

/// Leaf digests keyed by index: the digest of `leaves[t]` under `indexes[t]`, for the first
/// `n` positions, a later position overriding an earlier one with the same index.
pub open spec fn ingested(indexes: Seq<usize>, leaves: Seq<Seq<u8>>, n: nat) -> Map<usize, Seq<u8>>
    decreases n,
{
    if n == 0 {
        Map::empty()
    } else {
        ingested(indexes, leaves, (n - 1) as nat).insert(
            indexes[n - 1],
            leaf_hash_spec(leaves[n - 1]),
        )
    }
}

/// `m` with `keys[t] -> vals[t]` inserted for the first `n` positions, in order.
pub open spec fn insert_all(
    m: Map<usize, Seq<u8>>,
    keys: Seq<usize>,
    vals: Seq<Seq<u8>>,
    n: nat,
) -> Map<usize, Seq<u8>>
    decreases n,
{
    if n == 0 {
        m
    } else {
        insert_all(m, keys, vals, (n - 1) as nat).insert(keys[n - 1], vals[n - 1])
    }
}

/// The siblings of the positions of `level` that are not themselves in `level`.
pub open spec fn coset_set(level: Seq<usize>) -> Set<usize> {
    Set::new(
        |x: usize|
            (exists|t: int| 0 <= t < level.len() && x == sibling_pos(level[t] as nat))
                && !level.contains(x),
    )
}

/// Whether every provided digest agrees with the digest already known at its position.
pub open spec fn copath_consistent(
    m: Map<usize, Seq<u8>>,
    keys: Seq<usize>,
    vals: Seq<Seq<u8>>,
) -> bool {
    forall|t: int| 0 <= t < keys.len() ==> !m.contains_key(keys[t]) || m[keys[t]] == vals[t]
}

/// Whether the digest provided for `keys[t]` differs from one already known there.
pub open spec fn conflicts_at(m: Map<usize, Seq<u8>>, keys: Seq<usize>, vals: Seq<Seq<u8>>, t: int) -> bool {
    m.contains_key(keys[t]) && m[keys[t]] != vals[t]
}

/// The parents of `parents`, each the hash of its two children in `children`, inserted
/// into `m` for the first `n` positions; `leaf` selects the leaf-pair hash, otherwise the
/// inner compression.
pub open spec fn parents_fold(
    m: Map<usize, Seq<u8>>,
    children: Map<usize, Seq<u8>>,
    parents: Seq<usize>,
    n: nat,
    leaf: bool,
) -> Map<usize, Seq<u8>>
    decreases n,
{
    if n == 0 {
        m
    } else {
        let p = parents[n - 1] as nat;
        let l = children[(2 * p) as usize];
        let r = children[(2 * p + 1) as usize];
        parents_fold(m, children, parents, (n - 1) as nat, leaf).insert(
            parents[n - 1],
            if leaf {
                leaf_parent_spec(l, r)
            } else {
                compress_spec(l, r)
            },
        )
    }
}

/// The lookup table after recording, for the first `n` of `parents` (positions on level
/// `depth`), the parent digest computed as [`parents_fold`] does, at the parent's
/// level-order index.
pub open spec fn lut_fold(
    lut: Map<usize, Seq<u8>>,
    children: Map<usize, Seq<u8>>,
    parents: Seq<usize>,
    n: nat,
    leaf: bool,
    depth: nat,
) -> Map<usize, Seq<u8>>
    decreases n,
{
    if n == 0 {
        lut
    } else {
        let p = parents[n - 1] as nat;
        let l = children[(2 * p) as usize];
        let r = children[(2 * p + 1) as usize];
        lut_fold(lut, children, parents, (n - 1) as nat, leaf, depth).insert(
            level_index_spec(depth, p) as usize,
            if leaf {
                leaf_parent_spec(l, r)
            } else {
                compress_spec(l, r)
            },
        )
    }
}

/// The lookup table after recomputing the levels above `depth` as [`inner_layers_spec`]
/// does, each recomputed node recorded at its level-order index.
pub open spec fn inner_layers_lut(
    levels: Seq<Map<usize, Seq<u8>>>,
    on_path: Seq<Seq<usize>>,
    depth: nat,
    lut: Map<usize, Seq<u8>>,
) -> Map<usize, Seq<u8>>
    decreases depth,
{
    if depth == 0 {
        lut
    } else {
        let ps = on_path[depth - 1];
        inner_layers_lut(
            levels.update(
                depth - 1,
                parents_fold(levels[depth - 1], levels[depth as int], ps, ps.len(), false),
            ),
            on_path,
            (depth - 1) as nat,
            lut_fold(lut, levels[depth as int], ps, ps.len(), false, (depth - 1) as nat),
        )
    }
}

/// Whether both children of `parents[t]` are in `children`.
pub open spec fn has_children(children: Map<usize, Seq<u8>>, parents: Seq<usize>, t: int) -> bool {
    children.contains_key((2 * parents[t]) as usize) && children.contains_key((2 * parents[t] + 1) as usize)
}

/// Whether both children of each of `parents` are in `children`.
pub open spec fn children_present(children: Map<usize, Seq<u8>>, parents: Seq<usize>) -> bool {
    forall|t: int|
        0 <= t < parents.len() ==> children.contains_key((2 * parents[t]) as usize)
            && children.contains_key((2 * parents[t] + 1) as usize)
}

/// The levels after recomputing, for each depth `d` from `depth` down to `stop + 1`, the
/// parents on `on_path[d - 1]` from their children at depth `d` (as [`inner_layers_spec`]
/// does, without checking that the children are there).
pub open spec fn layers_after(
    levels: Seq<Map<usize, Seq<u8>>>,
    on_path: Seq<Seq<usize>>,
    depth: nat,
    stop: nat,
) -> Seq<Map<usize, Seq<u8>>>
    decreases depth,
{
    if depth <= stop {
        levels
    } else {
        let ps = on_path[depth - 1];
        layers_after(
            levels.update(depth - 1, parents_fold(levels[depth - 1], levels[depth as int], ps, ps.len(), false)),
            on_path,
            (depth - 1) as nat,
            stop,
        )
    }
}

/// The lookup table after the recomputations of [`layers_after`], each parent recorded at
/// its level-order index.
pub open spec fn lut_after(
    levels: Seq<Map<usize, Seq<u8>>>,
    on_path: Seq<Seq<usize>>,
    depth: nat,
    stop: nat,
    lut: Map<usize, Seq<u8>>,
) -> Map<usize, Seq<u8>>
    decreases depth,
{
    if depth <= stop {
        lut
    } else {
        let ps = on_path[depth - 1];
        lut_after(
            levels.update(depth - 1, parents_fold(levels[depth - 1], levels[depth as int], ps, ps.len(), false)),
            on_path,
            (depth - 1) as nat,
            stop,
            lut_fold(lut, levels[depth as int], ps, ps.len(), false, (depth - 1) as nat),
        )
    }
}

/// The position lists of `on_path`, one per depth.
pub open spec fn positions_view(on_path: Seq<Vec<usize>>) -> Seq<Seq<usize>> {
    on_path.map_values(|v: Vec<usize>| v@)
}

/// Where recomputing the levels from `top` down stops: at depth `d` (recomputing the parents
/// on `on_path[d - 1]`), at the `t`-th of them, the first whose children are not both
/// there, all levels above `d` having had all their children.
pub open spec fn refused_inner_at(
    levels: Seq<Map<usize, Seq<u8>>>,
    on_path: Seq<Seq<usize>>,
    top: nat,
    d: nat,
    t: nat,
) -> bool {
    &&& 1 <= d <= top
    &&& t < on_path[d - 1].len()
    &&& forall|e: nat| d < e <= top ==> children_present(#[trigger] layers_after(levels, on_path, top, e)[e as int], on_path[e - 1])
    &&& !has_children(layers_after(levels, on_path, top, d)[d as int], on_path[d - 1], t as int)
    &&& forall|u: int| 0 <= u < t ==> #[trigger] has_children(layers_after(levels, on_path, top, d)[d as int], on_path[d - 1], u)
}

/// One more level of [`layers_after`] and [`lut_after`]: stopping at `stop - 1` is stopping
/// at `stop`, then recomputing the parents on `on_path[stop - 1]`.
proof fn lemma_layers_after_step(
    levels: Seq<Map<usize, Seq<u8>>>,
    on_path: Seq<Seq<usize>>,
    depth: nat,
    stop: nat,
    lut: Map<usize, Seq<u8>>,
)
    requires
        1 <= stop <= depth,
    ensures
        ({
            let mid = layers_after(levels, on_path, depth, stop);
            let ps = on_path[stop - 1];
            &&& layers_after(levels, on_path, depth, (stop - 1) as nat) == mid.update(
                stop - 1,
                parents_fold(mid[stop - 1], mid[stop as int], ps, ps.len(), false),
            )
            &&& lut_after(levels, on_path, depth, (stop - 1) as nat, lut) == lut_fold(
                lut_after(levels, on_path, depth, stop, lut),
                mid[stop as int],
                ps,
                ps.len(),
                false,
                (stop - 1) as nat,
            )
        }),
    decreases depth,
{
    let ps = on_path[depth - 1];
    let next = levels.update(depth - 1, parents_fold(levels[depth - 1], levels[depth as int], ps, ps.len(), false));
    let lut1 = lut_fold(lut, levels[depth as int], ps, ps.len(), false, (depth - 1) as nat);
    assert(layers_after(levels, on_path, depth, (stop - 1) as nat) == layers_after(next, on_path, (depth - 1) as nat, (stop - 1) as nat));
    assert(lut_after(levels, on_path, depth, (stop - 1) as nat, lut) == lut_after(next, on_path, (depth - 1) as nat, (stop - 1) as nat, lut1));
    if depth > stop {
        assert(layers_after(levels, on_path, depth, stop) == layers_after(next, on_path, (depth - 1) as nat, stop));
        assert(lut_after(levels, on_path, depth, stop, lut) == lut_after(next, on_path, (depth - 1) as nat, stop, lut1));
        lemma_layers_after_step(next, on_path, (depth - 1) as nat, stop, lut1);
    } else {
        assert(layers_after(levels, on_path, depth, depth) == levels);
        assert(lut_after(levels, on_path, depth, depth, lut) == lut);
        assert(layers_after(next, on_path, (depth - 1) as nat, (depth - 1) as nat) == next);
        assert(lut_after(next, on_path, (depth - 1) as nat, (depth - 1) as nat, lut1) == lut1);
    }
}

/// The digests of the levels above the bottom inner level: for each depth from `depth`
/// down to 1, the parents on `on_path[depth - 1]` are compressed from their children at
/// `depth`; `None` as soon as a child is missing.
pub open spec fn inner_layers_spec(
    levels: Seq<Map<usize, Seq<u8>>>,
    on_path: Seq<Seq<usize>>,
    depth: nat,
) -> Option<Seq<Map<usize, Seq<u8>>>>
    decreases depth,
{
    if depth == 0 {
        Some(levels)
    } else {
        let ps = on_path[depth - 1];
        if !children_present(levels[depth as int], ps) {
            None
        } else {
            inner_layers_spec(
                levels.update(
                    depth - 1,
                    parents_fold(levels[depth - 1], levels[depth as int], ps, ps.len(), false),
                ),
                on_path,
                (depth - 1) as nat,
            )
        }
    }
}

/// Whether a batch proof of height `tree_height` is accepted before any leaf is read: the
/// height is the verifier's `expected_tree_height`, its level-order positions fit a `usize`,
/// and its leaf indexes are distinct leaves of the tree, each below `2^(tree_height - 1)`.
pub open spec fn batch_shape_ok(tree_height: usize, expected_tree_height: usize, leaf_indexes: Seq<usize>) -> bool {
    &&& tree_height == expected_tree_height
    &&& tree_height <= usize::BITS
    &&& forall|t: int| 0 <= t < leaf_indexes.len() ==> leaf_indexes[t] < pow2((tree_height - 1) as nat)
    &&& leaf_indexes.no_duplicates()
}

/// The number of position bits per leaf of a batch proof of height `tree_height`.
pub open spec fn position_bits(tree_height: usize) -> nat {
    if tree_height >= 2 {
        (tree_height - 1) as nat
    } else {
        1
    }
}

/// A batch proof of membership of several leaves (the CoSet encoding).
///
/// Leaves `I` and `J` of the tree below, at indexes `2` and `3`, are proven by:
/// ```text
///         [A]             d = 0
///        /   \
///      [B]    C           d = 1
///     / \    /  \
///    D [E]  F    H        d = 2
///  ... / \ / \ ....
///    [I] J L  M           d = 3
/// ```
/// `tree_height = 4`, `leaf_copath = []` (each opened leaf's sibling is opened too), the inner
/// copath `[(1, 1, C), (2, 0, D)]` packed as `(1, 1, deltas of [(+1, -1)], [C, D])`, and
/// `leaf_indexes = [2, 3]`. The copath holds at each level exactly the siblings of on-path
/// nodes that are not themselves on a path, ordered by `(depth, index)`.
pub struct CoPath {
    /// The height of the tree (at least 2), which drives decoding.
    pub tree_height: usize,
    /// The leaf-level copath digests, in ascending sibling index order.
    pub leaf_copath: Vec<Vec<u8>>,
    /// The inner-level copath entries, packed as `(start_depth, start_index, deltas, digests)`.
    pub inner_copath: Option<PackedInnerCopath>,
    /// The indexes of the opened leaves.
    pub leaf_indexes: Vec<usize>,
}

/// Inner copath entries packed as `(start_depth, start_index, zigzag LEB128 deltas, digests)`.
pub type PackedInnerCopath = (usize, usize, Vec<u8>, Vec<Vec<u8>>);

impl CoPath {
    /// Checks what deserialization requires of a proof: a tree height of at least two.
    pub fn check(&self) -> (r: Result<(), Error>)
        ensures
            self.tree_height < 2 ==> r == Err::<(), Error>(Error::TreeHeightTooSmall),
            self.tree_height >= 2 ==> r == Ok::<(), Error>(()),
    {
        if self.tree_height < 2 {
            return Err(Error::TreeHeightTooSmall);
        }
        Ok(())
    }

    /// For each leaf index, the positions of its on-path nodes from the top down (`true` iff
    /// a right child): the low `max(tree_height, 2) - 1` bits of the index, most significant
    /// first.
    pub fn position_list(&self) -> (r: Vec<Vec<bool>>)
        requires
            self.tree_height <= 65,
        ensures
            r@.len() == self.leaf_indexes@.len(),
            forall|t: int| 0 <= t < r@.len() ==> #[trigger] r@[t]@.len() == position_bits(self.tree_height),
            forall|t: int, j: int|
                0 <= t < r@.len() && 0 <= j < position_bits(self.tree_height) ==> #[trigger] r@[t]@[j] == ((
                self.leaf_indexes@[t] as nat / pow2((position_bits(self.tree_height) - 1 - j) as nat)) % 2 == 1),
    {
        let path_len = if self.tree_height >= 2 {
            self.tree_height - 2
        } else {
            0
        };
        let mut r: Vec<Vec<bool>> = Vec::new();
        let mut t: usize = 0;
        while t < self.leaf_indexes.len()
            invariant
                path_len + 1 == position_bits(self.tree_height),
                path_len + 1 <= 64,
                t <= self.leaf_indexes@.len(),
                r@.len() == t,
                forall|u: int| 0 <= u < t ==> #[trigger] r@[u]@.len() == path_len + 1,
                forall|u: int, j: int|
                    0 <= u < t && 0 <= j < path_len + 1 ==> #[trigger] r@[u]@[j] == ((self.leaf_indexes@[u] as nat / pow2(
                        (path_len - j) as nat,
                    )) % 2 == 1),
            decreases self.leaf_indexes@.len() - t,
        {
            r.push(index_bits(self.leaf_indexes[t], path_len + 1));
            t = t + 1;
        }
        r
    }

    /// Verifies that `leaves`, supplied in `leaf_indexes` order, are the leaves at
    /// `leaf_indexes` of the tree of height `expected_tree_height` (the verifier's own value,
    /// not the proof's) whose root is `root_hash`.
    ///
    /// An empty batch is an error. A height other than the expected one, a height whose
    /// level-order positions do not fit a `usize`, a leaf index beyond the tree's
    /// `2^(tree_height - 1)` leaves, or a leaf index given twice are refused with `Ok(false)`
    /// before any leaf is read.
    pub fn verify(&self, root_hash: &Vec<u8>, expected_tree_height: usize, leaves: &[Vec<u8>]) -> (r: Result<bool, Error>)
        ensures
            self.leaf_indexes@.len() == 0 ==> r == Err::<bool, Error>(Error::EmptyBatch),
            self.leaf_indexes@.len() > 0 && self.tree_height < 2 ==> r == Err::<bool, Error>(
                Error::TreeHeightTooSmall,
            ),
            self.leaf_indexes@.len() > 0 && self.tree_height >= 2 && !batch_shape_ok(
                self.tree_height,
                expected_tree_height,
                self.leaf_indexes@,
            ) ==> r == Ok::<bool, Error>(false),
            self.leaf_indexes@.len() > 0 && self.tree_height >= 2 && batch_shape_ok(
                self.tree_height,
                expected_tree_height,
                self.leaf_indexes@,
            ) && leaves@.len() != self.leaf_indexes@.len() ==> r == Err::<bool, Error>(
                Error::IncorrectInputLength(self.leaf_indexes@.len() as usize),
            ),
            self.leaf_indexes@.len() > 0 && self.tree_height >= 2 && batch_shape_ok(
                self.tree_height,
                expected_tree_height,
                self.leaf_indexes@,
            ) && leaves@.len() == self.leaf_indexes@.len() ==> r == Ok::<bool, Error>(
                coset_check(
                    self.tree_height as nat,
                    self.leaf_indexes@,
                    digests_view(self.leaf_copath@),
                    packed_view(self.inner_copath),
                    digests_view(leaves@),
                    root_hash@,
                    true,
                ),
            ),
    {
        if self.leaf_indexes.len() == 0 {
            return Err(Error::EmptyBatch);
        }
        if self.tree_height < 2 {
            return Err(Error::TreeHeightTooSmall);
        }
        if self.tree_height != expected_tree_height {
            return Ok(false);
        }
        if self.tree_height > usize::BITS as usize {
            return Ok(false);
        }
        if !all_below_pow2(self.leaf_indexes.as_slice(), self.tree_height - 1) {
            return Ok(false);
        }
        if has_duplicates(self.leaf_indexes.as_slice()) {
            return Ok(false);
        }
        Self::verify_batch(
            self.tree_height,
            &self.leaf_indexes,
            &self.leaf_copath,
            &self.inner_copath,
            root_hash,
            leaves,
            true,
        )
    }

    /// Checks a coset batch proof of height `tree_height` (already accepted) against
    /// `root_hash`, the leaves given in `leaf_indexes` order, decoding the inner copath in
    /// its hardened form or not, as `hardened` says.
    pub(crate) fn verify_batch(
        tree_height: usize,
        leaf_indexes: &Vec<usize>,
        leaf_copath: &Vec<Vec<u8>>,
        inner_copath: &Option<PackedInnerCopath>,
        root_hash: &Vec<u8>,
        leaves: &[Vec<u8>],
        hardened: bool,
    ) -> (r: Result<bool, Error>)
        requires
            2 <= tree_height <= usize::BITS,
        ensures
            leaves@.len() != leaf_indexes@.len() ==> r == Err::<bool, Error>(
                Error::IncorrectInputLength(leaf_indexes@.len() as usize),
            ),
            leaves@.len() == leaf_indexes@.len() ==> r == Ok::<bool, Error>(
                coset_check(
                    tree_height as nat,
                    leaf_indexes@,
                    digests_view(leaf_copath@),
                    packed_view(*inner_copath),
                    digests_view(leaves@),
                    root_hash@,
                    hardened,
                ),
            ),
    {
        let d = tree_height;
        let leaf_depth = d - 1;
        let mut leaf_level = match Self::ingest_leaves(leaf_indexes.as_slice(), leaves) {
            Ok(m) => m,
            Err(e) => {
                return Err(e);
            },
        };
        let ghost lv = digests_view(leaves@);
        assert(leaves@.map_values(|v: Vec<u8>| v@) =~= lv);
        let index_set = sorted_unique(leaf_indexes.as_slice());
        let on_path = compute_on_path(leaf_depth, &index_set);
        let ghost ops = on_path@.map_values(|v: Vec<usize>| v@);
        proof {
            assert forall|j: int| 0 <= j < on_path@.len() implies #[trigger] on_path@[j]@ == ops[j] by {}
            lemma_on_path_facts(leaf_indexes@, index_set@, ops, leaf_depth as nat);
        }
        assert(ops[leaf_depth as int] == on_path@[leaf_depth as int]@);
        let expected_leaf_coset = Self::expected_leaf_coset(leaf_depth, &on_path);
        let ghost copath_view = digests_view(leaf_copath@);
        assert(leaf_copath@.map_values(|v: Vec<u8>| v@) =~= copath_view);
        if !Self::validate_leaf_copath(expected_leaf_coset.as_slice(), leaf_copath.as_slice(), &mut leaf_level) {
            assert(leaf_level_spec(d as nat, leaf_indexes@, copath_view, lv) is None);
            return Ok(false);
        }
        let ghost leaf_map = map_view(leaf_level@);
        assert(leaf_level_spec(d as nat, leaf_indexes@, copath_view, lv) == Some(leaf_map));
        let mut inner_levels = empty_level_maps(d);
        let mut hash_lut = HashLut::new();
        if !Self::decode_packed(d, inner_copath, &mut inner_levels, &mut hash_lut, hardened) {
            return Ok(false);
        }
        assert(ops[leaf_depth - 1] == on_path@[leaf_depth - 1]@);
        match Self::recompute_bottom_parents(leaf_depth, &on_path, &leaf_level, &mut hash_lut, &mut inner_levels) {
            Ok(true) => {},
            Ok(false) => {
                return Ok(false);
            },
            Err(e) => {
                return Err(e);
            },
        }
        match Self::recompute_inner_layers(leaf_depth, &on_path, &mut hash_lut, &mut inner_levels) {
            Ok(true) => {},
            Ok(false) => {
                return Ok(false);
            },
            Err(e) => {
                return Err(e);
            },
        }
        let ghost levels3 = levels_view(inner_levels@);
        assert(levels3[0] == map_view(inner_levels@[0]@));
        match inner_levels[0].get(&0) {
            Some(h) => Ok(bytes_eq(h.as_slice(), root_hash.as_slice())),
            None => Ok(false),
        }
    }

    /// Hashes the provided leaves (given in `leaf_indexes` order) and maps each index to its
    /// leaf digest. Fails when the number of leaves differs from the number of indexes.
    pub fn ingest_leaves(leaf_indexes: &[usize], leaves: &[Vec<u8>]) -> (r: Result<
        BTreeMap<usize, Vec<u8>>,
        Error,
    >)
        ensures
            leaves@.len() != leaf_indexes@.len() ==> r == Err::<BTreeMap<usize, Vec<u8>>, Error>(
                Error::IncorrectInputLength(leaf_indexes@.len() as usize),
            ),
            leaves@.len() == leaf_indexes@.len() ==> (r matches Ok(m) && map_view(m@) == ingested(
                leaf_indexes@,
                leaves@.map_values(|v: Vec<u8>| v@),
                leaf_indexes@.len(),
            )),
    {
        if leaves.len() != leaf_indexes.len() {
            return Err(Error::IncorrectInputLength(leaf_indexes.len()));
        }
        let ghost lv = leaves@.map_values(|v: Vec<u8>| v@);
        let mut leaf_level: BTreeMap<usize, Vec<u8>> = BTreeMap::new();
        let mut t: usize = 0;
        while t < leaf_indexes.len()
            invariant
                leaves@.len() == leaf_indexes@.len(),
                lv == leaves@.map_values(|v: Vec<u8>| v@),
                0 <= t <= leaf_indexes@.len(),
                map_view(leaf_level@) == ingested(leaf_indexes@, lv, t as nat),
            decreases leaf_indexes@.len() - t,
        {
            let idx = leaf_indexes[t];
            let leaf_hash = MerkleByteDigest::evaluate(leaves[t].as_slice());
            leaf_level.insert(idx, leaf_hash);
            t = t + 1;
            assert(map_view(leaf_level@) =~= ingested(leaf_indexes@, lv, t as nat));
        }
        Ok(leaf_level)
    }

    /// The leaf-level copath positions: the siblings of the on-path leaves that are not
    /// on a path themselves, in ascending order.
    pub fn expected_leaf_coset(leaf_depth: usize, on_path: &Vec<Vec<usize>>) -> (r: Vec<usize>)
        requires
            leaf_depth < on_path@.len(),
            strictly_increasing(on_path@[leaf_depth as int]@),
        ensures
            r@ == sorted_seq_of(coset_set(on_path@[leaf_depth as int]@)),
            strictly_increasing(r@),
            forall|x: usize| #[trigger] r@.contains(x) <==> coset_set(on_path@[leaf_depth as int]@).contains(x),
    {
        let level = &on_path[leaf_depth];
        let ghost lv = level@;
        let mut expected_leaf_coset: Vec<usize> = Vec::new();
        let mut i: usize = 0;
        while i < level.len()
            invariant
                lv == level@,
                strictly_increasing(lv),
                0 <= i <= lv.len(),
                strictly_increasing(expected_leaf_coset@),
                forall|k: int|
                    0 <= k < expected_leaf_coset@.len() ==> exists|t: int|
                        0 <= t < i && #[trigger] expected_leaf_coset@[k] == sibling_pos(lv[t] as nat)
                            && !lv.contains(expected_leaf_coset@[k]),
                forall|t: int|
                    0 <= t < i && !lv.contains(sibling_pos(lv[t] as nat) as usize) ==> #[trigger] expected_leaf_coset@.contains(
                        sibling_pos(lv[t] as nat) as usize,
                    ),
                forall|k: int|
                    0 <= k < expected_leaf_coset@.len() ==> #[trigger] (expected_leaf_coset@[k] / 2) < (
                    if i == 0 {
                        0
                    } else {
                        lv[i - 1] / 2 + 1
                    }),
            decreases lv.len() - i,
        {
            let path_idx = level[i];
            assert(path_idx % 2 == 0 ==> path_idx ^ 1 == path_idx + 1) by (bit_vector);
            assert(path_idx % 2 == 1 ==> path_idx ^ 1 == path_idx - 1) by (bit_vector);
            let sibling_idx = path_idx ^ 1;
            let ghost before = expected_leaf_coset@;
            if !contains_sorted(level, sibling_idx) {
                proof {
                    if expected_leaf_coset@.len() > 0 {
                        let k = (expected_leaf_coset@.len() - 1) as int;
                        let t = choose|t: int|
                            0 <= t < i && #[trigger] expected_leaf_coset@[k] == sibling_pos(lv[t] as nat)
                                && !lv.contains(expected_leaf_coset@[k]);
                        assert(lv[t] < path_idx);
                        if lv[t] / 2 == path_idx / 2 {
                            assert(sibling_pos(lv[t] as nat) == path_idx);
                            assert(lv.contains(path_idx));
                        }
                    }
                }
                let ghost old_e = expected_leaf_coset@;
                expected_leaf_coset.push(sibling_idx);
                proof {
                    assert forall|a: int, b: int| 0 <= a < b < expected_leaf_coset@.len() implies expected_leaf_coset@[a]
                        < expected_leaf_coset@[b] by {
                        if b == old_e.len() {
                            assert(old_e[a] / 2 < path_idx / 2 + 0 || old_e[a] / 2 <= lv[i - 1] / 2);
                            if i > 0 {
                                assert(lv[i - 1] < path_idx);
                            }
                        }
                    }
                }
            }
            proof {
                assert forall|t: int|
                    0 <= t < i + 1 && !lv.contains(sibling_pos(lv[t] as nat) as usize) implies #[trigger] expected_leaf_coset@.contains(
                    sibling_pos(lv[t] as nat) as usize,
                ) by {
                    if t == i {
                        assert(expected_leaf_coset@[expected_leaf_coset@.len() - 1] == sibling_idx);
                    } else {
                        let x = sibling_pos(lv[t] as nat) as usize;
                        assert(before.contains(x));
                        let k = choose|k: int| 0 <= k < before.len() && before[k] == x;
                        assert(expected_leaf_coset@[k] == x);
                    }
                }
            }
            i = i + 1;
        }
        proof {
            assert forall|x: usize| #[trigger] expected_leaf_coset@.contains(x) <==> coset_set(lv).contains(x) by {
                if expected_leaf_coset@.contains(x) {
                    let k = choose|k: int| 0 <= k < expected_leaf_coset@.len() && expected_leaf_coset@[k] == x;
                    let t = choose|t: int|
                        0 <= t < i && #[trigger] expected_leaf_coset@[k] == sibling_pos(lv[t] as nat)
                            && !lv.contains(expected_leaf_coset@[k]);
                }
                if coset_set(lv).contains(x) {
                    let t = choose|t: int| 0 <= t < lv.len() && x == sibling_pos(lv[t] as nat);
                    assert(!lv.contains(sibling_pos(lv[t] as nat) as usize));
                }
            }
            lemma_sorted_seq_of(expected_leaf_coset@, coset_set(lv));
        }
        expected_leaf_coset
    }

    /// Checks that the provided leaf copath has one digest per expected position, each
    /// agreeing with a digest already known there, and adds them to `leaf_level`.
    pub fn validate_leaf_copath(
        expected_leaf_coset: &[usize],
        provided_leaf_copath: &[Vec<u8>],
        leaf_level: &mut BTreeMap<usize, Vec<u8>>,
    ) -> (r: bool)
        requires
            strictly_increasing(expected_leaf_coset@),
        ensures
            r == (expected_leaf_coset@.len() == provided_leaf_copath@.len() && copath_consistent(
                map_view(old(leaf_level)@),
                expected_leaf_coset@,
                provided_leaf_copath@.map_values(|v: Vec<u8>| v@),
            )),
            r ==> map_view(final(leaf_level)@) == insert_all(
                map_view(old(leaf_level)@),
                expected_leaf_coset@,
                provided_leaf_copath@.map_values(|v: Vec<u8>| v@),
                expected_leaf_coset@.len(),
            ),
            expected_leaf_coset@.len() != provided_leaf_copath@.len() ==> *final(leaf_level) == *old(leaf_level),
            expected_leaf_coset@.len() == provided_leaf_copath@.len() && !r ==> exists|t: nat|
                t < expected_leaf_coset@.len() && #[trigger] conflicts_at(
                    map_view(old(leaf_level)@),
                    expected_leaf_coset@,
                    digests_view(provided_leaf_copath@),
                    t as int,
                ) && (forall|u: int|
                    0 <= u < t ==> !conflicts_at(
                        map_view(old(leaf_level)@),
                        expected_leaf_coset@,
                        digests_view(provided_leaf_copath@),
                        u,
                    )) && map_view(final(leaf_level)@) == insert_all(
                    map_view(old(leaf_level)@),
                    expected_leaf_coset@,
                    digests_view(provided_leaf_copath@),
                    t,
                ),
    {
        let ghost keys = expected_leaf_coset@;
        let ghost vals = provided_leaf_copath@.map_values(|v: Vec<u8>| v@);
        let ghost m0 = map_view(leaf_level@);
        assert(vals == digests_view(provided_leaf_copath@));
        if expected_leaf_coset.len() != provided_leaf_copath.len() {
            return false;
        }
        let mut t: usize = 0;
        while t < expected_leaf_coset.len()
            invariant
                keys == expected_leaf_coset@,
                vals == provided_leaf_copath@.map_values(|v: Vec<u8>| v@),
                vals == digests_view(provided_leaf_copath@),
                keys.len() == vals.len(),
                strictly_increasing(keys),
                0 <= t <= keys.len(),
                m0 == map_view(old(leaf_level)@),
                map_view(leaf_level@) == insert_all(m0, keys, vals, t as nat),
                forall|u: int| 0 <= u < t ==> !m0.contains_key(keys[u]) || m0[keys[u]] == vals[u],
            decreases keys.len() - t,
        {
            let sibling_idx = expected_leaf_coset[t];
            proof {
                lemma_insert_all_other(m0, keys, vals, t as nat, sibling_idx);
            }
            match leaf_level.get(&sibling_idx) {
                Some(existing) => {
                    if !bytes_eq(existing.as_slice(), provided_leaf_copath[t].as_slice()) {
                        proof {
                            assert(leaf_level@.contains_key(sibling_idx));
                            assert(map_view(leaf_level@).contains_key(sibling_idx));
                            assert(map_view(leaf_level@)[sibling_idx] == existing@);
                            assert(vals[t as int] == provided_leaf_copath@[t as int]@);
                            assert(!copath_consistent(m0, keys, vals)) by {
                                assert(!(!m0.contains_key(keys[t as int]) || m0[keys[t as int]] == vals[t as int]));
                            }
                            assert(map_view(leaf_level@) == insert_all(m0, keys, vals, t as nat));
                            assert(conflicts_at(m0, keys, vals, t as int));
                            assert(forall|u: int| 0 <= u < t ==> !conflicts_at(m0, keys, vals, u));
                        }
                        return false;
                    }
                },
                None => {},
            }
            leaf_level.insert(sibling_idx, copy_bytes(provided_leaf_copath[t].as_slice()));
            t = t + 1;
            assert(map_view(leaf_level@) =~= insert_all(m0, keys, vals, t as nat));
        }
        true
    }

    /// Recomputes the parents of the bottom inner level (depth `leaf_depth - 1`) that are on
    /// a path, from the leaf digests, storing them in `inner_levels` and the lookup table.
    /// Returns `false` when a needed leaf digest is missing.
    pub fn recompute_bottom_parents(
        leaf_depth: usize,
        on_path: &Vec<Vec<usize>>,
        leaf_level: &BTreeMap<usize, Vec<u8>>,
        hash_lut: &mut HashLut,
        inner_levels: &mut Vec<BTreeMap<usize, Vec<u8>>>,
    ) -> (r: Result<bool, Error>)
        requires
            1 <= leaf_depth < on_path@.len(),
            leaf_depth <= old(inner_levels)@.len(),
            leaf_depth - 1 < usize::BITS,
            forall|t: int|
                0 <= t < on_path@[leaf_depth - 1]@.len() ==> 2 * #[trigger] on_path@[leaf_depth
                    - 1]@[t] + 1 <= usize::MAX && pow2((leaf_depth - 1) as nat) - 1
                    + on_path@[leaf_depth - 1]@[t] <= usize::MAX,
        ensures
            r == Ok::<bool, Error>(
                children_present(map_view(leaf_level@), on_path@[leaf_depth - 1]@),
            ),
            final(inner_levels)@.len() == old(inner_levels)@.len(),
            r == Ok::<bool, Error>(true) ==> levels_view(final(inner_levels)@) == levels_view(
                old(inner_levels)@,
            ).update(
                leaf_depth - 1,
                parents_fold(
                    levels_view(old(inner_levels)@)[leaf_depth - 1],
                    map_view(leaf_level@),
                    on_path@[leaf_depth - 1]@,
                    on_path@[leaf_depth - 1]@.len(),
                    true,
                ),
            ),
            r == Ok::<bool, Error>(true) ==> lut_contents(*final(hash_lut)) == lut_fold(
                lut_contents(*old(hash_lut)),
                map_view(leaf_level@),
                on_path@[leaf_depth - 1]@,
                on_path@[leaf_depth - 1]@.len(),
                true,
                (leaf_depth - 1) as nat,
            ),
            r == Ok::<bool, Error>(false) ==> exists|t: nat|
                t < on_path@[leaf_depth - 1]@.len() && !has_children(map_view(leaf_level@), on_path@[leaf_depth - 1]@, t as int)
                    && (forall|u: int| 0 <= u < t ==> #[trigger] has_children(map_view(leaf_level@), on_path@[leaf_depth - 1]@, u))
                    && levels_view(final(inner_levels)@)
                    == levels_view(old(inner_levels)@).update(
                    leaf_depth - 1,
                    #[trigger] parents_fold(
                        levels_view(old(inner_levels)@)[leaf_depth - 1],
                        map_view(leaf_level@),
                        on_path@[leaf_depth - 1]@,
                        t,
                        true,
                    ),
                ) && lut_contents(*final(hash_lut)) == lut_fold(
                    lut_contents(*old(hash_lut)),
                    map_view(leaf_level@),
                    on_path@[leaf_depth - 1]@,
                    t,
                    true,
                    (leaf_depth - 1) as nat,
                ),
    {
        let ghost lv0 = levels_view(inner_levels@);
        let ghost lut0 = lut_contents(*hash_lut);
        let ghost children = map_view(leaf_level@);
        let pd = leaf_depth - 1;
        let ps = &on_path[pd];
        let ghost psv = ps@;
        let mut t: usize = 0;
        while t < ps.len()
            invariant
                psv == ps@,
                lut0 == lut_contents(*old(hash_lut)),
                lut_contents(*hash_lut) == lut_fold(lut0, children, psv, t as nat, true, pd as nat),
                lv0 == levels_view(old(inner_levels)@),
                1 <= leaf_depth < on_path@.len(),
                psv == on_path@[leaf_depth - 1]@,
                pd == leaf_depth - 1,
                inner_levels@.len() == old(inner_levels)@.len(),
                pd < inner_levels@.len(),
                pd < usize::BITS,
                children == map_view(leaf_level@),
                inner_levels@.len() == lv0.len(),
                forall|u: int|
                    0 <= u < psv.len() ==> 2 * #[trigger] psv[u] + 1 <= usize::MAX && pow2(pd as nat) - 1
                        + psv[u] <= usize::MAX,
                0 <= t <= psv.len(),
                forall|u: int| 0 <= u < t ==> children.contains_key((2 * psv[u]) as usize)
                    && children.contains_key((2 * psv[u] + 1) as usize),
                levels_view(inner_levels@) == lv0.update(
                    pd as int,
                    parents_fold(lv0[pd as int], children, psv, t as nat, true),
                ),
            decreases psv.len() - t,
        {
            let parent_index = ps[t];
            let left = match leaf_level.get(&(parent_index * 2)) {
                Some(left) => left,
                None => {
                    proof {
                        assert(!leaf_level@.contains_key((parent_index * 2) as usize));
                        assert(!children.contains_key((2 * psv[t as int]) as usize));
                        assert(!children_present(children, psv));
                        assert(levels_view(inner_levels@) == lv0.update(
                            pd as int,
                            parents_fold(lv0[pd as int], children, psv, t as nat, true),
                        ));
                    }
                    return Ok(false);
                },
            };
            let right = match leaf_level.get(&(parent_index * 2 + 1)) {
                Some(right) => right,
                None => {
                    proof {
                        assert(!leaf_level@.contains_key((parent_index * 2 + 1) as usize));
                        assert(!children.contains_key((2 * psv[t as int] + 1) as usize));
                        assert(!children_present(children, psv));
                        assert(levels_view(inner_levels@) == lv0.update(
                            pd as int,
                            parents_fold(lv0[pd as int], children, psv, t as nat, true),
                        ));
                    }
                    return Ok(false);
                },
            };
            proof {
                assert(children[(2 * psv[t as int]) as usize] == left@);
                assert(children[(2 * psv[t as int] + 1) as usize] == right@);
            }
            let lconv = match ByteDigestConverter::convert(copy_bytes(left.as_slice())) {
                Ok(b) => b,
                Err(e) => {
                    return Err(e);
                },
            };
            let rconv = match ByteDigestConverter::convert(copy_bytes(right.as_slice())) {
                Ok(b) => b,
                Err(e) => {
                    return Err(e);
                },
            };
            let parent = MerkleByteDigest::evaluate_pair(lconv.as_slice(), rconv.as_slice());
            let heap_idx = level_index(pd, parent_index);
            hash_lut.insert(heap_idx, copy_bytes(parent.as_slice()));
            let ghost before = inner_levels@;
            let ghost pv = parent@;
            assert(levels_view(before)[pd as int] == map_view(before[pd as int]@));
            assert(map_view(before[pd as int]@) == parents_fold(lv0[pd as int], children, psv, t as nat, true));
            inner_levels[pd].insert(parent_index, parent);
            proof {
                assert(inner_levels@ == before.update(pd as int, inner_levels@[pd as int]));
                assert(inner_levels@[pd as int]@ == before[pd as int]@.insert(parent_index, parent));
                assert(map_view(inner_levels@[pd as int]@) =~= map_view(before[pd as int]@).insert(parent_index, pv));
                assert(pv == leaf_parent_spec(children[(2 * psv[t as int]) as usize], children[(2 * psv[t as int] + 1) as usize]));
            }
            t = t + 1;
            proof {
                assert(parents_fold(lv0[pd as int], children, psv, t as nat, true)
                    == parents_fold(lv0[pd as int], children, psv, (t - 1) as nat, true).insert(psv[t - 1], pv));
                let ghost target = lv0.update(pd as int, parents_fold(lv0[pd as int], children, psv, t as nat, true));
                assert forall|i: int| 0 <= i < inner_levels@.len() implies #[trigger] levels_view(inner_levels@)[i] == target[i] by {
                    assert(levels_view(inner_levels@)[i] == map_view(inner_levels@[i]@));
                    if i != pd {
                        assert(levels_view(before)[i] == map_view(before[i]@));
                    }
                }
                assert(levels_view(inner_levels@) =~= target);
            }
        }
        Ok(true)
    }

    /// Recomputes the on-path nodes of the inner levels above the bottom one, up to the root,
    /// from the digests in `inner_levels`, storing them there and in the lookup table.
    /// Returns `false` when a needed child digest is missing.
    pub fn recompute_inner_layers(
        leaf_depth: usize,
        on_path: &Vec<Vec<usize>>,
        hash_lut: &mut HashLut,
        inner_levels: &mut Vec<BTreeMap<usize, Vec<u8>>>,
    ) -> (r: Result<bool, Error>)
        requires
            1 <= leaf_depth < on_path@.len(),
            leaf_depth <= old(inner_levels)@.len(),
            leaf_depth <= usize::BITS,
            forall|j: int, t: int|
                0 <= j < leaf_depth && 0 <= t < on_path@[j]@.len() ==> 2 * #[trigger] on_path@[j]@[t]
                    + 1 <= usize::MAX && pow2(j as nat) - 1 + on_path@[j]@[t] <= usize::MAX,
        ensures
            final(inner_levels)@.len() == old(inner_levels)@.len(),
            r is Ok,
            r == Ok::<bool, Error>(
                inner_layers_spec(
                    levels_view(old(inner_levels)@),
                    on_path@.map_values(|v: Vec<usize>| v@),
                    (leaf_depth - 1) as nat,
                ) is Some,
            ),
            r == Ok::<bool, Error>(true) ==> Some(levels_view(final(inner_levels)@))
                == inner_layers_spec(
                levels_view(old(inner_levels)@),
                on_path@.map_values(|v: Vec<usize>| v@),
                (leaf_depth - 1) as nat,
            ),
            r == Ok::<bool, Error>(true) ==> lut_contents(*final(hash_lut)) == inner_layers_lut(
                levels_view(old(inner_levels)@),
                on_path@.map_values(|v: Vec<usize>| v@),
                (leaf_depth - 1) as nat,
                lut_contents(*old(hash_lut)),
            ),
            r == Ok::<bool, Error>(false) ==> exists|d: nat, t: nat|
                refused_inner_at(
                    levels_view(old(inner_levels)@),
                    positions_view(on_path@),
                    (leaf_depth - 1) as nat,
                    d,
                    t,
                ) && levels_view(final(inner_levels)@) == #[trigger] layers_after(
                    levels_view(old(inner_levels)@),
                    positions_view(on_path@),
                    (leaf_depth - 1) as nat,
                    d,
                ).update(
                    d - 1,
                    parents_fold(
                        layers_after(levels_view(old(inner_levels)@), positions_view(on_path@), (leaf_depth - 1) as nat, d)[d - 1],
                        layers_after(levels_view(old(inner_levels)@), positions_view(on_path@), (leaf_depth - 1) as nat, d)[d as int],
                        on_path@[d - 1]@,
                        t,
                        false,
                    ),
                ) && lut_contents(*final(hash_lut)) == lut_fold(
                    lut_after(
                        levels_view(old(inner_levels)@),
                        positions_view(on_path@),
                        (leaf_depth - 1) as nat,
                        d,
                        lut_contents(*old(hash_lut)),
                    ),
                    layers_after(levels_view(old(inner_levels)@), positions_view(on_path@), (leaf_depth - 1) as nat, d)[d as int],
                    on_path@[d - 1]@,
                    t,
                    false,
                    (d - 1) as nat,
                ),
    {
        let ghost ops = on_path@.map_values(|v: Vec<usize>| v@);
        let ghost target = inner_layers_spec(levels_view(inner_levels@), ops, (leaf_depth - 1) as nat);
        let ghost lut_target = inner_layers_lut(levels_view(inner_levels@), ops, (leaf_depth - 1) as nat, lut_contents(*hash_lut));
        let ghost lv_start = levels_view(inner_levels@);
        let ghost lut_start = lut_contents(*hash_lut);
        let ghost top = (leaf_depth - 1) as nat;
        assert(ops == positions_view(on_path@));
        let mut depth: usize = leaf_depth - 1;
        while depth > 0
            invariant
                lv_start == levels_view(old(inner_levels)@),
                lut_start == lut_contents(*old(hash_lut)),
                top == leaf_depth - 1,
                ops == positions_view(on_path@),
                levels_view(inner_levels@) == layers_after(lv_start, ops, top, depth as nat),
                lut_contents(*hash_lut) == lut_after(lv_start, ops, top, depth as nat, lut_start),
                forall|e: nat| depth < e <= top ==> children_present(#[trigger] layers_after(lv_start, ops, top, e)[e as int], ops[e - 1]),
                lut_target == inner_layers_lut(levels_view(old(inner_levels)@), ops, (leaf_depth - 1) as nat, lut_contents(*old(hash_lut))),
                inner_layers_lut(levels_view(inner_levels@), ops, depth as nat, lut_contents(*hash_lut)) == lut_target,
                ops == on_path@.map_values(|v: Vec<usize>| v@),
                depth < leaf_depth,
                1 <= leaf_depth < on_path@.len(),
                leaf_depth <= inner_levels@.len(),
                leaf_depth <= usize::BITS,
                forall|j: int, t: int|
                    0 <= j < leaf_depth && 0 <= t < on_path@[j]@.len() ==> 2 * #[trigger] on_path@[j]@[t]
                        + 1 <= usize::MAX && pow2(j as nat) - 1 + on_path@[j]@[t] <= usize::MAX,
                inner_levels@.len() == old(inner_levels)@.len(),
                inner_layers_spec(levels_view(inner_levels@), ops, depth as nat) == target,
                target == inner_layers_spec(levels_view(old(inner_levels)@), ops, (leaf_depth - 1) as nat),
            decreases depth,
        {
            let parent_depth = depth - 1;
            let ps = &on_path[parent_depth];
            let ghost psv = ps@;
            let ghost lv0 = levels_view(inner_levels@);
            let ghost lut0 = lut_contents(*hash_lut);
            let ghost children = lv0[depth as int];
            assert(ops[parent_depth as int] == psv);
            let mut t: usize = 0;
            while t < ps.len()
                invariant
                    psv == ps@,
                    lv_start == levels_view(old(inner_levels)@),
                    lut_start == lut_contents(*old(hash_lut)),
                    top == leaf_depth - 1,
                    depth <= top,
                    ops == positions_view(on_path@),
                    lv0 == layers_after(lv_start, ops, top, depth as nat),
                    lut0 == lut_after(lv_start, ops, top, depth as nat, lut_start),
                    forall|e: nat| depth < e <= top ==> children_present(#[trigger] layers_after(lv_start, ops, top, e)[e as int], ops[e - 1]),
                    lut_contents(*hash_lut) == lut_fold(lut0, children, psv, t as nat, false, parent_depth as nat),
                    inner_layers_lut(lv0, ops, depth as nat, lut0) == lut_target,
                    ops == on_path@.map_values(|v: Vec<usize>| v@),
                    target == inner_layers_spec(levels_view(old(inner_levels)@), ops, (leaf_depth - 1) as nat),
                    inner_layers_spec(lv0, ops, depth as nat) == target,
                    parent_depth < ops.len(),
                    ops[parent_depth as int] == psv,
                    inner_levels@.len() == old(inner_levels)@.len(),
                    parent_depth + 1 == depth,
                    depth < inner_levels@.len(),
                    parent_depth < usize::BITS,
                    inner_levels@.len() == lv0.len(),
                    children == lv0[depth as int],
                    forall|u: int|
                        0 <= u < psv.len() ==> 2 * #[trigger] psv[u] + 1 <= usize::MAX && pow2(
                            parent_depth as nat,
                        ) - 1 + psv[u] <= usize::MAX,
                    0 <= t <= psv.len(),
                    forall|u: int| 0 <= u < t ==> children.contains_key((2 * psv[u]) as usize)
                        && children.contains_key((2 * psv[u] + 1) as usize),
                    levels_view(inner_levels@) == lv0.update(
                        parent_depth as int,
                        parents_fold(lv0[parent_depth as int], children, psv, t as nat, false),
                    ),
                decreases psv.len() - t,
            {
                let parent_index = ps[t];
                assert(levels_view(inner_levels@)[depth as int] == children);
                assert(levels_view(inner_levels@)[depth as int] == map_view(inner_levels@[depth as int]@));
                let left = match inner_levels[depth].get(&(parent_index * 2)) {
                    Some(left) => copy_bytes(left.as_slice()),
                    None => {
                        proof {
                            assert(!inner_levels@[depth as int]@.contains_key((parent_index * 2) as usize));
                            assert(!children.contains_key((2 * psv[t as int]) as usize));
                            assert(!children_present(children, psv));
                            assert(inner_layers_spec(lv0, ops, depth as nat) is None);
                            assert(!has_children(children, psv, t as int));
                            assert(forall|u: int| 0 <= u < t ==> #[trigger] has_children(children, psv, u));
                            assert(refused_inner_at(lv_start, ops, top, depth as nat, t as nat));
                            assert(on_path@[parent_depth as int]@ == psv);
                        }
                        return Ok(false);
                    },
                };
                let right = match inner_levels[depth].get(&(parent_index * 2 + 1)) {
                    Some(right) => copy_bytes(right.as_slice()),
                    None => {
                        proof {
                            assert(!inner_levels@[depth as int]@.contains_key((parent_index * 2 + 1) as usize));
                            assert(!children.contains_key((2 * psv[t as int] + 1) as usize));
                            assert(!children_present(children, psv));
                            assert(inner_layers_spec(lv0, ops, depth as nat) is None);
                            assert(!has_children(children, psv, t as int));
                            assert(forall|u: int| 0 <= u < t ==> #[trigger] has_children(children, psv, u));
                            assert(refused_inner_at(lv_start, ops, top, depth as nat, t as nat));
                            assert(on_path@[parent_depth as int]@ == psv);
                        }
                        return Ok(false);
                    },
                };
                proof {
                    assert(children[(2 * psv[t as int]) as usize] == left@);
                    assert(children[(2 * psv[t as int] + 1) as usize] == right@);
                }
                let parent = MerkleByteDigest::compress(left.as_slice(), right.as_slice());
                let heap_idx = level_index(parent_depth, parent_index);
                hash_lut.insert(heap_idx, copy_bytes(parent.as_slice()));
                let ghost before = inner_levels@;
                let ghost pv = parent@;
                assert(levels_view(before)[parent_depth as int] == map_view(before[parent_depth as int]@));
                assert(map_view(before[parent_depth as int]@) == parents_fold(lv0[parent_depth as int], children, psv, t as nat, false));
                inner_levels[parent_depth].insert(parent_index, parent);
                proof {
                    assert(inner_levels@ == before.update(parent_depth as int, inner_levels@[parent_depth as int]));
                    assert(map_view(inner_levels@[parent_depth as int]@) =~= map_view(before[parent_depth as int]@).insert(parent_index, pv));
                }
                t = t + 1;
                proof {
                    assert(parents_fold(lv0[parent_depth as int], children, psv, t as nat, false)
                        == parents_fold(lv0[parent_depth as int], children, psv, (t - 1) as nat, false).insert(psv[t - 1], pv));
                    let ghost target = lv0.update(parent_depth as int, parents_fold(lv0[parent_depth as int], children, psv, t as nat, false));
                    assert forall|i: int| 0 <= i < inner_levels@.len() implies #[trigger] levels_view(inner_levels@)[i] == target[i] by {
                        assert(levels_view(inner_levels@)[i] == map_view(inner_levels@[i]@));
                        if i != parent_depth {
                            assert(levels_view(before)[i] == map_view(before[i]@));
                        }
                    }
                    assert(levels_view(inner_levels@) =~= target);
                }
            }
            proof {
                lemma_layers_after_step(lv_start, ops, top, depth as nat, lut_start);
                assert(children_present(lv0[depth as int], ops[parent_depth as int]));
                assert forall|e: nat| depth - 1 < e <= top implies children_present(#[trigger] layers_after(lv_start, ops, top, e)[e as int], ops[e - 1]) by {
                    if e == depth {
                        assert(layers_after(lv_start, ops, top, e) == lv0);
                    }
                }
            }
            depth = depth - 1;
        }
        Ok(true)
    }
}

/// `n` empty digest maps, one per depth.
pub(crate) fn empty_level_maps(n: usize) -> (r: Vec<BTreeMap<usize, Vec<u8>>>)
    ensures
        r@.len() == n,
        levels_view(r@) == empty_levels(n as nat),
{
    let mut inner_levels: Vec<BTreeMap<usize, Vec<u8>>> = Vec::new();
    let mut k: usize = 0;
    while k < n
        invariant
            k <= n,
            inner_levels@.len() == k,
            levels_view(inner_levels@) == empty_levels(k as nat),
        decreases n - k,
    {
        let ghost before = inner_levels@;
        inner_levels.push(BTreeMap::new());
        proof {
            assert forall|i: int| 0 <= i < k + 1 implies #[trigger] levels_view(inner_levels@)[i] == empty_levels((k + 1) as nat)[i] by {
                assert(levels_view(inner_levels@)[i] == map_view(inner_levels@[i]@));
                if i < k {
                    assert(inner_levels@[i] == before[i]);
                    assert(levels_view(before)[i] == map_view(before[i]@));
                } else {
                    assert(inner_levels@[i]@ == Map::<usize, Vec<u8>>::empty());
                    assert(map_view(inner_levels@[i]@) =~= Map::<usize, Seq<u8>>::empty());
                }
            }
            assert(levels_view(inner_levels@) =~= empty_levels((k + 1) as nat));
        }
        k = k + 1;
    }
    inner_levels
}

/// Inserting keys other than `k` leaves the entry of `k` as it was.
proof fn lemma_insert_all_other(
    m: Map<usize, Seq<u8>>,
    keys: Seq<usize>,
    vals: Seq<Seq<u8>>,
    n: nat,
    k: usize,
)
    requires
        n <= keys.len(),
        forall|u: int| 0 <= u < n ==> keys[u] != k,
    ensures
        insert_all(m, keys, vals, n).contains_key(k) == m.contains_key(k),
        m.contains_key(k) ==> insert_all(m, keys, vals, n)[k] == m[k],
    decreases n,
{
    if n > 0 {
        lemma_insert_all_other(m, keys, vals, (n - 1) as nat, k);
    }
}

} // verus!
