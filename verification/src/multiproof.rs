//! Generation of batch proofs from a tree.
use vstd::prelude::*;
use vstd::arithmetic::power2::pow2;
use crate::batch::{on_path_spec, lemma_on_path_facts};
use crate::copath::{CoPath, coset_set};
use crate::crh::copy_bytes;
use crate::error::Error;
use crate::implicit::ImplicitCoPath;
use crate::index::{sorted_seq_of, sorted_unique, compute_on_path, strictly_increasing, level_index, level_index_spec, lemma_sorted_seq_of};
use crate::model::digests_view;
use crate::packed::{pack_spec, packed_view, entries_view, coords_increasing};
use crate::path::sibling_pos;
use crate::tree::MerkleTree;
use crate::v2_bench::MultiPathV2Bench;

verus! {

/// The copath positions at `depth`: the siblings of the on-path positions that are not on a
/// path themselves, in increasing order.
pub open spec fn coset_positions(on_path: Seq<Seq<usize>>, depth: int) -> Seq<usize> {
    sorted_seq_of(coset_set(on_path[depth]))
}

/// The inner copath coordinates `(depth, index)` of the depths `1` to `n - 1`, depth by
/// depth, each depth's positions in increasing order.
pub open spec fn inner_coords(on_path: Seq<Seq<usize>>, n: nat) -> Seq<(usize, usize)>
    decreases n,
{
    if n <= 1 {
        Seq::empty()
    } else {
        inner_coords(on_path, (n - 1) as nat) + coset_positions(on_path, n - 1).map_values(
            |p: usize| ((n - 1) as usize, p),
        )
    }
}

/// The copath entries at the coordinates `coords`, each with the inner digest stored at its
/// level-order index in `inner`.
pub open spec fn coset_entries(inner: Seq<Seq<u8>>, coords: Seq<(usize, usize)>) -> Seq<(usize, usize, Seq<u8>)> {
    coords.map_values(
        |c: (usize, usize)| (c.0, c.1, inner[level_index_spec(c.0 as nat, c.1 as nat) as int]),
    )
}

/// The leaf copath: the leaf digests at the copath positions of the leaf level.
pub open spec fn leaf_copath_spec(leaves: Seq<Seq<u8>>, on_path: Seq<Seq<usize>>, leaf_depth: int) -> Seq<Seq<u8>> {
    coset_positions(on_path, leaf_depth).map_values(|p: usize| leaves[p as int])
}

/// The parts of the coset batch proof generated for `indexes` from `tree`: its height, the
/// sorted distinct indexes, the leaf copath digests, and the packed inner copath.
pub open spec fn coset_proof_spec(tree: MerkleTree, indexes: Seq<usize>) -> (
    nat,
    Seq<usize>,
    Seq<Seq<u8>>,
    Option<(usize, usize, Seq<u8>, Seq<Seq<u8>>)>,
) {
    let ld = (tree.spec_height() - 1) as nat;
    let on_path = on_path_spec(indexes.to_set(), ld);
    (
        tree.spec_height(),
        sorted_seq_of(indexes.to_set()),
        leaf_copath_spec(tree.leaves(), on_path, ld as int),
        pack_spec(coset_entries(tree.inner_nodes(), inner_coords(on_path, ld))),
    )
}

/// The parts of the coordinate-free batch proof generated for `indexes` from `tree`: its
/// height, the sorted distinct indexes, the leaf copath digests, and the inner copath digests.
pub open spec fn implicit_proof_spec(tree: MerkleTree, indexes: Seq<usize>) -> (nat, Seq<usize>, Seq<Seq<u8>>, Seq<Seq<u8>>) {
    let ld = (tree.spec_height() - 1) as nat;
    let on_path = on_path_spec(indexes.to_set(), ld);
    (
        tree.spec_height(),
        sorted_seq_of(indexes.to_set()),
        leaf_copath_spec(tree.leaves(), on_path, ld as int),
        coset_entries(tree.inner_nodes(), inner_coords(on_path, ld)).map_values(|e: (usize, usize, Seq<u8>)| e.2),
    )
}

/// Whether a leaf copath position lies beyond the leaves.
pub open spec fn leaf_copath_out_of_range(leaves: Seq<Seq<u8>>, on_path: Seq<Seq<usize>>, leaf_depth: int) -> bool {
    exists|t: int|
        0 <= t < coset_positions(on_path, leaf_depth).len() && #[trigger] coset_positions(on_path, leaf_depth)[t]
            >= leaves.len()
}

/// Whether an inner copath coordinate lies beyond the stored inner nodes.
pub open spec fn inner_copath_out_of_range(inner: Seq<Seq<u8>>, coords: Seq<(usize, usize)>) -> bool {
    exists|u: int|
        0 <= u < coords.len() && level_index_spec(#[trigger] coords[u].0 as nat, coords[u].1 as nat)
            >= inner.len()
}

/// The coordinates of `inner_coords(on_path, n)` are a prefix of those of any larger `m`.
pub proof fn lemma_inner_coords_prefix(on_path: Seq<Seq<usize>>, n: nat, m: nat)
    requires
        n <= m,
    ensures
        inner_coords(on_path, n).len() <= inner_coords(on_path, m).len(),
        forall|k: int| 0 <= k < inner_coords(on_path, n).len() ==> #[trigger] inner_coords(on_path, m)[k]
            == inner_coords(on_path, n)[k],
    decreases m,
{
    if m > n {
        lemma_inner_coords_prefix(on_path, n, (m - 1) as nat);
        if m > 1 {
            assert forall|k: int| 0 <= k < inner_coords(on_path, n).len() implies #[trigger] inner_coords(on_path, m)[k]
                == inner_coords(on_path, n)[k] by {
                assert(inner_coords(on_path, m)[k] == inner_coords(on_path, (m - 1) as nat)[k]);
            }
        }
    }
}

impl MerkleTree {
    /// The leaf copath of the on-path sets `on_path`: the leaf digests at the siblings of the
    /// on-path leaves that are not on a path, in increasing position order. Fails when such a
    /// position lies beyond the leaves.
    fn coset_leaf_digests(&self, leaf_depth: usize, on_path: &Vec<Vec<usize>>) -> (r: Result<Vec<Vec<u8>>, Error>)
        requires
            leaf_depth < on_path@.len(),
            strictly_increasing(on_path@[leaf_depth as int]@),
        ensures
            ({
                let ops = on_path@.map_values(|v: Vec<usize>| v@);
                &&& leaf_copath_out_of_range(self.leaves(), ops, leaf_depth as int) ==> r == Err::<
                    Vec<Vec<u8>>,
                    Error,
                >(Error::IncorrectInputLength(self.leaves().len() as usize))
                &&& !leaf_copath_out_of_range(self.leaves(), ops, leaf_depth as int) ==> (r matches Ok(v)
                    && digests_view(v@) == leaf_copath_spec(self.leaves(), ops, leaf_depth as int))
            }),
    {
        let ghost ops = on_path@.map_values(|v: Vec<usize>| v@);
        assert(ops[leaf_depth as int] == on_path@[leaf_depth as int]@);
        let positions = CoPath::expected_leaf_coset(leaf_depth, on_path);
        let ghost cs = positions@;
        assert(cs == coset_positions(ops, leaf_depth as int));
        let mut leaf_copath: Vec<Vec<u8>> = Vec::new();
        let mut t: usize = 0;
        while t < positions.len()
            invariant
                cs == positions@,
                ops == on_path@.map_values(|v: Vec<usize>| v@),
                cs == coset_positions(ops, leaf_depth as int),
                t <= cs.len(),
                leaf_copath@.len() == t,
                forall|u: int| 0 <= u < t ==> cs[u] < self.leaves().len(),
                forall|u: int| 0 <= u < t ==> #[trigger] leaf_copath@[u]@ == self.leaves()[cs[u] as int],
            decreases cs.len() - t,
        {
            let sibling_idx = positions[t];
            let sibling_digest = match self.leaf_node(sibling_idx) {
                Some(v) => v,
                None => {
                    assert(cs[t as int] >= self.leaves().len());
                    return Err(Error::IncorrectInputLength(self.leaf_count()));
                },
            };
            leaf_copath.push(copy_bytes(sibling_digest.as_slice()));
            t = t + 1;
        }
        assert(digests_view(leaf_copath@) =~= leaf_copath_spec(self.leaves(), ops, leaf_depth as int));
        Ok(leaf_copath)
    }

    /// The inner copath entries of the on-path sets `on_path`, for the depths `1` to
    /// `leaf_depth - 1`, depth by depth in increasing position order, each with its stored
    /// digest. Fails when a level-order index lies beyond the stored inner nodes.
    fn coset_inner_entries(&self, leaf_depth: usize, on_path: &Vec<Vec<usize>>) -> (r: Result<
        Vec<(usize, usize, Vec<u8>)>,
        Error,
    >)
        requires
            1 <= leaf_depth < usize::BITS,
            on_path@.len() == leaf_depth + 1,
            forall|j: int| 0 <= j <= leaf_depth ==> #[trigger] strictly_increasing(on_path@[j]@),
            forall|j: int, t: int|
                0 <= j < leaf_depth && 0 <= t < on_path@[j]@.len() ==> pow2(j as nat)
                    + #[trigger] on_path@[j]@[t] <= usize::MAX,
        ensures
            ({
                let ops = on_path@.map_values(|v: Vec<usize>| v@);
                let coords = inner_coords(ops, leaf_depth as nat);
                &&& inner_copath_out_of_range(self.inner_nodes(), coords) ==> r == Err::<
                    Vec<(usize, usize, Vec<u8>)>,
                    Error,
                >(Error::IncorrectInputLength(self.inner_nodes().len() as usize))
                &&& !inner_copath_out_of_range(self.inner_nodes(), coords) ==> (r matches Ok(v)
                    && entries_view(v@) == coset_entries(self.inner_nodes(), coords)
                    && coords_increasing(entries_view(v@)))
            }),
    {
        let ghost ops = on_path@.map_values(|v: Vec<usize>| v@);
        let ghost inner = self.inner_nodes();
        let mut entries: Vec<(usize, usize, Vec<u8>)> = Vec::new();
        let mut depth: usize = 1;
        while depth < leaf_depth
            invariant
                ops == on_path@.map_values(|v: Vec<usize>| v@),
                inner == self.inner_nodes(),
                1 <= depth <= leaf_depth < usize::BITS,
                on_path@.len() == leaf_depth + 1,
                forall|j: int| 0 <= j <= leaf_depth ==> #[trigger] strictly_increasing(on_path@[j]@),
                forall|j: int, t: int|
                    0 <= j < leaf_depth && 0 <= t < on_path@[j]@.len() ==> pow2(j as nat)
                        + #[trigger] on_path@[j]@[t] <= usize::MAX,
                entries_view(entries@) == coset_entries(inner, inner_coords(ops, depth as nat)),
                forall|u: int|
                    0 <= u < entries@.len() ==> level_index_spec(#[trigger] entries@[u].0 as nat, entries@[u].1 as nat)
                        < inner.len(),
                forall|u: int| 0 <= u < entries@.len() ==> #[trigger] entries@[u].0 < depth,
                coords_increasing(entries_view(entries@)),
            decreases leaf_depth - depth,
        {
            assert(ops[depth as int] == on_path@[depth as int]@);
            let positions = CoPath::expected_leaf_coset(depth, on_path);
            let ghost cs = positions@;
            let ghost base = inner_coords(ops, depth as nat);
            let ghost e0 = entries@;
            assert(cs == coset_positions(ops, depth as int));
            let mut t: usize = 0;
            while t < positions.len()
                invariant
                    cs == positions@,
                    cs == coset_positions(ops, depth as int),
                    forall|x: usize| #[trigger] cs.contains(x) <==> coset_set(on_path@[depth as int]@).contains(x),
                    ops == on_path@.map_values(|v: Vec<usize>| v@),
                    inner == self.inner_nodes(),
                    1 <= depth < leaf_depth < usize::BITS,
                    on_path@.len() == leaf_depth + 1,
                    forall|j: int, t: int|
                        0 <= j < leaf_depth && 0 <= t < on_path@[j]@.len() ==> pow2(j as nat)
                            + #[trigger] on_path@[j]@[t] <= usize::MAX,
                    base == inner_coords(ops, depth as nat),
                    entries_view(e0) == coset_entries(inner, base),
                    t <= cs.len(),
                    entries@.len() == e0.len() + t,
                    forall|u: int| 0 <= u < e0.len() ==> entries@[u] == e0[u],
                    forall|u: int|
                        0 <= u < t ==> #[trigger] entries@[e0.len() + u].0 == depth && entries@[e0.len() + u].1 == cs[u]
                            && entries@[e0.len() + u].2@ == inner[level_index_spec(depth as nat, cs[u] as nat) as int],
                    forall|u: int|
                        0 <= u < entries@.len() ==> level_index_spec(#[trigger] entries@[u].0 as nat, entries@[u].1 as nat)
                            < inner.len(),
                    strictly_increasing(cs),
                    forall|u: int| 0 <= u < e0.len() ==> #[trigger] e0[u].0 < depth,
                    forall|u: int| 0 <= u < entries@.len() ==> #[trigger] entries@[u].0 <= depth,
                    coords_increasing(entries_view(e0)),
                    coords_increasing(entries_view(entries@)),
                    t > 0 ==> entries@[entries@.len() - 1].0 == depth && entries@[entries@.len() - 1].1 == cs[t - 1],
                decreases cs.len() - t,
            {
                let sibling_idx = positions[t];
                proof {
                    assert(cs.contains(sibling_idx));
                    let u = choose|u: int| 0 <= u < on_path@[depth as int]@.len() && sibling_idx == sibling_pos(on_path@[depth as int]@[u] as nat);
                    assert(pow2(depth as nat) + on_path@[depth as int]@[u] <= usize::MAX);
                }
                let heap_idx = level_index(depth, sibling_idx);
                let sibling_digest = match self.inner_node(heap_idx) {
                    Some(v) => v,
                    None => {
                        proof {
                            let coords = inner_coords(ops, leaf_depth as nat);
                            let next = inner_coords(ops, (depth + 1) as nat);
                            assert(next == base + cs.map_values(|p: usize| (depth as usize, p)));
                            lemma_inner_coords_prefix(ops, (depth + 1) as nat, leaf_depth as nat);
                            assert(entries_view(e0).len() == e0.len());
                            assert(coset_entries(inner, base).len() == base.len());
                            assert(base.len() == e0.len());
                            let k = base.len() + t;
                            assert(next[k as int] == (depth, sibling_idx));
                            assert(coords[k as int] == next[k as int]);
                            assert(level_index_spec(coords[k as int].0 as nat, coords[k as int].1 as nat) >= inner.len());
                        }
                        return Err(Error::IncorrectInputLength(self.inner_count()));
                    },
                };
                let ghost before = entries@;
                entries.push((depth, sibling_idx, copy_bytes(sibling_digest.as_slice())));
                proof {
                    assert forall|u: int|
                        0 <= u < t + 1 implies #[trigger] entries@[e0.len() + u].0 == depth && entries@[e0.len() + u].1 == cs[u]
                            && entries@[e0.len() + u].2@ == inner[level_index_spec(depth as nat, cs[u] as nat) as int] by {
                        if u < t {
                            assert(before[e0.len() + u].0 == depth);
                            assert(entries@[e0.len() + u] == before[e0.len() + u]);
                        }
                    }
                    let ev = entries_view(entries@);
                    assert forall|a: int, b: int| 0 <= a < b < ev.len() implies #[trigger] ev[a].0 < #[trigger] ev[b].0
                        || (ev[a].0 == ev[b].0 && ev[a].1 < ev[b].1) by {
                        if b == ev.len() - 1 {
                            if a >= e0.len() {
                                let w = a - e0.len();
                                assert(before[e0.len() + w].0 == depth);
                                assert(before[e0.len() + w].1 == cs[w]);
                                assert(entries@[a] == before[a]);
                                assert(cs[w] < cs[t as int]);
                            } else {
                                assert(entries@[a] == e0[a]);
                            }
                        } else {
                            assert(entries_view(before)[a] == ev[a]);
                            assert(entries_view(before)[b] == ev[b]);
                        }
                    }
                }
                t = t + 1;
            }
            proof {
                let next = inner_coords(ops, (depth + 1) as nat);
                assert(next == base + cs.map_values(|p: usize| (depth as usize, p)));
                assert(entries_view(e0).len() == e0.len());
                assert(coset_entries(inner, base).len() == base.len());
                assert(base.len() == e0.len());
                assert(entries_view(entries@) =~= coset_entries(inner, next)) by {
                    assert forall|u: int| 0 <= u < entries@.len() implies #[trigger] entries_view(entries@)[u] == coset_entries(inner, next)[u] by {
                        if u < e0.len() {
                            assert(entries_view(e0)[u] == coset_entries(inner, base)[u]);
                        } else {
                            let w = u - e0.len();
                            assert(entries@[e0.len() + w].0 == depth);
                        }
                    }
                }
            }
            depth = depth + 1;
        }
        proof {
            let coords = inner_coords(ops, leaf_depth as nat);
            assert(coords.len() == entries@.len());
            if inner_copath_out_of_range(inner, coords) {
                let u = choose|u: int|
                    0 <= u < coords.len() && level_index_spec(#[trigger] coords[u].0 as nat, coords[u].1 as nat) >= inner.len();
                assert(entries_view(entries@)[u] == coset_entries(inner, coords)[u]);
                assert(entries@[u].0 == coords[u].0 && entries@[u].1 == coords[u].1);
            }
        }
        Ok(entries)
    }

    /// The parts of a batch proof for the nonempty `indexes`: the sorted distinct indexes, the
    /// leaf copath and the inner copath entries of their on-path sets.
    fn coset_parts(&self, indexes: &[usize]) -> (r: Result<
        (Vec<usize>, Vec<Vec<u8>>, Vec<(usize, usize, Vec<u8>)>),
        Error,
    >)
        requires
            self.wf(),
        ensures
            ({
                let ld = (self.spec_height() - 1) as nat;
                let on_path = on_path_spec(indexes@.to_set(), ld);
                let leaf_bad = leaf_copath_out_of_range(self.leaves(), on_path, ld as int);
                let inner_bad = inner_copath_out_of_range(self.inner_nodes(), inner_coords(on_path, ld));
                &&& leaf_bad ==> r == Err::<(Vec<usize>, Vec<Vec<u8>>, Vec<(usize, usize, Vec<u8>)>), Error>(
                    Error::IncorrectInputLength(self.leaves().len() as usize),
                )
                &&& !leaf_bad && inner_bad ==> r == Err::<(Vec<usize>, Vec<Vec<u8>>, Vec<(usize, usize, Vec<u8>)>), Error>(
                    Error::IncorrectInputLength(self.inner_nodes().len() as usize),
                )
                &&& !leaf_bad && !inner_bad ==> (r matches Ok(p) && p.0@ == sorted_seq_of(indexes@.to_set())
                    && digests_view(p.1@) == leaf_copath_spec(self.leaves(), on_path, ld as int)
                    && entries_view(p.2@) == coset_entries(self.inner_nodes(), inner_coords(on_path, ld))
                    && coords_increasing(entries_view(p.2@)))
            }),
    {
        proof {
            self.lemma_wf();
        }
        let sorted = sorted_unique(indexes);
        let d = self.height();
        let leaf_depth = d - 1;
        let on_path = compute_on_path(leaf_depth, &sorted);
        let ghost ops = on_path@.map_values(|v: Vec<usize>| v@);
        proof {
            assert forall|j: int| 0 <= j < on_path@.len() implies #[trigger] on_path@[j]@ == ops[j] by {}
            lemma_on_path_facts(indexes@, sorted@, ops, leaf_depth as nat);
            assert forall|x: usize| #[trigger] sorted@.contains(x) <==> indexes@.to_set().contains(x) by {}
            lemma_sorted_seq_of(sorted@, indexes@.to_set());
        }
        let leaf_copath = match self.coset_leaf_digests(leaf_depth, &on_path) {
            Ok(v) => v,
            Err(e) => {
                return Err(e);
            },
        };
        let entries = match self.coset_inner_entries(leaf_depth, &on_path) {
            Ok(v) => v,
            Err(e) => {
                return Err(e);
            },
        };
        Ok((sorted, leaf_copath, entries))
    }

    /// A coset batch proof of membership of the leaves at `indexes` (duplicates dropped,
    /// sorted): the leaf copath, and the inner copath packed in `(depth, index)` order. An
    /// empty `indexes` gives an empty proof. Fails when a copath position lies beyond the tree.
    pub fn generate_multi_proof(&self, indexes: &[usize]) -> (r: Result<CoPath, Error>)
        requires
            self.wf(),
        ensures
            indexes@.len() == 0 ==> (r matches Ok(p) && p.tree_height == self.spec_height()
                && p.leaf_copath@.len() == 0 && p.inner_copath is None && p.leaf_indexes@.len() == 0),
            ({
                let ld = (self.spec_height() - 1) as nat;
                let on_path = on_path_spec(indexes@.to_set(), ld);
                let coords = inner_coords(on_path, ld);
                let leaf_bad = leaf_copath_out_of_range(self.leaves(), on_path, ld as int);
                let inner_bad = inner_copath_out_of_range(self.inner_nodes(), coords);
                &&& indexes@.len() > 0 && leaf_bad ==> r == Err::<CoPath, Error>(
                    Error::IncorrectInputLength(self.leaves().len() as usize),
                )
                &&& indexes@.len() > 0 && !leaf_bad && inner_bad ==> r == Err::<CoPath, Error>(
                    Error::IncorrectInputLength(self.inner_nodes().len() as usize),
                )
                &&& indexes@.len() > 0 && !leaf_bad && !inner_bad ==> (r matches Ok(p)
                    && p.tree_height == self.spec_height()
                    && p.leaf_indexes@ == sorted_seq_of(indexes@.to_set())
                    && digests_view(p.leaf_copath@) == leaf_copath_spec(self.leaves(), on_path, ld as int)
                    && packed_view(p.inner_copath) == pack_spec(coset_entries(self.inner_nodes(), coords))
                    && (p.tree_height as nat, p.leaf_indexes@, digests_view(p.leaf_copath@), packed_view(p.inner_copath))
                        == coset_proof_spec(*self, indexes@))
            }),
    {
        if indexes.len() == 0 {
            return Ok(CoPath { tree_height: self.height(), leaf_copath: Vec::new(), inner_copath: None, leaf_indexes: Vec::new() });
        }
        match self.coset_parts(indexes) {
            Ok((leaf_indexes, leaf_copath, entries)) => {
                // The entries come depth by depth in increasing position order, already in
                // `(depth, index)` order.
                let inner_copath = CoPath::pack_inner_copath(entries.as_slice());
                Ok(CoPath { tree_height: self.height(), leaf_copath, inner_copath, leaf_indexes })
            },
            Err(e) => Err(e),
        }
    }

    /// A coordinate-free batch proof of membership of the leaves at `indexes` (duplicates
    /// dropped, sorted): the leaf copath and the inner copath digests, in the order in which
    /// the verifier derives their positions. An empty `indexes` gives an empty proof. Fails
    /// when a copath position lies beyond the tree.
    pub fn generate_implicit_multi_proof(&self, indexes: &[usize]) -> (r: Result<ImplicitCoPath, Error>)
        requires
            self.wf(),
        ensures
            indexes@.len() == 0 ==> (r matches Ok(p) && p.tree_height == self.spec_height()
                && p.leaf_copath@.len() == 0 && p.inner_copath@.len() == 0 && p.leaf_indexes@.len() == 0),
            ({
                let ld = (self.spec_height() - 1) as nat;
                let on_path = on_path_spec(indexes@.to_set(), ld);
                let coords = inner_coords(on_path, ld);
                let leaf_bad = leaf_copath_out_of_range(self.leaves(), on_path, ld as int);
                let inner_bad = inner_copath_out_of_range(self.inner_nodes(), coords);
                &&& indexes@.len() > 0 && leaf_bad ==> r == Err::<ImplicitCoPath, Error>(
                    Error::IncorrectInputLength(self.leaves().len() as usize),
                )
                &&& indexes@.len() > 0 && !leaf_bad && inner_bad ==> r == Err::<ImplicitCoPath, Error>(
                    Error::IncorrectInputLength(self.inner_nodes().len() as usize),
                )
                &&& indexes@.len() > 0 && !leaf_bad && !inner_bad ==> (r matches Ok(p)
                    && p.tree_height == self.spec_height()
                    && p.leaf_indexes@ == sorted_seq_of(indexes@.to_set())
                    && digests_view(p.leaf_copath@) == leaf_copath_spec(self.leaves(), on_path, ld as int)
                    && digests_view(p.inner_copath@) == coset_entries(self.inner_nodes(), coords).map_values(
                        |e: (usize, usize, Seq<u8>)| e.2,
                    )
                    && (p.tree_height as nat, p.leaf_indexes@, digests_view(p.leaf_copath@), digests_view(p.inner_copath@))
                        == implicit_proof_spec(*self, indexes@))
            }),
    {
        if indexes.len() == 0 {
            return Ok(ImplicitCoPath { tree_height: self.height(), leaf_copath: Vec::new(), inner_copath: Vec::new(), leaf_indexes: Vec::new() });
        }
        match self.coset_parts(indexes) {
            Ok((leaf_indexes, leaf_copath, entries)) => {
                let mut inner_copath: Vec<Vec<u8>> = Vec::new();
                let mut t: usize = 0;
                while t < entries.len()
                    invariant
                        t <= entries@.len(),
                        inner_copath@.len() == t,
                        forall|u: int| 0 <= u < t ==> #[trigger] inner_copath@[u]@ == entries@[u].2@,
                    decreases entries@.len() - t,
                {
                    inner_copath.push(copy_bytes(entries[t].2.as_slice()));
                    t = t + 1;
                }
                proof {
                    let ev = entries_view(entries@);
                    assert(digests_view(inner_copath@) =~= ev.map_values(|e: (usize, usize, Seq<u8>)| e.2));
                }
                Ok(ImplicitCoPath { tree_height: self.height(), leaf_copath, inner_copath, leaf_indexes })
            },
            Err(e) => Err(e),
        }
    }

    /// A coset batch proof of membership of the leaves at `indexes`, in the benchmark layout:
    /// the same content as [`MerkleTree::generate_multi_proof`].
    pub fn generate_multi_proof_v2_bench(&self, indexes: &[usize]) -> (r: Result<MultiPathV2Bench, Error>)
        requires
            self.wf(),
        ensures
            indexes@.len() == 0 ==> (r matches Ok(p) && p.tree_height == self.spec_height()
                && p.leaf_copath@.len() == 0 && p.inner_copath is None && p.leaf_indexes@.len() == 0),
            ({
                let ld = (self.spec_height() - 1) as nat;
                let on_path = on_path_spec(indexes@.to_set(), ld);
                let coords = inner_coords(on_path, ld);
                let leaf_bad = leaf_copath_out_of_range(self.leaves(), on_path, ld as int);
                let inner_bad = inner_copath_out_of_range(self.inner_nodes(), coords);
                &&& indexes@.len() > 0 && leaf_bad ==> r == Err::<MultiPathV2Bench, Error>(
                    Error::IncorrectInputLength(self.leaves().len() as usize),
                )
                &&& indexes@.len() > 0 && !leaf_bad && inner_bad ==> r == Err::<MultiPathV2Bench, Error>(
                    Error::IncorrectInputLength(self.inner_nodes().len() as usize),
                )
                &&& indexes@.len() > 0 && !leaf_bad && !inner_bad ==> (r matches Ok(p)
                    && p.tree_height == self.spec_height()
                    && p.leaf_indexes@ == sorted_seq_of(indexes@.to_set())
                    && digests_view(p.leaf_copath@) == leaf_copath_spec(self.leaves(), on_path, ld as int)
                    && packed_view(p.inner_copath) == pack_spec(coset_entries(self.inner_nodes(), coords)))
            }),
    {
        if indexes.len() == 0 {
            return Ok(MultiPathV2Bench { tree_height: self.height(), leaf_indexes: Vec::new(), leaf_copath: Vec::new(), inner_copath: None });
        }
        match self.coset_parts(indexes) {
            Ok((leaf_indexes, leaf_copath, entries)) => {
                let inner_copath = CoPath::pack_inner_copath(entries.as_slice());
                Ok(MultiPathV2Bench { tree_height: self.height(), leaf_indexes, leaf_copath, inner_copath })
            },
            Err(e) => Err(e),
        }
    }
}

} // verus!
