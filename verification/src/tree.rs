use vstd::prelude::*;
use vstd::arithmetic::power2::{pow2, lemma_pow2_unfold, lemma_pow2_pos, lemma_pow2_strictly_increases};
use crate::crh::{leaf_hash_spec, compress_spec, MerkleByteDigest, copy_bytes};
use vstd::arithmetic::div_mod::lemma_div_denominator;
use crate::converter::ByteDigestConverter;
use crate::error::Error;
use crate::index::{level_index, level_index_spec, left_child, right_child, tree_height, is_pow2, convert_index_to_last_level, parent, sibling, is_root};
use crate::path::{Path, sibling_pos, auth_path_spec};
use crate::model::{lemma_level_index_family, lemma_node_frame};
use crate::index::is_left_child;
use crate::crh::bytes_eq;
use crate::model::{node_spec, root_spec, digests_view, lemma_level_index_range, lemma_level_index_injective};

verus! {

/// A Merkle tree of runtime height `h` over `2^(h-1)` leaves. Leaf digests are
/// `SHA-256(leaf)`; the bottom inner layer hashes the two serialized leaf digests under the
/// leaf-pair tag, every layer above compresses its two children under the inner tag.
pub struct MerkleTree {
    /// The inner nodes in level order; the first is the root, the children of the node at
    /// `i` are at `2i + 1` and `2i + 2`.
    non_leaf_nodes: Vec<Vec<u8>>,
    /// The leaf digests from left to right.
    leaf_nodes: Vec<Vec<u8>>,
    /// The height of the tree (the number of levels, leaves included).
    height: usize,
}

impl MerkleTree {
    /// The leaf digests.
    pub closed spec fn leaves(&self) -> Seq<Seq<u8>> {
        digests_view(self.leaf_nodes@)
    }

    /// The height of the tree.
    pub closed spec fn spec_height(&self) -> nat {
        self.height as nat
    }

    /// The stored digest of inner node `pos` of level `depth`.
    pub closed spec fn stored(&self, depth: nat, pos: nat) -> Seq<u8> {
        self.non_leaf_nodes@[level_index_spec(depth, pos) as int]@
    }

    /// The stored inner digests, in level order.
    pub closed spec fn inner_nodes(&self) -> Seq<Seq<u8>> {
        digests_view(self.non_leaf_nodes@)
    }

    /// In a well-formed tree, the inner node `pos` of level `depth` is stored at its
    /// level-order index, and there are `2^(h-1) - 1` inner nodes.
    pub proof fn lemma_inner_nodes(&self)
        requires
            self.wf(),
        ensures
            self.inner_nodes().len() == pow2((self.spec_height() - 1) as nat) - 1,
            forall|d: nat, p: nat|
                d + 1 < self.spec_height() && p < pow2(d) ==> #[trigger] self.inner_nodes()[level_index_spec(d, p) as int]
                    == node_spec(self.leaves(), self.spec_height(), d, p),
    {
        assert forall|d: nat, p: nat|
            d + 1 < self.spec_height() && p < pow2(d) implies #[trigger] self.inner_nodes()[level_index_spec(d, p) as int]
                == node_spec(self.leaves(), self.spec_height(), d, p) by {
            assert(self.stored(d, p) == node_spec(self.leaves(), self.height as nat, d, p));
            lemma_level_index_range(d, p);
            if d + 1 < (self.height - 1) as nat {
                lemma_pow2_strictly_increases(d + 1, (self.height - 1) as nat);
            }
            assert(level_index_spec(d, p) < self.non_leaf_nodes@.len());
        }
    }

    /// The number of leaves.
    pub(crate) fn leaf_count(&self) -> (r: usize)
        ensures
            r == self.leaves().len(),
    {
        self.leaf_nodes.len()
    }

    /// The number of inner nodes.
    pub(crate) fn inner_count(&self) -> (r: usize)
        ensures
            r == self.inner_nodes().len(),
    {
        self.non_leaf_nodes.len()
    }

    /// The digest of leaf `i`, if there is such a leaf.
    pub(crate) fn leaf_node(&self, i: usize) -> (r: Option<&Vec<u8>>)
        ensures
            i < self.leaves().len() ==> (r matches Some(v) && v@ == self.leaves()[i as int]),
            i >= self.leaves().len() ==> r is None,
    {
        if i < self.leaf_nodes.len() {
            Some(&self.leaf_nodes[i])
        } else {
            None
        }
    }

    /// The inner digest stored at level-order index `h`, if there is one.
    pub(crate) fn inner_node(&self, h: usize) -> (r: Option<&Vec<u8>>)
        ensures
            h < self.inner_nodes().len() ==> (r matches Some(v) && v@ == self.inner_nodes()[h as int]),
            h >= self.inner_nodes().len() ==> r is None,
    {
        if h < self.non_leaf_nodes.len() {
            Some(&self.non_leaf_nodes[h])
        } else {
            None
        }
    }

    /// The stored root digest.
    pub closed spec fn spec_root(&self) -> Seq<u8> {
        self.non_leaf_nodes@[0]@
    }

    /// Every stored inner node holds the digest that the leaves determine.
    pub closed spec fn nodes_ok(&self) -> bool {
        forall|d: nat, p: nat|
            d + 1 < self.height && p < pow2(d) ==> #[trigger] self.stored(d, p) == node_spec(
                self.leaves(),
                self.height as nat,
                d,
                p,
            )
    }

    /// Well-formedness: height at least two, `2^(h-1)` leaves, `2^(h-1) - 1` inner nodes,
    /// each holding the digest of its subtree.
    pub closed spec fn wf(&self) -> bool {
        &&& 2 <= self.height <= usize::BITS
        &&& self.leaf_nodes@.len() == pow2((self.height - 1) as nat)
        &&& self.non_leaf_nodes@.len() == pow2((self.height - 1) as nat) - 1
        &&& self.nodes_ok()
    }

    /// In a well-formed tree the root is the digest of the whole tree, there are
    /// `2^(h-1)` leaves, and the height fits a `usize` shift.
    pub proof fn lemma_wf(&self)
        requires
            self.wf(),
        ensures
            self.spec_root() == root_spec(self.leaves(), self.spec_height()),
            self.leaves().len() == pow2((self.spec_height() - 1) as nat),
            self.leaves().len() >= 2,
            2 <= self.spec_height() <= usize::BITS,
    {
        vstd::arithmetic::power2::lemma2_to64();
        lemma_pow2_strictly_increases(0, (self.height - 1) as nat);
        assert(level_index_spec(0, 0) == 0);
        assert(self.stored(0, 0) == node_spec(self.leaves(), self.height as nat, 0, 0));
    }

    /// Builds the tree over the given leaf digests, whose number must be a power of two
    /// greater than one.
    pub fn new_with_leaf_digest(leaf_digests: Vec<Vec<u8>>) -> (r: Result<Self, Error>)
        requires
            is_pow2(leaf_digests@.len() as nat),
            leaf_digests@.len() > 1,
        ensures
            r is Ok,
            r matches Ok(t) && t.wf() && t.leaves() == digests_view(leaf_digests@)
                && pow2((t.spec_height() - 1) as nat) == leaf_digests@.len(),
    {
        let leaf_nodes_size = leaf_digests.len();
        let non_leaf_nodes_size = leaf_nodes_size - 1;
        let tree_height = tree_height(leaf_nodes_size);
        let ghost leaves = digests_view(leaf_digests@);
        let ghost h = tree_height as nat;
        proof {
            let k = choose|k: nat| pow2(k) == leaf_nodes_size as nat;
            vstd::arithmetic::power2::lemma2_to64();
            if k == 0 {
                assert(false);
            }
            if ((h - 1) as nat) < k {
                lemma_pow2_strictly_increases((h - 1) as nat, k);
            }
            if ((h - 2) as nat) > k {
                lemma_pow2_strictly_increases(k, (h - 2) as nat);
            }
            assert((h - 1) as nat == k);
            vstd::arithmetic::power2::lemma2_to64_rest();
            assert(pow2(usize::BITS as nat) == usize::MAX + 1);
            assert(h <= usize::BITS) by {
                if h > usize::BITS {
                    if ((h - 1) as nat) > usize::BITS {
                        lemma_pow2_strictly_increases(usize::BITS as nat, (h - 1) as nat);
                    }
                }
            }
            lemma_pow2_unfold(h);
            if h < usize::BITS {
                lemma_pow2_strictly_increases(h, usize::BITS as nat);
            }
        }

        let mut non_leaf_nodes: Vec<Vec<u8>> = Vec::new();
        let mut k: usize = 0;
        while k < non_leaf_nodes_size
            invariant
                k <= non_leaf_nodes_size,
                non_leaf_nodes@.len() == k,
            decreases non_leaf_nodes_size - k,
        {
            non_leaf_nodes.push(Vec::new());
            k = k + 1;
        }

        let mut d: usize = tree_height - 1;
        while d > 0
            invariant
                2 <= h <= usize::BITS,
                h == tree_height,
                pow2((h - 1) as nat) == leaf_nodes_size,
                2 * pow2((h - 1) as nat) <= usize::MAX + 1,
                leaf_digests@.len() == leaf_nodes_size,
                leaves == digests_view(leaf_digests@),
                non_leaf_nodes@.len() == leaf_nodes_size - 1,
                d <= h - 1,
                forall|dd: nat, pp: nat|
                    d <= dd && dd + 1 < h && pp < pow2(dd) ==> (
                    #[trigger] non_leaf_nodes@[level_index_spec(dd, pp) as int])@ == node_spec(
                        leaves,
                        h,
                        dd,
                        pp,
                    ),
            decreases d,
        {
            d = d - 1;
            proof {
                vstd::bits::lemma_usize_pow2_no_overflow(d as nat);
                lemma_pow2_unfold((d + 1) as nat);
                if d + 2 < h {
                    lemma_pow2_strictly_increases((d + 1) as nat, (h - 1) as nat);
                }
            }
            let start = level_index(d, 0);
            let width = start + 1;
            let mut p: usize = 0;
            while p < width
                invariant
                    2 <= h <= usize::BITS,
                    h == tree_height,
                    pow2((h - 1) as nat) == leaf_nodes_size,
                    2 * pow2((h - 1) as nat) <= usize::MAX + 1,
                    leaf_digests@.len() == leaf_nodes_size,
                    leaves == digests_view(leaf_digests@),
                    non_leaf_nodes@.len() == leaf_nodes_size - 1,
                    d + 1 < h,
                    start == pow2(d as nat) - 1,
                    width == pow2(d as nat),
                    pow2((d + 1) as nat) == 2 * pow2(d as nat),
                    pow2((d + 1) as nat) <= pow2((h - 1) as nat),
                    d + 2 < h ==> pow2((d + 1) as nat) < pow2((h - 1) as nat),
                    p <= width,
                    forall|dd: nat, pp: nat|
                        d < dd && dd + 1 < h && pp < pow2(dd) ==> (
                        #[trigger] non_leaf_nodes@[level_index_spec(dd, pp) as int])@ == node_spec(
                            leaves,
                            h,
                            dd,
                            pp,
                        ),
                    forall|pp: nat|
                        pp < p ==> (#[trigger] non_leaf_nodes@[level_index_spec(
                            d as nat,
                            pp,
                        ) as int])@ == node_spec(leaves, h, d as nat, pp),
                decreases width - p,
            {
                let current_index = start + p;
                proof {
                    lemma_level_index_range(d as nat, p as nat);
                }
                let lc = left_child(current_index);
                let rc = right_child(current_index);
                let node = if d + 2 == tree_height {
                    let upper_bound = left_child(start);
                    let left_leaf_index = lc - upper_bound;
                    let right_leaf_index = rc - upper_bound;
                    let left = match ByteDigestConverter::convert(
                        copy_bytes(leaf_digests[left_leaf_index].as_slice()),
                    ) {
                        Ok(b) => b,
                        Err(e) => {
                            return Err(e);
                        },
                    };
                    let right = match ByteDigestConverter::convert(
                        copy_bytes(leaf_digests[right_leaf_index].as_slice()),
                    ) {
                        Ok(b) => b,
                        Err(e) => {
                            return Err(e);
                        },
                    };
                    MerkleByteDigest::evaluate_pair(left.as_slice(), right.as_slice())
                } else {
                    proof {
                        lemma_level_index_range((d + 1) as nat, (2 * p + 1) as nat);
                        if d + 2 < h - 1 {
                            lemma_pow2_strictly_increases((d + 2) as nat, (h - 1) as nat);
                        }
                        assert(non_leaf_nodes@[level_index_spec((d + 1) as nat, 2 * p as nat) as int]@
                            == node_spec(leaves, h, (d + 1) as nat, 2 * p as nat));
                        assert(non_leaf_nodes@[level_index_spec(
                            (d + 1) as nat,
                            (2 * p + 1) as nat,
                        ) as int]@ == node_spec(leaves, h, (d + 1) as nat, (2 * p + 1) as nat));
                    }
                    MerkleByteDigest::compress(non_leaf_nodes[lc].as_slice(), non_leaf_nodes[rc].as_slice())
                };
                assert(node@ == node_spec(leaves, h, d as nat, p as nat));
                let ghost before = non_leaf_nodes@;
                non_leaf_nodes.set(current_index, node);
                proof {
                    assert forall|dd: nat, pp: nat|
                        d < dd && dd + 1 < h && pp < pow2(dd) implies (
                        #[trigger] non_leaf_nodes@[level_index_spec(dd, pp) as int])@ == node_spec(
                            leaves,
                            h,
                            dd,
                            pp,
                        ) by {
                        if level_index_spec(dd, pp) == current_index {
                            lemma_level_index_injective(dd, pp, d as nat, p as nat);
                        }
                        lemma_level_index_range(dd, pp);
                        if dd + 2 < h {
                            lemma_pow2_strictly_increases((dd + 1) as nat, (h - 1) as nat);
                        }
                        assert(before[level_index_spec(dd, pp) as int]@ == node_spec(leaves, h, dd, pp));
                    }
                    assert forall|pp: nat|
                        pp < p + 1 implies (#[trigger] non_leaf_nodes@[level_index_spec(
                            d as nat,
                            pp,
                        ) as int])@ == node_spec(leaves, h, d as nat, pp) by {
                        if pp < p {
                            if level_index_spec(d as nat, pp) == current_index {
                                lemma_level_index_injective(d as nat, pp, d as nat, p as nat);
                            }
                            assert(before[level_index_spec(d as nat, pp) as int]@ == node_spec(leaves, h, d as nat, pp));
                        }
                    }
                }
                p = p + 1;
            }
        }
        let t = MerkleTree { leaf_nodes: leaf_digests, non_leaf_nodes, height: tree_height };
        assert(t.nodes_ok()) by {
            assert forall|dd: nat, pp: nat|
                dd + 1 < t.height && pp < pow2(dd) implies #[trigger] t.stored(dd, pp) == node_spec(
                t.leaves(),
                t.height as nat,
                dd,
                pp,
            ) by {
                assert(t.non_leaf_nodes@[level_index_spec(dd, pp) as int]@ == node_spec(leaves, h, dd, pp));
            }
        }
        Ok(t)
    }

    /// Builds the tree over the digests of `leaves`, whose number must be a power of two
    /// greater than one.
    pub fn new(leaves: &[Vec<u8>]) -> (r: Result<Self, Error>)
        requires
            is_pow2(leaves@.len() as nat),
            leaves@.len() > 1,
        ensures
            r is Ok,
            r matches Ok(t) && t.wf() && t.leaves() == Seq::new(
                leaves@.len(),
                |i: int| leaf_hash_spec(leaves@[i]@),
            ) && pow2((t.spec_height() - 1) as nat) == leaves@.len(),
    {
        let mut leaf_digests: Vec<Vec<u8>> = Vec::new();
        let mut i: usize = 0;
        while i < leaves.len()
            invariant
                0 <= i <= leaves@.len(),
                leaf_digests@.len() == i,
                forall|j: int| 0 <= j < i ==> #[trigger] leaf_digests@[j]@ == leaf_hash_spec(leaves@[j]@),
            decreases leaves@.len() - i,
        {
            leaf_digests.push(MerkleByteDigest::evaluate(leaves[i].as_slice()));
            i = i + 1;
        }
        let r = Self::new_with_leaf_digest(leaf_digests);
        proof {
            if r is Ok {
                let t = r->Ok_0;
                assert(t.leaves() =~= Seq::new(leaves@.len(), |i: int| leaf_hash_spec(leaves@[i]@)));
            }
        }
        r
    }

    /// Builds a tree of the given height whose `2^(height-1)` leaf digests are all the
    /// empty (default) digest.
    pub fn blank(height: usize) -> (r: Result<Self, Error>)
        requires
            2 <= height <= usize::BITS,
        ensures
            r is Ok,
            r matches Ok(t) && t.wf() && t.spec_height() == height && t.leaves() == Seq::new(
                pow2((height - 1) as nat),
                |i: int| Seq::<u8>::empty(),
            ),
    {
        proof {
            vstd::bits::lemma_usize_pow2_no_overflow((height - 1) as nat);
            vstd::bits::lemma_usize_shl_is_mul(1usize, (height - 1) as usize);
        }
        let n = 1usize << (height - 1);
        let mut leaf_digests: Vec<Vec<u8>> = Vec::new();
        let mut i: usize = 0;
        while i < n
            invariant
                0 <= i <= n,
                leaf_digests@.len() == i,
                forall|j: int| 0 <= j < i ==> #[trigger] leaf_digests@[j]@ == Seq::<u8>::empty(),
            decreases n - i,
        {
            leaf_digests.push(Vec::new());
            i = i + 1;
        }
        proof {
            vstd::arithmetic::power2::lemma2_to64();
            lemma_pow2_strictly_increases(0, (height - 1) as nat);
        }
        let r = Self::new_with_leaf_digest(leaf_digests);
        proof {
            if r is Ok {
                let t = r->Ok_0;
                assert(t.leaves() =~= Seq::new(pow2((height - 1) as nat), |i: int| Seq::<u8>::empty()));
                if t.height != height {
                    if t.height < height {
                        lemma_pow2_strictly_increases((t.height - 1) as nat, (height - 1) as nat);
                    } else {
                        lemma_pow2_strictly_increases((height - 1) as nat, (t.height - 1) as nat);
                    }
                }
            }
        }
        r
    }

    /// The root digest.
    pub fn root(&self) -> (r: Vec<u8>)
        requires
            self.wf(),
        ensures
            r@ == root_spec(self.leaves(), self.spec_height()),
    {
        proof {
            self.lemma_wf();
        }
        copy_bytes(self.non_leaf_nodes[0].as_slice())
    }

    /// The height of the tree.
    pub fn height(&self) -> (r: usize)
        ensures
            r == self.spec_height(),
    {
        self.height
    }

    /// The digest of the sibling leaf of leaf `index`.
    pub fn get_leaf_sibling_hash(&self, index: usize) -> (r: Vec<u8>)
        requires
            self.wf(),
            index < self.leaves().len(),
        ensures
            r@ == self.leaves()[sibling_pos(index as nat) as int],
    {
        proof {
            self.lemma_wf();
            vstd::arithmetic::power2::lemma_pow2_unfold((self.height - 1) as nat);
        }
        assert(index & 1 == index % 2) by (bit_vector);
        if index & 1 == 0 {
            copy_bytes(self.leaf_nodes[index + 1].as_slice())
        } else {
            copy_bytes(self.leaf_nodes[index - 1].as_slice())
        }
    }

    /// The authentication path of leaf `index`, from the level below the root down.
    fn compute_auth_path(&self, index: usize) -> (r: Vec<Vec<u8>>)
        requires
            self.wf(),
            index < self.leaves().len(),
        ensures
            digests_view(r@) == auth_path_spec(self.leaves(), self.spec_height(), index as nat),
    {
        proof {
            self.lemma_wf();
            vstd::arithmetic::power2::lemma2_to64();
            vstd::arithmetic::power2::lemma2_to64_rest();
            lemma_pow2_unfold(self.height as nat);
            if self.height < usize::BITS {
                lemma_pow2_strictly_increases(self.height as nat, usize::BITS as nat);
            }
        }
        let tree_height = tree_height(self.leaf_nodes.len());
        proof {
            let h = self.height as nat;
            if ((tree_height - 1) as nat) < (h - 1) as nat {
                lemma_pow2_strictly_increases((tree_height - 1) as nat, (h - 1) as nat);
            }
            if ((tree_height - 2) as nat) > (h - 1) as nat {
                lemma_pow2_strictly_increases((h - 1) as nat, (tree_height - 2) as nat);
            }
        }
        assert(tree_height == self.height);
        let ghost h = tree_height as nat;
        let ghost leaves = self.leaves();
        assert(pow2(usize::BITS as nat) == usize::MAX + 1);
        assert(2 * pow2((h - 1) as nat) <= usize::MAX + 1);
        let leaf_index_in_tree = convert_index_to_last_level(index, tree_height);
        proof {
            lemma_level_index_family((h - 1) as nat, index as nat);
            lemma_pow2_pos(1);
        }
        let mut path: Vec<Vec<u8>> = Vec::new();
        let mut current_node = parent(leaf_index_in_tree).unwrap();
        let ghost mut d: nat = (h - 2) as nat;
        let ghost mut a: nat = index as nat / 2;
        proof {
            lemma_pow2_unfold((h - 1) as nat);
            assert(a == index as nat / pow2(1));
        }
        while !is_root(current_node)
            invariant
                self.wf(),
                h == self.height,
                leaves == self.leaves(),
                index < leaves.len(),
                2 * pow2((h - 1) as nat) <= usize::MAX + 1,
                leaves.len() == pow2((h - 1) as nat),
                d + 2 <= h,
                a < pow2(d),
                a == index as nat / pow2((h - 1 - d) as nat),
                current_node == level_index_spec(d, a),
                path@.len() == h - 2 - d,
                forall|t: int|
                    0 <= t < path@.len() ==> #[trigger] path@[t]@ == node_spec(
                        leaves,
                        h,
                        (h - 2 - t) as nat,
                        sibling_pos(index as nat / pow2((t + 1) as nat)),
                    ),
            decreases d,
        {
            proof {
                vstd::arithmetic::power2::lemma2_to64();
                if d == 0 {
                    assert(a == 0);
                    assert(current_node == 0);
                    assert(false);
                }
                lemma_level_index_family(d, a);
                lemma_level_index_range(d, a);
                if d + 1 < h - 1 {
                    lemma_pow2_strictly_increases(d + 1, (h - 1) as nat);
                }
            }
            let sibling_node = sibling(current_node).unwrap();
            proof {
                let sp = sibling_pos(a);
                assert(sp < pow2(d));
                assert(sibling_node == level_index_spec(d, sp));
                assert(self.stored(d, sp) == node_spec(leaves, h, d, sp));
            }
            path.push(copy_bytes(self.non_leaf_nodes[sibling_node].as_slice()));
            current_node = parent(current_node).unwrap();
            proof {
                let old_d = d;
                let old_a = a;
                d = (d - 1) as nat;
                a = old_a / 2;
                lemma_pow2_unfold(old_d);
                lemma_pow2_pos((h - 1 - old_d) as nat);
                lemma_div_denominator(index as int, pow2((h - 1 - old_d) as nat) as int, 2);
                lemma_pow2_unfold((h - 1 - d) as nat);
                assert(a == index as nat / pow2((h - 1 - d) as nat));
            }
        }
        assert(d == 0);
        let mut r: Vec<Vec<u8>> = Vec::new();
        let ghost full = path@;
        while path.len() > 0
            invariant
                path@ == full.subrange(0, path@.len() as int),
                r@.len() == full.len() - path@.len(),
                forall|j: int| 0 <= j < r@.len() ==> #[trigger] r@[j] == full[full.len() - 1 - j],
            decreases path@.len(),
        {
            let x = path.pop().unwrap();
            r.push(x);
        }
        proof {
            assert forall|j: int| 0 <= j < h - 2 implies #[trigger] digests_view(r@)[j]
                == auth_path_spec(leaves, h, index as nat)[j] by {
                let t = full.len() - 1 - j;
                assert(r@[j] == full[t]);
                assert((h - 2 - t) as nat == (j + 1) as nat);
                assert((t + 1) as nat == (h - 2 - j) as nat);
            }
            assert(digests_view(r@) =~= auth_path_spec(leaves, h, index as nat));
        }
        r
    }

    /// The proof of membership of leaf `index`: its sibling leaf digest and its
    /// authentication path.
    pub fn generate_proof(&self, index: usize) -> (r: Result<Path, Error>)
        requires
            self.wf(),
            index < self.leaves().len(),
        ensures
            r is Ok,
            r matches Ok(p) && p.leaf_index == index && p.leaf_sibling_hash@ == self.leaves()[sibling_pos(
                index as nat,
            ) as int] && digests_view(p.auth_path@) == auth_path_spec(
                self.leaves(),
                self.spec_height(),
                index as nat,
            ),
    {
        let path = self.compute_auth_path(index);
        Ok(Path { leaf_index: index, auth_path: path, leaf_sibling_hash: self.get_leaf_sibling_hash(index) })
    }

    /// The leaf digests after replacing leaf `index` by `new_leaf`.
    pub open spec fn updated_leaves(&self, index: nat, new_leaf: Seq<u8>) -> Seq<Seq<u8>> {
        self.leaves().update(index as int, leaf_hash_spec(new_leaf))
    }

    /// A node whose subtree does not hold leaf `index` keeps its digest when that leaf changes.
    proof fn lemma_off_path_node(
        leaves: Seq<Seq<u8>>,
        new_leaves: Seq<Seq<u8>>,
        h: nat,
        index: nat,
        d: nat,
        p: nat,
    )
        requires
            d + 1 <= h,
            p < pow2(d),
            leaves.len() == pow2((h - 1) as nat),
            leaves.len() == new_leaves.len(),
            index < leaves.len(),
            forall|q: int| 0 <= q < leaves.len() && q != index ==> leaves[q] == new_leaves[q],
            p != index / pow2((h - 1 - d) as nat),
        ensures
            node_spec(leaves, h, d, p) == node_spec(new_leaves, h, d, p),
    {
        let k = (h - 1 - d) as nat;
        lemma_pow2_pos(k);
        vstd::arithmetic::power2::lemma_pow2_adds(d, k);
        assert(d + k == (h - 1) as nat);
        assert((p + 1) * pow2(k) <= pow2(d) * pow2(k)) by (nonlinear_arith)
            requires
                p + 1 <= pow2(d),
                pow2(k) > 0,
        ;
        assert forall|q: int| p * pow2(k) <= q < (p + 1) * pow2(k) implies leaves[q] == new_leaves[q] by {
            if q == index {
                lemma_div_in_range(q, p as int, pow2(k) as int);
            }
        }
        lemma_node_frame(leaves, new_leaves, h, d, p);
    }

    /// Hashes `new_leaf` and returns its digest and the updated digests of its ancestors,
    /// ordered from the root down to the level above the leaves, as they would be if leaf
    /// `index` were replaced. The tree is not changed.
    fn updated_path(&self, index: usize, new_leaf: &[u8]) -> (r: (Vec<u8>, Vec<Vec<u8>>))
        requires
            self.wf(),
            index < self.leaves().len(),
        ensures
            r.0@ == leaf_hash_spec(new_leaf@),
            r.1@.len() == self.spec_height() - 1,
            forall|j: int|
                0 <= j < self.spec_height() - 1 ==> #[trigger] r.1@[j]@ == node_spec(
                    self.updated_leaves(index as nat, new_leaf@),
                    self.spec_height(),
                    j as nat,
                    index as nat / pow2((self.spec_height() - 1 - j) as nat),
                ),
    {
        proof {
            self.lemma_wf();
            vstd::arithmetic::power2::lemma2_to64();
            vstd::arithmetic::power2::lemma2_to64_rest();
            lemma_pow2_unfold(self.height as nat);
            if self.height < usize::BITS {
                lemma_pow2_strictly_increases(self.height as nat, usize::BITS as nat);
            }
            lemma_pow2_unfold((self.height - 1) as nat);
        }
        let ghost h = self.height as nat;
        let ghost leaves = self.leaves();
        let ghost new_leaves = self.updated_leaves(index as nat, new_leaf@);
        let new_leaf_hash = MerkleByteDigest::evaluate(new_leaf);
        assert(index & 1 == index % 2) by (bit_vector);
        let (leaf_left, leaf_right) = if index & 1 == 0 {
            (copy_bytes(new_leaf_hash.as_slice()), copy_bytes(self.leaf_nodes[index + 1].as_slice()))
        } else {
            (copy_bytes(self.leaf_nodes[index - 1].as_slice()), copy_bytes(new_leaf_hash.as_slice()))
        };
        let left = match ByteDigestConverter::convert(leaf_left) {
            Ok(b) => b,
            Err(_) => {
                assert(false);
                Vec::new()
            },
        };
        let right = match ByteDigestConverter::convert(leaf_right) {
            Ok(b) => b,
            Err(_) => {
                assert(false);
                Vec::new()
            },
        };
        let mut path_bottom_to_top: Vec<Vec<u8>> = Vec::new();
        path_bottom_to_top.push(MerkleByteDigest::evaluate_pair(left.as_slice(), right.as_slice()));
        proof {
            assert(new_leaves[index as int] == leaf_hash_spec(new_leaf@));
            assert(2 * (index as nat / 2) == index || 2 * (index as nat / 2) + 1 == index);
            assert(path_bottom_to_top@[0]@ == node_spec(new_leaves, h, (h - 2) as nat, index as nat / 2));
            assert(index as nat / 2 == index as nat / pow2(1));
        }
        let leaf_index_in_tree = convert_index_to_last_level(index, self.height);
        proof {
            lemma_level_index_family((h - 1) as nat, index as nat);
        }
        let mut prev_index = parent(leaf_index_in_tree).unwrap();
        let ghost mut d: nat = (h - 2) as nat;
        let ghost mut a: nat = index as nat / 2;
        while !is_root(prev_index)
            invariant
                self.wf(),
                h == self.height,
                leaves == self.leaves(),
                new_leaves == self.updated_leaves(index as nat, new_leaf@),
                index < leaves.len(),
                2 * pow2((h - 1) as nat) <= usize::MAX + 1,
                leaves.len() == pow2((h - 1) as nat),
                d + 2 <= h,
                a < pow2(d),
                a == index as nat / pow2((h - 1 - d) as nat),
                prev_index == level_index_spec(d, a),
                path_bottom_to_top@.len() == h - 1 - d,
                forall|t: int|
                    0 <= t < path_bottom_to_top@.len() ==> #[trigger] path_bottom_to_top@[t]@
                        == node_spec(
                        new_leaves,
                        h,
                        (h - 2 - t) as nat,
                        index as nat / pow2((t + 1) as nat),
                    ),
            decreases d,
        {
            proof {
                vstd::arithmetic::power2::lemma2_to64();
                if d == 0 {
                    assert(a == 0);
                    assert(prev_index == 0);
                    assert(false);
                }
                lemma_level_index_family(d, a);
                lemma_level_index_range(d, a);
                if d + 1 < h - 1 {
                    lemma_pow2_strictly_increases(d + 1, (h - 1) as nat);
                }
            }
            let last = path_bottom_to_top.len() - 1;
            let sib = sibling(prev_index).unwrap();
            let ghost sp = sibling_pos(a);
            proof {
                assert(sib == level_index_spec(d, sp));
                assert(self.stored(d, sp) == node_spec(leaves, h, d, sp));
                Self::lemma_off_path_node(leaves, new_leaves, h, index as nat, d, sp);
                assert(path_bottom_to_top@[last as int]@ == node_spec(new_leaves, h, d, a));
                lemma_pow2_unfold(d);
                assert(node_spec(new_leaves, h, (d - 1) as nat, a / 2) == compress_spec(
                    node_spec(new_leaves, h, d, 2 * (a / 2)),
                    node_spec(new_leaves, h, d, 2 * (a / 2) + 1),
                ));
            }
            let evaluated = if is_left_child(prev_index) {
                MerkleByteDigest::compress(
                    path_bottom_to_top[last].as_slice(),
                    self.non_leaf_nodes[sib].as_slice(),
                )
            } else {
                MerkleByteDigest::compress(
                    self.non_leaf_nodes[sib].as_slice(),
                    path_bottom_to_top[last].as_slice(),
                )
            };
            path_bottom_to_top.push(evaluated);
            prev_index = parent(prev_index).unwrap();
            proof {
                let old_d = d;
                let old_a = a;
                d = (d - 1) as nat;
                a = old_a / 2;
                lemma_pow2_pos((h - 1 - old_d) as nat);
                lemma_div_denominator(index as int, pow2((h - 1 - old_d) as nat) as int, 2);
                lemma_pow2_unfold((h - 1 - d) as nat);
                assert(a == index as nat / pow2((h - 1 - d) as nat));
            }
        }
        assert(d == 0);
        let mut path_top_to_bottom: Vec<Vec<u8>> = Vec::new();
        let ghost full = path_bottom_to_top@;
        while path_bottom_to_top.len() > 0
            invariant
                path_bottom_to_top@ == full.subrange(0, path_bottom_to_top@.len() as int),
                path_top_to_bottom@.len() == full.len() - path_bottom_to_top@.len(),
                forall|j: int|
                    0 <= j < path_top_to_bottom@.len() ==> #[trigger] path_top_to_bottom@[j]
                        == full[full.len() - 1 - j],
            decreases path_bottom_to_top@.len(),
        {
            let x = path_bottom_to_top.pop().unwrap();
            path_top_to_bottom.push(x);
        }
        proof {
            assert forall|j: int| 0 <= j < h - 1 implies #[trigger] path_top_to_bottom@[j]@
                == node_spec(new_leaves, h, j as nat, index as nat / pow2((h - 1 - j) as nat)) by {
                let t = full.len() - 1 - j;
                assert(path_top_to_bottom@[j] == full[t]);
                assert((h - 2 - t) as nat == j as nat);
                assert((t + 1) as nat == (h - 1 - j) as nat);
            }
        }
        (new_leaf_hash, path_top_to_bottom)
    }

    /// Writes a new leaf digest and the new digests of its ancestors (root first) into the tree.
    fn write_path(&mut self, index: usize, leaf_hash: Vec<u8>, mut path: Vec<Vec<u8>>, Ghost(new_leaves): Ghost<Seq<Seq<u8>>>)
        requires
            old(self).wf(),
            index < old(self).leaves().len(),
            new_leaves == old(self).leaves().update(index as int, leaf_hash@),
            path@.len() == old(self).spec_height() - 1,
            forall|j: int|
                0 <= j < old(self).spec_height() - 1 ==> #[trigger] path@[j]@ == node_spec(
                    new_leaves,
                    old(self).spec_height(),
                    j as nat,
                    index as nat / pow2((old(self).spec_height() - 1 - j) as nat),
                ),
        ensures
            final(self).wf(),
            final(self).leaves() == new_leaves,
            final(self).spec_height() == old(self).spec_height(),
    {
        proof {
            self.lemma_wf();
            vstd::arithmetic::power2::lemma2_to64();
            vstd::arithmetic::power2::lemma2_to64_rest();
            lemma_pow2_unfold(self.height as nat);
            if self.height < usize::BITS {
                lemma_pow2_strictly_increases(self.height as nat, usize::BITS as nat);
            }
        }
        let ghost h = self.height as nat;
        let ghost old_leaves = self.leaves();
        let ghost old_nodes = self.non_leaf_nodes@;
        self.leaf_nodes.set(index, leaf_hash);
        assert(self.leaves() =~= new_leaves);
        proof {
            assert forall|dd: nat, pp: nat|
                dd + 1 < h && pp < pow2(dd) implies #[trigger] old_nodes[level_index_spec(dd, pp) as int]@
                    == node_spec(old_leaves, h, dd, pp) by {
                assert(old(self).stored(dd, pp) == node_spec(old_leaves, h, dd, pp));
            }
        }
        let mut curr_index = convert_index_to_last_level(index, self.height);
        let mut k: usize = 0;
        let ghost mut d: nat = (h - 1) as nat;
        let ghost mut a: nat = index as nat;
        proof {
            assert(index as nat / pow2(0) == index);
        }
        while k < self.height - 1
            invariant
                h == self.height,
                2 <= h <= usize::BITS,
                2 * pow2((h - 1) as nat) <= usize::MAX + 1,
                self.leaf_nodes@.len() == pow2((h - 1) as nat),
                self.non_leaf_nodes@.len() == pow2((h - 1) as nat) - 1,
                self.leaves() == new_leaves,
                new_leaves.len() == old_leaves.len(),
                forall|q: int| 0 <= q < old_leaves.len() && q != index ==> old_leaves[q] == new_leaves[q],
                index < old_leaves.len(),
                old_nodes.len() == self.non_leaf_nodes@.len(),
                forall|dd: nat, pp: nat|
                    dd + 1 < h && pp < pow2(dd) ==> #[trigger] old_nodes[level_index_spec(dd, pp) as int]@
                        == node_spec(old_leaves, h, dd, pp),
                path@.len() == d,
                forall|j: int|
                    0 <= j < d ==> #[trigger] path@[j]@ == node_spec(
                        new_leaves,
                        h,
                        j as nat,
                        index as nat / pow2((h - 1 - j) as nat),
                    ),
                k + d == h - 1,
                a < pow2(d),
                a == index as nat / pow2((h - 1 - d) as nat),
                curr_index == level_index_spec(d, a),
                forall|dd: nat, pp: nat|
                    dd + 1 < h && pp < pow2(dd) ==> (#[trigger] self.non_leaf_nodes@[level_index_spec(dd, pp) as int])@
                        == (if dd >= d && pp == index as nat / pow2((h - 1 - dd) as nat) {
                        node_spec(new_leaves, h, dd, pp)
                    } else {
                        old_nodes[level_index_spec(dd, pp) as int]@
                    }),
            decreases h - 1 - k,
        {
            proof {
                lemma_level_index_family(d, a);
                lemma_level_index_range(d, a);
                lemma_pow2_unfold(d);
                if d < h - 1 {
                    lemma_pow2_strictly_increases(d, (h - 1) as nat);
                }
            }
            curr_index = parent(curr_index).unwrap();
            let ghost nd = (d - 1) as nat;
            let ghost na = a / 2;
            proof {
                lemma_pow2_pos((h - 1 - d) as nat);
                lemma_div_denominator(index as int, pow2((h - 1 - d) as nat) as int, 2);
                lemma_pow2_unfold((h - 1 - nd) as nat);
                assert(na == index as nat / pow2((h - 1 - nd) as nat));
                assert(path@[nd as int]@ == node_spec(new_leaves, h, nd, na));
            }
            let top = path.pop().unwrap();
            assert(top@ == node_spec(new_leaves, h, nd, na));
            let ghost before = self.non_leaf_nodes@;
            self.non_leaf_nodes.set(curr_index, top);
            proof {
                assert forall|dd: nat, pp: nat|
                    dd + 1 < h && pp < pow2(dd) implies (#[trigger] self.non_leaf_nodes@[level_index_spec(dd, pp) as int])@
                        == (if dd >= nd && pp == index as nat / pow2((h - 1 - dd) as nat) {
                        node_spec(new_leaves, h, dd, pp)
                    } else {
                        old_nodes[level_index_spec(dd, pp) as int]@
                    }) by {
                    lemma_level_index_range(dd, pp);
                    if dd + 1 < h - 1 {
                        lemma_pow2_strictly_increases(dd + 1, (h - 1) as nat);
                    }
                    if level_index_spec(dd, pp) == curr_index {
                        lemma_level_index_injective(dd, pp, nd, na);
                    } else {
                        assert(before[level_index_spec(dd, pp) as int] == self.non_leaf_nodes@[level_index_spec(dd, pp) as int]);
                        if dd == nd && pp == index as nat / pow2((h - 1 - dd) as nat) {
                            assert(pp == na);
                        }
                    }
                }
                d = nd;
                a = na;
            }
            k = k + 1;
        }
        proof {
            assert(self.nodes_ok()) by {
                assert forall|dd: nat, pp: nat|
                    dd + 1 < self.height && pp < pow2(dd) implies #[trigger] self.stored(dd, pp)
                        == node_spec(self.leaves(), self.height as nat, dd, pp) by {
                    if pp != index as nat / pow2((h - 1 - dd) as nat) {
                        Self::lemma_off_path_node(old_leaves, new_leaves, h, index as nat, dd, pp);
                    }
                }
            }
        }
    }

    /// Replaces leaf `index` by `new_leaf` and recomputes the digests of its ancestors.
    pub fn update(&mut self, index: usize, new_leaf: &[u8]) -> (r: Result<(), Error>)
        requires
            old(self).wf(),
            index < old(self).leaves().len(),
        ensures
            r is Ok,
            final(self).wf(),
            final(self).leaves() == old(self).updated_leaves(index as nat, new_leaf@),
            final(self).spec_height() == old(self).spec_height(),
    {
        let (updated_leaf_hash, updated_path) = self.updated_path(index, new_leaf);
        self.write_path(index, updated_leaf_hash, updated_path, Ghost(self.updated_leaves(index as nat, new_leaf@)));
        Ok(())
    }

    /// Replaces leaf `index` by `new_leaf` only if the resulting root equals
    /// `asserted_new_root`; returns whether it did. The tree is unchanged otherwise.
    pub fn check_update(&mut self, index: usize, new_leaf: &[u8], asserted_new_root: &Vec<u8>) -> (r: Result<bool, Error>)
        requires
            old(self).wf(),
            index < old(self).leaves().len(),
        ensures
            r == Ok::<bool, Error>(root_spec(
                old(self).updated_leaves(index as nat, new_leaf@),
                old(self).spec_height(),
            ) == asserted_new_root@),
            final(self).wf(),
            final(self).spec_height() == old(self).spec_height(),
            r == Ok::<bool, Error>(true) ==> final(self).leaves() == old(self).updated_leaves(index as nat, new_leaf@),
            r == Ok::<bool, Error>(false) ==> final(self).leaves() == old(self).leaves(),
    {
        let (updated_leaf_hash, updated_path) = self.updated_path(index, new_leaf);
        proof {
            vstd::arithmetic::power2::lemma2_to64();
            assert(index as nat / pow2((self.spec_height() - 1) as nat) == 0) by {
                self.lemma_wf();
                vstd::arithmetic::div_mod::lemma_basic_div(index as int, pow2((self.spec_height() - 1) as nat) as int);
            }
        }
        if !bytes_eq(updated_path[0].as_slice(), asserted_new_root.as_slice()) {
            return Ok(false);
        }
        self.write_path(index, updated_leaf_hash, updated_path, Ghost(self.updated_leaves(index as nat, new_leaf@)));
        Ok(true)
    }
}

/// A value in `[p * m, (p + 1) * m)` has quotient `p` by `m`.
proof fn lemma_div_in_range(q: int, p: int, m: int)
    requires
        m > 0,
        p * m <= q < (p + 1) * m,
    ensures
        q / m == p,
{
    vstd::arithmetic::div_mod::lemma_fundamental_div_mod(q, m);
    let t = q / m;
    let r = q % m;
    assert(0 <= r < m);
    if t > p {
        assert(t * m >= (p + 1) * m) by (nonlinear_arith)
            requires
                t >= p + 1,
                m > 0,
        ;
        assert(m * t == t * m) by (nonlinear_arith);
    }
    if t < p {
        assert(t * m <= (p - 1) * m) by (nonlinear_arith)
            requires
                t <= p - 1,
                m > 0,
        ;
        assert(m * t == t * m) by (nonlinear_arith);
        assert((p - 1) * m + m == p * m) by (nonlinear_arith);
    }
}

} // verus!
