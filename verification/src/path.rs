use vstd::prelude::*;
use vstd::arithmetic::power2::{pow2, lemma_pow2_unfold, lemma_pow2_pos};
use vstd::arithmetic::div_mod::lemma_div_denominator;
use crate::crh::{leaf_hash_spec, leaf_parent_spec, compress_spec, MerkleByteDigest, bytes_eq};
use crate::converter::ByteDigestConverter;
use crate::error::Error;
use crate::index::select_left_right_child;
use crate::model::{node_spec, root_spec, digests_view};

verus! {

/// Position of the sibling of position `p` on its level.
pub open spec fn sibling_pos(p: nat) -> nat {
    if p % 2 == 0 {
        p + 1
    } else {
        (p - 1) as nat
    }
}

/// Climbs from `curr`, a digest at position `idx` of its level, through the authentication
/// digests `auth[k - 1], auth[k - 2], ..., auth[0]` (each the sibling one level higher up),
/// compressing at each level with the running digest on the left iff its position is even.
pub open spec fn path_climb(curr: Seq<u8>, auth: Seq<Seq<u8>>, k: nat, idx: nat) -> Seq<u8>
    decreases k,
{
    if k == 0 {
        curr
    } else {
        let s = auth[k - 1];
        let next = if idx % 2 == 0 {
            compress_spec(curr, s)
        } else {
            compress_spec(s, curr)
        };
        path_climb(next, auth, (k - 1) as nat, idx / 2)
    }
}

/// The root recomputed from a leaf digest, its sibling leaf digest, the authentication path
/// (ordered from the top level down) and the leaf's index.
pub open spec fn path_root_spec(
    leaf_digest: Seq<u8>,
    sibling: Seq<u8>,
    auth: Seq<Seq<u8>>,
    leaf_index: nat,
) -> Seq<u8> {
    let bottom = if leaf_index % 2 == 0 {
        leaf_parent_spec(leaf_digest, sibling)
    } else {
        leaf_parent_spec(sibling, leaf_digest)
    };
    path_climb(bottom, auth, auth.len(), leaf_index / 2)
}

/// The authentication path of leaf `i` in the tree of height `height` over `leaves`, from
/// the level below the root down to the level above the leaves: entry `j` is the sibling of
/// the leaf's ancestor at depth `j + 1`.
pub open spec fn auth_path_spec(leaves: Seq<Seq<u8>>, height: nat, i: nat) -> Seq<Seq<u8>> {
    Seq::new(
        (height - 2) as nat,
        |j: int|
            node_spec(
                leaves,
                height,
                (j + 1) as nat,
                sibling_pos(i / pow2((height - 2 - j) as nat)),
            ),
    )
}

/// The hashes along the path from a leaf to the root.
///
/// For a leaf `I` whose ancestors are `E`, `B` below the root `A`:
/// `leaf_sibling_hash` is the sibling leaf `J` of `I`, and `auth_path` holds the siblings of
/// `B` and `E`, in this order.
pub struct Path {
    /// The digest of the leaf's sibling leaf.
    pub leaf_sibling_hash: Vec<u8>,
    /// The siblings of the on-path nodes, ordered from the level below the root down to the
    /// level above the leaves.
    pub auth_path: Vec<Vec<u8>>,
    /// The index of the leaf.
    pub leaf_index: usize,
}

/// The low `n` bits of `index`, most significant first (`true` for a one).
pub fn index_bits(index: usize, n: usize) -> (r: Vec<bool>)
    requires
        n <= 64,
    ensures
        r@.len() == n,
        forall|j: int| 0 <= j < n ==> r@[j] == ((index as nat / pow2((n - 1 - j) as nat)) % 2 == 1),
{
    let mut r: Vec<bool> = Vec::new();
    let mut k: usize = n;
    while k > 0
        invariant
            n <= 64,
            k <= n,
            r@.len() == n - k,
            forall|j: int| 0 <= j < r@.len() ==> r@[j] == ((index as nat / pow2((n - 1 - j) as nat)) % 2 == 1),
        decreases k,
    {
        k = k - 1;
        let ghost shift = k as nat;
        let b = if (k as u32) < usize::BITS {
            let shifted = index >> k;
            let bit = shifted & 1;
            proof {
                vstd::bits::lemma_usize_shr_is_div(index, k);
                assert(bit == shifted % 2) by (bit_vector)
                    requires
                        bit == shifted & 1,
                ;
            }
            bit != 0
        } else {
            proof {
                vstd::arithmetic::power2::lemma2_to64_rest();
                vstd::arithmetic::power2::lemma2_to64();
                if shift > usize::BITS {
                    vstd::arithmetic::power2::lemma_pow2_strictly_increases(usize::BITS as nat, shift);
                }
                assert(index < pow2(shift));
                vstd::arithmetic::div_mod::lemma_basic_div(index as int, pow2(shift) as int);
                assert(index as nat / pow2(shift) == 0);
            }
            false
        };
        r.push(b);
    }
    r
}

impl Path {
    /// The position of each on-path node from the top down: `true` iff it is a right child.
    /// These are the low `auth_path.len() + 1` bits of `leaf_index`, most significant first.
    pub fn position_list(&self) -> (r: Vec<bool>)
        requires
            self.auth_path@.len() + 1 <= 64,
        ensures
            r@.len() == self.auth_path@.len() + 1,
            forall|j: int|
                0 <= j < r@.len() ==> r@[j] == ((self.leaf_index as nat / pow2(
                    (r@.len() - 1 - j) as nat,
                )) % 2 == 1),
    {
        index_bits(self.leaf_index, self.auth_path.len() + 1)
    }

    /// Verifies that `leaf` sits at `self.leaf_index` of the tree with root `root_hash`.
    /// The tree height is taken to be `auth_path.len() + 2`: a leaf index beyond that tree's
    /// `2^(auth_path.len() + 1)` leaves is refused (`Ok(false)`); otherwise the result is
    /// whether the root recomputed from the leaf and the path equals `root_hash`.
    pub fn verify(&self, root_hash: &Vec<u8>, leaf: &[u8]) -> (r: Result<bool, Error>)
        ensures
            self.leaf_index >= pow2((self.auth_path@.len() + 1) as nat) ==> r == Ok::<bool, Error>(false),
            self.leaf_index < pow2((self.auth_path@.len() + 1) as nat) ==> r == Ok::<bool, Error>(
                path_root_spec(
                    leaf_hash_spec(leaf@),
                    self.leaf_sibling_hash@,
                    digests_view(self.auth_path@),
                    self.leaf_index as nat,
                ) == root_hash@,
            ),
    {
        if self.auth_path.len() < usize::BITS as usize - 1 {
            let bits = self.auth_path.len() + 1;
            proof {
                vstd::bits::lemma_usize_shr_is_div(self.leaf_index, bits);
                lemma_pow2_pos(bits as nat);
                if self.leaf_index >= pow2(bits as nat) {
                    vstd::arithmetic::div_mod::lemma_div_non_zero(self.leaf_index as int, pow2(bits as nat) as int);
                } else {
                    vstd::arithmetic::div_mod::lemma_basic_div(self.leaf_index as int, pow2(bits as nat) as int);
                }
            }
            if (self.leaf_index >> bits) != 0 {
                return Ok(false);
            }
        } else {
            proof {
                let bits = (self.auth_path@.len() + 1) as nat;
                vstd::arithmetic::power2::lemma2_to64();
                vstd::arithmetic::power2::lemma2_to64_rest();
                if bits > usize::BITS {
                    vstd::arithmetic::power2::lemma_pow2_strictly_increases(usize::BITS as nat, bits);
                }
                assert(self.leaf_index < pow2(bits));
            }
        }
        let claimed_leaf_hash = MerkleByteDigest::evaluate(leaf);
        let (left_child, right_child) = select_left_right_child(
            self.leaf_index,
            &claimed_leaf_hash,
            &self.leaf_sibling_hash,
        );
        let left_child = match ByteDigestConverter::convert(left_child) {
            Ok(b) => b,
            Err(e) => {
                return Err(e);
            },
        };
        let right_child = match ByteDigestConverter::convert(right_child) {
            Ok(b) => b,
            Err(e) => {
                return Err(e);
            },
        };
        let mut curr_path_node = MerkleByteDigest::evaluate_pair(
            left_child.as_slice(),
            right_child.as_slice(),
        );
        let ghost auth = digests_view(self.auth_path@);
        let ghost target = path_root_spec(
            leaf_hash_spec(leaf@),
            self.leaf_sibling_hash@,
            auth,
            self.leaf_index as nat,
        );
        let mut index = self.leaf_index;
        assert(index >> 1 == index / 2) by (bit_vector);
        index >>= 1;
        let mut level = self.auth_path.len();
        while level > 0
            invariant
                level <= self.auth_path@.len(),
                auth == digests_view(self.auth_path@),
                path_climb(curr_path_node@, auth, level as nat, index as nat) == target,
            decreases level,
        {
            level = level - 1;
            let (left, right) = select_left_right_child(
                index,
                &curr_path_node,
                &self.auth_path[level],
            );
            curr_path_node = MerkleByteDigest::compress(left.as_slice(), right.as_slice());
            assert(index >> 1 == index / 2) by (bit_vector);
            index >>= 1;
        }
        Ok(bytes_eq(curr_path_node.as_slice(), root_hash.as_slice()))
    }
}

/// Climbing from the node at depth `d`, position `a`, through the siblings of its ancestors
/// reaches the root.
proof fn lemma_climb(leaves: Seq<Seq<u8>>, height: nat, d: nat, a: nat, auth: Seq<Seq<u8>>)
    requires
        d + 1 < height,
        auth.len() >= d,
        a < pow2(d),
        forall|j: int|
            0 <= j < d ==> #[trigger] auth[j] == node_spec(
                leaves,
                height,
                (j + 1) as nat,
                sibling_pos(a / pow2((d - 1 - j) as nat)),
            ),
    ensures
        path_climb(node_spec(leaves, height, d, a), auth, d, a) == root_spec(leaves, height),
    decreases d,
{
    vstd::arithmetic::power2::lemma2_to64();
    if d == 0 {
        assert(a == 0);
    } else {
        lemma_pow2_unfold(d);
        let s = auth[d - 1];
        assert(a / pow2(0) == a);
        assert(s == node_spec(leaves, height, d, sibling_pos(a)));
        let parent = a / 2;
        assert(node_spec(leaves, height, (d - 1) as nat, parent) == compress_spec(
            node_spec(leaves, height, d, 2 * parent),
            node_spec(leaves, height, d, 2 * parent + 1),
        ));
        assert forall|j: int| 0 <= j < d - 1 implies #[trigger] auth[j] == node_spec(
            leaves,
            height,
            (j + 1) as nat,
            sibling_pos(parent / pow2((d - 1 - 1 - j) as nat)),
        ) by {
            lemma_pow2_pos((d - 2 - j) as nat);
            lemma_div_denominator(a as int, 2, pow2((d - 2 - j) as nat) as int);
            lemma_pow2_unfold((d - 1 - j) as nat);
            assert(a / pow2((d - 1 - j) as nat) == parent / pow2((d - 2 - j) as nat));
        }
        lemma_climb(leaves, height, (d - 1) as nat, parent, auth);
    }
}

/// Completeness of single-leaf proofs: the root recomputed from the digest of leaf `i`, the
/// digest of its sibling leaf and its authentication path is the root of the tree.
pub proof fn lemma_path_completeness(leaves: Seq<Seq<u8>>, height: nat, i: nat)
    requires
        height >= 2,
        leaves.len() == pow2((height - 1) as nat),
        i < leaves.len(),
    ensures
        path_root_spec(
            leaves[i as int],
            leaves[sibling_pos(i) as int],
            auth_path_spec(leaves, height, i),
            i,
        ) == root_spec(leaves, height),
{
    vstd::arithmetic::power2::lemma2_to64();
    let auth = auth_path_spec(leaves, height, i);
    let d = (height - 2) as nat;
    let a = i / 2;
    lemma_pow2_unfold((height - 1) as nat);
    assert(a < pow2(d));
    let bottom = if i % 2 == 0 {
        leaf_parent_spec(leaves[i as int], leaves[sibling_pos(i) as int])
    } else {
        leaf_parent_spec(leaves[sibling_pos(i) as int], leaves[i as int])
    };
    assert(bottom == node_spec(leaves, height, d, a));
    assert forall|j: int| 0 <= j < d implies #[trigger] auth[j] == node_spec(
        leaves,
        height,
        (j + 1) as nat,
        sibling_pos(a / pow2((d - 1 - j) as nat)),
    ) by {
        lemma_pow2_pos((d - 1 - j) as nat);
        lemma_div_denominator(i as int, 2, pow2((d - 1 - j) as nat) as int);
        lemma_pow2_unfold((height - 2 - j) as nat);
        assert(i / pow2((height - 2 - j) as nat) == a / pow2((d - 1 - j) as nat));
    }
    lemma_climb(leaves, height, d, a, auth);
}

} // verus!
