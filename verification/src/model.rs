use vstd::prelude::*;
use vstd::arithmetic::power2::{pow2, lemma_pow2_unfold, lemma_pow2_pos, lemma_pow2_strictly_increases};
use crate::crh::{leaf_parent_spec, compress_spec};
use crate::index::level_index_spec;

verus! {

/// Digest of the node at `depth` (root at 0), position `pos`, of the tree of height
/// `height` whose leaf digests are `leaves`: a leaf digest at depth `height - 1`, the
/// leaf-pair hash of the two (serialized) leaf children at depth `height - 2`, and the
/// inner compression of the two children above that.
pub open spec fn node_spec(leaves: Seq<Seq<u8>>, height: nat, depth: nat, pos: nat) -> Seq<u8>
    decreases height - depth,
{
    if depth + 1 >= height {
        leaves[pos as int]
    } else if depth + 2 == height {
        leaf_parent_spec(leaves[2 * pos as int], leaves[2 * pos as int + 1])
    } else {
        compress_spec(
            node_spec(leaves, height, depth + 1, 2 * pos),
            node_spec(leaves, height, depth + 1, 2 * pos + 1),
        )
    }
}

/// Root digest of the tree of height `height` over `leaves`.
pub open spec fn root_spec(leaves: Seq<Seq<u8>>, height: nat) -> Seq<u8> {
    node_spec(leaves, height, 0, 0)
}

/// The byte views of a vector of digests.
pub open spec fn digests_view(v: Seq<Vec<u8>>) -> Seq<Seq<u8>> {
    v.map_values(|x: Vec<u8>| x@)
}

/// A node's digest only depends on the leaves below it: the `2^(height-1-depth)` leaves from
/// `pos * 2^(height-1-depth)` on.
pub proof fn lemma_node_frame(l1: Seq<Seq<u8>>, l2: Seq<Seq<u8>>, height: nat, depth: nat, pos: nat)
    requires
        depth + 1 <= height,
        forall|q: int|
            pos * pow2((height - 1 - depth) as nat) <= q < (pos + 1) * pow2(
                (height - 1 - depth) as nat,
            ) ==> l1[q] == l2[q],
    ensures
        node_spec(l1, height, depth, pos) == node_spec(l2, height, depth, pos),
    decreases height - depth,
{
    let k = (height - 1 - depth) as nat;
    lemma_pow2_pos(k);
    if depth + 1 >= height {
        assert(k == 0);
        assert(pow2(0) == 1) by {
            vstd::arithmetic::power2::lemma2_to64();
        }
        assert(l1[pos as int] == l2[pos as int]);
    } else {
        lemma_pow2_unfold(k);
        let half = pow2((k - 1) as nat);
        assert(pos * pow2(k) == 2 * pos * half) by (nonlinear_arith)
            requires
                pow2(k) == 2 * half,
        ;
        assert((pos + 1) * pow2(k) == (2 * pos + 2) * half) by (nonlinear_arith)
            requires
                pow2(k) == 2 * half,
        ;
        assert((2 * pos + 1) * half == 2 * pos * half + half) by (nonlinear_arith);
        assert((2 * pos + 2) * half == 2 * pos * half + 2 * half) by (nonlinear_arith);
        assert((2 * pos + 1 + 1) * half == (pos + 1) * pow2(k)) by (nonlinear_arith)
            requires
                pow2(k) == 2 * half,
        ;
        if depth + 2 == height {
            assert(half == 1) by {
                vstd::arithmetic::power2::lemma2_to64();
            }
            assert(l1[2 * pos as int] == l2[2 * pos as int]);
            assert(l1[2 * pos as int + 1] == l2[2 * pos as int + 1]);
        } else {
            assert((height - 1 - (depth + 1)) as nat == (k - 1) as nat);
            assert forall|q: int|
                (2 * pos) * pow2((height - 1 - (depth + 1)) as nat) <= q < (2 * pos + 1) * pow2(
                    (height - 1 - (depth + 1)) as nat,
                ) implies l1[q] == l2[q] by {
                assert(pow2((height - 1 - (depth + 1)) as nat) == half);
                assert((2 * pos + 1) * half <= (pos + 1) * pow2(k));
                assert(pos * pow2(k) <= q < (pos + 1) * pow2(k));
            }
            assert forall|q: int|
                (2 * pos + 1) * pow2((height - 1 - (depth + 1)) as nat) <= q < (2 * pos + 1 + 1)
                    * pow2((height - 1 - (depth + 1)) as nat) implies l1[q] == l2[q] by {
                assert(pow2((height - 1 - (depth + 1)) as nat) == half);
                assert((2 * pos + 1) * half >= pos * pow2(k));
                assert(pos * pow2(k) <= q < (pos + 1) * pow2(k));
            }
            lemma_node_frame(l1, l2, height, depth + 1, 2 * pos);
            lemma_node_frame(l1, l2, height, depth + 1, 2 * pos + 1);
        }
    }
}

/// Level-order positions of distinct nodes are distinct, and those of depth `depth` lie in
/// `[2^depth - 1, 2^(depth+1) - 1)`.
pub proof fn lemma_level_index_range(depth: nat, pos: nat)
    requires
        pos < pow2(depth),
    ensures
        pow2(depth) - 1 <= level_index_spec(depth, pos) < pow2(depth + 1) - 1,
        level_index_spec(depth + 1, 2 * pos) == 2 * level_index_spec(depth, pos) + 1,
        level_index_spec(depth + 1, 2 * pos + 1) == 2 * level_index_spec(depth, pos) + 2,
{
    lemma_pow2_unfold(depth + 1);
    lemma_pow2_pos(depth);
}

/// Distinct valid coordinates have distinct level-order positions.
pub proof fn lemma_level_index_injective(d1: nat, p1: nat, d2: nat, p2: nat)
    requires
        p1 < pow2(d1),
        p2 < pow2(d2),
        level_index_spec(d1, p1) == level_index_spec(d2, p2),
    ensures
        d1 == d2,
        p1 == p2,
{
    lemma_level_index_range(d1, p1);
    lemma_level_index_range(d2, p2);
    if d1 < d2 {
        if d1 + 1 < d2 {
            lemma_pow2_strictly_increases(d1 + 1, d2);
        }
    } else if d2 < d1 {
        if d2 + 1 < d1 {
            lemma_pow2_strictly_increases(d2 + 1, d1);
        }
    }
}

/// Parent and sibling in level order: for a node below the root, its level-order parent is
/// the level-order position of its parent, and it is a left child (odd position) iff its
/// position on the level is even.
pub proof fn lemma_level_index_family(depth: nat, pos: nat)
    requires
        depth >= 1,
        pos < pow2(depth),
    ensures
        level_index_spec(depth, pos) > 0,
        (level_index_spec(depth, pos) - 1) / 2 == level_index_spec((depth - 1) as nat, pos / 2),
        (level_index_spec(depth, pos) % 2 == 1) == (pos % 2 == 0),
        pos % 2 == 0 ==> level_index_spec(depth, pos) + 1 == level_index_spec(depth, pos + 1),
        pos % 2 == 1 ==> level_index_spec(depth, pos) - 1 == level_index_spec(
            depth,
            (pos - 1) as nat,
        ),
{
    lemma_pow2_unfold(depth);
    lemma_pow2_pos((depth - 1) as nat);
}

} // verus!
