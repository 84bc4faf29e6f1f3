use vstd::prelude::*;
use std::collections::BTreeSet;
use vstd::arithmetic::power2::{pow2, lemma_pow2_unfold, lemma2_to64, lemma_pow2_pos, lemma_pow2_strictly_increases};
use vstd::arithmetic::div_mod::lemma_div_denominator;

verus! {

/// Position of node `pos` of level `depth` (root at depth 0) in the level-order array of
/// a complete binary tree.
pub open spec fn level_index_spec(depth: nat, pos: nat) -> nat {
    (pow2(depth) - 1 + pos) as nat
}

/// Level-order index of the node at `depth`, position `pos`: `2^depth - 1 + pos`.
pub fn level_index(depth: usize, pos: usize) -> (r: usize)
    requires
        depth < usize::BITS,
        pow2(depth as nat) - 1 + pos <= usize::MAX,
    ensures
        r == level_index_spec(depth as nat, pos as nat),
{
    proof {
        vstd::bits::lemma_usize_pow2_no_overflow(depth as nat);
        vstd::bits::lemma_usize_shl_is_mul(1usize, depth);
    }
    ((1usize << depth) - 1) + pos
}

/// Whether a level-order index is the root.
pub fn is_root(index: usize) -> (r: bool)
    ensures
        r == (index == 0),
{
    index == 0
}

/// Level-order index of the left child.
pub fn left_child(index: usize) -> (r: usize)
    requires
        2 * index + 1 <= usize::MAX,
    ensures
        r == 2 * index + 1,
{
    2 * index + 1
}

/// Level-order index of the right child.
pub fn right_child(index: usize) -> (r: usize)
    requires
        2 * index + 2 <= usize::MAX,
    ensures
        r == 2 * index + 2,
{
    2 * index + 2
}

/// Whether a level-order index is a left child (odd indices are).
pub fn is_left_child(index: usize) -> (r: bool)
    ensures
        r == (index % 2 == 1),
{
    index % 2 == 1
}

/// Level-order index of the sibling; the root has none.
pub fn sibling(index: usize) -> (r: Option<usize>)
    requires
        index < usize::MAX,
    ensures
        index == 0 ==> r is None,
        index != 0 && index % 2 == 1 ==> r == Some((index + 1) as usize),
        index != 0 && index % 2 == 0 ==> r == Some((index - 1) as usize),
{
    if index == 0 {
        None
    } else if is_left_child(index) {
        Some(index + 1)
    } else {
        Some(index - 1)
    }
}

/// Level-order index of the parent; the root has none.
pub fn parent(index: usize) -> (r: Option<usize>)
    ensures
        index == 0 ==> r is None,
        index > 0 ==> r == Some(((index - 1) / 2) as usize),
{
    if index > 0 {
        let m = index - 1;
        assert(m >> 1 == m / 2) by (bit_vector);
        Some(m >> 1)
    } else {
        None
    }
}

/// Level-order index of leaf `index` in a tree of height `tree_height`.
pub fn convert_index_to_last_level(index: usize, tree_height: usize) -> (r: usize)
    requires
        1 <= tree_height <= usize::BITS,
        index + pow2((tree_height - 1) as nat) <= usize::MAX,
    ensures
        r == index + pow2((tree_height - 1) as nat) - 1,
{
    proof {
        vstd::bits::lemma_usize_pow2_no_overflow((tree_height - 1) as nat);
        vstd::bits::lemma_usize_shl_is_mul(1usize, (tree_height - 1) as usize);
    }
    index + (1usize << (tree_height - 1)) - 1
}

/// `x` is a power of two.
pub open spec fn is_pow2(x: nat) -> bool {
    exists|k: nat| pow2(k) == x
}

/// Ceiling of the base-2 logarithm; `0` for `0`.
pub fn log2(x: usize) -> (r: u32)
    ensures
        x == 0 ==> r == 0,
        x > 0 ==> pow2(r as nat) >= x,
        x > 0 && r > 0 ==> pow2((r - 1) as nat) < x,
        r <= 64,
{
    if x == 0 {
        return 0;
    }
    let mut r: u32 = 0;
    let mut p: u128 = 1;
    proof {
        lemma2_to64();
        vstd::arithmetic::power2::lemma2_to64_rest();
    }
    while p < x as u128
        invariant
            0 < x,
            r <= 64,
            p == pow2(r as nat),
            r > 0 ==> pow2((r - 1) as nat) < x,
        decreases 64 - r,
    {
        if r >= 64 {
            proof {
                if r > 64 {
                    lemma_pow2_strictly_increases(64, r as nat);
                }
                vstd::arithmetic::power2::lemma2_to64_rest();
                assert(pow2(64) == 0x1_0000_0000_0000_0000);
                assert(x <= usize::MAX);
                assert(false);
            }
        }
        proof {
            lemma_pow2_unfold((r + 1) as nat);
        }
        r = r + 1;
        p = p * 2;
    }
    r
}

/// Height of a tree with `num_leaves` leaves: `1` for one leaf, else `ceil(log2) + 1`.
pub fn tree_height(num_leaves: usize) -> (r: usize)
    ensures
        num_leaves == 1 ==> r == 1,
        num_leaves > 1 ==> r >= 2,
        num_leaves > 1 ==> pow2((r - 1) as nat) >= num_leaves && pow2((r - 2) as nat)
            < num_leaves,
        r <= 65,
{
    if num_leaves == 1 {
        return 1;
    }
    let l = log2(num_leaves);
    proof {
        lemma2_to64();
    }
    (l as usize) + 1
}

/// Selects `(left, right)` from a computed digest and its sibling: the computed digest
/// is on the left iff `index` is even.
pub fn select_left_right_child(index: usize, computed_hash: &Vec<u8>, sibling_hash: &Vec<u8>) -> (r: (
    Vec<u8>,
    Vec<u8>,
))
    ensures
        index % 2 == 0 ==> r.0@ == computed_hash@ && r.1@ == sibling_hash@,
        index % 2 == 1 ==> r.0@ == sibling_hash@ && r.1@ == computed_hash@,
{
    assert(index & 1 == index % 2) by (bit_vector);
    let is_left = index & 1 == 0;
    let c = crate::crh::copy_bytes(computed_hash.as_slice());
    let s = crate::crh::copy_bytes(sibling_hash.as_slice());
    if is_left {
        (c, s)
    } else {
        (s, c)
    }
}

/// Every element is smaller than the next ones.
pub open spec fn strictly_increasing(s: Seq<usize>) -> bool {
    forall|a: int, b: int| 0 <= a < b < s.len() ==> s[a] < s[b]
}

/// `usize` keys are ordered as the set library expects (its comparison agrees with `<`).
proof fn lemma_usize_keys_ordered()
    ensures
        vstd::laws_cmp::obeys_cmp::<usize>(),
{
    broadcast use vstd::laws_cmp::group_laws_cmp;
}

/// The keys handed out by a set's iterator, in order, strictly increase.
proof fn lemma_set_keys_increasing(keys: Seq<&usize>)
    requires
        vstd::std_specs::btree::increasing_seq(keys),
    ensures
        forall|a: int, b: int| 0 <= a < b < keys.len() ==> *keys[a] < *keys[b],
{
    broadcast use vstd::laws_cmp::group_laws_cmp;
    broadcast use vstd::std_specs::btree::group_btree_axioms;
    assert(vstd::laws_cmp::obeys_cmp::<&usize>());
    assert forall|a: int, b: int| 0 <= a < b < keys.len() implies *keys[a] < *keys[b] by {
        assert(vstd::std_specs::cmp::OrdSpec::cmp_spec(&keys[a], &keys[b]) is Less);
    }
}

/// The sorted, duplicate-free list of the values of `v`, collected through a `BTreeSet`.
pub fn sorted_unique(v: &[usize]) -> (r: Vec<usize>)
    ensures
        strictly_increasing(r@),
        forall|x: usize| r@.contains(x) <==> v@.contains(x),
{
    broadcast use vstd::std_specs::btree::group_btree_axioms;
    proof {
        lemma_usize_keys_ordered();
    }
    let mut set: BTreeSet<usize> = BTreeSet::new();
    let mut i: usize = 0;
    while i < v.len()
        invariant
            0 <= i <= v@.len(),
            forall|x: usize| #[trigger] set@.contains(x) <==> exists|t: int| 0 <= t < i && v@[t] == x,
        decreases v@.len() - i,
    {
        set.insert(v[i]);
        i = i + 1;
    }
    let ghost keys = vstd::std_specs::iter::IteratorSpec::remaining(&vstd::std_specs::btree::spec_btree_keys_iter(&set));
    proof {
        lemma_set_keys_increasing(keys);
    }
    let mut r: Vec<usize> = Vec::new();
    for x in it: set.iter()
        invariant
            keys == it.seq(),
            r@ == it.seq().take(it.index()).map_values(|k: &usize| *k),
    {
        r.push(*x);
    }
    proof {
        assert(r@ == keys.map_values(|k: &usize| *k));
        assert(keys.unref().to_set() == set@);
        assert forall|y: usize| r@.contains(y) <==> v@.contains(y) by {
            if r@.contains(y) {
                let k = choose|k: int| 0 <= k < r@.len() && r@[k] == y;
                assert(keys.unref()[k] == *keys[k]);
                assert(keys.unref().contains(y));
                assert(set@.contains(y));
                let t = choose|t: int| 0 <= t < i && v@[t] == y;
                assert(v@.contains(y));
            }
            if v@.contains(y) {
                let t = choose|t: int| 0 <= t < v@.len() && v@[t] == y;
                assert(set@.contains(y));
                assert(keys.unref().to_set().contains(y));
                assert(keys.unref().contains(y));
                let k = choose|k: int| 0 <= k < keys.unref().len() && keys.unref()[k] == y;
                assert(keys.unref()[k] == *keys[k]);
                assert(r@[k] == y);
            }
        }
    }
    r
}

/// Ancestor position, `levels` levels up, of position `i`.
pub open spec fn ancestor(i: nat, levels: nat) -> nat {
    i / pow2(levels)
}

/// `x` is the depth-`depth` ancestor of one of `indexes`, which sit at depth `leaf_depth`.
pub open spec fn on_path_contains(indexes: Seq<usize>, leaf_depth: nat, depth: nat, x: nat) -> bool {
    exists|t: int| 0 <= t < indexes.len() && x == ancestor(indexes[t] as nat, (leaf_depth - depth) as nat)
}

/// The parents (halves) of the sorted positions in `level`, sorted and without duplicates.
fn halve_dedup(level: &Vec<usize>) -> (r: Vec<usize>)
    requires
        strictly_increasing(level@),
    ensures
        strictly_increasing(r@),
        forall|x: usize| #![trigger r@.contains(x)]
            r@.contains(x) <==> exists|t: int| 0 <= t < level@.len() && x == level@[t] / 2,
{
    let mut r: Vec<usize> = Vec::new();
    let mut i: usize = 0;
    while i < level.len()
        invariant
            0 <= i <= level@.len(),
            strictly_increasing(level@),
            strictly_increasing(r@),
            i > 0 ==> r@.len() > 0 && r@.last() == level@[i - 1] / 2,
            i == 0 ==> r@.len() == 0,
            forall|x: usize| #![trigger r@.contains(x)]
                r@.contains(x) <==> exists|t: int| 0 <= t < i && x == level@[t] / 2,
        decreases level@.len() - i,
    {
        let h = level[i] / 2;
        let ghost old_r = r@;
        if i > 0 && r[r.len() - 1] == h {
            assert forall|x: usize| #![trigger r@.contains(x)]
                r@.contains(x) <==> exists|t: int| 0 <= t < i + 1 && x == level@[t] / 2 by {
                if exists|t: int| 0 <= t < i + 1 && x == level@[t] / 2 {
                    let t = choose|t: int| 0 <= t < i + 1 && x == level@[t] / 2;
                    if t == i {
                        assert(r@[r@.len() - 1] == x);
                    }
                }
            }
        } else {
            if i > 0 {
                assert(level@[i - 1] < level@[i as int]);
                assert(level@[i - 1] / 2 <= level@[i as int] / 2);
            }
            r.push(h);
            assert forall|a: int, b: int| 0 <= a < b < r@.len() implies r@[a] < r@[b] by {
                if b == r@.len() - 1 && a < b {
                    assert(old_r[a] <= old_r.last());
                }
            }
            assert forall|x: usize| #![trigger r@.contains(x)]
                r@.contains(x) <==> exists|t: int| 0 <= t < i + 1 && x == level@[t] / 2 by {
                if r@.contains(x) {
                    let k = choose|k: int| 0 <= k < r@.len() && r@[k] == x;
                    if k < old_r.len() {
                        assert(old_r.contains(x));
                    } else {
                        assert(x == level@[i as int] / 2);
                    }
                }
                if exists|t: int| 0 <= t < i + 1 && x == level@[t] / 2 {
                    let t = choose|t: int| 0 <= t < i + 1 && x == level@[t] / 2;
                    if t == i {
                        assert(r@[r@.len() - 1] == x);
                    } else {
                        assert(old_r.contains(x));
                        let k = choose|k: int| 0 <= k < old_r.len() && old_r[k] == x;
                        assert(r@[k] == x);
                    }
                }
            }
        }
        i = i + 1;
    }
    r
}

/// Builds the on-path sets: for each depth `j <= depth_leaves`, the sorted positions of the
/// depth-`j` ancestors of the leaf positions `indexes` (given sorted and without duplicates).
pub fn compute_on_path(depth_leaves: usize, indexes: &Vec<usize>) -> (r: Vec<Vec<usize>>)
    requires
        depth_leaves < usize::MAX,
        strictly_increasing(indexes@),
    ensures
        r@.len() == depth_leaves + 1,
        forall|j: int| 0 <= j <= depth_leaves ==> #[trigger] strictly_increasing(r@[j]@),
        forall|j: int, x: usize|
            0 <= j <= depth_leaves ==> (#[trigger] r@[j]@.contains(x) <==> on_path_contains(
                indexes@,
                depth_leaves as nat,
                j as nat,
                x as nat,
            )),
{
    let mut path_sets: Vec<Vec<usize>> = Vec::new();
    let mut k: usize = 0;
    while k <= depth_leaves
        invariant
            k <= depth_leaves + 1,
            depth_leaves < usize::MAX,
            path_sets@.len() == k,
        decreases depth_leaves + 1 - k,
    {
        path_sets.push(Vec::new());
        k = k + 1;
    }
    let mut bottom: Vec<usize> = Vec::new();
    let mut i: usize = 0;
    while i < indexes.len()
        invariant
            0 <= i <= indexes@.len(),
            bottom@ == indexes@.subrange(0, i as int),
        decreases indexes@.len() - i,
    {
        bottom.push(indexes[i]);
        i = i + 1;
        assert(bottom@ =~= indexes@.subrange(0, i as int));
    }
    assert(bottom@ =~= indexes@);
    path_sets.set(depth_leaves, bottom);
    proof {
        lemma2_to64();
        assert forall|x: usize| #[trigger] path_sets@[depth_leaves as int]@.contains(x)
            <==> on_path_contains(indexes@, depth_leaves as nat, depth_leaves as nat, x as nat) by {
            if path_sets@[depth_leaves as int]@.contains(x) {
                let t = choose|t: int| 0 <= t < indexes@.len() && indexes@[t] == x;
                assert(ancestor(indexes@[t] as nat, 0) == x);
            }
            if on_path_contains(indexes@, depth_leaves as nat, depth_leaves as nat, x as nat) {
                let t = choose|t: int| 0 <= t < indexes@.len() && x == ancestor(indexes@[t] as nat, 0);
                assert(ancestor(indexes@[t] as nat, 0) == indexes@[t]);
                assert(path_sets@[depth_leaves as int]@[t] == x);
            }
        }
    }
    let mut j: usize = depth_leaves;
    while j > 0
        invariant
            0 <= j <= depth_leaves,
            depth_leaves < usize::MAX,
            path_sets@.len() == depth_leaves + 1,
            forall|jj: int| j <= jj <= depth_leaves ==> #[trigger] strictly_increasing(path_sets@[jj]@),
            forall|jj: int, x: usize|
                j <= jj <= depth_leaves ==> (#[trigger] path_sets@[jj]@.contains(x)
                    <==> on_path_contains(indexes@, depth_leaves as nat, jj as nat, x as nat)),
        decreases j,
    {
        let parents = halve_dedup(&path_sets[j]);
        let ghost below = path_sets@[j as int]@;
        let ghost lv = (depth_leaves - j) as nat;
        proof {
            lemma_pow2_unfold((lv + 1) as nat);
            lemma_pow2_pos(lv);
            assert forall|x: usize| #[trigger] parents@.contains(x) <==> on_path_contains(
                indexes@,
                depth_leaves as nat,
                (j - 1) as nat,
                x as nat,
            ) by {
                if parents@.contains(x) {
                    let t = choose|t: int| 0 <= t < below.len() && x == below[t] / 2;
                    assert(below.contains(below[t]));
                    assert(on_path_contains(indexes@, depth_leaves as nat, j as nat, below[t] as nat));
                    let u = choose|u: int| 0 <= u < indexes@.len() && below[t] == ancestor(indexes@[u] as nat, lv);
                    lemma_div_denominator(indexes@[u] as int, pow2(lv) as int, 2);
                    assert(x == ancestor(indexes@[u] as nat, (lv + 1) as nat));
                }
                if on_path_contains(indexes@, depth_leaves as nat, (j - 1) as nat, x as nat) {
                    let u = choose|u: int| 0 <= u < indexes@.len() && x == ancestor(indexes@[u] as nat, (depth_leaves - (j - 1)) as nat);
                    let y = ancestor(indexes@[u] as nat, lv);
                    assert(y <= indexes@[u]) by {
                        vstd::arithmetic::div_mod::lemma_div_is_ordered_by_denominator(indexes@[u] as int, 1, pow2(lv) as int);
                    }
                    assert(on_path_contains(indexes@, depth_leaves as nat, j as nat, y));
                    assert(below.contains(y as usize));
                    let t = choose|t: int| 0 <= t < below.len() && below[t] == y as usize;
                    lemma_div_denominator(indexes@[u] as int, pow2(lv) as int, 2);
                    assert(x == below[t] / 2);
                }
            }
        }
        path_sets.set(j - 1, parents);
        j = j - 1;
    }
    path_sets
}

/// Two strictly increasing sequences with the same elements are equal.
pub proof fn lemma_strictly_increasing_unique(q1: Seq<usize>, q2: Seq<usize>)
    requires
        strictly_increasing(q1),
        strictly_increasing(q2),
        forall|x: usize| q1.contains(x) <==> q2.contains(x),
    ensures
        q1 == q2,
    decreases q1.len(),
{
    if q1.len() == 0 {
        if q2.len() > 0 {
            assert(q2.contains(q2[0]));
        }
        assert(q1 =~= q2);
    } else if q2.len() == 0 {
        assert(q1.contains(q1[0]));
    } else {
        assert(q1.contains(q1[0]));
        assert(q2.contains(q2[0]));
        let i2 = choose|i: int| 0 <= i < q2.len() && q2[i] == q1[0];
        let i1 = choose|i: int| 0 <= i < q1.len() && q1[i] == q2[0];
        if i2 > 0 {
            assert(q2[0] < q2[i2]);
            assert(q1[0] <= q1[i1]);
        }
        assert(q1[0] == q2[0]);
        let t1 = q1.drop_first();
        let t2 = q2.drop_first();
        assert forall|x: usize| t1.contains(x) <==> t2.contains(x) by {
            if t1.contains(x) {
                let k = choose|k: int| 0 <= k < t1.len() && t1[k] == x;
                assert(q1[k + 1] == x);
                assert(q1[0] < x);
                assert(q2.contains(x));
                let k2 = choose|k2: int| 0 <= k2 < q2.len() && q2[k2] == x;
                assert(k2 != 0);
                assert(t2[k2 - 1] == x);
            }
            if t2.contains(x) {
                let k = choose|k: int| 0 <= k < t2.len() && t2[k] == x;
                assert(q2[k + 1] == x);
                assert(q2[0] < x);
                assert(q1.contains(x));
                let k2 = choose|k2: int| 0 <= k2 < q1.len() && q1[k2] == x;
                assert(k2 != 0);
                assert(t1[k2 - 1] == x);
            }
        }
        lemma_strictly_increasing_unique(t1, t2);
        assert(q1 =~= q2) by {
            assert forall|k: int| 0 <= k < q1.len() implies q1[k] == q2[k] by {
                if k > 0 {
                    assert(q1[k] == t1[k - 1]);
                    assert(q2[k] == t2[k - 1]);
                }
            }
        }
    }
}

/// The elements of `s` in increasing order (when `s` is a finite set of `usize`).
pub open spec fn sorted_seq_of(s: Set<usize>) -> Seq<usize> {
    choose|q: Seq<usize>| strictly_increasing(q) && forall|x: usize| #[trigger] q.contains(x) <==> s.contains(x)
}

/// A strictly increasing sequence is the sorted sequence of its elements.
pub proof fn lemma_sorted_seq_of(q: Seq<usize>, s: Set<usize>)
    requires
        strictly_increasing(q),
        forall|x: usize| #[trigger] q.contains(x) <==> s.contains(x),
    ensures
        sorted_seq_of(s) == q,
{
    let c = sorted_seq_of(s);
    assert(strictly_increasing(c) && forall|x: usize| #[trigger] c.contains(x) <==> s.contains(x));
    lemma_strictly_increasing_unique(c, q);
}

/// Inserts `x`, absent from the strictly increasing `q`, at its place.
proof fn sorted_insert(q: Seq<usize>, x: usize) -> (r: Seq<usize>)
    requires
        strictly_increasing(q),
        !q.contains(x),
    ensures
        strictly_increasing(r),
        forall|y: usize| #[trigger] r.contains(y) <==> (q.contains(y) || y == x),
    decreases q.len(),
{
    if q.len() == 0 {
        let r = seq![x];
        assert forall|y: usize| #[trigger] r.contains(y) <==> (q.contains(y) || y == x) by {
            if r.contains(y) {
                let k = choose|k: int| 0 <= k < r.len() && r[k] == y;
            }
            if y == x {
                assert(r[0] == x);
            }
        }
        r
    } else if x < q[0] {
        let r = seq![x] + q;
        assert forall|y: usize| #[trigger] r.contains(y) <==> (q.contains(y) || y == x) by {
            if r.contains(y) {
                let k = choose|k: int| 0 <= k < r.len() && r[k] == y;
                if k > 0 {
                    assert(q[k - 1] == y);
                }
            }
            if q.contains(y) {
                let k = choose|k: int| 0 <= k < q.len() && q[k] == y;
                assert(r[k + 1] == y);
            }
            if y == x {
                assert(r[0] == x);
            }
        }
        assert forall|a: int, b: int| 0 <= a < b < r.len() implies r[a] < r[b] by {
            if a == 0 {
                assert(q[0] <= q[b - 1]);
            }
        }
        r
    } else {
        let tail = q.drop_first();
        assert(strictly_increasing(tail));
        assert(!tail.contains(x)) by {
            if tail.contains(x) {
                let k = choose|k: int| 0 <= k < tail.len() && tail[k] == x;
                assert(q[k + 1] == x);
            }
        }
        let t = sorted_insert(tail, x);
        let r = seq![q[0]] + t;
        assert forall|y: usize| #[trigger] r.contains(y) <==> (q.contains(y) || y == x) by {
            if r.contains(y) {
                let k = choose|k: int| 0 <= k < r.len() && r[k] == y;
                if k > 0 {
                    assert(t[k - 1] == y);
                    assert(t.contains(y));
                    if tail.contains(y) {
                        let k2 = choose|k2: int| 0 <= k2 < tail.len() && tail[k2] == y;
                        assert(q[k2 + 1] == y);
                    }
                }
            }
            if q.contains(y) {
                let k = choose|k: int| 0 <= k < q.len() && q[k] == y;
                if k > 0 {
                    assert(tail[k - 1] == y);
                    assert(t.contains(y));
                    let k2 = choose|k2: int| 0 <= k2 < t.len() && t[k2] == y;
                    assert(r[k2 + 1] == y);
                } else {
                    assert(r[0] == y);
                }
            }
            if y == x {
                assert(t.contains(x));
                let k2 = choose|k2: int| 0 <= k2 < t.len() && t[k2] == x;
                assert(r[k2 + 1] == x);
            }
        }
        assert(x != q[0]) by {
            assert(q.contains(q[0]));
        }
        assert forall|a: int, b: int| 0 <= a < b < r.len() implies r[a] < r[b] by {
            if a == 0 {
                let y = t[b - 1];
                assert(t.contains(y));
                if tail.contains(y) {
                    let k2 = choose|k2: int| 0 <= k2 < tail.len() && tail[k2] == y;
                    assert(q[0] < q[k2 + 1]);
                }
            } else {
                assert(r[a] == t[a - 1]);
                assert(r[b] == t[b - 1]);
            }
        }
        r
    }
}

/// A strictly increasing sequence holding exactly the elements of the finite set `s`.
proof fn sorted_witness(s: Set<usize>) -> (q: Seq<usize>)
    requires
        s.finite(),
    ensures
        strictly_increasing(q),
        forall|y: usize| #[trigger] q.contains(y) <==> s.contains(y),
    decreases s.len(),
{
    if s.len() == 0 {
        assert(s =~= Set::<usize>::empty()) by {
            if exists|y: usize| s.contains(y) {
                let y = choose|y: usize| s.contains(y);
                vstd::set_lib::lemma_set_empty_equivalency_len(s);
            }
        }
        Seq::empty()
    } else {
        let x = s.choose();
        vstd::set_lib::lemma_set_empty_equivalency_len(s);
        let q0 = sorted_witness(s.remove(x));
        sorted_insert(q0, x)
    }
}

/// The sorted sequence of a finite set is strictly increasing and holds exactly its elements.
pub proof fn lemma_sorted_seq_of_finite(s: Set<usize>)
    requires
        s.finite(),
    ensures
        strictly_increasing(sorted_seq_of(s)),
        forall|y: usize| #[trigger] sorted_seq_of(s).contains(y) <==> s.contains(y),
{
    let q = sorted_witness(s);
    lemma_sorted_seq_of(q, s);
}

/// Whether the sorted sequence `v` holds `x` (binary search).
pub fn contains_sorted(v: &Vec<usize>, x: usize) -> (r: bool)
    requires
        strictly_increasing(v@),
    ensures
        r == v@.contains(x),
{
    let mut lo: usize = 0;
    let mut hi: usize = v.len();
    while lo < hi
        invariant
            0 <= lo <= hi <= v@.len(),
            strictly_increasing(v@),
            forall|k: int| 0 <= k < lo ==> v@[k] < x,
            forall|k: int| hi <= k < v@.len() ==> v@[k] > x,
        decreases hi - lo,
    {
        let mid = lo + (hi - lo) / 2;
        if v[mid] == x {
            return true;
        } else if v[mid] < x {
            lo = mid + 1;
        } else {
            hi = mid;
        }
    }
    proof {
        if v@.contains(x) {
            let k = choose|k: int| 0 <= k < v@.len() && v@[k] == x;
            assert(false);
        }
    }
    false
}

/// Whether some value occurs twice in `v`: the first value already seen, by a `BTreeSet`.
pub fn has_duplicates(v: &[usize]) -> (r: bool)
    ensures
        r == !v@.no_duplicates(),
{
    broadcast use vstd::std_specs::btree::group_btree_axioms;
    proof {
        lemma_usize_keys_ordered();
    }
    let mut seen: BTreeSet<usize> = BTreeSet::new();
    let mut i: usize = 0;
    while i < v.len()
        invariant
            0 <= i <= v@.len(),
            forall|x: usize| #[trigger] seen@.contains(x) <==> exists|t: int| 0 <= t < i && v@[t] == x,
            forall|a: int, b: int| 0 <= a < b < i ==> v@[a] != v@[b],
        decreases v@.len() - i,
    {
        let x = v[i];
        proof {
            lemma_usize_keys_ordered();
        }
        if !seen.insert(x) {
            proof {
                let t = choose|t: int| 0 <= t < i && v@[t] == x;
                assert(!v@.no_duplicates());
            }
            return true;
        }
        i = i + 1;
    }
    false
}

/// Whether every value of `v` is below `2^bits`.
pub fn all_below_pow2(v: &[usize], bits: usize) -> (r: bool)
    requires
        bits < usize::BITS,
    ensures
        r == (forall|t: int| 0 <= t < v@.len() ==> v@[t] < pow2(bits as nat)),
{
    let mut t: usize = 0;
    while t < v.len()
        invariant
            0 <= t <= v@.len(),
            bits < usize::BITS,
            forall|u: int| 0 <= u < t ==> v@[u] < pow2(bits as nat),
        decreases v@.len() - t,
    {
        let x = v[t];
        proof {
            vstd::bits::lemma_usize_shr_is_div(x, bits);
            lemma_pow2_pos(bits as nat);
            if x >= pow2(bits as nat) {
                vstd::arithmetic::div_mod::lemma_div_non_zero(x as int, pow2(bits as nat) as int);
            } else {
                vstd::arithmetic::div_mod::lemma_basic_div(x as int, pow2(bits as nat) as int);
            }
        }
        if (x >> bits) != 0 {
            return false;
        }
        t = t + 1;
    }
    true
}

} // verus!
