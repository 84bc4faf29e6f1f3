use vstd::prelude::*;
use std::collections::BTreeMap;
use crate::copath::{CoPath, PackedInnerCopath, levels_view};
use crate::crh::{copy_bytes, bytes_eq};
use crate::encoding::{
    encode_delta, decode_delta, varint_spec, zigzag_spec, unzigzag_spec, varint_ends_at,
    varint_decoded,
};
use crate::lut::{HashLut, lut_contents};
use crate::index::{level_index, level_index_spec};
use crate::model::lemma_level_index_range;
use vstd::arithmetic::power2::{pow2, lemma_pow2_pos};
use crate::encoding::{lemma_varint_roundtrip, lemma_varint_end_unique, lemma_zigzag_roundtrip};

verus! {

/// The plain-value view of packed inner copath entries.
pub open spec fn packed_view(p: Option<PackedInnerCopath>) -> Option<(usize, usize, Seq<u8>, Seq<Seq<u8>>)> {
    match p {
        None => None,
        Some(x) => Some((x.0, x.1, x.2@, x.3@.map_values(|v: Vec<u8>| v@))),
    }
}

/// The plain-value view of `(depth, index, digest)` copath entries.
pub open spec fn entries_view(e: Seq<(usize, usize, Vec<u8>)>) -> Seq<(usize, usize, Seq<u8>)> {
    e.map_values(|x: (usize, usize, Vec<u8>)| (x.0, x.1, x.2@))
}

/// Whether every coordinate of `entries` fits an `i64`.
pub open spec fn coords_fit_i64(entries: Seq<(usize, usize, Seq<u8>)>) -> bool {
    forall|t: int| 0 <= t < entries.len() ==> entries[t].0 <= i64::MAX && entries[t].1 <= i64::MAX
}

/// The delta stream of the first `n` entries: for each entry after the first, the zigzag
/// LEB128 encodings of its depth delta and of its index delta from the entry before.
pub open spec fn deltas_spec(entries: Seq<(usize, usize, Seq<u8>)>, n: nat) -> Seq<u8>
    decreases n,
{
    if n <= 1 {
        Seq::empty()
    } else {
        deltas_spec(entries, (n - 1) as nat) + varint_spec(
            zigzag_spec((entries[n - 1].0 - entries[n - 2].0) as i64),
        ) + varint_spec(zigzag_spec((entries[n - 1].1 - entries[n - 2].1) as i64))
    }
}

/// The packed form of the copath entries: `None` when there are none or a coordinate does
/// not fit an `i64`; otherwise the first coordinate, the delta stream and the digests.
pub open spec fn pack_spec(entries: Seq<(usize, usize, Seq<u8>)>) -> Option<(usize, usize, Seq<u8>, Seq<Seq<u8>>)> {
    if entries.len() == 0 || !coords_fit_i64(entries) {
        None
    } else {
        Some(
            (
                entries[0].0,
                entries[0].1,
                deltas_spec(entries, entries.len()),
                entries.map_values(|x: (usize, usize, Seq<u8>)| x.2),
            ),
        )
    }
}

/// The coordinate after `(depth, index)`: two zigzag LEB128 deltas read from `cursor`, then
/// added; with the cursor after them. `None` when a delta is missing or a sum leaves `i64`.
pub open spec fn next_coord(deltas: Seq<u8>, cursor: int, depth: int, index: int) -> Option<(int, int, int)> {
    if exists|k: int| varint_ends_at(deltas, cursor, k) {
        let k1 = choose|k: int| varint_ends_at(deltas, cursor, k);
        let dd = unzigzag_spec(varint_decoded(deltas, cursor, k1));
        let c1 = k1 + 1;
        if exists|k: int| varint_ends_at(deltas, c1, k) {
            let k2 = choose|k: int| varint_ends_at(deltas, c1, k);
            let di = unzigzag_spec(varint_decoded(deltas, c1, k2));
            if i64::MIN <= depth + dd <= i64::MAX && i64::MIN <= index + di <= i64::MAX {
                Some((k2 + 1, depth + dd, index + di))
            } else {
                None
            }
        } else {
            None
        }
    } else {
        None
    }
}

/// Whether a decoded entry is accepted: an inner depth of the tree, an index that fits a
/// `usize`, not before the previous entry in `(depth, index)` order, and agreeing with a
/// digest already known at its position. `hardened` decoding asks more: the index lies among
/// the `2^depth` positions of its depth, and the entry comes strictly after the previous one.
pub open spec fn entry_ok(
    levels: Seq<Map<usize, Seq<u8>>>,
    tree_height: int,
    prev: Option<(int, int)>,
    depth: int,
    index: int,
    digest: Seq<u8>,
    hardened: bool,
) -> bool {
    &&& 0 < depth < tree_height
    &&& 0 <= index <= usize::MAX
    &&& hardened ==> index < pow2(depth as nat)
    &&& match prev {
        Some(p) => if hardened {
            p.0 < depth || (depth == p.0 && p.1 < index)
        } else {
            !(depth < p.0 || (depth == p.0 && index < p.1))
        },
        None => true,
    }
    &&& (levels[depth].contains_key(index as usize) ==> levels[depth][index as usize] == digest)
}

/// `levels` with `digest` recorded at `(depth, index)`.
pub open spec fn entry_put(levels: Seq<Map<usize, Seq<u8>>>, depth: int, index: int, digest: Seq<u8>) -> Seq<Map<usize, Seq<u8>>> {
    levels.update(depth, levels[depth].insert(index as usize, digest))
}

/// The state after decoding and recording the first `m >= 1` entries: the levels, the
/// cursor in the delta stream, and the coordinate of the last entry. `None` once an
/// entry is missing or refused.
pub open spec fn decode_prefix(
    levels: Seq<Map<usize, Seq<u8>>>,
    tree_height: int,
    deltas: Seq<u8>,
    digests: Seq<Seq<u8>>,
    start_depth: int,
    start_index: int,
    m: nat,
    hardened: bool,
) -> Option<(Seq<Map<usize, Seq<u8>>>, int, int, int)>
    decreases m,
{
    if m <= 1 {
        if entry_ok(levels, tree_height, None, start_depth, start_index, digests[0], hardened) {
            Some((entry_put(levels, start_depth, start_index, digests[0]), 0, start_depth, start_index))
        } else {
            None
        }
    } else {
        match decode_prefix(levels, tree_height, deltas, digests, start_depth, start_index, (m - 1) as nat, hardened) {
            None => None,
            Some(st) => match next_coord(deltas, st.1, st.2, st.3) {
                None => None,
                Some(nc) => if entry_ok(st.0, tree_height, Some((st.2, st.3)), nc.1, nc.2, digests[m - 1], hardened) {
                    Some((entry_put(st.0, nc.1, nc.2, digests[m - 1]), nc.0, nc.1, nc.2))
                } else {
                    None
                },
            },
        }
    }
}

/// The levels after decoding a packed inner copath into `levels`, or `None` when the
/// packing is refused: digests left over or missing, trailing delta bytes, a start
/// coordinate beyond `i64`, or a refused entry.
pub open spec fn decode_spec(
    levels: Seq<Map<usize, Seq<u8>>>,
    tree_height: int,
    packed: Option<(usize, usize, Seq<u8>, Seq<Seq<u8>>)>,
    hardened: bool,
) -> Option<Seq<Map<usize, Seq<u8>>>> {
    match packed {
        None => Some(levels),
        Some(p) => if p.3.len() == 0 {
            if p.2.len() == 0 {
                Some(levels)
            } else {
                None
            }
        } else if p.0 > i64::MAX || p.1 > i64::MAX {
            None
        } else {
            match decode_prefix(levels, tree_height, p.2, p.3, p.0 as int, p.1 as int, p.3.len(), hardened) {
                Some(st) => if st.1 == p.2.len() {
                    Some(st.0)
                } else {
                    None
                },
                None => None,
            }
        },
    }
}

/// The lookup-table key of a decoded entry: its level-order index `2^depth - 1 + index`,
/// computed with the machine's shift (by `depth` modulo the word size) and wrapping
/// arithmetic, so a position beyond `usize` wraps.
pub open spec fn lut_key(depth: usize, index: usize) -> usize {
    (1usize << (depth % (usize::BITS as usize))).wrapping_sub(1).wrapping_add(index)
}

/// `m` with `k` mapped to `v` unless `k` is already there.
pub open spec fn put_if_absent(m: Map<usize, Seq<u8>>, k: usize, v: Seq<u8>) -> Map<usize, Seq<u8>> {
    if m.contains_key(k) {
        m
    } else {
        m.insert(k, v)
    }
}

/// The lookup table after decoding the first `m >= 1` entries as [`decode_prefix`] does:
/// each entry's digest is recorded at its key unless the key is already there.
pub open spec fn decode_lut(
    lut: Map<usize, Seq<u8>>,
    levels: Seq<Map<usize, Seq<u8>>>,
    tree_height: int,
    deltas: Seq<u8>,
    digests: Seq<Seq<u8>>,
    start_depth: int,
    start_index: int,
    m: nat,
    hardened: bool,
) -> Map<usize, Seq<u8>>
    decreases m,
{
    if m <= 1 {
        put_if_absent(lut, lut_key(start_depth as usize, start_index as usize), digests[0])
    } else {
        let prev = decode_lut(lut, levels, tree_height, deltas, digests, start_depth, start_index, (m - 1) as nat, hardened);
        match decode_prefix(levels, tree_height, deltas, digests, start_depth, start_index, (m - 1) as nat, hardened) {
            Some(st) => match next_coord(deltas, st.1, st.2, st.3) {
                Some(nc) => put_if_absent(prev, lut_key(nc.1 as usize, nc.2 as usize), digests[m - 1]),
                None => prev,
            },
            None => prev,
        }
    }
}

/// The lookup table after decoding a packed inner copath as [`decode_spec`] does.
pub open spec fn decode_spec_lut(
    lut: Map<usize, Seq<u8>>,
    levels: Seq<Map<usize, Seq<u8>>>,
    tree_height: int,
    packed: Option<(usize, usize, Seq<u8>, Seq<Seq<u8>>)>,
    hardened: bool,
) -> Map<usize, Seq<u8>> {
    match packed {
        None => lut,
        Some(p) => if p.3.len() == 0 {
            lut
        } else {
            decode_lut(lut, levels, tree_height, p.2, p.3, p.0 as int, p.1 as int, p.3.len(), hardened)
        },
    }
}

/// The plain view of the previous decoded coordinate.
pub open spec fn prev_view(p: Option<(usize, usize)>) -> Option<(int, int)> {
    match p {
        None => None,
        Some(x) => Some((x.0 as int, x.1 as int)),
    }
}

impl CoPath {
    /// Packs inner copath entries, given in `(depth, index)` order, as the first coordinate,
    /// the zigzag LEB128 deltas between consecutive coordinates, and the digests. `None`
    /// when there is no entry or a coordinate does not fit an `i64`.
    pub fn pack_inner_copath(entries: &[(usize, usize, Vec<u8>)]) -> (r: Option<PackedInnerCopath>)
        ensures
            packed_view(r) == pack_spec(entries_view(entries@)),
    {
        let ghost ev = entries_view(entries@);
        if entries.len() == 0 {
            return None;
        }
        let first = &entries[0];
        let mut prev_depth: i64 = match i64::try_from(first.0) {
            Ok(v) => v,
            Err(_) => {
                return None;
            },
        };
        let mut prev_index: i64 = match i64::try_from(first.1) {
            Ok(v) => v,
            Err(_) => {
                return None;
            },
        };
        let mut deltas: Vec<u8> = Vec::new();
        let mut digests: Vec<Vec<u8>> = Vec::new();
        digests.push(copy_bytes(first.2.as_slice()));
        let mut t: usize = 1;
        while t < entries.len()
            invariant
                ev == entries_view(entries@),
                1 <= t <= entries@.len(),
                forall|u: int| 0 <= u < t ==> ev[u].0 <= i64::MAX && ev[u].1 <= i64::MAX,
                prev_depth == ev[t - 1].0,
                prev_index == ev[t - 1].1,
                deltas@ == deltas_spec(ev, t as nat),
                digests@.len() == t,
                forall|u: int| 0 <= u < t ==> #[trigger] digests@[u]@ == ev[u].2,
            decreases entries@.len() - t,
        {
            let e = &entries[t];
            let depth: i64 = match i64::try_from(e.0) {
                Ok(v) => v,
                Err(_) => {
                    proof {
                        assert(!coords_fit_i64(ev)) by {
                            assert(!(ev[t as int].0 <= i64::MAX && ev[t as int].1 <= i64::MAX));
                        }
                    }
                    return None;
                },
            };
            let index: i64 = match i64::try_from(e.1) {
                Ok(v) => v,
                Err(_) => {
                    proof {
                        assert(!coords_fit_i64(ev)) by {
                            assert(!(ev[t as int].0 <= i64::MAX && ev[t as int].1 <= i64::MAX));
                        }
                    }
                    return None;
                },
            };
            encode_delta(&mut deltas, depth - prev_depth);
            encode_delta(&mut deltas, index - prev_index);
            digests.push(copy_bytes(e.2.as_slice()));
            prev_depth = depth;
            prev_index = index;
            t = t + 1;
            assert(deltas@ =~= deltas_spec(ev, t as nat));
        }
        proof {
            assert(coords_fit_i64(ev));
            assert(digests@.map_values(|v: Vec<u8>| v@) =~= ev.map_values(
                |x: (usize, usize, Seq<u8>)| x.2,
            ));
        }
        Some((first.0, first.1, deltas, digests))
    }

    /// Records one decoded inner copath entry: checks it as [`entry_ok`] says (an inner depth
    /// of the tree, an index that fits a `usize`, not before the previous entry, agreeing with
    /// a digest already known there; `hardened`, also an index within its depth and strictly
    /// after the previous entry), then stores it and seeds the lookup table.
    fn push_entry(
        tree_height: usize,
        depth: i64,
        index: i64,
        digest: &Vec<u8>,
        prev: &mut Option<(usize, usize)>,
        inner_levels: &mut Vec<BTreeMap<usize, Vec<u8>>>,
        hash_lut: &mut HashLut,
        hardened: bool,
    ) -> (r: bool)
        requires
            tree_height <= old(inner_levels)@.len(),
        ensures
            final(inner_levels)@.len() == old(inner_levels)@.len(),
            r == entry_ok(
                levels_view(old(inner_levels)@),
                tree_height as int,
                prev_view(*old(prev)),
                depth as int,
                index as int,
                digest@,
                hardened,
            ),
            r ==> levels_view(final(inner_levels)@) == entry_put(
                levels_view(old(inner_levels)@),
                depth as int,
                index as int,
                digest@,
            ),
            r ==> *final(prev) == Some((depth as usize, index as usize)),
            r ==> 0 <= depth <= usize::MAX && 0 <= index <= usize::MAX,
            r ==> lut_contents(*final(hash_lut)) == put_if_absent(
                lut_contents(*old(hash_lut)),
                lut_key(depth as usize, index as usize),
                digest@,
            ),
            !r ==> *final(inner_levels) == *old(inner_levels) && *final(hash_lut) == *old(hash_lut)
                && *final(prev) == *old(prev),
    {
        let ghost lv0 = levels_view(inner_levels@);
        let depth_usize = match usize::try_from(depth) {
            Ok(v) => v,
            Err(_) => {
                return false;
            },
        };
        if depth_usize == 0 || depth_usize >= tree_height {
            return false;
        }
        let index_usize = match usize::try_from(index) {
            Ok(v) => v,
            Err(_) => {
                return false;
            },
        };
        if hardened && depth_usize < usize::BITS as usize {
            proof {
                vstd::bits::lemma_usize_shr_is_div(index_usize, depth_usize);
                lemma_pow2_pos(depth_usize as nat);
                if index_usize >= pow2(depth_usize as nat) {
                    vstd::arithmetic::div_mod::lemma_div_non_zero(index_usize as int, pow2(depth_usize as nat) as int);
                } else {
                    vstd::arithmetic::div_mod::lemma_basic_div(index_usize as int, pow2(depth_usize as nat) as int);
                }
            }
            if (index_usize >> depth_usize) != 0 {
                return false;
            }
        } else if hardened {
            proof {
                vstd::arithmetic::power2::lemma2_to64();
                vstd::arithmetic::power2::lemma2_to64_rest();
                if depth_usize > usize::BITS {
                    vstd::arithmetic::power2::lemma_pow2_strictly_increases(usize::BITS as nat, depth_usize as nat);
                }
                assert(index_usize < pow2(depth_usize as nat));
            }
        }
        match *prev {
            Some((pd, pi)) => {
                if depth_usize < pd || (depth_usize == pd && (index_usize < pi || (hardened && index_usize == pi))) {
                    return false;
                }
            },
            None => {},
        }
        let ghost before = inner_levels@;
        assert(lv0[depth as int] == map_view_at(before, depth as int));
        match inner_levels[depth_usize].get(&index_usize) {
            Some(existing) => {
                if !bytes_eq(existing.as_slice(), digest.as_slice()) {
                    return false;
                }
                proof {
                    assert(map_view_at(before, depth as int).insert(index_usize, digest@)
                        =~= map_view_at(before, depth as int));
                    assert(levels_view(inner_levels@) =~= entry_put(lv0, depth as int, index as int, digest@));
                }
            },
            None => {
                inner_levels[depth_usize].insert(index_usize, copy_bytes(digest.as_slice()));
                proof {
                    assert(inner_levels@ == before.update(depth as int, inner_levels@[depth as int]));
                    assert(map_view_at(inner_levels@, depth as int) =~= map_view_at(before, depth as int).insert(
                        index_usize,
                        digest@,
                    ));
                    let target = entry_put(lv0, depth as int, index as int, digest@);
                    assert forall|i: int| 0 <= i < inner_levels@.len() implies #[trigger] levels_view(
                        inner_levels@,
                    )[i] == target[i] by {
                        assert(levels_view(inner_levels@)[i] == map_view_at(inner_levels@, i));
                        assert(levels_view(before)[i] == map_view_at(before, i));
                    }
                    assert(levels_view(inner_levels@) =~= target);
                }
            },
        }
        let shift = depth_usize % (usize::BITS as usize);
        let heap_idx = (1usize << shift).wrapping_sub(1).wrapping_add(index_usize);
        hash_lut.insert_if_absent(heap_idx, copy_bytes(digest.as_slice()));
        *prev = Some((depth_usize, index_usize));
        true
    }

    /// Decodes the packed inner copath into `inner_levels` (one map per depth), checking
    /// each entry as [`entry_ok`] says in its hardened form (an index within its depth,
    /// coordinates strictly increasing) and seeding the lookup table. Returns `false` when
    /// the packing is refused; what the accepted entries recorded before the refusal stays.
    pub fn decode_inner_copath(
        tree_height: usize,
        inner_copath: &Option<PackedInnerCopath>,
        inner_levels: &mut Vec<BTreeMap<usize, Vec<u8>>>,
        hash_lut: &mut HashLut,
    ) -> (r: bool)
        requires
            tree_height <= old(inner_levels)@.len(),
        ensures
            final(inner_levels)@.len() == old(inner_levels)@.len(),
            r == decode_spec(levels_view(old(inner_levels)@), tree_height as int, packed_view(*inner_copath), true) is Some,
            r ==> Some(levels_view(final(inner_levels)@)) == decode_spec(
                levels_view(old(inner_levels)@),
                tree_height as int,
                packed_view(*inner_copath),
                true,
            ),
            r ==> lut_contents(*final(hash_lut)) == decode_spec_lut(
                lut_contents(*old(hash_lut)),
                levels_view(old(inner_levels)@),
                tree_height as int,
                packed_view(*inner_copath),
                true,
            ),
            !r ==> levels_view(final(inner_levels)@) == refused_levels(
                levels_view(old(inner_levels)@),
                tree_height as int,
                packed_view(*inner_copath),
                true,
            ),
            !r ==> lut_contents(*final(hash_lut)) == refused_lut(
                lut_contents(*old(hash_lut)),
                levels_view(old(inner_levels)@),
                tree_height as int,
                packed_view(*inner_copath),
                true,
            ),
    {
        Self::decode_packed(tree_height, inner_copath, inner_levels, hash_lut, true)
    }

    /// Decodes a packed inner copath as [`CoPath::decode_inner_copath`] does, checking each
    /// entry as [`entry_ok`] says in the given form: `hardened`, or as the benchmark-layout
    /// verifier decodes (an index that fits a `usize`, coordinates not decreasing).
    pub(crate) fn decode_packed(
        tree_height: usize,
        inner_copath: &Option<PackedInnerCopath>,
        inner_levels: &mut Vec<BTreeMap<usize, Vec<u8>>>,
        hash_lut: &mut HashLut,
        hardened: bool,
    ) -> (r: bool)
        requires
            tree_height <= old(inner_levels)@.len(),
        ensures
            final(inner_levels)@.len() == old(inner_levels)@.len(),
            r == decode_spec(levels_view(old(inner_levels)@), tree_height as int, packed_view(*inner_copath), hardened) is Some,
            r ==> Some(levels_view(final(inner_levels)@)) == decode_spec(
                levels_view(old(inner_levels)@),
                tree_height as int,
                packed_view(*inner_copath),
                hardened,
            ),
            r ==> lut_contents(*final(hash_lut)) == decode_spec_lut(
                lut_contents(*old(hash_lut)),
                levels_view(old(inner_levels)@),
                tree_height as int,
                packed_view(*inner_copath),
                hardened,
            ),
            !r ==> levels_view(final(inner_levels)@) == refused_levels(
                levels_view(old(inner_levels)@),
                tree_height as int,
                packed_view(*inner_copath),
                hardened,
            ),
            !r ==> lut_contents(*final(hash_lut)) == refused_lut(
                lut_contents(*old(hash_lut)),
                levels_view(old(inner_levels)@),
                tree_height as int,
                packed_view(*inner_copath),
                hardened,
            ),
    {
        let ghost lv0 = levels_view(inner_levels@);
        let ghost lut0 = lut_contents(*hash_lut);
        match inner_copath {
            None => true,
            Some(packed) => {
                let start_depth = packed.0;
                let start_index = packed.1;
                let deltas = &packed.2;
                let digests = &packed.3;
                let ghost dv = digests@.map_values(|v: Vec<u8>| v@);
                if digests.len() == 0 {
                    return deltas.len() == 0;
                }
                let mut depth: i64 = match i64::try_from(start_depth) {
                    Ok(v) => v,
                    Err(_) => {
                        return false;
                    },
                };
                let mut index: i64 = match i64::try_from(start_index) {
                    Ok(v) => v,
                    Err(_) => {
                        return false;
                    },
                };
                let mut cursor: usize = 0;
                let mut prev_coord: Option<(usize, usize)> = None;
                assert(dv[0] == digests@[0]@);
                if !Self::push_entry(tree_height, depth, index, &digests[0], &mut prev_coord, inner_levels, hash_lut, hardened) {
                    proof {
                        lemma_accepted_count(lv0, tree_height as int, deltas@, dv, start_depth as int, start_index as int, 0, dv.len(), hardened);
                    }
                    return false;
                }
                let mut m: usize = 1;
                while m < digests.len()
                    invariant
                        dv == digests@.map_values(|v: Vec<u8>| v@),
                        packed_view(*inner_copath) == Some((start_depth, start_index, deltas@, dv)),
                        tree_height <= inner_levels@.len(),
                        inner_levels@.len() == old(inner_levels)@.len(),
                        lv0 == levels_view(old(inner_levels)@),
                        1 <= m <= digests@.len(),
                        cursor <= deltas@.len(),
                        start_depth <= i64::MAX,
                        start_index <= i64::MAX,
                        decode_prefix(lv0, tree_height as int, deltas@, dv, start_depth as int, start_index as int, m as nat, hardened)
                            == Some((levels_view(inner_levels@), cursor as int, depth as int, index as int)),
                        prev_view(prev_coord) == Some((depth as int, index as int)),
                        lut0 == lut_contents(*old(hash_lut)),
                        lut_contents(*hash_lut) == decode_lut(lut0, lv0, tree_height as int, deltas@, dv, start_depth as int, start_index as int, m as nat, hardened),
                    decreases digests@.len() - m,
                {
                    let ghost st = (levels_view(inner_levels@), cursor as int, depth as int, index as int);
                    let depth_delta = match decode_delta(deltas.as_slice(), &mut cursor) {
                        Some(delta) => delta,
                        None => {
                            proof {
                                assert(next_coord(deltas@, st.1, st.2, st.3) is None);
                                lemma_accepted_count(lv0, tree_height as int, deltas@, dv, start_depth as int, start_index as int, m as nat, dv.len(), hardened);
                            }
                            return false;
                        },
                    };
                    let ghost c1 = cursor;
                    let index_delta = match decode_delta(deltas.as_slice(), &mut cursor) {
                        Some(delta) => delta,
                        None => {
                            proof {
                                assert(next_coord(deltas@, st.1, st.2, st.3) is None);
                                lemma_accepted_count(lv0, tree_height as int, deltas@, dv, start_depth as int, start_index as int, m as nat, dv.len(), hardened);
                            }
                            return false;
                        },
                    };
                    depth = match depth.checked_add(depth_delta) {
                        Some(value) => value,
                        None => {
                            proof {
                                assert(next_coord(deltas@, st.1, st.2, st.3) is None);
                                lemma_accepted_count(lv0, tree_height as int, deltas@, dv, start_depth as int, start_index as int, m as nat, dv.len(), hardened);
                            }
                            return false;
                        },
                    };
                    index = match index.checked_add(index_delta) {
                        Some(value) => value,
                        None => {
                            proof {
                                assert(next_coord(deltas@, st.1, st.2, st.3) is None);
                                lemma_accepted_count(lv0, tree_height as int, deltas@, dv, start_depth as int, start_index as int, m as nat, dv.len(), hardened);
                            }
                            return false;
                        },
                    };
                    proof {
                        assert(next_coord(deltas@, st.1, st.2, st.3) == Some((cursor as int, depth as int, index as int)));
                    }
                    assert(dv[m as int] == digests@[m as int]@);
                    if !Self::push_entry(tree_height, depth, index, &digests[m], &mut prev_coord, inner_levels, hash_lut, hardened) {
                        proof {
                            lemma_accepted_count(lv0, tree_height as int, deltas@, dv, start_depth as int, start_index as int, m as nat, dv.len(), hardened);
                        }
                        return false;
                    }
                    m = m + 1;
                }
                proof {
                    lemma_accepted_count(lv0, tree_height as int, deltas@, dv, start_depth as int, start_index as int, dv.len(), dv.len(), hardened);
                }
                cursor == deltas.len()
            },
        }
    }
}

/// Once an entry is refused, decoding stays refused: if the first `m + 1` entries do not
/// decode, neither do the first `n >= m + 1`.
proof fn lemma_decode_stuck(
    levels: Seq<Map<usize, Seq<u8>>>,
    tree_height: int,
    deltas: Seq<u8>,
    digests: Seq<Seq<u8>>,
    start_depth: int,
    start_index: int,
    m: nat,
    n: nat,
    hardened: bool,
)
    requires
        m + 1 <= n,
        decode_prefix(levels, tree_height, deltas, digests, start_depth, start_index, m + 1, hardened) is None,
    ensures
        decode_prefix(levels, tree_height, deltas, digests, start_depth, start_index, n, hardened) is None,
    decreases n - m,
{
    if n > m + 1 {
        lemma_decode_stuck(levels, tree_height, deltas, digests, start_depth, start_index, m, (n - 1) as nat, hardened);
    }
}


/// The number of entries, from the first, that decoding accepts: the largest `m <= n` whose
/// prefix decodes (`0` when the first entry is refused).
pub open spec fn accepted_count(
    levels: Seq<Map<usize, Seq<u8>>>,
    tree_height: int,
    deltas: Seq<u8>,
    digests: Seq<Seq<u8>>,
    start_depth: int,
    start_index: int,
    n: nat,
    hardened: bool,
) -> nat
    decreases n,
{
    if n == 0 {
        0
    } else if decode_prefix(levels, tree_height, deltas, digests, start_depth, start_index, n, hardened) is Some {
        n
    } else {
        accepted_count(levels, tree_height, deltas, digests, start_depth, start_index, (n - 1) as nat, hardened)
    }
}

/// The levels left by a refused decoding: those after the entries accepted before the
/// refusal (the levels unchanged when none was).
pub open spec fn refused_levels(
    levels: Seq<Map<usize, Seq<u8>>>,
    tree_height: int,
    packed: Option<(usize, usize, Seq<u8>, Seq<Seq<u8>>)>,
    hardened: bool,
) -> Seq<Map<usize, Seq<u8>>> {
    match packed {
        None => levels,
        Some(p) => if p.3.len() == 0 || p.0 > i64::MAX || p.1 > i64::MAX {
            levels
        } else {
            let k = accepted_count(levels, tree_height, p.2, p.3, p.0 as int, p.1 as int, p.3.len(), hardened);
            if k == 0 {
                levels
            } else {
                decode_prefix(levels, tree_height, p.2, p.3, p.0 as int, p.1 as int, k, hardened).unwrap().0
            }
        },
    }
}

/// The lookup table left by a refused decoding: seeded by the entries accepted before the
/// refusal.
pub open spec fn refused_lut(
    lut: Map<usize, Seq<u8>>,
    levels: Seq<Map<usize, Seq<u8>>>,
    tree_height: int,
    packed: Option<(usize, usize, Seq<u8>, Seq<Seq<u8>>)>,
    hardened: bool,
) -> Map<usize, Seq<u8>> {
    match packed {
        None => lut,
        Some(p) => if p.3.len() == 0 || p.0 > i64::MAX || p.1 > i64::MAX {
            lut
        } else {
            let k = accepted_count(levels, tree_height, p.2, p.3, p.0 as int, p.1 as int, p.3.len(), hardened);
            if k == 0 {
                lut
            } else {
                decode_lut(lut, levels, tree_height, p.2, p.3, p.0 as int, p.1 as int, k, hardened)
            }
        },
    }
}

/// When the first `m` entries decode (or `m == 0`) and the first `m + 1` do not (or
/// `m == n`), `m` entries of `n` are accepted.
proof fn lemma_accepted_count(
    levels: Seq<Map<usize, Seq<u8>>>,
    tree_height: int,
    deltas: Seq<u8>,
    digests: Seq<Seq<u8>>,
    start_depth: int,
    start_index: int,
    m: nat,
    n: nat,
    hardened: bool,
)
    requires
        m <= n,
        m == 0 || decode_prefix(levels, tree_height, deltas, digests, start_depth, start_index, m, hardened) is Some,
        m < n ==> decode_prefix(levels, tree_height, deltas, digests, start_depth, start_index, m + 1, hardened) is None,
    ensures
        accepted_count(levels, tree_height, deltas, digests, start_depth, start_index, n, hardened) == m,
    decreases n,
{
    if n > m {
        lemma_decode_stuck(levels, tree_height, deltas, digests, start_depth, start_index, m, n, hardened);
        lemma_accepted_count(levels, tree_height, deltas, digests, start_depth, start_index, m, (n - 1) as nat, hardened);
    }
}

/// `levels` with the first `n` entries recorded at their coordinates, in order.
pub open spec fn put_all(levels: Seq<Map<usize, Seq<u8>>>, entries: Seq<(usize, usize, Seq<u8>)>, n: nat) -> Seq<Map<usize, Seq<u8>>>
    decreases n,
{
    if n == 0 {
        levels
    } else {
        entry_put(put_all(levels, entries, (n - 1) as nat), entries[n - 1].0 as int, entries[n - 1].1 as int, entries[n - 1].2)
    }
}

/// Whether the coordinates of `entries` strictly increase in `(depth, index)` order.
pub open spec fn coords_increasing(entries: Seq<(usize, usize, Seq<u8>)>) -> bool {
    forall|a: int, b: int|
        0 <= a < b < entries.len() ==> #[trigger] entries[a].0 < #[trigger] entries[b].0 || (entries[a].0
            == entries[b].0 && entries[a].1 < entries[b].1)
}

/// The delta stream of the first `m` entries is a prefix of that of the first `n >= m`.
proof fn lemma_deltas_prefix(entries: Seq<(usize, usize, Seq<u8>)>, m: nat, n: nat)
    requires
        m <= n,
    ensures
        deltas_spec(entries, m).len() <= deltas_spec(entries, n).len(),
        deltas_spec(entries, n).subrange(0, deltas_spec(entries, m).len() as int) == deltas_spec(entries, m),
    decreases n,
{
    if n > m {
        lemma_deltas_prefix(entries, m, (n - 1) as nat);
        let a = deltas_spec(entries, (n - 1) as nat);
        let b = deltas_spec(entries, n);
        assert(b.subrange(0, a.len() as int) =~= a);
        assert(b.subrange(0, deltas_spec(entries, m).len() as int) =~= a.subrange(0, deltas_spec(entries, m).len() as int));
    } else {
        assert(deltas_spec(entries, n).subrange(0, deltas_spec(entries, n).len() as int) =~= deltas_spec(entries, n));
    }
}

/// Recording entries at coordinates other than `(d, i)` leaves that position as it was.
proof fn lemma_put_all_other(
    levels: Seq<Map<usize, Seq<u8>>>,
    entries: Seq<(usize, usize, Seq<u8>)>,
    m: nat,
    d: int,
    i: usize,
)
    requires
        m <= entries.len(),
        0 <= d < levels.len(),
        forall|t: int| 0 <= t < m ==> #[trigger] entries[t].0 < levels.len(),
        forall|t: int| 0 <= t < m ==> !(entries[t].0 == d && entries[t].1 == i),
    ensures
        put_all(levels, entries, m).len() == levels.len(),
        put_all(levels, entries, m)[d].contains_key(i) == levels[d].contains_key(i),
        levels[d].contains_key(i) ==> put_all(levels, entries, m)[d][i] == levels[d][i],
    decreases m,
{
    if m > 0 {
        lemma_put_all_other(levels, entries, (m - 1) as nat, d, i);
    }
}

/// The delta pair of entry `m - 1` follows that of the entries before it in the packed
/// stream and decodes to its coordinate.
proof fn lemma_next_coord_of_pack(entries: Seq<(usize, usize, Seq<u8>)>, m: nat)
    requires
        2 <= m <= entries.len(),
        coords_fit_i64(entries),
    ensures
        next_coord(
            deltas_spec(entries, entries.len()),
            deltas_spec(entries, (m - 1) as nat).len() as int,
            entries[m - 2].0 as int,
            entries[m - 2].1 as int,
        ) == Some((deltas_spec(entries, m).len() as int, entries[m - 1].0 as int, entries[m - 1].1 as int)),
{
    let n = entries.len();
    let full = deltas_spec(entries, n);
    let k = (m - 1) as int;
    let pre = deltas_spec(entries, (m - 1) as nat);
    let da = (entries[k].0 - entries[k - 1].0) as i64;
    let db = (entries[k].1 - entries[k - 1].1) as i64;
    let a = zigzag_spec(da);
    let b = zigzag_spec(db);
    let va = varint_spec(a);
    let vb = varint_spec(b);
    lemma_deltas_prefix(entries, m, n);
    let cur = deltas_spec(entries, m);
    assert(cur == pre + va + vb);
    let rest = full.subrange(cur.len() as int, full.len() as int);
    assert(full =~= cur + rest) by {
        assert(full.subrange(0, cur.len() as int) == cur);
    }
    assert(full =~= pre + va + (vb + rest));
    assert(full =~= (pre + va) + vb + rest);
    lemma_varint_roundtrip(a, pre, vb + rest);
    let k1 = pre.len() + va.len() - 1;
    lemma_varint_end_unique(full, pre.len() as int, k1);
    lemma_varint_roundtrip(b, pre + va, rest);
    let k2 = pre.len() + va.len() + vb.len() - 1;
    lemma_varint_end_unique(full, k1 + 1, k2);
    lemma_zigzag_roundtrip(da);
    lemma_zigzag_roundtrip(db);
    assert(unzigzag_spec(varint_decoded(full, pre.len() as int, k1)) == da);
    assert(unzigzag_spec(varint_decoded(full, k1 + 1, k2)) == db);
}

/// Decoding the first `m` entries of a packing gives the levels with them recorded, the
/// cursor after their deltas and the last coordinate.
proof fn lemma_decode_prefix_of_pack(
    levels: Seq<Map<usize, Seq<u8>>>,
    tree_height: int,
    entries: Seq<(usize, usize, Seq<u8>)>,
    m: nat,
    hardened: bool,
)
    requires
        1 <= m <= entries.len(),
        coords_increasing(entries),
        coords_fit_i64(entries),
        forall|t: int| 0 <= t < entries.len() ==> 0 < #[trigger] entries[t].0 < tree_height,
        forall|t: int| 0 <= t < entries.len() ==> #[trigger] entries[t].1 < pow2(entries[t].0 as nat),
        tree_height <= levels.len(),
        forall|t: int|
            0 <= t < entries.len() && #[trigger] levels[entries[t].0 as int].contains_key(entries[t].1) ==> levels[entries[t].0 as int][entries[t].1]
                == entries[t].2,
    ensures
        decode_prefix(
            levels,
            tree_height,
            deltas_spec(entries, entries.len()),
            entries.map_values(|x: (usize, usize, Seq<u8>)| x.2),
            entries[0].0 as int,
            entries[0].1 as int,
            m,
            hardened,
        ) == Some(
            (
                put_all(levels, entries, m),
                deltas_spec(entries, m).len() as int,
                entries[m - 1].0 as int,
                entries[m - 1].1 as int,
            ),
        ),
    decreases m,
{
    let n = entries.len();
    let full = deltas_spec(entries, n);
    let digests = entries.map_values(|x: (usize, usize, Seq<u8>)| x.2);
    if m == 1 {
        assert(put_all(levels, entries, 0) == levels);
        assert(digests[0] == entries[0].2);
    } else {
        lemma_decode_prefix_of_pack(levels, tree_height, entries, (m - 1) as nat, hardened);
        let k = (m - 1) as int;
        let prev = put_all(levels, entries, (m - 1) as nat);
        lemma_next_coord_of_pack(entries, m);
        assert(entries[k - 1].0 < entries[k].0 || (entries[k - 1].0 == entries[k].0 && entries[k - 1].1 < entries[k].1));
        assert forall|t: int| 0 <= t < m - 1 implies !(entries[t].0 == entries[k].0 && entries[t].1 == entries[k].1) by {
            assert(entries[t].0 < entries[k].0 || (entries[t].0 == entries[k].0 && entries[t].1 < entries[k].1));
        }
        lemma_put_all_other(levels, entries, (m - 1) as nat, entries[k].0 as int, entries[k].1);
        assert(digests[k] == entries[k].2);
        assert(entry_ok(prev, tree_height, Some((entries[k - 1].0 as int, entries[k - 1].1 as int)), entries[k].0 as int, entries[k].1 as int, digests[k], hardened));
    }
}

/// Whether one of the first `n` entries has coordinate `(d, i)`.
pub open spec fn has_coord(entries: Seq<(usize, usize, Seq<u8>)>, n: nat, d: int, i: usize) -> bool {
    exists|t: int| 0 <= t < n && entries[t].0 == d && entries[t].1 == i
}

/// What `put_all` records: each of the first `n` entries sits at its coordinate, and any
/// other position holds what it held before.
proof fn lemma_put_all_contents(
    levels: Seq<Map<usize, Seq<u8>>>,
    entries: Seq<(usize, usize, Seq<u8>)>,
    n: nat,
)
    requires
        n <= entries.len(),
        coords_increasing(entries),
        forall|t: int| 0 <= t < entries.len() ==> #[trigger] entries[t].0 < levels.len(),
    ensures
        put_all(levels, entries, n).len() == levels.len(),
        forall|t: int|
            0 <= t < n ==> #[trigger] put_all(levels, entries, n)[entries[t].0 as int].contains_key(entries[t].1)
                && put_all(levels, entries, n)[entries[t].0 as int][entries[t].1] == entries[t].2,
        forall|d: int, i: usize|
            0 <= d < levels.len() && !has_coord(entries, n, d, i) ==> #[trigger] put_all(levels, entries, n)[d].contains_key(i)
                == levels[d].contains_key(i),
        forall|d: int, i: usize|
            0 <= d < levels.len() && !has_coord(entries, n, d, i) && levels[d].contains_key(i) ==> #[trigger] put_all(
                levels,
                entries,
                n,
            )[d][i] == levels[d][i],
    decreases n,
{
    if n > 0 {
        lemma_put_all_contents(levels, entries, (n - 1) as nat);
        let prev = put_all(levels, entries, (n - 1) as nat);
        let k = (n - 1) as int;
        let cur = put_all(levels, entries, n);
        assert(cur == entry_put(prev, entries[k].0 as int, entries[k].1 as int, entries[k].2));
        assert forall|t: int| 0 <= t < n implies #[trigger] cur[entries[t].0 as int].contains_key(entries[t].1)
            && cur[entries[t].0 as int][entries[t].1] == entries[t].2 by {
            if t < k {
                assert(entries[t].0 < entries[k].0 || (entries[t].0 == entries[k].0 && entries[t].1 < entries[k].1));
            }
        }
        assert forall|d: int, i: usize|
            0 <= d < levels.len() && !has_coord(entries, n, d, i) implies #[trigger] cur[d].contains_key(i)
                == levels[d].contains_key(i) && (levels[d].contains_key(i) ==> #[trigger] cur[d][i] == levels[d][i]) by {
            assert(!(entries[k].0 == d && entries[k].1 == i));
            assert(!has_coord(entries, (n - 1) as nat, d, i)) by {
                if has_coord(entries, (n - 1) as nat, d, i) {
                    let t = choose|t: int| 0 <= t < n - 1 && entries[t].0 == d && entries[t].1 == i;
                    assert(0 <= t < n && entries[t].0 == d && entries[t].1 == i);
                }
            }
            assert(prev[d].contains_key(i) == levels[d].contains_key(i));
            if levels[d].contains_key(i) {
                assert(prev[d][i] == levels[d][i]);
                assert(cur[d][i] == prev[d][i]);
            }
        }
    } else {
        assert(put_all(levels, entries, 0) == levels);
    }
}

/// Law: decoding the packing of copath entries gives back the entries. When their coordinates
/// strictly increase, each lies at an inner depth of the tree and among the `2^depth`
/// positions of its depth, they fit an `i64`, and each agrees with any digest already known
/// at its position, decoding succeeds and records exactly them: every entry's digest at its
/// coordinate, every other position as it was (so, from empty levels, depth `d` holds
/// exactly the entries of depth `d`). This holds of both decoding forms, hardened or not.
pub proof fn lemma_pack_decode_roundtrip(
    levels: Seq<Map<usize, Seq<u8>>>,
    tree_height: int,
    entries: Seq<(usize, usize, Seq<u8>)>,
    hardened: bool,
)
    requires
        entries.len() > 0,
        coords_increasing(entries),
        coords_fit_i64(entries),
        forall|t: int| 0 <= t < entries.len() ==> 0 < #[trigger] entries[t].0 < tree_height,
        forall|t: int| 0 <= t < entries.len() ==> #[trigger] entries[t].1 < pow2(entries[t].0 as nat),
        tree_height <= levels.len(),
        forall|t: int|
            0 <= t < entries.len() && #[trigger] levels[entries[t].0 as int].contains_key(entries[t].1) ==> levels[entries[t].0 as int][entries[t].1]
                == entries[t].2,
    ensures
        decode_spec(levels, tree_height, pack_spec(entries), hardened) == Some(put_all(levels, entries, entries.len())),
        put_all(levels, entries, entries.len()).len() == levels.len(),
        forall|t: int|
            0 <= t < entries.len() ==> #[trigger] put_all(levels, entries, entries.len())[entries[t].0 as int].contains_key(
                entries[t].1,
            ) && put_all(levels, entries, entries.len())[entries[t].0 as int][entries[t].1] == entries[t].2,
        forall|d: int, i: usize|
            0 <= d < levels.len() && !has_coord(entries, entries.len(), d, i) ==> #[trigger] put_all(
                levels,
                entries,
                entries.len(),
            )[d].contains_key(i) == levels[d].contains_key(i),
        forall|d: int, i: usize|
            0 <= d < levels.len() && !has_coord(entries, entries.len(), d, i) && levels[d].contains_key(i)
                ==> #[trigger] put_all(levels, entries, entries.len())[d][i] == levels[d][i],
{
    lemma_decode_prefix_of_pack(levels, tree_height, entries, entries.len(), hardened);
    lemma_put_all_contents(levels, entries, entries.len());
}

/// The byte view of the digest map at position `i` of `levels`.
pub open spec fn map_view_at(levels: Seq<BTreeMap<usize, Vec<u8>>>, i: int) -> Map<usize, Seq<u8>> {
    crate::copath::map_view(levels[i]@)
}

} // verus!
