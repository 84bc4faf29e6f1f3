//! The coset batch proof in the layout used for benchmark data.
use vstd::prelude::*;
use crate::batch::coset_check;
use crate::copath::{CoPath, PackedInnerCopath};
use crate::error::Error;
use crate::model::digests_view;
use crate::packed::packed_view;

verus! {

/// A coset batch proof as produced for benchmarks: the same content as [`CoPath`], with the
/// leaf indexes before the copaths. `inner_copath` is `None` when no inner digest is needed.
pub struct MultiPathV2Bench {
    /// The height of the tree.
    pub tree_height: usize,
    /// The opened leaf indexes.
    pub leaf_indexes: Vec<usize>,
    /// The leaf-level copath digests, in ascending sibling index order.
    pub leaf_copath: Vec<Vec<u8>>,
    /// The inner copath, packed as `(start_depth, start_index, deltas, digests)`.
    pub inner_copath: Option<PackedInnerCopath>,
}

impl MultiPathV2Bench {
    /// Verifies that `leaves`, supplied in `leaf_indexes` order, are the leaves at
    /// `leaf_indexes` of the tree whose root is `root_hash`, taking the height from the
    /// proof: a height below two is refused with `Ok(false)`, an empty batch accepted, and a
    /// height whose level-order positions do not fit a `usize` refused with `Ok(false)`. The
    /// inner copath is decoded as this layout's verifier always has: entries at inner depths,
    /// with indexes that fit a `usize`, coordinates not decreasing, without the hardened
    /// checks of [`CoPath::verify`].
    pub fn verify(&self, root_hash: &Vec<u8>, leaves: &[Vec<u8>]) -> (r: Result<bool, Error>)
        ensures
            self.tree_height < 2 ==> r == Ok::<bool, Error>(false),
            self.tree_height >= 2 && self.leaf_indexes@.len() == 0 ==> r == Ok::<bool, Error>(true),
            self.tree_height > usize::BITS && self.leaf_indexes@.len() > 0 ==> r == Ok::<bool, Error>(false),
            2 <= self.tree_height <= usize::BITS && self.leaf_indexes@.len() > 0 && leaves@.len()
                != self.leaf_indexes@.len() ==> r == Err::<bool, Error>(
                Error::IncorrectInputLength(self.leaf_indexes@.len() as usize),
            ),
            2 <= self.tree_height <= usize::BITS && self.leaf_indexes@.len() > 0 && leaves@.len()
                == self.leaf_indexes@.len() ==> r == Ok::<bool, Error>(
                coset_check(
                    self.tree_height as nat,
                    self.leaf_indexes@,
                    digests_view(self.leaf_copath@),
                    packed_view(self.inner_copath),
                    digests_view(leaves@),
                    root_hash@,
                    false,
                ),
            ),
    {
        if self.tree_height < 2 {
            return Ok(false);
        }
        if self.leaf_indexes.len() == 0 {
            return Ok(true);
        }
        if self.tree_height > usize::BITS as usize {
            return Ok(false);
        }
        CoPath::verify_batch(
            self.tree_height,
            &self.leaf_indexes,
            &self.leaf_copath,
            &self.inner_copath,
            root_hash,
            leaves,
            false,
        )
    }
}

} // verus!
