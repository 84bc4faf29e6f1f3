use vstd::prelude::*;
use core::hash::BuildHasherDefault;

verus! {

/// The hasher of the verifier's lookup table of recomputed digests.
pub type DefaultHasher = ahash::AHasher;

/// Lookup table from level-order node positions to digests, kept by the verifiers as a
/// memo of the digests they learn or recompute. It is a `hashbrown::HashMap` with the
/// `ahash` hasher; contracts speak of its contents only, through [`lut_contents`].
#[verifier::external_body]
pub struct HashLut {
    map: hashbrown::HashMap<usize, Vec<u8>, BuildHasherDefault<DefaultHasher>>,
}

/// The entries of a lookup table, keyed by level-order position.
pub uninterp spec fn lut_contents(lut: HashLut) -> Map<usize, Seq<u8>>;

impl HashLut {
    /// Calls `hashbrown::HashMap::with_hasher` with a default `BuildHasherDefault<AHasher>`.
    /// Trusted: the new table is empty.
    #[verifier::external_body]
    pub fn new() -> (table: HashLut)
        ensures
            lut_contents(table).dom().is_empty(),
    {
        HashLut { map: hashbrown::HashMap::with_hasher(BuildHasherDefault::<DefaultHasher>::default()) }
    }

    /// Calls `hashbrown::HashMap::insert`. Trusted: afterwards `key` maps to `value`, the other
    /// entries are unchanged (the returned previous value is dropped).
    #[verifier::external_body]
    pub(crate) fn insert(&mut self, key: usize, value: Vec<u8>)
        ensures
            lut_contents(*final(self)) == lut_contents(*old(self)).insert(key, value@),
    {
        self.map.insert(key, value);
    }

    /// Calls `hashbrown::HashMap::entry(key).or_insert_with(..)`, the closure returning
    /// `value`. Trusted: a present entry is kept, an absent key gets `value`.
    #[verifier::external_body]
    pub(crate) fn insert_if_absent(&mut self, key: usize, value: Vec<u8>)
        ensures
            lut_contents(*final(self)) == (if lut_contents(*old(self)).contains_key(key) {
                lut_contents(*old(self))
            } else {
                lut_contents(*old(self)).insert(key, value@)
            }),
    {
        self.map.entry(key).or_insert_with(move || value);
    }
}

} // verus!
