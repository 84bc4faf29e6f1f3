use vstd::prelude::*;

verus! {

/// Errors reported by hashing, tree construction and proof verification.
#[derive(Debug, Clone, Copy, PartialEq, Eq, Structural)]
pub enum Error {
    /// The number of supplied inputs does not match the expected count.
    IncorrectInputLength(usize),
    /// A batch proof carries no leaf index.
    EmptyBatch,
    /// A batch proof claims a tree height below two.
    TreeHeightTooSmall,
    /// Canonical serialization of a digest failed.
    SerializationError,
}

} // verus!
