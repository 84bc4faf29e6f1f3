//! Merkle trees over SHA-256 byte digests, with single-leaf authentication
//! paths, coset-compressed batch proofs and coordinate-free batch proofs.

pub mod error;
pub mod crh;
pub mod encoding;
pub mod index;
pub mod converter;
pub mod model;
pub mod tree;
pub mod path;
pub mod lut;
pub mod copath;
pub mod packed;
pub mod batch;
pub mod implicit;
pub mod v2_bench;
pub mod multiproof;
pub mod complete;
pub mod soundness;
