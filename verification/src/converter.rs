use vstd::prelude::*;
use ark_serialize::{CanonicalSerialize, SerializationError};
use crate::crh::serialized_bytes_spec;
use crate::error::Error;

verus! {

/// The serialization error type of `ark_serialize`.
#[verifier::external_type_specification]
#[verifier::external_body]
pub struct ExSerializationError(SerializationError);

/// Calls `CanonicalSerialize::serialize_uncompressed` on a byte vector, writing into a fresh
/// `Vec<u8>`. Trusted: the result is `Ok`, holding the vector's length as a little-endian `u64`
/// followed by its bytes (`serialize_seq` in `ark-serialize` writes `len as u64` then each
/// `u8`; writing into a `Vec<u8>` only extends it and never fails).
#[verifier::external_body]
fn serialize_uncompressed_vec(item: &Vec<u8>) -> (out: Result<Vec<u8>, SerializationError>)
    ensures
        out.is_ok(),
        out.unwrap()@ == serialized_bytes_spec(item@),
{
    let mut buf = Vec::new();
    match item.serialize_uncompressed(&mut buf) {
        Ok(()) => Ok(buf),
        Err(e) => Err(e),
    }
}

/// Converts a digest of the previous layer into the next layer's input by serializing it
/// canonically (uncompressed) to bytes.
pub struct ByteDigestConverter;

impl ByteDigestConverter {
    /// The canonical byte serialization of `item`: its length as a little-endian `u64`,
    /// then its bytes.
    pub fn convert(item: Vec<u8>) -> (r: Result<Vec<u8>, Error>)
        ensures
            r matches Ok(bytes) && bytes@ == serialized_bytes_spec(item@),
    {
        match serialize_uncompressed_vec(&item) {
            Ok(bytes) => Ok(bytes),
            Err(_) => Err(Error::SerializationError),
        }
    }
}

/// A converter for layers whose digests are already the next layer's input.
pub struct IdentityDigestConverter;

impl IdentityDigestConverter {
    /// Returns `item` unchanged.
    pub fn convert<T>(item: T) -> (r: Result<T, Error>)
        ensures
            r == Ok::<T, Error>(item),
    {
        Ok(item)
    }
}

} // verus!
