use vstd::prelude::*;
use vstd::bytes::spec_u64_to_le_bytes;
use sha2::Digest;

verus! {

/// The SHA-256 digest of a byte string, as computed by the `sha2` crate.
pub uninterp spec fn sha256_spec(data: Seq<u8>) -> Seq<u8>;

/// Calls `sha2::Sha256::digest` on `data`.
/// Trusted: the result is the SHA-256 digest named `sha256_spec(data@)`, 32 bytes long
/// (the `OutputSize` of `Sha256` is `U32`).
#[verifier::external_body]
fn sha256(data: &[u8]) -> (out: Vec<u8>)
    ensures
        out@ == sha256_spec(data@),
        out@.len() == 32,
{
    sha2::Sha256::digest(data).to_vec()
}

/// Domain tag hashed in front of the two leaf digests of a bottom inner node:
/// the ASCII bytes of `ark-mt:v1:leaf-pair`.
pub open spec fn leaf_pair_tag_spec() -> Seq<u8> {
    seq![
        97u8, 114u8, 107u8, 45u8, 109u8, 116u8, 58u8, 118u8, 49u8, 58u8, 108u8, 101u8, 97u8,
        102u8, 45u8, 112u8, 97u8, 105u8, 114u8,
    ]
}

/// Domain tag hashed in front of two inner digests: the ASCII bytes of `ark-mt:v1:inner`.
pub open spec fn inner_tag_spec() -> Seq<u8> {
    seq![
        97u8, 114u8, 107u8, 45u8, 109u8, 116u8, 58u8, 118u8, 49u8, 58u8, 105u8, 110u8, 110u8,
        101u8, 114u8,
    ]
}

/// The leaf-pair domain tag `ark-mt:v1:leaf-pair`.
pub fn leaf_pair_tag() -> (t: Vec<u8>)
    ensures
        t@ == leaf_pair_tag_spec(),
{
    let t = vec![
        97u8, 114u8, 107u8, 45u8, 109u8, 116u8, 58u8, 118u8, 49u8, 58u8, 108u8, 101u8, 97u8,
        102u8, 45u8, 112u8, 97u8, 105u8, 114u8,
    ];
    assert(t@ =~= leaf_pair_tag_spec());
    t
}

/// The inner-node domain tag `ark-mt:v1:inner`.
pub fn inner_tag() -> (t: Vec<u8>)
    ensures
        t@ == inner_tag_spec(),
{
    let t = vec![
        97u8, 114u8, 107u8, 45u8, 109u8, 116u8, 58u8, 118u8, 49u8, 58u8, 105u8, 110u8, 110u8,
        101u8, 114u8,
    ];
    assert(t@ =~= inner_tag_spec());
    t
}

/// Appends `other` to `out`.
pub fn extend_bytes(out: &mut Vec<u8>, other: &[u8])
    ensures
        final(out)@ == old(out)@ + other@,
{
    let mut i: usize = 0;
    while i < other.len()
        invariant
            0 <= i <= other@.len(),
            out@ == old(out)@ + other@.subrange(0, i as int),
        decreases other@.len() - i,
    {
        out.push(other[i]);
        i = i + 1;
        assert(other@.subrange(0, i as int) =~= other@.subrange(0, i - 1) + seq![other@[i - 1]]);
        assert(out@ =~= old(out)@ + other@.subrange(0, i as int));
    }
    assert(other@.subrange(0, other@.len() as int) =~= other@);
}

/// Byte-wise equality of two digests.
pub fn bytes_eq(a: &[u8], b: &[u8]) -> (r: bool)
    ensures
        r == (a@ == b@),
{
    if a.len() != b.len() {
        return false;
    }
    let mut i: usize = 0;
    while i < a.len()
        invariant
            a@.len() == b@.len(),
            0 <= i <= a@.len(),
            forall|j: int| 0 <= j < i ==> a@[j] == b@[j],
        decreases a@.len() - i,
    {
        if a[i] != b[i] {
            return false;
        }
        i = i + 1;
    }
    assert(a@ =~= b@);
    true
}

/// A copy of a byte string.
pub fn copy_bytes(a: &[u8]) -> (r: Vec<u8>)
    ensures
        r@ == a@,
{
    let mut r: Vec<u8> = Vec::new();
    extend_bytes(&mut r, a);
    assert(r@ =~= a@);
    r
}

/// `tag || left || right`.
pub open spec fn tagged_concat(tag: Seq<u8>, left: Seq<u8>, right: Seq<u8>) -> Seq<u8> {
    tag + left + right
}

/// Hashes `tag || left_input || right_input` with SHA-256.
pub fn digest_pair(tag: &[u8], left_input: &[u8], right_input: &[u8]) -> (out: Vec<u8>)
    ensures
        out@ == sha256_spec(tagged_concat(tag@, left_input@, right_input@)),
        out@.len() == 32,
{
    let mut data: Vec<u8> = Vec::new();
    extend_bytes(&mut data, tag);
    extend_bytes(&mut data, left_input);
    extend_bytes(&mut data, right_input);
    assert(data@ =~= tagged_concat(tag@, left_input@, right_input@));
    sha256(data.as_slice())
}

/// Digest of a leaf: `SHA-256(leaf)`.
pub open spec fn leaf_hash_spec(leaf: Seq<u8>) -> Seq<u8> {
    sha256_spec(leaf)
}

/// Two-to-one hash of the bottom inner layer, applied to converted leaf digests:
/// `SHA-256(leaf-pair tag || left || right)`.
pub open spec fn pair_evaluate_spec(left: Seq<u8>, right: Seq<u8>) -> Seq<u8> {
    sha256_spec(tagged_concat(leaf_pair_tag_spec(), left, right))
}

/// Two-to-one hash of inner digests: `SHA-256(inner tag || left || right)`.
pub open spec fn compress_spec(left: Seq<u8>, right: Seq<u8>) -> Seq<u8> {
    sha256_spec(tagged_concat(inner_tag_spec(), left, right))
}

/// Canonical uncompressed serialization of a byte vector: its length as a
/// little-endian `u64`, then its bytes.
pub open spec fn serialized_bytes_spec(item: Seq<u8>) -> Seq<u8> {
    spec_u64_to_le_bytes(item.len() as u64) + item
}

/// The parent digest of two leaf digests: both are serialized, then hashed with the
/// leaf-pair tag.
pub open spec fn leaf_parent_spec(left: Seq<u8>, right: Seq<u8>) -> Seq<u8> {
    pair_evaluate_spec(serialized_bytes_spec(left), serialized_bytes_spec(right))
}

/// Law (domain separation): the bytes hashed for a node just above the leaves and the bytes
/// hashed for a node higher up never coincide, whatever the children: they differ in the
/// node-kind tag.
pub proof fn lemma_domain_separation(l1: Seq<u8>, r1: Seq<u8>, l2: Seq<u8>, r2: Seq<u8>)
    ensures
        tagged_concat(leaf_pair_tag_spec(), l1, r1) != tagged_concat(inner_tag_spec(), l2, r2),
{
    assert(tagged_concat(leaf_pair_tag_spec(), l1, r1)[10] == 108u8);
    assert(tagged_concat(inner_tag_spec(), l2, r2)[10] == 105u8);
}

/// A Merkle hash scheme over a RustCrypto digest (here SHA-256): the leaf hash is
/// the plain digest, the two-to-one hashes are domain separated by a node-kind tag.
pub struct MerkleByteDigest;

impl MerkleByteDigest {
    /// Leaf hash: `SHA-256(input)`.
    pub fn evaluate(input: &[u8]) -> (out: Vec<u8>)
        ensures
            out@ == leaf_hash_spec(input@),
            out@.len() == 32,
    {
        sha256(input)
    }

    /// Two-to-one hash of two (converted) leaf digests: `SHA-256(leaf-pair tag || left || right)`.
    pub fn evaluate_pair(left_input: &[u8], right_input: &[u8]) -> (out: Vec<u8>)
        ensures
            out@ == pair_evaluate_spec(left_input@, right_input@),
            out@.len() == 32,
    {
        let tag = leaf_pair_tag();
        digest_pair(tag.as_slice(), left_input, right_input)
    }

    /// Two-to-one hash of two inner digests: `SHA-256(inner tag || left || right)`.
    pub fn compress(left_input: &[u8], right_input: &[u8]) -> (out: Vec<u8>)
        ensures
            out@ == compress_spec(left_input@, right_input@),
            out@.len() == 32,
    {
        let tag = inner_tag();
        digest_pair(tag.as_slice(), left_input, right_input)
    }
}

/// A fixed-size byte digest.
pub struct ByteDigest<const N: usize>(pub [u8; N]);

impl<const N: usize> ByteDigest<N> {
    /// The all-zero digest.
    pub fn default() -> (d: Self)
        ensures
            forall|i: int| 0 <= i < N ==> d.0@[i] == 0u8,
    {
        ByteDigest([0u8; N])
    }

    /// The digest's bytes.
    pub fn as_ref(&self) -> (s: &[u8])
        ensures
            s@ == self.0@,
    {
        self.0.as_slice()
    }

    /// Wraps an array of bytes.
    pub fn from(value: [u8; N]) -> (d: Self)
        ensures
            d.0 == value,
    {
        ByteDigest(value)
    }

    /// Appends the digest's bytes to `dest` (its absorption as sponge bytes).
    pub fn to_sponge_bytes(&self, dest: &mut Vec<u8>)
        ensures
            final(dest)@ == old(dest)@ + self.0@,
    {
        extend_bytes(dest, self.0.as_slice());
    }
}

/// SHA-256 as a Merkle hash scheme: the leaf hash is `SHA-256(input)`, the two-to-one hashes
/// are `SHA-256(tag || left || right)` with the leaf-pair tag above the leaves and the inner
/// tag higher up.
pub struct Sha256;

impl Sha256 {
    /// Leaf hash: `SHA-256(input)`.
    pub fn evaluate(input: &[u8]) -> (out: Vec<u8>)
        ensures
            out@ == leaf_hash_spec(input@),
            out@.len() == 32,
    {
        sha256(input)
    }

    /// Two-to-one hash of two (converted) leaf digests: `SHA-256(leaf-pair tag || left || right)`.
    pub fn evaluate_pair(left_input: &[u8], right_input: &[u8]) -> (out: Vec<u8>)
        ensures
            out@ == pair_evaluate_spec(left_input@, right_input@),
            out@.len() == 32,
    {
        let tag = leaf_pair_tag();
        digest_pair(tag.as_slice(), left_input, right_input)
    }

    /// Two-to-one hash of inner digests: `SHA-256(inner tag || left || right)`.
    pub fn compress(left_input: &Vec<u8>, right_input: &Vec<u8>) -> (out: Vec<u8>)
        ensures
            out@ == compress_spec(left_input@, right_input@),
            out@.len() == 32,
    {
        let tag = inner_tag();
        digest_pair(tag.as_slice(), left_input.as_slice(), right_input.as_slice())
    }
}

} // verus!
