use vstd::prelude::*;

verus! {

/// The SHA-256 digest of a byte sequence.
pub uninterp spec fn sha256_of(data: Seq<u8>) -> Seq<u8>;

/// The root of rs_merkle's SHA-256 Merkle tree over an ordered sequence of
/// digests. Each parent is the digest of its two children joined; at a level
/// with an odd number of nodes the last node is carried up unchanged rather
/// than paired with a copy of itself, and a single leaf is its own root.
pub uninterp spec fn merkle_root_of(leaves: Seq<Seq<u8>>) -> Seq<u8>;

/// The byte sequences of a sequence of 32-byte digests.
pub open spec fn digest_views(ds: Seq<[u8; 32]>) -> Seq<Seq<u8>> {
    ds.map_values(|d: [u8; 32]| d@)
}

/// Relies on `rs_merkle::algorithms::Sha256::hash`, which is SHA-256 of the
/// bytes: the digest depends on the bytes alone.
#[verifier::external_body]
pub(crate) fn hash_leaf(data: &[u8]) -> (r: [u8; 32])
    ensures
        r@ == sha256_of(data@),
{
    <rs_merkle::algorithms::Sha256 as rs_merkle::Hasher>::hash(data)
}

/// Relies on `rs_merkle::MerkleTree::from_leaves` and `MerkleTree::root`: a
/// tree built from at least one leaf has a root, which depends on the leaves
/// alone; a tree of no leaves has none.
#[verifier::external_body]
pub(crate) fn merkle_root(leaves: &[[u8; 32]]) -> (r: Option<[u8; 32]>)
    ensures
        r is Some <==> leaves@.len() > 0,
        r matches Some(root) ==> root@ == merkle_root_of(digest_views(leaves@)),
{
    rs_merkle::MerkleTree::<rs_merkle::algorithms::Sha256>::from_leaves(leaves).root()
}

} // verus!
