use sha2::Digest;
use vstd::prelude::*;

verus! {

/// What SHA-256 yields for a byte string.
pub uninterp spec fn sha256_of(b: Seq<u8>) -> Seq<u8>;

/// Relies on sha2::Sha256::digest: the 32-byte SHA-256 digest of the input.
#[verifier::external_body]
fn sha256(b: &Vec<u8>) -> (r: Vec<u8>)
    ensures
        r@ == sha256_of(b@),
        r@.len() == 32,
{
    sha2::Sha256::digest(b.as_slice()).to_vec()
}

/// The digest of a leaf or an internal node's preimage.
pub open spec fn digest(b: Seq<u8>) -> Seq<u8> {
    sha256_of(b)
}

/// The digest of an internal node whose children have the given hashes.
pub open spec fn node_digest(left: Seq<u8>, right: Seq<u8>) -> Seq<u8> {
    digest(left + right)
}

/// Hashes a byte string.
pub fn hash_bytes(b: &Vec<u8>) -> (r: Vec<u8>)
    ensures
        r@ == digest(b@),
        r@.len() == 32,
{
    sha256(b)
}

/// Hashes the concatenation of two child hashes.
pub fn hash_pair(left: &Vec<u8>, right: &Vec<u8>) -> (r: Vec<u8>)
    ensures
        r@ == node_digest(left@, right@),
{
    let mut buf: Vec<u8> = Vec::new();
    let mut i: usize = 0;
    while i < left.len()
        invariant
            i <= left@.len(),
            buf@ == left@.subrange(0, i as int),
        decreases left@.len() - i,
    {
        buf.push(left[i]);
        i = i + 1;
    }
    let mut j: usize = 0;
    while j < right.len()
        invariant
            j <= right@.len(),
            buf@ == left@ + right@.subrange(0, j as int),
        decreases right@.len() - j,
    {
        buf.push(right[j]);
        j = j + 1;
    }
    assert(left@.subrange(0, left@.len() as int) == left@);
    assert(right@.subrange(0, right@.len() as int) == right@);
    hash_bytes(&buf)
}

} // verus!
