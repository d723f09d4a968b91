//! Domain-separated hashing of leaves and inner nodes.
use sha2::Digest;
use vstd::prelude::*;

verus! {

/// The SHA-256 digest of a byte string.
pub uninterp spec fn sha256_of(bytes: Seq<u8>) -> [u8; 32];

/// Prefix of the preimage of a leaf digest.
pub const LEAF_PREFIX: u8 = 0;

/// Prefix of the preimage of an inner digest.
pub const INNER_PREFIX: u8 = 1;

/// The preimage hashed for a leaf: the leaf prefix, then the leaf's bytes.
pub open spec fn leaf_preimage(bytes: Seq<u8>) -> Seq<u8> {
    seq![LEAF_PREFIX] + bytes
}

/// The preimage hashed for an inner node: the inner prefix, then both children.
pub open spec fn inner_preimage(left: Seq<u8>, right: Seq<u8>) -> Seq<u8> {
    seq![INNER_PREFIX] + left + right
}

/// Digest of a leaf.
pub open spec fn leaf_digest(bytes: Seq<u8>) -> [u8; 32] {
    sha256_of(leaf_preimage(bytes))
}

/// Digest of an inner node over its two children's digests.
pub open spec fn inner_digest(left: Seq<u8>, right: Seq<u8>) -> [u8; 32] {
    sha256_of(inner_preimage(left, right))
}

/// Digest of a tree without leaves.
pub open spec fn empty_digest() -> [u8; 32] {
    sha256_of(Seq::empty())
}

/// Two distinct byte strings with one digest: a SHA-256 collision.
pub open spec fn is_collision(a: Seq<u8>, b: Seq<u8>) -> bool {
    a != b && sha256_of(a) == sha256_of(b)
}

/// Relies on sha2::Sha256::digest: the SHA-256 digest of the bytes, which
/// depends on the bytes alone.
#[verifier::external_body]
pub fn hash(bytes: &[u8]) -> (r: [u8; 32])
    ensures
        r == sha256_of(bytes@),
{
    sha2::Sha256::digest(bytes).into()
}

/// Appends all of `src` to `dst`.
fn append_bytes(dst: &mut Vec<u8>, src: &[u8])
    ensures
        final(dst)@ == old(dst)@ + src@,
{
    let mut i: usize = 0;
    while i < src.len()
        invariant
            0 <= i <= src@.len(),
            dst@ == old(dst)@ + src@.subrange(0, i as int),
        decreases src@.len() - i,
    {
        dst.push(src[i]);
        i = i + 1;
        assert(src@.subrange(0, i as int) == src@.subrange(0, i - 1 as int).push(src@[i - 1]));
    }
    assert(src@.subrange(0, src@.len() as int) == src@);
}

/// Digest of the empty byte string, the root of a tree without leaves.
pub fn empty_hash() -> (r: [u8; 32])
    ensures
        r == empty_digest(),
{
    let v: Vec<u8> = Vec::new();
    hash(v.as_slice())
}

/// Digest of a leaf: the hash of the leaf prefix followed by its bytes.
pub fn leaf_hash(bytes: &[u8]) -> (r: [u8; 32])
    ensures
        r == leaf_digest(bytes@),
{
    let mut pre: Vec<u8> = Vec::new();
    pre.push(LEAF_PREFIX);
    append_bytes(&mut pre, bytes);
    hash(pre.as_slice())
}

/// Digest of an inner node: the hash of the inner prefix followed by both children.
pub fn inner_hash(left: &[u8], right: &[u8]) -> (r: [u8; 32])
    ensures
        r == inner_digest(left@, right@),
{
    let mut pre: Vec<u8> = Vec::new();
    pre.push(INNER_PREFIX);
    append_bytes(&mut pre, left);
    append_bytes(&mut pre, right);
    hash(pre.as_slice())
}

/// Byte-exact equality of two digests.
pub fn digests_equal(a: &[u8; 32], b: &[u8; 32]) -> (r: bool)
    ensures
        r == (*a == *b),
{
    let mut i: usize = 0;
    while i < 32
        invariant
            0 <= i <= 32,
            a@.len() == 32,
            b@.len() == 32,
            forall|j: int| 0 <= j < i ==> a@[j] == b@[j],
        decreases 32 - i,
    {
        if a[i] != b[i] {
            return false;
        }
        i = i + 1;
    }
    assert(*a =~= *b);
    true
}

} // verus!
