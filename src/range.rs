//! Checking that a contiguous run of leaves stands at given positions under a root.
use crate::merkle::{
    hash_from_byte_slices, lemma_root_binds_leaves, leaves_of, merkle_root, tree_preimages,
};
use crate::hashing::is_collision;
use crate::hashing::digests_equal;
use vstd::prelude::*;

verus! {

/// `claimed` is exactly the run of leaves at positions `[start, end)` of
/// `leaves`, and `leaves` is the list whose tree has root `root`.
pub open spec fn range_holds(
    root: [u8; 32],
    leaves: Seq<Seq<u8>>,
    claimed: Seq<Seq<u8>>,
    start: int,
    end: int,
) -> bool {
    &&& merkle_root(leaves) == root
    &&& 0 <= start <= end <= leaves.len()
    &&& claimed == leaves.subrange(start, end)
}

/// Byte-exact equality of two byte strings.
pub fn bytes_equal(a: &[u8], b: &[u8]) -> (r: bool)
    ensures
        r == (a@ == b@),
{
    if a.len() != b.len() {
        return false;
    }
    let mut i: usize = 0;
    while i < a.len()
        invariant
            0 <= i <= a@.len(),
            a@.len() == b@.len(),
            forall|j: int| 0 <= j < i ==> a@[j] == b@[j],
        decreases a@.len() - i,
    {
        if a[i] != b[i] {
            return false;
        }
        i = i + 1;
    }
    assert(a@ =~= b@);
    true
}

/// Whether `claimed` is the run of leaves at positions `[start, end)` of the
/// list `leaves` whose tree has root `root`. The tree is rebuilt over all of
/// `leaves` and its root compared with `root`; then the run is compared
/// leaf by leaf.
pub fn verify_range(
    root: &[u8; 32],
    leaves: &[&[u8]],
    claimed: &[&[u8]],
    start: usize,
    end: usize,
) -> (r: bool)
    ensures
        r == range_holds(*root, leaves_of(leaves@), leaves_of(claimed@), start as int, end as int),
{
    let ghost l = leaves_of(leaves@);
    let ghost c = leaves_of(claimed@);
    assert(l.len() == leaves@.len() && c.len() == claimed@.len());
    let computed = hash_from_byte_slices(leaves);
    if !digests_equal(&computed, root) {
        return false;
    }
    if start > end || end > leaves.len() || claimed.len() != end - start {
        return false;
    }
    let mut i: usize = 0;
    while i < claimed.len()
        invariant
            start <= end <= leaves@.len(),
            claimed@.len() == end - start,
            0 <= i <= claimed@.len(),
            l == leaves_of(leaves@),
            c == leaves_of(claimed@),
            l.len() == leaves@.len(),
            c.len() == claimed@.len(),
            forall|j: int| 0 <= j < i ==> c[j] == l[start + j],
        decreases claimed@.len() - i,
    {
        if !bytes_equal(claimed[i], leaves[start + i]) {
            assert(c[i as int] != l.subrange(start as int, end as int)[i as int]);
            return false;
        }
        i = i + 1;
    }
    assert(c =~= l.subrange(start as int, end as int));
    true
}

/// Against one list of leaves and one range, at most one run of leaves is
/// accepted: any reordering of an accepted run that changes it is refused.
pub proof fn lemma_range_claim_unique(
    root: [u8; 32],
    leaves: Seq<Seq<u8>>,
    claimed: Seq<Seq<u8>>,
    other: Seq<Seq<u8>>,
    start: int,
    end: int,
)
    requires
        range_holds(root, leaves, claimed, start, end),
        range_holds(root, leaves, other, start, end),
    ensures
        claimed == other,
{
}

/// Two different runs accepted at one range under one root, whatever lists
/// of leaves they were checked against, take a SHA-256 collision between byte
/// strings hashed for the two trees, which this returns.
pub proof fn lemma_range_binds_root(
    root: [u8; 32],
    leaves: Seq<Seq<u8>>,
    other_leaves: Seq<Seq<u8>>,
    claimed: Seq<Seq<u8>>,
    other: Seq<Seq<u8>>,
    start: int,
    end: int,
) -> (r: (Seq<u8>, Seq<u8>))
    requires
        range_holds(root, leaves, claimed, start, end),
        range_holds(root, other_leaves, other, start, end),
        claimed != other,
    ensures
        is_collision(r.0, r.1),
        tree_preimages(leaves).contains(r.0),
        tree_preimages(other_leaves).contains(r.1),
{
    lemma_root_binds_leaves(leaves, other_leaves)
}

} // verus!
