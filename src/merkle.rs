//! The balanced binary Merkle tree: its shape, its root, and inclusion proofs.
use crate::hashing::{
    digests_equal, empty_digest, empty_hash, inner_digest, inner_hash, inner_preimage,
    is_collision, leaf_digest, leaf_hash, leaf_preimage,
};
use vstd::prelude::*;

verus! {

/// Whether `k` is a power of two.
pub open spec fn is_pow2(k: nat) -> bool
    decreases k,
{
    if k == 1 {
        true
    } else if k >= 2 && k % 2 == 0 {
        is_pow2((k / 2) as nat)
    } else {
        false
    }
}

/// The number of leaves in the left subtree of a tree of `n >= 2` leaves:
/// the largest power of two strictly below `n`.
pub open spec fn split_of(n: nat) -> nat
    decreases n,
{
    if n <= 2 {
        1
    } else {
        2 * split_of(((n + 1) / 2) as nat)
    }
}

/// For `n >= 2`, `split_of(n)` is a power of two `k` with `k < n <= 2k`.
pub proof fn lemma_split_of(n: nat)
    requires
        n >= 2,
    ensures
        is_pow2(split_of(n)),
        split_of(n) < n <= 2 * split_of(n),
    decreases n,
{
    if n > 2 {
        let m = ((n + 1) / 2) as nat;
        lemma_split_of(m);
        let h = split_of(m);
        assert((2 * h) / 2 == h);
        assert(is_pow2(2 * h));
    }
}

/// A power of two is positive.
pub proof fn lemma_pow2_pos(k: nat)
    requires
        is_pow2(k),
    ensures
        k >= 1,
{
}

/// Of two powers of two, the smaller is at most half the larger.
pub proof fn lemma_pow2_lt(a: nat, b: nat)
    requires
        is_pow2(a),
        is_pow2(b),
        a < b,
    ensures
        2 * a <= b,
    decreases b,
{
    lemma_pow2_pos(a);
    if a != 1 {
        lemma_pow2_lt((a / 2) as nat, (b / 2) as nat);
    }
}

/// The split point is the only power of two `k` with `k < n <= 2k`.
pub proof fn lemma_split_unique(n: nat, k: nat)
    requires
        n >= 2,
        is_pow2(k),
        k < n <= 2 * k,
    ensures
        k == split_of(n),
{
    lemma_split_of(n);
    let s = split_of(n);
    if k < s {
        lemma_pow2_lt(k, s);
    } else if s < k {
        lemma_pow2_lt(s, k);
    }
}

/// The number of leaves in the left subtree of a tree of `length` leaves.
/// For `length >= 2` it is the largest power of two strictly below `length`;
/// below that it is 1.
pub fn get_split_point(length: u64) -> (k: u64)
    ensures
        is_pow2(k as nat),
        length >= 2 ==> k == split_of(length as nat),
        length >= 2 ==> k < length <= 2 * k,
        length < 2 ==> k == 1,
{
    if length <= 2 {
        if length == 2 {
            proof {
                lemma_split_unique(2, 1);
            }
        }
        return 1;
    }
    let mut k: u64 = 1;
    while k < length - k
        invariant
            2 < length,
            is_pow2(k as nat),
            k < length,
        decreases length - k,
    {
        assert((2 * k) as nat / 2 == k);
        k = 2 * k;
    }
    proof {
        lemma_split_unique(length as nat, k as nat);
    }
    k
}

/// The byte strings held by a list of leaves.
pub open spec fn leaves_of(items: Seq<&[u8]>) -> Seq<Seq<u8>> {
    items.map_values(|v: &[u8]| v@)
}

/// The root of the Merkle tree over `leaves`.
pub open spec fn merkle_root(leaves: Seq<Seq<u8>>) -> [u8; 32]
    decreases leaves.len(),
    via merkle_root_decreases
{
    if leaves.len() == 0 {
        empty_digest()
    } else if leaves.len() == 1 {
        leaf_digest(leaves[0])
    } else {
        let k = split_of(leaves.len()) as int;
        inner_digest(
            merkle_root(leaves.subrange(0, k))@,
            merkle_root(leaves.subrange(k, leaves.len() as int))@,
        )
    }
}

#[via_fn]
proof fn merkle_root_decreases(leaves: Seq<Seq<u8>>) {
    if leaves.len() >= 2 {
        lemma_split_of(leaves.len());
    }
}

/// Root of the subtree over `items[lo..hi]`.
fn root_of_range(items: &[&[u8]], lo: usize, hi: usize) -> (r: [u8; 32])
    requires
        lo <= hi <= items@.len(),
    ensures
        r == merkle_root(leaves_of(items@).subrange(lo as int, hi as int)),
    decreases hi - lo,
{
    let ghost s = leaves_of(items@).subrange(lo as int, hi as int);
    if hi - lo == 0 {
        empty_hash()
    } else if hi - lo == 1 {
        leaf_hash(items[lo])
    } else {
        let k = get_split_point((hi - lo) as u64) as usize;
        let left = root_of_range(items, lo, lo + k);
        let right = root_of_range(items, lo + k, hi);
        proof {
            assert(s.subrange(0, k as int) =~= leaves_of(items@).subrange(lo as int, lo + k));
            assert(s.subrange(k as int, s.len() as int) =~= leaves_of(items@).subrange(
                lo + k,
                hi as int,
            ));
        }
        inner_hash(&left, &right)
    }
}

/// Root of the Merkle tree over `items`.
pub fn hash_from_byte_slices(items: &[&[u8]]) -> (r: [u8; 32])
    ensures
        r == merkle_root(leaves_of(items@)),
{
    let r = root_of_range(items, 0, items.len());
    assert(leaves_of(items@).subrange(0, items@.len() as int) =~= leaves_of(items@));
    r
}

/// Why an inclusion proof could not be folded into a root.
#[derive(Debug, Clone, Copy, PartialEq, Eq, Structural)]
pub enum TreeError {
    /// The index is outside `[0, total)`, or the total is not positive.
    IndexError,
    /// The tree is empty. `compute_hash_from_aunts` reports a total of zero
    /// as `IndexError`, so it never returns this one.
    InnerHashZeroError,
    /// A tree of one leaf was given aunts.
    TotalInnerHashMismatch,
    /// A tree of several leaves was given too few aunts.
    ExpectedInnerHash,
}

/// An inclusion proof of one leaf in a tree of `total` leaves.
pub struct Proof {
    pub total: i64,
    pub index: i64,
    pub leaf_hash: [u8; 32],
    /// Sibling digests from the leaf's sibling up to the root's child level.
    pub aunts: Vec<[u8; 32]>,
}

/// The sibling digests met on the walk from leaf `i` of the tree over
/// `leaves` up to the root, innermost first.
pub open spec fn aunts_of(leaves: Seq<Seq<u8>>, i: int) -> Seq<[u8; 32]>
    decreases leaves.len(),
    via aunts_of_decreases
{
    if leaves.len() <= 1 {
        Seq::empty()
    } else {
        let n = leaves.len() as int;
        let k = split_of(leaves.len()) as int;
        if i < k {
            aunts_of(leaves.subrange(0, k), i).push(merkle_root(leaves.subrange(k, n)))
        } else {
            aunts_of(leaves.subrange(k, n), i - k).push(merkle_root(leaves.subrange(0, k)))
        }
    }
}

#[via_fn]
proof fn aunts_of_decreases(leaves: Seq<Seq<u8>>, i: int) {
    if leaves.len() >= 2 {
        lemma_split_of(leaves.len());
    }
}

/// The root that an inclusion proof folds to, or why it folds to none.
/// The last aunt belongs to the outermost split, the first to the innermost.
pub open spec fn root_from_aunts(index: int, total: int, leaf: [u8; 32], aunts: Seq<[u8; 32]>) -> Result<
    [u8; 32],
    TreeError,
>
    decreases aunts.len(),
{
    if index < 0 || index >= total || total <= 0 {
        Err(TreeError::IndexError)
    } else if total == 1 {
        if aunts.len() != 0 {
            Err(TreeError::TotalInnerHashMismatch)
        } else {
            Ok(leaf)
        }
    } else if aunts.len() == 0 {
        Err(TreeError::ExpectedInnerHash)
    } else {
        let k = split_of(total as nat) as int;
        let last = aunts.last();
        if index < k {
            match root_from_aunts(index, k, leaf, aunts.drop_last()) {
                Ok(h) => Ok(inner_digest(h@, last@)),
                Err(e) => Err(e),
            }
        } else {
            match root_from_aunts(index - k, total - k, leaf, aunts.drop_last()) {
                Ok(h) => Ok(inner_digest(last@, h@)),
                Err(e) => Err(e),
            }
        }
    }
}

/// Folds an inclusion proof into the root it commits to.
pub fn compute_hash_from_aunts(
    index: i64,
    total: i64,
    leaf_hash: [u8; 32],
    inner_hashes: Vec<[u8; 32]>,
) -> (r: Result<[u8; 32], TreeError>)
    ensures
        r == root_from_aunts(index as int, total as int, leaf_hash, inner_hashes@),
    decreases inner_hashes@.len(),
{
    if index < 0 || index >= total || total <= 0 {
        return Err(TreeError::IndexError);
    }
    if total == 1 {
        if inner_hashes.len() != 0 {
            return Err(TreeError::TotalInnerHashMismatch);
        }
        return Ok(leaf_hash);
    }
    let mut rest = inner_hashes;
    let last = match rest.pop() {
        Some(h) => h,
        None => {
            return Err(TreeError::ExpectedInnerHash);
        },
    };
    assert(rest@ == inner_hashes@.drop_last());
    let num_left = get_split_point(total as u64) as i64;
    if index < num_left {
        match compute_hash_from_aunts(index, num_left, leaf_hash, rest) {
            Ok(left) => Ok(inner_hash(&left, &last)),
            Err(e) => Err(e),
        }
    } else {
        match compute_hash_from_aunts(index - num_left, total - num_left, leaf_hash, rest) {
            Ok(right) => Ok(inner_hash(&last, &right)),
            Err(e) => Err(e),
        }
    }
}

impl Proof {
    /// Whether the proof folds to `root_hash`; a malformed proof verifies nothing.
    pub fn verify(&self, root_hash: [u8; 32]) -> (r: bool)
        ensures
            r == (root_from_aunts(
                self.index as int,
                self.total as int,
                self.leaf_hash,
                self.aunts@,
            ) == Ok::<[u8; 32], TreeError>(root_hash)),
    {
        let mut aunts: Vec<[u8; 32]> = Vec::new();
        let mut i: usize = 0;
        while i < self.aunts.len()
            invariant
                0 <= i <= self.aunts@.len(),
                aunts@ == self.aunts@.subrange(0, i as int),
            decreases self.aunts@.len() - i,
        {
            aunts.push(self.aunts[i]);
            i = i + 1;
            assert(aunts@ =~= self.aunts@.subrange(0, i as int));
        }
        assert(aunts@ =~= self.aunts@);
        match compute_hash_from_aunts(self.index, self.total, self.leaf_hash, aunts) {
            Ok(h) => digests_equal(&h, &root_hash),
            Err(_) => false,
        }
    }
}

/// Each leaf's own proof folds to the root of the tree it was taken from.
pub proof fn lemma_proof_folds_to_root(leaves: Seq<Seq<u8>>, i: int)
    requires
        0 <= i < leaves.len(),
    ensures
        root_from_aunts(i, leaves.len() as int, leaf_digest(leaves[i]), aunts_of(leaves, i)) == Ok::<
            [u8; 32],
            TreeError,
        >(merkle_root(leaves)),
    decreases leaves.len(),
{
    if leaves.len() >= 2 {
        let n = leaves.len() as int;
        lemma_split_of(leaves.len());
        let k = split_of(leaves.len()) as int;
        if i < k {
            let l = leaves.subrange(0, k);
            lemma_proof_folds_to_root(l, i);
            assert(l[i] == leaves[i]);
            assert(aunts_of(leaves, i).drop_last() == aunts_of(l, i));
        } else {
            let r = leaves.subrange(k, n);
            lemma_proof_folds_to_root(r, i - k);
            assert(r[i - k] == leaves[i]);
            assert(aunts_of(leaves, i).drop_last() == aunts_of(r, i - k));
        }
    }
}

/// A tree without leaves has the empty digest as root; a tree of one leaf has
/// that leaf's digest as root, and the leaf's proof has no aunts.
pub proof fn lemma_degenerate_trees(leaf: Seq<u8>)
    ensures
        merkle_root(Seq::empty()) == empty_digest(),
        merkle_root(seq![leaf]) == leaf_digest(leaf),
        aunts_of(seq![leaf], 0) == Seq::<[u8; 32]>::empty(),
        root_from_aunts(0, 1, leaf_digest(leaf), Seq::empty()) == Ok::<[u8; 32], TreeError>(
            leaf_digest(leaf),
        ),
{
}

/// No byte string of `a` shares its SHA-256 digest with a different byte
/// string of `b`.
pub open spec fn collision_free_between(a: Set<Seq<u8>>, b: Set<Seq<u8>>) -> bool {
    forall|x: Seq<u8>, y: Seq<u8>| #[trigger] a.contains(x) && #[trigger] b.contains(y) ==> !is_collision(x, y)
}

/// Equal inner preimages over 32-byte children have equal children.
proof fn lemma_inner_preimage_injective(a: [u8; 32], b: [u8; 32], c: [u8; 32], d: [u8; 32])
    requires
        inner_preimage(a@, b@) == inner_preimage(c@, d@),
    ensures
        a == c,
        b == d,
{
    let p = inner_preimage(a@, b@);
    assert(a@ =~= p.subrange(1, 33));
    assert(c@ =~= p.subrange(1, 33));
    assert(b@ =~= p.subrange(33, 65));
    assert(d@ =~= p.subrange(33, 65));
    assert(a =~= c);
    assert(b =~= d);
}

/// The byte string hashed to give the root of the tree over `leaves`.
pub open spec fn root_preimage(leaves: Seq<Seq<u8>>) -> Seq<u8> {
    if leaves.len() == 0 {
        Seq::empty()
    } else if leaves.len() == 1 {
        leaf_preimage(leaves[0])
    } else {
        let k = split_of(leaves.len()) as int;
        inner_preimage(
            merkle_root(leaves.subrange(0, k))@,
            merkle_root(leaves.subrange(k, leaves.len() as int))@,
        )
    }
}

/// Every byte string hashed in computing the root of the tree over `leaves`.
pub open spec fn tree_preimages(leaves: Seq<Seq<u8>>) -> Set<Seq<u8>>
    decreases leaves.len(),
    via tree_preimages_decreases
{
    if leaves.len() <= 1 {
        set![root_preimage(leaves)]
    } else {
        let k = split_of(leaves.len()) as int;
        set![root_preimage(leaves)] + tree_preimages(leaves.subrange(0, k)) + tree_preimages(
            leaves.subrange(k, leaves.len() as int),
        )
    }
}

#[via_fn]
proof fn tree_preimages_decreases(leaves: Seq<Seq<u8>>) {
    if leaves.len() >= 2 {
        lemma_split_of(leaves.len());
    }
}

/// Two different leaf lists share a root only through a SHA-256 collision
/// between byte strings hashed for the two trees, which this returns: the
/// root binds the whole ordered list of leaves.
pub proof fn lemma_root_binds_leaves(a: Seq<Seq<u8>>, b: Seq<Seq<u8>>) -> (r: (Seq<u8>, Seq<u8>))
    requires
        a != b,
        merkle_root(a) == merkle_root(b),
    ensures
        is_collision(r.0, r.1),
        tree_preimages(a).contains(r.0),
        tree_preimages(b).contains(r.1),
    decreases a.len() + b.len(),
{
    let pa = root_preimage(a);
    let pb = root_preimage(b);
    assert(tree_preimages(a).contains(pa));
    assert(tree_preimages(b).contains(pb));
    if pa != pb {
        (pa, pb)
    } else if a.len() == 0 || b.len() == 0 {
        if a.len() == 0 && b.len() == 0 {
            assert(a =~= b);
        } else {
            assert(pa.len() != pb.len());
        }
        (pa, pb)
    } else if a.len() == 1 || b.len() == 1 {
        if a.len() == 1 && b.len() == 1 {
            assert(a[0] =~= pa.subrange(1, pa.len() as int));
            assert(b[0] =~= pb.subrange(1, pb.len() as int));
            assert(a =~= b);
        } else {
            assert(pa[0] != pb[0]);
        }
        (pa, pb)
    } else {
        lemma_split_of(a.len());
        lemma_split_of(b.len());
        let ka = split_of(a.len()) as int;
        let kb = split_of(b.len()) as int;
        let al = a.subrange(0, ka);
        let ar = a.subrange(ka, a.len() as int);
        let bl = b.subrange(0, kb);
        let br = b.subrange(kb, b.len() as int);
        lemma_inner_preimage_injective(merkle_root(al), merkle_root(ar), merkle_root(bl), merkle_root(br));
        if al != bl {
            let r = lemma_root_binds_leaves(al, bl);
            assert(tree_preimages(a).contains(r.0));
            assert(tree_preimages(b).contains(r.1));
            r
        } else if ar != br {
            let r = lemma_root_binds_leaves(ar, br);
            assert(tree_preimages(a).contains(r.0));
            assert(tree_preimages(b).contains(r.1));
            r
        } else {
            assert(a =~= al + ar);
            assert(b =~= bl + br);
            (pa, pb)
        }
    }
}

/// Every byte string hashed in folding an inclusion proof into a root.
pub open spec fn fold_preimages(index: int, total: int, leaf: [u8; 32], aunts: Seq<[u8; 32]>) -> Set<
    Seq<u8>,
>
    decreases aunts.len(),
{
    if index < 0 || index >= total || total <= 1 || aunts.len() == 0 {
        Set::empty()
    } else {
        let k = split_of(total as nat) as int;
        let last = aunts.last();
        if index < k {
            let h = root_from_aunts(index, k, leaf, aunts.drop_last())->Ok_0;
            fold_preimages(index, k, leaf, aunts.drop_last()).insert(inner_preimage(h@, last@))
        } else {
            let h = root_from_aunts(index - k, total - k, leaf, aunts.drop_last())->Ok_0;
            fold_preimages(index - k, total - k, leaf, aunts.drop_last()).insert(
                inner_preimage(last@, h@),
            )
        }
    }
}

/// With the index, the total and the number of aunts kept, a proof whose leaf
/// digest or aunts were altered folds to the same root only through a SHA-256
/// collision between byte strings hashed by the two folds, which this returns.
pub proof fn lemma_altered_proof_needs_collision(
    index: int,
    total: int,
    leaf: [u8; 32],
    aunts: Seq<[u8; 32]>,
    leaf2: [u8; 32],
    aunts2: Seq<[u8; 32]>,
) -> (r: (Seq<u8>, Seq<u8>))
    requires
        aunts.len() == aunts2.len(),
        leaf != leaf2 || aunts != aunts2,
        root_from_aunts(index, total, leaf, aunts) is Ok,
        root_from_aunts(index, total, leaf2, aunts2) == root_from_aunts(index, total, leaf, aunts),
    ensures
        is_collision(r.0, r.1),
        fold_preimages(index, total, leaf, aunts).contains(r.0),
        fold_preimages(index, total, leaf2, aunts2).contains(r.1),
    decreases aunts.len(),
{
    if total == 1 {
        assert(aunts =~= aunts2);
        (Seq::empty(), Seq::empty())
    } else {
        let k = split_of(total as nat) as int;
        let last = aunts.last();
        let last2 = aunts2.last();
        let rest = aunts.drop_last();
        let rest2 = aunts2.drop_last();
        assert(aunts =~= rest.push(last));
        assert(aunts2 =~= rest2.push(last2));
        let (i, t) = if index < k {
            (index, k)
        } else {
            (index - k, total - k)
        };
        let h = root_from_aunts(i, t, leaf, rest)->Ok_0;
        let h2 = root_from_aunts(i, t, leaf2, rest2)->Ok_0;
        let (p, p2) = if index < k {
            (inner_preimage(h@, last@), inner_preimage(h2@, last2@))
        } else {
            (inner_preimage(last@, h@), inner_preimage(last2@, h2@))
        };
        assert(fold_preimages(index, total, leaf, aunts).contains(p));
        assert(fold_preimages(index, total, leaf2, aunts2).contains(p2));
        if p != p2 {
            (p, p2)
        } else {
            if index < k {
                lemma_inner_preimage_injective(h, last, h2, last2);
            } else {
                lemma_inner_preimage_injective(last, h, last2, h2);
            }
            let r = lemma_altered_proof_needs_collision(i, t, leaf, rest, leaf2, rest2);
            assert(fold_preimages(index, total, leaf, aunts).contains(r.0));
            assert(fold_preimages(index, total, leaf2, aunts2).contains(r.1));
            r
        }
    }
}

/// Two proofs that fold at one index of one total have the same number of
/// aunts: the index and the total alone fix the shape of the walk.
proof fn lemma_fold_shape(
    index: int,
    total: int,
    leaf: [u8; 32],
    aunts: Seq<[u8; 32]>,
    leaf2: [u8; 32],
    aunts2: Seq<[u8; 32]>,
)
    requires
        root_from_aunts(index, total, leaf, aunts) is Ok,
        root_from_aunts(index, total, leaf2, aunts2) is Ok,
    ensures
        aunts.len() == aunts2.len(),
    decreases aunts.len(),
{
    if total > 1 {
        let k = split_of(total as nat) as int;
        if index < k {
            lemma_fold_shape(index, k, leaf, aunts.drop_last(), leaf2, aunts2.drop_last());
        } else {
            lemma_fold_shape(index - k, total - k, leaf, aunts.drop_last(), leaf2, aunts2.drop_last());
        }
    }
}

/// Where SHA-256 has no collision between the byte strings hashed by the
/// fold of leaf `j`'s own proof and those hashed by the fold of another proof
/// at index `j`, that proof folds to the root of the tree over `leaves` only
/// if it is leaf `j`'s own: `j` is in range, the leaf
/// digest is that of leaf `j`, and the aunts are its aunts. So flipping a bit
/// of a built proof's leaf digest or of one of its aunts makes it fail.
pub proof fn lemma_only_own_proof_folds(leaves: Seq<Seq<u8>>, j: int, leaf: [u8; 32], aunts: Seq<[u8; 32]>)
    requires
        collision_free_between(
            fold_preimages(j, leaves.len() as int, leaf_digest(leaves[j]), aunts_of(leaves, j)),
            fold_preimages(j, leaves.len() as int, leaf, aunts),
        ),
        root_from_aunts(j, leaves.len() as int, leaf, aunts) == Ok::<[u8; 32], TreeError>(
            merkle_root(leaves),
        ),
    ensures
        0 <= j < leaves.len(),
        leaf == leaf_digest(leaves[j]),
        aunts == aunts_of(leaves, j),
{
    lemma_proof_folds_to_root(leaves, j);
    let n = leaves.len() as int;
    lemma_fold_shape(j, n, leaf_digest(leaves[j]), aunts_of(leaves, j), leaf, aunts);
    if leaf != leaf_digest(leaves[j]) || aunts != aunts_of(leaves, j) {
        let r = lemma_altered_proof_needs_collision(
            j,
            n,
            leaf_digest(leaves[j]),
            aunts_of(leaves, j),
            leaf,
            aunts,
        );
        assert(!is_collision(r.0, r.1));
    }
}

/// Where SHA-256 has no collision between the byte strings hashed for leaf
/// `j` and its proof's fold and those hashed for leaf `i` and its proof's
/// fold at index `j`, leaf `i`'s proof moved to index `j` folds to the root
/// only where `j` is in range and leaf `j` equals leaf `i`.
pub proof fn lemma_moved_index_needs_equal_leaf(leaves: Seq<Seq<u8>>, i: int, j: int)
    requires
        collision_free_between(
            fold_preimages(j, leaves.len() as int, leaf_digest(leaves[j]), aunts_of(leaves, j)).insert(
                leaf_preimage(leaves[j]),
            ),
            fold_preimages(j, leaves.len() as int, leaf_digest(leaves[i]), aunts_of(leaves, i)).insert(
                leaf_preimage(leaves[i]),
            ),
        ),
        0 <= i < leaves.len(),
        root_from_aunts(j, leaves.len() as int, leaf_digest(leaves[i]), aunts_of(leaves, i))
            == Ok::<[u8; 32], TreeError>(merkle_root(leaves)),
    ensures
        0 <= j < leaves.len(),
        leaves[j] == leaves[i],
{
    let n = leaves.len() as int;
    let fa = fold_preimages(j, n, leaf_digest(leaves[j]), aunts_of(leaves, j));
    let fb = fold_preimages(j, n, leaf_digest(leaves[i]), aunts_of(leaves, i));
    let a = leaf_preimage(leaves[i]);
    let b = leaf_preimage(leaves[j]);
    assert forall|x: Seq<u8>, y: Seq<u8>| #[trigger] fa.contains(x) && #[trigger] fb.contains(
        y,
    ) implies !is_collision(x, y) by {
        assert(fa.insert(b).contains(x));
        assert(fb.insert(a).contains(y));
    }
    lemma_only_own_proof_folds(leaves, j, leaf_digest(leaves[i]), aunts_of(leaves, i));
    if a != b {
        assert(fa.insert(b).contains(b));
        assert(fb.insert(a).contains(a));
        assert(!is_collision(b, a));
    }
    assert(leaves[i] =~= a.subrange(1, a.len() as int));
    assert(leaves[j] =~= b.subrange(1, b.len() as int));
}

} // verus!
