//! The tree over a list of leaves as an arena of nodes, each linked to its
//! parent and to its sibling, and the inclusion proofs read off it.
use crate::hashing::{empty_hash, inner_digest, inner_hash, leaf_digest, leaf_hash};
use crate::merkle::{
    aunts_of, get_split_point, lemma_proof_folds_to_root, lemma_split_of, leaves_of, merkle_root,
    root_from_aunts, Proof, TreeError,
};
use vstd::prelude::*;

verus! {

/// A node of a built tree, addressed by its position in the arena that holds
/// the tree. `left` and `right` point at the node's sibling: `left` when the
/// sibling stands to its left, `right` when it stands to its right.
#[derive(Clone, Copy, Debug)]
pub struct ProofNode {
    pub hash: [u8; 32],
    pub parent: Option<usize>,
    pub left: Option<usize>,
    pub right: Option<usize>,
}

/// A built tree: its nodes, the node of each leaf in order, and the root node.
pub struct Trails {
    pub nodes: Vec<ProofNode>,
    pub leaves: Vec<usize>,
    pub root: usize,
}

/// Links of node `j` point inside the arena, and its parent comes after it.
pub open spec fn links_ok(nodes: Seq<ProofNode>, j: int) -> bool {
    &&& nodes[j].parent is Some ==> j < nodes[j].parent->Some_0 < nodes.len()
    &&& nodes[j].left is Some ==> nodes[j].left->Some_0 < nodes.len()
    &&& nodes[j].right is Some ==> nodes[j].right->Some_0 < nodes.len()
}

/// Every node's links point inside the arena, parents after children.
pub open spec fn arena_wf(nodes: Seq<ProofNode>) -> bool {
    forall|j: int| 0 <= j < nodes.len() ==> #[trigger] links_ok(nodes, j)
}

/// Node `j` and its sibling link to each other, one from the left and one
/// from the right, and share one parent, whose digest is the inner digest of
/// the two, left first. A node without a parent links to no sibling.
pub open spec fn family_ok(nodes: Seq<ProofNode>, j: int) -> bool {
    let n = nodes[j];
    if n.parent is None {
        n.left is None && n.right is None
    } else {
        let p = n.parent->Some_0 as int;
        ||| n.left is Some && n.right is None && {
            let s = n.left->Some_0 as int;
            &&& s < nodes.len()
            &&& nodes[s].parent == n.parent
            &&& nodes[s].right == Some(j as usize)
            &&& nodes[s].left is None
            &&& nodes[p].hash == inner_digest(nodes[s].hash@, n.hash@)
        }
        ||| n.right is Some && n.left is None && {
            let s = n.right->Some_0 as int;
            &&& s < nodes.len()
            &&& nodes[s].parent == n.parent
            &&& nodes[s].left == Some(j as usize)
            &&& nodes[s].right is None
            &&& nodes[p].hash == inner_digest(n.hash@, nodes[s].hash@)
        }
    }
}

/// Every node of the arena meets `family_ok`.
pub open spec fn families_ok(nodes: Seq<ProofNode>) -> bool {
    forall|j: int| 0 <= j < nodes.len() ==> #[trigger] family_ok(nodes, j)
}

/// The digests of the siblings that a node links to.
pub open spec fn sibling_hashes(nodes: Seq<ProofNode>, n: ProofNode) -> Seq<[u8; 32]> {
    (if n.left is Some && n.left->Some_0 < nodes.len() {
        seq![nodes[n.left->Some_0 as int].hash]
    } else {
        Seq::empty()
    }) + (if n.right is Some && n.right->Some_0 < nodes.len() {
        seq![nodes[n.right->Some_0 as int].hash]
    } else {
        Seq::empty()
    })
}

/// The sibling digests collected from node `n` upward, following parent links
/// that lead further into the arena than `floor`.
pub open spec fn walk_aunts(nodes: Seq<ProofNode>, n: ProofNode, floor: int) -> Seq<[u8; 32]>
    decreases nodes.len() - floor,
{
    sibling_hashes(nodes, n) + if n.parent is Some && floor < n.parent->Some_0 && n.parent->Some_0
        < nodes.len() {
        let p = n.parent->Some_0 as int;
        walk_aunts(nodes, nodes[p], p)
    } else {
        Seq::empty()
    }
}

/// The sibling digests collected from node `x` up to the top of its tree.
pub open spec fn path_aunts(nodes: Seq<ProofNode>, x: int) -> Seq<[u8; 32]> {
    walk_aunts(nodes, nodes[x], x)
}

/// The node where the upward walk from node `x` stops.
pub open spec fn walk_top(nodes: Seq<ProofNode>, x: int) -> int
    decreases nodes.len() - x,
{
    if 0 <= x < nodes.len() && nodes[x].parent is Some && x < nodes[x].parent->Some_0
        && nodes[x].parent->Some_0 < nodes.len() {
        walk_top(nodes, nodes[x].parent->Some_0 as int)
    } else {
        x
    }
}

/// Each leaf of `leaves`, recorded in `ids` from position `base` on, has a node
/// in `[first, root]` with its digest, whose upward walk ends at `root` and
/// collects exactly the leaf's aunts.
pub open spec fn trails_ok(
    nodes: Seq<ProofNode>,
    ids: Seq<usize>,
    base: int,
    leaves: Seq<Seq<u8>>,
    first: int,
    root: int,
) -> bool {
    forall|t: int|
        0 <= t < leaves.len() ==> {
            let x = #[trigger] ids[base + t] as int;
            &&& first <= x <= root
            &&& nodes[x].hash == leaf_digest(leaves[t])
            &&& path_aunts(nodes, x) == aunts_of(leaves, t)
            &&& walk_top(nodes, x) == root
        }
}

/// A node that links nowhere.
pub open spec fn is_lone(n: ProofNode) -> bool {
    n.parent is None && n.left is None && n.right is None
}

proof fn lemma_walk_top_ge(nodes: Seq<ProofNode>, x: int)
    ensures
        walk_top(nodes, x) >= x,
    decreases nodes.len() - x,
{
    if 0 <= x < nodes.len() && nodes[x].parent is Some && x < nodes[x].parent->Some_0
        && nodes[x].parent->Some_0 < nodes.len() {
        lemma_walk_top_ge(nodes, nodes[x].parent->Some_0 as int);
    }
}

/// Relinking the top `e` of a subtree, and changing nodes outside `[a, e]`,
/// extends the walk from a node of the subtree by the walk from `e`.
proof fn lemma_walk_frame(f: Seq<ProofNode>, g: Seq<ProofNode>, a: int, x: int, e: int)
    requires
        0 <= a <= x <= e < f.len() <= g.len(),
        arena_wf(f),
        walk_top(f, x) == e,
        is_lone(f[e]),
        forall|j: int| a <= j < e ==> g[j] == f[j],
        forall|j: int| 0 <= j < f.len() ==> g[j].hash == f[j].hash,
    ensures
        path_aunts(g, x) == path_aunts(f, x) + path_aunts(g, e),
        walk_top(g, x) == walk_top(g, e),
    decreases e - x,
{
    if x < e {
        assert(links_ok(f, x));
        let p = f[x].parent->Some_0 as int;
        lemma_walk_top_ge(f, p);
        lemma_walk_frame(f, g, a, p, e);
        assert(g[x] == f[x]);
        assert(sibling_hashes(g, g[x]) == sibling_hashes(f, f[x]));
        assert(path_aunts(g, x) == sibling_hashes(f, f[x]) + path_aunts(g, p));
        assert(path_aunts(f, x) == sibling_hashes(f, f[x]) + path_aunts(f, p));
        assert(path_aunts(g, x) =~= path_aunts(f, x) + path_aunts(g, e));
    } else {
        assert(path_aunts(f, e) =~= Seq::<[u8; 32]>::empty());
        assert(path_aunts(g, x) =~= path_aunts(f, x) + path_aunts(g, e));
    }
}

/// Appends the nodes of the tree over `items[lo..hi]` to the arena, records
/// the node of each of its leaves, and returns the node of its root.
#[verifier::rlimit(50)]
fn build_trails(
    items: &[&[u8]],
    lo: usize,
    hi: usize,
    nodes: &mut Vec<ProofNode>,
    ids: &mut Vec<usize>,
) -> (root: usize)
    requires
        lo < hi <= items@.len(),
        arena_wf(old(nodes)@),
        families_ok(old(nodes)@),
        old(nodes)@.len() + 2 * (hi - lo) <= usize::MAX,
    ensures
        old(nodes)@.len() <= root,
        root + 1 == final(nodes)@.len(),
        final(nodes)@.len() < old(nodes)@.len() + 2 * (hi - lo),
        arena_wf(final(nodes)@),
        families_ok(final(nodes)@),
        forall|j: int| old(nodes)@.len() <= j < root ==> (#[trigger] final(nodes)@[j]).parent is Some,
        forall|t: int, u: int|
            0 <= t < hi - lo && 0 <= u < hi - lo && t != u ==> #[trigger] final(ids)@[old(ids)@.len()
                + t] != #[trigger] final(ids)@[old(ids)@.len() + u],
        forall|j: int| 0 <= j < old(nodes)@.len() ==> final(nodes)@[j] == old(nodes)@[j],
        is_lone(final(nodes)@[root as int]),
        final(nodes)@[root as int].hash == merkle_root(
            leaves_of(items@).subrange(lo as int, hi as int),
        ),
        final(ids)@.len() == old(ids)@.len() + (hi - lo),
        forall|j: int| 0 <= j < old(ids)@.len() ==> final(ids)@[j] == old(ids)@[j],
        trails_ok(
            final(nodes)@,
            final(ids)@,
            old(ids)@.len() as int,
            leaves_of(items@).subrange(lo as int, hi as int),
            old(nodes)@.len() as int,
            root as int,
        ),
    decreases hi - lo,
{
    let ghost s = leaves_of(items@).subrange(lo as int, hi as int);
    let ghost o = nodes@.len() as int;
    let ghost base = ids@.len() as int;
    if hi - lo == 1 {
        let h = leaf_hash(items[lo]);
        nodes.push(ProofNode { hash: h, parent: None, left: None, right: None });
        let x = nodes.len() - 1;
        ids.push(x);
        proof {
            assert(links_ok(nodes@, x as int));
            assert forall|j: int| 0 <= j < nodes@.len() implies #[trigger] links_ok(nodes@, j) by {
                if j < x {
                    assert(links_ok(old(nodes)@, j));
                }
            }
            assert forall|j: int| 0 <= j < nodes@.len() implies #[trigger] family_ok(nodes@, j) by {
                if j < x {
                    assert(links_ok(old(nodes)@, j));
                    assert(family_ok(old(nodes)@, j));
                }
            }
            assert(path_aunts(nodes@, x as int) =~= Seq::<[u8; 32]>::empty());
            assert(ids@[base + 0] == x);
            assert(trails_ok(nodes@, ids@, base, s, o, x as int));
        }
        return x;
    }
    let k = get_split_point((hi - lo) as u64) as usize;
    proof {
        lemma_split_of((hi - lo) as nat);
    }
    let ghost sl = leaves_of(items@).subrange(lo as int, lo + k);
    let ghost sr = leaves_of(items@).subrange(lo + k, hi as int);
    let ghost ids0 = ids@;
    let l = build_trails(items, lo, lo + k, nodes, ids);
    let ghost f1 = nodes@;
    let ghost ids1 = ids@;
    let r = build_trails(items, lo + k, hi, nodes, ids);
    let ghost f2 = nodes@;
    let lh = nodes[l].hash;
    let rh = nodes[r].hash;
    let h = inner_hash(&lh, &rh);
    let top = nodes.len();
    nodes.push(ProofNode { hash: h, parent: None, left: None, right: None });
    nodes[l] = ProofNode { hash: lh, parent: Some(top), left: None, right: Some(r) };
    nodes[r] = ProofNode { hash: rh, parent: Some(top), left: Some(l), right: None };
    proof {
        let g = nodes@;
        assert(s.subrange(0, k as int) =~= sl);
        assert(s.subrange(k as int, s.len() as int) =~= sr);
        assert forall|j: int| 0 <= j < g.len() implies #[trigger] links_ok(g, j) by {
            if j < f2.len() && j != l && j != r {
                assert(links_ok(f2, j));
            }
        }
        assert(is_lone(f2[l as int]));
        assert forall|j: int| 0 <= j < g.len() implies #[trigger] family_ok(g, j) by {
            if j == l as int {
                assert(g[r as int].left == Some(l));
            } else if j == r as int {
                assert(g[l as int].right == Some(r));
            } else if j < f2.len() {
                assert(family_ok(f2, j));
                assert(links_ok(f2, j));
                assert(g[j] == f2[j]);
                if f2[j].parent is Some {
                    let pp = f2[j].parent->Some_0 as int;
                    assert(g[pp].hash == f2[pp].hash);
                    if f2[j].left is Some {
                        let sb = f2[j].left->Some_0 as int;
                        assert(sb != l && sb != r);
                        assert(g[sb] == f2[sb]);
                    } else {
                        let sb = f2[j].right->Some_0 as int;
                        assert(sb != l && sb != r);
                        assert(g[sb] == f2[sb]);
                    }
                }
            }
        }
        assert forall|j: int| o <= j < top implies (#[trigger] g[j]).parent is Some by {
            if j < l {
                assert(f2[j] == f1[j]);
            } else if l < j < r {
                assert(f2[j] == g[j]);
            }
        }
        assert forall|t: int, u: int|
            0 <= t < s.len() && 0 <= u < s.len() && t != u implies #[trigger] ids@[base + t]
            != #[trigger] ids@[base + u] by {
            if t < k {
                assert(ids@[base + t] == ids1[base + t]);
                assert(sl[t] == s[t]);
            } else {
                assert(base + t == (base + k) + (t - k));
            }
            if u < k {
                assert(ids@[base + u] == ids1[base + u]);
            } else {
                assert(base + u == (base + k) + (u - k));
            }
            if t < k && u < k {
                assert(ids1[base + t] != ids1[base + u]);
            }
            if t >= k && u >= k {
                assert(ids@[(base + k) + (t - k)] != ids@[(base + k) + (u - k)]);
            }
        }
        assert(path_aunts(g, top as int) =~= Seq::<[u8; 32]>::empty());
        assert(walk_top(g, top as int) == top);
        assert(walk_top(g, l as int) == top);
        assert(walk_top(g, r as int) == top);
        assert(path_aunts(g, l as int) =~= seq![rh]);
        assert(path_aunts(g, r as int) =~= seq![lh]);
        assert forall|t: int| 0 <= t < s.len() implies {
            let x = #[trigger] ids@[base + t] as int;
            &&& o <= x <= top
            &&& g[x].hash == leaf_digest(s[t])
            &&& path_aunts(g, x) == aunts_of(s, t)
            &&& walk_top(g, x) == top
        } by {
            if t < k {
                assert(sl[t] == s[t]);
                let x = ids1[base + t] as int;
                assert(ids@[base + t] == ids1[base + t]);
                lemma_walk_frame(f1, f2, o, x, l as int);
                assert(path_aunts(f2, l as int) =~= Seq::<[u8; 32]>::empty());
                lemma_walk_frame(f2, g, o, x, l as int);
                assert(aunts_of(s, t) =~= aunts_of(sl, t).push(rh));
            } else {
                assert(sr[t - k] == s[t]);
                assert(base + t == (base + k) + (t - k));
                let x = ids@[base + t] as int;
                lemma_walk_frame(f2, g, l + 1, x, r as int);
                assert(aunts_of(s, t) =~= aunts_of(sr, t - k).push(lh));
            }
        }
    }
    top
}

impl Trails {
    /// The arena is the tree over `leaves`. Links point inside the arena and
    /// parents come after their children; siblings link to each other and
    /// share a parent whose digest is their inner digest. The root node has
    /// no parent and no sibling, holds the tree's root, and is the only node
    /// without a parent. Each leaf has a node of its own, which holds the
    /// leaf's digest, walks up to the root node, and meets exactly the leaf's
    /// aunts on the way.
    pub open spec fn represents(&self, leaves: Seq<Seq<u8>>) -> bool {
        &&& arena_wf(self.nodes@)
        &&& families_ok(self.nodes@)
        &&& self.root < self.nodes@.len()
        &&& is_lone(self.nodes@[self.root as int])
        &&& forall|j: int|
            0 <= j < self.nodes@.len() && j != self.root ==> (#[trigger] self.nodes@[j]).parent is Some
        &&& self.nodes@[self.root as int].hash == merkle_root(leaves)
        &&& self.leaves@.len() == leaves.len()
        &&& forall|t: int|
            0 <= t < leaves.len() ==> {
                let x = #[trigger] self.leaves@[t] as int;
                &&& 0 <= x < self.nodes@.len()
                &&& self.nodes@[x].hash == leaf_digest(leaves[t])
                &&& walk_top(self.nodes@, x) == self.root
                &&& path_aunts(self.nodes@, x) == aunts_of(leaves, t)
            }
        &&& forall|t: int, u: int|
            0 <= t < leaves.len() && 0 <= u < leaves.len() && t != u ==> #[trigger] self.leaves@[t]
                != #[trigger] self.leaves@[u]
    }
}

/// Builds the tree over `items` as an arena of linked nodes.
pub fn trails_from_byte_slices(items: &[&[u8]]) -> (r: Trails)
    requires
        items@.len() <= usize::MAX / 2,
    ensures
        r.represents(leaves_of(items@)),
{
    let mut nodes: Vec<ProofNode> = Vec::new();
    let mut ids: Vec<usize> = Vec::new();
    if items.len() == 0 {
        nodes.push(ProofNode { hash: empty_hash(), parent: None, left: None, right: None });
        proof {
            assert(links_ok(nodes@, 0));
            assert(family_ok(nodes@, 0));
        }
        return Trails { nodes, leaves: ids, root: 0 };
    }
    let root = build_trails(items, 0, items.len(), &mut nodes, &mut ids);
    let ghost l = leaves_of(items@);
    assert(l.subrange(0, items@.len() as int) =~= l);
    assert forall|t: int| 0 <= t < l.len() implies {
        let x = #[trigger] ids@[t] as int;
        &&& 0 <= x < nodes@.len()
        &&& nodes@[x].hash == leaf_digest(l[t])
        &&& walk_top(nodes@, x) == root
        &&& path_aunts(nodes@, x) == aunts_of(l, t)
    } by {
        assert(ids@[0 + t] == ids@[t]);
    }
    assert forall|t: int, u: int|
        0 <= t < l.len() && 0 <= u < l.len() && t != u implies #[trigger] ids@[t] != #[trigger] ids@[u] by {
        assert(ids@[0 + t] == ids@[t]);
        assert(ids@[0 + u] == ids@[u]);
    }
    Trails { nodes, leaves: ids, root }
}

impl ProofNode {
    /// The sibling digests from this node up to the top of the tree in
    /// `nodes`, innermost first.
    pub fn flatten_aunts(&self, nodes: &Vec<ProofNode>) -> (r: Vec<[u8; 32]>)
        ensures
            r@ == walk_aunts(nodes@, *self, -1),
    {
        let mut out: Vec<[u8; 32]> = Vec::new();
        let mut cur: ProofNode = *self;
        let mut above: usize = 0;
        loop
            invariant_except_break
                out@ + walk_aunts(nodes@, cur, above - 1) == walk_aunts(nodes@, *self, -1),
            invariant
                above <= nodes@.len(),
                above == 0 ==> cur == *self,
            ensures
                out@ == walk_aunts(nodes@, *self, -1),
            decreases nodes@.len() - above,
        {
            let ghost before = out@;
            if let Some(l) = cur.left {
                if l < nodes.len() {
                    out.push(nodes[l].hash);
                }
            }
            if let Some(r) = cur.right {
                if r < nodes.len() {
                    out.push(nodes[r].hash);
                }
            }
            assert(out@ =~= before + sibling_hashes(nodes@, cur));
            match cur.parent {
                Some(p) => {
                    if above <= p && p < nodes.len() {
                        assert(out@ + walk_aunts(nodes@, nodes@[p as int], p as int) =~= before
                            + walk_aunts(nodes@, cur, above - 1));
                        cur = nodes[p];
                        above = p + 1;
                    } else {
                        assert(out@ =~= before + walk_aunts(nodes@, cur, above - 1));
                        break ;
                    }
                },
                None => {
                    assert(out@ =~= before + walk_aunts(nodes@, cur, above - 1));
                    break ;
                },
            }
        }
        out
    }
}

/// The walk from a node of a well-linked arena is the same whether or not it
/// starts from the node's position.
proof fn lemma_path_from_node(nodes: Seq<ProofNode>, x: int)
    requires
        0 <= x < nodes.len(),
        links_ok(nodes, x),
    ensures
        walk_aunts(nodes, nodes[x], -1) == path_aunts(nodes, x),
{
}

/// Building is deterministic in what it yields: two arenas built over the
/// same leaves have the same root digest, and give each leaf the same digest
/// and the same aunts.
pub proof fn lemma_trails_agree(a: Trails, b: Trails, leaves: Seq<Seq<u8>>)
    requires
        a.represents(leaves),
        b.represents(leaves),
    ensures
        a.nodes@[a.root as int].hash == b.nodes@[b.root as int].hash,
        a.leaves@.len() == b.leaves@.len(),
        forall|t: int|
            0 <= t < leaves.len() ==> {
                let x = #[trigger] a.leaves@[t] as int;
                let y = b.leaves@[t] as int;
                &&& a.nodes@[x].hash == b.nodes@[y].hash
                &&& path_aunts(a.nodes@, x) == path_aunts(b.nodes@, y)
            },
{
}

/// In an arena built over `leaves`, the aunts that `flatten_aunts` reads off
/// leaf `i`'s node, with that node's digest, fold at index `i` to the digest of
/// the root node.
pub proof fn lemma_trail_folds_to_root(t: Trails, leaves: Seq<Seq<u8>>, i: int)
    requires
        t.represents(leaves),
        0 <= i < leaves.len(),
    ensures
        ({
            let x = t.leaves@[i] as int;
            &&& walk_aunts(t.nodes@, t.nodes@[x], -1) == aunts_of(leaves, i)
            &&& root_from_aunts(
                i,
                leaves.len() as int,
                t.nodes@[x].hash,
                walk_aunts(t.nodes@, t.nodes@[x], -1),
            ) == Ok::<[u8; 32], TreeError>(t.nodes@[t.root as int].hash)
        }),
{
    let x = t.leaves@[i] as int;
    assert(links_ok(t.nodes@, x));
    lemma_path_from_node(t.nodes@, x);
    lemma_proof_folds_to_root(leaves, i);
}

/// `r` holds the root of the tree over `leaves` and, in order, each leaf's
/// inclusion proof: its index, the total, its digest and its aunts.
pub open spec fn proofs_match(r: ([u8; 32], Vec<Proof>), leaves: Seq<Seq<u8>>) -> bool {
    &&& r.0 == merkle_root(leaves)
    &&& r.1@.len() == leaves.len()
    &&& forall|i: int|
        0 <= i < leaves.len() ==> {
            let p = #[trigger] r.1@[i];
            &&& p.total == leaves.len()
            &&& p.index == i
            &&& p.leaf_hash == leaf_digest(leaves[i])
            &&& p.aunts@ == aunts_of(leaves, i)
        }
}

/// Proofs built twice over the same leaves agree: same root, and for each
/// leaf the same total, index, leaf digest and aunts.
pub proof fn lemma_proofs_agree(a: ([u8; 32], Vec<Proof>), b: ([u8; 32], Vec<Proof>), leaves: Seq<Seq<u8>>)
    requires
        proofs_match(a, leaves),
        proofs_match(b, leaves),
    ensures
        a.0 == b.0,
        a.1@.len() == b.1@.len(),
        forall|i: int|
            0 <= i < leaves.len() ==> {
                &&& (#[trigger] a.1@[i]).total == b.1@[i].total
                &&& a.1@[i].index == b.1@[i].index
                &&& a.1@[i].leaf_hash == b.1@[i].leaf_hash
                &&& a.1@[i].aunts@ == b.1@[i].aunts@
            },
{
}

/// Every proof built over `leaves` folds to the root built with it, so
/// `Proof::verify` accepts it against that root.
pub proof fn lemma_built_proofs_verify(r: ([u8; 32], Vec<Proof>), leaves: Seq<Seq<u8>>, i: int)
    requires
        proofs_match(r, leaves),
        0 <= i < leaves.len(),
    ensures
        root_from_aunts(
            r.1@[i].index as int,
            r.1@[i].total as int,
            r.1@[i].leaf_hash,
            r.1@[i].aunts@,
        ) == Ok::<[u8; 32], TreeError>(r.0),
{
    lemma_proof_folds_to_root(leaves, i);
}

/// The root of the tree over `items`, and an inclusion proof for each leaf,
/// read off the tree's arena.
pub fn proofs_from_byte_slices(items: &[&[u8]]) -> (r: ([u8; 32], Vec<Proof>))
    requires
        items@.len() <= usize::MAX / 2,
        items@.len() <= i64::MAX,
    ensures
        proofs_match(r, leaves_of(items@)),
{
    let ghost l = leaves_of(items@);
    let trails = trails_from_byte_slices(items);
    let root_hash = trails.nodes[trails.root].hash;
    let total = items.len() as i64;
    let mut proofs: Vec<Proof> = Vec::new();
    let mut i: usize = 0;
    while i < trails.leaves.len()
        invariant
            trails.represents(l),
            l.len() == items@.len(),
            total == items@.len(),
            0 <= i <= trails.leaves@.len(),
            proofs@.len() == i,
            forall|j: int|
                0 <= j < i ==> {
                    let p = #[trigger] proofs@[j];
                    &&& p.total == items@.len()
                    &&& p.index == j
                    &&& p.leaf_hash == leaf_digest(l[j])
                    &&& p.aunts@ == aunts_of(l, j)
                },
        decreases trails.leaves@.len() - i,
    {
        let x = trails.leaves[i];
        let node = trails.nodes[x];
        let aunts = node.flatten_aunts(&trails.nodes);
        proof {
            assert(links_ok(trails.nodes@, x as int));
            lemma_path_from_node(trails.nodes@, x as int);
        }
        proofs.push(Proof { total, index: i as i64, leaf_hash: node.hash, aunts });
        i = i + 1;
    }
    (root_hash, proofs)
}

} // verus!
