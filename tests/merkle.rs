use blob_inclusion::hashing::{empty_hash, hash, inner_hash, leaf_hash};
use blob_inclusion::merkle::{compute_hash_from_aunts, get_split_point, hash_from_byte_slices, Proof, TreeError};
use blob_inclusion::range::verify_range;
use blob_inclusion::trails::{proofs_from_byte_slices, trails_from_byte_slices};
use nmt_rs::simple_merkle::db::MemDb;
use nmt_rs::simple_merkle::tree::MerkleTree;
use nmt_rs::TmSha2Hasher;
use sha2::{Digest, Sha256};

fn hex(d: &[u8]) -> String {
    d.iter().map(|b| format!("{:02x}", b)).collect()
}

fn sample_leaves(n: usize) -> Vec<Vec<u8>> {
    (0..n).map(|i| vec![i as u8, (i * 7) as u8, 0xAB]).collect()
}

fn as_slices(v: &[Vec<u8>]) -> Vec<&[u8]> {
    v.iter().map(|x| x.as_slice()).collect()
}

#[test]
fn empty_hash_is_sha256_of_nothing() {
    assert_eq!(
        hex(&empty_hash()),
        "e3b0c44298fc1c149afbf4c8996fb92427ae41e4649b934ca495991b7852b855"
    );
}

#[test]
fn leaf_hash_prefixes_zero_byte() {
    assert_eq!(
        hex(&leaf_hash(&[])),
        "6e340b9cffb37a989ca544e6bb780a2c78901d3fb33738768511a30617afa01d"
    );
    let expected: [u8; 32] = Sha256::digest([0u8, 1, 2, 3]).into();
    assert_eq!(leaf_hash(&[1, 2, 3]), expected);
}

#[test]
fn inner_hash_prefixes_one_byte() {
    let l = [7u8; 32];
    let r = [9u8; 32];
    let mut pre = vec![1u8];
    pre.extend_from_slice(&l);
    pre.extend_from_slice(&r);
    let expected: [u8; 32] = Sha256::digest(&pre).into();
    assert_eq!(inner_hash(&l, &r), expected);
    assert_ne!(inner_hash(&l, &r), inner_hash(&r, &l));
    assert_eq!(hash(&pre), expected);
}

#[test]
fn split_point_values() {
    let cases: [(u64, u64); 12] = [
        (0, 1), (1, 1), (2, 1), (3, 2), (4, 2), (5, 4), (7, 4), (8, 4), (9, 8),
        (100, 64), (128, 64), (1024, 512),
    ];
    for (n, k) in cases {
        assert_eq!(get_split_point(n), k, "n = {}", n);
    }
}

#[test]
fn split_point_is_largest_power_of_two_below() {
    for n in 1u64..3000 {
        let k = get_split_point(n);
        assert!(k.is_power_of_two());
        if n > 1 {
            assert!(k < n && n <= 2 * k);
            assert_eq!(k, n.next_power_of_two() / 2);
        }
    }
}

#[test]
fn root_matches_known_vectors() {
    let none: Vec<&[u8]> = vec![];
    assert_eq!(
        hex(&hash_from_byte_slices(&none)),
        "e3b0c44298fc1c149afbf4c8996fb92427ae41e4649b934ca495991b7852b855"
    );
    let blank: Vec<&[u8]> = vec![&[]];
    assert_eq!(
        hex(&hash_from_byte_slices(&blank)),
        "6e340b9cffb37a989ca544e6bb780a2c78901d3fb33738768511a30617afa01d"
    );
    let single: Vec<&[u8]> = vec![&[1, 2, 3]];
    assert_eq!(
        hex(&hash_from_byte_slices(&single)),
        "054edec1d0211f624fed0cbca9d4f9400b0e491c43742af2c5b0abebf0c990d8"
    );
    let two: Vec<&[u8]> = vec![&[1, 2, 3], &[4, 5, 6]];
    assert_eq!(
        hex(&hash_from_byte_slices(&two)),
        "82e6cfce00453804379b53962939eaa7906b39904be0813fcadd31b100773c4b"
    );
    let many: Vec<&[u8]> = vec![&[1, 2], &[3, 4], &[5, 6], &[7, 8], &[9, 10]];
    assert_eq!(
        hex(&hash_from_byte_slices(&many)),
        "f326493eceab4f2d9ffbc78c59432a0a005d6ea98392045c74df5d14a113be18"
    );
}

#[test]
fn root_matches_simple_merkle_tree_of_nmt_rs() {
    for n in 1..70 {
        let leaves = sample_leaves(n);
        let mut tree: MerkleTree<MemDb<[u8; 32]>, TmSha2Hasher> =
            MerkleTree::with_hasher(TmSha2Hasher {});
        for leaf in &leaves {
            tree.push_raw_leaf(leaf);
        }
        assert_eq!(hash_from_byte_slices(&as_slices(&leaves)), tree.root(), "n = {}", n);
    }
}

#[test]
fn root_is_deterministic_and_binds_leaves() {
    let leaves = sample_leaves(9);
    let s = as_slices(&leaves);
    assert_eq!(hash_from_byte_slices(&s), hash_from_byte_slices(&s));
    let mut changed = leaves.clone();
    changed[4][0] ^= 1;
    assert_ne!(hash_from_byte_slices(&s), hash_from_byte_slices(&as_slices(&changed)));
    let mut swapped = leaves.clone();
    swapped.swap(0, 1);
    assert_ne!(hash_from_byte_slices(&s), hash_from_byte_slices(&as_slices(&swapped)));
    assert_ne!(hash_from_byte_slices(&s), hash_from_byte_slices(&s[..8]));
}

#[test]
fn every_proof_verifies_against_the_root() {
    for n in 1..40 {
        let leaves = sample_leaves(n);
        let s = as_slices(&leaves);
        let (root, proofs) = proofs_from_byte_slices(&s);
        assert_eq!(root, hash_from_byte_slices(&s));
        assert_eq!(proofs.len(), n);
        for (i, p) in proofs.iter().enumerate() {
            assert_eq!(p.index, i as i64);
            assert_eq!(p.total, n as i64);
            assert_eq!(p.leaf_hash, leaf_hash(&leaves[i]));
            let depth = if n == 1 { 0 } else { (n as u64).next_power_of_two().trailing_zeros() as usize };
            assert!(p.aunts.len() <= depth);
            assert!(p.verify(root));
            assert_eq!(
                compute_hash_from_aunts(p.index, p.total, p.leaf_hash, p.aunts.clone()).unwrap(),
                root
            );
        }
    }
}

#[test]
fn proof_aunts_of_a_four_leaf_tree() {
    let leaves = sample_leaves(4);
    let s = as_slices(&leaves);
    let (_, proofs) = proofs_from_byte_slices(&s);
    let h: Vec<[u8; 32]> = leaves.iter().map(|l| leaf_hash(l)).collect();
    assert_eq!(proofs[0].aunts, vec![h[1], inner_hash(&h[2], &h[3])]);
    assert_eq!(proofs[3].aunts, vec![h[2], inner_hash(&h[0], &h[1])]);
}

#[test]
fn altered_proofs_do_not_verify() {
    let leaves = sample_leaves(11);
    let s = as_slices(&leaves);
    let (root, proofs) = proofs_from_byte_slices(&s);
    for p in &proofs {
        for byte in [0usize, 17, 31] {
            let mut leaf = p.leaf_hash;
            leaf[byte] ^= 0x10;
            let q = Proof { total: p.total, index: p.index, leaf_hash: leaf, aunts: p.aunts.clone() };
            assert!(!q.verify(root));
            for a in 0..p.aunts.len() {
                let mut aunts = p.aunts.clone();
                aunts[a][byte] ^= 0x01;
                let q = Proof { total: p.total, index: p.index, leaf_hash: p.leaf_hash, aunts };
                assert!(!q.verify(root));
            }
        }
        for bit in 0..4 {
            let q = Proof {
                total: p.total,
                index: p.index ^ (1 << bit),
                leaf_hash: p.leaf_hash,
                aunts: p.aunts.clone(),
            };
            assert!(!q.verify(root));
        }
    }
}

#[test]
fn malformed_proofs_give_errors() {
    let leaf = [3u8; 32];
    assert_eq!(compute_hash_from_aunts(-1, 4, leaf, vec![[0; 32]; 2]), Err(TreeError::IndexError));
    assert_eq!(compute_hash_from_aunts(4, 4, leaf, vec![[0; 32]; 2]), Err(TreeError::IndexError));
    assert_eq!(compute_hash_from_aunts(0, 0, leaf, vec![]), Err(TreeError::IndexError));
    assert_eq!(compute_hash_from_aunts(0, 1, leaf, vec![[0; 32]]), Err(TreeError::TotalInnerHashMismatch));
    assert_eq!(compute_hash_from_aunts(0, 1, leaf, vec![]), Ok(leaf));
    assert_eq!(compute_hash_from_aunts(1, 4, leaf, vec![[0; 32]]), Err(TreeError::ExpectedInnerHash));
    assert_eq!(compute_hash_from_aunts(1, 2, leaf, vec![]), Err(TreeError::ExpectedInnerHash));
    let p = Proof { total: 4, index: 9, leaf_hash: leaf, aunts: vec![] };
    assert!(!p.verify(leaf));
}

#[test]
fn degenerate_trees() {
    let none: Vec<&[u8]> = vec![];
    assert_eq!(hash_from_byte_slices(&none), empty_hash());
    let (root, proofs) = proofs_from_byte_slices(&none);
    assert_eq!(root, empty_hash());
    assert!(proofs.is_empty());
    let t = trails_from_byte_slices(&none);
    assert!(t.leaves.is_empty());
    assert_eq!(t.nodes[t.root].hash, empty_hash());

    let one: Vec<&[u8]> = vec![b"only"];
    assert_eq!(hash_from_byte_slices(&one), leaf_hash(b"only"));
    let (root, proofs) = proofs_from_byte_slices(&one);
    assert_eq!(root, leaf_hash(b"only"));
    assert_eq!(proofs.len(), 1);
    assert!(proofs[0].aunts.is_empty());
    assert!(proofs[0].verify(root));
}

#[test]
fn trails_link_each_leaf_to_the_root() {
    let leaves = sample_leaves(6);
    let s = as_slices(&leaves);
    let t = trails_from_byte_slices(&s);
    let (root, proofs) = proofs_from_byte_slices(&s);
    assert_eq!(t.nodes[t.root].hash, root);
    assert!(t.nodes[t.root].parent.is_none());
    assert_eq!(t.leaves.len(), 6);
    for (i, &x) in t.leaves.iter().enumerate() {
        let node = t.nodes[x];
        assert_eq!(node.hash, leaf_hash(&leaves[i]));
        assert_eq!(node.flatten_aunts(&t.nodes), proofs[i].aunts);
        let mut top = x;
        while let Some(p) = t.nodes[top].parent {
            assert!(p > top);
            top = p;
        }
        assert_eq!(top, t.root);
    }
    let r = t.nodes[t.root];
    assert!(r.left.is_none() && r.right.is_none());
    for (j, n) in t.nodes.iter().enumerate() {
        if j == t.root {
            continue;
        }
        let p = n.parent.expect("every node but the root has a parent");
        match (n.left, n.right) {
            (Some(s), None) => {
                assert_eq!(t.nodes[s].right, Some(j));
                assert_eq!(t.nodes[s].parent, Some(p));
                assert_eq!(t.nodes[p].hash, inner_hash(&t.nodes[s].hash, &n.hash));
            }
            (None, Some(s)) => {
                assert_eq!(t.nodes[s].left, Some(j));
                assert_eq!(t.nodes[s].parent, Some(p));
                assert_eq!(t.nodes[p].hash, inner_hash(&n.hash, &t.nodes[s].hash));
            }
            _ => panic!("a node with a parent has exactly one sibling"),
        }
    }
    let mut ids = t.leaves.clone();
    ids.sort();
    ids.dedup();
    assert_eq!(ids.len(), 6);
}

#[test]
fn one_leaf_trail_is_the_root() {
    let one: Vec<&[u8]> = vec![b"x"];
    let t = trails_from_byte_slices(&one);
    assert_eq!(t.leaves, vec![t.root]);
    let r = t.nodes[t.root];
    assert_eq!(r.hash, leaf_hash(b"x"));
    assert!(r.parent.is_none() && r.left.is_none() && r.right.is_none());
    assert!(r.flatten_aunts(&t.nodes).is_empty());
}

#[test]
fn range_check_accepts_the_exact_run() {
    let leaves = sample_leaves(10);
    let s = as_slices(&leaves);
    let root = hash_from_byte_slices(&s);
    for _ in 0..3 {
        assert!(verify_range(&root, &s, &s[3..7], 3, 7));
    }
    assert!(verify_range(&root, &s, &s[0..10], 0, 10));
    assert!(verify_range(&root, &s, &s[5..5], 5, 5));
}

#[test]
fn range_check_refuses_permuted_or_misplaced_runs() {
    let leaves = sample_leaves(10);
    let s = as_slices(&leaves);
    let root = hash_from_byte_slices(&s);
    let mut permuted: Vec<&[u8]> = s[3..7].to_vec();
    permuted.swap(1, 2);
    assert!(!verify_range(&root, &s, &permuted, 3, 7));
    permuted.reverse();
    assert!(!verify_range(&root, &s, &permuted, 3, 7));
    assert!(!verify_range(&root, &s, &s[3..7], 4, 8));
    assert!(!verify_range(&root, &s, &s[3..7], 3, 6));
    assert!(!verify_range(&root, &s, &s[3..7], 7, 3));
    assert!(!verify_range(&root, &s, &s[8..10], 8, 11));
    let mut bad_root = root;
    bad_root[0] ^= 1;
    assert!(!verify_range(&bad_root, &s, &s[3..7], 3, 7));
}

#[test]
fn sibling_rows_share_their_upper_path() {
    let leaves: Vec<Vec<u8>> = (0..1024u32).map(|i| i.to_be_bytes().repeat(8)).collect();
    let s = as_slices(&leaves);
    let (root, proofs) = proofs_from_byte_slices(&s);
    assert!(proofs[4].verify(root) && proofs[5].verify(root));
    assert_eq!(proofs[4].aunts.len(), 10);
    assert_eq!(proofs[5].aunts.len(), 10);
    assert_eq!(proofs[4].aunts[0], leaf_hash(&leaves[5]));
    assert_eq!(proofs[5].aunts[0], leaf_hash(&leaves[4]));
    assert_eq!(proofs[4].aunts[1..], proofs[5].aunts[1..]);
    let mut altered = leaves[4].clone();
    altered[3] ^= 1;
    let forged = Proof { total: 1024, index: 4, leaf_hash: leaf_hash(&altered), aunts: proofs[4].aunts.clone() };
    assert!(!forged.verify(root));
}
