use blob_inclusion::blob::{
    verify_payload_inclusion, blob_placement, blob_share_count, first_failing_row, row_share_ranges, row_verdict,
    verify_blob_inclusion, BlobPlacement, InclusionError, SHARE_SIZE,
};
use blob_inclusion::merkle::hash_from_byte_slices;
use celestia_types::nmt::{Namespace, NamespaceProof, NamespacedHashExt, Nmt, NmtExt};
use celestia_types::Blob;

#[test]
fn share_count_rounds_up() {
    assert_eq!(blob_share_count(0, SHARE_SIZE), 0);
    assert_eq!(blob_share_count(1, SHARE_SIZE), 1);
    assert_eq!(blob_share_count(512, SHARE_SIZE), 1);
    assert_eq!(blob_share_count(513, SHARE_SIZE), 2);
    assert_eq!(blob_share_count(5120, SHARE_SIZE), 10);
}

#[test]
fn placement_of_a_two_row_blob() {
    for size in 33..=64 {
        assert_eq!(
            blob_placement(128, size, 32),
            Ok(BlobPlacement { first_row_index: 4, last_row_index: 5 })
        );
    }
    assert_eq!(
        blob_placement(128, 65, 32),
        Ok(BlobPlacement { first_row_index: 4, last_row_index: 6 })
    );
}

#[test]
fn blob_filling_one_row_spans_one_row() {
    for w in [1usize, 4, 32, 64] {
        for row in 0..5usize {
            let p = blob_placement(row * w, w, w).unwrap();
            assert_eq!(p.first_row_index, p.last_row_index);
            assert_eq!(p.first_row_index, row);
        }
    }
}

#[test]
fn placement_errors() {
    assert_eq!(blob_placement(3, 4, 0), Err(InclusionError::ZeroWidth));
    assert_eq!(blob_placement(3, 0, 8), Err(InclusionError::EmptyBlob));
}

#[test]
fn row_runs_cover_the_blob() {
    assert_eq!(row_share_ranges(40, 70, 32), vec![(0, 24), (24, 56), (56, 70)]);
    assert_eq!(row_share_ranges(128, 40, 32), vec![(0, 32), (32, 40)]);
    assert_eq!(row_share_ranges(130, 2, 32), vec![(0, 2)]);
    assert_eq!(row_share_ranges(64, 32, 32), vec![(0, 32)]);
    for si in 0..70usize {
        for bs in 1..100usize {
            let runs = row_share_ranges(si, bs, 16);
            let p = blob_placement(si, bs, 16).unwrap();
            assert_eq!(runs.len(), p.last_row_index - p.first_row_index + 1);
            assert_eq!(runs[0].0, 0);
            assert_eq!(runs[runs.len() - 1].1, bs);
            let total: usize = runs.iter().map(|(s, e)| e - s).sum();
            assert_eq!(total, bs);
            for w in runs.windows(2) {
                assert_eq!(w[0].1, w[1].0);
            }
        }
    }
}

#[test]
fn first_failing_row_and_verdict() {
    assert_eq!(first_failing_row(&[]), None);
    assert_eq!(first_failing_row(&[true, true]), None);
    assert_eq!(first_failing_row(&[true, false, false]), Some(1));
    let p = BlobPlacement { first_row_index: 4, last_row_index: 6 };
    assert_eq!(row_verdict(p, &[true, true, true]), Ok(p));
    assert_eq!(row_verdict(p, &[true, false, false]), Err(InclusionError::RowVerificationFailed(5)));
    assert_eq!(row_verdict(p, &[false, true, true]), Err(InclusionError::RowVerificationFailed(4)));
}

const ODS_WIDTH: usize = 32;

struct Square {
    namespace: Namespace,
    row_roots: Vec<Vec<u8>>,
    column_roots: Vec<Vec<u8>>,
    data_root: [u8; 32],
    shares: Vec<Vec<u8>>,
    proofs: Vec<NamespaceProof>,
}

fn share_of(namespace: &Namespace, tag: u8, i: usize) -> Vec<u8> {
    let mut share = namespace.as_bytes().to_vec();
    while share.len() < SHARE_SIZE {
        share.push(tag ^ (i as u8) ^ (share.len() as u8));
    }
    share
}

/// A square whose rows each hold `2 * ODS_WIDTH` shares, with a blob of
/// `blob_size` shares starting at `share_index`, and a namespaced proof for
/// each row the blob spans.
fn build_square(share_index: usize, blob_size: usize) -> Square {
    let namespace = Namespace::new_v0(&[1, 2, 3, 4, 5]).unwrap();
    let shares: Vec<Vec<u8>> = (0..blob_size).map(|i| share_of(&namespace, 0x5a, i)).collect();
    build_square_with(share_index, shares)
}

fn build_square_with(share_index: usize, shares: Vec<Vec<u8>>) -> Square {
    let blob_size = shares.len();
    let namespace = Namespace::new_v0(&[1, 2, 3, 4, 5]).unwrap();
    let low = Namespace::new_v0(&[1]).unwrap();
    let high = Namespace::new_v0(&[9; 10]).unwrap();
    let row_len = 2 * ODS_WIDTH;
    let mut row_roots = Vec::new();
    let mut proofs = Vec::new();
    for row in 0..row_len {
        let mut nmt = Nmt::default();
        let mut blob_positions = Vec::new();
        for col in 0..row_len {
            let pos = row * ODS_WIDTH + col;
            if col < ODS_WIDTH && pos >= share_index && pos < share_index + blob_size {
                nmt.push_leaf(&shares[pos - share_index], namespace.into()).unwrap();
                blob_positions.push(col);
            } else if col < ODS_WIDTH && pos < share_index {
                nmt.push_leaf(&share_of(&low, 1, col), low.into()).unwrap();
            } else {
                nmt.push_leaf(&share_of(&high, 2, col), high.into()).unwrap();
            }
        }
        row_roots.push(nmt.root().to_array().to_vec());
        if let (Some(&s), Some(&e)) = (blob_positions.first(), blob_positions.last()) {
            let (_, proof) = nmt.get_range_with_proof(s..e + 1);
            proofs.push(NamespaceProof::from(proof));
        }
    }
    let column_roots: Vec<Vec<u8>> = (0..row_len).map(|c| vec![c as u8; 90]).collect();
    let all: Vec<&[u8]> = row_roots.iter().chain(column_roots.iter()).map(|r| r.as_slice()).collect();
    let data_root = hash_from_byte_slices(&all);
    Square { namespace, row_roots, column_roots, data_root, shares, proofs }
}

fn check(sq: &Square, shares: &[Vec<u8>], share_index: usize) -> Result<BlobPlacement, InclusionError> {
    let rows: Vec<&[u8]> = sq.row_roots.iter().map(|r| r.as_slice()).collect();
    let cols: Vec<&[u8]> = sq.column_roots.iter().map(|r| r.as_slice()).collect();
    let sh: Vec<&[u8]> = shares.iter().map(|r| r.as_slice()).collect();
    verify_blob_inclusion(
        &sq.data_root,
        &rows,
        &cols,
        sq.namespace.as_bytes(),
        share_index,
        &sh,
        ODS_WIDTH,
        &sq.proofs,
    )
}

#[test]
fn two_row_blob_is_included() {
    let sq = build_square(128, 40);
    assert_eq!(sq.row_roots.len() + sq.column_roots.len(), 128);
    assert_eq!(sq.proofs.len(), 2);
    assert_eq!(
        check(&sq, &sq.shares, 128),
        Ok(BlobPlacement { first_row_index: 4, last_row_index: 5 })
    );
}

#[test]
fn altered_share_byte_is_refused() {
    let sq = build_square(128, 40);
    let mut shares = sq.shares.clone();
    shares[3][100] ^= 1;
    assert_eq!(check(&sq, &shares, 128), Err(InclusionError::RowVerificationFailed(4)));
    let mut shares = sq.shares.clone();
    shares[39][511] ^= 0x80;
    assert_eq!(check(&sq, &shares, 128), Err(InclusionError::RowVerificationFailed(5)));
}

#[test]
fn blob_filling_one_row_is_included() {
    let sq = build_square(64, 32);
    assert_eq!(sq.proofs.len(), 1);
    assert_eq!(
        check(&sq, &sq.shares, 64),
        Ok(BlobPlacement { first_row_index: 2, last_row_index: 2 })
    );
}

#[test]
fn inclusion_errors() {
    let sq = build_square(128, 40);
    let mut wrong_root = sq.data_root;
    wrong_root[5] ^= 1;
    let altered = Square {
        namespace: sq.namespace,
        row_roots: sq.row_roots.clone(),
        column_roots: sq.column_roots.clone(),
        data_root: wrong_root,
        shares: sq.shares.clone(),
        proofs: sq.proofs.clone(),
    };
    assert_eq!(check(&altered, &sq.shares, 128), Err(InclusionError::RootMismatch));
    assert_eq!(check(&sq, &sq.shares[..10], 128), Err(InclusionError::ProofCountMismatch));
    assert_eq!(check(&sq, &sq.shares, 64 * 32), Err(InclusionError::BlobOutsideSquare));
    assert_eq!(check(&sq, &[], 128), Err(InclusionError::EmptyBlob));
    assert_eq!(check(&sq, &sq.shares, 129), Err(InclusionError::RowVerificationFailed(4)));
}

fn check_payload(sq: &Square, namespace: &[u8], payload: &[u8], share_index: usize) -> Result<BlobPlacement, InclusionError> {
    let rows: Vec<&[u8]> = sq.row_roots.iter().map(|r| r.as_slice()).collect();
    let cols: Vec<&[u8]> = sq.column_roots.iter().map(|r| r.as_slice()).collect();
    verify_payload_inclusion(&sq.data_root, &rows, &cols, namespace, share_index, payload, ODS_WIDTH, &sq.proofs)
}

#[test]
fn payload_is_cut_into_shares_and_included() {
    let namespace = Namespace::new_v0(&[1, 2, 3, 4, 5]).unwrap();
    let payload: Vec<u8> = (0..20_000u32).map(|i| (i * 31 % 251) as u8).collect();
    let blob = Blob::new(namespace, payload.clone(), None).unwrap();
    let shares: Vec<Vec<u8>> = blob.to_shares().unwrap().iter().map(|s| s.data().to_vec()).collect();
    assert!(shares.len() > 32 && shares.len() <= 64);
    let sq = build_square_with(128, shares);
    assert_eq!(
        check_payload(&sq, namespace.as_bytes(), &payload, 128),
        Ok(BlobPlacement { first_row_index: 4, last_row_index: 5 })
    );
    let mut altered = payload.clone();
    altered[10] ^= 1;
    assert_eq!(
        check_payload(&sq, namespace.as_bytes(), &altered, 128),
        Err(InclusionError::RowVerificationFailed(4))
    );
    assert_eq!(check_payload(&sq, &[1, 2, 3], &payload, 128), Err(InclusionError::InvalidBlob));
}
