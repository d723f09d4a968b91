//! Where a blob's shares fall in the data square, and the check that the
//! blob is included under a block's data root.
use crate::merkle::{leaves_of, merkle_root};
use crate::namespaced::{blob_shares, row_proof_holds, shares_of, verify_row_shares};
use crate::range::verify_range;
use vstd::prelude::*;
use vstd::slice::slice_subrange;

verus! {

/// Size in bytes of one share.
pub const SHARE_SIZE: usize = 512;

/// The rows of the square that a blob's shares occupy, first and last included.
#[derive(Clone, Copy, Debug, PartialEq, Eq, Structural)]
pub struct BlobPlacement {
    pub first_row_index: usize,
    pub last_row_index: usize,
}

/// Why a blob is not shown to be included.
#[derive(Clone, Copy, Debug, PartialEq, Eq, Structural)]
pub enum InclusionError {
    /// The square has rows of width zero.
    ZeroWidth,
    /// The payload cannot be cut into shares of the namespace.
    InvalidBlob,
    /// The blob has no shares.
    EmptyBlob,
    /// The blob's shares run past the last row of the square.
    BlobOutsideSquare,
    /// The number of row proofs is not the number of rows the blob spans.
    ProofCountMismatch,
    /// The tree over the row and column roots does not have the data root.
    RootMismatch,
    /// The namespaced proof of this row of the square failed; it is the first that did.
    RowVerificationFailed(usize),
}

/// The number of shares that a payload of `payload_len` bytes fills.
pub open spec fn share_count_of(payload_len: nat, share_size: nat) -> nat
    recommends
        share_size > 0,
{
    if payload_len % share_size == 0 {
        payload_len / share_size
    } else {
        payload_len / share_size + 1
    }
}

/// The number of shares that a payload of `payload_len` bytes fills, the last
/// one possibly in part.
pub fn blob_share_count(payload_len: usize, share_size: usize) -> (r: usize)
    requires
        share_size > 0,
    ensures
        r == share_count_of(payload_len as nat, share_size as nat),
{
    let whole = payload_len / share_size;
    if payload_len % share_size == 0 {
        whole
    } else {
        proof {
            assert(whole * share_size <= payload_len) by (nonlinear_arith)
                requires
                    whole == payload_len / share_size,
                    share_size > 0,
            ;
            assert(whole < payload_len) by (nonlinear_arith)
                requires
                    whole * share_size <= payload_len,
                    share_size > 0,
                    payload_len % share_size != 0,
                    whole == payload_len / share_size,
            ;
        }
        whole + 1
    }
}

/// The row of the first share of a blob that starts at `share_index`.
pub open spec fn first_row_of(share_index: nat, width: nat) -> nat
    recommends
        width > 0,
{
    share_index / width
}

/// The row of the last share of a blob of `blob_size` shares that starts at
/// `share_index`.
pub open spec fn last_row_of(share_index: nat, blob_size: nat, width: nat) -> nat
    recommends
        width > 0,
        blob_size > 0,
{
    ((share_index + blob_size - 1) as nat) / width
}

/// The placement of a blob, or why it has none.
pub open spec fn placement_of(share_index: nat, blob_size: nat, width: nat) -> Result<
    BlobPlacement,
    InclusionError,
> {
    if width == 0 {
        Err(InclusionError::ZeroWidth)
    } else if blob_size == 0 {
        Err(InclusionError::EmptyBlob)
    } else {
        Ok(
            BlobPlacement {
                first_row_index: first_row_of(share_index, width) as usize,
                last_row_index: last_row_of(share_index, blob_size, width) as usize,
            },
        )
    }
}

/// The rows spanned by a blob of `blob_size` shares starting at share
/// `share_index` of a square whose rows hold `width` shares.
pub fn blob_placement(share_index: usize, blob_size: usize, width: usize) -> (r: Result<
    BlobPlacement,
    InclusionError,
>)
    requires
        share_index + blob_size <= usize::MAX,
    ensures
        r == placement_of(share_index as nat, blob_size as nat, width as nat),
{
    if width == 0 {
        return Err(InclusionError::ZeroWidth);
    }
    if blob_size == 0 {
        return Err(InclusionError::EmptyBlob);
    }
    Ok(
        BlobPlacement {
            first_row_index: share_index / width,
            last_row_index: (share_index + blob_size - 1) / width,
        },
    )
}

/// Offset, within the blob, of its first share that lies in row `row`.
pub open spec fn row_share_start(share_index: int, width: int, row: int) -> int {
    if row * width <= share_index {
        0
    } else {
        row * width - share_index
    }
}

/// Offset, within the blob, just past its last share that lies in row `row`.
pub open spec fn row_share_end(share_index: int, blob_size: int, width: int, row: int) -> int {
    if share_index + blob_size <= (row + 1) * width {
        blob_size
    } else {
        (row + 1) * width - share_index
    }
}

proof fn lemma_row_of(x: int, w: int)
    requires
        x >= 0,
        w > 0,
    ensures
        (x / w) * w <= x < (x / w) * w + w,
        (x / w + 1) * w == (x / w) * w + w,
{
    vstd::arithmetic::div_mod::lemma_fundamental_div_mod(x, w);
    assert((x / w) * w == w * (x / w)) by (nonlinear_arith);
    assert((x / w + 1) * w == (x / w) * w + w) by (nonlinear_arith);
}

proof fn lemma_mul_le(a: int, b: int, w: int)
    requires
        a <= b,
        w >= 0,
    ensures
        a * w <= b * w,
        (a + 1) * w == a * w + w,
{
    assert(a * w <= b * w) by (nonlinear_arith)
        requires
            a <= b,
            w >= 0,
    ;
    assert((a + 1) * w == a * w + w) by (nonlinear_arith);
}

/// The shares of a blob, taken row by row, are split into consecutive
/// non-empty runs of at most `width` shares that begin at the blob's first
/// share and end at its last: each share lies in exactly one spanned row.
pub proof fn lemma_row_runs_tile(share_index: nat, blob_size: nat, width: nat)
    requires
        width > 0,
        blob_size > 0,
    ensures
        row_share_start(
            share_index as int,
            width as int,
            first_row_of(share_index, width) as int,
        ) == 0,
        row_share_end(
            share_index as int,
            blob_size as int,
            width as int,
            last_row_of(share_index, blob_size, width) as int,
        ) == blob_size,
        forall|row: int|
            first_row_of(share_index, width) <= row < last_row_of(share_index, blob_size, width)
                ==> #[trigger] row_share_end(share_index as int, blob_size as int, width as int, row)
                == row_share_start(share_index as int, width as int, row + 1),
        forall|row: int|
            first_row_of(share_index, width) <= row <= last_row_of(share_index, blob_size, width)
                ==> {
                let s = row_share_start(share_index as int, width as int, row);
                let e = #[trigger] row_share_end(share_index as int, blob_size as int, width as int, row);
                0 <= s < e <= blob_size && e - s <= width
            },
{
    let si = share_index as int;
    let bs = blob_size as int;
    let w = width as int;
    let first = first_row_of(share_index, width) as int;
    let last = last_row_of(share_index, blob_size, width) as int;
    lemma_row_of(si, w);
    lemma_row_of(si + bs - 1, w);
    vstd::arithmetic::div_mod::lemma_div_is_ordered(si, si + bs - 1, w);
    assert forall|row: int| first <= row < last implies #[trigger] row_share_end(si, bs, w, row)
        == row_share_start(si, w, row + 1) by {
        lemma_mul_le(row + 1, last, w);
        lemma_mul_le(row, last, w);
        lemma_mul_le(first, row, w);
    }
    assert forall|row: int| first <= row <= last implies {
        let s = row_share_start(si, w, row);
        let e = #[trigger] row_share_end(si, bs, w, row);
        0 <= s < e <= bs && e - s <= w
    } by {
        lemma_mul_le(row, last, w);
        lemma_mul_le(first, row, w);
    }
}

/// For each row that a blob spans, first to last, the offsets within the blob
/// of its shares that lie in that row: from the first included to the last
/// excluded.
pub fn row_share_ranges(share_index: usize, blob_size: usize, width: usize) -> (r: Vec<
    (usize, usize),
>)
    requires
        width > 0,
        blob_size > 0,
        share_index + blob_size <= usize::MAX,
    ensures
        r@.len() == last_row_of(share_index as nat, blob_size as nat, width as nat) - first_row_of(
            share_index as nat,
            width as nat,
        ) + 1,
        forall|j: int|
            0 <= j < r@.len() ==> {
                let row = first_row_of(share_index as nat, width as nat) + j;
                &&& (#[trigger] r@[j]).0 == row_share_start(share_index as int, width as int, row)
                &&& r@[j].1 == row_share_end(
                    share_index as int,
                    blob_size as int,
                    width as int,
                    row,
                )
            },
{
    let first = share_index / width;
    let last = (share_index + blob_size - 1) / width;
    let end_abs = share_index + blob_size;
    proof {
        lemma_row_of(share_index as int, width as int);
        lemma_row_of((share_index + blob_size - 1) as int, width as int);
        vstd::arithmetic::div_mod::lemma_div_is_ordered(
            share_index as int,
            (share_index + blob_size - 1) as int,
            width as int,
        );
        assert(last <= last * width) by (nonlinear_arith)
            requires
                width >= 1,
        ;
    }
    let mut out: Vec<(usize, usize)> = Vec::new();
    let mut row = first;
    while row <= last
        invariant
            first == share_index / width,
            last == ((share_index + blob_size - 1) as int) / (width as int),
            end_abs == share_index + blob_size,
            width > 0,
            first <= last,
            last < usize::MAX,
            first * width <= share_index,
            last * width <= share_index + blob_size - 1,
            first <= row <= last + 1,
            out@.len() == row - first,
            forall|j: int|
                0 <= j < out@.len() ==> {
                    let rw = first + j;
                    &&& (#[trigger] out@[j]).0 == row_share_start(
                        share_index as int,
                        width as int,
                        rw,
                    )
                    &&& out@[j].1 == row_share_end(
                        share_index as int,
                        blob_size as int,
                        width as int,
                        rw,
                    )
                },
        decreases last + 1 - row,
    {
        proof {
            lemma_mul_le(row as int, last as int, width as int);
            lemma_mul_le(first as int, row as int, width as int);
            lemma_row_of(share_index as int, width as int);
        }
        let row_lo = row * width;
        let start = if row_lo <= share_index {
            0
        } else {
            row_lo - share_index
        };
        let end = if end_abs - row_lo <= width {
            blob_size
        } else {
            row_lo + width - share_index
        };
        out.push((start, end));
        row = row + 1;
    }
    out
}

/// A blob that fills exactly one row, starting at the row's first share,
/// spans that row alone.
pub proof fn lemma_full_row_blob_spans_one_row(share_index: nat, width: nat)
    requires
        width > 0,
        share_index % width == 0,
    ensures
        first_row_of(share_index, width) == last_row_of(share_index, width, width),
{
    let si = share_index as int;
    let w = width as int;
    let q = si / w;
    vstd::arithmetic::div_mod::lemma_fundamental_div_mod(si, w);
    vstd::arithmetic::div_mod::lemma_div_multiples_vanish_fancy(q, w - 1, w);
    assert(si + w - 1 == w * q + (w - 1));
}

/// The first position whose result is `false`, or `None` when all are `true`.
pub fn first_failing_row(results: &[bool]) -> (r: Option<usize>)
    ensures
        r is None ==> forall|j: int| 0 <= j < results@.len() ==> results@[j],
        r is Some ==> {
            let i = r->Some_0 as int;
            &&& 0 <= i < results@.len()
            &&& !results@[i]
            &&& forall|j: int| 0 <= j < i ==> results@[j]
        },
{
    let mut i: usize = 0;
    while i < results.len()
        invariant
            0 <= i <= results@.len(),
            forall|j: int| 0 <= j < i ==> results@[j],
        decreases results@.len() - i,
    {
        if !results[i] {
            return Some(i);
        }
        i = i + 1;
    }
    None
}

/// The verdict on a blob once each spanned row has been checked: included
/// when every row's result is `true`, else refused at the first row whose
/// result is `false`, counted in the square.
pub fn row_verdict(placement: BlobPlacement, results: &[bool]) -> (r: Result<
    BlobPlacement,
    InclusionError,
>)
    requires
        placement.first_row_index + results@.len() <= usize::MAX,
    ensures
        r is Ok <==> forall|j: int| 0 <= j < results@.len() ==> results@[j],
        r is Ok ==> r == Ok::<BlobPlacement, InclusionError>(placement),
        r is Err ==> exists|i: int|
            0 <= i < results@.len() && !results@[i] && (forall|j: int| 0 <= j < i ==> results@[j])
                && r == Err::<BlobPlacement, InclusionError>(
                InclusionError::RowVerificationFailed((placement.first_row_index + i) as usize),
            ),
{
    match first_failing_row(results) {
        Some(i) => Err(InclusionError::RowVerificationFailed(placement.first_row_index + i)),
        None => Ok(placement),
    }
}

/// The outcome of the checks on a blob that come before its rows' proofs:
/// its placement, that it lies in the square, one proof per spanned row, and
/// that the row and column roots have the data root.
pub open spec fn precheck(
    data_root: [u8; 32],
    rows: Seq<Seq<u8>>,
    cols: Seq<Seq<u8>>,
    share_index: nat,
    blob_size: nat,
    width: nat,
    proof_count: nat,
) -> Result<BlobPlacement, InclusionError> {
    match placement_of(share_index, blob_size, width) {
        Err(e) => Err(e),
        Ok(p) => if p.last_row_index >= rows.len() {
            Err(InclusionError::BlobOutsideSquare)
        } else if proof_count != p.last_row_index - p.first_row_index + 1 {
            Err(InclusionError::ProofCountMismatch)
        } else if merkle_root(rows + cols) != data_root {
            Err(InclusionError::RootMismatch)
        } else {
            Ok(p)
        },
    }
}

/// Whether the `j`-th row proof places the blob's run of shares that lies in
/// row `first + j` of the square under that row's root.
pub open spec fn row_holds(
    proofs: Seq<celestia_types::nmt::NamespaceProof>,
    rows: Seq<Seq<u8>>,
    shares: Seq<Seq<u8>>,
    namespace: Seq<u8>,
    share_index: nat,
    width: nat,
    first: nat,
    j: int,
) -> bool {
    let row = first + j;
    row_proof_holds(
        proofs[j],
        rows[row],
        shares.subrange(
            row_share_start(share_index as int, width as int, row),
            row_share_end(share_index as int, shares.len() as int, width as int, row),
        ),
        namespace,
    )
}

/// The outcome of each row proof, for the rows from `first` on.
pub open spec fn row_results(
    proofs: Seq<celestia_types::nmt::NamespaceProof>,
    rows: Seq<Seq<u8>>,
    shares: Seq<Seq<u8>>,
    namespace: Seq<u8>,
    share_index: nat,
    width: nat,
    first: nat,
) -> Seq<bool> {
    Seq::new(
        proofs.len(),
        |j: int| row_holds(proofs, rows, shares, namespace, share_index, width, first, j),
    )
}

/// `r` is the verdict on a blob: the error of the checks made before the
/// rows' proofs where they fail; where they pass, the placement when every
/// row's result is `true`, else the failure of the first row whose result is
/// `false`, counted in the square.
pub open spec fn outcome_follows(
    r: Result<BlobPlacement, InclusionError>,
    pre: Result<BlobPlacement, InclusionError>,
    results: Seq<bool>,
) -> bool {
    &&& pre is Err ==> r == pre
    &&& pre is Ok ==> {
        &&& r is Ok <==> forall|j: int| 0 <= j < results.len() ==> results[j]
        &&& r is Ok ==> r == pre
        &&& r is Err ==> exists|i: int|
            0 <= i < results.len() && !results[i] && (forall|j: int| 0 <= j < i ==> results[j])
                && r == Err::<BlobPlacement, InclusionError>(
                InclusionError::RowVerificationFailed((pre->Ok_0.first_row_index + i) as usize),
            )
    }
}

/// The row roots followed by the column roots: the leaves of the data root's tree.
fn header_leaves<'a>(rows: &[&'a [u8]], cols: &[&'a [u8]]) -> (r: Vec<&'a [u8]>)
    ensures
        leaves_of(r@) == leaves_of(rows@) + leaves_of(cols@),
{
    let mut out: Vec<&'a [u8]> = Vec::new();
    let mut i: usize = 0;
    while i < rows.len()
        invariant
            0 <= i <= rows@.len(),
            out@.len() == i,
            leaves_of(out@) =~= leaves_of(rows@).subrange(0, i as int),
        decreases rows@.len() - i,
    {
        let ghost before = out@;
        let v = rows[i];
        out.push(v);
        assert(out@ == before.push(v));
        assert(leaves_of(out@)[i as int] == rows@[i as int]@);
        assert(forall|k: int| 0 <= k < i ==> leaves_of(out@)[k] == leaves_of(before)[k]);
        i = i + 1;
        assert(leaves_of(out@) =~= leaves_of(rows@).subrange(0, i as int));
    }
    let mut j: usize = 0;
    while j < cols.len()
        invariant
            0 <= j <= cols@.len(),
            out@.len() == rows@.len() + j,
            leaves_of(out@) =~= leaves_of(rows@) + leaves_of(cols@).subrange(0, j as int),
        decreases cols@.len() - j,
    {
        let ghost before = out@;
        let v = cols[j];
        out.push(v);
        assert(out@ == before.push(v));
        assert(leaves_of(out@)[before.len() as int] == cols@[j as int]@);
        assert(leaves_of(cols@)[j as int] == cols@[j as int]@);
        assert(leaves_of(rows@).len() == rows@.len());
        assert(forall|k: int| 0 <= k < before.len() ==> leaves_of(out@)[k] == leaves_of(before)[k]);
        let ghost target = leaves_of(rows@) + leaves_of(cols@).subrange(0, j + 1);
        assert forall|k: int| 0 <= k < target.len() implies leaves_of(out@)[k] == target[k] by {
            if k < before.len() {
                assert(leaves_of(before)[k] == (leaves_of(rows@) + leaves_of(cols@).subrange(
                    0,
                    j as int,
                ))[k]);
            }
        }
        assert(leaves_of(out@) =~= target);
        j = j + 1;
    }
    assert(leaves_of(cols@).subrange(0, cols@.len() as int) =~= leaves_of(cols@));
    out
}

/// Whether a blob of `shares`, starting at share `share_index` of a square
/// whose rows hold `width` shares, is included under `data_root`. The tree
/// over the row and column roots must have the data root, the spanned row
/// roots must be the leaves at their positions under it, and each spanned
/// row's proof must place that row's run of the blob's shares of `namespace`
/// under the row's root; the first row whose proof fails is reported.
pub fn verify_blob_inclusion(
    data_root: &[u8; 32],
    row_roots: &[&[u8]],
    column_roots: &[&[u8]],
    namespace: &[u8],
    share_index: usize,
    shares: &[&[u8]],
    width: usize,
    proofs: &[celestia_types::nmt::NamespaceProof],
) -> (r: Result<BlobPlacement, InclusionError>)
    requires
        share_index + shares@.len() <= usize::MAX,
    ensures
        outcome_follows(
            r,
            precheck(
                *data_root,
                leaves_of(row_roots@),
                leaves_of(column_roots@),
                share_index as nat,
                shares@.len(),
                width as nat,
                proofs@.len(),
            ),
            row_results(
                proofs@,
                leaves_of(row_roots@),
                leaves_of(shares@),
                namespace@,
                share_index as nat,
                width as nat,
                share_index as nat / width as nat,
            ),
        ),
{
    let ghost rows = leaves_of(row_roots@);
    let ghost cols = leaves_of(column_roots@);
    let placement = match blob_placement(share_index, shares.len(), width) {
        Ok(p) => p,
        Err(e) => {
            return Err(e);
        },
    };
    let first = placement.first_row_index;
    let last = placement.last_row_index;
    proof {
        vstd::arithmetic::div_mod::lemma_div_is_ordered(
            share_index as int,
            (share_index + shares@.len() - 1) as int,
            width as int,
        );
    }
    if last >= row_roots.len() {
        return Err(InclusionError::BlobOutsideSquare);
    }
    if proofs.len() != last - first + 1 {
        return Err(InclusionError::ProofCountMismatch);
    }
    proof {
        lemma_row_runs_tile(share_index as nat, shares@.len(), width as nat);
    }
    let leaves = header_leaves(row_roots, column_roots);
    let spanned = slice_subrange(row_roots, first, last + 1);
    proof {
        assert(leaves_of(spanned@) =~= leaves_of(leaves@).subrange(first as int, last + 1));
    }
    if !verify_range(data_root, leaves.as_slice(), spanned, first, last + 1) {
        return Err(InclusionError::RootMismatch);
    }
    let ranges = row_share_ranges(share_index, shares.len(), width);
    let mut results: Vec<bool> = Vec::new();
    let mut j: usize = 0;
    while j < ranges.len()
        invariant
            ranges@.len() == last - first + 1,
            proofs@.len() == ranges@.len(),
            first == first_row_of(share_index as nat, width as nat),
            last == last_row_of(share_index as nat, shares@.len(), width as nat),
            last < row_roots@.len(),
            width > 0,
            shares@.len() > 0,
            forall|k: int|
                first_row_of(share_index as nat, width as nat) <= k <= last_row_of(
                    share_index as nat,
                    shares@.len(),
                    width as nat,
                ) ==> {
                    let s = row_share_start(share_index as int, width as int, k);
                    let e = #[trigger] row_share_end(
                        share_index as int,
                        shares@.len() as int,
                        width as int,
                        k,
                    );
                    0 <= s < e <= shares@.len() && e - s <= width
                },
            forall|k: int|
                0 <= k < ranges@.len() ==> {
                    let row = first_row_of(share_index as nat, width as nat) + k;
                    &&& (#[trigger] ranges@[k]).0 == row_share_start(
                        share_index as int,
                        width as int,
                        row,
                    )
                    &&& ranges@[k].1 == row_share_end(
                        share_index as int,
                        shares@.len() as int,
                        width as int,
                        row,
                    )
                },
            0 <= j <= ranges@.len(),
            results@.len() == j,
            forall|k: int|
                0 <= k < j ==> #[trigger] results@[k] == row_holds(
                    proofs@,
                    leaves_of(row_roots@),
                    leaves_of(shares@),
                    namespace@,
                    share_index as nat,
                    width as nat,
                    first as nat,
                    k,
                ),
        decreases ranges@.len() - j,
    {
        let (s, e) = ranges[j];
        proof {
            let row = first + j;
            assert(row_share_end(share_index as int, shares@.len() as int, width as int, row) == e);
        }
        let run = slice_subrange(shares, s, e);
        proof {
            assert(leaves_of(run@) =~= leaves_of(shares@).subrange(s as int, e as int));
            assert(leaves_of(row_roots@)[first + j] == row_roots@[first + j]@);
        }
        let ok = verify_row_shares(&proofs[j], row_roots[first + j], run, namespace);
        results.push(ok);
        j = j + 1;
    }
    let ghost want = row_results(
        proofs@,
        leaves_of(row_roots@),
        leaves_of(shares@),
        namespace@,
        share_index as nat,
        width as nat,
        first as nat,
    );
    assert(results@ =~= want);
    row_verdict(placement, results.as_slice())
}

/// Whether a blob of `payload` bytes in `namespace`, starting at share
/// `share_index`, is included under `data_root`: the payload is cut into
/// shares, and those shares are checked as `verify_blob_inclusion` does.
pub fn verify_payload_inclusion(
    data_root: &[u8; 32],
    row_roots: &[&[u8]],
    column_roots: &[&[u8]],
    namespace: &[u8],
    share_index: usize,
    payload: &[u8],
    width: usize,
    proofs: &[celestia_types::nmt::NamespaceProof],
) -> (r: Result<BlobPlacement, InclusionError>)
    ensures
        shares_of(namespace@, payload@) is None ==> r == Err::<BlobPlacement, InclusionError>(
            InclusionError::InvalidBlob,
        ),
        shares_of(namespace@, payload@) is Some ==> {
            let n = shares_of(namespace@, payload@)->Some_0.len();
            &&& share_index + n > usize::MAX ==> r == Err::<BlobPlacement, InclusionError>(
                InclusionError::BlobOutsideSquare,
            )
            &&& share_index + n <= usize::MAX ==> outcome_follows(
                r,
                precheck(
                    *data_root,
                    leaves_of(row_roots@),
                    leaves_of(column_roots@),
                    share_index as nat,
                    n,
                    width as nat,
                    proofs@.len(),
                ),
                row_results(
                    proofs@,
                    leaves_of(row_roots@),
                    shares_of(namespace@, payload@)->Some_0,
                    namespace@,
                    share_index as nat,
                    width as nat,
                    share_index as nat / width as nat,
                ),
            )
        },
{
    let owned = match blob_shares(namespace, payload) {
        Some(v) => v,
        None => {
            return Err(InclusionError::InvalidBlob);
        },
    };
    let ghost whole = owned@.map_values(|x: Vec<u8>| x@);
    if owned.len() > usize::MAX - share_index {
        return Err(InclusionError::BlobOutsideSquare);
    }
    let mut shares: Vec<&[u8]> = Vec::new();
    let mut i: usize = 0;
    while i < owned.len()
        invariant
            whole == owned@.map_values(|x: Vec<u8>| x@),
            0 <= i <= owned@.len(),
            shares@.len() == i,
            forall|k: int| 0 <= k < i ==> (#[trigger] shares@[k])@ == owned@[k]@,
        decreases owned@.len() - i,
    {
        shares.push(owned[i].as_slice());
        i = i + 1;
    }
    assert(leaves_of(shares@) =~= whole);
    verify_blob_inclusion(
        data_root,
        row_roots,
        column_roots,
        namespace,
        share_index,
        shares.as_slice(),
        width,
        proofs,
    )
}

} // verus!
