//! The namespaced proof that a row of the square holds a run of shares.
use crate::merkle::leaves_of;
use vstd::prelude::*;

verus! {

/// A proof, for one row of the square, that a run of shares of one namespace
/// lies under the row's namespaced root. Its content is not read here.
#[verifier::external_type_specification]
#[verifier::external_body]
pub struct ExNamespaceProof(celestia_types::nmt::NamespaceProof);

/// Whether `proof` places `shares`, as a contiguous run of leaves of the
/// namespace with raw bytes `namespace`, under the namespaced root with raw
/// bytes `row_root`.
pub uninterp spec fn row_proof_holds(
    proof: celestia_types::nmt::NamespaceProof,
    row_root: Seq<u8>,
    shares: Seq<Seq<u8>>,
    namespace: Seq<u8>,
) -> bool;

/// Relies on celestia_types::nmt::NamespaceProof::verify_range: whether the
/// proof places `shares`, as a contiguous run of leaves of `namespace`, under
/// the namespaced row root `row_root`. The root is read from its raw bytes by
/// nmt_rs's `TryFrom<&[u8]>` for `NamespacedHash`, the namespace by
/// `Namespace::from_raw`; bytes that read as neither give `false`. The
/// outcome depends on the four arguments alone.
#[verifier::external_body]
pub(crate) fn verify_row_shares(
    proof: &celestia_types::nmt::NamespaceProof,
    row_root: &[u8],
    shares: &[&[u8]],
    namespace: &[u8],
) -> (r: bool)
    ensures
        r == row_proof_holds(*proof, row_root@, leaves_of(shares@), namespace@),
{
    let root = match celestia_types::nmt::NamespacedHash::try_from(row_root) {
        Ok(h) => h,
        Err(_) => return false,
    };
    let ns = match celestia_types::nmt::Namespace::from_raw(namespace) {
        Ok(n) => n,
        Err(_) => return false,
    };
    proof.verify_range(&root, shares, ns.into()).is_ok()
}

/// The shares, as bytes, that a blob of `payload` in the namespace whose raw
/// bytes are `namespace` is cut into; `None` where no such blob can be made.
pub uninterp spec fn shares_of(namespace: Seq<u8>, payload: Seq<u8>) -> Option<Seq<Seq<u8>>>;

/// Relies on celestia_types::Blob::to_shares: the shares that a blob is cut
/// into, which depend on its namespace and payload alone. The namespace is
/// read by `Namespace::from_raw` and the blob made by `Blob::new` without a
/// signer; a failure of either, or of the cutting, gives `None`.
#[verifier::external_body]
pub(crate) fn blob_shares(namespace: &[u8], payload: &[u8]) -> (r: Option<Vec<Vec<u8>>>)
    ensures
        r is None <==> shares_of(namespace@, payload@) is None,
        r is Some ==> shares_of(namespace@, payload@) == Some(
            r->Some_0@.map_values(|x: Vec<u8>| x@),
        ),
{
    let ns = celestia_types::nmt::Namespace::from_raw(namespace).ok()?;
    let blob = celestia_types::Blob::new(ns, payload.to_vec(), None).ok()?;
    let shares = blob.to_shares().ok()?;
    Some(shares.iter().map(|share| share.data().to_vec()).collect())
}

} // verus!
