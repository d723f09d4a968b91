//! Inclusion of application data ("blobs") under the data root of an
//! erasure-coded data square.
//!
//! The library holds a balanced binary Merkle tree over byte leaves, with
//! inclusion proofs and contiguous range checks, and the placement of a blob's
//! shares over the rows of the square, chained to the row roots and the data root.
pub mod hashing;
pub mod merkle;
pub mod trails;
pub mod range;
pub mod blob;
pub mod namespaced;
