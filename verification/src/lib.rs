//! A Merkle-authenticated AVL tree: a height-balanced in-memory key-value
//! dictionary in which every subtree carries a content digest derived from
//! its key, value, and the digests of its children. Besides point insert,
//! delete and lookup, it produces compact inclusion proofs that a party
//! holding only a trusted root digest can check without the full dataset.

use vstd::prelude::*;

pub mod digest;
pub mod node;
pub mod merkle_proof;

pub use node::MerkleAvlTree;
pub use node::Node;
pub use merkle_proof::ProofNode;

verus! {

/// The digest width: every subtree summary is a single 64-bit value.
pub type HashType = u64;

/// Keys are totally ordered machine integers.
pub type Key = i32;

/// Values are opaque string payloads.
pub type Value = String;

/// The two failure kinds of the dictionary.
///
/// `NotFound` is returned by `lookup` and `delete` when the requested key is
/// absent; a failed `delete` leaves the tree untouched. `InvalidProof` is
/// returned by proof verification when the recomputed digest mismatches the
/// trusted root digest, or when a structurally matching proof carries no
/// terminal leaf entry to return.
#[derive(Debug, PartialEq, Clone)]
pub enum Error {
    NotFound,
    InvalidProof,
}

/// A client-side description of one dictionary operation.
#[derive(Debug, PartialEq, Clone)]
pub enum Operation {
    Insert(Key, Value),
    Delete(Key),
    Lookup(Key),
}

} // verus!
