//! The inclusion-proof structure and its digest fold.
//!
//! A proof is a snapshot of the root-to-target search path, independent of
//! the live tree once produced. Each step on the path records the traversed
//! node's key, value and the digest of its untraversed child (where one
//! exists), so that a verifier can recompute every digest on the path from
//! the proof alone — minimal Merkle-path style. The terminal `Leaf` records
//! the target's key and value together with the digests of its children
//! (where present), so a proof for a node that has children folds to that
//! node's own digest. A path that runs out before matching ends in `Empty`,
//! an absence marker: it folds to a fixed sentinel, which gives no real
//! assurance of absence, and verification rejects any proof without a leaf.

use vstd::prelude::*;

use crate::digest;
use crate::HashType;
use crate::Key;
use crate::Value;

verus! {

/// One root-to-target search path, as recorded by proof generation.
///
/// `Left(k, v, dr, rest)`: the path went left at a node with key `k`, value
/// `v` and right-child digest `dr` (absent where the node has no right
/// child); `rest` continues toward the target. `Right(rest, k, v, dl)` is
/// symmetric for going right. `Leaf(k, v, dl, dr)`: the path terminated at
/// the matching key `k` with value `v`, whose children (where present) have
/// digests `dl` and `dr`. `Empty`: the path was exhausted without a match.
#[derive(Debug, PartialEq)]
pub enum ProofNode {
    Left(Key, Value, Option<HashType>, Box<ProofNode>),
    Right(Box<ProofNode>, Key, Value, Option<HashType>),
    Leaf(Key, Value, Option<HashType>, Option<HashType>),
    Empty,
}

impl ProofNode {
    /// The digest this proof folds to, recomputed from the proof alone.
    pub open spec fn digest(self) -> u64
        decreases self,
    {
        match self {
            ProofNode::Left(k, v, dr, rest) => digest::combine(
                k,
                digest::value_bytes(v@),
                Some(rest.digest()),
                dr,
            ),
            ProofNode::Right(rest, k, v, dl) => digest::combine(
                k,
                digest::value_bytes(v@),
                dl,
                Some(rest.digest()),
            ),
            ProofNode::Leaf(k, v, dl, dr) => digest::combine(k, digest::value_bytes(v@), dl, dr),
            ProofNode::Empty => digest::EMPTY_DIGEST,
        }
    }

    /// The (key, value) entry at the end of the path, if the path found one.
    pub open spec fn leaf_entry(self) -> Option<(Key, Value)>
        decreases self,
    {
        match self {
            ProofNode::Left(_, _, _, rest) => rest.leaf_entry(),
            ProofNode::Right(rest, _, _, _) => rest.leaf_entry(),
            ProofNode::Leaf(k, v, _, _) => Some((k, v)),
            ProofNode::Empty => None,
        }
    }

    /// Folds the proof into a digest, recursively, exactly as `digest` says.
    pub fn hash(&self) -> (h: HashType)
        ensures
            h == self.digest(),
        decreases *self,
    {
        match self {
            ProofNode::Left(k, v, dr, rest) => {
                let d = rest.hash();
                digest::combine_hash(*k, v, Some(d), *dr)
            },
            ProofNode::Right(rest, k, v, dl) => {
                let d = rest.hash();
                digest::combine_hash(*k, v, *dl, Some(d))
            },
            ProofNode::Leaf(k, v, dl, dr) => digest::combine_hash(*k, v, *dl, *dr),
            ProofNode::Empty => digest::EMPTY_DIGEST,
        }
    }

    /// The embedded leaf's key and value, or `None` for an absence path.
    pub fn key_value(&self) -> (r: Option<(&Key, &Value)>)
        ensures
            match r {
                Some(kv) => self.leaf_entry() == Some((*kv.0, *kv.1)),
                None => self.leaf_entry() is None,
            },
        decreases *self,
    {
        match self {
            ProofNode::Left(_, _, _, rest) => rest.key_value(),
            ProofNode::Right(rest, _, _, _) => rest.key_value(),
            ProofNode::Leaf(k, v, _, _) => Some((k, v)),
            ProofNode::Empty => None,
        }
    }
}

} // verus!
