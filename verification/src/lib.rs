//! A tiered commitment tree: an append-only Merkle accumulator of note
//! commitments, arranged by epoch and block, whose proofs of membership and
//! whose pruning are computed step by step as blocks arrive.
//!
//! Every tier is a quaternary tree eight levels deep. A block holds
//! commitments, an epoch holds blocks, and the tree as a whole holds epochs.

pub mod error;
pub mod hash;
pub mod leaf;
pub mod merkle;
pub mod node;
pub mod tier;
pub mod complete;
pub mod tree;
pub mod chain;
pub mod crypto;
pub mod stake;
pub mod sync;
