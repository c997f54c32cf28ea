//! A fixed-depth, append-only, incrementally hashed binary Merkle tree.
//!
//! A prover commits to an ordered sequence of values, inserts them one at a
//! time in index order, and later proves that a given value occupies a given
//! position; a verifier checks such a proof against a declared root digest
//! without re-hashing the whole data set.

pub mod digest;
pub mod laws;
pub mod model;
pub mod tree;
