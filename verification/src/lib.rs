//! An incremental Merkle frontier: a compact accumulator that accepts note
//! commitments one at a time, recomputes the current root on demand by padding
//! with empty-subtree hashes, and serializes its state in two wire formats.

pub mod bits;
pub mod hash;
pub mod frontier;
pub mod codec;
pub mod legacy;
pub mod domain;
