//! An append-only incremental Merkle accumulator of fixed height over
//! 32-byte Keccak-256 digests.
pub mod digest;
pub mod model;
pub mod tree;
