//! A dynamic hash accumulator: a forest of perfect Merkle trees that commits
//! to a set of 32-byte leaf hashes through a handful of roots.
pub mod accumulator;
