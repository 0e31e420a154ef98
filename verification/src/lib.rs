//! Rotation-canonical representations of fixed-length DNA k-mers.
//!
//! A k-mer of K bases is packed two bits per base into a `u64`. The crate
//! computes reverse complements and canonical forms, reduces the canonical
//! (2K-1)-bit word to its necklace (minimal rotation), maintains that
//! necklace incrementally under a rolling window, and partitions sorted
//! integer sequences to minimize a piecewise Elias-Fano encoding cost.

pub mod kmer;
pub mod lyndon;
pub mod necklace;
pub mod partition;
pub mod utils;
