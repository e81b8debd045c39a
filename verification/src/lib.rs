//! A rainbow table: a precomputed endpoint-to-seed store for reversing a
//! truncated hash over a bounded plaintext space by chained hash-reduce
//! walks, with sequential and parallel generation, merge-tolerant lookup
//! and a two-field persistence format.

pub mod args;
pub mod bignum;
pub mod chain;
pub mod codec;
pub mod hashing;
pub mod laws;
pub mod numeral;
pub mod reduction;
pub mod store;
pub mod table;
mod strutil;
