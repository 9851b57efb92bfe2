//! A counted multiset of 64-bit integer keys with additive set algebra.

pub mod counted_set;
pub mod laws;

mod entry;
mod merge;
mod rank;
