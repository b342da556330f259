//! Route cache for a branch/architecture-structured package repository.
//!
//! The library keeps an in-memory index of branches, architectures and
//! versions synchronized from an object-store key listing, orders versions
//! under a total dotted-identifier ordering, and answers structural queries.

use vstd::prelude::*;

pub mod cache;
pub mod config;
pub mod index;
pub mod keys;
pub mod laws;
pub mod shared;
pub mod split;
pub mod version;

verus! {

/// Outcome of a three-way comparison.
#[derive(Clone, Copy, Debug, PartialEq, Eq, Structural)]
pub enum Cmp {
    Lt,
    Eq,
    Gt,
}

impl Cmp {
    /// The opposite outcome: swapping the compared values flips `Lt` and `Gt`.
    pub open spec fn spec_flip(self) -> Cmp {
        match self {
            Cmp::Lt => Cmp::Gt,
            Cmp::Eq => Cmp::Eq,
            Cmp::Gt => Cmp::Lt,
        }
    }
}

} // verus!
