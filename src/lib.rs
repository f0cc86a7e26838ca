//! A Merkle Mountain Range: an append-only accumulator of digests whose root authenticates every
//! element appended to it, with compact inclusion and range proofs checked by position arithmetic.

use vstd::prelude::*;

pub mod completeness;
pub mod hashing;
pub mod peaks;
pub mod mem;
pub mod verification;

verus! {
} // verus!
