//! Self-contained algorithmic primitives: a fixed-capacity circular sample
//! window, a sorted deduplicated index, a prime sieve, a dense row-major
//! matrix multiplier, and two pure text scanners (slug normalization and
//! email-pattern extraction).

use vstd::prelude::*;

pub mod fmt;
pub mod hashing;
pub mod matrix;
pub mod parallel;
pub mod primes;
pub mod ring_buffer;
pub mod sorted_set;
pub mod text;

verus! {

/// The single error kind of this library: an argument that fails the
/// validation a constructor or entry point performs before any work begins.
#[derive(Clone, Copy, PartialEq, Eq, Structural, Debug)]
pub enum Error {
    InvalidArgument,
}

} // verus!
