//! An authenticated dictionary: a bilinear-pairing dynamic accumulator over
//! BLS12-381 together with an accumulator-augmented binomial Merkle forest.
//!
//! The forest maps string keys to sets of document identifiers and answers
//! queries with combined proofs: a Merkle path plus an accumulator
//! (non-)membership witness, verifiable from the public parameters alone.

use vstd::prelude::*;

pub mod accumulator;
pub mod bytestr;
pub mod group;
pub mod hashes;
pub mod keyset;
pub mod laws;
pub mod merkle;
pub mod node;
pub mod params;
pub mod poly;
pub mod proofs;
pub mod response;
pub mod scalar;
pub mod tree;

verus! {

/// Errors surfaced at the library boundary.
#[derive(Debug, Clone, Copy, PartialEq, Eq, Structural)]
pub enum Error {
    /// Public parameters were not supplied where required; here parameters
    /// travel by value, so only a caller-side store can raise this.
    ParamsUninitialized,
    /// A polynomial degree exceeds what the public parameters support.
    ParamsOutOfRange,
    /// A Bezout identity was requested for polynomials that are not coprime.
    NotCoprime,
    /// A trapdoor operation met an element equal to the trapdoor.
    TrapdoorCollision,
    /// The requested key is not present.
    KeyNotPresent,
    /// The requested document identifier is not present.
    FidNotPresent,
    /// A byte string does not decode to the expected shape.
    SerializationError,
}

} // verus!
