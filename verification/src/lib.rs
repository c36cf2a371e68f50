//! Witness complexes: landmark selection, witness and weak witness complexes,
//! persistent homology by boundary matrix reduction, and multi-scale analysis.
//!
//! Distances enter the library as *distance keys*: unsigned integers that order
//! exactly as the distances they stand for do. A zero distance has key `0` and
//! an infinite distance has key `u64::MAX`.
use vstd::prelude::*;

pub mod faces;
pub mod landmark;
pub mod witness;
pub mod persistence;
pub mod pairing;
pub mod components;
pub mod weak_witness;
pub mod scale;
pub mod counting;

verus! {

} // verus!
