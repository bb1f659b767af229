//! Search for kernel elements of the Burau representation over Z/pZ:
//! sequences of generators whose matrices, 3x3 over the Laurent polynomials
//! with coefficients in Z/pZ, multiply to a matrix of projective length 1.
//!
//! - `algebra`: sparse polynomials and matrices of them.
//! - `garside`: the 22 generators, their action on a matrix, and which of
//!   them may follow which.
//! - `state`: a sequence of generators with the matrix that it reaches.
//! - `buckets`, `frontier`: the states that wait to be expanded, in buckets
//!   by projective length.
//! - `search`: the bounded best-first search, which expands its batches on a
//!   pool of workers.
//! - `laws`: what holds of every sequence that a search holds or finds.
//! - `strategies`, `random`: other ways to search.

pub mod algebra;
pub mod buckets;
pub mod frontier;
pub mod garside;
pub mod laws;
pub mod random;
pub mod search;
pub mod state;
pub mod strategies;
