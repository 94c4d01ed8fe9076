//! Tropical geometry: the combinatorial core of max-plus algebra.
//!
//! Tropical addition is `max` and tropical multiplication is `+`. This crate
//! holds the parts of tropical geometry that are exact and integral: lattice
//! points and Newton polytopes, the exponent structure of tropical
//! polynomials, the graph structure of tropical curves, permutation
//! enumeration for tropical determinants, ranks and intersection counts.
//! Each function states what it returns in its contract.

pub mod semiring;
pub mod polynomial;
pub mod newton;
pub mod curves;
pub mod intersection;
pub mod optimization;
pub mod linear_algebra;
pub mod rank;
mod bigint;
