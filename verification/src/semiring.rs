//! The tropical semiring interface.
//!
//! Tropical addition is `max` and tropical multiplication is ordinary `+`;
//! the additive identity is `-∞` and the multiplicative identity is `0`.
//! Types that carry tropical arithmetic implement `TropicalOps`; the
//! polynomial operations of this crate combine coefficients through it.
use vstd::prelude::*;

verus! {

/// Types that support tropical arithmetic.
pub trait TropicalOps: Clone {
    /// Tropical addition (`max`).
    fn tropical_add(&self, other: &Self) -> Self;

    /// Tropical multiplication (ordinary addition).
    fn tropical_mul(&self, other: &Self) -> Self;

    /// The additive identity (`-∞`).
    fn tropical_zero() -> Self;

    /// The multiplicative identity (`0`).
    fn tropical_one() -> Self;
}

} // verus!
