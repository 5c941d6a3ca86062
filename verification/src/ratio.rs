//! Non-negative rational numbers, kept as a numerator and a denominator.

use vstd::prelude::*;

verus! {

/// The number `num / den`. A ratio that the library returns has `den > 0`.
#[derive(Clone, Copy, Debug, PartialEq, Eq)]
pub struct Ratio {
    pub num: u128,
    pub den: u128,
}

} // verus!
