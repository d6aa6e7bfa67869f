//! Exact ratios of counts.
use vstd::prelude::*;

verus! {

/// The rational number `num / den`.
///
/// A ratio with `den == 0` has no finite value: an estimate asked of no data.
#[derive(Clone, Copy, Debug, PartialEq, Eq)]
pub struct Ratio {
    pub num: u128,
    pub den: u128,
}

} // verus!
