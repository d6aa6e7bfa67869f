//! Estimators for the reset rate of a compounding Bernoulli process.
//!
//! A run is a sequence of Bernoulli steps whose success probability starts at a
//! base probability `p` and is multiplied by `p` after every success; the first
//! failure ends the run. The reset rate is the long-run fraction of steps that
//! end a run, the reciprocal of the expected run length.
//!
//! All arithmetic is on integers: probabilities are fractions with 53 binary
//! digits, the resolution of a uniform draw, every product of two of them is
//! rounded down to such a fraction, and every estimate is a ratio of
//! integers. What the rounding costs is bounded in the module `exact`.
pub mod calibrate;
pub mod closed_form;
pub mod exact;
pub mod frac;
pub mod monte_carlo;
pub mod ratio;
pub mod run;
pub mod source;
