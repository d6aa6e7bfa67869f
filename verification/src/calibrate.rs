//! Calibration: the base probability that gives a wanted reset rate.
use crate::closed_form::{lemma_series_by_parts, series, sim_closed};
use crate::frac::{Frac, SCALE};
use vstd::prelude::*;

verus! {

/// The truncation bound at which the calibrator evaluates the closed form.
pub const CALIBRATION_TERMS: u64 = 5000;

/// The denominator of the closed-form rate that the calibrator sees at the
/// base probability `p / SCALE`.
pub open spec fn objective(p: int) -> int {
    series(p, CALIBRATION_TERMS as nat)
}

/// Whether the rate `SCALE / den` is less than `target / SCALE`.
pub open spec fn rate_below(den: int, target: int) -> bool {
    SCALE * SCALE < target * den
}

/// Whether the rate `SCALE / den` differs from `target / SCALE` by at most
/// `eps / SCALE`. A rate with `den == 0` is within reach of no target.
pub open spec fn rate_within(den: int, target: int, eps: int) -> bool {
    -(eps * den) <= SCALE * SCALE - target * den <= eps * den
}

/// The bounds of the search after `i` probes, none of which met the
/// tolerance. The rate falls as the base probability rises, so a rate below
/// the target moves the upper bound down to the probe, and any other rate
/// moves the lower bound up to it.
pub open spec fn bracket(target: int, i: nat) -> (int, int)
    decreases i,
{
    if i == 0 {
        (0, SCALE as int)
    } else {
        let (lo, hi) = bracket(target, (i - 1) as nat);
        let mid = (lo + hi) / 2;
        if rate_below(objective(mid), target) {
            (lo, mid)
        } else {
            (mid, hi)
        }
    }
}

/// The base probability of probe number `i`, counting from zero: the middle
/// of the bounds that the probes before it left.
pub open spec fn probe(target: int, i: nat) -> int {
    (bracket(target, i).0 + bracket(target, i).1) / 2
}

/// Whether the rate at probe number `i` is within `eps / SCALE` of the
/// target.
pub open spec fn probe_hits(target: int, eps: int, i: nat) -> bool {
    rate_within(objective(probe(target, i)), target, eps)
}

/// The base probability that a search gives back when none of its `n` probes
/// met the tolerance: the last one probed, or zero if there was none.
pub open spec fn last_probe(target: int, n: nat) -> int {
    if n == 0 {
        0
    } else {
        probe(target, (n - 1) as nat)
    }
}

/// The largest denominator that the closed form gives at the calibrator's
/// truncation bound.
pub const OBJECTIVE_LIMIT: u128 = 45_026_989_074_450_219_008;

/// The square of [`SCALE`].
const SCALE_SQUARED: u128 = 81_129_638_414_606_681_695_789_005_144_064;

/// The two constants are what their names say.
proof fn lemma_constants()
    ensures
        SCALE * SCALE == SCALE_SQUARED,
        (CALIBRATION_TERMS - 1) * SCALE == OBJECTIVE_LIMIT,
        SCALE * OBJECTIVE_LIMIT <= u128::MAX,
{
    assert(9_007_199_254_740_992int * 9_007_199_254_740_992int
        == 81_129_638_414_606_681_695_789_005_144_064int) by (nonlinear_arith);
    assert(4999int * 9_007_199_254_740_992int == 45_026_989_074_450_219_008int)
        by (nonlinear_arith);
    assert(9_007_199_254_740_992int * 45_026_989_074_450_219_008int
        <= 0xffff_ffff_ffff_ffff_ffff_ffff_ffff_ffffint) by (nonlinear_arith);
}

/// Compares the rate `SCALE / den` with the target.
fn is_rate_below(den: u128, target: &Frac) -> (b: bool)
    requires
        den <= OBJECTIVE_LIMIT,
    ensures
        b == rate_below(den as int, target@),
{
    let t = target.raw();
    proof {
        lemma_constants();
    }
    assert(t * den <= SCALE * OBJECTIVE_LIMIT) by (nonlinear_arith)
        requires
            0 <= t <= SCALE,
            0 <= den <= OBJECTIVE_LIMIT,
    ;
    SCALE_SQUARED < (t as u128) * den
}

/// Tests the rate `SCALE / den` against the target and the tolerance.
fn is_rate_within(den: u128, target: &Frac, eps: &Frac) -> (b: bool)
    requires
        den <= OBJECTIVE_LIMIT,
    ensures
        b == rate_within(den as int, target@, eps@),
{
    let t = target.raw();
    let e = eps.raw();
    proof {
        lemma_constants();
    }
    assert(t * den <= SCALE * OBJECTIVE_LIMIT) by (nonlinear_arith)
        requires
            0 <= t <= SCALE,
            0 <= den <= OBJECTIVE_LIMIT,
    ;
    assert(0 <= e * den <= SCALE * OBJECTIVE_LIMIT) by (nonlinear_arith)
        requires
            0 <= e <= SCALE,
            0 <= den <= OBJECTIVE_LIMIT,
    ;
    let one: u128 = SCALE_SQUARED;
    let scaled: u128 = (t as u128) * den;
    let reach: u128 = (e as u128) * den;
    if one >= scaled {
        one - scaled <= reach
    } else {
        scaled - one <= reach
    }
}

/// Searches by bisection for the base probability at which the closed form
/// gives the reset rate `target`, to within `eps`, in at most `n` probes.
///
/// The search starts from the bounds zero and one and probes the middle of
/// its bounds. The first probe whose rate is within `eps` of the target is
/// the result, as `Ok`. When none of the `n` probes is, the result is the
/// last one probed, as `Err`.
pub fn find_p(target: Frac, n: u64, eps: Frac) -> (r: Result<Frac, Frac>)
    ensures
        match r {
            Ok(p) => exists|i: nat|
                i < n && p@ == probe(target@, i) && #[trigger] probe_hits(target@, eps@, i) && (
                forall|j: nat| j < i ==> !#[trigger] probe_hits(target@, eps@, j)),
            Err(p) => p@ == last_probe(target@, n as nat) && (forall|j: nat|
                j < n ==> !#[trigger] probe_hits(target@, eps@, j)),
        },
        r matches Ok(p) ==> rate_within(objective(p@), target@, eps@),
{
    let mut lo = Frac::zero();
    let mut hi = Frac::one();
    let mut mid = Frac::zero();
    let mut i: u64 = 0;
    while i < n
        invariant
            i <= n,
            (lo@, hi@) == bracket(target@, i as nat),
            mid@ == last_probe(target@, i as nat),
            forall|j: nat| j < i ==> !#[trigger] probe_hits(target@, eps@, j),
        decreases n - i,
    {
        mid = lo.midpoint(&hi);
        let rate = sim_closed(mid, CALIBRATION_TERMS);
        proof {
            use_type_invariant(&mid);
            lemma_series_by_parts(mid@, CALIBRATION_TERMS as nat);
            lemma_constants();
            assert(mid@ == probe(target@, i as nat));
        }
        if is_rate_within(rate.den, &target, &eps) {
            assert(probe_hits(target@, eps@, i as nat));
            return Ok(mid);
        }
        if is_rate_below(rate.den, &target) {
            hi = mid;
        } else {
            lo = mid;
        }
        i = i + 1;
    }
    Err(mid)
}

} // verus!
