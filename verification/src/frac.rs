//! Fractions of one with 53 binary digits.
use vstd::prelude::*;

verus! {

/// The denominator of every [`Frac`]: `2^53`.
pub const SCALE: u64 = 9_007_199_254_740_992;

/// The product of two fractions, given by their numerators over [`SCALE`] and
/// rounded down to a multiple of `1 / SCALE`.
pub open spec fn fmul(a: int, b: int) -> int {
    a * b / (SCALE as int)
}

/// The `k`-th power of the fraction `p / SCALE`, each product rounded down.
pub open spec fn fpow(p: int, k: nat) -> int
    decreases k,
{
    if k == 0 {
        SCALE as int
    } else {
        fmul(fpow(p, (k - 1) as nat), p)
    }
}

/// A number in `[0, 1]`: the value `raw / SCALE`.
#[derive(Clone, Copy, Debug, PartialEq, Eq)]
pub struct Frac {
    raw: u64,
}

impl View for Frac {
    type V = int;

    /// The numerator over [`SCALE`].
    closed spec fn view(&self) -> int {
        self.raw as int
    }
}

impl Frac {
    /// Every fraction lies in the unit interval.
    #[verifier::type_invariant]
    pub open spec fn in_unit_interval(self) -> bool {
        0 <= self@ <= SCALE
    }

    /// The number zero.
    pub fn zero() -> (r: Frac)
        ensures
            r@ == 0,
    {
        Frac { raw: 0 }
    }

    /// The number one.
    pub fn one() -> (r: Frac)
        ensures
            r@ == SCALE,
    {
        Frac { raw: SCALE }
    }

    /// The fraction `raw / SCALE`, if that is at most one.
    pub fn new(raw: u64) -> (r: Option<Frac>)
        ensures
            match r {
                Some(f) => raw <= SCALE && f@ == raw,
                None => raw > SCALE,
            },
    {
        if raw <= SCALE {
            Some(Frac { raw })
        } else {
            None
        }
    }

    /// The numerator over [`SCALE`].
    pub fn raw(&self) -> (r: u64)
        ensures
            r == self@,
            r <= SCALE,
    {
        proof {
            use_type_invariant(self);
        }
        self.raw
    }

    /// What this fraction lacks of one.
    pub fn complement(&self) -> (r: Frac)
        ensures
            r@ == SCALE - self@,
    {
        proof {
            use_type_invariant(self);
        }
        Frac { raw: SCALE - self.raw }
    }

    /// The point halfway between two fractions, rounded down.
    pub fn midpoint(&self, other: &Frac) -> (r: Frac)
        ensures
            r@ == (self@ + other@) / 2,
    {
        proof {
            use_type_invariant(self);
            use_type_invariant(other);
        }
        Frac { raw: (self.raw + other.raw) / 2 }
    }

    /// The product, rounded down.
    pub fn mul(&self, other: &Frac) -> (r: Frac)
        ensures
            r@ == fmul(self@, other@),
    {
        proof {
            use_type_invariant(self);
            use_type_invariant(other);
            lemma_fmul_bounds(self.raw as int, other.raw as int);
        }
        let wide: u128 = (self.raw as u128) * (other.raw as u128);
        let q: u128 = wide / (SCALE as u128);
        Frac { raw: q as u64 }
    }
}

/// A product of two fractions is a fraction, and no larger than either factor.
pub proof fn lemma_fmul_bounds(a: int, b: int)
    requires
        0 <= a <= SCALE,
        0 <= b <= SCALE,
    ensures
        0 <= a * b <= SCALE * SCALE,
        0 <= fmul(a, b) <= a,
        fmul(a, b) <= b,
{
    let s = SCALE as int;
    assert(0 <= a * b <= s * s) by (nonlinear_arith)
        requires
            0 <= a <= s,
            0 <= b <= s,
    ;
    assert(a * b <= a * s && a * b <= s * b) by (nonlinear_arith)
        requires
            0 <= a <= s,
            0 <= b <= s,
    ;
    assert(0 <= (a * b) / s <= a && (a * b) / s <= b) by (nonlinear_arith)
        requires
            0 <= a * b,
            a * b <= a * s,
            a * b <= s * b,
            0 <= a,
            0 <= b,
            s > 0,
    ;
}

/// The first power of a fraction is the fraction itself.
pub proof fn lemma_fpow_one(p: int)
    ensures
        fpow(p, 1) == p,
{
    reveal_with_fuel(fpow, 2);
    assert((SCALE as int) * p / (SCALE as int) == p) by (nonlinear_arith);
}

/// The powers of a fraction are fractions.
pub proof fn lemma_fpow_bounds(p: int, k: nat)
    requires
        0 <= p <= SCALE,
    ensures
        0 <= fpow(p, k) <= SCALE,
        k >= 1 ==> fpow(p, k) <= p,
    decreases k,
{
    if k > 0 {
        lemma_fpow_bounds(p, (k - 1) as nat);
        lemma_fmul_bounds(fpow(p, (k - 1) as nat), p);
    }
}

/// Within a run the probability of success falls from step to step, for as
/// long as it is positive, if the base probability is below one.
pub proof fn lemma_fpow_decreases(p: int, k: nat)
    requires
        0 <= p < SCALE,
    ensures
        fpow(p, k + 1) <= fpow(p, k),
        fpow(p, k) > 0 ==> fpow(p, k + 1) < fpow(p, k),
{
    lemma_fpow_bounds(p, k);
    let x = fpow(p, k);
    let s = SCALE as int;
    assert(fpow(p, k + 1) == x * p / s);
    if x > 0 {
        assert(x * p / s < x) by (nonlinear_arith)
            requires
                0 < x,
                0 <= p < s,
        ;
    } else {
        assert(x * p / s == 0) by (nonlinear_arith)
            requires
                x == 0,
                s > 0,
        ;
    }
}

} // verus!
