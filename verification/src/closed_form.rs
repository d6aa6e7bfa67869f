//! The reset rate in closed form: the reciprocal of a truncated series for
//! the expected length of a run.
use crate::frac::{
    fmul, fpow, lemma_fmul_bounds, lemma_fpow_bounds, lemma_fpow_one, Frac, SCALE,
};
use crate::ratio::Ratio;
use vstd::arithmetic::power::{
    lemma_pow0, lemma_pow1, lemma_pow_adds, lemma_pow_multiplies, lemma_pow_positive, pow,
};
use vstd::arithmetic::power2::{lemma2_to64, lemma2_to64_rest, lemma_pow2_unfold, pow2};
use vstd::prelude::*;

verus! {

/// The probability that a run reaches step `j`, as a numerator over
/// [`SCALE`]: the product of the first `j - 1` powers of `p / SCALE`, each
/// product rounded down.
pub open spec fn surv(p: int, j: nat) -> int
    decreases j,
{
    if j <= 1 {
        SCALE as int
    } else {
        fmul(surv(p, (j - 1) as nat), fpow(p, (j - 1) as nat))
    }
}

/// The probability that a run has exactly `j` steps, as a numerator over
/// [`SCALE`]: it reaches step `j` and not the next. This is the probability
/// of reaching step `j` times that of failing there, rounded up.
pub open spec fn len_prob(p: int, j: nat) -> int {
    surv(p, j) - surv(p, j + 1)
}

/// The expected length of a run, as a numerator over [`SCALE`], summed over
/// the lengths below `n`.
pub open spec fn series(p: int, n: nat) -> int
    decreases n,
{
    if n <= 1 {
        0
    } else {
        series(p, (n - 1) as nat) + (n - 1) * len_prob(p, (n - 1) as nat)
    }
}

/// The sum of the probabilities that a run reaches step `j`, for `j` below
/// `n`.
pub open spec fn surv_sum(p: int, n: nat) -> int
    decreases n,
{
    if n <= 1 {
        0
    } else {
        surv_sum(p, (n - 1) as nat) + surv(p, (n - 1) as nat)
    }
}

/// The probability of reaching a step is a fraction.
pub proof fn lemma_surv_bounds(p: int, j: nat)
    requires
        0 <= p <= SCALE,
    ensures
        0 <= surv(p, j) <= SCALE,
    decreases j,
{
    if j > 1 {
        lemma_surv_bounds(p, (j - 1) as nat);
        lemma_fpow_bounds(p, (j - 1) as nat);
        lemma_fmul_bounds(surv(p, (j - 1) as nat), fpow(p, (j - 1) as nat));
    }
}

/// The probability that a run has exactly `j` steps is the product of the
/// probability of reaching step `j` and that of failing there, rounded up
/// to a multiple of `1 / SCALE`. It is not negative.
pub proof fn lemma_len_prob_is_product(p: int, j: nat)
    requires
        0 <= p <= SCALE,
        j >= 1,
    ensures
        0 <= len_prob(p, j) <= SCALE,
        surv(p, j) * (SCALE - fpow(p, j)) <= SCALE * len_prob(p, j),
        SCALE * len_prob(p, j) < surv(p, j) * (SCALE - fpow(p, j)) + SCALE,
{
    lemma_surv_bounds(p, j);
    lemma_surv_bounds(p, j + 1);
    lemma_fpow_bounds(p, j);
    let q = surv(p, j);
    let x = fpow(p, j);
    let s = SCALE as int;
    let q1 = surv(p, j + 1);
    assert(q1 == fmul(q, x));
    lemma_fmul_bounds(q, x);
    assert(s * q1 <= q * x < s * q1 + s) by (nonlinear_arith)
        requires
            q1 == q * x / s,
            s > 0,
    ;
    assert(q * (s - x) == s * q - q * x) by (nonlinear_arith);
    assert(s * (q - q1) == s * q - s * q1) by (nonlinear_arith);
}

/// The series summed by parts: it is the sum of the probabilities of
/// reaching each step, less the weight of the step at which it is cut.
pub proof fn lemma_series_by_parts(p: int, n: nat)
    requires
        0 <= p <= SCALE,
        n >= 1,
    ensures
        series(p, n) + (n - 1) * surv(p, n) == surv_sum(p, n),
        0 <= series(p, n) <= surv_sum(p, n) <= (n - 1) * SCALE,
    decreases n,
{
    lemma_surv_bounds(p, n);
    assert(0 <= (n - 1) * surv(p, n)) by (nonlinear_arith)
        requires
            n >= 1,
            0 <= surv(p, n),
    ;
    if n > 1 {
        let m = (n - 1) as nat;
        lemma_series_by_parts(p, m);
        lemma_len_prob_is_product(p, m);
        lemma_surv_bounds(p, m);
        let h = len_prob(p, m);
        let q = surv(p, m);
        let q1 = surv(p, n);
        assert(m * h + m * q1 == m * q && 0 <= m * h) by (nonlinear_arith)
            requires
                h + q1 == q,
                0 <= h,
                0 <= m,
        ;
        assert((m - 1) * q + q == m * q) by (nonlinear_arith);
        assert((m - 1) * SCALE + SCALE == m * SCALE) by (nonlinear_arith);
    }
}

/// Rounding down keeps the order of products.
proof fn lemma_fmul_monotone(a: int, b: int, c: int, d: int)
    requires
        0 <= a <= c,
        0 <= b <= d,
    ensures
        fmul(a, b) <= fmul(c, d),
{
    let s = SCALE as int;
    assert(a * b <= c * d) by (nonlinear_arith)
        requires
            0 <= a <= c,
            0 <= b <= d,
    ;
    assert((a * b) / s <= (c * d) / s) by (nonlinear_arith)
        requires
            a * b <= c * d,
            s > 0,
    ;
}

/// A larger base probability has larger powers.
pub proof fn lemma_fpow_monotone(a: int, b: int, k: nat)
    requires
        0 <= a <= b <= SCALE,
    ensures
        fpow(a, k) <= fpow(b, k),
    decreases k,
{
    if k > 0 {
        lemma_fpow_monotone(a, b, (k - 1) as nat);
        lemma_fpow_bounds(a, (k - 1) as nat);
        lemma_fmul_monotone(fpow(a, (k - 1) as nat), a, fpow(b, (k - 1) as nat), b);
    }
}

/// A larger base probability makes every step more likely to be reached.
pub proof fn lemma_surv_monotone(a: int, b: int, j: nat)
    requires
        0 <= a <= b <= SCALE,
    ensures
        surv(a, j) <= surv(b, j),
    decreases j,
{
    if j > 1 {
        let i = (j - 1) as nat;
        lemma_surv_monotone(a, b, i);
        lemma_fpow_monotone(a, b, i);
        lemma_surv_bounds(a, i);
        lemma_fpow_bounds(a, i);
        lemma_fmul_monotone(surv(a, i), fpow(a, i), surv(b, i), fpow(b, i));
    }
}

/// The second step is reached with the base probability itself.
proof fn lemma_surv_two(p: int)
    ensures
        surv(p, 2) == p,
{
    lemma_fpow_one(p);
    reveal_with_fuel(surv, 2);
    assert((SCALE as int) * p / (SCALE as int) == p) by (nonlinear_arith);
}

/// A larger base probability has a larger sum of the probabilities of
/// reaching each step, by at least the difference of the two once the sum
/// includes the second step.
pub proof fn lemma_surv_sum_monotone(a: int, b: int, n: nat)
    requires
        0 <= a <= b <= SCALE,
    ensures
        surv_sum(a, n) <= surv_sum(b, n),
        n >= 3 ==> surv_sum(a, n) + (b - a) <= surv_sum(b, n),
    decreases n,
{
    if n > 1 {
        lemma_surv_sum_monotone(a, b, (n - 1) as nat);
        lemma_surv_monotone(a, b, (n - 1) as nat);
        if n == 3 {
            lemma_surv_two(a);
            lemma_surv_two(b);
        }
    }
}

/// A step that no run reaches adds nothing, and no run reaches a later one.
pub proof fn lemma_series_settles(p: int, m: nat, n: nat)
    requires
        0 <= p <= SCALE,
        1 <= m <= n,
        surv(p, m) == 0,
    ensures
        surv(p, n) == 0,
        series(p, n) == series(p, m),
    decreases n,
{
    if n > m {
        let i = (n - 1) as nat;
        lemma_series_settles(p, m, i);
        assert(0 * fpow(p, i) == 0 && 0 * (SCALE - fpow(p, i)) == 0) by (nonlinear_arith);
        assert(len_prob(p, i) == 0);
        assert((n - 1) * 0 == 0);
    }
}

/// Steps that no run reaches add nothing to the sum of the probabilities of
/// reaching each step.
pub proof fn lemma_surv_sum_settles(p: int, m: nat, n: nat)
    requires
        0 <= p <= SCALE,
        1 <= m <= n,
        surv(p, m) == 0,
    ensures
        surv_sum(p, n) == surv_sum(p, m),
    decreases n,
{
    if n > m {
        lemma_surv_sum_settles(p, m, (n - 1) as nat);
        lemma_series_settles(p, m, (n - 1) as nat);
    }
}

/// With a base probability below one, every step is less likely to be
/// reached than the one before it, by at least one unit.
proof fn lemma_surv_decays(p: int, j: nat)
    requires
        0 <= p < SCALE,
        1 <= j <= SCALE + 1,
    ensures
        0 <= surv(p, j) <= SCALE + 1 - j,
    decreases j,
{
    lemma_surv_bounds(p, j);
    if j > 1 {
        let i = (j - 1) as nat;
        lemma_surv_decays(p, i);
        lemma_fpow_bounds(p, i);
        let q = surv(p, i);
        let x = fpow(p, i);
        let s = SCALE as int;
        assert(surv(p, j) == q * x / s);
        if q > 0 {
            assert(q * x / s < q) by (nonlinear_arith)
                requires
                    0 < q,
                    0 <= x < s,
            ;
        } else {
            assert(q * x / s == 0) by (nonlinear_arith)
                requires
                    q == 0,
                    s > 0,
            ;
        }
    }
}

/// The truncated series converges: from some truncation bound on, which
/// depends on the base probability and is at most `SCALE + 1`, every bound
/// gives the same sum, so that successive truncations of the reset rate
/// differ by nothing at all.
pub proof fn lemma_series_converges(p: int)
    requires
        0 <= p < SCALE,
    ensures
        exists|m: nat|
            1 <= m <= SCALE + 1 && #[trigger] surv(p, m) == 0 && forall|n: nat|
                n >= m ==> #[trigger] series(p, n) == series(p, m),
{
    let m = (SCALE + 1) as nat;
    lemma_surv_decays(p, m);
    assert forall|n: nat| n >= m implies #[trigger] series(p, n) == series(p, m) by {
        lemma_series_settles(p, m, n);
    }
}

/// A base probability of at most `num / den` makes each step at most
/// `num / den` times as likely to be reached as the one before it.
proof fn lemma_surv_step(p: int, num: int, den: int, j: nat)
    requires
        0 <= p <= SCALE,
        0 <= num,
        0 < den,
        den * p <= num * SCALE,
        j >= 1,
    ensures
        den * surv(p, j + 1) <= num * surv(p, j),
{
    lemma_surv_bounds(p, j);
    lemma_fpow_bounds(p, j);
    let q = surv(p, j);
    let x = fpow(p, j);
    let s = SCALE as int;
    let q1 = surv(p, j + 1);
    assert(q1 == fmul(q, x));
    assert(s * q1 <= q * x) by (nonlinear_arith)
        requires
            q1 == q * x / s,
            s > 0,
    ;
    assert(q * x <= q * p) by (nonlinear_arith)
        requires
            0 <= q,
            x <= p,
    ;
    assert(s * (den * q1) <= s * (num * q)) by (nonlinear_arith)
        requires
            s * q1 <= q * p,
            den * p <= num * s,
            0 <= q,
            0 < den,
    ;
    assert(den * q1 <= num * q) by (nonlinear_arith)
        requires
            s * (den * q1) <= s * (num * q),
            s > 0,
    ;
}

/// The same over `h` steps: the likelihood falls by `num / den` to the
/// power `h`.
proof fn lemma_surv_steps(p: int, num: int, den: int, j: nat, h: nat)
    requires
        0 <= p <= SCALE,
        0 <= num,
        0 < den,
        den * p <= num * SCALE,
        j >= 1,
    ensures
        pow(den, h) * surv(p, j + h) <= pow(num, h) * surv(p, j),
    decreases h,
{
    if h == 0 {
        lemma_pow0(den);
        lemma_pow0(num);
    } else {
        let g = (h - 1) as nat;
        lemma_surv_steps(p, num, den, j, g);
        lemma_surv_step(p, num, den, j + g);
        lemma_pow_adds(den, g, 1);
        lemma_pow_adds(num, g, 1);
        lemma_pow1(den);
        lemma_pow1(num);
        lemma_pow_positive(den, g);
        if num > 0 {
            lemma_pow_positive(num, g);
        } else {
            lemma_pow0(num);
            assert(pow(num, h) == pow(num, g) * 0);
        }
        let a = pow(den, g);
        let b = pow(num, g);
        let q0 = surv(p, j);
        let q1 = surv(p, j + g);
        let q2 = surv(p, j + h);
        lemma_surv_bounds(p, j + g);
        assert((a * den) * q2 <= (b * num) * q0) by (nonlinear_arith)
            requires
                a * q1 <= b * q0,
                den * q2 <= num * q1,
                0 <= a,
                0 <= num,
                0 <= q1,
        ;
    }
}

/// If `h` steps halve the likelihood, `k * h` steps halve it `k` times.
proof fn lemma_surv_halvings(p: int, num: int, den: int, h: nat, k: nat)
    requires
        0 <= p <= SCALE,
        0 <= num,
        0 < den,
        den * p <= num * SCALE,
        2 * pow(num, h) <= pow(den, h),
    ensures
        pow2(k) * surv(p, 1 + k * h) <= SCALE,
    decreases k,
{
    if k == 0 {
        lemma2_to64();
        assert(0 * h == 0);
    } else {
        let i = (k - 1) as nat;
        lemma_surv_halvings(p, num, den, h, i);
        assert(1 + k * h == (1 + i * h) + h) by (nonlinear_arith)
            requires
                i == k - 1,
        ;
        lemma_surv_steps(p, num, den, 1 + i * h, h);
        lemma_pow2_unfold(k);
        lemma_pow_positive(den, h);
        lemma_surv_bounds(p, 1 + i * h);
        lemma_surv_bounds(p, 1 + k * h);
        let d = pow(den, h);
        let u = pow(num, h);
        let q0 = surv(p, 1 + i * h);
        let q1 = surv(p, 1 + k * h);
        assert(2 * q1 <= q0) by (nonlinear_arith)
            requires
                d * q1 <= u * q0,
                2 * u <= d,
                0 < d,
                0 <= q0,
                0 <= q1,
        ;
        assert(pow2(k) * q1 <= pow2(i) * q0) by (nonlinear_arith)
            requires
                pow2(k) == 2 * pow2(i),
                2 * q1 <= q0,
        ;
    }
}

/// How soon the series settles, by the base probability: if it is at most
/// `num / den` and `h` factors of `num / den` make at most one half, no run
/// reaches step `1 + 54 * h`, so that every truncation bound from there on
/// gives the same sum.
pub proof fn lemma_surv_vanishes(p: int, num: int, den: int, h: nat)
    requires
        0 <= p <= SCALE,
        0 <= num,
        0 < den,
        den * p <= num * SCALE,
        2 * pow(num, h) <= pow(den, h),
    ensures
        surv(p, 1 + 54 * h) == 0,
{
    lemma_surv_halvings(p, num, den, h, 54);
    lemma2_to64_rest();
    lemma_surv_bounds(p, 1 + 54 * h);
    let q = surv(p, 1 + 54 * h);
    assert(q == 0) by (nonlinear_arith)
        requires
            18_014_398_509_481_984 * q <= 9_007_199_254_740_992,
            0 <= q,
    ;
}

/// With a base probability of at most one half the series has settled at
/// 55 terms.
pub proof fn lemma_settles_up_to_one_half(p: int)
    requires
        0 <= p,
        2 * p <= SCALE,
    ensures
        surv(p, 55) == 0,
{
    lemma_pow1(1);
    lemma_pow1(2);
    lemma_surv_vanishes(p, 1, 2, 1);
}

/// With a base probability of at most 99 in 100 the series has settled at
/// 3781 terms: 70 factors of 99 in 100 make less than one half.
pub proof fn lemma_settles_up_to_99_in_100(p: int)
    requires
        0 <= p,
        100 * p <= 99 * SCALE,
    ensures
        surv(p, 3781) == 0,
{
    lemma_pow_multiplies(99, 7, 10);
    lemma_pow_multiplies(100, 7, 10);
    assert(pow(99, 7) == 93_206_534_790_699) by {
        reveal_with_fuel(pow, 8);
    }
    assert(pow(100, 7) == 100_000_000_000_000) by {
        reveal_with_fuel(pow, 8);
    }
    assert(2 * pow(93_206_534_790_699, 10) <= pow(100_000_000_000_000, 10)) by {
        reveal_with_fuel(pow, 11);
    }
    lemma_surv_vanishes(p, 99, 100, 70);
}

/// The reset rate in closed form falls as the base probability rises: of
/// two base probabilities, at every truncation bound at which the series of
/// the larger has settled, the larger has strictly the larger series, and
/// so strictly the smaller rate `SCALE / series`.
pub proof fn lemma_rate_decreases(a: int, b: int, n: nat)
    requires
        0 <= a < b <= SCALE,
        n >= 3,
        surv(b, n) == 0,
    ensures
        0 < series(a, n) < series(b, n),
        SCALE * series(a, n) < SCALE * series(b, n),
{
    lemma_surv_monotone(a, b, n);
    lemma_surv_bounds(a, n);
    lemma_series_by_parts(a, n);
    lemma_series_by_parts(b, n);
    lemma_surv_sum_monotone(a, b, n);
    assert((n - 1) * 0 == 0);
    lemma_series_positive(a, n);
    assert(SCALE * series(a, n) < SCALE * series(b, n)) by (nonlinear_arith)
        requires
            series(a, n) < series(b, n),
            SCALE > 0,
    ;
}

/// The same at the truncation bounds in use: of two base probabilities of at
/// most 99 in 100, the larger has strictly the larger series at every
/// truncation bound from 3781 on.
pub proof fn lemma_rate_decreases_up_to_99_in_100(a: int, b: int, n: nat)
    requires
        0 <= a < b,
        100 * b <= 99 * SCALE,
        n >= 3781,
    ensures
        0 < series(a, n) < series(b, n),
{
    lemma_settles_up_to_99_in_100(b);
    lemma_series_settles(b, 3781, n);
    lemma_rate_decreases(a, b, n);
}

/// With a base probability below one, a series of at least one term is
/// positive: a run of one step alone has a positive probability.
pub proof fn lemma_series_positive(p: int, n: nat)
    requires
        0 <= p < SCALE,
        n >= 2,
    ensures
        series(p, n) >= SCALE - p > 0,
    decreases n,
{
    lemma_fpow_one(p);
    if n == 2 {
        reveal_with_fuel(series, 3);
        reveal_with_fuel(surv, 3);
        assert((SCALE as int) * p / (SCALE as int) == p) by (nonlinear_arith);
    } else {
        lemma_series_positive(p, (n - 1) as nat);
        lemma_len_prob_is_product(p, (n - 1) as nat);
        assert(0 <= (n - 1) * len_prob(p, (n - 1) as nat)) by (nonlinear_arith)
            requires
                n >= 1,
                0 <= len_prob(p, (n - 1) as nat),
        ;
    }
}

/// The reset rate in closed form: one over the expected length of a run,
/// summed over the lengths below `n`.
pub fn sim_closed(p: Frac, n: u64) -> (r: Ratio)
    ensures
        r.num == SCALE,
        r.den == series(p@, n as nat),
{
    let mut acc: u128 = 0;
    let mut j: u64 = 1;
    let mut pj = p;
    let mut q = Frac::one();
    proof {
        lemma_fpow_one(p@);
    }
    while j < n
        invariant
            1 <= j,
            j <= n || j == 1,
            pj@ == fpow(p@, j as nat),
            q@ == surv(p@, j as nat),
            acc == series(p@, j as nat),
        decreases n - j,
    {
        let next = q.mul(&pj);
        proof {
            use_type_invariant(&p);
            lemma_series_by_parts(p@, (j + 1) as nat);
            lemma_len_prob_is_product(p@, j as nat);
            assert(0 <= j * len_prob(p@, j as nat) <= j * SCALE) by (nonlinear_arith)
                requires
                    0 <= j,
                    0 <= len_prob(p@, j as nat) <= SCALE,
            ;
            assert(j * SCALE <= 0x1_0000_0000_0000_0000 * SCALE) by (nonlinear_arith)
                requires
                    j <= 0x1_0000_0000_0000_0000,
            ;
            assert(fpow(p@, (j + 1) as nat) == fmul(fpow(p@, j as nat), p@));
        }
        let h = q.raw() - next.raw();
        acc = acc + (j as u128) * (h as u128);
        q = next;
        pj = pj.mul(&p);
        j = j + 1;
    }
    assert(series(p@, 0) == series(p@, 1));
    Ratio { num: SCALE as u128, den: acc }
}

} // verus!
