//! How far the rounded quantities stand from the exact ones.
//!
//! The library rounds every product down to a multiple of `1 / SCALE`. The
//! lemmas of this module bound what that costs, against exact powers of the
//! base probability: a numerator `x` over `SCALE` is compared with the exact
//! fraction `pow(p, k) / pow(SCALE, k)` after both are brought to the
//! denominator `pow(SCALE, k)`.
use crate::closed_form::{lemma_surv_bounds, surv};
use crate::frac::{fmul, fpow, lemma_fpow_bounds, lemma_fpow_one, SCALE};
use vstd::arithmetic::power::{lemma_pow0, lemma_pow1, lemma_pow_adds, lemma_pow_positive, pow};
use vstd::prelude::*;

verus! {

/// The number of pairs among `n` things, half of `n * (n - 1)`: the
/// exponent of the base probability in the probability of reaching step
/// `n`, and a bound on the units that rounding has cost it.
pub open spec fn pairs(n: nat) -> int
    decreases n,
{
    if n <= 1 {
        0
    } else {
        pairs((n - 1) as nat) + (n - 1)
    }
}

/// The number of pairs in closed form.
pub proof fn lemma_pairs_closed(n: nat)
    ensures
        2 * pairs(n) == n * (n - 1),
    decreases n,
{
    if n > 1 {
        lemma_pairs_closed((n - 1) as nat);
        assert((n - 1) * (n - 2) + 2 * (n - 1) == n * (n - 1)) by (nonlinear_arith);
    } else {
        assert(n * (n - 1) == 0) by (nonlinear_arith)
            requires
                n == 0 || n == 1,
        ;
    }
}

/// Whether the numerator `x` over `SCALE` is the exact fraction
/// `exact / (scale * SCALE)` rounded down, having lost at most `err` units
/// of `1 / SCALE`.
pub open spec fn approximates(x: int, err: int, exact: int, scale: int) -> bool {
    scale * x <= exact <= scale * (x + err)
}

/// The product of two rounded fractions, rounded down once more, has lost
/// at most what the factors lost and one unit more.
proof fn lemma_rounded_product(
    bc: int,
    a: int,
    e: int,
    pc: int,
    bj: int,
    x: int,
    f: int,
    pj: int,
)
    requires
        0 <= bc,
        0 <= bj,
        0 <= a <= SCALE,
        0 <= x <= SCALE,
        0 <= e,
        0 <= f,
        approximates(a, e, pc, bc),
        approximates(x, f, pj, bj),
        pc <= SCALE * bc,
    ensures
        approximates(fmul(a, x), e + f + 1, pc * pj, bc * bj * SCALE),
{
    let s = SCALE as int;
    let m = bc * bj;
    let ax = a * x;
    let a2 = fmul(a, x);
    assert(0 <= m) by (nonlinear_arith)
        requires
            0 <= bc,
            0 <= bj,
            m == bc * bj,
    ;
    assert(0 <= ax) by (nonlinear_arith)
        requires
            0 <= a,
            0 <= x,
            ax == a * x,
    ;
    assert(s * a2 <= ax < s * a2 + s) by (nonlinear_arith)
        requires
            a2 == ax / s,
            s > 0,
    ;
    // From below.
    assert((bc * a) * (bj * x) <= pc * pj) by (nonlinear_arith)
        requires
            0 <= bc * a <= pc,
            0 <= bj * x <= pj,
    ;
    assert(0 <= bc * a && 0 <= bj * x) by (nonlinear_arith)
        requires
            0 <= bc,
            0 <= a,
            0 <= bj,
            0 <= x,
    ;
    assert((bc * a) * (bj * x) == m * ax) by (nonlinear_arith)
        requires
            m == bc * bj,
            ax == a * x,
    ;
    assert(m * (s * a2) <= m * ax) by (nonlinear_arith)
        requires
            0 <= m,
            s * a2 <= ax,
    ;
    assert((m * s) * a2 == m * (s * a2)) by (nonlinear_arith);
    // From above.
    assert(pc * pj <= pc * (bj * x) + pc * (bj * f)) by (nonlinear_arith)
        requires
            0 <= pc,
            pj <= bj * (x + f),
    ;
    assert(pc * (bj * x) <= m * ax + m * (e * s)) by (nonlinear_arith)
        requires
            pc <= bc * (a + e),
            0 <= bj * x,
            0 <= x <= s,
            0 <= e,
            0 <= bc,
            0 <= bj,
            m == bc * bj,
            ax == a * x,
    ;
    assert(0 <= bj * f) by (nonlinear_arith)
        requires
            0 <= bj,
            0 <= f,
    ;
    assert(pc * (bj * f) <= m * (f * s)) by (nonlinear_arith)
        requires
            pc <= s * bc,
            0 <= bj * f,
            m == bc * bj,
    ;
    assert(m * ax + m * (e * s) + m * (f * s) <= (m * s) * (a2 + e + f + 1)) by (nonlinear_arith)
        requires
            0 <= m,
            ax < s * a2 + s,
    ;
}

/// A power of a fraction is at most one.
proof fn lemma_pow_below(p: int, k: nat)
    requires
        0 <= p <= SCALE,
    ensures
        0 <= pow(p, k) <= pow(SCALE as int, k),
    decreases k,
{
    reveal(pow);
    if k > 0 {
        lemma_pow_below(p, (k - 1) as nat);
        assert(p * pow(p, (k - 1) as nat) <= SCALE * pow(SCALE as int, (k - 1) as nat)
            && 0 <= p * pow(p, (k - 1) as nat)) by (nonlinear_arith)
            requires
                0 <= p <= SCALE,
                0 <= pow(p, (k - 1) as nat) <= pow(SCALE as int, (k - 1) as nat),
        ;
    }
}

/// The rounded power `fpow(p, k)` is the exact power of `p / SCALE` rounded
/// down, having lost at most `k - 1` units.
pub proof fn lemma_fpow_error(p: int, k: nat)
    requires
        0 <= p <= SCALE,
        k >= 1,
    ensures
        approximates(fpow(p, k), k - 1, pow(p, k), pow(SCALE as int, (k - 1) as nat)),
    decreases k,
{
    let s = SCALE as int;
    lemma_fpow_one(p);
    lemma_pow0(s);
    lemma_pow1(p);
    if k > 1 {
        let i = (k - 1) as nat;
        lemma_fpow_error(p, i);
        lemma_fpow_bounds(p, i);
        lemma_pow_below(p, i);
        lemma_pow_positive(s, (i - 1) as nat);
        lemma_pow_adds(s, (i - 1) as nat, 1);
        lemma_pow1(s);
        lemma_pow_adds(p, i, 1);
        assert(pow(s, i) == s * pow(s, (i - 1) as nat)) by (nonlinear_arith)
            requires
                pow(s, i) == pow(s, (i - 1) as nat) * s,
        ;
        assert(approximates(p, 0, p, 1));
        lemma_rounded_product(pow(s, (i - 1) as nat), fpow(p, i), i - 1, pow(p, i), 1, p, 0, p);
        assert(pow(s, (i - 1) as nat) * 1 * s == pow(s, i)) by (nonlinear_arith)
            requires
                pow(s, i) == s * pow(s, (i - 1) as nat),
        ;
    }
}

/// The rounded probability of reaching step `j` is the exact one, the power
/// of `p / SCALE` with the exponent `j * (j - 1) / 2`, rounded down, having
/// lost less than that many units.
pub proof fn lemma_surv_error(p: int, j: nat)
    requires
        0 <= p <= SCALE,
        j >= 2,
    ensures
        pairs(j) >= 1,
        2 * pairs(j) == j * (j - 1),
        approximates(
            surv(p, j),
            pairs(j) - 1,
            pow(p, pairs(j) as nat),
            pow(SCALE as int, (pairs(j) - 1) as nat),
        ),
    decreases j,
{
    let s = SCALE as int;
    lemma_pairs_closed(j);
    lemma_fpow_one(p);
    lemma_pow0(s);
    lemma_pow1(p);
    reveal_with_fuel(pairs, 3);
    if j == 2 {
        reveal_with_fuel(surv, 3);
        assert(s * p / s == p) by (nonlinear_arith)
            requires
                s > 0,
        ;
    } else {
        let i = (j - 1) as nat;
        lemma_surv_error(p, i);
        lemma_fpow_error(p, i);
        lemma_surv_bounds(p, i);
        lemma_fpow_bounds(p, i);
        let c = pairs(i) as nat;
        assert(pairs(j) == c + i);
        lemma_pow_below(p, c);
        lemma_pow_positive(s, (c - 1) as nat);
        lemma_pow_positive(s, (i - 1) as nat);
        lemma_pow_adds(s, (c - 1) as nat, 1);
        lemma_pow1(s);
        assert(pow(s, c) == s * pow(s, (c - 1) as nat)) by (nonlinear_arith)
            requires
                pow(s, c) == pow(s, (c - 1) as nat) * s,
        ;
        lemma_pow_adds(p, c, i);
        lemma_pow_adds(s, (c - 1) as nat, (i - 1) as nat);
        lemma_pow_adds(s, (c + i - 2) as nat, 1);
        lemma_rounded_product(
            pow(s, (c - 1) as nat),
            surv(p, i),
            pairs(i) - 1,
            pow(p, c),
            pow(s, (i - 1) as nat),
            fpow(p, i),
            i - 1,
            pow(p, i),
        );
    }
}

/// The number of pairs grows with the number of things.
proof fn lemma_pairs_grow(j: nat, n: nat)
    requires
        j <= n,
    ensures
        0 <= pairs(j) <= pairs(n),
    decreases n,
{
    if j < n {
        lemma_pairs_grow(j, (n - 1) as nat);
    } else {
        if n > 0 {
            lemma_pairs_grow((n - 1) as nat, (n - 1) as nat);
        }
    }
}

/// The exact probability of reaching step `j`, the power of `p / SCALE`
/// with the exponent `j * (j - 1) / 2`, as a numerator over
/// `pow(SCALE, pairs(n))`, the denominator that serves every step up to `n`.
pub open spec fn exact_surv(p: int, n: nat, j: nat) -> int {
    pow(p, pairs(j) as nat) * pow(SCALE as int, (pairs(n) - pairs(j)) as nat)
}

/// Term `j` of the exact series, `j` times the exact probability of
/// reaching step `j` times the exact probability of failing there, as a
/// numerator over `pow(SCALE, pairs(n))`.
pub open spec fn exact_term(p: int, n: nat, j: nat) -> int {
    j * (pow(p, pairs(j) as nat) * (pow(SCALE as int, j) - pow(p, j))) * pow(
        SCALE as int,
        (pairs(n) - pairs(j + 1)) as nat,
    )
}

/// The exact series over the lengths below `k`, as a numerator over
/// `pow(SCALE, pairs(n))`.
pub open spec fn exact_series(p: int, n: nat, k: nat) -> int
    decreases k,
{
    if k <= 1 {
        0
    } else {
        exact_series(p, n, (k - 1) as nat) + exact_term(p, n, (k - 1) as nat)
    }
}

/// The sum of the exact probabilities of reaching the steps below `k`, as a
/// numerator over `pow(SCALE, pairs(n))`.
pub open spec fn exact_surv_sum(p: int, n: nat, k: nat) -> int
    decreases k,
{
    if k <= 1 {
        0
    } else {
        exact_surv_sum(p, n, (k - 1) as nat) + exact_surv(p, n, (k - 1) as nat)
    }
}

/// A term of the exact series is its length times the difference of the
/// probabilities of reaching that step and the next.
proof fn lemma_exact_term_telescopes(p: int, n: nat, j: nat)
    requires
        1 <= j < n,
    ensures
        exact_term(p, n, j) == j * (exact_surv(p, n, j) - exact_surv(p, n, j + 1)),
{
    let s = SCALE as int;
    lemma_pairs_grow(j + 1, n);
    lemma_pairs_grow(j, j + 1);
    assert(pairs(j + 1) == pairs(j) + j);
    let a = pow(p, pairs(j) as nat);
    let b = pow(s, j);
    let c = pow(p, j);
    let d = pow(s, (pairs(n) - pairs(j + 1)) as nat);
    lemma_pow_adds(p, pairs(j) as nat, j);
    lemma_pow_adds(s, j, (pairs(n) - pairs(j + 1)) as nat);
    assert(exact_surv(p, n, j) == a * (b * d));
    assert(exact_surv(p, n, j + 1) == (a * c) * d);
    assert(j * (a * (b - c)) * d == j * (a * (b * d) - (a * c) * d)) by (nonlinear_arith);
}

/// The exact series, summed by parts: it is the sum of the exact
/// probabilities of reaching each step, less the weight of the step at
/// which it is cut.
pub proof fn lemma_exact_abel(p: int, n: nat, k: nat)
    requires
        1 <= k <= n,
    ensures
        exact_series(p, n, k) + (k - 1) * exact_surv(p, n, k) == exact_surv_sum(p, n, k),
    decreases k,
{
    if k > 1 {
        let i = (k - 1) as nat;
        lemma_exact_abel(p, n, i);
        lemma_exact_term_telescopes(p, n, i);
        let w = exact_surv(p, n, i);
        let w1 = exact_surv(p, n, k);
        assert(i * (w - w1) + i * w1 == (i - 1) * w + w) by (nonlinear_arith);
    } else {
        assert((k - 1) * exact_surv(p, n, k) == 0) by (nonlinear_arith)
            requires
                k == 1,
        ;
    }
}

/// The rounded probability of reaching a step against the exact one, both
/// over the denominator that serves every step up to `n`, with the error
/// that all steps up to `n` have in common.
proof fn lemma_exact_surv_error(p: int, n: nat, j: nat)
    requires
        0 <= p <= SCALE,
        n >= 2,
        1 <= j <= n,
    ensures
        pairs(n) >= 1,
        approximates(
            surv(p, j),
            pairs(n),
            exact_surv(p, n, j),
            pow(SCALE as int, (pairs(n) - 1) as nat),
        ),
{
    let k = pow(SCALE as int, (pairs(n) - 1) as nat);
    lemma_exact_surv_tight(p, n, j);
    lemma_pairs_grow(j, n);
    lemma_pow_positive(SCALE as int, (pairs(n) - 1) as nat);
    assert(k * (surv(p, j) + pairs(j)) <= k * (surv(p, j) + pairs(n))) by (nonlinear_arith)
        requires
            0 <= k,
            pairs(j) <= pairs(n),
    ;
}

/// The rounded probability of reaching step `j` against the exact one, both
/// over the denominator that serves every step up to `n`: it has lost at
/// most `pairs(j)` units.
proof fn lemma_exact_surv_tight(p: int, n: nat, j: nat)
    requires
        0 <= p <= SCALE,
        n >= 2,
        1 <= j <= n,
    ensures
        pairs(n) >= 1,
        approximates(
            surv(p, j),
            pairs(j),
            exact_surv(p, n, j),
            pow(SCALE as int, (pairs(n) - 1) as nat),
        ),
{
    let s = SCALE as int;
    lemma_pairs_grow(j, n);
    lemma_pairs_grow(2, n);
    reveal_with_fuel(pairs, 3);
    let k = pow(s, (pairs(n) - 1) as nat);
    let r = pow(s, (pairs(n) - pairs(j)) as nat);
    lemma_pow_positive(s, (pairs(n) - 1) as nat);
    lemma_pow_positive(s, (pairs(n) - pairs(j)) as nat);
    lemma_surv_bounds(p, j);
    if j == 1 {
        lemma_pow0(p);
        lemma_pow_adds(s, (pairs(n) - 1) as nat, 1);
        lemma_pow1(s);
        assert(exact_surv(p, n, j) == k * s) by (nonlinear_arith)
            requires
                exact_surv(p, n, j) == 1 * pow(s, pairs(n) as nat),
                pow(s, pairs(n) as nat) == k * s,
        ;
        assert(k * surv(p, j) <= k * (surv(p, j) + pairs(j))) by (nonlinear_arith)
            requires
                0 <= k,
                0 <= pairs(j),
        ;
    } else {
        lemma_surv_error(p, j);
        let b = pow(s, (pairs(j) - 1) as nat);
        let e = pow(p, pairs(j) as nat);
        let x = surv(p, j);
        lemma_pow_adds(s, (pairs(j) - 1) as nat, (pairs(n) - pairs(j)) as nat);
        assert(k == b * r);
        assert(k * x <= e * r && e * r <= k * (x + pairs(j))) by (nonlinear_arith)
            requires
                b * x <= e <= b * (x + (pairs(j) - 1)),
                0 <= r,
                0 <= b * r,
                k == b * r,
        ;
    }
}

/// The sum of the rounded probabilities of reaching the steps below `k`
/// against the sum of the exact ones.
proof fn lemma_exact_surv_sum_error(p: int, n: nat, k: nat)
    requires
        0 <= p <= SCALE,
        n >= 2,
        1 <= k <= n,
    ensures
        approximates(
            crate::closed_form::surv_sum(p, k),
            (k - 1) * pairs(n),
            exact_surv_sum(p, n, k),
            pow(SCALE as int, (pairs(n) - 1) as nat),
        ),
    decreases k,
{
    let s = SCALE as int;
    let m = pow(s, (pairs(n) - 1) as nat);
    lemma_pairs_grow(2, n);
    reveal_with_fuel(pairs, 3);
    lemma_pow_positive(s, (pairs(n) - 1) as nat);
    if k > 1 {
        let i = (k - 1) as nat;
        lemma_exact_surv_sum_error(p, n, i);
        lemma_exact_surv_error(p, n, i);
        let a = crate::closed_form::surv_sum(p, i);
        let x = surv(p, i);
        let g = pairs(n);
        assert(m * (a + x) == m * a + m * x && m * (a + x + (k - 1) * g) == m * (a + (i - 1) * g)
            + m * (x + g)) by (nonlinear_arith)
            requires
                i == k - 1,
        ;
    } else {
        assert(m * (0 + (k - 1) * pairs(n)) == 0 && m * 0 == 0) by (nonlinear_arith)
            requires
                k == 1,
        ;
    }
}

/// The series that the closed form sums is the exact series
/// `sum of j * p^(j (j - 1) / 2) * (1 - p^j)` over the lengths `j` below `n`,
/// to within `(n - 1) * pairs(n)` units of `1 / SCALE`.
pub proof fn lemma_series_error(p: int, n: nat)
    requires
        0 <= p <= SCALE,
        n >= 2,
    ensures
        pairs(n) >= 1,
        pow(SCALE as int, (pairs(n) - 1) as nat) * (crate::closed_form::series(p, n) - (n - 1)
            * pairs(n)) <= exact_series(p, n, n),
        exact_series(p, n, n) <= pow(SCALE as int, (pairs(n) - 1) as nat) * (
        crate::closed_form::series(p, n) + (n - 1) * pairs(n)),
{
    let s = SCALE as int;
    let m = pow(s, (pairs(n) - 1) as nat);
    let g = pairs(n);
    lemma_pow_positive(s, (pairs(n) - 1) as nat);
    lemma_exact_abel(p, n, n);
    lemma_exact_surv_sum_error(p, n, n);
    lemma_exact_surv_error(p, n, n);
    crate::closed_form::lemma_series_by_parts(p, n);
    lemma_series_error_sums(
        m,
        g,
        n as int,
        crate::closed_form::series(p, n),
        crate::closed_form::surv_sum(p, n),
        surv(p, n),
        exact_surv_sum(p, n, n),
        exact_surv(p, n, n),
    );
}

/// The error of a series summed by parts, from the errors of its parts.
proof fn lemma_series_error_sums(
    w: int,
    g: int,
    n: int,
    ser: int,
    sum: int,
    q: int,
    esum: int,
    eq: int,
)
    requires
        0 <= w,
        0 <= g,
        n >= 1,
        ser + (n - 1) * q == sum,
        approximates(sum, (n - 1) * g, esum, w),
        approximates(q, g, eq, w),
    ensures
        w * (ser - (n - 1) * g) <= esum - (n - 1) * eq <= w * (ser + (n - 1) * g),
{
    assert((n - 1) * (w * q) <= (n - 1) * eq <= (n - 1) * (w * (q + g))) by (nonlinear_arith)
        requires
            n >= 1,
            w * q <= eq <= w * (q + g),
    ;
    assert(w * (ser - (n - 1) * g) == w * sum - (n - 1) * (w * (q + g))) by (nonlinear_arith)
        requires
            ser + (n - 1) * q == sum,
    ;
    assert(w * (sum + (n - 1) * g) - (n - 1) * (w * q) == w * (ser + (n - 1) * g))
        by (nonlinear_arith)
        requires
            ser + (n - 1) * q == sum,
    ;
}

/// The exact probability of reaching a step falls from step to step.
proof fn lemma_exact_surv_falls(p: int, n: nat, j: nat, k: nat)
    requires
        0 <= p <= SCALE,
        1 <= j <= k <= n,
    ensures
        0 <= exact_surv(p, n, k) <= exact_surv(p, n, j),
    decreases k,
{
    let s = SCALE as int;
    lemma_pairs_grow(k, n);
    lemma_pow_below(p, pairs(k) as nat);
    lemma_pow_positive(s, (pairs(n) - pairs(k)) as nat);
    assert(0 <= exact_surv(p, n, k)) by (nonlinear_arith)
        requires
            exact_surv(p, n, k) == pow(p, pairs(k) as nat) * pow(
                s,
                (pairs(n) - pairs(k)) as nat,
            ),
            0 <= pow(p, pairs(k) as nat),
            0 <= pow(s, (pairs(n) - pairs(k)) as nat),
    ;
    if j < k {
        let i = (k - 1) as nat;
        lemma_exact_surv_falls(p, n, j, i);
        lemma_pairs_grow(i, k);
        assert(pairs(k) == pairs(i) + i);
        let a = pow(p, pairs(i) as nat);
        let b = pow(s, i);
        let c = pow(p, i);
        let d = pow(s, (pairs(n) - pairs(k)) as nat);
        lemma_pow_below(p, pairs(i) as nat);
        lemma_pow_below(p, i);
        lemma_pow_adds(p, pairs(i) as nat, i);
        lemma_pow_adds(s, i, (pairs(n) - pairs(k)) as nat);
        assert(exact_surv(p, n, i) == a * (b * d));
        assert(exact_surv(p, n, k) == (a * c) * d);
        assert((a * c) * d <= a * (b * d)) by (nonlinear_arith)
            requires
                0 <= a,
                0 <= c <= b,
                0 <= d,
        ;
    }
}

/// The rounded probability of reaching a step against the exact one, once
/// the series has settled at `m`: no step has lost more than `pairs(m)`
/// units.
proof fn lemma_exact_surv_settled(p: int, n: nat, m: nat, j: nat)
    requires
        0 <= p <= SCALE,
        2 <= m <= n,
        surv(p, m) == 0,
        1 <= j <= n,
    ensures
        approximates(
            surv(p, j),
            pairs(m),
            exact_surv(p, n, j),
            pow(SCALE as int, (pairs(n) - 1) as nat),
        ),
{
    let s = SCALE as int;
    let k = pow(s, (pairs(n) - 1) as nat);
    lemma_pairs_grow(2, n);
    reveal_with_fuel(pairs, 3);
    lemma_pow_positive(s, (pairs(n) - 1) as nat);
    let i = if j <= m {
        j
    } else {
        m
    };
    lemma_exact_surv_tight(p, n, i);
    lemma_pairs_grow(i, m);
    assert(k * (surv(p, i) + pairs(i)) <= k * (surv(p, i) + pairs(m))) by (nonlinear_arith)
        requires
            0 <= k,
            pairs(i) <= pairs(m),
    ;
    if j > m {
        lemma_exact_surv_falls(p, n, m, j);
        crate::closed_form::lemma_series_settles(p, m, j);
        assert(k * surv(p, j) == 0) by (nonlinear_arith)
            requires
                surv(p, j) == 0,
        ;
    }
}

/// The sum of the rounded probabilities of reaching the steps below `k`
/// against the sum of the exact ones, once the series has settled at `m`.
proof fn lemma_exact_surv_sum_settled(p: int, n: nat, m: nat, k: nat)
    requires
        0 <= p <= SCALE,
        2 <= m <= n,
        surv(p, m) == 0,
        1 <= k <= n,
    ensures
        approximates(
            crate::closed_form::surv_sum(p, k),
            (k - 1) * pairs(m),
            exact_surv_sum(p, n, k),
            pow(SCALE as int, (pairs(n) - 1) as nat),
        ),
    decreases k,
{
    let s = SCALE as int;
    let w = pow(s, (pairs(n) - 1) as nat);
    lemma_pow_positive(s, (pairs(n) - 1) as nat);
    if k > 1 {
        let i = (k - 1) as nat;
        lemma_exact_surv_sum_settled(p, n, m, i);
        lemma_exact_surv_settled(p, n, m, i);
        let a = crate::closed_form::surv_sum(p, i);
        let x = surv(p, i);
        let g = pairs(m);
        assert(w * (a + x) == w * a + w * x && w * (a + x + (k - 1) * g) == w * (a + (i - 1) * g)
            + w * (x + g)) by (nonlinear_arith)
            requires
                i == k - 1,
        ;
    } else {
        assert(w * (0 + (k - 1) * pairs(m)) == 0 && w * 0 == 0) by (nonlinear_arith)
            requires
                k == 1,
        ;
    }
}

/// Once the series has settled at `m`, the series that the closed form sums
/// is the exact series over the lengths below `n`, in the form summed by
/// parts or term by term, to within `(n - 1) * pairs(m)` units of
/// `1 / SCALE`: what rounding costs grows with the bound at which the series
/// settles, not with the number of terms asked for.
pub proof fn lemma_settled_series_error(p: int, m: nat, n: nat)
    requires
        0 <= p <= SCALE,
        2 <= m <= n,
        surv(p, m) == 0,
    ensures
        pairs(n) >= 1,
        2 * pairs(m) == m * (m - 1),
        exact_series(p, n, n) == exact_surv_sum(p, n, n) - (n - 1) * exact_surv(p, n, n),
        pow(SCALE as int, (pairs(n) - 1) as nat) * (crate::closed_form::series(p, n) - (n - 1)
            * pairs(m)) <= exact_series(p, n, n),
        exact_series(p, n, n) <= pow(SCALE as int, (pairs(n) - 1) as nat) * (
        crate::closed_form::series(p, n) + (n - 1) * pairs(m)),
{
    let s = SCALE as int;
    let w = pow(s, (pairs(n) - 1) as nat);
    lemma_pairs_grow(2, n);
    lemma_pairs_grow(0, m);
    lemma_pairs_closed(m);
    reveal_with_fuel(pairs, 3);
    lemma_pow_positive(s, (pairs(n) - 1) as nat);
    lemma_exact_abel(p, n, n);
    lemma_exact_surv_sum_settled(p, n, m, n);
    lemma_exact_surv_settled(p, n, m, n);
    crate::closed_form::lemma_series_by_parts(p, n);
    lemma_series_error_sums(
        w,
        pairs(m),
        n as int,
        crate::closed_form::series(p, n),
        crate::closed_form::surv_sum(p, n),
        surv(p, n),
        exact_surv_sum(p, n, n),
        exact_surv(p, n, n),
    );
}

} // verus!
