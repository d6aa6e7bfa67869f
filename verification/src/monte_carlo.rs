//! Monte Carlo estimators of the reset rate.
use crate::frac::{fmul, fpow, lemma_fpow_one, Frac};
use crate::ratio::Ratio;
use crate::run::{agree, is_run, lemma_run_determined, simulate_run, succeeds};
use crate::source::{
    foretold, fresh_draws, in_range, left_after, lemma_foretold_join, lemma_fresh_draws,
    ThreadSource, UniformSource,
};
use rayon::iter::{IntoParallelIterator, ParallelIterator};
use vstd::prelude::*;

verus! {

/// Whether every element of `runs` holds the draws of one whole run.
pub open spec fn are_runs(p: int, runs: Seq<Seq<u64>>) -> bool {
    forall|i: int| 0 <= i < runs.len() ==> is_run(p, #[trigger] runs[i])
}

/// The number of steps that `runs` take together.
pub open spec fn total_len(runs: Seq<Seq<u64>>) -> nat
    decreases runs.len(),
{
    if runs.len() == 0 {
        0
    } else {
        total_len(runs.drop_last()) + runs.last().len()
    }
}

/// Every run takes at least one step and at most `u64::MAX`, so the steps of
/// `runs` together are at least as many as the runs.
pub proof fn lemma_total_len_bounds(p: int, runs: Seq<Seq<u64>>)
    requires
        are_runs(p, runs),
    ensures
        runs.len() <= total_len(runs) <= runs.len() * u64::MAX,
    decreases runs.len(),
{
    if runs.len() > 0 {
        let front = runs.drop_last();
        assert forall|i: int| 0 <= i < front.len() implies is_run(p, #[trigger] front[i]) by {
            assert(front[i] == runs[i]);
        }
        lemma_total_len_bounds(p, front);
        assert(is_run(p, runs[runs.len() - 1]));
        assert((runs.len() - 1) * u64::MAX + u64::MAX == runs.len() * u64::MAX)
            by (nonlinear_arith);
    }
}

/// Whether `total` is the number of steps that some `n` whole runs take
/// together.
pub open spec fn is_total_of_runs(p: int, n: nat, total: nat) -> bool {
    exists|runs: Seq<Seq<u64>>|
        runs.len() == n && #[trigger] are_runs(p, runs) && total == total_len(runs)
}

/// The steps of `n` whole runs are at least `n` and at most `n * u64::MAX`.
pub proof fn lemma_total_of_runs_bounds(p: int, n: nat, total: nat)
    requires
        is_total_of_runs(p, n, total),
    ensures
        n <= total <= n * u64::MAX,
{
    let runs = choose|runs: Seq<Seq<u64>>|
        runs.len() == n && #[trigger] are_runs(p, runs) && total == total_len(runs);
    lemma_total_len_bounds(p, runs);
}

/// One run on the calling thread's own source.
fn thread_trial(p: Frac) -> (len: u128)
    ensures
        exists|d: Seq<u64>| d.len() == len && #[trigger] is_run(p@, d),
{
    let mut src = ThreadSource::new();
    let ghost before = src.drawn();
    let len = simulate_run(p, &mut src);
    assert(is_run(p@, fresh_draws(before, src.drawn())));
    len as u128
}

/// `rayon`'s parallel `map` and `sum` over the range `0..n`: the sum of `n`
/// calls of `thread_trial`, one for each index, made on the threads of
/// rayon's pool. The total is the number of steps of `n` whole runs.
#[verifier::external_body]
fn par_total(p: Frac, n: u64) -> (total: u128)
    ensures
        is_total_of_runs(p@, n as nat, total as nat),
{
    (0..n).into_par_iter().map(|_| thread_trial(p)).sum()
}

/// The reset rate over `n` independent runs made concurrently, each on the
/// source of the thread that makes it: `n` over the steps of all runs.
pub fn sim_threaded(p: Frac, n: u64) -> (r: Ratio)
    ensures
        r.num == n,
        r.den >= n,
        is_total_of_runs(p@, n as nat, r.den as nat),
{
    let total = par_total(p, n);
    proof {
        lemma_total_of_runs_bounds(p@, n as nat, total as nat);
    }
    Ratio { num: n as u128, den: total }
}

/// The draws of `runs`, one run after another.
pub open spec fn concat(runs: Seq<Seq<u64>>) -> Seq<u64>
    decreases runs.len(),
{
    if runs.len() == 0 {
        Seq::empty()
    } else {
        concat(runs.drop_last()) + runs.last()
    }
}

/// Whether the draws `d` are those of `n` whole runs, one after another.
pub open spec fn splits_into_runs(p: int, n: nat, d: Seq<u64>) -> bool {
    exists|runs: Seq<Seq<u64>>| runs.len() == n && #[trigger] are_runs(p, runs) && d == concat(runs)
}

/// Runs laid end to end have as many draws as the runs take steps together.
pub proof fn lemma_concat_len(runs: Seq<Seq<u64>>)
    ensures
        concat(runs).len() == total_len(runs),
    decreases runs.len(),
{
    if runs.len() > 0 {
        lemma_concat_len(runs.drop_last());
    }
}

/// Runs laid end to end in two groups.
pub proof fn lemma_concat_add(r1: Seq<Seq<u64>>, r2: Seq<Seq<u64>>)
    ensures
        concat(r1 + r2) == concat(r1) + concat(r2),
    decreases r2.len(),
{
    if r2.len() == 0 {
        assert(r1 + r2 =~= r1);
        assert(concat(r1) + concat(r2) =~= concat(r1));
    } else {
        lemma_concat_add(r1, r2.drop_last());
        assert((r1 + r2).drop_last() =~= r1 + r2.drop_last());
        assert((r1 + r2).last() == r2.last());
        assert((concat(r1) + concat(r2.drop_last())) + r2.last() =~= concat(r1) + (concat(
            r2.drop_last(),
        ) + r2.last()));
    }
}

/// The draws of `n1` whole runs followed by the draws of `n2` whole runs are
/// the draws of `n1 + n2` whole runs.
pub proof fn lemma_runs_join(p: int, n1: nat, d1: Seq<u64>, n2: nat, d2: Seq<u64>)
    requires
        splits_into_runs(p, n1, d1),
        splits_into_runs(p, n2, d2),
    ensures
        splits_into_runs(p, n1 + n2, d1 + d2),
{
    let r1 = choose|runs: Seq<Seq<u64>>|
        runs.len() == n1 && #[trigger] are_runs(p, runs) && d1 == concat(runs);
    let r2 = choose|runs: Seq<Seq<u64>>|
        runs.len() == n2 && #[trigger] are_runs(p, runs) && d2 == concat(runs);
    lemma_concat_add(r1, r2);
    assert forall|i: int| 0 <= i < (r1 + r2).len() implies is_run(p, #[trigger] (r1 + r2)[i]) by {
        if i < r1.len() {
            assert((r1 + r2)[i] == r1[i]);
        } else {
            assert((r1 + r2)[i] == r2[i - r1.len()]);
        }
    }
    assert(are_runs(p, r1 + r2));
}

/// The draws of at least one whole run begin with a whole run, and what
/// follows it are the draws of one run fewer.
pub proof fn lemma_first_run(p: int, n: nat, d: Seq<u64>) -> (parts: (Seq<u64>, Seq<u64>))
    requires
        splits_into_runs(p, n, d),
        n >= 1,
    ensures
        d == parts.0 + parts.1,
        is_run(p, parts.0),
        splits_into_runs(p, (n - 1) as nat, parts.1),
{
    let runs = choose|runs: Seq<Seq<u64>>|
        runs.len() == n && #[trigger] are_runs(p, runs) && d == concat(runs);
    let head = runs.take(1);
    let tail = runs.skip(1);
    assert(runs =~= head + tail);
    lemma_concat_add(head, tail);
    assert(head.drop_last() =~= Seq::<Seq<u64>>::empty());
    assert(concat(head) =~= runs[0]) by {
        assert(head.last() == runs[0]);
        assert(concat(head.drop_last()) =~= Seq::<u64>::empty());
    }
    assert forall|i: int| 0 <= i < tail.len() implies is_run(p, #[trigger] tail[i]) by {
        assert(tail[i] == runs[i + 1]);
    }
    assert(are_runs(p, tail));
    assert(is_run(p, runs[0]));
    (runs[0], concat(tail))
}

/// The draws decide the trials: the draws of `n` whole runs that agree with
/// the draws of `n` other whole runs wherever both hold a draw are the same.
pub proof fn lemma_runs_determined(p: int, n: nat, a: Seq<u64>, b: Seq<u64>)
    requires
        splits_into_runs(p, n, a),
        splits_into_runs(p, n, b),
        agree(a, b),
    ensures
        a == b,
    decreases n,
{
    if n == 0 {
        let ra = choose|runs: Seq<Seq<u64>>|
            runs.len() == n && #[trigger] are_runs(p, runs) && a == concat(runs);
        let rb = choose|runs: Seq<Seq<u64>>|
            runs.len() == n && #[trigger] are_runs(p, runs) && b == concat(runs);
        assert(a =~= b);
    } else {
        let (a0, a1) = lemma_first_run(p, n, a);
        let (b0, b1) = lemma_first_run(p, n, b);
        assert forall|i: int| 0 <= i < a0.len() && i < b0.len() implies a0[i] == b0[i] by {
            assert(a[i] == a0[i]);
            assert(b[i] == b0[i]);
        }
        lemma_run_determined(p, a0, b0);
        assert forall|i: int| 0 <= i < a1.len() && i < b1.len() implies a1[i] == b1[i] by {
            assert(a[a0.len() + i] == a1[i]);
            assert(b[b0.len() + i] == b1[i]);
        }
        lemma_runs_determined(p, (n - 1) as nat, a1, b1);
    }
}

/// Trials add up: on draws known beforehand, the draws of `n1 + n2` trials
/// are those of `n1` trials followed by those of `n2` trials on what the
/// first left, so that the steps of the two add up to the steps of all.
pub proof fn lemma_trials_add_up(
    p: int,
    known: Seq<u64>,
    n1: nat,
    d1: Seq<u64>,
    n2: nat,
    d2: Seq<u64>,
    d: Seq<u64>,
)
    requires
        splits_into_runs(p, n1, d1),
        splits_into_runs(p, n2, d2),
        splits_into_runs(p, n1 + n2, d),
        foretold(known, d1),
        foretold(left_after(known, d1.len()), d2),
        foretold(known, d),
        d.len() <= known.len(),
        d1.len() + d2.len() <= known.len(),
    ensures
        d == d1 + d2,
        d.len() == d1.len() + d2.len(),
{
    lemma_foretold_join(known, d1, d2);
    lemma_runs_join(p, n1, d1, n2, d2);
    assert forall|i: int| 0 <= i < d.len() && i < (d1 + d2).len() implies d[i] == (d1 + d2)[i] by {
        assert(d[i] == known[i]);
        assert((d1 + d2)[i] == known[i]);
    }
    lemma_runs_determined(p, n1 + n2, d, d1 + d2);
}

/// The reset rate over `n` runs made one after another on `src`: `n` over the
/// steps of all runs. The draws made are those of `n` whole runs, and the
/// denominator is their number. They are the draws that were known
/// beforehand, as far as any were.
pub fn sim_repeated<S: UniformSource>(p: Frac, n: u64, src: &mut S) -> (r: Ratio)
    ensures
        r.num == n,
        r.den >= n,
        old(src).drawn().is_prefix_of(final(src).drawn()),
        splits_into_runs(p@, n as nat, fresh_draws(old(src).drawn(), final(src).drawn())),
        r.den == fresh_draws(old(src).drawn(), final(src).drawn()).len(),
        foretold(old(src).known(), fresh_draws(old(src).drawn(), final(src).drawn())),
        final(src).known() == left_after(old(src).known(), r.den as nat),
{
    let mut total: u128 = 0;
    let mut i: u64 = 0;
    let ghost before = src.drawn();
    let ghost known = src.known();
    let ghost mut runs: Seq<Seq<u64>> = Seq::empty();
    proof {
        assert(before + concat(runs) =~= before);
        assert(left_after(known, 0) =~= known);
    }
    while i < n
        invariant
            i <= n,
            runs.len() == i,
            are_runs(p@, runs),
            total == total_len(runs),
            src.drawn() == before + concat(runs),
            foretold(known, concat(runs)),
            src.known() == left_after(known, concat(runs).len()),
        decreases n - i,
    {
        let ghost mid = src.drawn();
        let len = simulate_run(p, src);
        proof {
            let d = fresh_draws(mid, src.drawn());
            assert(src.drawn() =~= mid + d);
            lemma_foretold_join(known, concat(runs), d);
            lemma_total_len_bounds(p@, runs);
            assert(i * u64::MAX + len <= u128::MAX) by (nonlinear_arith)
                requires
                    i < u64::MAX,
                    len <= u64::MAX,
            ;
            assert(runs.push(d).drop_last() =~= runs);
            assert((before + concat(runs)) + d =~= before + (concat(runs) + d));
            runs = runs.push(d);
        }
        total = total + len as u128;
        i = i + 1;
    }
    proof {
        lemma_total_len_bounds(p@, runs);
        lemma_concat_len(runs);
        lemma_fresh_draws(before, concat(runs));
    }
    Ratio { num: n as u128, den: total }
}

/// The run of successes that the stream is in after the draws `d`.
pub open spec fn streak(p: int, d: Seq<u64>) -> nat
    decreases d.len(),
{
    if d.len() == 0 {
        0
    } else {
        let before = streak(p, d.drop_last());
        if succeeds(p, before + 1, d.last()) {
            before + 1
        } else {
            0
        }
    }
}

/// Whether draw `i` of the stream `d` is a failure, which resets the
/// probability of success to the base probability.
pub open spec fn resets_at(p: int, d: Seq<u64>, i: int) -> bool {
    !succeeds(p, streak(p, d.take(i)) + 1, d[i])
}

/// The number of failures among the draws `d`.
pub open spec fn resets(p: int, d: Seq<u64>) -> nat
    decreases d.len(),
{
    if d.len() == 0 {
        0
    } else {
        resets(p, d.drop_last()) + if resets_at(p, d, d.len() - 1) {
            1nat
        } else {
            0nat
        }
    }
}

/// What one more draw adds to a stream: a success lengthens the run of
/// successes, a failure ends it and is counted.
pub proof fn lemma_stream_push(p: int, d: Seq<u64>, u: u64)
    ensures
        streak(p, d.push(u)) == if succeeds(p, streak(p, d) + 1, u) {
            streak(p, d) + 1
        } else {
            0
        },
        resets(p, d.push(u)) == resets(p, d) + if succeeds(p, streak(p, d) + 1, u) {
            0nat
        } else {
            1nat
        },
{
    let e = d.push(u);
    assert(e.drop_last() =~= d);
    assert(e.take(d.len() as int) =~= d);
}

/// A stream has at most as many failures as draws.
pub proof fn lemma_resets_bound(p: int, d: Seq<u64>)
    ensures
        resets(p, d) <= d.len(),
    decreases d.len(),
{
    if d.len() > 0 {
        lemma_resets_bound(p, d.drop_last());
    }
}

/// A stream that is between two runs and goes through the first `k` draws of
/// a run is `k` successes into that run and has counted no further failure.
proof fn lemma_stream_within_run(p: int, h: Seq<u64>, d: Seq<u64>, k: nat)
    requires
        streak(p, h) == 0,
        k < d.len(),
        forall|i: int| 0 <= i < d.len() - 1 ==> succeeds(p, (i + 1) as nat, #[trigger] d[i]),
    ensures
        streak(p, h + d.take(k as int)) == k,
        resets(p, h + d.take(k as int)) == resets(p, h),
    decreases k,
{
    if k == 0 {
        assert(h + d.take(0) =~= h);
    } else {
        let j = (k - 1) as nat;
        lemma_stream_within_run(p, h, d, j);
        let prev = h + d.take(j as int);
        assert(h + d.take(k as int) =~= prev.push(d[j as int]));
        lemma_stream_push(p, prev, d[j as int]);
    }
}

/// A stream that is between two runs and goes through the draws of one
/// whole run counts one failure more and is between two runs again.
proof fn lemma_stream_after_run(p: int, h: Seq<u64>, d: Seq<u64>)
    requires
        streak(p, h) == 0,
        is_run(p, d),
        d.len() < u64::MAX,
    ensures
        streak(p, h + d) == 0,
        resets(p, h + d) == resets(p, h) + 1,
{
    let k = (d.len() - 1) as nat;
    lemma_stream_within_run(p, h, d, k);
    let prev = h + d.take(k as int);
    assert(h + d =~= prev.push(d.last()));
    lemma_stream_push(p, prev, d.last());
}

/// The continuous stream and the trials count alike: over the draws of
/// whole runs, none of them cut off, a stream counts one failure for each
/// run and ends between two runs. A stream of as many steps as `n` trials
/// took, on the same draws, therefore gives the same ratio as the trials:
/// `n` over the number of draws.
pub proof fn lemma_stream_counts_runs(p: int, runs: Seq<Seq<u64>>)
    requires
        are_runs(p, runs),
        forall|i: int| 0 <= i < runs.len() ==> (#[trigger] runs[i]).len() < u64::MAX,
    ensures
        resets(p, concat(runs)) == runs.len(),
        streak(p, concat(runs)) == 0,
        concat(runs).len() == total_len(runs),
    decreases runs.len(),
{
    lemma_concat_len(runs);
    if runs.len() > 0 {
        let front = runs.drop_last();
        assert forall|i: int| 0 <= i < front.len() implies is_run(p, #[trigger] front[i]) by {
            assert(front[i] == runs[i]);
        }
        assert forall|i: int| 0 <= i < front.len() implies (#[trigger] front[i]).len()
            < u64::MAX by {
            assert(front[i] == runs[i]);
        }
        lemma_stream_counts_runs(p, front);
        assert(is_run(p, runs[runs.len() - 1]));
        lemma_stream_after_run(p, concat(front), runs.last());
    }
}

/// The reset rate of one continuous stream of `n` draws from `src`, in which
/// every failure resets the probability of success to the base probability:
/// the failures over the steps taken. The stream ends once `n` steps have
/// been taken, whether or not the last one failed. The draws made are the
/// draws that were known beforehand, as far as any were.
pub fn sim<S: UniformSource>(p: Frac, n: u64, src: &mut S) -> (r: Ratio)
    ensures
        old(src).drawn().is_prefix_of(final(src).drawn()),
        fresh_draws(old(src).drawn(), final(src).drawn()).len() == n,
        in_range(fresh_draws(old(src).drawn(), final(src).drawn())),
        r.num == resets(p@, fresh_draws(old(src).drawn(), final(src).drawn())),
        r.den == n,
        r.num <= r.den,
        foretold(old(src).known(), fresh_draws(old(src).drawn(), final(src).drawn())),
        final(src).known() == left_after(old(src).known(), n as nat),
{
    let mut l: u64 = 0;
    let mut c: u64 = 0;
    let mut cp = p;
    let ghost before = src.drawn();
    let ghost known = src.known();
    let ghost mut d: Seq<u64> = Seq::empty();
    proof {
        lemma_fpow_one(p@);
        assert(before + d =~= before);
        assert(left_after(known, 0) =~= known);
    }
    while l < n
        invariant
            l <= n,
            d.len() == l,
            in_range(d),
            cp@ == fpow(p@, streak(p@, d) + 1),
            c == resets(p@, d),
            c <= l,
            src.drawn() == before + d,
            foretold(known, d),
            src.known() == left_after(known, d.len()),
        decreases n - l,
    {
        let u = src.draw();
        proof {
            lemma_stream_push(p@, d, u);
            lemma_fpow_one(p@);
            assert(fpow(p@, streak(p@, d) + 2) == fmul(fpow(p@, streak(p@, d) + 1), p@));
            assert((before + d).push(u) =~= before + d.push(u));
            lemma_foretold_join(known, d, seq![u]);
            assert(d + seq![u] =~= d.push(u));
            d = d.push(u);
        }
        if u <= cp.raw() {
            cp = cp.mul(&p);
        } else {
            cp = p;
            c = c + 1;
        }
        l = l + 1;
    }
    proof {
        lemma_fresh_draws(before, d);
    }
    Ratio { num: c as u128, den: l as u128 }
}

} // verus!
