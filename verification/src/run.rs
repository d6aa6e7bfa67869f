//! One run of the compounding process.
use crate::frac::{fpow, lemma_fpow_one, Frac};
use crate::source::{
    foretold, fresh_draws, in_range, left_after, lemma_foretold_join, lemma_fresh_draws,
    UniformSource,
};
use vstd::prelude::*;

verus! {

/// Whether the draw `u` is a success at step `step` of a run with base
/// probability `p / SCALE`. Steps count from one, and the probability of
/// success at a step is the base probability raised to the step's number.
pub open spec fn succeeds(p: int, step: nat, u: u64) -> bool {
    u <= fpow(p, step)
}

/// Whether `d` holds the draws of one whole run: every draw is in range,
/// every draw but the last is a success, and the last is a failure. A run
/// that has not failed after `u64::MAX` steps is cut off there.
pub open spec fn is_run(p: int, d: Seq<u64>) -> bool {
    &&& 1 <= d.len() <= u64::MAX
    &&& in_range(d)
    &&& forall|i: int| 0 <= i < d.len() - 1 ==> succeeds(p, (i + 1) as nat, #[trigger] d[i])
    &&& (!succeeds(p, d.len(), d.last()) || d.len() == u64::MAX)
}

/// Whether two sequences of draws hold the same draw wherever both hold one.
pub open spec fn agree(a: Seq<u64>, b: Seq<u64>) -> bool {
    forall|i: int| 0 <= i < a.len() && i < b.len() ==> a[i] == b[i]
}

/// The draws decide the run: two whole runs that agree wherever both hold a
/// draw are the same run.
pub proof fn lemma_run_determined(p: int, a: Seq<u64>, b: Seq<u64>)
    requires
        is_run(p, a),
        is_run(p, b),
        agree(a, b),
    ensures
        a == b,
{
    if a.len() < b.len() {
        assert(succeeds(p, a.len(), b[a.len() - 1]));
        assert(a[a.len() - 1] == b[a.len() - 1]);
    } else if b.len() < a.len() {
        assert(succeeds(p, b.len(), a[b.len() - 1]));
        assert(a[b.len() - 1] == b[b.len() - 1]);
    }
    assert(a =~= b);
}

/// A run on draws known beforehand ends with the first of them that fails:
/// if the draw in place `k` fails at its step and all before it succeed, the
/// run is made of the draws up to and including that one.
pub proof fn lemma_run_foretold(p: int, known: Seq<u64>, d: Seq<u64>, k: nat)
    requires
        is_run(p, d),
        foretold(known, d),
        k < known.len(),
        k + 1 < u64::MAX,
        forall|i: int| 0 <= i < k ==> succeeds(p, (i + 1) as nat, #[trigger] known[i]),
        !succeeds(p, k + 1, known[k as int]),
    ensures
        d == known.take((k + 1) as int),
{
    if d.len() <= k {
        let last = d.len() - 1;
        assert(d[last] == known[last]);
        assert(succeeds(p, (last + 1) as nat, known[last]));
    } else if d.len() > k + 1 {
        assert(d[k as int] == known[k as int]);
        assert(succeeds(p, k + 1, d[k as int]));
    }
    assert forall|i: int| 0 <= i < d.len() implies d[i] == known.take((k + 1) as int)[i] by {
        assert(d[i] == known[i]);
    }
    assert(d =~= known.take((k + 1) as int));
}

/// Runs the process once on draws from `src` and returns the number of steps
/// taken, the failing one included. The draws made are those of one whole
/// run, and the result is their number. They are the draws that were known
/// beforehand, as far as any were.
pub fn simulate_run<S: UniformSource>(p: Frac, src: &mut S) -> (len: u64)
    ensures
        len >= 1,
        old(src).drawn().is_prefix_of(final(src).drawn()),
        is_run(p@, fresh_draws(old(src).drawn(), final(src).drawn())),
        len == fresh_draws(old(src).drawn(), final(src).drawn()).len(),
        foretold(old(src).known(), fresh_draws(old(src).drawn(), final(src).drawn())),
        final(src).known() == left_after(old(src).known(), len as nat),
{
    let mut cp = p;
    let mut len: u64 = 0;
    let ghost before = src.drawn();
    let ghost known = src.known();
    let ghost mut d: Seq<u64> = Seq::empty();
    proof {
        lemma_fpow_one(p@);
        assert(left_after(known, 0) =~= known);
    }
    loop
        invariant_except_break
            len < u64::MAX,
            cp@ == fpow(p@, (len + 1) as nat),
            forall|i: int| 0 <= i < d.len() ==> succeeds(p@, (i + 1) as nat, #[trigger] d[i]),
        invariant
            d.len() == len,
            in_range(d),
            src.drawn() == before + d,
            foretold(known, d),
            src.known() == left_after(known, d.len()),
        ensures
            len >= 1,
            is_run(p@, d),
        decreases u64::MAX - len,
    {
        let u = src.draw();
        len = len + 1;
        proof {
            assert((before + d).push(u) == before + d.push(u));
            lemma_foretold_join(known, d, seq![u]);
            assert(d + seq![u] =~= d.push(u));
            d = d.push(u);
        }
        if u > cp.raw() || len == u64::MAX {
            break ;
        }
        cp = cp.mul(&p);
    }
    proof {
        lemma_fresh_draws(before, d);
    }
    len
}

} // verus!
