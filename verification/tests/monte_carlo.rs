use bernoulli_runs::closed_form::sim_closed;
use bernoulli_runs::frac::{Frac, SCALE};
use bernoulli_runs::monte_carlo::{sim, sim_repeated, sim_threaded};
use bernoulli_runs::ratio::Ratio;
use bernoulli_runs::source::{PcgSource, ReplaySource, UniformSource};

fn half() -> Frac {
    Frac::new(SCALE / 2).unwrap()
}

fn value(r: Ratio) -> f64 {
    r.num as f64 / r.den as f64
}

#[test]
fn sequential_trials_on_a_recording() {
    let recording = vec![SCALE / 2 + 1, 0, 0, SCALE - 1, 1, SCALE / 4 + 1, 9];
    let mut src = ReplaySource::new(recording);
    let r = sim_repeated(half(), 3, &mut src);
    assert_eq!(r, Ratio { num: 3, den: 6 });
    assert_eq!(src.draw(), 9);
}

#[test]
fn sequential_trials_of_immediate_failures() {
    let mut src = ReplaySource::new(vec![SCALE - 1; 10]);
    let r = sim_repeated(half(), 10, &mut src);
    assert_eq!(r, Ratio { num: 10, den: 10 });
}

#[test]
fn sequential_trials_without_trials() {
    let mut src = ReplaySource::new(vec![3]);
    let r = sim_repeated(half(), 0, &mut src);
    assert_eq!(r, Ratio { num: 0, den: 0 });
    assert_eq!(src.draw(), 3);
}

#[test]
fn parallel_trials_without_trials() {
    assert_eq!(sim_threaded(half(), 0), Ratio { num: 0, den: 0 });
}

#[test]
fn parallel_trials_count_every_run() {
    let r = sim_threaded(Frac::new(SCALE - SCALE / 10).unwrap(), 1000);
    assert_eq!(r.num, 1000);
    // With a base probability of 0.9 most runs take more than one step.
    assert!(r.den > 1000);
    assert!(r.den < 1000 * 100);
}

#[test]
fn parallel_trials_with_base_probability_zero() {
    // A draw of exactly zero has probability 2^-53, so every run fails at once.
    let r = sim_threaded(Frac::zero(), 500);
    assert_eq!(r, Ratio { num: 500, den: 500 });
}

#[test]
fn continuous_stream_on_a_recording() {
    // Failure, two successes, failure: two failures in four steps.
    let mut src = ReplaySource::new(vec![SCALE / 2 + 1, 0, 0, SCALE - 1, 5]);
    let r = sim(half(), 4, &mut src);
    assert_eq!(r, Ratio { num: 2, den: 4 });
    assert_eq!(src.draw(), 5);
}

#[test]
fn continuous_stream_stops_after_the_steps_asked_for() {
    // The second step is a success: the stream ends there all the same and
    // leaves the draws that follow.
    let mut src = ReplaySource::new(vec![SCALE - 1, 0, 7, 0, SCALE / 16 + 1]);
    let r = sim(half(), 2, &mut src);
    assert_eq!(r, Ratio { num: 1, den: 2 });
    assert_eq!(src.draw(), 7);
}

#[test]
fn continuous_stream_resets_the_probability_on_failure() {
    // The draw of 3/8 fails as the second step of a run and succeeds as the
    // first step of the next one.
    let three_eighths = 3 * (SCALE / 8);
    let recording = vec![0, three_eighths, three_eighths, SCALE - 1];
    let r = sim(half(), 3, &mut ReplaySource::new(recording.clone()));
    assert_eq!(r, Ratio { num: 1, den: 3 });
    let r = sim(half(), 4, &mut ReplaySource::new(recording));
    assert_eq!(r, Ratio { num: 2, den: 4 });
}

#[test]
fn continuous_stream_asked_for_nothing() {
    let mut src = ReplaySource::new(vec![SCALE - 1]);
    assert_eq!(sim(half(), 0, &mut src), Ratio { num: 0, den: 0 });
    assert_eq!(src.draw(), SCALE - 1);
}

#[test]
fn continuous_stream_of_failures_has_rate_one() {
    let three_quarters = 3 * (SCALE / 4);
    let mut src = ReplaySource::new(vec![three_quarters; 8]);
    assert_eq!(sim(half(), 3, &mut src), Ratio { num: 3, den: 3 });
    let mut src = ReplaySource::new(vec![SCALE - 1; 8]);
    assert_eq!(sim(half(), 5, &mut src), Ratio { num: 5, den: 5 });
}

#[test]
fn continuous_stream_of_successes_has_rate_zero() {
    let mut src = ReplaySource::new(vec![0; 8]);
    assert_eq!(sim(half(), 8, &mut src), Ratio { num: 0, den: 8 });
}

#[test]
fn continuous_stream_rate_is_at_most_one() {
    for seed in 0..50 {
        for raw in [0, 1, SCALE / 3, SCALE - 1, SCALE] {
            let r = sim(Frac::new(raw).unwrap(), 100, &mut PcgSource::seeded(seed));
            assert_eq!(r.den, 100);
            assert!(r.num <= r.den);
        }
    }
}

#[test]
fn sequential_trials_restart_at_the_base_probability() {
    // Both runs have two steps: 3/8 succeeds at the base probability 1/2,
    // where the compounded 1/4 of the run before would fail it.
    let three_eighths = 3 * (SCALE / 8);
    let three_quarters = 3 * (SCALE / 4);
    let recording = vec![three_eighths, three_quarters, three_eighths, three_quarters, 11];
    let mut src = ReplaySource::new(recording);
    assert_eq!(sim_repeated(half(), 2, &mut src), Ratio { num: 2, den: 4 });
    assert_eq!(src.draw(), 11);
}

#[test]
fn sequential_trials_take_a_draw_equal_to_the_probability_as_success() {
    let mut src = ReplaySource::new(vec![SCALE / 2, 3 * (SCALE / 4)]);
    assert_eq!(sim_repeated(half(), 1, &mut src), Ratio { num: 1, den: 2 });
}

#[test]
fn sequential_trials_add_up() {
    let p = Frac::new(SCALE - SCALE / 8).unwrap();
    for seed in 0..10 {
        let all = sim_repeated(p, 700, &mut PcgSource::seeded(seed));
        let mut src = PcgSource::seeded(seed);
        let first = sim_repeated(p, 300, &mut src);
        let second = sim_repeated(p, 400, &mut src);
        assert_eq!(all.den, first.den + second.den);
    }
    let recording = vec![0, SCALE - 1, SCALE - 1, 0, 0, SCALE - 1, 0, SCALE - 1];
    let all = sim_repeated(half(), 4, &mut ReplaySource::new(recording.clone()));
    let mut src = ReplaySource::new(recording);
    let first = sim_repeated(half(), 1, &mut src);
    let second = sim_repeated(half(), 3, &mut src);
    assert_eq!(first, Ratio { num: 1, den: 2 });
    assert_eq!(second, Ratio { num: 3, den: 6 });
    assert_eq!(all, Ratio { num: 4, den: 8 });
}

#[test]
fn seeded_estimates_repeat() {
    let p = Frac::new(SCALE / 3).unwrap();
    let a = sim_repeated(p, 5000, &mut PcgSource::seeded(17));
    let b = sim_repeated(p, 5000, &mut PcgSource::seeded(17));
    assert_eq!(a, b);
    let a = sim(p, 5000, &mut PcgSource::seeded(17));
    let b = sim(p, 5000, &mut PcgSource::seeded(17));
    assert_eq!(a, b);
}

#[test]
fn estimators_agree_with_the_closed_form() {
    let p = half();
    let exact = value(sim_closed(p, 5000));
    let sequential = value(sim_repeated(p, 200_000, &mut PcgSource::seeded(1)));
    let continuous = value(sim(p, 300_000, &mut PcgSource::seeded(2)));
    let parallel = value(sim_threaded(p, 200_000));
    assert!((sequential - exact).abs() < 5e-3);
    assert!((continuous - exact).abs() < 5e-3);
    assert!((parallel - exact).abs() < 5e-3);
}

#[test]
fn sampling_error_shrinks_with_more_trials() {
    let p = half();
    let exact = value(sim_closed(p, 5000));
    // Mean absolute error over several seeds, at 100 and at 10 000 trials.
    let mut few = 0.0;
    let mut many = 0.0;
    for seed in 0..20 {
        few += (value(sim_repeated(p, 100, &mut PcgSource::seeded(seed))) - exact).abs();
        many += (value(sim_repeated(p, 10_000, &mut PcgSource::seeded(seed))) - exact).abs();
    }
    assert!(many < few / 3.0);
}

#[test]
fn parallel_and_sequential_agree_over_1000_trials() {
    let p = Frac::new(SCALE / 1024).unwrap();
    let exact = value(sim_closed(p, 5000));
    let sequential = value(sim_repeated(p, 1000, &mut PcgSource::seeded(42)));
    let parallel = value(sim_threaded(p, 1000));
    assert!((parallel - sequential).abs() < 1e-2);
    assert!((parallel - exact).abs() < 1e-2);
    assert!((sequential - exact).abs() < 1e-2);
}

#[test]
fn the_stream_counts_the_runs_of_the_trials() {
    // Over the draws of 1000 whole runs a stream sees one failure for each
    // run, and so gives the ratio that the trials give.
    for (raw, seed) in [(SCALE / 2, 5), (SCALE / 50, 6), (SCALE - SCALE / 20, 7)] {
        let p = Frac::new(raw).unwrap();
        let trials = sim_repeated(p, 1000, &mut PcgSource::seeded(seed));
        assert_eq!(trials.num, 1000);
        let stream = sim(p, trials.den as u64, &mut PcgSource::seeded(seed));
        assert_eq!(stream, trials);
    }
}
