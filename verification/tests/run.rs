use bernoulli_runs::frac::{Frac, SCALE};
use bernoulli_runs::run::simulate_run;
use bernoulli_runs::source::{PcgSource, ReplaySource, ThreadSource, UniformSource};

fn half() -> Frac {
    Frac::new(SCALE / 2).unwrap()
}

#[test]
fn immediate_failure_costs_one_step() {
    let mut src = ReplaySource::new(vec![SCALE / 2 + 1]);
    assert_eq!(simulate_run(half(), &mut src), 1);
}

#[test]
fn a_draw_equal_to_the_probability_succeeds() {
    let mut src = ReplaySource::new(vec![SCALE / 2, SCALE / 4, SCALE / 8 + 1]);
    assert_eq!(simulate_run(half(), &mut src), 3);
}

#[test]
fn the_probability_compounds_after_each_success() {
    // The second step succeeds with probability 1/4, so a draw just above
    // 1/4 ends the run there although it is below the base probability.
    let mut src = ReplaySource::new(vec![0, SCALE / 4 + 1, 0]);
    assert_eq!(simulate_run(half(), &mut src), 2);
    // What is left of the recording belongs to the next run.
    assert_eq!(src.draw(), 0);
}

#[test]
fn a_run_uses_exactly_its_own_draws() {
    let mut src = ReplaySource::new(vec![0, 0, 0, SCALE - 1, 7]);
    assert_eq!(simulate_run(half(), &mut src), 4);
    assert_eq!(src.draw(), 7);
}

#[test]
fn a_run_ends_when_the_recording_does() {
    let mut src = ReplaySource::new(vec![0, 0]);
    assert_eq!(simulate_run(half(), &mut src), 3);
}

#[test]
fn a_long_run_of_zero_draws() {
    let mut src = ReplaySource::new(vec![0; 500]);
    assert_eq!(simulate_run(half(), &mut src), 501);
}

#[test]
fn base_probability_zero_fails_on_any_positive_draw() {
    let mut src = ReplaySource::new(vec![1]);
    assert_eq!(simulate_run(Frac::zero(), &mut src), 1);
    let mut src = ReplaySource::new(vec![0, 0, 1]);
    assert_eq!(simulate_run(Frac::zero(), &mut src), 3);
}

#[test]
fn run_length_is_at_least_one() {
    let mut pcg = PcgSource::seeded(11);
    let mut thread = ThreadSource::new();
    for raw in [0, 1, SCALE / 1000, SCALE / 2, SCALE - SCALE / 8] {
        let p = Frac::new(raw).unwrap();
        for _ in 0..2000 {
            assert!(simulate_run(p, &mut pcg) >= 1);
            assert!(simulate_run(p, &mut thread) >= 1);
        }
    }
}

#[test]
fn seeded_runs_repeat() {
    let p = Frac::new(SCALE - SCALE / 16).unwrap();
    let mut a = PcgSource::seeded(3);
    let mut b = PcgSource::seeded(3);
    let mut longest = 0;
    for _ in 0..1000 {
        let len = simulate_run(p, &mut a);
        assert_eq!(len, simulate_run(p, &mut b));
        if len > longest {
            longest = len;
        }
    }
    assert!(longest > 1);
}
