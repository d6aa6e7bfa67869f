use bernoulli_runs::frac::SCALE;
use bernoulli_runs::source::{PcgSource, ReplaySource, ThreadSource, UniformSource};
use rand::SeedableRng;
use rand_pcg::Pcg64Mcg;

#[test]
fn replay_gives_the_recording_in_order() {
    let mut src = ReplaySource::new(vec![5, 0, SCALE - 1, 42]);
    assert_eq!(src.draw(), 5);
    assert_eq!(src.draw(), 0);
    assert_eq!(src.draw(), SCALE - 1);
    assert_eq!(src.draw(), 42);
}

#[test]
fn replay_clamps_values_out_of_range() {
    let mut src = ReplaySource::new(vec![SCALE, u64::MAX, SCALE + 7]);
    assert_eq!(src.draw(), SCALE - 1);
    assert_eq!(src.draw(), SCALE - 1);
    assert_eq!(src.draw(), SCALE - 1);
}

#[test]
fn replay_ends_with_the_largest_draw() {
    let mut src = ReplaySource::new(vec![1]);
    assert_eq!(src.draw(), 1);
    for _ in 0..10 {
        assert_eq!(src.draw(), SCALE - 1);
    }
    let mut empty = ReplaySource::new(Vec::new());
    assert_eq!(empty.draw(), SCALE - 1);
}

#[test]
fn pcg_draws_are_below_scale() {
    let mut src = PcgSource::seeded(7);
    for _ in 0..10_000 {
        assert!(src.draw() < SCALE);
    }
}

#[test]
fn pcg_with_one_seed_gives_one_stream() {
    let mut a = PcgSource::seeded(2024);
    let mut b = PcgSource::seeded(2024);
    let mut c = PcgSource::seeded(2025);
    let mut differs = false;
    for _ in 0..100 {
        let x = a.draw();
        assert_eq!(x, b.draw());
        if x != c.draw() {
            differs = true;
        }
    }
    assert!(differs);
}

#[test]
fn pcg_draws_the_top_bits_of_the_generator() {
    let mut src = PcgSource::new(Pcg64Mcg::seed_from_u64(99));
    let mut rng = Pcg64Mcg::seed_from_u64(99);
    for _ in 0..100 {
        let word = rand::RngCore::next_u64(&mut rng);
        assert_eq!(src.draw(), word >> 11);
    }
}

#[test]
fn pcg_draws_match_the_generators_floats() {
    let mut src = PcgSource::seeded(5);
    let mut rng = Pcg64Mcg::seed_from_u64(5);
    for _ in 0..100 {
        let x: f64 = rand::Rng::gen(&mut rng);
        assert_eq!(src.draw() as f64 / SCALE as f64, x);
    }
}

#[test]
fn pcg_draws_vary() {
    let mut src = PcgSource::seeded(1);
    let first = src.draw();
    let mut varies = false;
    for _ in 0..100 {
        if src.draw() != first {
            varies = true;
        }
    }
    assert!(varies);
}

#[test]
fn thread_draws_are_below_scale_and_vary() {
    let mut src = ThreadSource::new();
    let first = src.draw();
    assert!(first < SCALE);
    let mut varies = false;
    for _ in 0..1000 {
        let u = src.draw();
        assert!(u < SCALE);
        if u != first {
            varies = true;
        }
    }
    assert!(varies);
}
