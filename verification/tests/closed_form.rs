use bernoulli_runs::closed_form::sim_closed;
use bernoulli_runs::frac::{Frac, SCALE};
use bernoulli_runs::ratio::Ratio;

fn half() -> Frac {
    Frac::new(SCALE / 2).unwrap()
}

fn value(r: Ratio) -> f64 {
    r.num as f64 / r.den as f64
}

#[test]
fn closed_form_at_one_half_and_20_terms() {
    let r = sim_closed(half(), 20);
    assert_eq!(r, Ratio { num: SCALE as u128, den: 14_786_511_576_891_648 });
    assert!((value(r) - 0.609_149_711_066_229).abs() < 1e-14);
}

#[test]
fn closed_form_of_an_empty_series() {
    assert_eq!(sim_closed(half(), 0), Ratio { num: SCALE as u128, den: 0 });
    assert_eq!(sim_closed(half(), 1), Ratio { num: SCALE as u128, den: 0 });
}

#[test]
fn closed_form_of_one_term() {
    // 1 * (1 - p)
    let r = sim_closed(half(), 2);
    assert_eq!(r, Ratio { num: SCALE as u128, den: (SCALE / 2) as u128 });
    let r = sim_closed(Frac::new(SCALE / 4).unwrap(), 2);
    assert_eq!(r, Ratio { num: SCALE as u128, den: (3 * (SCALE / 4)) as u128 });
}

#[test]
fn closed_form_of_two_terms() {
    // 1 * (1 - 1/2) + 2 * (1/2) * (1 - 1/4) = 5/4
    let r = sim_closed(half(), 3);
    assert_eq!(r, Ratio { num: SCALE as u128, den: 5 * (SCALE / 4) as u128 });
}

#[test]
fn closed_form_of_ten_terms() {
    assert_eq!(sim_closed(half(), 10).den, 14_786_511_576_889_088);
}

#[test]
fn closed_form_at_one_third() {
    let p = Frac::new(3_002_399_751_580_330).unwrap();
    assert_eq!(sim_closed(p, 50).den, 12_355_707_699_551_349);
}

#[test]
fn closed_form_at_the_ends_of_the_interval() {
    // With base probability zero every run has one step.
    assert_eq!(sim_closed(Frac::zero(), 5), Ratio { num: SCALE as u128, den: SCALE as u128 });
    // With base probability one no run ever ends.
    assert_eq!(sim_closed(Frac::one(), 5), Ratio { num: SCALE as u128, den: 0 });
}

#[test]
fn closed_form_falls_as_the_probability_rises() {
    let low = sim_closed(Frac::new(2_702_159_776_422_297).unwrap(), 100);
    let high = sim_closed(Frac::new(3_602_879_701_896_397).unwrap(), 100);
    assert_eq!(low.den, 11_959_172_975_246_582);
    assert_eq!(high.den, 13_224_387_381_470_386);
    assert!(value(low) > value(high));
    let mut last = f64::INFINITY;
    for k in 1..100u64 {
        let rate = value(sim_closed(Frac::new(k * (SCALE / 100)).unwrap(), 5000));
        assert!(rate < last);
        last = rate;
    }
}

#[test]
fn closed_form_settles_as_the_bound_grows() {
    let p = half();
    let settled = sim_closed(p, 20);
    for n in [21, 50, 100, 1000, 100_000] {
        assert_eq!(sim_closed(p, n), settled);
    }
    let p = Frac::new(8_106_479_329_266_893).unwrap();
    assert_eq!(sim_closed(p, 50).den, 35_239_557_897_824_319);
    assert_eq!(sim_closed(p, 5000).den, 35_239_557_897_824_319);
    assert!(sim_closed(p, 10).den < sim_closed(p, 20).den);
}

#[test]
fn closed_form_stays_near_the_floating_point_series() {
    for (p, n) in [(0.5f64, 20u64), (0.25, 100), (0.9, 300), (0.99, 1000)] {
        let mut series = 0.0f64;
        for j in 1..n {
            let c = (j * (j - 1) / 2) as i32;
            series += j as f64 * p.powi(c) * (1.0 - p.powi(j as i32));
        }
        let frac = Frac::new((p * SCALE as f64) as u64).unwrap();
        assert!((value(sim_closed(frac, n)) - 1.0 / series).abs() < 1e-11);
    }
}

#[test]
fn closed_form_falls_between_adjacent_probabilities() {
    // One unit apart, where the square of the probability first rounds to
    // a unit.
    let low = sim_closed(Frac::new(94_906_265).unwrap(), 5000);
    let high = sim_closed(Frac::new(94_906_266).unwrap(), 5000);
    assert_eq!(low.den, 9_007_199_349_647_257);
    assert_eq!(high.den, 9_007_199_349_647_258);
    assert!(low.num * high.den > high.num * low.den);
    // One unit apart at one half, where no product rounds.
    let low = sim_closed(half(), 200);
    let high = sim_closed(Frac::new(SCALE / 2 + 1).unwrap(), 200);
    assert_eq!(low.den, 14_786_511_576_891_648);
    assert_eq!(high.den, 14_786_511_576_891_649);
    // One unit apart all along a stretch, and at scattered places.
    let mut last = sim_closed(Frac::new(SCALE / 3).unwrap(), 5000).den;
    for k in 1..2000u64 {
        let den = sim_closed(Frac::new(SCALE / 3 + k).unwrap(), 5000).den;
        assert!(den > last);
        last = den;
    }
    let mut raw = 1u64;
    while raw < SCALE - SCALE / 100 {
        let low = sim_closed(Frac::new(raw).unwrap(), 5000).den;
        let high = sim_closed(Frac::new(raw + 1).unwrap(), 5000).den;
        assert!(high > low);
        raw += SCALE / 997;
    }
}

#[test]
fn closed_form_has_settled_at_5000_terms() {
    // Up to 99 in 100 the series settles before 3781 terms.
    let p = Frac::new(SCALE / 100 * 99).unwrap();
    let settled = sim_closed(p, 3781);
    assert_eq!(sim_closed(p, 5000), settled);
    assert_eq!(sim_closed(p, 1_000_000), settled);
    // Up to one half it settles before 55 terms.
    assert_eq!(sim_closed(half(), 55), sim_closed(half(), 1_000_000));
}
