use bernoulli_runs::frac::{Frac, SCALE};

#[test]
fn scale_is_two_to_the_53() {
    assert_eq!(SCALE, 1u64 << 53);
}

#[test]
fn new_accepts_the_unit_interval() {
    assert_eq!(Frac::new(0).unwrap().raw(), 0);
    assert_eq!(Frac::new(12345).unwrap().raw(), 12345);
    assert_eq!(Frac::new(SCALE).unwrap().raw(), SCALE);
}

#[test]
fn new_rejects_more_than_one() {
    assert!(Frac::new(SCALE + 1).is_none());
    assert!(Frac::new(u64::MAX).is_none());
}

#[test]
fn zero_and_one() {
    assert_eq!(Frac::zero().raw(), 0);
    assert_eq!(Frac::one().raw(), SCALE);
}

#[test]
fn mul_of_halves_is_a_quarter() {
    let half = Frac::new(SCALE / 2).unwrap();
    assert_eq!(half.mul(&half).raw(), SCALE / 4);
}

#[test]
fn mul_rounds_down() {
    let tiny = Frac::new(3).unwrap();
    assert_eq!(tiny.mul(&tiny).raw(), 0);
    let almost = Frac::new(SCALE - 1).unwrap();
    assert_eq!(almost.mul(&almost).raw(), SCALE - 2);
    let third = Frac::new(3_002_399_751_580_330).unwrap();
    assert_eq!(third.mul(&third).raw(), 1_000_799_917_193_443);
}

#[test]
fn mul_by_one_and_by_zero() {
    let x = Frac::new(12345).unwrap();
    assert_eq!(Frac::one().mul(&x).raw(), 12345);
    assert_eq!(x.mul(&Frac::one()).raw(), 12345);
    assert_eq!(x.mul(&Frac::zero()).raw(), 0);
}

#[test]
fn complement_adds_up_to_one() {
    assert_eq!(Frac::new(1).unwrap().complement().raw(), SCALE - 1);
    assert_eq!(Frac::zero().complement().raw(), SCALE);
    assert_eq!(Frac::one().complement().raw(), 0);
}

#[test]
fn midpoint_rounds_down() {
    let one = Frac::one();
    let zero = Frac::zero();
    assert_eq!(zero.midpoint(&one).raw(), SCALE / 2);
    let a = Frac::new(4).unwrap();
    let b = Frac::new(7).unwrap();
    assert_eq!(a.midpoint(&b).raw(), 5);
    assert_eq!(zero.midpoint(&Frac::new(1).unwrap()).raw(), 0);
}

#[test]
fn a_product_loses_less_than_one_unit() {
    let scale = SCALE as u128;
    for (a, b) in [(3_002_399_751_580_330u64, 8_106_479_329_266_893u64), (SCALE - 1, 1), (7, SCALE / 2)] {
        let product = Frac::new(a).unwrap().mul(&Frac::new(b).unwrap()).raw() as u128;
        let exact = a as u128 * b as u128;
        assert!(scale * product <= exact);
        assert!(exact < scale * (product + 1));
    }
}

#[test]
fn a_power_loses_less_than_one_unit_per_product() {
    // (3/4)^5 = 243/1024, which 53 binary digits hold exactly.
    let p = Frac::new(3 * (SCALE / 4)).unwrap();
    let mut power = p;
    for _ in 1..5 {
        power = power.mul(&p);
    }
    assert_eq!(power.raw(), 243 * (SCALE / 1024));
    // (1/3)^3 = 1/27, rounded down at each product.
    let p = Frac::new(SCALE / 3).unwrap();
    let cube = p.mul(&p).mul(&p).raw();
    assert!(cube <= SCALE / 27);
    assert!(cube + 2 >= SCALE / 27);
}
