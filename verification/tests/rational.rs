use srs_solver::rational::Rat;

fn to_f64(r: Rat) -> f64 {
    r.num as f64 / r.den as f64
}

#[test]
fn rational_arith() {
    let a = Rat::new(1);
    let b = Rat::new(2);
    assert_eq!((a + b).num, 3);
    assert_eq!((a + b).den, 1);

    assert_eq!((a - b).num, -1);
    assert_eq!((a + b).den, 1);

    assert_eq!(((a + b) * (a - b) + b).num, -1);
}

#[test]
fn overflow() {
    let a = Rat { num: (i64::MAX >> 1) + 1, den: i64::MAX };
    let b = Rat { num: (i64::MAX >> 1) + 3, den: i64::MAX };
    let c = a + b;
    assert_eq!(1., to_f64(c));
    assert_eq!(to_f64(a) + to_f64(b), to_f64(c));
}

#[test]
fn overflow_keeps_lowest_terms() {
    let a = Rat { num: (i64::MAX >> 1) + 1, den: i64::MAX };
    let b = Rat { num: (i64::MAX >> 1) + 3, den: i64::MAX };
    let c = a + b;
    assert_eq!(c, Rat { num: (1i64 << 62) + 1, den: (1i64 << 62) - 1 });
}

#[test]
fn sums_and_differences_are_reduced() {
    let a = Rat { num: 1, den: 6 };
    let b = Rat { num: 1, den: 3 };
    assert_eq!(a + b, Rat { num: 1, den: 2 });
    assert_eq!(a - b, Rat { num: -1, den: 6 });
    assert_eq!(b - b, Rat { num: 0, den: 1 });
}

#[test]
fn products_and_quotients_are_reduced() {
    let a = Rat { num: 3, den: 4 };
    let b = Rat { num: -2, den: 9 };
    assert_eq!(a * b, Rat { num: -1, den: 6 });
    assert_eq!(a / b, Rat { num: -27, den: 8 });
    assert_eq!(b / a, Rat { num: -8, den: 27 });
    assert_eq!(a * Rat::new(0), Rat { num: 0, den: 1 });
}

#[test]
fn scalar_multiples() {
    let a = Rat { num: 5, den: 6 };
    assert_eq!(a * 3, Rat { num: 5, den: 2 });
    assert_eq!(a * -6, Rat { num: -5, den: 1 });
    assert_eq!(a * 4, Rat { num: 10, den: 3 });
    assert_eq!(a * 0, Rat { num: 0, den: 1 });
}

#[test]
fn add_then_subtract_round_trip() {
    let a = Rat { num: 7, den: 12 };
    let b = Rat { num: -5, den: 18 };
    let c = Rat { num: 2, den: 3 };
    assert_eq!((a + b) - b, a);
    assert_eq!((a * b) / b, a);
    assert_eq!(a + b, b + a);
    assert_eq!((a + b) + c, a + (b + c));
}

#[test]
fn integers_saturate() {
    let a = Rat::new(i64::MAX);
    let b = Rat::new(i64::MAX);
    assert_eq!(a + b, Rat::new(i64::MAX));
    assert_eq!(a * b, Rat::new(i64::MAX));
    assert_eq!(Rat::new(i64::MIN) - a, Rat::new(i64::MIN));
}

#[test]
fn large_integer_plus_small_fraction() {
    let a = Rat::new(i64::MAX);
    let b = Rat { num: 1, den: i64::MAX };
    assert_eq!(a + b, Rat::new(i64::MAX));
}

#[test]
fn conversions() {
    assert_eq!(Rat::from(5), Rat { num: 5, den: 1 });
    assert_eq!(Rat::new(5).try_int(), Some(5));
    assert_eq!((Rat::new(1) / Rat::new(2)).try_int(), None);
    assert_eq!(i64::try_from(Rat::new(-3)), Ok(-3));
    assert_eq!(i64::try_from(Rat { num: 1, den: 2 }), Err(()));
    assert!(Rat::new(0).is_zero());
    assert!(!Rat::new(1).is_zero());
}

#[test]
fn gcd_of_magnitudes() {
    assert_eq!(srs_solver::numeric::gcd(12, 18), 6);
    assert_eq!(srs_solver::numeric::gcd(-12, 18), 6);
    assert_eq!(srs_solver::numeric::gcd(0, 7), 7);
    assert_eq!(srs_solver::numeric::gcd(0, 0), 0);
    assert_eq!(srs_solver::numeric::gcd(17, 5), 1);
}

#[test]
fn signs_of_quotients() {
    let a = Rat { num: -1, den: 2 };
    let b = Rat { num: -3, den: 4 };
    assert_eq!(a / b, Rat { num: 2, den: 3 });
    assert_eq!(b / a, Rat { num: 3, den: 2 });
    assert_eq!(a / Rat::new(4), Rat { num: -1, den: 8 });
    assert_eq!(Rat::new(4) / a, Rat::new(-8));
    assert_eq!(Rat::new(0) / a, Rat::new(0));
}

#[test]
fn the_smallest_integer() {
    let min = Rat::new(i64::MIN);
    assert_eq!(min * Rat::new(-1), Rat::new(i64::MAX));
    assert_eq!(min / Rat::new(-1), Rat::new(i64::MAX));
    assert_eq!(min + Rat::new(-1), min);
    assert_eq!(Rat::new(0) - min, Rat::new(i64::MAX));
    assert_eq!(Rat::new(1) / min, Rat { num: -1, den: 1 << 62 });
    assert_eq!(min * 1, min);
}

#[test]
fn products_shed_precision() {
    // (2^62 / 3) * (2^62 / 5): the numerators multiply beyond 64 bits
    let a = Rat { num: 1 << 62, den: 3 };
    let b = Rat { num: 1 << 62, den: 5 };
    let c = a * b;
    assert!(c.den > 0);
    assert_eq!(srs_solver::numeric::gcd(c.num, c.den), 1);
    assert_eq!(c, b * a);
    // tiny times tiny goes down to zero
    let t = Rat { num: 1, den: i64::MAX };
    assert_eq!(t * t, Rat::new(0));
}
