use rand::rngs::SmallRng;
use rand::{Rng, SeedableRng};
use srs_solver::poly::mono::{grevlex, Mono};
use srs_solver::poly::Poly;
use srs_solver::rational::Rat;

fn names(list: &[&str]) -> Vec<String> {
    list.iter().map(|s| s.to_string()).collect()
}

#[test]
fn coefs() {
    let var_dict = vec!["x".to_string(), "y".to_string(), "z".to_string()];

    let a: Poly<Rat> = Poly::var(0, 4);
    let b: Poly<Rat> = Poly::var(0, 2) * Poly::constant(3);
    let c: Poly<Rat> = Poly::var(0, 2) * Poly::var(2, 3) * Poly::constant(5);
    let d: Poly<Rat> = Poly::var(1, 1) * Poly::var(0, 1) * Poly::constant(4);
    let e: Poly<Rat> = Poly::var(2, 1);
    let f: Poly<Rat> = Poly::constant(2);

    let g = a + b + c + d + e + f;

    assert_eq!(
        "5x^2z^3 + x^4 + 3x^2 + 4xy + z + 2",
        format!("{}", g.format(&var_dict))
    );

    assert_eq!(
        "[\"1\", \"0\", \"5z^3 + 3\", \"4y\", \"z + 2\"]",
        format!(
            "{:?}",
            g.coefs(0)
                .iter()
                .map(|p| p.format(&var_dict))
                .collect::<Vec<_>>()
        )
    );
}

#[test]
fn poly_arithmetic_arith() {
    let var_dict = vec!["a".to_string(), "b".to_string(), "c".to_string()];

    let a: Poly<Rat> = Poly::var(0, 2) * Poly::constant(3);
    let b = Poly::var(1, 1) * Poly::constant(4);
    let c = Poly::constant(2);

    assert_eq!("3a^2 + 4b + 2", (c + b + a).format(&var_dict));

    // (a + 1)(a + 1)
    let a: Poly<Rat> =
        (Poly::var(0, 1) + Poly::constant(1)) * (Poly::var(0, 1) + Poly::constant(1));
    // a^2 + 2a + 1
    let b = Poly::var(0, 2) + Poly::constant(2) * Poly::var(0, 1) + Poly::constant(1);

    assert!(a == b);
}

#[test]
fn poly_arithmetic_arith_fuzz() {
    let mut rng = SmallRng::seed_from_u64(1);

    fn create_random_poly(rng: &mut SmallRng, term_max: i32) -> Poly<Rat> {
        let mut p = Poly::constant(0);

        for _ in 0..rng.gen_range(0..term_max + 1) {
            let coef = rng.gen_range(-6..6);
            let xpow = rng.gen_range(0..4);
            let ypow = rng.gen_range(0..2);
            let zpow = rng.gen_range(0..3);

            p = p + Poly::constant(coef)
                * Poly::var(0, xpow)
                * Poly::var(1, ypow)
                * Poly::var(2, zpow);
        }

        p
    }

    for _ in 0..1000 {
        let dividend = create_random_poly(&mut rng, 6);
        let n_divs = rng.gen_range(0..4);
        let divisors: Vec<_> = std::iter::repeat_with(|| create_random_poly(&mut rng, 4))
            .take(n_divs)
            .collect();

        let (quotients, rem) = dividend.clone().compound_divide(&divisors);

        let calculated_dividend = quotients
            .clone()
            .into_iter()
            .zip(divisors.clone())
            .fold(Poly::constant(0), |acc, (x, y)| acc + x * y)
            + rem.clone();

        assert_eq!(calculated_dividend, dividend);
    }
}

#[test]
fn poly_arithmetic_derivative() {
    let var_dict = vec!["x".to_string(), "y".to_string(), "z".to_string()];

    let p: Poly<Rat> = Poly::var(0, 2) * Poly::var(1, 2) * Poly::constant(3)
        + Poly::var(0, 1) * Poly::var(2, 1);

    assert_eq!(
        "6xy^2 + z",
        format!("{}", p.derivative(0).format(&var_dict))
    );
}

fn x() -> Poly<Rat> {
    Poly::var(0, 1)
}

fn y() -> Poly<Rat> {
    Poly::var(1, 1)
}

fn c(v: i64) -> Poly<Rat> {
    Poly::constant(v)
}

fn canonical(p: &Poly<Rat>) -> bool {
    p.terms.iter().all(|t| t.val.num != 0 && t.val.den > 0)
        && p.terms.windows(2).all(|w| grevlex(&w[0], &w[1]) == std::cmp::Ordering::Less)
}

#[test]
fn constructors() {
    let one: Poly<Rat> = Poly::var(3, 0);
    assert_eq!(one, c(1));
    assert_eq!(one.terms, vec![Mono { val: Rat::new(1), vars: vec![] }]);
    let zero: Poly<Rat> = Poly::constant(0);
    assert!(zero.is_zero());
    assert!(zero.terms.is_empty());
    assert_eq!(zero.get_constant_val(), Some(0));
    assert_eq!(c(-7).get_constant_val(), Some(-7));
    assert_eq!(x().get_constant_val(), None);
    assert_eq!((x() + c(1)).get_constant_val(), None);
}

#[test]
fn leading_terms() {
    let p = x() * y() + x() * x() * c(3) + c(5);
    let dict = names(&["x", "y"]);
    assert_eq!(p.format(&dict), "3x^2 + xy + 5");
    assert_eq!(p.lt().format(&dict), "3x^2");
    assert_eq!(p.lt_mono(), Mono { val: Rat::new(3), vars: vec![(0, 2)] });
    let zero: Poly<Rat> = Poly::constant(0);
    assert!(zero.lt().is_zero());
    assert_eq!(zero.lt_mono(), Mono { val: Rat::new(0), vars: vec![] });
}

#[test]
fn sums_cancel_and_stay_canonical() {
    let p = x() * x() + x() * y() * c(2) + c(1);
    let q = x() * y() * c(-2) + y() * y() + c(-1);
    let dict = names(&["x", "y"]);
    let s = p.clone() + q.clone();
    assert_eq!(s.format(&dict), "x^2 + y^2");
    assert!(canonical(&s));
    let d = p.clone() - q.clone();
    assert_eq!(d.format(&dict), "x^2 + 4xy - y^2 + 2");
    assert!(canonical(&d));
    assert!((p.clone() - p.clone()).is_zero());
    let zero: Poly<Rat> = Poly::constant(0);
    assert_eq!((zero - p).format(&dict), "-x^2 - 2xy - 1");
    let m = (x() + y()) * (x() - y());
    assert_eq!(m.format(&dict), "x^2 - y^2");
    assert!(canonical(&m));
}

#[test]
fn division_with_remainder() {
    // x^2 y + x y^2 + y^2 by (x y - 1, y^2 - 1)
    let p = x() * x() * y() + x() * y() * y() + y() * y();
    let d1 = x() * y() - c(1);
    let d2 = y() * y() - c(1);
    let dict = names(&["x", "y"]);
    let (q, r) = p.compound_divide(&vec![d1.clone(), d2.clone()]);
    assert_eq!(q.len(), 2);
    assert_eq!(q[0].format(&dict), "x + y");
    assert_eq!(q[1].format(&dict), "1");
    assert_eq!(r.format(&dict), "x + y + 1");
    assert!(canonical(&r));
    assert_eq!(q[0].clone() * d1 + q[1].clone() * d2 + r, p);
}

#[test]
fn division_without_divisors() {
    let p = x() * x() + c(1);
    let (q, r) = p.compound_divide(&vec![]);
    assert!(q.is_empty());
    assert_eq!(r, p);
}

#[test]
fn division_by_zero_polynomial_leaves_all_in_the_remainder() {
    let p = x() * x() + c(1);
    let (q, r) = p.compound_divide(&vec![c(0)]);
    assert_eq!(q, vec![c(0)]);
    assert_eq!(r, p);
    assert_eq!(p.try_divide(&c(0)), None);
}

#[test]
fn exact_division() {
    let p = (x() + y()) * (x() - y() * c(2));
    assert_eq!(p.try_divide(&(x() + y())), Some(x() - y() * c(2)));
    assert_eq!((p + c(1)).try_divide(&(x() + y())), None);
}

#[test]
fn s_polynomial() {
    // S(x^3 - 2xy, x^2 y - 2y^2 + x) = -x^2
    let p = Poly::var(0, 3) - x() * y() * c(2);
    let q = Poly::var(0, 2) * y() - y() * y() * c(2) + x();
    let dict = names(&["x", "y"]);
    assert_eq!(Poly::s_poly(p.clone(), q).format(&dict), "-x^2");
    assert!(Poly::s_poly(p, c(0)).is_zero());
}

#[test]
fn primitive_form() {
    let dict = names(&["x", "y"]);
    let half = Poly { terms: vec![Mono { val: Rat { num: -1, den: 2 }, vars: vec![] }] };
    let third = Poly { terms: vec![Mono { val: Rat { num: 2, den: 3 }, vars: vec![] }] };
    let p = x() * x() * half + x() * y() * third + c(-4);
    assert_eq!(p.format(&dict), "-1/2x^2 + 2/3xy - 4");
    let n = p.norm();
    assert_eq!(n.format(&dict), "3x^2 - 4xy + 24");
    assert_eq!(n.norm(), n);
    assert_eq!((x() * c(6) + c(-9)).norm().format(&dict), "2x - 3");
    let zero: Poly<Rat> = Poly::constant(0);
    assert!(zero.norm().is_zero());
}

#[test]
fn degree_in_a_variable() {
    let p = Poly::var(0, 4) * y() + Poly::var(1, 7) + c(1);
    assert_eq!(p.deg(0), 4);
    assert_eq!(p.deg(1), 7);
    assert_eq!(p.deg(2), 0);
    assert_eq!(c(0).deg(0), 0);
}

#[test]
fn derivative_is_linear() {
    let p = Poly::var(0, 3) * y() + x() * c(2) + y();
    let q = Poly::var(0, 2) * c(5) - x() * y() + c(7);
    let lhs = (p.clone() * c(3) + q.clone() * c(-2)).derivative(0);
    let rhs = p.derivative(0) * c(3) + q.derivative(0) * c(-2);
    assert_eq!(lhs, rhs);
    assert_eq!(c(5).derivative(0), c(0));
}

#[test]
fn text_of_signs_and_units() {
    let dict = names(&["x", "y"]);
    assert_eq!(c(0).format(&dict), "0");
    assert_eq!(c(1).format(&dict), "1");
    assert_eq!(c(-1).format(&dict), "-1");
    assert_eq!((c(0) - x()).format(&dict), "-x");
    assert_eq!((x() * c(-3) - y() + c(1)).format(&dict), "-3x - y + 1");
    assert_eq!((Poly::var(1, 12) * c(10) - c(1)).format(&dict), "10y^12 - 1");
}

#[test]
fn text_of_fractions() {
    let dict = names(&["x", "y"]);
    let p = Poly { terms: vec![Mono { val: Rat { num: -3, den: 2 }, vars: vec![(0, 1)] }] };
    assert_eq!(p.format(&dict), "-3/2x");
    let q = x() * x() + p;
    assert_eq!(q.format(&dict), "x^2 - 3/2x");
}

#[test]
fn remainder_has_no_term_that_a_leading_term_divides() {
    let p = Poly::var(0, 3) * y() + x() * y() * y() + x() + c(7);
    let divisors = vec![x() * y() - c(1), y() * y() + x()];
    let (q, r) = p.compound_divide(&divisors);
    for t in &r.terms {
        for d in &divisors {
            assert_eq!(srs_solver::poly::mono::monomial_div(t, &d.lt_mono()), None);
        }
    }
    assert_eq!(q[0].clone() * divisors[0].clone() + q[1].clone() * divisors[1].clone() + r, p);
}
