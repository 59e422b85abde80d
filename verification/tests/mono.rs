use std::cmp::Ordering;

use rand::rngs::SmallRng;
use rand::{Rng, SeedableRng};
use srs_solver::poly::mono::{grevlex, monomial_div, monomial_lcm, monomial_mul, Mono};
use srs_solver::poly::render::print_exps;
use srs_solver::rational::Rat;

#[test]
fn ordering() {
    let var_dict = ["x".to_string(), "y".to_string(), "z".to_string()];
    let mut terms = vec![];

    for i in 0..4 {
        for j in 0..4 {
            for k in 0..4 {
                let mut vars = vec![];
                if i > 0 {
                    vars.push((0, i))
                }
                if j > 0 {
                    vars.push((1, j))
                }
                if k > 0 {
                    vars.push((2, k))
                }

                terms.push(Mono { val: Rat::new(1), vars });
            }
        }
    }

    let expected_sort = "x^3y^3z^3
x^3y^3z^2
x^3y^2z^3
x^2y^3z^3
x^3y^3z
x^3y^2z^2
x^3yz^3
x^2y^3z^2
x^2y^2z^3
xy^3z^3
x^3y^3
x^3y^2z
x^3yz^2
x^3z^3
x^2y^3z
x^2y^2z^2
x^2yz^3
xy^3z^2
xy^2z^3
y^3z^3
x^3y^2
x^3yz
x^3z^2
x^2y^3
x^2y^2z
x^2yz^2
x^2z^3
xy^3z
xy^2z^2
xyz^3
y^3z^2
y^2z^3
x^3y
x^3z
x^2y^2
x^2yz
x^2z^2
xy^3
xy^2z
xyz^2
xz^3
y^3z
y^2z^2
yz^3
x^3
x^2y
x^2z
xy^2
xyz
xz^2
y^3
y^2z
yz^2
z^3
x^2
xy
xz
y^2
yz
z^2
x
y
z


"
    .split("\n")
    .collect::<Vec<_>>();

    terms.sort_by(|a, b| grevlex(a, b));

    for (i, term) in terms.iter().enumerate() {
        assert_eq!(expected_sort[i], print_exps(&term, &var_dict));
    }
}

#[test]
fn div_mul_fuzz() {
    let mut rng = SmallRng::seed_from_u64(1);

    fn random_mono(rng: &mut SmallRng, min_coef: i32, max_coef: i32) -> Mono<Rat> {
        let coef = rng.gen_range(min_coef..max_coef);

        let mut vars = vec![];

        let wpow = rng.gen_range(0..3);
        if wpow > 0 {
            vars.push((0, wpow));
        }

        let xpow = rng.gen_range(0..1);
        if xpow > 0 {
            vars.push((1, xpow));
        }

        let ypow = rng.gen_range(0..1);
        if ypow > 0 {
            vars.push((2, ypow));
        }

        let zpow = rng.gen_range(0..2);
        if zpow > 0 {
            vars.push((3, zpow));
        }

        Mono { val: Rat::new(coef as i64), vars: if coef == 0 { vec![] } else { vars } }
    }

    for _i in 0..1000 {
        let a = random_mono(&mut rng, 6, 12);
        let b = random_mono(&mut rng, 0, 6);
        let c = monomial_div(&a, &b);
        if let Some(c) = c {
            assert_eq!(a, monomial_mul(&c, &b));
        }
    }
}

fn mono(num: i64, den: i64, vars: Vec<(usize, u64)>) -> Mono<Rat> {
    Mono { val: Rat { num, den }, vars }
}

#[test]
fn product_merges_variables() {
    let a = mono(2, 3, vec![(0, 2), (2, 1)]);
    let b = mono(3, 4, vec![(1, 5), (2, 3)]);
    assert_eq!(monomial_mul(&a, &b), mono(1, 2, vec![(0, 2), (1, 5), (2, 4)]));
    assert_eq!(monomial_mul(&a, &mono(0, 1, vec![])), mono(0, 1, vec![]));
}

#[test]
fn product_holds_exponents_at_the_largest() {
    let a = mono(1, 1, vec![(0, u64::MAX)]);
    let b = mono(1, 1, vec![(0, 2)]);
    assert_eq!(monomial_mul(&a, &b), mono(1, 1, vec![(0, u64::MAX)]));
}

#[test]
fn quotient_subtracts_exponents() {
    let a = mono(1, 2, vec![(0, 2), (1, 5), (2, 4)]);
    let b = mono(3, 4, vec![(1, 5), (2, 3)]);
    assert_eq!(monomial_div(&a, &b), Some(mono(2, 3, vec![(0, 2), (2, 1)])));
}

#[test]
fn quotient_refuses() {
    let a = mono(1, 1, vec![(0, 2), (2, 1)]);
    // a variable that the dividend lacks
    assert_eq!(monomial_div(&a, &mono(1, 1, vec![(1, 1)])), None);
    // a higher power than the dividend has
    assert_eq!(monomial_div(&a, &mono(1, 1, vec![(0, 3)])), None);
    // the zero monomial
    assert_eq!(monomial_div(&a, &mono(0, 1, vec![])), None);
    // zero has no variables to divide
    assert_eq!(monomial_div(&mono(0, 1, vec![]), &mono(1, 1, vec![(0, 1)])), None);
    assert_eq!(monomial_div(&mono(0, 1, vec![]), &mono(5, 1, vec![])), Some(mono(0, 1, vec![])));
}

#[test]
fn lcm_takes_the_larger_exponent() {
    let a = mono(2, 3, vec![(0, 2), (2, 1)]);
    let b = mono(3, 4, vec![(0, 1), (1, 5), (2, 3)]);
    assert_eq!(monomial_lcm(a, b), mono(1, 1, vec![(0, 2), (1, 5), (2, 3)]));
}

#[test]
fn grevlex_compares_degree_first() {
    let x2 = mono(1, 1, vec![(0, 2)]);
    let xyz = mono(1, 1, vec![(0, 1), (1, 1), (2, 1)]);
    let y2 = mono(1, 1, vec![(1, 2)]);
    let xz = mono(1, 1, vec![(0, 1), (2, 1)]);
    assert_eq!(grevlex(&xyz, &x2), Ordering::Less);
    assert_eq!(grevlex(&x2, &xyz), Ordering::Greater);
    assert_eq!(grevlex(&xz, &y2), Ordering::Less);
    assert_eq!(grevlex(&y2, &xz), Ordering::Greater);
    assert_eq!(grevlex(&x2, &mono(7, 2, vec![(0, 2)])), Ordering::Equal);
}
