use srs_solver::algebraic::{get_roots, Algebraic};
use srs_solver::rational::Rat;
use srs_solver::univariate::{Root, UPoly};

fn to_f64(r: Rat) -> f64 {
    r.num as f64 / r.den as f64
}

#[test]
fn eval() {
    let p = UPoly(vec![Rat::from(2), Rat::from(3), Rat::from(-4), Rat::from(1)]);
    assert_eq!(p.eval(&Rat::from(8)), Rat::from(1185));
}

#[test]
fn univariate_derivative() {
    let p = UPoly(vec![Rat::from(1), Rat::from(5), Rat::from(0), Rat::from(2), Rat::from(3)]);
    let dp = p
        .derivative()
        .0
        .into_iter()
        .map(|x| i64::try_from(x).unwrap())
        .collect::<Vec<_>>();

    assert_eq!(dp, vec![4, 15, 0, 2]);
}

#[test]
fn refine_root_interval() {
    let quadratic = UPoly(vec![Rat::from(1), Rat::from(0), Rat::from(-2)]);
    let tol = Rat::from(1) / Rat::from(10000);
    let refined = quadratic.refine_root_interval(Rat::from(0), Rat::from(2), tol).approx();
    let approx_zero = (2. - to_f64(refined) * to_f64(refined)).abs();

    assert!(approx_zero < to_f64(tol));
}

#[test]
fn lin_root() {
    let linear = UPoly(vec![Rat::from(3), Rat::from(-2)]);
    assert_eq!(
        linear.real_root_intervals(Rat::from(1) / Rat::from(10000)),
        vec![Root::Point(Rat::from(2) / Rat::from(3))]
    );
}

#[test]
fn big_root() {
    let poly = UPoly(vec![
        Rat::from(1),
        Rat::from(-3),
        Rat::from(-21),
        Rat::from(43),
        Rat::from(60),
    ]);

    let tol = Rat::from(1) / Rat::from(10000);
    let roots = poly.real_root_intervals(tol);
    let root_f64s: Vec<_> = roots.iter().map(|r| to_f64(r.approx())).collect();

    assert!((root_f64s[0] + 4.).abs() < to_f64(tol));
    assert!((root_f64s[1] + 1.).abs() < to_f64(tol));
    assert!((root_f64s[2] - 3.).abs() < to_f64(tol));
    assert!((root_f64s[3] - 5.).abs() < to_f64(tol));
}

#[test]
fn roots() {
    let tol = 0.00000001;
    let poly = UPoly(vec![
        Rat::from(1),
        Rat::from(-3),
        Rat::from(-21),
        Rat::from(43),
        Rat::from(60),
    ]);
    let roots: Vec<f64> = poly
        .real_root_intervals(Rat::from(1) / Rat::from(100000000))
        .iter()
        .map(|r| to_f64(r.approx()))
        .collect();

    assert!((roots[0] + 4.).abs() < tol);
    assert!((roots[1] + 1.).abs() < tol);
    assert!((roots[2] - 3.).abs() < tol);
    assert!((roots[3] - 5.).abs() < tol);
}

#[test]
fn roots_come_in_increasing_order() {
    let poly = UPoly(vec![
        Rat::from(1),
        Rat::from(-3),
        Rat::from(-21),
        Rat::from(43),
        Rat::from(60),
    ]);
    let tol = Rat::from(1) / Rat::from(10000);
    let roots = poly.real_root_intervals(tol);
    assert_eq!(roots.len(), 4);
    let mids: Vec<f64> = roots.iter().map(|r| to_f64(r.approx())).collect();
    for w in mids.windows(2) {
        assert!(w[0] < w[1]);
    }
    for r in &roots {
        match r {
            Root::Point(x) => assert_eq!(poly.eval(x), Rat::from(0)),
            Root::Interval(lo, hi) => {
                assert!(to_f64(*hi) - to_f64(*lo) <= to_f64(tol));
                assert!(to_f64(poly.eval(lo)) * to_f64(poly.eval(hi)) <= 0.);
            }
        }
    }
}

#[test]
fn constants_and_degenerate_lines_have_no_roots() {
    let tol = Rat::from(1) / Rat::from(100);
    let none: Vec<Root<Rat>> = vec![];
    assert_eq!(UPoly::<Rat>(vec![]).real_root_intervals(tol), none);
    assert_eq!(UPoly(vec![Rat::from(5)]).real_root_intervals(tol), none);
    assert_eq!(UPoly(vec![Rat::from(0), Rat::from(5)]).real_root_intervals(tol), none);
}

#[test]
fn quadratic_without_real_roots() {
    let tol = Rat::from(1) / Rat::from(100);
    let none: Vec<Root<Rat>> = vec![];
    let p = UPoly(vec![Rat::from(1), Rat::from(0), Rat::from(1)]);
    assert_eq!(p.real_root_intervals(tol), none);
}

#[test]
fn quadratic_with_irrational_roots() {
    let tol = Rat::from(1) / Rat::from(10000);
    let p = UPoly(vec![Rat::from(1), Rat::from(0), Rat::from(-2)]);
    let roots = p.real_root_intervals(tol);
    assert_eq!(roots.len(), 2);
    assert!((to_f64(roots[0].approx()) + 2f64.sqrt()).abs() < to_f64(tol));
    assert!((to_f64(roots[1].approx()) - 2f64.sqrt()).abs() < to_f64(tol));
}

#[test]
fn midpoints() {
    assert_eq!(Root::Point(Rat::from(3)).approx(), Rat::from(3));
    assert_eq!(Root::Interval(Rat::from(1), Rat::from(2)).approx(), Rat { num: 3, den: 2 });
}

#[test]
fn algebraic_numbers() {
    let a = Algebraic::from_point(Rat::from(5));
    assert_eq!(a.p.0, vec![Rat::from(1), Rat::from(-5)]);
    assert_eq!(a.val, Root::Point(Rat::from(5)));
    assert_eq!(a.n, 0);
    assert_eq!(a.p.eval(&Rat::from(5)), Rat::from(0));

    let p = UPoly(vec![Rat::from(1), Rat::from(0), Rat::from(-4)]);
    let found = get_roots(p, Rat::from(1) / Rat::from(100));
    assert_eq!(found.len(), 2);
    assert_eq!(found[0].n, 0);
    assert_eq!(found[1].n, 1);
    assert_eq!(found[0].p.0, vec![Rat::from(1), Rat::from(0), Rat::from(-4)]);
    assert!((to_f64(found[0].val.approx()) + 2.).abs() <= 0.01);
    assert!((to_f64(found[1].val.approx()) - 2.).abs() <= 0.01);
}

#[test]
fn bisection_stops_at_an_exact_root() {
    let p = UPoly(vec![Rat::from(1), Rat::from(0), Rat::from(-1)]);
    let tol = Rat::from(1) / Rat::from(1000);
    assert_eq!(p.refine_root_interval(Rat::from(0), Rat::from(2), tol), Root::Point(Rat::from(1)));
    assert_eq!(
        p.real_root_intervals(tol),
        vec![Root::Point(Rat::from(-1)), Root::Point(Rat::from(1))]
    );
}

#[test]
fn intervals_are_no_wider_than_the_tolerance() {
    let p = UPoly(vec![Rat::from(1), Rat::from(0), Rat::from(-3)]);
    let tol = Rat::from(1) / Rat::from(1000);
    match p.refine_root_interval(Rat::from(1), Rat::from(2), tol) {
        Root::Interval(lo, hi) => {
            assert!(to_f64(hi) - to_f64(lo) <= 0.001);
            assert!(to_f64(lo) <= 3f64.sqrt() && 3f64.sqrt() <= to_f64(hi));
            assert!(to_f64(p.eval(&lo)) < 0. && to_f64(p.eval(&hi)) > 0.);
        }
        Root::Point(_) => panic!("the root is not rational"),
    }
}
