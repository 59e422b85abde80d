use srs_solver::cad::projection::{projection, reducta_set};
use srs_solver::poly::Poly;
use srs_solver::rational::Rat;

fn x(pow: u64) -> Poly<Rat> {
    Poly::var(0, pow)
}

fn y(pow: u64) -> Poly<Rat> {
    Poly::var(1, pow)
}

fn z(pow: u64) -> Poly<Rat> {
    Poly::var(2, pow)
}

fn c(v: i64) -> Poly<Rat> {
    Poly::constant(v)
}

#[test]
fn red() {
    let members = vec![
        c(3) * x(2) * y(1) * z(1) + c(2) * x(2) * z(2) - c(4) * x(1) + c(7) * x(1) * y(1) + y(2)
            - z(1),
        c(3) * y(1) * z(1) + c(2) * z(2),
        c(7) * y(1) - c(4),
        y(2) - z(1),
    ];

    let expected = vec![
        vec![members[1].clone(), members[2].clone(), members[3].clone()],
        vec![members[2].clone(), members[3].clone()],
        vec![members[3].clone()],
    ];

    let rs = reducta_set(&members[0], 0);

    assert_eq!(rs.len(), expected.len());

    for eps in &expected {
        assert!(rs.contains(eps));
    }
}

#[test]
fn reducta_leave_out_trailing_zeros() {
    // x^3 y + x: the coefficients are y, 0, 1, 0
    let p = x(3) * y(1) + x(1);
    let rs = reducta_set(&p, 0);
    assert_eq!(rs, vec![vec![y(1), c(0), c(1)], vec![c(0), c(1)], vec![c(1)]]);
    let none: Vec<Vec<Poly<Rat>>> = vec![];
    assert_eq!(reducta_set(&c(0), 0), none);
}

#[test]
fn projection_keeps_each_coefficient_list_once() {
    let ps = vec![x(2) + y(1), x(1) * z(1) - c(1), x(2) + y(1)];
    let projs = projection(ps, &[0, 1, 2]);
    assert_eq!(projs, vec![vec![vec![c(1), c(0), y(1)], vec![z(1), c(-1)]]]);
}
