use srs_solver::cad::resultant::{determinant, subresultants, syl_k};
use srs_solver::poly::Poly;
use srs_solver::rational::Rat;

fn constants(values: &[i64]) -> Vec<Poly<Rat>> {
    values.iter().map(|v| Poly::constant(*v)).collect()
}

#[test]
fn sylvester() {
    let a_coefs = constants(&[5, 4, 3, 2, 1]);
    let b_coefs = constants(&[4, 3, 2, 1]);

    let expected_deg0 = vec![
        "5, 4, 3, 2, 1, 0, 0",
        "0, 5, 4, 3, 2, 1, 0",
        "0, 0, 5, 4, 3, 2, 1",
        "4, 3, 2, 1, 0, 0, 0",
        "0, 4, 3, 2, 1, 0, 0",
        "0, 0, 4, 3, 2, 1, 0",
        "0, 0, 0, 4, 3, 2, 1",
    ];

    let expected_deg1 = vec![
        "5, 4, 3, 2, 1, 0",
        "0, 5, 4, 3, 2, 1",
        "4, 3, 2, 1, 0, 0",
        "0, 4, 3, 2, 1, 0",
        "0, 0, 4, 3, 2, 1",
    ];

    let mat = syl_k(&a_coefs, &b_coefs, 0);

    for i in 0..(a_coefs.len() + b_coefs.len() - 2) {
        let line = mat[i].iter().map(|p| p.format(&vec![])).collect::<Vec<_>>().join(", ");
        assert_eq!(expected_deg0[i], line);
    }

    let mat = syl_k(&a_coefs, &b_coefs, 1);

    for i in 0..(a_coefs.len() + b_coefs.len() - 4) {
        let line = mat[i].iter().map(|p| p.format(&vec![])).collect::<Vec<_>>().join(", ");
        assert_eq!(expected_deg1[i], line);
    }
}

#[test]
fn const_det() {
    let mat = vec![
        constants(&[1, 2, 3, 4]),
        constants(&[5, 6, 7, -8]),
        constants(&[0, 9, 0, 1]),
        constants(&[-2, -5, 11, 1]),
    ];

    assert_eq!(-3560, determinant(mat, 4).unwrap().get_constant_val().unwrap());
}

#[test]
fn srs() {
    let var_dict = vec!["x".to_string(), "y".to_string()];
    let x = |pow: u64| -> Poly<Rat> { Poly::var(0, pow) };
    let y = |pow: u64| -> Poly<Rat> { Poly::var(1, pow) };
    let c = |v: i64| -> Poly<Rat> { Poly::constant(v) };
    let members = vec![
        c(2) * x(4) - c(2) * x(2) * y(1) + c(3) * x(1) * y(1) + c(1),
        x(3) + c(2) * x(2) * y(1) - x(1) * y(2) + c(3) * y(1),
    ];

    let expected = vec![
        "2, 0, -2y, 3y, 1",
        "1, 2y, -y^2, 3y",
        "10y^2 - 2y, -4y^3 - 3y, 12y^2 + 1",
        "-4y^6 + 24y^5 - 40y^4 + 12y^3 - y^2 + 2y, 12y^5 - 72y^4 - 48y^3 + 4y^2 - 3y",
        "40y^8 - 312y^7 + 568y^6 + 744y^5 + 398y^4 + 42y^3 + 42y^2 + 1",
    ];

    let subres = subresultants(&members[0], &members[1], 0).unwrap();

    assert_eq!(subres.len(), expected.len());

    for (ps, eps) in subres.iter().zip(expected) {
        assert_eq!(
            eps,
            ps.iter().map(|p| p.format(&var_dict)).collect::<Vec<_>>().join(", ")
        );
    }
}

#[test]
fn small_determinants() {
    let none: Vec<Vec<Poly<Rat>>> = vec![];
    assert_eq!(determinant(none, 0), Some(Poly::constant(1)));
    assert_eq!(determinant(vec![constants(&[7])], 1), Some(Poly::constant(7)));
    assert_eq!(
        determinant(vec![constants(&[1, 2]), constants(&[3, 4])], 2),
        Some(Poly::constant(-2))
    );
    assert_eq!(
        determinant(
            vec![constants(&[2, 0, 1]), constants(&[1, 3, 2]), constants(&[1, 1, 1])],
            3
        ),
        Some(Poly::constant(0))
    );
    assert_eq!(
        determinant(
            vec![constants(&[2, 0, 1]), constants(&[1, 3, 2]), constants(&[1, 1, 4])],
            3
        ),
        Some(Poly::constant(18))
    );
}

#[test]
fn determinant_with_polynomial_entries() {
    let x = |pow: u64| -> Poly<Rat> { Poly::var(0, pow) };
    let c = |v: i64| -> Poly<Rat> { Poly::constant(v) };
    // the Vandermonde-like matrix with rows (1, v, v^2, v^3) for v = x, 1, 2, 3
    let row = |v: Poly<Rat>| vec![c(1), v.clone(), v.clone() * v.clone(), v.clone() * v.clone() * v];
    let mat = vec![row(x(1)), row(c(1)), row(c(2)), row(c(3))];
    let dict = vec!["x".to_string()];
    // (1 - x)(2 - x)(3 - x)(2 - 1)(3 - 1)(3 - 2)
    assert_eq!(determinant(mat, 4).unwrap().format(&dict), "-2x^3 + 12x^2 - 22x + 12");
}
