use srs_solver::poly::system::System;
use srs_solver::poly::Poly;
use srs_solver::rational::Rat;

fn x(pow: u64) -> Poly<Rat> {
    Poly::var(0, pow)
}

fn y(pow: u64) -> Poly<Rat> {
    Poly::var(1, pow)
}

fn z(pow: u64) -> Poly<Rat> {
    Poly::var(2, pow)
}

fn c(v: i64) -> Poly<Rat> {
    Poly::constant(v)
}

fn xyz(members: Vec<Poly<Rat>>) -> System {
    System { var_dict: vec!["x".to_string(), "y".to_string(), "z".to_string()], members }
}

#[test]
fn system_gb() {
    let sys = xyz(vec![
        x(1) + y(2) + z(1),
        x(1) - y(1) + c(3) * z(1) + c(5),
        x(1) - c(2) * y(1) + c(3),
    ]);

    assert_eq!(
        "[9z^2 + 7z - 3, x + 6z + 7, y + 3z + 2]",
        sys.gb().format()
    );
}

#[test]
fn integration_gb() {
    let sys = xyz(vec![
        x(2) * y(1) + c(1),
        c(2) * x(1) + y(1) * z(1) - c(1),
        x(1) - y(2) * z(2) + c(1),
    ]);

    assert_eq!("[4x - 5, 25y + 16, 32z - 75]", sys.gb().format());
}

#[test]
fn basis_generates_the_same_ideal() {
    let inputs = vec![
        c(3) * x(1) + y(2) + c(2) * z(3),
        x(1) - y(1) + c(3) * z(1) + c(5),
        c(2) * x(1) - c(2) * y(1) + c(3),
    ];
    let basis = xyz(inputs.clone()).gb().members;
    assert!(!basis.is_empty());
    // every input reduces to zero
    for p in &inputs {
        let (_, rem) = p.compound_divide(&basis);
        assert!(rem.is_zero());
    }
    // every S-polynomial of the basis reduces to zero
    for i in 0..basis.len() {
        for j in 0..basis.len() {
            if i != j {
                let s = Poly::s_poly(basis[i].clone(), basis[j].clone());
                let (_, rem) = s.compound_divide(&basis);
                assert!(rem.is_zero());
            }
        }
    }
    // reduced: no term of a member is divisible by the leading term of another
    for i in 0..basis.len() {
        let others: Vec<Poly<Rat>> =
            basis.iter().enumerate().filter(|(j, _)| *j != i).map(|(_, p)| p.clone()).collect();
        let (_, rem) = basis[i].compound_divide(&others);
        assert_eq!(rem, basis[i]);
        assert_eq!(basis[i].norm(), basis[i]);
    }
    // in the order of the leading monomials
    for w in basis.windows(2) {
        assert_eq!(
            srs_solver::poly::mono::grevlex(&w[0].lt_mono(), &w[1].lt_mono()),
            std::cmp::Ordering::Less
        );
    }
}

#[test]
fn variables_by_name() {
    let sys = xyz(vec![x(1) + c(1)]);
    assert_eq!(sys.var("y", 3), y(3));
    assert_eq!(sys.var("x", 0), c(1));
    assert_eq!(sys.constant(4), c(4));
    assert_eq!(sys.get(0), x(1) + c(1));
    assert_eq!(sys.format(), "[x + 1]");
    assert_eq!(xyz(vec![]).format(), "[]");
}

#[test]
fn basis_of_zero_and_units() {
    assert_eq!(xyz(vec![c(0), x(1)]).gb().format(), "[x]");
    assert_eq!(xyz(vec![x(1), x(1) + c(1)]).gb().format(), "[1]");
    assert_eq!(xyz(vec![]).gb().format(), "[]");
}
