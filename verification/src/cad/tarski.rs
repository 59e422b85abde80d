//! Formulas of the first-order theory of the reals: polynomial
//! constraints under conjunction, disjunction, negation and quantifiers.

use vstd::prelude::*;
use crate::poly::Poly;
use crate::rational::Rat;

verus! {

/// How a polynomial compares with zero.
#[derive(Debug, Clone)]
pub enum Cmp {
    Gt,
    Eq,
    Lt,
}

/// A polynomial and how it is to compare with zero.
#[derive(Debug, Clone)]
pub struct Constraint {
    pub value: Poly<Rat>,
    pub cmp_zero: Cmp,
}

/// A formula without quantifiers.
#[derive(Debug)]
pub enum T {
    And(Box<T>, Box<T>),
    Or(Box<T>, Box<T>),
    Not(Box<T>),
    C(Constraint),
}

/// A formula in prenex form: the names of the variables, the indices of
/// those bound by an existential and by a universal quantifier, and the
/// formula under the quantifiers.
#[derive(Debug)]
pub struct Tarski {
    pub var_dict: Vec<String>,
    pub exists: Vec<usize>,
    pub forall: Vec<usize>,
    pub data: T,
}

} // verus!
