//! Multivariate polynomials over a field, kept as a list of monomials in
//! the monomial order with the leading term first.

pub mod arithmetic;
pub mod calculus;
pub mod division;
pub mod linearity;
pub mod mono;
pub mod normal;
pub mod reduced;
pub mod render;
pub mod roundtrip;
pub mod system;

use vstd::prelude::*;
use crate::field::Field;
use crate::poly::mono::{lemma_place_transitive, place, Mono, Place, Term};

verus! {

/// A polynomial: its non-zero terms, each standing before the next in the
/// monomial order, so that the leading term is the first and no two terms
/// have the same variables. The zero polynomial has no terms.
#[derive(Debug, Clone, PartialEq, Eq, Hash)]
pub struct Poly<T: Field> {
    pub terms: Vec<Mono<T>>,
}

/// What a list of monomials denotes.
pub open spec fn terms_view<T: Field>(v: Seq<Mono<T>>) -> Seq<Term<T>> {
    v.map_values(|m: Mono<T>| m@)
}

impl<T: Field> View for Poly<T> {
    type V = Seq<Term<T>>;

    open spec fn view(&self) -> Seq<Term<T>> {
        terms_view(self.terms@)
    }
}

/// Whether `x` stands before every term of `p`.
pub open spec fn before_all<T: Field>(x: Seq<(usize, u64)>, p: Seq<Term<T>>) -> bool {
    forall|k: int| 0 <= k < p.len() ==> place(x, (#[trigger] p[k]).vars) == Place::Before
}

/// The representation invariant of a polynomial: valid terms with non-zero
/// coefficients, each standing before all that follow.
pub open spec fn canonical<T: Field>(p: Seq<Term<T>>) -> bool {
    &&& forall|i: int| 0 <= i < p.len() ==> (#[trigger] p[i]).wf() && !p[i].val.is_zero_spec()
    &&& forall|i: int, j: int|
        0 <= i < j < p.len() ==> place((#[trigger] p[i]).vars, (#[trigger] p[j]).vars)
            == Place::Before
}

/// The terms of a canonical polynomial after the first are canonical, and
/// the first stands before them all.
pub proof fn lemma_canonical_rest<T: Field>(p: Seq<Term<T>>)
    requires
        canonical(p),
        p.len() > 0,
    ensures
        canonical(p.skip(1)),
        before_all(p[0].vars, p.skip(1)),
{
    let q = p.skip(1);
    assert forall|i: int| 0 <= i < q.len() implies (#[trigger] q[i]).wf()
        && !q[i].val.is_zero_spec() by {
        assert(q[i] == p[i + 1]);
    }
    assert forall|i: int, j: int| 0 <= i < j < q.len() implies place(
        (#[trigger] q[i]).vars,
        (#[trigger] q[j]).vars,
    ) == Place::Before by {
        assert(q[i] == p[i + 1]);
        assert(q[j] == p[j + 1]);
    }
    assert forall|k: int| 0 <= k < q.len() implies place(p[0].vars, (#[trigger] q[k]).vars)
        == Place::Before by {
        assert(q[k] == p[k + 1]);
    }
}

/// A valid non-zero term in front of canonical terms that it stands before
/// gives canonical terms.
pub proof fn lemma_canonical_cons<T: Field>(h: Term<T>, rest: Seq<Term<T>>)
    requires
        h.wf(),
        !h.val.is_zero_spec(),
        canonical(rest),
        before_all(h.vars, rest),
    ensures
        canonical(seq![h] + rest),
{
    let p = seq![h] + rest;
    assert forall|i: int| 0 <= i < p.len() implies (#[trigger] p[i]).wf()
        && !p[i].val.is_zero_spec() by {
        if i > 0 {
            assert(p[i] == rest[i - 1]);
        }
    }
    assert forall|i: int, j: int| 0 <= i < j < p.len() implies place(
        (#[trigger] p[i]).vars,
        (#[trigger] p[j]).vars,
    ) == Place::Before by {
        assert(p[j] == rest[j - 1]);
        if i > 0 {
            assert(p[i] == rest[i - 1]);
        }
    }
}

/// What stands before the first of canonical terms stands before them all.
pub proof fn lemma_before_first<T: Field>(x: Seq<(usize, u64)>, p: Seq<Term<T>>)
    requires
        canonical(p),
        p.len() > 0,
        place(x, p[0].vars) == Place::Before,
    ensures
        before_all(x, p),
{
    assert forall|k: int| 0 <= k < p.len() implies place(x, (#[trigger] p[k]).vars)
        == Place::Before by {
        if k > 0 {
            lemma_place_transitive(x, p[0].vars, p[k].vars);
        }
    }
}

/// Appending a monomial appends what it denotes.
pub proof fn lemma_view_push<T: Field>(v: Seq<Mono<T>>, m: Mono<T>)
    ensures
        terms_view(v.push(m)) == terms_view(v).push(m@),
{
    assert(terms_view(v.push(m)) =~= terms_view(v).push(m@));
}

impl<T: Field> Poly<T> {
    /// The representation invariant.
    pub open spec fn wf(&self) -> bool {
        canonical(self@)
    }

    /// A copy of the polynomial.
    pub fn duplicate(&self) -> (r: Poly<T>)
        ensures
            r@ == self@,
    {
        let mut terms: Vec<Mono<T>> = Vec::new();
        let mut i: usize = 0;
        while i < self.terms.len()
            invariant
                i <= self.terms.len(),
                terms_view(terms@) == self@.take(i as int),
            decreases self.terms.len() - i,
        {
            let m = self.terms[i].duplicate();
            proof {
                lemma_view_push(terms@, m);
                assert(self@.take(i + 1) =~= self@.take(i as int).push(self@[i as int]));
            }
            terms.push(m);
            i = i + 1;
        }
        assert(self@.take(self.terms.len() as int) =~= self@);
        Poly { terms }
    }

    /// The power `pow` of the variable `var`; the constant one when `pow` is zero.
    pub fn var(var: usize, pow: u64) -> (r: Poly<T>)
        ensures
            r.wf(),
            r@ == var_poly::<T>(var, pow),
    {
        proof {
            T::lemma_identities();
        }
        let mut vars: Vec<(usize, u64)> = Vec::new();
        if pow != 0 {
            vars.push((var, pow));
        }
        let mut terms: Vec<Mono<T>> = Vec::new();
        let m = Mono { val: T::one(), vars };
        terms.push(m);
        let r = Poly { terms };
        assert(r@ =~= seq![m@]);
        assert(m@.vars =~= if pow == 0 {
            Seq::<(usize, u64)>::empty()
        } else {
            seq![(var, pow)]
        });
        r
    }

    /// The constant polynomial of an integer.
    pub fn constant(val: i64) -> (r: Poly<T>)
        ensures
            r.wf(),
            r@ == constant_poly::<T>(val),
    {
        let c = T::from_int(val);
        let mut terms: Vec<Mono<T>> = Vec::new();
        if !c.is_zero() {
            let m = Mono { val: c, vars: Vec::new() };
            terms.push(m);
            assert(terms_view(terms@) =~= seq![m@]);
        }
        let r = Poly { terms };
        assert(r@ =~= constant_poly::<T>(val));
        r
    }

    /// The value of a constant polynomial, if it is an integer.
    pub fn get_constant_val(&self) -> (r: Option<i64>)
        requires
            self.wf(),
        ensures
            r == if self@.len() == 0 {
                Some(0i64)
            } else if self@.len() == 1 && self@[0].vars.len() == 0 {
                self@[0].val.int_value()
            } else {
                None
            },
    {
        if self.terms.len() == 0 {
            Some(0)
        } else if self.terms.len() == 1 {
            assert(self@[0] == self.terms@[0]@);
            if self.terms[0].vars.len() == 0 {
                self.terms[0].val.to_int()
            } else {
                None
            }
        } else {
            None
        }
    }

    pub fn is_zero(&self) -> (b: bool)
        ensures
            b == (self@.len() == 0),
    {
        self.terms.len() == 0
    }

    /// The leading term as a polynomial; zero for the zero polynomial.
    pub fn lt(&self) -> (r: Poly<T>)
        ensures
            r@ == self@.take(if self@.len() == 0 { 0int } else { 1int }),
            self.wf() ==> r.wf(),
    {
        let mut terms: Vec<Mono<T>> = Vec::new();
        if self.terms.len() > 0 {
            let m = self.terms[0].duplicate();
            terms.push(m);
            assert(terms_view(terms@) =~= self@.take(1));
        } else {
            assert(terms_view(terms@) =~= self@.take(0));
        }
        Poly { terms }
    }

    /// The leading term; the zero monomial for the zero polynomial.
    pub fn lt_mono(&self) -> (r: Mono<T>)
        ensures
            r@ == leading(self@),
            self.wf() ==> r.wf(),
    {
        proof {
            T::lemma_identities();
        }
        if self.terms.len() > 0 {
            assert(self@[0] == self.terms@[0]@);
            self.terms[0].duplicate()
        } else {
            Mono { val: T::zero(), vars: Vec::new() }
        }
    }
}

/// The power `pow` of the variable `var`; the constant one when `pow` is zero.
pub open spec fn var_poly<T: Field>(var: usize, pow: u64) -> Seq<Term<T>> {
    seq![
        Term {
            val: T::one_spec(),
            vars: if pow == 0 {
                Seq::<(usize, u64)>::empty()
            } else {
                seq![(var, pow)]
            },
        },
    ]
}

/// The constant polynomial of an integer.
pub open spec fn constant_poly<T: Field>(val: i64) -> Seq<Term<T>> {
    single(Term::<T>::make(T::of_int(val), Seq::empty()))
}

/// The leading term of a polynomial; the zero monomial for the zero polynomial.
pub open spec fn leading<T: Field>(p: Seq<Term<T>>) -> Term<T> {
    if p.len() == 0 {
        Term::zero()
    } else {
        p[0]
    }
}

/// The polynomial of one term; zero for the zero monomial.
pub open spec fn single<T: Field>(t: Term<T>) -> Seq<Term<T>> {
    if t.val.is_zero_spec() {
        Seq::empty()
    } else {
        seq![t]
    }
}

/// A valid term on its own is a canonical polynomial.
pub proof fn lemma_single_canonical<T: Field>(t: Term<T>)
    requires
        t.wf(),
    ensures
        canonical(single(t)),
{
}


/// Whether two lists of variables are the same.
pub fn same_vars(a: &Vec<(usize, u64)>, b: &Vec<(usize, u64)>) -> (r: bool)
    ensures
        r == (a@ == b@),
{
    if a.len() != b.len() {
        return false;
    }
    let mut i: usize = 0;
    while i < a.len()
        invariant
            i <= a.len(),
            a.len() == b.len(),
            a@.take(i as int) == b@.take(i as int),
        decreases a.len() - i,
    {
        if a[i].0 != b[i].0 || a[i].1 != b[i].1 {
            assert(a@[i as int] != b@[i as int]);
            return false;
        }
        assert(a@.take(i + 1) =~= a@.take(i as int).push(a@[i as int]));
        assert(b@.take(i + 1) =~= b@.take(i as int).push(b@[i as int]));
        i = i + 1;
    }
    assert(a@.take(a.len() as int) =~= a@);
    assert(b@.take(b.len() as int) =~= b@);
    true
}

impl<T: Field> Poly<T> {
    /// Whether two polynomials have the same terms.
    pub fn same(&self, other: &Poly<T>) -> (r: bool)
        ensures
            r == (self@ == other@),
    {
        if self.terms.len() != other.terms.len() {
            assert(self@.len() != other@.len());
            return false;
        }
        let mut i: usize = 0;
        while i < self.terms.len()
            invariant
                i <= self.terms.len(),
                self.terms.len() == other.terms.len(),
                self@.take(i as int) == other@.take(i as int),
            decreases self.terms.len() - i,
        {
            assert(self@[i as int] == self.terms@[i as int]@);
            assert(other@[i as int] == other.terms@[i as int]@);
            if !self.terms[i].val.same(&other.terms[i].val) || !same_vars(
                &self.terms[i].vars,
                &other.terms[i].vars,
            ) {
                assert(self@[i as int] != other@[i as int]);
                return false;
            }
            assert(self@.take(i + 1) =~= self@.take(i as int).push(self@[i as int]));
            assert(other@.take(i + 1) =~= other@.take(i as int).push(other@[i as int]));
            i = i + 1;
        }
        assert(self@.take(self.terms.len() as int) =~= self@);
        assert(other@.take(other.terms.len() as int) =~= other@);
        true
    }
}

} // verus!
