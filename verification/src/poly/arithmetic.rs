//! Sums, differences and products of polynomials.

use vstd::prelude::*;
use crate::field::Field;
use crate::poly::mono::{
    copy_vars,
    lemma_place_flip,
    lemma_place_level,
    monomial_mul,
    place,
    place_of,
    Mono,
    Place,
    Term,
};
use crate::poly::{
    before_all,
    canonical,
    lemma_before_first,
    lemma_canonical_cons,
    lemma_canonical_rest,
    lemma_view_push,
    single,
    terms_view,
    Poly,
};

verus! {

/// A term in front of `rest`, unless its coefficient is zero.
pub open spec fn attach<T: Field>(val: T, vars: Seq<(usize, u64)>, rest: Seq<Term<T>>) -> Seq<
    Term<T>,
> {
    if val.is_zero_spec() {
        rest
    } else {
        seq![Term { val, vars }] + rest
    }
}

/// The sum of two polynomials, or their difference when `negate` is set:
/// the two lists of terms merged in the monomial order, with the
/// coefficients of terms in the same variables combined and terms that
/// vanish left out.
pub open spec fn poly_merge<T: Field>(a: Seq<Term<T>>, b: Seq<Term<T>>, negate: bool) -> Seq<
    Term<T>,
>
    decreases a.len() + b.len(),
{
    if b.len() == 0 {
        a
    } else if a.len() == 0 || place(a[0].vars, b[0].vars) == Place::After {
        let val = if negate {
            T::zero_spec().difference(b[0].val)
        } else {
            b[0].val
        };
        attach(val, b[0].vars, poly_merge(a, b.skip(1), negate))
    } else if place(a[0].vars, b[0].vars) == Place::Before {
        seq![a[0]] + poly_merge(a.skip(1), b, negate)
    } else {
        let val = if negate {
            a[0].val.difference(b[0].val)
        } else {
            a[0].val.sum(b[0].val)
        };
        attach(val, a[0].vars, poly_merge(a.skip(1), b.skip(1), negate))
    }
}

/// What stands before every term of two polynomials stands before every
/// term of their sum or difference.
pub proof fn lemma_merge_bounded<T: Field>(
    a: Seq<Term<T>>,
    b: Seq<Term<T>>,
    negate: bool,
    x: Seq<(usize, u64)>,
)
    requires
        before_all(x, a),
        before_all(x, b),
    ensures
        before_all(x, poly_merge(a, b, negate)),
    decreases a.len() + b.len(),
{
    let r = poly_merge(a, b, negate);
    if b.len() == 0 {
    } else {
        assert(b[0] == b[0]);
        let b1 = b.skip(1);
        assert forall|k: int| 0 <= k < b1.len() implies place(x, (#[trigger] b1[k]).vars)
            == Place::Before by {
            assert(b1[k] == b[k + 1]);
        }
        if a.len() == 0 || place(a[0].vars, b[0].vars) == Place::After {
            lemma_merge_bounded(a, b1, negate, x);
            let rest = poly_merge(a, b1, negate);
            assert forall|k: int| 0 <= k < r.len() implies place(x, (#[trigger] r[k]).vars)
                == Place::Before by {
                if r.len() == rest.len() {
                    assert(r[k] == rest[k]);
                } else if k > 0 {
                    assert(r[k] == rest[k - 1]);
                }
            }
        } else {
            assert(a[0] == a[0]);
            let a1 = a.skip(1);
            assert forall|k: int| 0 <= k < a1.len() implies place(x, (#[trigger] a1[k]).vars)
                == Place::Before by {
                assert(a1[k] == a[k + 1]);
            }
            if place(a[0].vars, b[0].vars) == Place::Before {
                lemma_merge_bounded(a1, b, negate, x);
                let rest = poly_merge(a1, b, negate);
                assert forall|k: int| 0 <= k < r.len() implies place(x, (#[trigger] r[k]).vars)
                    == Place::Before by {
                    if k > 0 {
                        assert(r[k] == rest[k - 1]);
                    }
                }
            } else {
                lemma_merge_bounded(a1, b1, negate, x);
                let rest = poly_merge(a1, b1, negate);
                assert forall|k: int| 0 <= k < r.len() implies place(x, (#[trigger] r[k]).vars)
                    == Place::Before by {
                    if r.len() == rest.len() {
                        assert(r[k] == rest[k]);
                    } else if k > 0 {
                        assert(r[k] == rest[k - 1]);
                    }
                }
            }
        }
    }
}

/// What holds of the variables of every term of two polynomials holds of
/// the variables of every term of their sum or difference.
pub proof fn lemma_merge_keeps<T: Field>(
    a: Seq<Term<T>>,
    b: Seq<Term<T>>,
    negate: bool,
    holds: spec_fn(Seq<(usize, u64)>) -> bool,
)
    requires
        forall|i: int| 0 <= i < a.len() ==> holds((#[trigger] a[i]).vars),
        forall|i: int| 0 <= i < b.len() ==> holds((#[trigger] b[i]).vars),
    ensures
        forall|k: int|
            0 <= k < poly_merge(a, b, negate).len() ==> holds(
                (#[trigger] poly_merge(a, b, negate)[k]).vars,
            ),
    decreases a.len() + b.len(),
{
    let r = poly_merge(a, b, negate);
    if b.len() == 0 {
    } else {
        assert(holds(b[0].vars));
        let b1 = b.skip(1);
        assert forall|k: int| 0 <= k < b1.len() implies holds((#[trigger] b1[k]).vars) by {
            assert(b1[k] == b[k + 1]);
        }
        if a.len() == 0 || place(a[0].vars, b[0].vars) == Place::After {
            lemma_merge_keeps(a, b1, negate, holds);
            let rest = poly_merge(a, b1, negate);
            assert forall|k: int| 0 <= k < r.len() implies holds((#[trigger] r[k]).vars) by {
                if r.len() == rest.len() {
                    assert(r[k] == rest[k]);
                } else if k > 0 {
                    assert(r[k] == rest[k - 1]);
                }
            }
        } else {
            assert(holds(a[0].vars));
            let a1 = a.skip(1);
            assert forall|k: int| 0 <= k < a1.len() implies holds((#[trigger] a1[k]).vars) by {
                assert(a1[k] == a[k + 1]);
            }
            if place(a[0].vars, b[0].vars) == Place::Before {
                lemma_merge_keeps(a1, b, negate, holds);
                let rest = poly_merge(a1, b, negate);
                assert forall|k: int| 0 <= k < r.len() implies holds((#[trigger] r[k]).vars) by {
                    if k > 0 {
                        assert(r[k] == rest[k - 1]);
                    }
                }
            } else {
                lemma_merge_keeps(a1, b1, negate, holds);
                let rest = poly_merge(a1, b1, negate);
                assert forall|k: int| 0 <= k < r.len() implies holds((#[trigger] r[k]).vars) by {
                    if r.len() == rest.len() {
                        assert(r[k] == rest[k]);
                    } else if k > 0 {
                        assert(r[k] == rest[k - 1]);
                    }
                }
            }
        }
    }
}

/// Adding a term to a polynomial whose terms all stand before it puts it
/// at the end.
pub proof fn lemma_merge_appends<T: Field>(acc: Seq<Term<T>>, t: Term<T>)
    requires
        !t.val.is_zero_spec(),
        forall|k: int| 0 <= k < acc.len() ==> place((#[trigger] acc[k]).vars, t.vars) == Place::Before,
    ensures
        poly_merge(acc, seq![t], false) == acc.push(t),
    decreases acc.len(),
{
    let b = seq![t];
    assert(b.skip(1) =~= Seq::<Term<T>>::empty());
    if acc.len() == 0 {
        assert(poly_merge(acc, b.skip(1), false) =~= acc);
        assert(poly_merge(acc, b, false) =~= acc.push(t));
    } else {
        assert(place(acc[0].vars, t.vars) == Place::Before);
        let rest = acc.skip(1);
        assert forall|k: int| 0 <= k < rest.len() implies place((#[trigger] rest[k]).vars, t.vars)
            == Place::Before by {
            assert(rest[k] == acc[k + 1]);
        }
        lemma_merge_appends(rest, t);
        assert(seq![acc[0]] + rest.push(t) =~= acc.push(t));
    }
}

/// The sum or difference of canonical polynomials is canonical.
pub proof fn lemma_merge_canonical<T: Field>(a: Seq<Term<T>>, b: Seq<Term<T>>, negate: bool)
    requires
        canonical(a),
        canonical(b),
    ensures
        canonical(poly_merge(a, b, negate)),
    decreases a.len() + b.len(),
{
    T::lemma_identities();
    if b.len() == 0 {
    } else {
        lemma_canonical_rest(b);
        let b1 = b.skip(1);
        assert(b[0].wf());
        if a.len() == 0 || place(a[0].vars, b[0].vars) == Place::After {
            let val = if negate {
                T::zero_spec().difference(b[0].val)
            } else {
                b[0].val
            };
            T::lemma_closed(T::zero_spec(), b[0].val, 0);
            lemma_merge_canonical(a, b1, negate);
            if a.len() > 0 {
                lemma_place_flip(a[0].vars, b[0].vars);
                lemma_before_first(b[0].vars, a);
            }
            lemma_merge_bounded(a, b1, negate, b[0].vars);
            if !val.is_zero_spec() {
                lemma_canonical_cons(Term { val, vars: b[0].vars }, poly_merge(a, b1, negate));
            }
        } else {
            lemma_canonical_rest(a);
            let a1 = a.skip(1);
            assert(a[0].wf());
            if place(a[0].vars, b[0].vars) == Place::Before {
                lemma_merge_canonical(a1, b, negate);
                lemma_before_first(a[0].vars, b);
                lemma_merge_bounded(a1, b, negate, a[0].vars);
                lemma_canonical_cons(a[0], poly_merge(a1, b, negate));
            } else {
                let val = if negate {
                    a[0].val.difference(b[0].val)
                } else {
                    a[0].val.sum(b[0].val)
                };
                T::lemma_closed(a[0].val, b[0].val, 0);
                lemma_place_level(a[0].vars, b[0].vars);
                lemma_merge_canonical(a1, b1, negate);
                lemma_merge_bounded(a1, b1, negate, a[0].vars);
                if !val.is_zero_spec() {
                    lemma_canonical_cons(Term { val, vars: a[0].vars }, poly_merge(a1, b1, negate));
                }
            }
        }
    }
}

/// The sum of two polynomials, or their difference when `negate` is set.
pub fn merge<T: Field>(a: &Poly<T>, b: &Poly<T>, negate: bool) -> (r: Poly<T>)
    requires
        a.wf(),
        b.wf(),
    ensures
        r@ == poly_merge(a@, b@, negate),
        r.wf(),
{
    let mut out: Vec<Mono<T>> = Vec::new();
    let mut i: usize = 0;
    let mut j: usize = 0;
    proof {
        assert(a@.skip(0) =~= a@ && b@.skip(0) =~= b@);
        assert(terms_view(out@) + poly_merge(a@, b@, negate) =~= poly_merge(a@, b@, negate));
        T::lemma_identities();
    }
    while j < b.terms.len()
        invariant
            i <= a.terms.len(),
            j <= b.terms.len(),
            a.wf(),
            b.wf(),
            T::zero_spec().valid(),
            terms_view(out@) + poly_merge(a@.skip(i as int), b@.skip(j as int), negate)
                == poly_merge(a@, b@, negate),
        decreases (a.terms.len() - i) + (b.terms.len() - j),
    {
        let ghost sa = a@.skip(i as int);
        let ghost sb = b@.skip(j as int);
        let ghost before = terms_view(out@);
        proof {
            assert(sb[0] == b@[j as int] && b@[j as int] == b.terms@[j as int]@);
            assert(sb.skip(1) =~= b@.skip(j + 1));
            if i < a.terms.len() {
                assert(sa[0] == a@[i as int] && a@[i as int] == a.terms@[i as int]@);
                assert(sa.skip(1) =~= a@.skip(i + 1));
            }
            assert(b@[j as int].wf());
        }
        let p = if i >= a.terms.len() {
            Place::After
        } else {
            place_of(&a.terms[i].vars, &b.terms[j].vars)
        };
        let mut pushed: Option<Mono<T>> = None;
        match p {
            Place::After => {
                let val = if negate {
                    T::zero().minus(b.terms[j].val)
                } else {
                    b.terms[j].val
                };
                if !val.is_zero() {
                    pushed = Some(Mono { val, vars: copy_vars(&b.terms[j].vars) });
                }
                j = j + 1;
            },
            Place::Before => {
                pushed = Some(a.terms[i].duplicate());
                i = i + 1;
            },
            Place::Level => {
                assert(a@[i as int].wf());
                let val = if negate {
                    a.terms[i].val.minus(b.terms[j].val)
                } else {
                    a.terms[i].val.plus(b.terms[j].val)
                };
                if !val.is_zero() {
                    pushed = Some(Mono { val, vars: copy_vars(&a.terms[i].vars) });
                }
                i = i + 1;
                j = j + 1;
            },
        }
        match pushed {
            Some(m) => {
                proof {
                    lemma_view_push(out@, m);
                }
                out.push(m);
                assert(terms_view(out@) + poly_merge(a@.skip(i as int), b@.skip(j as int), negate)
                    =~= before + (seq![m@] + poly_merge(
                    a@.skip(i as int),
                    b@.skip(j as int),
                    negate,
                )));
            },
            None => {},
        }
    }
    while i < a.terms.len()
        invariant
            i <= a.terms.len(),
            terms_view(out@) + a@.skip(i as int) == poly_merge(a@, b@, negate),
        decreases a.terms.len() - i,
    {
        let ghost before = terms_view(out@);
        let m = a.terms[i].duplicate();
        proof {
            lemma_view_push(out@, m);
            assert(a@[i as int] == a.terms@[i as int]@);
        }
        out.push(m);
        assert(terms_view(out@) + a@.skip(i + 1) =~= before + a@.skip(i as int));
        i = i + 1;
    }
    proof {
        assert(terms_view(out@) + a@.skip(i as int) =~= terms_view(out@));
        lemma_merge_canonical(a@, b@, negate);
    }
    Poly { terms: out }
}

impl<T: Field> core::ops::Add for Poly<T> {
    type Output = Poly<T>;

    fn add(self, rhs: Poly<T>) -> (r: Poly<T>)
        ensures
            r.wf(),
            r@ == poly_merge(self@, rhs@, false),
    {
        merge(&self, &rhs, false)
    }
}

impl<T: Field> vstd::std_specs::ops::AddSpecImpl for Poly<T> {
    open spec fn obeys_add_spec() -> bool {
        false
    }

    open spec fn add_req(self, rhs: Poly<T>) -> bool {
        self.wf() && rhs.wf()
    }

    open spec fn add_spec(self, rhs: Poly<T>) -> Poly<T> {
        self
    }
}

impl<T: Field> core::ops::Sub for Poly<T> {
    type Output = Poly<T>;

    fn sub(self, rhs: Poly<T>) -> (r: Poly<T>)
        ensures
            r.wf(),
            r@ == poly_merge(self@, rhs@, true),
    {
        merge(&self, &rhs, true)
    }
}

impl<T: Field> vstd::std_specs::ops::SubSpecImpl for Poly<T> {
    open spec fn obeys_sub_spec() -> bool {
        false
    }

    open spec fn sub_req(self, rhs: Poly<T>) -> bool {
        self.wf() && rhs.wf()
    }

    open spec fn sub_spec(self, rhs: Poly<T>) -> Poly<T> {
        self
    }
}


/// `acc` plus the products of `t` with the terms of `b`, added one by one.
pub open spec fn mul_row<T: Field>(acc: Seq<Term<T>>, t: Term<T>, b: Seq<Term<T>>) -> Seq<Term<T>>
    decreases b.len(),
{
    if b.len() == 0 {
        acc
    } else {
        mul_row(poly_merge(acc, single(t.times(b[0])), false), t, b.skip(1))
    }
}

/// `acc` plus the products of every term of `a` with every term of `b`,
/// added one by one, row by row.
pub open spec fn mul_rows<T: Field>(acc: Seq<Term<T>>, a: Seq<Term<T>>, b: Seq<Term<T>>) -> Seq<
    Term<T>,
>
    decreases a.len(),
{
    if a.len() == 0 {
        acc
    } else {
        mul_rows(mul_row(acc, a[0], b), a.skip(1), b)
    }
}

/// The product of two polynomials: the pairwise products of their terms,
/// accumulated by polynomial addition.
pub open spec fn poly_product<T: Field>(a: Seq<Term<T>>, b: Seq<Term<T>>) -> Seq<Term<T>> {
    mul_rows(Seq::empty(), a, b)
}

/// The product of a term and a polynomial.
pub open spec fn scale<T: Field>(t: Term<T>, p: Seq<Term<T>>) -> Seq<Term<T>> {
    mul_row(Seq::empty(), t, p)
}

/// A polynomial of one monomial; zero for the zero monomial.
pub fn monomial<T: Field>(m: Mono<T>) -> (r: Poly<T>)
    requires
        m.wf(),
    ensures
        r@ == single(m@),
        r.wf(),
{
    let mut terms: Vec<Mono<T>> = Vec::new();
    if !m.val.is_zero() {
        terms.push(m);
        assert(terms_view(terms@) =~= seq![m@]);
    } else {
        assert(terms_view(terms@) =~= Seq::<Term<T>>::empty());
    }
    Poly { terms }
}

/// The zero polynomial.
pub fn zero_poly<T: Field>() -> (r: Poly<T>)
    ensures
        r@ == Seq::<Term<T>>::empty(),
        r.wf(),
{
    let r = Poly { terms: Vec::new() };
    assert(r@ =~= Seq::<Term<T>>::empty());
    r
}

/// `acc` plus the products of `t` with the terms of `b`.
pub fn add_scaled<T: Field>(acc: Poly<T>, t: &Mono<T>, b: &Poly<T>) -> (r: Poly<T>)
    requires
        acc.wf(),
        t.wf(),
        b.wf(),
    ensures
        r@ == mul_row(acc@, t@, b@),
        r.wf(),
{
    let mut cur = acc;
    let mut j: usize = 0;
    assert(b@.skip(0) =~= b@);
    while j < b.terms.len()
        invariant
            j <= b.terms.len(),
            cur.wf(),
            t.wf(),
            b.wf(),
            mul_row(cur@, t@, b@.skip(j as int)) == mul_row(acc@, t@, b@),
        decreases b.terms.len() - j,
    {
        proof {
            assert(b@.skip(j as int)[0] == b@[j as int] && b@[j as int] == b.terms@[j as int]@);
            assert(b@.skip(j as int).skip(1) =~= b@.skip(j + 1));
            assert(b@[j as int].wf());
        }
        let m = monomial_mul(t, &b.terms[j]);
        cur = merge(&cur, &monomial(m), false);
        j = j + 1;
    }
    cur
}

impl<T: Field> Poly<T> {
    /// The product of two polynomials.
    pub fn mul_ref(&self, other: &Poly<T>) -> (r: Poly<T>)
        requires
            self.wf(),
            other.wf(),
        ensures
            r@ == poly_product(self@, other@),
            r.wf(),
    {
        let mut acc: Poly<T> = zero_poly();
        let mut i: usize = 0;
        assert(self@.skip(0) =~= self@);
        while i < self.terms.len()
            invariant
                i <= self.terms.len(),
                acc.wf(),
                self.wf(),
                other.wf(),
                mul_rows(acc@, self@.skip(i as int), other@) == poly_product(self@, other@),
            decreases self.terms.len() - i,
        {
            proof {
                assert(self@.skip(i as int)[0] == self@[i as int] && self@[i as int]
                    == self.terms@[i as int]@);
                assert(self@.skip(i as int).skip(1) =~= self@.skip(i + 1));
                assert(self@[i as int].wf());
            }
            acc = add_scaled(acc, &self.terms[i], other);
            i = i + 1;
        }
        acc
    }

    /// The terms after the leading one.
    pub fn rest(&self) -> (r: Poly<T>)
        requires
            self@.len() > 0,
        ensures
            r@ == self@.skip(1),
            self.wf() ==> r.wf(),
    {
        let mut terms: Vec<Mono<T>> = Vec::new();
        let mut i: usize = 1;
        assert(terms_view(terms@) =~= self@.subrange(1, 1));
        while i < self.terms.len()
            invariant
                1 <= i <= self.terms.len(),
                terms_view(terms@) == self@.subrange(1, i as int),
            decreases self.terms.len() - i,
        {
            let m = self.terms[i].duplicate();
            proof {
                lemma_view_push(terms@, m);
                assert(self@[i as int] == self.terms@[i as int]@);
                assert(self@.subrange(1, i + 1) =~= self@.subrange(1, i as int).push(self@[i as int]));
            }
            terms.push(m);
            i = i + 1;
        }
        proof {
            assert(self@.subrange(1, self@.len() as int) =~= self@.skip(1));
            if self.wf() {
                lemma_canonical_rest(self@);
            }
        }
        Poly { terms }
    }
}

impl<T: Field> core::ops::Mul for Poly<T> {
    type Output = Poly<T>;

    fn mul(self, rhs: Poly<T>) -> (r: Poly<T>)
        ensures
            r.wf(),
            r@ == poly_product(self@, rhs@),
    {
        self.mul_ref(&rhs)
    }
}

impl<T: Field> vstd::std_specs::ops::MulSpecImpl for Poly<T> {
    open spec fn obeys_mul_spec() -> bool {
        false
    }

    open spec fn mul_req(self, rhs: Poly<T>) -> bool {
        self.wf() && rhs.wf()
    }

    open spec fn mul_spec(self, rhs: Poly<T>) -> Poly<T> {
        self
    }
}

} // verus!
