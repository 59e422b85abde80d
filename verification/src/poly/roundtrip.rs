//! Division gives back the dividend: the quotients times the divisors plus
//! the remainder are the dividend, while no coefficient overflows.

use vstd::prelude::*;
use crate::exact::{
    lemma_exact_lowest,
    lemma_exact_product_commutes,
    lemma_exact_rotate,
    lemma_exact_swap,
    exact_product,
    exact_sum,
    lemma_combine_is_exact,
    lemma_exact_cancel,
    lemma_exact_product_distributes,
    lemma_exact_sum_associates,
    lemma_exact_sum_commutes,
    lemma_exact_sum_zero,
    lemma_lowest_of,
    lemma_multiply_is_exact,
    raw_product,
    raw_sum,
    zero,
};
use crate::field::{Field, Zero};
use crate::numeric::lemma_gcd_units;
use crate::poly::arithmetic::{attach, mul_row, mul_rows, poly_merge, poly_product, scale};
use crate::poly::mono::{lemma_place_flip, lemma_place_level, place, Place, Term};
use crate::poly::arithmetic::lemma_merge_canonical;
use crate::poly::division::{
    all_canonical,
    divide_steps,
    find_divisor,
    poly_divide,
    product_bounded,
    STEP_LIMIT,
};
use crate::poly::mono::{exponent_of, lemma_union_place, lemma_union_sorted, union_vars};
use crate::poly::{before_all, canonical, lemma_canonical_rest, single};
use crate::rational::{combine_fits, multiply, multiply_fits, Frac, Rat};

verus! {

/// The coefficient that the monomial with the variables `v` has in a
/// polynomial; zero if it has none.
pub open spec fn coef(p: Seq<Term<Rat>>, v: Seq<(usize, u64)>) -> Frac
    decreases p.len(),
{
    if p.len() == 0 {
        zero()
    } else if p[0].vars == v {
        p[0].val@
    } else {
        coef(p.skip(1), v)
    }
}

/// A valid rational number that is zero is `0 / 1`.
pub proof fn lemma_zero_view(x: Rat)
    requires
        x.wf(),
    ensures
        x.num == 0 ==> x@ == zero(),
        x@.lowest(),
        zero().lowest(),
{
    lemma_gcd_units(0, x.den as nat);
    lemma_gcd_units(0, 1);
}

/// A monomial that no term has has the coefficient zero.
pub proof fn lemma_coef_absent(p: Seq<Term<Rat>>, v: Seq<(usize, u64)>)
    requires
        forall|j: int| 0 <= j < p.len() ==> (#[trigger] p[j]).vars != v,
    ensures
        coef(p, v) == zero(),
    decreases p.len(),
{
    if p.len() > 0 {
        assert(p[0].vars != v);
        let rest = p.skip(1);
        assert forall|j: int| 0 <= j < rest.len() implies (#[trigger] rest[j]).vars != v by {
            assert(rest[j] == p[j + 1]);
        }
        lemma_coef_absent(rest, v);
    }
}

/// A monomial that stands before every term has the coefficient zero.
pub proof fn lemma_coef_before(p: Seq<Term<Rat>>, v: Seq<(usize, u64)>)
    requires
        before_all(v, p),
    ensures
        coef(p, v) == zero(),
{
    lemma_place_flip(v, v);
    assert forall|j: int| 0 <= j < p.len() implies (#[trigger] p[j]).vars != v by {
        assert(place(v, p[j].vars) == Place::Before);
    }
    lemma_coef_absent(p, v);
}

/// The coefficients of a canonical polynomial are in lowest terms.
pub proof fn lemma_coef_lowest(p: Seq<Term<Rat>>, v: Seq<(usize, u64)>)
    requires
        canonical(p),
    ensures
        coef(p, v).lowest(),
    decreases p.len(),
{
    lemma_gcd_units(0, 1);
    if p.len() > 0 {
        assert(p[0].wf());
        lemma_canonical_rest(p);
        lemma_coef_lowest(p.skip(1), v);
    }
}

/// Canonical polynomials with the same coefficients are the same.
pub proof fn lemma_coef_extensional(p: Seq<Term<Rat>>, q: Seq<Term<Rat>>)
    requires
        canonical(p),
        canonical(q),
        forall|v: Seq<(usize, u64)>| #[trigger] coef(p, v) == coef(q, v),
    ensures
        p == q,
    decreases p.len() + q.len(),
{
    if p.len() == 0 && q.len() == 0 {
        assert(p =~= q);
    } else if p.len() == 0 {
        assert(q[0].wf() && !q[0].val.is_zero_spec());
        assert(coef(p, q[0].vars) == coef(q, q[0].vars));
    } else if q.len() == 0 {
        assert(p[0].wf() && !p[0].val.is_zero_spec());
        assert(coef(p, p[0].vars) == coef(q, p[0].vars));
    } else {
        lemma_canonical_rest(p);
        lemma_canonical_rest(q);
        assert(p[0].wf() && !p[0].val.is_zero_spec());
        assert(q[0].wf() && !q[0].val.is_zero_spec());
        let p_rest = p.skip(1);
        let q_rest = q.skip(1);
        if place(p[0].vars, q[0].vars) == Place::Before {
            crate::poly::lemma_before_first(p[0].vars, q);
            lemma_coef_before(q, p[0].vars);
            assert(coef(p, p[0].vars) == coef(q, p[0].vars));
        } else if place(p[0].vars, q[0].vars) == Place::After {
            lemma_place_flip(p[0].vars, q[0].vars);
            crate::poly::lemma_before_first(q[0].vars, p);
            lemma_coef_before(p, q[0].vars);
            assert(coef(p, q[0].vars) == coef(q, q[0].vars));
        } else {
            lemma_place_level(p[0].vars, q[0].vars);
            let x = p[0].vars;
            assert(coef(p, x) == coef(q, x));
            assert(p[0].val@ == q[0].val@);
            assert(p[0] == q[0]);
            lemma_coef_before(p_rest, x);
            lemma_coef_before(q_rest, x);
            assert forall|v: Seq<(usize, u64)>| #[trigger] coef(p_rest, v) == coef(q_rest, v) by {
                assert(coef(p, v) == coef(q, v));
            }
            lemma_coef_extensional(p_rest, q_rest);
            assert(p =~= seq![p[0]] + p_rest);
            assert(q =~= seq![q[0]] + q_rest);
        }
    }
}

/// Whether the sum of two polynomials, or their difference when `negate`
/// is set, is computed without overflow.
pub open spec fn merge_exact(a: Seq<Term<Rat>>, b: Seq<Term<Rat>>, negate: bool) -> bool
    decreases a.len() + b.len(),
{
    if b.len() == 0 {
        true
    } else if a.len() == 0 || place(a[0].vars, b[0].vars) == Place::After {
        (negate ==> combine_fits(zero(), b[0].val@, -1)) && merge_exact(a, b.skip(1), negate)
    } else if place(a[0].vars, b[0].vars) == Place::Before {
        merge_exact(a.skip(1), b, negate)
    } else {
        combine_fits(a[0].val@, b[0].val@, if negate { -1int } else { 1int }) && merge_exact(
            a.skip(1),
            b.skip(1),
            negate,
        )
    }
}

/// The coefficient of a term in front of a polynomial of other variables.
pub proof fn lemma_coef_attach(val: Rat, x: Seq<(usize, u64)>, rest: Seq<Term<Rat>>, v: Seq<
    (usize, u64),
>)
    requires
        val.wf(),
        coef(rest, x) == zero(),
    ensures
        coef(attach(val, x, rest), v) == if v == x {
            val@
        } else {
            coef(rest, v)
        },
{
    lemma_zero_view(val);
    if !val.is_zero_spec() {
        let t = Term { val, vars: x };
        assert((seq![t] + rest).skip(1) =~= rest);
        assert((seq![t] + rest)[0] == t);
    }
}

/// The coefficients of the sum of two canonical polynomials are the exact
/// sums of their coefficients, while it is computed without overflow; and
/// likewise for the difference.
pub proof fn lemma_merge_coef(a: Seq<Term<Rat>>, b: Seq<Term<Rat>>, negate: bool, v: Seq<
    (usize, u64),
>)
    requires
        canonical(a),
        canonical(b),
        merge_exact(a, b, negate),
    ensures
        coef(poly_merge(a, b, negate), v) == exact_sum(
            coef(a, v),
            coef(b, v),
            if negate { -1int } else { 1int },
        ),
    decreases a.len() + b.len(),
{
    let s: int = if negate { -1 } else { 1 };
    Rat::lemma_identities();
    lemma_coef_lowest(a, v);
    lemma_coef_lowest(b, v);
    lemma_exact_sum_zero(coef(a, v), s);
    lemma_exact_sum_zero(coef(b, v), s);
    lemma_exact_sum_zero(zero(), s);
    lemma_gcd_units(0, 1);
    if b.len() == 0 {
    } else {
        lemma_canonical_rest(b);
        let b1 = b.skip(1);
        assert(b[0].wf() && !b[0].val.is_zero_spec());
        lemma_zero_view(b[0].val);
        lemma_coef_before(b1, b[0].vars);
        if a.len() == 0 || place(a[0].vars, b[0].vars) == Place::After {
            let val = if negate {
                Rat::zero_spec().difference(b[0].val)
            } else {
                b[0].val
            };
            Rat::lemma_closed(Rat::zero_spec(), b[0].val, 0);
            if negate {
                lemma_combine_is_exact(zero(), b[0].val@, -1);
                crate::rational::lemma_combine_exact(zero(), b[0].val@, -1);
            }
            let rest = poly_merge(a, b1, negate);
            lemma_merge_coef(a, b1, negate, v);
            lemma_merge_coef(a, b1, negate, b[0].vars);
            if a.len() > 0 {
                lemma_place_flip(a[0].vars, b[0].vars);
                crate::poly::lemma_before_first(b[0].vars, a);
            }
            lemma_coef_before(a, b[0].vars);
            assert(coef(rest, b[0].vars) == zero());
            lemma_coef_attach(val, b[0].vars, rest, v);
        } else {
            lemma_canonical_rest(a);
            let a1 = a.skip(1);
            assert(a[0].wf() && !a[0].val.is_zero_spec());
            lemma_zero_view(a[0].val);
            lemma_coef_before(a1, a[0].vars);
            if place(a[0].vars, b[0].vars) == Place::Before {
                let rest = poly_merge(a1, b, negate);
                lemma_merge_coef(a1, b, negate, v);
                crate::poly::lemma_before_first(a[0].vars, b);
                lemma_coef_before(b, a[0].vars);
                assert((seq![a[0]] + rest).skip(1) =~= rest);
                assert((seq![a[0]] + rest)[0] == a[0]);
            } else {
                lemma_place_level(a[0].vars, b[0].vars);
                let x = a[0].vars;
                let val = if negate {
                    a[0].val.difference(b[0].val)
                } else {
                    a[0].val.sum(b[0].val)
                };
                Rat::lemma_closed(a[0].val, b[0].val, 0);
                lemma_combine_is_exact(a[0].val@, b[0].val@, s);
                crate::rational::lemma_combine_exact(a[0].val@, b[0].val@, s);
                let rest = poly_merge(a1, b1, negate);
                lemma_merge_coef(a1, b1, negate, v);
                lemma_merge_coef(a1, b1, negate, x);
                assert(coef(rest, x) == zero());
                lemma_coef_attach(val, x, rest, v);
            }
        }
    }
}


/// The product of two valid terms is a valid term.
pub proof fn lemma_times_wf<T: Field>(a: Term<T>, b: Term<T>)
    requires
        a.wf(),
        b.wf(),
    ensures
        a.times(b).wf(),
{
    T::lemma_identities();
    T::lemma_closed(a.val, b.val, 0);
    lemma_union_sorted(a.vars, b.vars, false, -1);
}

/// Adding the products of a valid term with the terms of a canonical
/// polynomial to a canonical polynomial gives a canonical polynomial.
pub proof fn lemma_row_canonical<T: Field>(acc: Seq<Term<T>>, m: Term<T>, p: Seq<Term<T>>)
    requires
        canonical(acc),
        m.wf(),
        canonical(p),
    ensures
        canonical(mul_row(acc, m, p)),
    decreases p.len(),
{
    if p.len() > 0 {
        lemma_canonical_rest(p);
        assert(p[0].wf());
        lemma_times_wf(m, p[0]);
        crate::poly::lemma_single_canonical(m.times(p[0]));
        lemma_merge_canonical(acc, single(m.times(p[0])), false);
        lemma_row_canonical(poly_merge(acc, single(m.times(p[0])), false), m, p.skip(1));
    }
}

/// Adding the product of two canonical polynomials to a canonical
/// polynomial gives a canonical polynomial.
pub proof fn lemma_rows_canonical<T: Field>(acc: Seq<Term<T>>, a: Seq<Term<T>>, b: Seq<Term<T>>)
    requires
        canonical(acc),
        canonical(a),
        canonical(b),
    ensures
        canonical(mul_rows(acc, a, b)),
    decreases a.len(),
{
    if a.len() > 0 {
        lemma_canonical_rest(a);
        assert(a[0].wf());
        lemma_row_canonical(acc, a[0], b);
        lemma_rows_canonical(mul_row(acc, a[0], b), a.skip(1), b);
    }
}

/// The coefficient that the monomial with the variables `v` has in the
/// product of the term `m` and the polynomial `p`.
pub open spec fn scaled_coef(m: Term<Rat>, p: Seq<Term<Rat>>, v: Seq<(usize, u64)>) -> Frac
    decreases p.len(),
{
    if p.len() == 0 {
        zero()
    } else if union_vars(m.vars, p[0].vars, false) == v {
        exact_product(m.val@, p[0].val@)
    } else {
        scaled_coef(m, p.skip(1), v)
    }
}

/// Whether adding the product of the term `m` and the polynomial `p` to
/// `acc` is computed without overflow.
pub open spec fn row_exact(acc: Seq<Term<Rat>>, m: Term<Rat>, p: Seq<Term<Rat>>) -> bool
    decreases p.len(),
{
    if p.len() == 0 {
        true
    } else {
        let t = single(m.times(p[0]));
        &&& multiply_fits(m.val@, p[0].val@)
        &&& merge_exact(acc, t, false)
        &&& row_exact(poly_merge(acc, t, false), m, p.skip(1))
    }
}

/// The coefficients of a product with a term are in lowest terms, and zero
/// for the monomials that are the product of the term with no term of the
/// polynomial.
pub proof fn lemma_scaled_coef(m: Term<Rat>, p: Seq<Term<Rat>>, v: Seq<(usize, u64)>)
    requires
        m.wf(),
        canonical(p),
    ensures
        scaled_coef(m, p, v).lowest(),
        (forall|j: int| 0 <= j < p.len() ==> union_vars(m.vars, (#[trigger] p[j]).vars, false) != v)
            ==> scaled_coef(m, p, v) == zero(),
    decreases p.len(),
{
    lemma_gcd_units(0, 1);
    if p.len() > 0 {
        lemma_canonical_rest(p);
        assert(p[0].wf());
        let rest = p.skip(1);
        lemma_scaled_coef(m, rest, v);
        crate::exact::lemma_positive(m.val@.den, p[0].val@.den);
        lemma_lowest_of(raw_product(m.val@, p[0].val@));
        if forall|j: int| 0 <= j < p.len() ==> union_vars(m.vars, (#[trigger] p[j]).vars, false) != v {
            assert(union_vars(m.vars, p[0].vars, false) != v);
            assert forall|j: int| 0 <= j < rest.len() implies union_vars(
                m.vars,
                (#[trigger] rest[j]).vars,
                false,
            ) != v by {
                assert(rest[j] == p[j + 1]);
            }
        }
    }
}

/// The products of a monomial with the terms after the first of a
/// canonical polynomial differ from its product with the first, while no
/// exponent goes beyond 64 bits.
pub proof fn lemma_products_differ(m: Term<Rat>, p: Seq<Term<Rat>>)
    requires
        m.wf(),
        canonical(p),
        p.len() > 0,
        product_bounded(m.vars, p),
    ensures
        forall|j: int|
            0 <= j < p.skip(1).len() ==> union_vars(m.vars, (#[trigger] p.skip(1)[j]).vars, false)
                != union_vars(m.vars, p[0].vars, false),
        product_bounded(m.vars, p.skip(1)),
{
    let rest = p.skip(1);
    let first = union_vars(m.vars, p[0].vars, false);
    lemma_place_flip(first, first);
    assert(p[0].wf());
    assert forall|var: usize| #[trigger] exponent_of(m.vars, var) + exponent_of(p[0].vars, var)
        <= u64::MAX by {
        assert(exponent_of(m.vars, var) + exponent_of(p[0].vars, var) <= u64::MAX);
    }
    assert forall|j: int| 0 <= j < rest.len() implies union_vars(
        m.vars,
        (#[trigger] rest[j]).vars,
        false,
    ) != first by {
        assert(rest[j] == p[j + 1]);
        assert(p[j + 1].wf());
        assert(place(p[0].vars, p[j + 1].vars) == Place::Before);
        assert forall|var: usize| #[trigger] exponent_of(m.vars, var) + exponent_of(
            p[j + 1].vars,
            var,
        ) <= u64::MAX by {
            assert(exponent_of(m.vars, var) + exponent_of(p[j + 1].vars, var) <= u64::MAX);
        }
        lemma_union_place(m.vars, p[0].vars, p[j + 1].vars);
    }
    assert forall|j: int, var: usize| 0 <= j < rest.len() implies exponent_of(m.vars, var)
        + #[trigger] exponent_of(rest[j].vars, var) <= u64::MAX by {
        assert(rest[j] == p[j + 1]);
        assert(exponent_of(m.vars, var) + exponent_of(p[j + 1].vars, var) <= u64::MAX);
    }
}

/// The product of two terms that are not zero, while it is computed
/// without overflow: the exact product of the coefficients, which is not
/// zero, with the variables of both.
pub proof fn lemma_times_exact(m: Term<Rat>, t: Term<Rat>)
    requires
        m.wf(),
        t.wf(),
        m.val.num != 0,
        t.val.num != 0,
        multiply_fits(m.val@, t.val@),
    ensures
        m.times(t).val@ == exact_product(m.val@, t.val@),
        m.times(t).val.num != 0,
        m.times(t).vars == union_vars(m.vars, t.vars, false),
        m.times(t).wf(),
{
    lemma_times_wf(m, t);
    lemma_multiply_is_exact(m.val@, t.val@);
    crate::rational::lemma_multiply_exact(m.val@, t.val@);
    crate::exact::lemma_positive(m.val@.den, t.val@.den);
    lemma_lowest_of(raw_product(m.val@, t.val@));
    assert(m.val@.num * t.val@.num != 0) by (nonlinear_arith)
        requires
            m.val@.num != 0,
            t.val@.num != 0,
    ;
}

/// The coefficients of a polynomial to which the product of a term and a
/// polynomial is added are the exact sums of its coefficients and those of
/// the product, while nothing overflows.
pub proof fn lemma_row_coef(acc: Seq<Term<Rat>>, m: Term<Rat>, p: Seq<Term<Rat>>, v: Seq<
    (usize, u64),
>)
    requires
        canonical(acc),
        m.wf(),
        m.val.num != 0,
        canonical(p),
        product_bounded(m.vars, p),
        row_exact(acc, m, p),
    ensures
        coef(mul_row(acc, m, p), v) == exact_sum(coef(acc, v), scaled_coef(m, p, v), 1),
    decreases p.len(),
{
    lemma_coef_lowest(acc, v);
    lemma_exact_sum_zero(coef(acc, v), 1);
    if p.len() > 0 {
        lemma_canonical_rest(p);
        let rest = p.skip(1);
        assert(p[0].wf() && !p[0].val.is_zero_spec());
        let t = m.times(p[0]);
        lemma_times_exact(m, p[0]);
        let one = single(t);
        assert(one == seq![t]);
        assert(one.skip(1) =~= Seq::<Term<Rat>>::empty());
        crate::poly::lemma_single_canonical(t);
        let next = poly_merge(acc, one, false);
        lemma_merge_canonical(acc, one, false);
        lemma_merge_coef(acc, one, false, v);
        lemma_products_differ(m, p);
        lemma_scaled_coef(m, rest, v);
        lemma_row_coef(next, m, rest, v);
        lemma_coef_lowest(one, v);
        lemma_coef_lowest(next, v);
        lemma_exact_sum_zero(coef(next, v), 1);
        assert(one[0] == t);
        assert(coef(one.skip(1), v) == zero());
        if t.vars == v {
            assert(coef(one, v) == t.val@);
            assert(scaled_coef(m, rest, v) == zero());
            assert(scaled_coef(m, p, v) == exact_product(m.val@, p[0].val@));
        } else {
            assert(coef(one, v) == zero());
            assert(scaled_coef(m, p, v) == scaled_coef(m, rest, v));
        }
    }
}

/// The coefficient that the monomial with the variables `v` has in the
/// product of two polynomials: the exact sum of its coefficients in the
/// products of the terms of the first with the second.
pub open spec fn product_coef(a: Seq<Term<Rat>>, b: Seq<Term<Rat>>, v: Seq<(usize, u64)>) -> Frac
    decreases a.len(),
{
    if a.len() == 0 {
        zero()
    } else {
        exact_sum(scaled_coef(a[0], b, v), product_coef(a.skip(1), b, v), 1)
    }
}

/// Whether adding the product of two polynomials to `acc` is computed
/// without overflow, and no exponent goes beyond 64 bits.
pub open spec fn rows_exact(acc: Seq<Term<Rat>>, a: Seq<Term<Rat>>, b: Seq<Term<Rat>>) -> bool
    decreases a.len(),
{
    if a.len() == 0 {
        true
    } else {
        &&& product_bounded(a[0].vars, b)
        &&& row_exact(acc, a[0], b)
        &&& rows_exact(mul_row(acc, a[0], b), a.skip(1), b)
    }
}

/// The coefficients of a product are in lowest terms.
pub proof fn lemma_product_coef_lowest(a: Seq<Term<Rat>>, b: Seq<Term<Rat>>, v: Seq<(usize, u64)>)
    requires
        canonical(a),
        canonical(b),
    ensures
        product_coef(a, b, v).lowest(),
    decreases a.len(),
{
    lemma_gcd_units(0, 1);
    if a.len() > 0 {
        lemma_canonical_rest(a);
        assert(a[0].wf());
        lemma_scaled_coef(a[0], b, v);
        lemma_product_coef_lowest(a.skip(1), b, v);
        crate::exact::lemma_positive(
            scaled_coef(a[0], b, v).den,
            product_coef(a.skip(1), b, v).den,
        );
        lemma_lowest_of(raw_sum(scaled_coef(a[0], b, v), product_coef(a.skip(1), b, v), 1));
    }
}

/// The coefficients of a polynomial to which the product of two
/// polynomials is added are the exact sums of its coefficients and those
/// of the product, while nothing overflows.
pub proof fn lemma_rows_coef(acc: Seq<Term<Rat>>, a: Seq<Term<Rat>>, b: Seq<Term<Rat>>, v: Seq<
    (usize, u64),
>)
    requires
        canonical(acc),
        canonical(a),
        canonical(b),
        rows_exact(acc, a, b),
    ensures
        coef(mul_rows(acc, a, b), v) == exact_sum(coef(acc, v), product_coef(a, b, v), 1),
    decreases a.len(),
{
    lemma_coef_lowest(acc, v);
    lemma_exact_sum_zero(coef(acc, v), 1);
    if a.len() > 0 {
        lemma_canonical_rest(a);
        assert(a[0].wf() && !a[0].val.is_zero_spec());
        let rest = a.skip(1);
        let next = mul_row(acc, a[0], b);
        lemma_row_canonical(acc, a[0], b);
        lemma_row_coef(acc, a[0], b, v);
        lemma_rows_coef(next, rest, b, v);
        lemma_scaled_coef(a[0], b, v);
        lemma_product_coef_lowest(rest, b, v);
        lemma_exact_sum_associates(coef(acc, v), scaled_coef(a[0], b, v), product_coef(rest, b, v));
    }
}


/// The coefficients of the product of a polynomial and a term whose
/// coefficient is the exact sum of the coefficients of two terms of the
/// same variables are the exact sums of the coefficients of the products
/// with those two.
pub proof fn lemma_scaled_coef_additive(
    x: Term<Rat>,
    y: Term<Rat>,
    z: Term<Rat>,
    d: Seq<Term<Rat>>,
    v: Seq<(usize, u64)>,
)
    requires
        x.wf(),
        y.wf(),
        canonical(d),
        x.vars == y.vars,
        x.vars == z.vars,
        z.val@ == exact_sum(x.val@, y.val@, 1),
    ensures
        scaled_coef(z, d, v) == exact_sum(scaled_coef(x, d, v), scaled_coef(y, d, v), 1),
    decreases d.len(),
{
    lemma_gcd_units(0, 1);
    lemma_exact_sum_zero(zero(), 1);
    if d.len() > 0 {
        lemma_canonical_rest(d);
        assert(d[0].wf());
        lemma_scaled_coef_additive(x, y, z, d.skip(1), v);
        let c = d[0].val@;
        lemma_exact_product_distributes(c, x.val@, y.val@);
        lemma_exact_product_commutes(c, exact_sum(x.val@, y.val@, 1));
        lemma_exact_product_commutes(c, x.val@);
        lemma_exact_product_commutes(c, y.val@);
    }
}

/// Adding a term to a polynomial adds the coefficients of the product of
/// the term to the coefficients of its product, while the addition is
/// computed without overflow.
pub proof fn lemma_product_coef_insert(
    a: Seq<Term<Rat>>,
    q: Term<Rat>,
    d: Seq<Term<Rat>>,
    v: Seq<(usize, u64)>,
)
    requires
        canonical(a),
        q.wf(),
        q.val.num != 0,
        canonical(d),
        merge_exact(a, seq![q], false),
    ensures
        product_coef(poly_merge(a, seq![q], false), d, v) == exact_sum(
            product_coef(a, d, v),
            scaled_coef(q, d, v),
            1,
        ),
    decreases a.len(),
{
    let nothing = Seq::<Term<Rat>>::empty();
    let b = seq![q];
    let sq = scaled_coef(q, d, v);
    lemma_scaled_coef(q, d, v);
    lemma_product_coef_lowest(a, d, v);
    lemma_exact_sum_zero(sq, 1);
    lemma_exact_sum_zero(product_coef(a, d, v), 1);
    lemma_gcd_units(0, 1);
    assert(b.skip(1) =~= nothing);
    assert(b[0] == q);
    if a.len() == 0 {
        assert(poly_merge(a, nothing, false) =~= nothing);
        assert(poly_merge(a, b, false) =~= seq![q]);
        assert(seq![q].skip(1) =~= nothing);
    } else {
        lemma_canonical_rest(a);
        let a1 = a.skip(1);
        assert(a[0].wf() && !a[0].val.is_zero_spec());
        let sa = scaled_coef(a[0], d, v);
        let pa = product_coef(a1, d, v);
        lemma_scaled_coef(a[0], d, v);
        lemma_product_coef_lowest(a1, d, v);
        if place(a[0].vars, q.vars) == Place::After {
            assert(poly_merge(a, nothing, false) == a);
            let m = seq![q] + a;
            assert(poly_merge(a, b, false) =~= m);
            assert(m.skip(1) =~= a);
            assert(m[0] == q);
            lemma_exact_sum_commutes(sq, product_coef(a, d, v));
        } else if place(a[0].vars, q.vars) == Place::Before {
            lemma_product_coef_insert(a1, q, d, v);
            let rest = poly_merge(a1, b, false);
            let m = seq![a[0]] + rest;
            assert(poly_merge(a, b, false) == m);
            assert(m.skip(1) =~= rest);
            assert(m[0] == a[0]);
            lemma_exact_sum_associates(sa, pa, sq);
        } else {
            lemma_place_level(a[0].vars, q.vars);
            let x = a[0].vars;
            let val = a[0].val.sum(q.val);
            Rat::lemma_closed(a[0].val, q.val, 0);
            assert(combine_fits(a[0].val@, q.val@, 1));
            lemma_combine_is_exact(a[0].val@, q.val@, 1);
            crate::rational::lemma_combine_exact(a[0].val@, q.val@, 1);
            lemma_zero_view(val);
            assert(poly_merge(a1, nothing, false) == a1);
            let t = Term { val, vars: x };
            lemma_scaled_coef_additive(a[0], q, t, d, v);
            lemma_exact_swap(sa, sq, pa);
            if val.is_zero_spec() {
                assert(poly_merge(a, b, false) == a1);
                // a term with the coefficient zero has products with the coefficient zero
                lemma_scaled_coef_zero(t, d, v);
                lemma_exact_sum_zero(pa, 1);
            } else {
                let m = seq![t] + a1;
                assert(poly_merge(a, b, false) == m);
                assert(m.skip(1) =~= a1);
                assert(m[0] == t);
            }
        }
    }
}

/// The products of a term with the coefficient zero have the coefficient zero.
pub proof fn lemma_scaled_coef_zero(z: Term<Rat>, d: Seq<Term<Rat>>, v: Seq<(usize, u64)>)
    requires
        canonical(d),
        z.val@ == zero(),
    ensures
        scaled_coef(z, d, v) == zero(),
    decreases d.len(),
{
    if d.len() > 0 {
        lemma_canonical_rest(d);
        assert(d[0].wf());
        lemma_scaled_coef_zero(z, d.skip(1), v);
        lemma_exact_lowest(z.val@, d[0].val@, 1);
    }
}

/// The exact sum of the coefficients that the monomial with the variables
/// `v` has in the products of the quotients and their divisors.
pub open spec fn total_coef(
    quotients: Seq<Seq<Term<Rat>>>,
    divisors: Seq<Seq<Term<Rat>>>,
    v: Seq<(usize, u64)>,
) -> Frac
    decreases quotients.len(),
{
    if quotients.len() == 0 {
        zero()
    } else {
        exact_sum(
            product_coef(quotients[0], divisors[0], v),
            total_coef(quotients.skip(1), divisors.skip(1), v),
            1,
        )
    }
}

/// The total of the coefficients is in lowest terms.
pub proof fn lemma_total_lowest(
    quotients: Seq<Seq<Term<Rat>>>,
    divisors: Seq<Seq<Term<Rat>>>,
    v: Seq<(usize, u64)>,
)
    requires
        quotients.len() == divisors.len(),
        all_canonical(quotients),
        all_canonical(divisors),
    ensures
        total_coef(quotients, divisors, v).lowest(),
    decreases quotients.len(),
{
    lemma_gcd_units(0, 1);
    if quotients.len() > 0 {
        lemma_every_rest(quotients);
        lemma_every_rest(divisors);
        lemma_total_lowest(quotients.skip(1), divisors.skip(1), v);
        lemma_product_coef_lowest(quotients[0], divisors[0], v);
        lemma_exact_lowest(
            product_coef(quotients[0], divisors[0], v),
            total_coef(quotients.skip(1), divisors.skip(1), v),
            1,
        );
    }
}

/// The polynomials after the first of a list of canonical polynomials are
/// canonical, and so is the first.
pub proof fn lemma_every_rest(v: Seq<Seq<Term<Rat>>>)
    requires
        all_canonical(v),
        v.len() > 0,
    ensures
        all_canonical(v.skip(1)),
        canonical(v[0]),
{
    let rest = v.skip(1);
    assert forall|i: int| 0 <= i < rest.len() implies canonical(#[trigger] rest[i]) by {
        assert(rest[i] == v[i + 1]);
    }
}

/// Replacing a quotient by one whose product has the coefficients of the
/// old product plus `delta` adds `delta` to the total.
pub proof fn lemma_total_update(
    quotients: Seq<Seq<Term<Rat>>>,
    divisors: Seq<Seq<Term<Rat>>>,
    k: int,
    quotient: Seq<Term<Rat>>,
    delta: Frac,
    v: Seq<(usize, u64)>,
)
    requires
        quotients.len() == divisors.len(),
        all_canonical(quotients),
        all_canonical(divisors),
        0 <= k < quotients.len(),
        delta.den > 0,
        product_coef(quotient, divisors[k], v) == exact_sum(
            product_coef(quotients[k], divisors[k], v),
            delta,
            1,
        ),
    ensures
        total_coef(quotients.update(k, quotient), divisors, v) == exact_sum(
            total_coef(quotients, divisors, v),
            delta,
            1,
        ),
    decreases quotients.len(),
{
    lemma_every_rest(quotients);
    lemma_every_rest(divisors);
    let q_rest = quotients.skip(1);
    let d_rest = divisors.skip(1);
    let first = product_coef(quotients[0], divisors[0], v);
    let rest = total_coef(q_rest, d_rest, v);
    lemma_product_coef_lowest(quotients[0], divisors[0], v);
    lemma_total_lowest(q_rest, d_rest, v);
    let updated = quotients.update(k, quotient);
    if k == 0 {
        assert(updated.skip(1) =~= q_rest);
        assert(updated[0] == quotient);
        lemma_exact_swap(first, delta, rest);
    } else {
        assert(updated.skip(1) =~= q_rest.update(k - 1, quotient));
        assert(updated[0] == quotients[0]);
        assert(q_rest[k - 1] == quotients[k]);
        assert(d_rest[k - 1] == divisors[k]);
        lemma_total_update(q_rest, d_rest, k - 1, quotient, delta, v);
        lemma_exact_sum_associates(first, rest, delta);
    }
}

/// The total of the coefficients of products with zero quotients is zero.
pub proof fn lemma_total_zeros(n: nat, divisors: Seq<Seq<Term<Rat>>>, v: Seq<(usize, u64)>)
    requires
        divisors.len() == n,
    ensures
        total_coef(Seq::new(n, |i: int| Seq::<Term<Rat>>::empty()), divisors, v) == zero(),
    decreases n,
{
    let zeros = Seq::new(n, |i: int| Seq::<Term<Rat>>::empty());
    lemma_gcd_units(0, 1);
    lemma_exact_sum_zero(zero(), 1);
    if n > 0 {
        assert(zeros.skip(1) =~= Seq::new((n - 1) as nat, |i: int| Seq::<Term<Rat>>::empty()));
        lemma_total_zeros((n - 1) as nat, divisors.skip(1), v);
        assert(zeros[0] =~= Seq::<Term<Rat>>::empty());
    }
}


/// The quotient of two valid terms is a valid term.
pub proof fn lemma_over_wf<T: Field>(t: Term<T>, h: Term<T>)
    requires
        t.wf(),
        h.wf(),
        t.over(h).is_some(),
    ensures
        t.over(h).unwrap().wf(),
{
    T::lemma_identities();
    T::lemma_closed(t.val, h.val, 0);
    crate::poly::mono::lemma_quotient_then_union(t.vars, h.vars, -1);
}

/// A divisor that is found is one of the divisors from `from` on, is not
/// zero, and its leading term divides with the quotient that is found.
pub proof fn lemma_found_divisor<T: Field>(t: Term<T>, divisors: Seq<Seq<Term<T>>>, from: int)
    requires
        0 <= from,
        find_divisor(t, divisors, from).is_some(),
    ensures
        from <= find_divisor(t, divisors, from).unwrap().0 < divisors.len(),
        divisors[find_divisor(t, divisors, from).unwrap().0].len() > 0,
        t.over(divisors[find_divisor(t, divisors, from).unwrap().0][0]) == Some(
            find_divisor(t, divisors, from).unwrap().1,
        ),
    decreases divisors.len() - from,
{
    if from < divisors.len() {
        if !(divisors[from].len() > 0 && t.over(divisors[from][0]).is_some()) {
            lemma_found_divisor(t, divisors, from + 1);
        }
    }
}

/// Whether a reduction step is computed without overflow: the quotient of
/// the leading terms and its product with the leading term of the divisor,
/// the product of the quotient with the rest of the divisor, and the
/// difference of the rest of the dividend and that product; and no
/// exponent goes beyond 64 bits.
pub open spec fn step_exact(dividend: Seq<Term<Rat>>, d: Seq<Term<Rat>>, q: Term<Rat>) -> bool {
    &&& multiply_fits(dividend[0].val@, d[0].val@.inverse())
    &&& multiply_fits(multiply(dividend[0].val@, d[0].val@.inverse()), d[0].val@)
    &&& product_bounded(q.vars, d)
    &&& row_exact(Seq::empty(), q, d.skip(1))
    &&& merge_exact(dividend.skip(1), scale(q, d.skip(1)), true)
}

/// Whether a division is computed without overflow.
pub open spec fn division_exact(
    dividend: Seq<Term<Rat>>,
    divisors: Seq<Seq<Term<Rat>>>,
    quotients: Seq<Seq<Term<Rat>>>,
    rem: Seq<Term<Rat>>,
    fuel: nat,
) -> bool
    decreases fuel,
{
    if dividend.len() == 0 {
        true
    } else if fuel == 0 {
        merge_exact(rem, dividend, false)
    } else {
        match find_divisor(dividend[0], divisors, 0) {
            Some((k, q)) => {
                &&& step_exact(dividend, divisors[k], q)
                &&& merge_exact(quotients[k], single(q), false)
                &&& division_exact(
                    poly_merge(dividend.skip(1), scale(q, divisors[k].skip(1)), true),
                    divisors,
                    quotients.update(k, poly_merge(quotients[k], single(q), false)),
                    rem,
                    (fuel - 1) as nat,
                )
            },
            None => {
                &&& merge_exact(rem, seq![dividend[0]], false)
                &&& division_exact(
                    dividend.skip(1),
                    divisors,
                    quotients,
                    poly_merge(rem, seq![dividend[0]], false),
                    (fuel - 1) as nat,
                )
            },
        }
    }
}

/// The coefficient of the leading term of a canonical polynomial, and of
/// every other monomial.
pub proof fn lemma_coef_leading(p: Seq<Term<Rat>>, v: Seq<(usize, u64)>)
    requires
        canonical(p),
        p.len() > 0,
    ensures
        coef(p, v) == if v == p[0].vars {
            p[0].val@
        } else {
            coef(p.skip(1), v)
        },
        coef(p.skip(1), p[0].vars) == zero(),
        coef(seq![p[0]], v) == if v == p[0].vars {
            p[0].val@
        } else {
            zero()
        },
        canonical(seq![p[0]]),
{
    lemma_canonical_rest(p);
    lemma_coef_before(p.skip(1), p[0].vars);
    let one = seq![p[0]];
    assert(one.skip(1) =~= Seq::<Term<Rat>>::empty());
    assert(one[0] == p[0]);
    assert(coef(one.skip(1), v) == zero());
    assert(p[0].wf() && !p[0].val.is_zero_spec());
    assert(single(p[0]) == one);
    crate::poly::lemma_single_canonical(p[0]);
}

/// Division keeps what the dividend, the products of the quotients and
/// the divisors, and the remainder add up to, while it is computed without
/// overflow: in the end the products and the remainder add up to what the
/// three added up to at the start.
pub proof fn lemma_steps_coef(
    dividend: Seq<Term<Rat>>,
    divisors: Seq<Seq<Term<Rat>>>,
    quotients: Seq<Seq<Term<Rat>>>,
    rem: Seq<Term<Rat>>,
    fuel: nat,
    v: Seq<(usize, u64)>,
)
    requires
        canonical(dividend),
        all_canonical(divisors),
        all_canonical(quotients),
        quotients.len() == divisors.len(),
        canonical(rem),
        division_exact(dividend, divisors, quotients, rem, fuel),
    ensures
        all_canonical(divide_steps(dividend, divisors, quotients, rem, fuel).0),
        divide_steps(dividend, divisors, quotients, rem, fuel).0.len() == divisors.len(),
        canonical(divide_steps(dividend, divisors, quotients, rem, fuel).1),
        exact_sum(
            total_coef(divide_steps(dividend, divisors, quotients, rem, fuel).0, divisors, v),
            coef(divide_steps(dividend, divisors, quotients, rem, fuel).1, v),
            1,
        ) == exact_sum(
            exact_sum(coef(dividend, v), total_coef(quotients, divisors, v), 1),
            coef(rem, v),
            1,
        ),
    decreases fuel,
{
    let nothing = Seq::<Term<Rat>>::empty();
    let big_t = total_coef(quotients, divisors, v);
    let big_r = coef(rem, v);
    lemma_total_lowest(quotients, divisors, v);
    lemma_coef_lowest(rem, v);
    lemma_coef_lowest(dividend, v);
    lemma_exact_sum_zero(big_t, 1);
    lemma_exact_sum_zero(big_r, 1);
    lemma_gcd_units(0, 1);
    if dividend.len() == 0 {
    } else if fuel == 0 {
        lemma_merge_canonical(rem, dividend, false);
        lemma_merge_coef(rem, dividend, false, v);
        lemma_exact_rotate(big_t, big_r, coef(dividend, v));
    } else {
        let t = dividend[0];
        let rest = dividend.skip(1);
        lemma_canonical_rest(dividend);
        lemma_coef_leading(dividend, v);
        lemma_coef_lowest(rest, v);
        assert(t.wf() && !t.val.is_zero_spec());
        match find_divisor(t, divisors, 0) {
            Some((k, q)) => {
                lemma_found_divisor(t, divisors, 0);
                let d = divisors[k];
                let h = d[0];
                let tail = d.skip(1);
                assert(canonical(d));
                assert(canonical(quotients[k]));
                lemma_canonical_rest(d);
                assert(h.wf() && !h.val.is_zero_spec());
                lemma_over_wf(t, h);
                crate::poly::mono::lemma_rational_div_then_mul(t, h);
                crate::rational::lemma_div_then_mul(t.val, h.val);
                crate::rational::lemma_multiply_exact(t.val@, h.val@.inverse());
                assert(q.val@ == multiply(t.val@, h.val@.inverse()));
                assert(q.val.num != 0);
                assert(q.times(h) == t);
                lemma_times_exact(q, h);
                // the product of the quotient and the rest of the divisor
                let product = scale(q, tail);
                lemma_products_differ(q, d);
                lemma_row_canonical(nothing, q, tail);
                lemma_row_coef(nothing, q, tail, v);
                lemma_scaled_coef(q, tail, v);
                let s = scaled_coef(q, tail, v);
                lemma_exact_sum_zero(s, 1);
                assert(coef(product, v) == s);
                // the next dividend
                let next = poly_merge(rest, product, true);
                lemma_merge_canonical(rest, product, true);
                lemma_merge_coef(rest, product, true, v);
                // the next quotient
                let one = single(q);
                assert(one == seq![q]);
                crate::poly::lemma_single_canonical(q);
                let quotient = poly_merge(quotients[k], one, false);
                lemma_merge_canonical(quotients[k], one, false);
                lemma_product_coef_insert(quotients[k], q, d, v);
                lemma_scaled_coef(q, d, v);
                let delta = scaled_coef(q, d, v);
                lemma_total_update(quotients, divisors, k, quotient, delta, v);
                let updated = quotients.update(k, quotient);
                assert(all_canonical(updated)) by {
                    assert forall|i: int| 0 <= i < updated.len() implies canonical(
                        #[trigger] updated[i],
                    ) by {
                        if i != k {
                            assert(updated[i] == quotients[i]);
                        }
                    }
                }
                lemma_steps_coef(next, divisors, updated, rem, (fuel - 1) as nat, v);
                let a = coef(rest, v);
                if v == t.vars {
                    assert(delta == t.val@);
                    assert(s == zero());
                    assert(a == zero());
                    lemma_exact_sum_zero(zero(), -1);
                    lemma_exact_lowest(big_t, t.val@, 1);
                    lemma_exact_sum_zero(exact_sum(big_t, t.val@, 1), 1);
                    lemma_exact_sum_commutes(big_t, t.val@);
                } else {
                    assert(delta == s);
                    lemma_exact_cancel(a, s, big_t);
                }
            },
            None => {
                let one = seq![t];
                let next = poly_merge(rem, one, false);
                lemma_merge_canonical(rem, one, false);
                lemma_merge_coef(rem, one, false, v);
                lemma_steps_coef(rest, divisors, quotients, next, (fuel - 1) as nat, v);
                if v == t.vars {
                    lemma_exact_rotate(big_t, big_r, t.val@);
                }
            },
        }
    }
}

/// The sum of `acc` and the products of the quotients and their divisors,
/// added one by one.
pub open spec fn sum_products(
    acc: Seq<Term<Rat>>,
    quotients: Seq<Seq<Term<Rat>>>,
    divisors: Seq<Seq<Term<Rat>>>,
) -> Seq<Term<Rat>>
    decreases quotients.len(),
{
    if quotients.len() == 0 {
        acc
    } else {
        sum_products(
            poly_merge(acc, poly_product(quotients[0], divisors[0]), false),
            quotients.skip(1),
            divisors.skip(1),
        )
    }
}

/// The products of the quotients and their divisors, added one by one from
/// zero on, plus the remainder.
pub open spec fn recombined(
    quotients: Seq<Seq<Term<Rat>>>,
    divisors: Seq<Seq<Term<Rat>>>,
    rem: Seq<Term<Rat>>,
) -> Seq<Term<Rat>> {
    poly_merge(sum_products(Seq::empty(), quotients, divisors), rem, false)
}

/// Whether the sum of `acc` and the products of the quotients and their
/// divisors is computed without overflow.
pub open spec fn sum_exact(
    acc: Seq<Term<Rat>>,
    quotients: Seq<Seq<Term<Rat>>>,
    divisors: Seq<Seq<Term<Rat>>>,
) -> bool
    decreases quotients.len(),
{
    quotients.len() == 0 || {
        let product = poly_product(quotients[0], divisors[0]);
        &&& rows_exact(Seq::empty(), quotients[0], divisors[0])
        &&& merge_exact(acc, product, false)
        &&& sum_exact(poly_merge(acc, product, false), quotients.skip(1), divisors.skip(1))
    }
}

/// The coefficients of the sum of `acc` and the products are the exact
/// sums of the coefficients of `acc` and the total of those of the
/// products, while nothing overflows.
pub proof fn lemma_sum_products_coef(
    acc: Seq<Term<Rat>>,
    quotients: Seq<Seq<Term<Rat>>>,
    divisors: Seq<Seq<Term<Rat>>>,
    v: Seq<(usize, u64)>,
)
    requires
        canonical(acc),
        all_canonical(quotients),
        all_canonical(divisors),
        quotients.len() == divisors.len(),
        sum_exact(acc, quotients, divisors),
    ensures
        canonical(sum_products(acc, quotients, divisors)),
        coef(sum_products(acc, quotients, divisors), v) == exact_sum(
            coef(acc, v),
            total_coef(quotients, divisors, v),
            1,
        ),
    decreases quotients.len(),
{
    let nothing = Seq::<Term<Rat>>::empty();
    lemma_coef_lowest(acc, v);
    lemma_exact_sum_zero(coef(acc, v), 1);
    lemma_gcd_units(0, 1);
    if quotients.len() > 0 {
        lemma_every_rest(quotients);
        lemma_every_rest(divisors);
        let product = poly_product(quotients[0], divisors[0]);
        lemma_rows_canonical(nothing, quotients[0], divisors[0]);
        lemma_rows_coef(nothing, quotients[0], divisors[0], v);
        let first = product_coef(quotients[0], divisors[0], v);
        lemma_product_coef_lowest(quotients[0], divisors[0], v);
        lemma_exact_sum_zero(first, 1);
        assert(coef(product, v) == first);
        let next = poly_merge(acc, product, false);
        lemma_merge_canonical(acc, product, false);
        lemma_merge_coef(acc, product, false, v);
        lemma_sum_products_coef(next, quotients.skip(1), divisors.skip(1), v);
        lemma_total_lowest(quotients.skip(1), divisors.skip(1), v);
        lemma_exact_sum_associates(
            coef(acc, v),
            first,
            total_coef(quotients.skip(1), divisors.skip(1), v),
        );
    }
}

/// Whether the division of `p` by the divisors, and the sum of the
/// products of the quotients and the divisors and of the remainder, are
/// computed without overflow.
pub open spec fn round_trip_exact(p: Seq<Term<Rat>>, divisors: Seq<Seq<Term<Rat>>>) -> bool {
    divisors.len() == 0 || {
        let zeros = Seq::new(divisors.len(), |i: int| Seq::<Term<Rat>>::empty());
        let r = divide_steps(p, divisors, zeros, Seq::empty(), STEP_LIMIT as nat);
        &&& division_exact(p, divisors, zeros, Seq::empty(), STEP_LIMIT as nat)
        &&& sum_exact(Seq::empty(), r.0, divisors)
        &&& merge_exact(sum_products(Seq::empty(), r.0, divisors), r.1, false)
    }
}

/// Division gives back the dividend: the products of the quotients and
/// their divisors, added one by one, plus the remainder are the dividend,
/// while the division and that sum are computed without overflow.
pub proof fn lemma_division_round_trip(p: Seq<Term<Rat>>, divisors: Seq<Seq<Term<Rat>>>)
    requires
        canonical(p),
        all_canonical(divisors),
        round_trip_exact(p, divisors),
    ensures
        recombined(poly_divide(p, divisors).0, divisors, poly_divide(p, divisors).1) == p,
{
    let nothing = Seq::<Term<Rat>>::empty();
    lemma_gcd_units(0, 1);
    if divisors.len() == 0 {
        assert forall|i: int| 0 <= i < p.len() implies !(#[trigger] p[i]).val.is_zero_spec() by {
        }
        crate::poly::linearity::lemma_merge_left_empty(p);
        assert(sum_products(nothing, Seq::<Seq<Term<Rat>>>::empty(), divisors) == nothing);
    } else {
        let zeros = Seq::new(divisors.len(), |i: int| Seq::<Term<Rat>>::empty());
        let r = divide_steps(p, divisors, zeros, nothing, STEP_LIMIT as nat);
        let sum = sum_products(nothing, r.0, divisors);
        let back = poly_merge(sum, r.1, false);
        assert(canonical(nothing));
        assert(all_canonical(zeros));
        assert forall|v: Seq<(usize, u64)>| #[trigger] coef(back, v) == coef(p, v) by {
            lemma_steps_coef(p, divisors, zeros, nothing, STEP_LIMIT as nat, v);
            lemma_total_zeros(divisors.len(), divisors, v);
            lemma_sum_products_coef(nothing, r.0, divisors, v);
            lemma_merge_coef(sum, r.1, false, v);
            lemma_coef_lowest(p, v);
            lemma_exact_sum_zero(coef(p, v), 1);
            lemma_total_lowest(r.0, divisors, v);
            lemma_exact_sum_zero(total_coef(r.0, divisors, v), 1);
        }
        lemma_steps_coef(p, divisors, zeros, nothing, STEP_LIMIT as nat, Seq::empty());
        lemma_sum_products_coef(nothing, r.0, divisors, Seq::empty());
        lemma_merge_canonical(sum, r.1, false);
        lemma_coef_extensional(back, p);
    }
}

} // verus!
