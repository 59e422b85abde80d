//! The derivative of a sum is the sum of the derivatives, and the
//! derivative of a multiple by a constant is that multiple of the derivative.

use vstd::prelude::*;
use crate::field::Field;
use crate::poly::arithmetic::{lemma_merge_appends, mul_row, poly_merge, poly_product, scale};
use crate::poly::calculus::{derive_terms, lowered, poly_derivative, term_derivative};
use crate::poly::mono::{
    exponent_of,
    lemma_degree_front,
    lemma_exponent_absent,
    lemma_place_flip,
    lemma_place_transitive,
    lemma_rest_above,
    lex_place,
    place,
    sorted_vars,
    total_degree,
    Place,
    Term,
};
use crate::field::Zero;
use crate::poly::arithmetic::attach;

use crate::poly::{canonical, single};
use crate::rational::{combine, combine_fits, multiply, multiply_fits, Frac, Rat};

verus! {

/// Lowering the exponent of a variable that occurs takes one off the total
/// degree, and gives a valid list of variables.
pub proof fn lemma_lowered_degree(v: Seq<(usize, u64)>, var: usize)
    requires
        sorted_vars(v),
        exponent_of(v, var) >= 1,
    ensures
        total_degree(lowered(v, var, 1)) + 1 == total_degree(v),
        total_degree(v) >= exponent_of(v, var),
    decreases v.len(),
{
    lemma_rest_above(v);
    lemma_degree_front(v);
    let rest = v.skip(1);
    if v[0].0 == var {
        if v[0].1 > 1 {
            let h = (var, (v[0].1 - 1) as u64);
            let l = seq![h] + rest;
            lemma_degree_front(l);
            assert(l.skip(1) =~= rest);
        }
    } else {
        lemma_lowered_degree(rest, var);
        let l = seq![v[0]] + lowered(rest, var, 1);
        lemma_degree_front(l);
        assert(l.skip(1) =~= lowered(rest, var, 1));
    }
}

/// The first entry of a list in which the exponent of a variable is
/// lowered: the list is empty only if the variable was all of it, and else
/// it starts with the first entry that is left.
pub proof fn lemma_lowered_head(v: Seq<(usize, u64)>, var: usize)
    requires
        sorted_vars(v),
        exponent_of(v, var) >= 1,
    ensures
        v.len() > 0,
        v[0].0 <= var,
        v[0].0 < var ==> lowered(v, var, 1).len() > 0 && lowered(v, var, 1)[0] == v[0] && lowered(
            v,
            var,
            1,
        ).skip(1) == lowered(v.skip(1), var, 1) && exponent_of(v.skip(1), var) >= 1,
        v[0].0 == var && v[0].1 > 1 ==> lowered(v, var, 1).len() > 0 && lowered(v, var, 1)[0] == (
            var,
            (v[0].1 - 1) as u64,
        ) && lowered(v, var, 1).skip(1) == v.skip(1),
        v[0].0 == var && v[0].1 == 1 ==> lowered(v, var, 1) == v.skip(1),
        v[0].0 == var && v[0].1 == 1 && v.len() > 1 ==> lowered(v, var, 1)[0].0 > var,
{
    lemma_rest_above(v);
    let rest = v.skip(1);
    if v[0].0 > var {
        crate::poly::mono::lemma_above_weaken(rest, v[0].0 as int, var as int);
        lemma_exponent_absent(rest, var);
    } else if v[0].0 == var {
        if v[0].1 > 1 {
            assert((seq![(var, (v[0].1 - 1) as u64)] + rest).skip(1) =~= rest);
        } else if v.len() > 1 {
            assert(rest[0] == v[1]);
        }
    } else {
        assert((seq![v[0]] + lowered(rest, var, 1)).skip(1) =~= lowered(rest, var, 1));
    }
}

/// Lowering the exponent of a variable that occurs in two lists of the
/// same total degree keeps their lexicographic order, where the first list
/// stands before the second.
proof fn lemma_lowered_lex_before(u: Seq<(usize, u64)>, w: Seq<(usize, u64)>, var: usize)
    requires
        sorted_vars(u),
        sorted_vars(w),
        exponent_of(u, var) >= 1,
        exponent_of(w, var) >= 1,
        total_degree(u) == total_degree(w),
        lex_place(u, w) == Place::Before,
    ensures
        lex_place(lowered(u, var, 1), lowered(w, var, 1)) == Place::Before,
    decreases u.len(),
{
    lemma_lowered_head(u, var);
    lemma_lowered_head(w, var);
    lemma_lowered_degree(u, var);
    lemma_lowered_degree(w, var);
    lemma_rest_above(u);
    lemma_rest_above(w);
    lemma_degree_front(u);
    lemma_degree_front(w);
    let lu = lowered(u, var, 1);
    let lw = lowered(w, var, 1);
    if u[0] == w[0] {
        if u[0].0 != var {
            lemma_lowered_lex_before(u.skip(1), w.skip(1), var);
        }
    } else if u[0].0 < w[0].0 {
        if lw.len() == 0 {
            // then `w` is the variable alone, and `u` has a higher degree
            assert(w.len() == 1);
            assert(w.skip(1) =~= Seq::<(usize, u64)>::empty());
            lemma_lowered_degree(u.skip(1), var);
        }
    } else {
        // the same variable with a higher power in `u`
        if u[0].0 == var && w[0].1 == 1 && lw.len() == 0 {
            assert(w.skip(1) =~= Seq::<(usize, u64)>::empty());
        }
    }
}

/// Lowering the exponent of a variable that occurs in two lists keeps
/// their place in the monomial order.
pub proof fn lemma_lowered_place(u: Seq<(usize, u64)>, w: Seq<(usize, u64)>, var: usize)
    requires
        sorted_vars(u),
        sorted_vars(w),
        exponent_of(u, var) >= 1,
        exponent_of(w, var) >= 1,
        place(u, w) == Place::Before,
    ensures
        place(lowered(u, var, 1), lowered(w, var, 1)) == Place::Before,
{
    lemma_lowered_degree(u, var);
    lemma_lowered_degree(w, var);
    if total_degree(u) == total_degree(w) {
        lemma_lowered_lex_before(u, w, var);
    }
}


/// The derivatives of the terms of a polynomial that do not vanish, in the
/// order of the terms.
pub open spec fn derived_terms<T: Field>(p: Seq<Term<T>>, var: usize) -> Seq<Term<T>>
    decreases p.len(),
{
    if p.len() == 0 {
        Seq::empty()
    } else {
        single(term_derivative(p[0], var)) + derived_terms(p.skip(1), var)
    }
}

/// What holds of the lowered variables of every term in which the variable
/// occurs holds of the variables of every derived term.
pub proof fn lemma_derived_keeps<T: Field>(
    p: Seq<Term<T>>,
    var: usize,
    holds: spec_fn(Seq<(usize, u64)>) -> bool,
)
    requires
        forall|j: int|
            0 <= j < p.len() && exponent_of((#[trigger] p[j]).vars, var) >= 1 ==> holds(
                lowered(p[j].vars, var, 1),
            ),
    ensures
        forall|m: int|
            0 <= m < derived_terms(p, var).len() ==> holds(
                (#[trigger] derived_terms(p, var)[m]).vars,
            ) && !derived_terms(p, var)[m].val.is_zero_spec(),
    decreases p.len(),
{
    T::lemma_identities();
    if p.len() > 0 {
        let rest = p.skip(1);
        assert forall|j: int|
            0 <= j < rest.len() && exponent_of((#[trigger] rest[j]).vars, var) >= 1 implies holds(
            lowered(rest[j].vars, var, 1),
        ) by {
            assert(rest[j] == p[j + 1]);
        }
        lemma_derived_keeps(rest, var, holds);
        let d = derived_terms(p, var);
        let head = single(term_derivative(p[0], var));
        let tail = derived_terms(rest, var);
        assert(p[0] == p[0]);
        assert forall|m: int| 0 <= m < d.len() implies holds((#[trigger] d[m]).vars)
            && !d[m].val.is_zero_spec() by {
            if m < head.len() {
                assert(d[m] == head[m]);
            } else {
                assert(d[m] == tail[m - head.len()]);
            }
        }
    }
}

/// The derivative of a canonical polynomial is the list of the derivatives
/// of its terms that do not vanish: adding them one by one puts each at the
/// end, since the monomial order is kept.
pub proof fn lemma_derive_fold<T: Field>(acc: Seq<Term<T>>, p: Seq<Term<T>>, var: usize)
    requires
        canonical(p),
        forall|k: int, j: int|
            0 <= k < acc.len() && 0 <= j < p.len() && exponent_of((#[trigger] p[j]).vars, var) >= 1
                ==> place((#[trigger] acc[k]).vars, lowered(p[j].vars, var, 1)) == Place::Before,
    ensures
        derive_terms(acc, p, var) == acc + derived_terms(p, var),
    decreases p.len(),
{
    T::lemma_identities();
    if p.len() == 0 {
        assert(acc + derived_terms(p, var) =~= acc);
    } else {
        crate::poly::lemma_canonical_rest(p);
        let rest = p.skip(1);
        let t = term_derivative(p[0], var);
        assert(p[0].wf());
        if t.val.is_zero_spec() {
            assert forall|k: int, j: int|
                0 <= k < acc.len() && 0 <= j < rest.len() && exponent_of(
                    (#[trigger] rest[j]).vars,
                    var,
                ) >= 1 implies place((#[trigger] acc[k]).vars, lowered(rest[j].vars, var, 1))
                == Place::Before by {
                assert(rest[j] == p[j + 1]);
            }
            lemma_derive_fold(acc, rest, var);
            assert(acc + derived_terms(p, var) =~= acc + derived_terms(rest, var));
        } else {
            assert(exponent_of(p[0].vars, var) >= 1);
            assert(t.vars == lowered(p[0].vars, var, 1));
            assert forall|k: int| 0 <= k < acc.len() implies place((#[trigger] acc[k]).vars, t.vars)
                == Place::Before by {
                assert(place(acc[k].vars, lowered(p[0].vars, var, 1)) == Place::Before);
            }
            lemma_merge_appends(acc, t);
            let next = acc.push(t);
            assert forall|k: int, j: int|
                0 <= k < next.len() && 0 <= j < rest.len() && exponent_of(
                    (#[trigger] rest[j]).vars,
                    var,
                ) >= 1 implies place((#[trigger] next[k]).vars, lowered(rest[j].vars, var, 1))
                == Place::Before by {
                assert(rest[j] == p[j + 1]);
                if k < acc.len() {
                    assert(next[k] == acc[k]);
                } else {
                    assert(p[j + 1].wf());
                    assert(place(p[0].vars, p[j + 1].vars) == Place::Before);
                    lemma_lowered_place(p[0].vars, p[j + 1].vars, var);
                }
            }
            lemma_derive_fold(next, rest, var);
            assert(acc + derived_terms(p, var) =~= next + derived_terms(rest, var));
        }
    }
}

/// The derivative of a canonical polynomial is the list of the derivatives
/// of its terms that do not vanish.
pub proof fn lemma_derivative_terms<T: Field>(p: Seq<Term<T>>, var: usize)
    requires
        canonical(p),
    ensures
        poly_derivative(p, var) == derived_terms(p, var),
{
    lemma_derive_fold(Seq::empty(), p, var);
    assert(Seq::<Term<T>>::empty() + derived_terms(p, var) =~= derived_terms(p, var));
}

/// Whether the derivative of the sum of two terms is the sum of their
/// derivatives.
pub open spec fn term_additive<T: Field>(a: Term<T>, b: Term<T>, var: usize) -> bool {
    derived_terms(poly_merge(seq![a], seq![b], false), var) == poly_merge(
        derived_terms(seq![a], var),
        derived_terms(seq![b], var),
        false,
    )
}

/// Whether the derivative of the sum is the sum of the derivatives for
/// every two terms with the same variables, one of each polynomial.
pub open spec fn additive_at<T: Field>(a: Seq<Term<T>>, b: Seq<Term<T>>, var: usize) -> bool {
    forall|i: int, j: int|
        0 <= i < a.len() && 0 <= j < b.len() && (#[trigger] a[i]).vars == (#[trigger] b[j]).vars
            ==> term_additive(a[i], b[j], var)
}

/// Adding to nothing a polynomial without zero terms gives the polynomial.
pub proof fn lemma_merge_left_empty<T: Field>(b: Seq<Term<T>>)
    requires
        forall|i: int| 0 <= i < b.len() ==> !(#[trigger] b[i]).val.is_zero_spec(),
    ensures
        poly_merge(Seq::<Term<T>>::empty(), b, false) == b,
    decreases b.len(),
{
    if b.len() > 0 {
        let rest = b.skip(1);
        assert forall|i: int| 0 <= i < rest.len() implies !(#[trigger] rest[i]).val.is_zero_spec() by {
            assert(rest[i] == b[i + 1]);
        }
        lemma_merge_left_empty(rest);
        assert(b[0] == b[0]);
        assert(seq![b[0]] + rest =~= b);
    }
}

/// The derived terms of one term.
pub proof fn lemma_derived_single<T: Field>(t: Term<T>, var: usize)
    ensures
        derived_terms(seq![t], var) == single(term_derivative(t, var)),
{
    let p = seq![t];
    let rest = p.skip(1);
    assert(rest =~= Seq::<Term<T>>::empty());
    assert(p[0] == t);
    assert(derived_terms(rest, var) =~= Seq::<Term<T>>::empty());
    assert(single(term_derivative(t, var)) + Seq::<Term<T>>::empty() =~= single(
        term_derivative(t, var),
    ));
}

/// The derived terms of a term in front of a polynomial.
pub proof fn lemma_derived_cons<T: Field>(t: Term<T>, rest: Seq<Term<T>>, var: usize)
    ensures
        derived_terms(seq![t] + rest, var) == single(term_derivative(t, var)) + derived_terms(
            rest,
            var,
        ),
{
    assert((seq![t] + rest).skip(1) =~= rest);
}

/// The sum of two polynomials that each start with at most one term of the
/// variables `x`, which stand before all that follows, starts with the sum
/// of those terms.
pub proof fn lemma_merge_heads<T: Field>(
    ha: Seq<Term<T>>,
    ra: Seq<Term<T>>,
    hb: Seq<Term<T>>,
    rb: Seq<Term<T>>,
    x: Seq<(usize, u64)>,
)
    requires
        ha.len() <= 1,
        hb.len() <= 1,
        ha.len() == 1 ==> ha[0].vars == x && !ha[0].val.is_zero_spec(),
        hb.len() == 1 ==> hb[0].vars == x && !hb[0].val.is_zero_spec(),
        forall|k: int| 0 <= k < ra.len() ==> place(x, (#[trigger] ra[k]).vars) == Place::Before,
        forall|k: int| 0 <= k < rb.len() ==> place(x, (#[trigger] rb[k]).vars) == Place::Before,
        forall|k: int| 0 <= k < rb.len() ==> !(#[trigger] rb[k]).val.is_zero_spec(),
    ensures
        poly_merge(ha + ra, hb + rb, false) == poly_merge(ha, hb, false) + poly_merge(ra, rb, false),
{
    let a = ha + ra;
    let b = hb + rb;
    lemma_place_flip(x, x);
    assert(Seq::<Term<T>>::empty().skip(0) =~= Seq::<Term<T>>::empty());
    if hb.len() == 0 {
        assert(b =~= rb);
        if ha.len() == 0 {
            assert(a =~= ra);
            assert(ha =~= Seq::<Term<T>>::empty());
            assert(poly_merge(ha, hb, false) + poly_merge(ra, rb, false) =~= poly_merge(
                ra,
                rb,
                false,
            ));
        } else {
            assert(a[0] == ha[0]);
            assert(a.skip(1) =~= ra);
            assert(ha =~= seq![ha[0]]);
            if rb.len() > 0 {
                assert(place(x, rb[0].vars) == Place::Before);
            }
            assert(poly_merge(ha, hb, false) == ha);
            assert(poly_merge(a, b, false) =~= seq![ha[0]] + poly_merge(ra, rb, false));
        }
    } else {
        assert(b[0] == hb[0]);
        assert(b.skip(1) =~= rb);
        assert(hb =~= seq![hb[0]]);
        assert(hb.skip(1) =~= Seq::<Term<T>>::empty());
        if ha.len() == 0 {
            assert(a =~= ra);
            assert(ha =~= Seq::<Term<T>>::empty());
            if ra.len() > 0 {
                assert(place(x, ra[0].vars) == Place::Before);
                lemma_place_flip(x, ra[0].vars);
            }
            assert(poly_merge(ha, hb.skip(1), false) =~= Seq::<Term<T>>::empty());
            assert(poly_merge(ha, hb, false) =~= seq![hb[0]]);
            assert(poly_merge(a, b, false) =~= seq![hb[0]] + poly_merge(ra, rb, false));
        } else {
            assert(a[0] == ha[0]);
            assert(a.skip(1) =~= ra);
            assert(ha =~= seq![ha[0]]);
            assert(ha.skip(1) =~= Seq::<Term<T>>::empty());
            assert(poly_merge(ha.skip(1), hb.skip(1), false) =~= Seq::<Term<T>>::empty());
            let val = ha[0].val.sum(hb[0].val);
            if val.is_zero_spec() {
                assert(poly_merge(ha, hb, false) =~= Seq::<Term<T>>::empty());
                assert(poly_merge(a, b, false) =~= poly_merge(ra, rb, false));
            } else {
                assert(poly_merge(ha, hb, false) =~= seq![Term { val, vars: x }]);
                assert(poly_merge(a, b, false) =~= seq![Term { val, vars: x }] + poly_merge(
                    ra,
                    rb,
                    false,
                ));
            }
        }
    }
}


/// The lowered variables of a term stand before the variables of every
/// derived term of a canonical polynomial whose terms all stand after it.
pub proof fn lemma_derived_after<T: Field>(x: Seq<(usize, u64)>, p: Seq<Term<T>>, var: usize)
    requires
        canonical(p),
        sorted_vars(x),
        exponent_of(x, var) >= 1,
        forall|j: int| 0 <= j < p.len() ==> place(x, (#[trigger] p[j]).vars) == Place::Before,
    ensures
        forall|m: int|
            0 <= m < derived_terms(p, var).len() ==> place(
                lowered(x, var, 1),
                (#[trigger] derived_terms(p, var)[m]).vars,
            ) == Place::Before && !derived_terms(p, var)[m].val.is_zero_spec(),
{
    let lx = lowered(x, var, 1);
    let holds = |v: Seq<(usize, u64)>| place(lx, v) == Place::Before;
    assert forall|j: int|
        0 <= j < p.len() && exponent_of((#[trigger] p[j]).vars, var) >= 1 implies holds(
        lowered(p[j].vars, var, 1),
    ) by {
        assert(p[j].wf());
        assert(place(x, p[j].vars) == Place::Before);
        lemma_lowered_place(x, p[j].vars, var);
    }
    lemma_derived_keeps(p, var, holds);
    assert forall|m: int| 0 <= m < derived_terms(p, var).len() implies place(
        lx,
        (#[trigger] derived_terms(p, var)[m]).vars,
    ) == Place::Before && !derived_terms(p, var)[m].val.is_zero_spec() by {
        assert(holds(derived_terms(p, var)[m].vars));
    }
}

/// The derived terms of the sum of two canonical polynomials are the sum
/// of their derived terms, where this holds of every two terms with the
/// same variables.
pub proof fn lemma_derived_merge<T: Field>(a: Seq<Term<T>>, b: Seq<Term<T>>, var: usize)
    requires
        canonical(a),
        canonical(b),
        additive_at(a, b, var),
    ensures
        derived_terms(poly_merge(a, b, false), var) == poly_merge(
            derived_terms(a, var),
            derived_terms(b, var),
            false,
        ),
    decreases a.len() + b.len(),
{
    T::lemma_identities();
    let da = derived_terms(a, var);
    let db = derived_terms(b, var);
    let nothing = Seq::<Term<T>>::empty();
    if b.len() == 0 {
    } else if a.len() == 0 {
        assert forall|i: int| 0 <= i < b.len() implies !(#[trigger] b[i]).val.is_zero_spec() by {
        }
        lemma_merge_left_empty(b);
        lemma_derived_keeps(b, var, |v: Seq<(usize, u64)>| true);
        lemma_merge_left_empty(db);
        assert(a =~= nothing);
    } else {
        crate::poly::lemma_canonical_rest(a);
        crate::poly::lemma_canonical_rest(b);
        let a1 = a.skip(1);
        let b1 = b.skip(1);
        let da1 = derived_terms(a1, var);
        let db1 = derived_terms(b1, var);
        let ha = single(term_derivative(a[0], var));
        let hb = single(term_derivative(b[0], var));
        assert(a[0].wf() && b[0].wf());
        assert(!a[0].val.is_zero_spec() && !b[0].val.is_zero_spec());
        assert(a =~= seq![a[0]] + a1);
        assert(b =~= seq![b[0]] + b1);
        if place(a[0].vars, b[0].vars) == Place::After {
            assert(additive_at(a, b1, var)) by {
                assert forall|i: int, j: int|
                    0 <= i < a.len() && 0 <= j < b1.len() && (#[trigger] a[i]).vars == (
                    #[trigger] b1[j]).vars implies term_additive(a[i], b1[j], var) by {
                    assert(b1[j] == b[j + 1]);
                }
            }
            lemma_derived_merge(a, b1, var);
            let m = poly_merge(a, b1, false);
            assert(poly_merge(a, b, false) == seq![b[0]] + m);
            lemma_derived_cons(b[0], m, var);
            if hb.len() == 0 {
                assert(db =~= db1);
                assert(hb + derived_terms(m, var) =~= derived_terms(m, var));
            } else {
                let x = b[0].vars;
                assert(exponent_of(x, var) >= 1);
                lemma_place_flip(a[0].vars, b[0].vars);
                assert forall|j: int| 0 <= j < a.len() implies place(x, (#[trigger] a[j]).vars)
                    == Place::Before by {
                    if j > 0 {
                        lemma_place_transitive(x, a[0].vars, a[j].vars);
                    }
                }
                lemma_derived_after(x, a, var);
                assert forall|j: int| 0 <= j < b1.len() implies place(x, (#[trigger] b1[j]).vars)
                    == Place::Before by {
                    assert(b1[j] == b[j + 1]);
                }
                lemma_derived_after(x, b1, var);
                lemma_merge_heads(nothing, da, hb, db1, lowered(x, var, 1));
                lemma_merge_left_empty(hb);
                assert(nothing + da =~= da);
            }
        } else if place(a[0].vars, b[0].vars) == Place::Before {
            assert(additive_at(a1, b, var)) by {
                assert forall|i: int, j: int|
                    0 <= i < a1.len() && 0 <= j < b.len() && (#[trigger] a1[i]).vars == (
                    #[trigger] b[j]).vars implies term_additive(a1[i], b[j], var) by {
                    assert(a1[i] == a[i + 1]);
                }
            }
            lemma_derived_merge(a1, b, var);
            let m = poly_merge(a1, b, false);
            assert(poly_merge(a, b, false) == seq![a[0]] + m);
            lemma_derived_cons(a[0], m, var);
            if ha.len() == 0 {
                assert(da =~= da1);
                assert(ha + derived_terms(m, var) =~= derived_terms(m, var));
            } else {
                let x = a[0].vars;
                assert(exponent_of(x, var) >= 1);
                assert forall|j: int| 0 <= j < b.len() implies place(x, (#[trigger] b[j]).vars)
                    == Place::Before by {
                    if j > 0 {
                        lemma_place_transitive(x, b[0].vars, b[j].vars);
                    }
                }
                lemma_derived_after(x, b, var);
                assert forall|j: int| 0 <= j < a1.len() implies place(x, (#[trigger] a1[j]).vars)
                    == Place::Before by {
                    assert(a1[j] == a[j + 1]);
                }
                lemma_derived_after(x, a1, var);
                lemma_merge_heads(ha, da1, nothing, db, lowered(x, var, 1));
                assert(nothing + db =~= db);
            }
        } else {
            crate::poly::mono::lemma_place_level(a[0].vars, b[0].vars);
            let x = a[0].vars;
            assert(b[0].vars == x);
            assert(additive_at(a1, b1, var)) by {
                assert forall|i: int, j: int|
                    0 <= i < a1.len() && 0 <= j < b1.len() && (#[trigger] a1[i]).vars == (
                    #[trigger] b1[j]).vars implies term_additive(a1[i], b1[j], var) by {
                    assert(a1[i] == a[i + 1]);
                    assert(b1[j] == b[j + 1]);
                }
            }
            lemma_derived_merge(a1, b1, var);
            let m = poly_merge(a1, b1, false);
            let s = a[0].val.sum(b[0].val);
            // the two leading terms alone
            assert(term_additive(a[0], b[0], var));
            lemma_derived_single(a[0], var);
            lemma_derived_single(b[0], var);
            let pair = poly_merge(seq![a[0]], seq![b[0]], false);
            assert(seq![a[0]].skip(1) =~= nothing);
            assert(seq![b[0]].skip(1) =~= nothing);
            assert(poly_merge(nothing, nothing, false) =~= nothing);
            assert(pair =~= crate::poly::arithmetic::attach(s, x, nothing));
            let lead = derived_terms(pair, var);
            assert(lead == poly_merge(ha, hb, false));
            // the sum starts with the sum of the leading terms
            assert(poly_merge(a, b, false) == crate::poly::arithmetic::attach(s, x, m));
            if s.is_zero_spec() {
                assert(pair =~= nothing);
                assert(lead + derived_terms(m, var) =~= derived_terms(m, var));
            } else {
                let t = Term { val: s, vars: x };
                assert(pair =~= seq![t]);
                lemma_derived_single(t, var);
                lemma_derived_cons(t, m, var);
            }
            assert(derived_terms(poly_merge(a, b, false), var) == lead + derived_terms(m, var));
            if exponent_of(x, var) == 0 {
                assert(ha =~= nothing && hb =~= nothing);
                assert(da =~= da1 && db =~= db1);
                assert(poly_merge(nothing, nothing, false) + poly_merge(da1, db1, false)
                    =~= poly_merge(da1, db1, false));
            } else {
                assert forall|j: int| 0 <= j < a1.len() implies place(x, (#[trigger] a1[j]).vars)
                    == Place::Before by {
                    assert(a1[j] == a[j + 1]);
                }
                lemma_derived_after(x, a1, var);
                assert forall|j: int| 0 <= j < b1.len() implies place(x, (#[trigger] b1[j]).vars)
                    == Place::Before by {
                    assert(b1[j] == b[j + 1]);
                }
                lemma_derived_after(x, b1, var);
                lemma_merge_heads(ha, da1, hb, db1, lowered(x, var, 1));
            }
        }
    }
}


/// The products of a term with the terms of a polynomial that do not
/// vanish, in the order of the terms.
pub open spec fn scaled_terms<T: Field>(c: Term<T>, p: Seq<Term<T>>) -> Seq<Term<T>>
    decreases p.len(),
{
    if p.len() == 0 {
        Seq::empty()
    } else {
        single(c.times(p[0])) + scaled_terms(c, p.skip(1))
    }
}

/// Whether each term stands before all that follow.
pub open spec fn ordered<T: Field>(p: Seq<Term<T>>) -> bool {
    forall|i: int, j: int|
        0 <= i < j < p.len() ==> place((#[trigger] p[i]).vars, (#[trigger] p[j]).vars)
            == Place::Before
}

/// What holds of the variables of every term of a polynomial holds of the
/// variables of every term of its multiple by a constant.
pub proof fn lemma_scaled_keeps<T: Field>(
    c: Term<T>,
    p: Seq<Term<T>>,
    holds: spec_fn(Seq<(usize, u64)>) -> bool,
)
    requires
        c.vars.len() == 0,
        forall|j: int| 0 <= j < p.len() ==> holds((#[trigger] p[j]).vars),
    ensures
        forall|m: int|
            0 <= m < scaled_terms(c, p).len() ==> holds((#[trigger] scaled_terms(c, p)[m]).vars)
                && !scaled_terms(c, p)[m].val.is_zero_spec(),
    decreases p.len(),
{
    T::lemma_identities();
    if p.len() > 0 {
        let rest = p.skip(1);
        assert forall|j: int| 0 <= j < rest.len() implies holds((#[trigger] rest[j]).vars) by {
            assert(rest[j] == p[j + 1]);
        }
        lemma_scaled_keeps(c, rest, holds);
        let d = scaled_terms(c, p);
        let head = single(c.times(p[0]));
        let tail = scaled_terms(c, rest);
        assert(holds(p[0].vars));
        assert forall|m: int| 0 <= m < d.len() implies holds((#[trigger] d[m]).vars)
            && !d[m].val.is_zero_spec() by {
            if m < head.len() {
                assert(d[m] == head[m]);
            } else {
                assert(d[m] == tail[m - head.len()]);
            }
        }
    }
}

/// The multiple of a polynomial by a constant is the list of the products
/// of its terms that do not vanish: adding them one by one puts each at the
/// end.
pub proof fn lemma_scale_fold<T: Field>(acc: Seq<Term<T>>, c: Term<T>, p: Seq<Term<T>>)
    requires
        ordered(p),
        c.vars.len() == 0,
        forall|k: int, j: int|
            0 <= k < acc.len() && 0 <= j < p.len() ==> place(
                (#[trigger] acc[k]).vars,
                (#[trigger] p[j]).vars,
            ) == Place::Before,
    ensures
        mul_row(acc, c, p) == acc + scaled_terms(c, p),
    decreases p.len(),
{
    T::lemma_identities();
    if p.len() == 0 {
        assert(acc + scaled_terms(c, p) =~= acc);
    } else {
        let rest = p.skip(1);
        let t = c.times(p[0]);
        assert(ordered(rest)) by {
            assert forall|i: int, j: int| 0 <= i < j < rest.len() implies place(
                (#[trigger] rest[i]).vars,
                (#[trigger] rest[j]).vars,
            ) == Place::Before by {
                assert(rest[i] == p[i + 1]);
                assert(rest[j] == p[j + 1]);
            }
        }
        if t.val.is_zero_spec() {
            assert forall|k: int, j: int| 0 <= k < acc.len() && 0 <= j < rest.len() implies place(
                (#[trigger] acc[k]).vars,
                (#[trigger] rest[j]).vars,
            ) == Place::Before by {
                assert(rest[j] == p[j + 1]);
            }
            lemma_scale_fold(acc, c, rest);
            assert(acc + scaled_terms(c, p) =~= acc + scaled_terms(c, rest));
        } else {
            assert(t.vars == p[0].vars);
            assert forall|k: int| 0 <= k < acc.len() implies place((#[trigger] acc[k]).vars, t.vars)
                == Place::Before by {
                assert(place(acc[k].vars, p[0].vars) == Place::Before);
            }
            lemma_merge_appends(acc, t);
            let next = acc.push(t);
            assert forall|k: int, j: int| 0 <= k < next.len() && 0 <= j < rest.len() implies place(
                (#[trigger] next[k]).vars,
                (#[trigger] rest[j]).vars,
            ) == Place::Before by {
                assert(rest[j] == p[j + 1]);
                if k < acc.len() {
                    assert(next[k] == acc[k]);
                } else {
                    assert(place(p[0].vars, p[j + 1].vars) == Place::Before);
                }
            }
            lemma_scale_fold(next, c, rest);
            assert(acc + scaled_terms(c, p) =~= next + scaled_terms(c, rest));
        }
    }
}

/// The multiple of a polynomial by a constant is the list of the products
/// of its terms that do not vanish.
pub proof fn lemma_scale_terms<T: Field>(c: Term<T>, p: Seq<Term<T>>)
    requires
        ordered(p),
        c.vars.len() == 0,
    ensures
        scale(c, p) == scaled_terms(c, p),
{
    lemma_scale_fold(Seq::empty(), c, p);
    assert(Seq::<Term<T>>::empty() + scaled_terms(c, p) =~= scaled_terms(c, p));
}

/// The multiple of a canonical polynomial by a valid constant is canonical.
pub proof fn lemma_scaled_canonical<T: Field>(c: Term<T>, p: Seq<Term<T>>)
    requires
        canonical(p),
        c.wf(),
        c.vars.len() == 0,
    ensures
        canonical(scaled_terms(c, p)),
    decreases p.len(),
{
    T::lemma_identities();
    if p.len() > 0 {
        crate::poly::lemma_canonical_rest(p);
        let rest = p.skip(1);
        lemma_scaled_canonical(c, rest);
        let t = c.times(p[0]);
        assert(p[0].wf());
        if t.val.is_zero_spec() {
            assert(scaled_terms(c, p) =~= scaled_terms(c, rest));
        } else {
            T::lemma_closed(c.val, p[0].val, 0);
            assert(t.vars == p[0].vars);
            let x = p[0].vars;
            let holds = |v: Seq<(usize, u64)>| place(x, v) == Place::Before;
            assert forall|j: int| 0 <= j < rest.len() implies holds((#[trigger] rest[j]).vars) by {
                assert(rest[j] == p[j + 1]);
            }
            lemma_scaled_keeps(c, rest, holds);
            let tail = scaled_terms(c, rest);
            assert forall|k: int| 0 <= k < tail.len() implies place(t.vars, (#[trigger] tail[k]).vars)
                == Place::Before by {
                assert(holds(tail[k].vars));
            }
            crate::poly::lemma_canonical_cons(t, tail);
        }
    }
}

/// The derived terms of a canonical polynomial stand each before all that
/// follow.
pub proof fn lemma_derived_ordered<T: Field>(p: Seq<Term<T>>, var: usize)
    requires
        canonical(p),
    ensures
        ordered(derived_terms(p, var)),
    decreases p.len(),
{
    T::lemma_identities();
    if p.len() > 0 {
        crate::poly::lemma_canonical_rest(p);
        let rest = p.skip(1);
        lemma_derived_ordered(rest, var);
        let t = term_derivative(p[0], var);
        let d = derived_terms(p, var);
        let tail = derived_terms(rest, var);
        assert(p[0].wf());
        if t.val.is_zero_spec() {
            assert(d =~= tail);
        } else {
            let x = p[0].vars;
            assert(exponent_of(x, var) >= 1);
            assert forall|j: int| 0 <= j < rest.len() implies place(x, (#[trigger] rest[j]).vars)
                == Place::Before by {
                assert(rest[j] == p[j + 1]);
            }
            lemma_derived_after(x, rest, var);
            assert(d =~= seq![t] + tail);
            assert forall|i: int, j: int| 0 <= i < j < d.len() implies place(
                (#[trigger] d[i]).vars,
                (#[trigger] d[j]).vars,
            ) == Place::Before by {
                assert(d[j] == tail[j - 1]);
                if i > 0 {
                    assert(d[i] == tail[i - 1]);
                }
            }
        }
    }
}

/// The derived terms of two polynomials, one after the other.
pub proof fn lemma_derived_concat<T: Field>(x: Seq<Term<T>>, y: Seq<Term<T>>, var: usize)
    ensures
        derived_terms(x + y, var) == derived_terms(x, var) + derived_terms(y, var),
    decreases x.len(),
{
    if x.len() == 0 {
        assert(x + y =~= y);
        assert(derived_terms(x, var) + derived_terms(y, var) =~= derived_terms(y, var));
    } else {
        lemma_derived_concat(x.skip(1), y, var);
        assert((x + y).skip(1) =~= x.skip(1) + y);
        assert((x + y)[0] == x[0]);
        assert(derived_terms(x + y, var) =~= derived_terms(x, var) + derived_terms(y, var));
    }
}

/// The multiples of two polynomials by a constant, one after the other.
pub proof fn lemma_scaled_concat<T: Field>(c: Term<T>, x: Seq<Term<T>>, y: Seq<Term<T>>)
    ensures
        scaled_terms(c, x + y) == scaled_terms(c, x) + scaled_terms(c, y),
    decreases x.len(),
{
    if x.len() == 0 {
        assert(x + y =~= y);
        assert(scaled_terms(c, x) + scaled_terms(c, y) =~= scaled_terms(c, y));
    } else {
        lemma_scaled_concat(c, x.skip(1), y);
        assert((x + y).skip(1) =~= x.skip(1) + y);
        assert((x + y)[0] == x[0]);
        assert(scaled_terms(c, x + y) =~= scaled_terms(c, x) + scaled_terms(c, y));
    }
}

/// Whether the derivative of the multiple of a term by a constant is that
/// multiple of its derivative.
pub open spec fn term_homogeneous<T: Field>(c: Term<T>, t: Term<T>, var: usize) -> bool {
    derived_terms(single(c.times(t)), var) == scaled_terms(c, single(term_derivative(t, var)))
}

/// Whether the derivative of the multiple by a constant is that multiple of
/// the derivative for every term of a polynomial.
pub open spec fn homogeneous_at<T: Field>(c: Term<T>, p: Seq<Term<T>>, var: usize) -> bool {
    forall|i: int| 0 <= i < p.len() ==> term_homogeneous(c, #[trigger] p[i], var)
}

/// The derived terms of the multiple of a polynomial by a constant are that
/// multiple of its derived terms, where this holds of every term.
pub proof fn lemma_derived_scaled<T: Field>(c: Term<T>, p: Seq<Term<T>>, var: usize)
    requires
        homogeneous_at(c, p, var),
    ensures
        derived_terms(scaled_terms(c, p), var) == scaled_terms(c, derived_terms(p, var)),
    decreases p.len(),
{
    if p.len() > 0 {
        let rest = p.skip(1);
        assert(homogeneous_at(c, rest, var)) by {
            assert forall|i: int| 0 <= i < rest.len() implies term_homogeneous(
                c,
                #[trigger] rest[i],
                var,
            ) by {
                assert(rest[i] == p[i + 1]);
            }
        }
        lemma_derived_scaled(c, rest, var);
        assert(term_homogeneous(c, p[0], var));
        lemma_derived_concat(single(c.times(p[0])), scaled_terms(c, rest), var);
        lemma_scaled_concat(c, single(term_derivative(p[0], var)), derived_terms(rest, var));
    }
}

/// The product of a constant polynomial and a polynomial is the multiple of
/// the polynomial by the constant.
pub proof fn lemma_constant_product<T: Field>(c: Term<T>, p: Seq<Term<T>>)
    requires
        ordered(p),
        c.vars.len() == 0,
    ensures
        poly_product(single(c), p) == scale(c, p),
{
    T::lemma_identities();
    lemma_scale_terms(c, p);
    let nothing = Seq::<Term<T>>::empty();
    if c.val.is_zero_spec() {
        lemma_scaled_by_zero(c, p);
        assert(single(c) =~= nothing);
        assert(crate::poly::arithmetic::mul_rows(nothing, nothing, p) == nothing);
    } else {
        let one = seq![c];
        assert(single(c) == one);
        assert(one.skip(1) =~= nothing);
        assert(one[0] == c);
        let row = mul_row(nothing, c, p);
        assert(crate::poly::arithmetic::mul_rows(row, one.skip(1), p) == row);
        assert(crate::poly::arithmetic::mul_rows(nothing, one, p) == row);
    }
}

/// The multiple of a polynomial by zero is zero.
pub proof fn lemma_scaled_by_zero<T: Field>(c: Term<T>, p: Seq<Term<T>>)
    requires
        c.val.is_zero_spec(),
    ensures
        scaled_terms(c, p) == Seq::<Term<T>>::empty(),
    decreases p.len(),
{
    T::lemma_identities();
    if p.len() > 0 {
        lemma_scaled_by_zero(c, p.skip(1));
        assert(scaled_terms(c, p) =~= Seq::<Term<T>>::empty());
    }
}

/// The derivative is linear: the derivative of `ca * p + cb * q` is
/// `ca * p' + cb * q'` for constants `ca` and `cb`, where the derivative of
/// a multiple of a term is the multiple of its derivative and the
/// derivative of the sum of two like terms is the sum of their derivatives.
pub proof fn lemma_derivative_linear<T: Field>(
    ca: Term<T>,
    cb: Term<T>,
    p: Seq<Term<T>>,
    q: Seq<Term<T>>,
    var: usize,
)
    requires
        canonical(p),
        canonical(q),
        ca.wf(),
        cb.wf(),
        ca.vars.len() == 0,
        cb.vars.len() == 0,
        homogeneous_at(ca, p, var),
        homogeneous_at(cb, q, var),
        additive_at(scale(ca, p), scale(cb, q), var),
    ensures
        poly_derivative(
            poly_merge(poly_product(single(ca), p), poly_product(single(cb), q), false),
            var,
        ) == poly_merge(
            poly_product(single(ca), poly_derivative(p, var)),
            poly_product(single(cb), poly_derivative(q, var)),
            false,
        ),
{
    let x = scale(ca, p);
    let y = scale(cb, q);
    lemma_scale_terms(ca, p);
    lemma_scale_terms(cb, q);
    lemma_scaled_canonical(ca, p);
    lemma_scaled_canonical(cb, q);
    lemma_constant_product(ca, p);
    lemma_constant_product(cb, q);
    crate::poly::arithmetic::lemma_merge_canonical(x, y, false);
    lemma_derivative_terms(poly_merge(x, y, false), var);
    lemma_derived_merge(x, y, var);
    lemma_derived_scaled(ca, p, var);
    lemma_derived_scaled(cb, q, var);
    lemma_derivative_terms(p, var);
    lemma_derivative_terms(q, var);
    lemma_derived_ordered(p, var);
    lemma_derived_ordered(q, var);
    lemma_scale_terms(ca, derived_terms(p, var));
    lemma_scale_terms(cb, derived_terms(q, var));
    lemma_constant_product(ca, derived_terms(p, var));
    lemma_constant_product(cb, derived_terms(q, var));
}


/// The sum of two terms with the same variables.
pub proof fn lemma_merge_like<T: Field>(a: Term<T>, b: Term<T>)
    requires
        a.vars == b.vars,
    ensures
        poly_merge(seq![a], seq![b], false) == attach(
            a.val.sum(b.val),
            a.vars,
            Seq::<Term<T>>::empty(),
        ),
{
    let nothing = Seq::<Term<T>>::empty();
    lemma_place_flip(a.vars, a.vars);
    assert(seq![a].skip(1) =~= nothing);
    assert(seq![b].skip(1) =~= nothing);
    assert(seq![a][0] == a && seq![b][0] == b);
    assert(poly_merge(nothing, nothing, false) =~= nothing);
}

/// The multiple of one term by a constant.
pub proof fn lemma_scaled_single<T: Field>(c: Term<T>, t: Term<T>)
    ensures
        scaled_terms(c, seq![t]) == single(c.times(t)),
        scaled_terms(c, Seq::<Term<T>>::empty()) == Seq::<Term<T>>::empty(),
{
    let p = seq![t];
    let rest = p.skip(1);
    assert(rest =~= Seq::<Term<T>>::empty());
    assert(p[0] == t);
    assert(scaled_terms(c, rest) =~= Seq::<Term<T>>::empty());
    assert(single(c.times(t)) + Seq::<Term<T>>::empty() =~= single(c.times(t)));
}

/// Whether the derivative of the sum of two like terms with rational
/// coefficients is computed without overflow: where the variable has an
/// exponent of two or more, the exponent fits in 64 bits, and the sum of the
/// coefficients, each of them times the exponent, the sum of those, and the
/// sum of the coefficients times the exponent all stay within 64 bits.
pub open spec fn sum_derivative_fits(a: Term<Rat>, b: Term<Rat>, var: usize) -> bool {
    let e = exponent_of(a.vars, var);
    let f = Frac { num: e as int, den: 1 };
    e >= 2 ==> {
        &&& e <= i64::MAX
        &&& combine_fits(a.val@, b.val@, 1)
        &&& multiply_fits(a.val@, f)
        &&& multiply_fits(b.val@, f)
        &&& combine_fits(multiply(a.val@, f), multiply(b.val@, f), 1)
        &&& combine(a.val@, b.val@, 1).num != 0 ==> multiply_fits(combine(a.val@, b.val@, 1), f)
    }
}

/// Whether the derivative of the multiple of a term by a constant is
/// computed without overflow: where the variable has an exponent of two or
/// more and the constant is not zero, the exponent fits in 64 bits, and the
/// product of the coefficients, the coefficient times the exponent, and
/// each of the two times the third all stay within 64 bits.
pub open spec fn scaled_derivative_fits(c: Term<Rat>, t: Term<Rat>, var: usize) -> bool {
    let e = exponent_of(t.vars, var);
    let f = Frac { num: e as int, den: 1 };
    e >= 2 && c.val.num != 0 ==> {
        &&& e <= i64::MAX
        &&& multiply_fits(c.val@, t.val@)
        &&& multiply_fits(t.val@, f)
        &&& multiply_fits(multiply(c.val@, t.val@), f)
        &&& multiply_fits(c.val@, multiply(t.val@, f))
    }
}

/// The derivative of the sum of two like terms with rational coefficients
/// is the sum of their derivatives, while it is computed without overflow.
pub proof fn lemma_rational_term_additive(a: Term<Rat>, b: Term<Rat>, var: usize)
    requires
        a.wf(),
        b.wf(),
        a.val.num != 0,
        b.val.num != 0,
        a.vars == b.vars,
        sum_derivative_fits(a, b, var),
    ensures
        term_additive(a, b, var),
{
    Rat::lemma_identities();
    let nothing = Seq::<Term<Rat>>::empty();
    let x = a.vars;
    let lx = lowered(x, var, 1);
    let e = exponent_of(x, var);
    let s = a.val.sum(b.val);
    lemma_merge_like(a, b);
    lemma_derived_single(a, var);
    lemma_derived_single(b, var);
    let pair = poly_merge(seq![a], seq![b], false);
    let da = term_derivative(a, var);
    let db = term_derivative(b, var);
    if s.num != 0 {
        assert(pair =~= seq![Term { val: s, vars: x }]);
        lemma_derived_single(Term { val: s, vars: x }, var);
    } else {
        assert(pair =~= nothing);
    }
    if e == 0 {
        assert(poly_merge(nothing, nothing, false) =~= nothing);
    } else {
        if e >= 2 {
            crate::rational::lemma_scale_distributes(a.val, b.val, e as i64);
            crate::rational::lemma_scaled_nonzero(a.val, e as i64);
            crate::rational::lemma_scaled_nonzero(b.val, e as i64);
        }
        assert(da.vars == lx && db.vars == lx);
        assert(!da.val.is_zero_spec() && !db.val.is_zero_spec());
        lemma_merge_like(da, db);
        assert(single(da) == seq![da] && single(db) == seq![db]);
    }
}

/// The derivative of the multiple of a term with a rational coefficient by
/// a rational constant is that multiple of its derivative, while it is
/// computed without overflow.
pub proof fn lemma_rational_term_homogeneous(c: Term<Rat>, t: Term<Rat>, var: usize)
    requires
        c.wf(),
        c.vars.len() == 0,
        t.wf(),
        t.val.num != 0,
        scaled_derivative_fits(c, t, var),
    ensures
        term_homogeneous(c, t, var),
{
    Rat::lemma_identities();
    let nothing = Seq::<Term<Rat>>::empty();
    let x = t.vars;
    let lx = lowered(x, var, 1);
    let e = exponent_of(x, var);
    let dt = term_derivative(t, var);
    let ct = c.times(t);
    lemma_scaled_single(c, dt);
    assert(derived_terms(nothing, var) =~= nothing);
    if c.val.num == 0 {
        lemma_scaled_by_zero(c, single(dt));
    } else {
        let cv = c.val.product(t.val);
        assert(crate::poly::mono::union_vars(c.vars, x, false) == x);
        if cv.num != 0 {
            assert(ct == Term { val: cv, vars: x });
            lemma_derived_single(ct, var);
        }
        if e >= 2 {
            crate::rational::lemma_scale_commutes(c.val, t.val, e as i64);
            assert(crate::poly::mono::union_vars(c.vars, lx, false) == lx);
        } else if e == 1 {
            assert(crate::poly::mono::union_vars(c.vars, lx, false) == lx);
        }
    }
}

/// The derivative is linear for polynomials with rational coefficients:
/// the derivative of `ca * p + cb * q` is `ca * p' + cb * q'` for rational
/// constants `ca` and `cb`, while the derivatives of the multiples of the
/// terms and of the sums of like terms are computed without overflow.
pub proof fn lemma_rational_derivative_linear(
    ca: Term<Rat>,
    cb: Term<Rat>,
    p: Seq<Term<Rat>>,
    q: Seq<Term<Rat>>,
    var: usize,
)
    requires
        canonical(p),
        canonical(q),
        ca.wf(),
        cb.wf(),
        ca.vars.len() == 0,
        cb.vars.len() == 0,
        forall|i: int| 0 <= i < p.len() ==> scaled_derivative_fits(ca, #[trigger] p[i], var),
        forall|j: int| 0 <= j < q.len() ==> scaled_derivative_fits(cb, #[trigger] q[j], var),
        forall|i: int, j: int|
            0 <= i < scale(ca, p).len() && 0 <= j < scale(cb, q).len() && (#[trigger] scale(
                ca,
                p,
            )[i]).vars == (#[trigger] scale(cb, q)[j]).vars ==> sum_derivative_fits(
                scale(ca, p)[i],
                scale(cb, q)[j],
                var,
            ),
    ensures
        poly_derivative(
            poly_merge(poly_product(single(ca), p), poly_product(single(cb), q), false),
            var,
        ) == poly_merge(
            poly_product(single(ca), poly_derivative(p, var)),
            poly_product(single(cb), poly_derivative(q, var)),
            false,
        ),
{
    let x = scale(ca, p);
    let y = scale(cb, q);
    lemma_scale_terms(ca, p);
    lemma_scale_terms(cb, q);
    lemma_scaled_canonical(ca, p);
    lemma_scaled_canonical(cb, q);
    assert forall|i: int| 0 <= i < p.len() implies term_homogeneous(ca, #[trigger] p[i], var) by {
        assert(p[i].wf() && !p[i].val.is_zero_spec());
        lemma_rational_term_homogeneous(ca, p[i], var);
    }
    assert forall|j: int| 0 <= j < q.len() implies term_homogeneous(cb, #[trigger] q[j], var) by {
        assert(q[j].wf() && !q[j].val.is_zero_spec());
        lemma_rational_term_homogeneous(cb, q[j], var);
    }
    assert forall|i: int, j: int|
        0 <= i < x.len() && 0 <= j < y.len() && (#[trigger] x[i]).vars == (
        #[trigger] y[j]).vars implies term_additive(x[i], y[j], var) by {
        assert(x[i].wf() && !x[i].val.is_zero_spec());
        assert(y[j].wf() && !y[j].val.is_zero_spec());
        lemma_rational_term_additive(x[i], y[j], var);
    }
    lemma_derivative_linear(ca, cb, p, q, var);
}

} // verus!
