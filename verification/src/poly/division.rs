//! Division of a polynomial by a list of divisors, with remainder, and the
//! S-polynomial of a pair.

use vstd::prelude::*;
use crate::field::Field;
use crate::poly::arithmetic::{add_scaled, merge, monomial, mul_row, poly_merge, scale, zero_poly};
use crate::poly::mono::{monomial_div, monomial_lcm, quotient_vars, union_vars, Mono, Term};
use crate::poly::linearity::scaled_terms;
use crate::poly::mono::{exponent_of, lemma_place_flip, lemma_union_place, place, Place};
use crate::poly::{canonical, leading, single, Poly};

verus! {

/// The largest number of reduction steps that one division takes.
pub const STEP_LIMIT: u64 = 0xffff_ffff_ffff_ffff;

/// What a list of polynomials denotes.
pub open spec fn polys_view<T: Field>(v: Seq<Poly<T>>) -> Seq<Seq<Term<T>>> {
    v.map_values(|p: Poly<T>| p@)
}

/// Whether every polynomial of a list is canonical.
pub open spec fn all_canonical<T: Field>(v: Seq<Seq<Term<T>>>) -> bool {
    forall|i: int| 0 <= i < v.len() ==> canonical(#[trigger] v[i])
}

/// The first divisor at or after position `from` that is not zero and whose
/// leading term divides `t`, with the quotient of `t` by that leading term.
pub open spec fn find_divisor<T: Field>(t: Term<T>, divisors: Seq<Seq<Term<T>>>, from: int) -> Option<
    (int, Term<T>),
>
    decreases divisors.len() - from,
{
    if from < 0 || from >= divisors.len() {
        None
    } else if divisors[from].len() > 0 && t.over(divisors[from][0]).is_some() {
        Some((from, t.over(divisors[from][0]).unwrap()))
    } else {
        find_divisor(t, divisors, from + 1)
    }
}

/// Division by reduction of the leading term, for at most `fuel` steps.
///
/// A step looks at the leading term `t` of the dividend. If the leading term
/// of some divisor divides it, the quotient `q` by the first such divisor
/// `d` is added to that divisor's quotient, and the dividend goes on without
/// `t` and less `q` times the rest of `d`: the leading terms cancel by
/// construction. If there is none, `t` moves to the remainder. When the
/// steps run out, what is left of the dividend goes to the remainder.
pub open spec fn divide_steps<T: Field>(
    dividend: Seq<Term<T>>,
    divisors: Seq<Seq<Term<T>>>,
    quotients: Seq<Seq<Term<T>>>,
    rem: Seq<Term<T>>,
    fuel: nat,
) -> (Seq<Seq<Term<T>>>, Seq<Term<T>>)
    decreases fuel,
{
    if dividend.len() == 0 {
        (quotients, rem)
    } else if fuel == 0 {
        (quotients, poly_merge(rem, dividend, false))
    } else {
        match find_divisor(dividend[0], divisors, 0) {
            Some((k, q)) => divide_steps(
                poly_merge(dividend.skip(1), scale(q, divisors[k].skip(1)), true),
                divisors,
                quotients.update(k, poly_merge(quotients[k], single(q), false)),
                rem,
                (fuel - 1) as nat,
            ),
            None => divide_steps(
                dividend.skip(1),
                divisors,
                quotients,
                poly_merge(rem, seq![dividend[0]], false),
                (fuel - 1) as nat,
            ),
        }
    }
}

/// The quotients, one for each divisor, and the remainder of dividing `p` by
/// the divisors in their order. Without divisors, `p` is the remainder.
pub open spec fn poly_divide<T: Field>(p: Seq<Term<T>>, divisors: Seq<Seq<Term<T>>>) -> (
    Seq<Seq<Term<T>>>,
    Seq<Term<T>>,
) {
    if divisors.len() == 0 {
        (Seq::empty(), p)
    } else {
        divide_steps(
            p,
            divisors,
            Seq::new(divisors.len(), |i: int| Seq::<Term<T>>::empty()),
            Seq::empty(),
            STEP_LIMIT as nat,
        )
    }
}

/// Whether the term `d` is not zero and divides a monomial with the
/// variables `vars`.
pub open spec fn divides_vars<T: Field>(d: Term<T>, vars: Seq<(usize, u64)>) -> bool {
    !d.val.is_zero_spec() && quotient_vars(vars, d.vars).is_some()
}

/// Whether the leading term of no divisor divides a monomial with the
/// variables `vars`.
pub open spec fn irreducible_vars<T: Field>(vars: Seq<(usize, u64)>, divisors: Seq<Seq<Term<T>>>) -> bool {
    forall|i: int|
        0 <= i < divisors.len() && (#[trigger] divisors[i]).len() > 0 ==> !divides_vars(
            divisors[i][0],
            vars,
        )
}

/// Whether no term of `rem` is divisible by the leading term of a divisor.
pub open spec fn irreducible<T: Field>(rem: Seq<Term<T>>, divisors: Seq<Seq<Term<T>>>) -> bool {
    forall|k: int| 0 <= k < rem.len() ==> irreducible_vars((#[trigger] rem[k]).vars, divisors)
}

/// Whether the division comes to an end within `fuel` steps.
pub open spec fn divide_finishes<T: Field>(
    dividend: Seq<Term<T>>,
    divisors: Seq<Seq<Term<T>>>,
    fuel: nat,
) -> bool
    decreases fuel,
{
    if dividend.len() == 0 {
        true
    } else if fuel == 0 {
        false
    } else {
        match find_divisor(dividend[0], divisors, 0) {
            Some((k, q)) => divide_finishes(
                poly_merge(dividend.skip(1), scale(q, divisors[k].skip(1)), true),
                divisors,
                (fuel - 1) as nat,
            ),
            None => divide_finishes(dividend.skip(1), divisors, (fuel - 1) as nat),
        }
    }
}

/// Whether the division of `p` by the divisors comes to an end within the
/// step limit.
pub open spec fn division_finishes<T: Field>(p: Seq<Term<T>>, divisors: Seq<Seq<Term<T>>>) -> bool {
    divisors.len() == 0 || divide_finishes(p, divisors, STEP_LIMIT as nat)
}

/// A term for which no divisor is found from `from` on is divisible by the
/// leading term of none of those divisors.
pub proof fn lemma_no_divisor<T: Field>(t: Term<T>, divisors: Seq<Seq<Term<T>>>, from: int)
    requires
        0 <= from,
        find_divisor(t, divisors, from).is_none(),
    ensures
        forall|i: int|
            from <= i < divisors.len() && (#[trigger] divisors[i]).len() > 0 ==> !divides_vars(
                divisors[i][0],
                t.vars,
            ),
    decreases divisors.len() - from,
{
    if from < divisors.len() {
        lemma_no_divisor(t, divisors, from + 1);
    }
}

/// While the division comes to an end, a remainder of which no term is
/// divisible by a leading term of the divisors stays one.
pub proof fn lemma_steps_irreducible<T: Field>(
    dividend: Seq<Term<T>>,
    divisors: Seq<Seq<Term<T>>>,
    quotients: Seq<Seq<Term<T>>>,
    rem: Seq<Term<T>>,
    fuel: nat,
)
    requires
        irreducible(rem, divisors),
        divide_finishes(dividend, divisors, fuel),
    ensures
        irreducible(divide_steps(dividend, divisors, quotients, rem, fuel).1, divisors),
    decreases fuel,
{
    if dividend.len() == 0 {
    } else {
        match find_divisor(dividend[0], divisors, 0) {
            Some((k, q)) => {
                lemma_steps_irreducible(
                    poly_merge(dividend.skip(1), scale(q, divisors[k].skip(1)), true),
                    divisors,
                    quotients.update(k, poly_merge(quotients[k], single(q), false)),
                    rem,
                    (fuel - 1) as nat,
                );
            },
            None => {
                let t = dividend[0];
                lemma_no_divisor(t, divisors, 0);
                let next = poly_merge(rem, seq![t], false);
                let holds = |vars: Seq<(usize, u64)>| irreducible_vars(vars, divisors);
                assert(irreducible_vars(t.vars, divisors));
                assert forall|i: int| 0 <= i < rem.len() implies holds((#[trigger] rem[i]).vars) by {
                    assert(irreducible_vars(rem[i].vars, divisors));
                }
                crate::poly::arithmetic::lemma_merge_keeps(rem, seq![t], false, holds);
                assert forall|j: int| 0 <= j < next.len() implies irreducible_vars(
                    (#[trigger] next[j]).vars,
                    divisors,
                ) by {
                    assert(holds(next[j].vars));
                }
                lemma_steps_irreducible(
                    dividend.skip(1),
                    divisors,
                    quotients,
                    next,
                    (fuel - 1) as nat,
                );
            },
        }
    }
}

/// While the division comes to an end within the step limit, no term of
/// the remainder is divisible by the leading term of a divisor.
pub proof fn lemma_remainder_irreducible<T: Field>(p: Seq<Term<T>>, divisors: Seq<Seq<Term<T>>>)
    requires
        division_finishes(p, divisors),
    ensures
        irreducible(poly_divide(p, divisors).1, divisors),
{
    if divisors.len() > 0 {
        lemma_steps_irreducible(
            p,
            divisors,
            Seq::new(divisors.len(), |i: int| Seq::<Term<T>>::empty()),
            Seq::empty(),
            STEP_LIMIT as nat,
        );
    }
}

/// The first divisor whose leading term divides `t`, and the quotient.
fn first_divisor<T: Field>(t: &Mono<T>, divisors: &Vec<Poly<T>>) -> (r: Option<(usize, Mono<T>)>)
    requires
        t.wf(),
        all_canonical(polys_view(divisors@)),
    ensures
        match r {
            Some((k, q)) => find_divisor(t@, polys_view(divisors@), 0) == Some((k as int, q@))
                && k < divisors.len() && q.wf() && divisors@[k as int]@.len() > 0,
            None => find_divisor(t@, polys_view(divisors@), 0).is_none(),
        },
{
    let mut k: usize = 0;
    while k < divisors.len()
        invariant
            k <= divisors.len(),
            t.wf(),
            all_canonical(polys_view(divisors@)),
            find_divisor(t@, polys_view(divisors@), 0) == find_divisor(
                t@,
                polys_view(divisors@),
                k as int,
            ),
        decreases divisors.len() - k,
    {
        let ghost dv = polys_view(divisors@);
        assert(dv[k as int] == divisors@[k as int]@);
        assert(canonical(dv[k as int]));
        if divisors[k].terms.len() > 0 {
            assert(dv[k as int][0] == divisors@[k as int].terms@[0]@);
            assert(dv[k as int][0].wf());
            match monomial_div(t, &divisors[k].terms[0]) {
                Some(q) => {
                    return Some((k, q));
                },
                None => {},
            }
        }
        k = k + 1;
    }
    None
}

impl<T: Field> Poly<T> {
    /// Divides by the divisors in their order: the quotients, one for each
    /// divisor, and the remainder.
    pub fn compound_divide(&self, divisors: &Vec<Poly<T>>) -> (r: (Vec<Poly<T>>, Poly<T>))
        requires
            self.wf(),
            all_canonical(polys_view(divisors@)),
        ensures
            (polys_view(r.0@), r.1@) == poly_divide(self@, polys_view(divisors@)),
            r.0.len() == divisors.len(),
            all_canonical(polys_view(r.0@)),
            r.1.wf(),
            division_finishes(self@, polys_view(divisors@)) ==> irreducible(
                r.1@,
                polys_view(divisors@),
            ),
    {
        let ghost dv = polys_view(divisors@);
        proof {
            if division_finishes(self@, dv) {
                lemma_remainder_irreducible(self@, dv);
            }
        }
        if divisors.len() == 0 {
            let q: Vec<Poly<T>> = Vec::new();
            assert(polys_view(q@) =~= Seq::<Seq<Term<T>>>::empty());
            return (q, self.duplicate());
        }
        let mut quotients: Vec<Poly<T>> = Vec::new();
        let mut n: usize = 0;
        while n < divisors.len()
            invariant
                n <= divisors.len(),
                quotients.len() == n,
                forall|i: int| 0 <= i < n ==> (#[trigger] quotients@[i])@ == Seq::<Term<T>>::empty(),
            decreases divisors.len() - n,
        {
            quotients.push(zero_poly());
            n = n + 1;
        }
        assert(polys_view(quotients@) =~= Seq::new(dv.len(), |i: int| Seq::<Term<T>>::empty()));
        let mut dividend = self.duplicate();
        let mut rem: Poly<T> = zero_poly();
        let mut fuel: u64 = STEP_LIMIT;
        while dividend.terms.len() > 0 && fuel > 0
            invariant
                dv == polys_view(divisors@),
                all_canonical(dv),
                quotients.len() == divisors.len(),
                all_canonical(polys_view(quotients@)),
                dividend.wf(),
                rem.wf(),
                divide_steps(dividend@, dv, polys_view(quotients@), rem@, fuel as nat)
                    == poly_divide(self@, dv),
            decreases fuel,
        {
            assert(dividend@[0] == dividend.terms@[0]@);
            assert(dividend@[0].wf());
            let t = dividend.terms[0].duplicate();
            let ghost qv = polys_view(quotients@);
            match first_divisor(&t, divisors) {
                Some((k, q)) => {
                    assert(dv[k as int] == divisors@[k as int]@);
                    assert(canonical(dv[k as int]));
                    assert(qv[k as int] == quotients@[k as int]@);
                    assert(canonical(qv[k as int]));
                    let tail = divisors[k].rest();
                    let product = add_scaled(zero_poly(), &q, &tail);
                    dividend = merge(&dividend.rest(), &product, true);
                    let quotient = merge(&quotients[k], &monomial(q), false);
                    quotients.set(k, quotient);
                    proof {
                        assert(polys_view(quotients@) =~= qv.update(k as int, quotient@));
                        assert forall|i: int| 0 <= i < quotients.len() implies canonical(
                            #[trigger] polys_view(quotients@)[i],
                        ) by {
                            if i != k {
                                assert(polys_view(quotients@)[i] == qv[i]);
                            }
                        }
                    }
                },
                None => {
                    let ghost lead = seq![t@];
                    let one = monomial(t);
                    assert(one@ == lead);
                    rem = merge(&rem, &one, false);
                    dividend = dividend.rest();
                },
            }
            fuel = fuel - 1;
        }
        if dividend.terms.len() > 0 {
            rem = merge(&rem, &dividend, false);
        }
        (quotients, rem)
    }

    /// The quotient by one divisor, where the division leaves no remainder.
    pub fn try_divide(&self, divisor: &Poly<T>) -> (r: Option<Poly<T>>)
        requires
            self.wf(),
            divisor.wf(),
        ensures
            match r {
                Some(q) => poly_divide(self@, seq![divisor@]).1.len() == 0 && q@ == poly_divide(
                    self@,
                    seq![divisor@],
                ).0[0] && q.wf(),
                None => poly_divide(self@, seq![divisor@]).1.len() != 0,
            },
    {
        let mut divisors: Vec<Poly<T>> = Vec::new();
        divisors.push(divisor.duplicate());
        assert(polys_view(divisors@) =~= seq![divisor@]);
        let (mut quots, rem) = self.compound_divide(&divisors);
        if rem.is_zero() {
            let ghost qv = polys_view(quots@);
            assert(qv[0] == quots@[0]@);
            assert(canonical(qv[0]));
            let q = quots.pop();
            match q {
                Some(q) => Some(q),
                None => None,
            }
        } else {
            None
        }
    }
}


/// The S-polynomial of two polynomials: with `l` the least common multiple
/// of their leading monomials, `(l / lt(p)) * p - (l / lt(q)) * q`. Zero when
/// either polynomial is zero.
pub open spec fn s_polynomial<T: Field>(p: Seq<Term<T>>, q: Seq<Term<T>>) -> Seq<Term<T>> {
    let l = leading(p).lcm(leading(q));
    match (l.over(leading(p)), l.over(leading(q))) {
        (Some(cp), Some(cq)) => poly_merge(scale(cp, p), scale(cq, q), true),
        _ => Seq::empty(),
    }
}

impl<T: Field> Poly<T> {
    /// The S-polynomial of `p` and `q`.
    pub fn s_poly(p: Poly<T>, q: Poly<T>) -> (r: Poly<T>)
        requires
            p.wf(),
            q.wf(),
        ensures
            r@ == s_polynomial(p@, q@),
            r.wf(),
            p@.len() > 0 && q@.len() > 0 ==> leading(p@).lcm(leading(q@)).over(leading(p@)).is_some()
                && leading(p@).lcm(leading(q@)).over(leading(q@)).is_some(),
    {
        proof {
            if p@.len() > 0 && q@.len() > 0 {
                assert(p@[0].wf() && !p@[0].val.is_zero_spec());
                assert(q@[0].wf() && !q@[0].val.is_zero_spec());
                crate::poly::mono::lemma_lcm_divisible(p@[0].vars, q@[0].vars);
            }
        }
        let lp = p.lt_mono();
        let lq = q.lt_mono();
        let l = monomial_lcm(lp.duplicate(), lq.duplicate());
        match (monomial_div(&l, &lp), monomial_div(&l, &lq)) {
            (Some(cp), Some(cq)) => {
                let left = add_scaled(zero_poly(), &cp, &p);
                let right = add_scaled(zero_poly(), &cq, &q);
                merge(&left, &right, true)
            },
            _ => zero_poly(),
        }
    }
}


/// Whether no exponent goes beyond 64 bits in the product of a monomial
/// with the variables `m` and any term of `p`.
pub open spec fn product_bounded<T: Field>(m: Seq<(usize, u64)>, p: Seq<Term<T>>) -> bool {
    forall|j: int, var: usize|
        0 <= j < p.len() ==> exponent_of(m, var) + #[trigger] exponent_of(p[j].vars, var)
            <= u64::MAX
}

/// The product of a term and a canonical polynomial is the list of the
/// products with its terms that do not vanish, while no exponent goes
/// beyond 64 bits: adding them one by one puts each at the end, since
/// multiplying by a monomial keeps the monomial order.
pub proof fn lemma_scale_general_fold<T: Field>(acc: Seq<Term<T>>, c: Term<T>, p: Seq<Term<T>>)
    requires
        canonical(p),
        c.wf(),
        product_bounded(c.vars, p),
        forall|k: int, j: int|
            0 <= k < acc.len() && 0 <= j < p.len() ==> place(
                (#[trigger] acc[k]).vars,
                union_vars(c.vars, (#[trigger] p[j]).vars, false),
            ) == Place::Before,
    ensures
        mul_row(acc, c, p) == acc + scaled_terms(c, p),
    decreases p.len(),
{
    T::lemma_identities();
    if p.len() == 0 {
        assert(acc + scaled_terms(c, p) =~= acc);
    } else {
        crate::poly::lemma_canonical_rest(p);
        let rest = p.skip(1);
        let t = c.times(p[0]);
        assert(p[0].wf());
        assert(product_bounded(c.vars, rest)) by {
            assert forall|j: int, var: usize| 0 <= j < rest.len() implies exponent_of(c.vars, var)
                + #[trigger] exponent_of(rest[j].vars, var) <= u64::MAX by {
                assert(rest[j] == p[j + 1]);
                assert(exponent_of(c.vars, var) + exponent_of(p[j + 1].vars, var) <= u64::MAX);
            }
        }
        if t.val.is_zero_spec() {
            assert forall|k: int, j: int| 0 <= k < acc.len() && 0 <= j < rest.len() implies place(
                (#[trigger] acc[k]).vars,
                union_vars(c.vars, (#[trigger] rest[j]).vars, false),
            ) == Place::Before by {
                assert(rest[j] == p[j + 1]);
            }
            lemma_scale_general_fold(acc, c, rest);
            assert(acc + scaled_terms(c, p) =~= acc + scaled_terms(c, rest));
        } else {
            assert(t.vars == union_vars(c.vars, p[0].vars, false));
            assert forall|k: int| 0 <= k < acc.len() implies place((#[trigger] acc[k]).vars, t.vars)
                == Place::Before by {
                assert(place(acc[k].vars, union_vars(c.vars, p[0].vars, false)) == Place::Before);
            }
            crate::poly::arithmetic::lemma_merge_appends(acc, t);
            let next = acc.push(t);
            assert forall|k: int, j: int| 0 <= k < next.len() && 0 <= j < rest.len() implies place(
                (#[trigger] next[k]).vars,
                union_vars(c.vars, (#[trigger] rest[j]).vars, false),
            ) == Place::Before by {
                assert(rest[j] == p[j + 1]);
                if k < acc.len() {
                    assert(next[k] == acc[k]);
                } else {
                    assert(p[j + 1].wf());
                    assert(place(p[0].vars, p[j + 1].vars) == Place::Before);
                    assert forall|var: usize| #[trigger] exponent_of(c.vars, var) + exponent_of(
                        p[0].vars,
                        var,
                    ) <= u64::MAX by {
                        assert(exponent_of(c.vars, var) + exponent_of(p[0].vars, var) <= u64::MAX);
                    }
                    assert forall|var: usize| #[trigger] exponent_of(c.vars, var) + exponent_of(
                        p[j + 1].vars,
                        var,
                    ) <= u64::MAX by {
                        assert(exponent_of(c.vars, var) + exponent_of(p[j + 1].vars, var)
                            <= u64::MAX);
                    }
                    lemma_union_place(c.vars, p[0].vars, p[j + 1].vars);
                }
            }
            lemma_scale_general_fold(next, c, rest);
            assert(acc + scaled_terms(c, p) =~= next + scaled_terms(c, rest));
        }
    }
}

/// The product of a term and a canonical polynomial is the list of the
/// products with its terms that do not vanish, while no exponent goes
/// beyond 64 bits.
pub proof fn lemma_scale_general<T: Field>(c: Term<T>, p: Seq<Term<T>>)
    requires
        canonical(p),
        c.wf(),
        product_bounded(c.vars, p),
    ensures
        scale(c, p) == scaled_terms(c, p),
{
    lemma_scale_general_fold(Seq::empty(), c, p);
    assert(Seq::<Term<T>>::empty() + scaled_terms(c, p) =~= scaled_terms(c, p));
}

/// A reduction step is the subtraction that it stands for: where `q` times
/// the leading term of the divisor `d` is the leading term of the dividend,
/// taking `q * d` off the dividend gives the dividend without its leading
/// term less `q` times the divisor without its leading term. This holds
/// while a coefficient less itself is zero and no exponent goes beyond 64
/// bits.
pub proof fn lemma_reduction_step<T: Field>(dividend: Seq<Term<T>>, d: Seq<Term<T>>, q: Term<T>)
    requires
        canonical(dividend),
        canonical(d),
        dividend.len() > 0,
        d.len() > 0,
        q.wf(),
        q.times(d[0]) == dividend[0],
        dividend[0].val.difference(dividend[0].val).is_zero_spec(),
        product_bounded(q.vars, d),
    ensures
        poly_merge(dividend, scale(q, d), true) == poly_merge(
            dividend.skip(1),
            scale(q, d.skip(1)),
            true,
        ),
{
    let t = dividend[0];
    let rest = d.skip(1);
    crate::poly::lemma_canonical_rest(d);
    assert(product_bounded(q.vars, rest)) by {
        assert forall|j: int, var: usize| 0 <= j < rest.len() implies exponent_of(q.vars, var)
            + #[trigger] exponent_of(rest[j].vars, var) <= u64::MAX by {
            assert(rest[j] == d[j + 1]);
            assert(exponent_of(q.vars, var) + exponent_of(d[j + 1].vars, var) <= u64::MAX);
        }
    }
    lemma_scale_general(q, d);
    lemma_scale_general(q, rest);
    let tail = scaled_terms(q, rest);
    assert(!t.val.is_zero_spec());
    assert(single(t) == seq![t]);
    let product = seq![t] + tail;
    assert(scale(q, d) == product);
    assert(product[0] == t);
    assert(product.skip(1) =~= tail);
    lemma_place_flip(t.vars, t.vars);
}

} // verus!
