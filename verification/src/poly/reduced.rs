//! The basis that Buchberger's algorithm gives is reduced: no term of a
//! member is divisible by the leading term of another member, while the
//! divisions come to an end and nothing overflows.

use vstd::prelude::*;
use crate::field::{Field, Zero};
use crate::poly::arithmetic::{lemma_merge_bounded, lemma_merge_canonical, poly_merge, scale};
use crate::poly::division::{
    all_canonical,
    divide_steps,
    divides_vars,
    division_finishes,
    find_divisor,
    irreducible,
    irreducible_vars,
    lemma_remainder_irreducible,
    lemma_scale_general,
    poly_divide,
    STEP_LIMIT,
};
use crate::poly::linearity::scaled_terms;
use crate::poly::mono::{
    lemma_place_transitive,
    lemma_union_place,
    place,
    quotient_vars,
    union_vars,
    Place,
    Term,
};
use crate::poly::normal::{lemma_norm_primitive, norm_exact, poly_norm};
use crate::poly::roundtrip::{
    division_exact,
    lemma_found_divisor,
    lemma_over_wf,
    lemma_products_differ,
    lemma_row_canonical,
    lemma_times_exact,
};
use crate::poly::system::{
    closure,
    dominated,
    dominates,
    groebner,
    groebner_sorted,
    initial_pairs,
    insert_position,
    interreduced,
    kept,
    sort_by_leading,
    PAIR_LIMIT,
};
use crate::poly::{before_all, canonical, leading, lemma_canonical_rest, single};
use crate::rational::{multiply_fits, Rat};

verus! {

/// What stands before the product of a term with every term of a
/// polynomial stands before every term of their product.
pub proof fn lemma_scaled_bounded(x: Seq<(usize, u64)>, q: Term<Rat>, p: Seq<Term<Rat>>)
    requires
        forall|j: int|
            0 <= j < p.len() ==> place(x, union_vars(q.vars, (#[trigger] p[j]).vars, false))
                == Place::Before,
    ensures
        before_all(x, scaled_terms(q, p)),
    decreases p.len(),
{
    Rat::lemma_identities();
    if p.len() > 0 {
        let rest = p.skip(1);
        assert forall|j: int| 0 <= j < rest.len() implies place(
            x,
            union_vars(q.vars, (#[trigger] rest[j]).vars, false),
        ) == Place::Before by {
            assert(rest[j] == p[j + 1]);
        }
        lemma_scaled_bounded(x, q, rest);
        let head = single(q.times(p[0]));
        let tail = scaled_terms(q, rest);
        let all = scaled_terms(q, p);
        assert(place(x, union_vars(q.vars, p[0].vars, false)) == Place::Before);
        assert forall|m: int| 0 <= m < all.len() implies place(x, (#[trigger] all[m]).vars)
            == Place::Before by {
            if m < head.len() {
                assert(all[m] == head[m]);
            } else {
                assert(all[m] == tail[m - head.len()]);
            }
        }
    }
}

/// Division keeps the leading term of a remainder that stands before every
/// term of the dividend, while nothing overflows.
pub proof fn lemma_remainder_leading(
    dividend: Seq<Term<Rat>>,
    divisors: Seq<Seq<Term<Rat>>>,
    quotients: Seq<Seq<Term<Rat>>>,
    rem: Seq<Term<Rat>>,
    fuel: nat,
)
    requires
        canonical(dividend),
        all_canonical(divisors),
        quotients.len() == divisors.len(),
        canonical(rem),
        rem.len() > 0,
        before_all(rem[0].vars, dividend),
        division_exact(dividend, divisors, quotients, rem, fuel),
    ensures
        divide_steps(dividend, divisors, quotients, rem, fuel).1.len() > 0,
        divide_steps(dividend, divisors, quotients, rem, fuel).1[0].vars == rem[0].vars,
    decreases fuel,
{
    let x = rem[0].vars;
    assert(rem[0].wf() && !rem[0].val.is_zero_spec());
    if dividend.len() == 0 {
    } else {
        let t = dividend[0];
        let rest = dividend.skip(1);
        lemma_canonical_rest(dividend);
        assert(place(x, t.vars) == Place::Before);
        assert(t.wf() && !t.val.is_zero_spec());
        assert(before_all(x, rest)) by {
            assert forall|k: int| 0 <= k < rest.len() implies place(x, (#[trigger] rest[k]).vars)
                == Place::Before by {
                assert(rest[k] == dividend[k + 1]);
            }
        }
        if fuel == 0 {
            let merged = poly_merge(rem, dividend, false);
            assert(merged[0] == rem[0]);
        } else {
            match find_divisor(t, divisors, 0) {
                Some((k, q)) => {
                    lemma_found_divisor(t, divisors, 0);
                    let d = divisors[k];
                    let h = d[0];
                    let tail = d.skip(1);
                    assert(canonical(d));
                    lemma_canonical_rest(d);
                    assert(h.wf() && !h.val.is_zero_spec());
                    lemma_over_wf(t, h);
                    crate::poly::mono::lemma_rational_div_then_mul(t, h);
                    crate::rational::lemma_div_then_mul(t.val, h.val);
                    crate::rational::lemma_multiply_exact(t.val@, h.val@.inverse());
                    assert(q.times(h) == t);
                    lemma_times_exact(q, h);
                    lemma_products_differ(q, d);
                    lemma_scale_general(q, tail);
                    let product = scale(q, tail);
                    assert forall|j: int| 0 <= j < tail.len() implies place(
                        x,
                        union_vars(q.vars, (#[trigger] tail[j]).vars, false),
                    ) == Place::Before by {
                        assert(tail[j] == d[j + 1]);
                        assert(d[j + 1].wf());
                        assert(place(h.vars, d[j + 1].vars) == Place::Before);
                        assert forall|var: usize|
                            #[trigger] crate::poly::mono::exponent_of(q.vars, var)
                                + crate::poly::mono::exponent_of(h.vars, var) <= u64::MAX by {
                            assert(crate::poly::mono::exponent_of(q.vars, var)
                                + crate::poly::mono::exponent_of(d[0].vars, var) <= u64::MAX);
                        }
                        assert forall|var: usize|
                            #[trigger] crate::poly::mono::exponent_of(q.vars, var)
                                + crate::poly::mono::exponent_of(d[j + 1].vars, var) <= u64::MAX by {
                            assert(crate::poly::mono::exponent_of(q.vars, var)
                                + crate::poly::mono::exponent_of(d[j + 1].vars, var) <= u64::MAX);
                        }
                        lemma_union_place(q.vars, h.vars, d[j + 1].vars);
                        lemma_place_transitive(
                            x,
                            t.vars,
                            union_vars(q.vars, d[j + 1].vars, false),
                        );
                    }
                    lemma_scaled_bounded(x, q, tail);
                    lemma_row_canonical(Seq::empty(), q, tail);
                    lemma_merge_bounded(rest, product, true, x);
                    lemma_merge_canonical(rest, product, true);
                    lemma_remainder_leading(
                        poly_merge(rest, product, true),
                        divisors,
                        quotients.update(k, poly_merge(quotients[k], single(q), false)),
                        rem,
                        (fuel - 1) as nat,
                    );
                },
                None => {
                    let one = seq![t];
                    let next = poly_merge(rem, one, false);
                    assert(one[0] == t);
                    assert(next[0] == rem[0]);
                    crate::poly::lemma_single_canonical(t);
                    assert(single(t) == one);
                    lemma_merge_canonical(rem, one, false);
                    lemma_remainder_leading(rest, divisors, quotients, next, (fuel - 1) as nat);
                },
            }
        }
    }
}

/// The remainder of a polynomial whose leading term no leading term of the
/// divisors divides has the leading monomial of the polynomial, while
/// nothing overflows.
pub proof fn lemma_division_keeps_leading(p: Seq<Term<Rat>>, divisors: Seq<Seq<Term<Rat>>>)
    requires
        canonical(p),
        p.len() > 0,
        all_canonical(divisors),
        irreducible_vars(p[0].vars, divisors),
        divisors.len() > 0 ==> division_exact(
            p,
            divisors,
            Seq::new(divisors.len(), |i: int| Seq::<Term<Rat>>::empty()),
            Seq::empty(),
            STEP_LIMIT as nat,
        ),
    ensures
        poly_divide(p, divisors).1.len() > 0,
        poly_divide(p, divisors).1[0].vars == p[0].vars,
{
    if divisors.len() > 0 {
        let nothing = Seq::<Term<Rat>>::empty();
        let zeros = Seq::new(divisors.len(), |i: int| Seq::<Term<Rat>>::empty());
        let t = p[0];
        let rest = p.skip(1);
        lemma_canonical_rest(p);
        assert(t.wf() && !t.val.is_zero_spec());
        // no divisor is found for the leading term
        if find_divisor(t, divisors, 0).is_some() {
            lemma_found_divisor(t, divisors, 0);
            let k = find_divisor(t, divisors, 0).unwrap().0;
            assert(divides_vars(divisors[k][0], t.vars));
        }
        let one = seq![t];
        let next = poly_merge(nothing, one, false);
        assert(one.skip(1) =~= nothing);
        assert(one[0] == t);
        assert(poly_merge(nothing, nothing, false) =~= nothing);
        assert(next =~= one);
        crate::poly::lemma_single_canonical(t);
        assert(single(t) == one);
        lemma_remainder_leading(rest, divisors, zeros, next, (STEP_LIMIT - 1) as nat);
    }
}


/// Division takes canonical polynomials to canonical quotients and a
/// canonical remainder.
pub proof fn lemma_divide_canonical<T: Field>(
    dividend: Seq<Term<T>>,
    divisors: Seq<Seq<Term<T>>>,
    quotients: Seq<Seq<Term<T>>>,
    rem: Seq<Term<T>>,
    fuel: nat,
)
    requires
        canonical(dividend),
        all_canonical(divisors),
        all_canonical(quotients),
        quotients.len() == divisors.len(),
        canonical(rem),
    ensures
        all_canonical(divide_steps(dividend, divisors, quotients, rem, fuel).0),
        divide_steps(dividend, divisors, quotients, rem, fuel).0.len() == divisors.len(),
        canonical(divide_steps(dividend, divisors, quotients, rem, fuel).1),
    decreases fuel,
{
    if dividend.len() == 0 {
    } else if fuel == 0 {
        lemma_merge_canonical(rem, dividend, false);
    } else {
        let t = dividend[0];
        let rest = dividend.skip(1);
        lemma_canonical_rest(dividend);
        assert(t.wf() && !t.val.is_zero_spec());
        match find_divisor(t, divisors, 0) {
            Some((k, q)) => {
                lemma_found_divisor(t, divisors, 0);
                let d = divisors[k];
                assert(canonical(d));
                assert(canonical(quotients[k]));
                lemma_canonical_rest(d);
                assert(d[0].wf());
                lemma_over_wf(t, d[0]);
                lemma_row_canonical(Seq::empty(), q, d.skip(1));
                let product = scale(q, d.skip(1));
                lemma_merge_canonical(rest, product, true);
                crate::poly::lemma_single_canonical(q);
                let quotient = poly_merge(quotients[k], single(q), false);
                lemma_merge_canonical(quotients[k], single(q), false);
                let updated = quotients.update(k, quotient);
                assert forall|i: int| 0 <= i < updated.len() implies canonical(
                    #[trigger] updated[i],
                ) by {
                    if i != k {
                        assert(updated[i] == quotients[i]);
                    }
                }
                lemma_divide_canonical(
                    poly_merge(rest, product, true),
                    divisors,
                    updated,
                    rem,
                    (fuel - 1) as nat,
                );
            },
            None => {
                let one = seq![t];
                crate::poly::lemma_single_canonical(t);
                assert(single(t) == one);
                lemma_merge_canonical(rem, one, false);
                lemma_divide_canonical(
                    rest,
                    divisors,
                    quotients,
                    poly_merge(rem, one, false),
                    (fuel - 1) as nat,
                );
            },
        }
    }
}

/// The remainder of a canonical polynomial on division by canonical
/// polynomials is canonical.
pub proof fn lemma_remainder_canonical<T: Field>(p: Seq<Term<T>>, divisors: Seq<Seq<Term<T>>>)
    requires
        canonical(p),
        all_canonical(divisors),
    ensures
        canonical(poly_divide(p, divisors).1),
{
    if divisors.len() > 0 {
        let zeros = Seq::new(divisors.len(), |i: int| Seq::<Term<T>>::empty());
        assert(canonical(Seq::<Term<T>>::empty()));
        assert(all_canonical(zeros));
        lemma_divide_canonical(p, divisors, zeros, Seq::empty(), STEP_LIMIT as nat);
    }
}

/// The S-polynomial of two canonical polynomials is canonical.
pub proof fn lemma_s_polynomial_canonical<T: Field>(p: Seq<Term<T>>, q: Seq<Term<T>>)
    requires
        canonical(p),
        canonical(q),
    ensures
        canonical(crate::poly::division::s_polynomial(p, q)),
{
    T::lemma_identities();
    let lp = leading(p);
    let lq = leading(q);
    assert(lp.wf()) by {
        if p.len() > 0 {
            assert(p[0].wf());
        }
    }
    assert(lq.wf()) by {
        if q.len() > 0 {
            assert(q[0].wf());
        }
    }
    let l = lp.lcm(lq);
    crate::poly::mono::lemma_union_sorted(lp.vars, lq.vars, true, -1);
    assert(l.wf());
    if l.over(lp).is_some() && l.over(lq).is_some() {
        lemma_over_wf(l, lp);
        lemma_over_wf(l, lq);
        let cp = l.over(lp).unwrap();
        let cq = l.over(lq).unwrap();
        lemma_row_canonical(Seq::empty(), cp, p);
        lemma_row_canonical(Seq::empty(), cq, q);
        lemma_merge_canonical(scale(cp, p), scale(cq, q), true);
    }
}

/// The closure of canonical polynomials consists of canonical polynomials.
pub proof fn lemma_closure_canonical(
    members: Seq<Seq<Term<Rat>>>,
    pairs: Seq<(usize, usize)>,
    fuel: nat,
)
    requires
        all_canonical(members),
        forall|k: int|
            0 <= k < pairs.len() ==> (#[trigger] pairs[k]).0 < members.len() && pairs[k].1
                < members.len(),
    ensures
        all_canonical(closure(members, pairs, fuel)),
    decreases fuel,
{
    if pairs.len() == 0 || fuel == 0 {
    } else {
        let (i, j) = pairs.last();
        assert(pairs.last() == pairs[pairs.len() - 1]);
        assert(canonical(members[i as int]) && canonical(members[j as int]));
        let s = crate::poly::division::s_polynomial(members[i as int], members[j as int]);
        lemma_s_polynomial_canonical(members[i as int], members[j as int]);
        lemma_remainder_canonical(s, members);
        let rem = poly_divide(s, members).1;
        let rest = pairs.drop_last();
        if rem.len() == 0 {
            assert forall|k: int| 0 <= k < rest.len() implies (#[trigger] rest[k]).0 < members.len()
                && rest[k].1 < members.len() by {
                assert(rest[k] == pairs[k]);
            }
            lemma_closure_canonical(members, rest, (fuel - 1) as nat);
        } else {
            let more = members.push(rem);
            let next = rest + crate::poly::system::pairs_with(members.len());
            assert forall|k: int| 0 <= k < more.len() implies canonical(#[trigger] more[k]) by {
                if k < members.len() {
                    assert(more[k] == members[k]);
                }
            }
            assert forall|k: int| 0 <= k < next.len() implies (#[trigger] next[k]).0 < more.len()
                && next[k].1 < more.len() by {
                if k < rest.len() {
                    assert(next[k] == pairs[k]);
                } else {
                    assert(next[k] == crate::poly::system::pairs_with(members.len())[k
                        - rest.len()]);
                }
            }
            lemma_closure_canonical(more, next, (fuel - 1) as nat);
        }
    }
}

/// The indices below `up` of the members that are kept.
pub open spec fn kept_indices(members: Seq<Seq<Term<Rat>>>, n: nat) -> Seq<int>
    decreases n,
{
    if n == 0 {
        Seq::empty()
    } else {
        let prev = kept_indices(members, (n - 1) as nat);
        if members[n - 1].len() > 0 && !dominated(members, n - 1) {
            prev.push(n - 1)
        } else {
            prev
        }
    }
}

/// The members that are kept are the members at the kept indices, which
/// increase, are not zero and are not made redundant by any member.
pub proof fn lemma_kept_indices(members: Seq<Seq<Term<Rat>>>, n: nat)
    requires
        n <= members.len(),
    ensures
        kept_indices(members, n).len() == kept(members, n).len(),
        forall|m: int|
            0 <= m < kept(members, n).len() ==> 0 <= (#[trigger] kept_indices(members, n)[m]) < n
                && kept(members, n)[m] == members[kept_indices(members, n)[m]] && members[kept_indices(
                members,
                n,
            )[m]].len() > 0 && !dominated(members, kept_indices(members, n)[m]),
        forall|a: int, b: int|
            0 <= a < b < kept(members, n).len() ==> (#[trigger] kept_indices(members, n)[a]) < (
            #[trigger] kept_indices(members, n)[b]),
    decreases n,
{
    if n > 0 {
        lemma_kept_indices(members, (n - 1) as nat);
        let prev = kept_indices(members, (n - 1) as nat);
        let idx = kept_indices(members, n);
        let k = kept(members, n);
        let kp = kept(members, (n - 1) as nat);
        assert forall|m: int| 0 <= m < k.len() implies 0 <= (#[trigger] idx[m]) < n && k[m]
            == members[idx[m]] && members[idx[m]].len() > 0 && !dominated(members, idx[m]) by {
            if m < prev.len() {
                assert(idx[m] == prev[m]);
                assert(k[m] == kp[m]);
            }
        }
        assert forall|a: int, b: int| 0 <= a < b < k.len() implies (#[trigger] idx[a]) < (
        #[trigger] idx[b]) by {
            assert(idx[a] == prev[a]);
            if b < prev.len() {
                assert(idx[b] == prev[b]);
            }
        }
    }
}


/// Whether the quotient of the leading coefficients of any two members is
/// computed without overflow.
pub open spec fn leading_quotients_fit(members: Seq<Seq<Term<Rat>>>) -> bool {
    forall|i: int, j: int|
        0 <= i < members.len() && 0 <= j < members.len() && (#[trigger] members[i]).len() > 0 && (
        #[trigger] members[j]).len() > 0 ==> multiply_fits(
            members[i][0].val@,
            members[j][0].val@.inverse(),
        )
}

/// Of two members that are kept, the leading term of neither divides the
/// leading term of the other, while the quotients of the leading
/// coefficients are computed without overflow.
pub proof fn lemma_kept_independent(members: Seq<Seq<Term<Rat>>>, a: int, b: int)
    requires
        all_canonical(members),
        leading_quotients_fit(members),
        0 <= a < kept(members, members.len()).len(),
        0 <= b < kept(members, members.len()).len(),
        a != b,
    ensures
        kept(members, members.len())[a].len() > 0,
        kept(members, members.len())[b].len() > 0,
        canonical(kept(members, members.len())[a]),
        !divides_vars(
            kept(members, members.len())[b][0],
            kept(members, members.len())[a][0].vars,
        ),
{
    let n = members.len();
    lemma_kept_indices(members, n);
    let idx = kept_indices(members, n);
    let ka = idx[a];
    let kb = idx[b];
    assert(ka != kb) by {
        if a < b {
            assert(idx[a] < idx[b]);
        } else {
            assert(idx[b] < idx[a]);
        }
    }
    let x = members[ka][0];
    let y = members[kb][0];
    assert(canonical(members[ka]) && canonical(members[kb]));
    assert(x.wf() && !x.val.is_zero_spec());
    assert(y.wf() && !y.val.is_zero_spec());
    if divides_vars(y, x.vars) {
        let qv = quotient_vars(x.vars, y.vars).unwrap();
        assert(multiply_fits(members[ka][0].val@, members[kb][0].val@.inverse()));
        crate::rational::lemma_multiply_exact(x.val@, y.val@.inverse());
        let v = y.val@.inverse();
        let q = crate::rational::multiply(x.val@, v);
        assert(q.num != 0) by (nonlinear_arith)
            requires
                q.num * (x.val@.den * v.den) == (x.val@.num * v.num) * q.den,
                x.val@.num != 0,
                v.num != 0,
                q.den > 0,
        ;
        let m = x.over(y).unwrap();
        assert(m.vars == qv);
        assert(!dominates(members, kb, ka));
        assert(qv.len() == 0 && ka < kb);
        crate::poly::mono::lemma_quotient_then_union(x.vars, y.vars, -1);
        assert(x.vars == y.vars);
        crate::poly::mono::lemma_quotient_exponents(y.vars, x.vars);
        assert(y.over(x).is_some());
        assert(dominates(members, ka, kb));
        assert(dominated(members, kb));
    }
}

/// Whether every member is reduced by the others without overflow, and
/// within the step limit.
pub open spec fn reduction_exact(members: Seq<Seq<Term<Rat>>>) -> bool {
    forall|i: int|
        0 <= i < members.len() ==> division_finishes(#[trigger] members[i], members.remove(i))
            && (members.len() > 1 ==> division_exact(
            members[i],
            members.remove(i),
            Seq::new((members.len() - 1) as nat, |t: int| Seq::<Term<Rat>>::empty()),
            Seq::empty(),
            STEP_LIMIT as nat,
        ))
}

/// Whether no term of `a` is divisible by the leading term of `b`.
pub open spec fn reduced_by(a: Seq<Term<Rat>>, b: Seq<Term<Rat>>) -> bool {
    b.len() > 0 ==> forall|k: int| 0 <= k < a.len() ==> !divides_vars(b[0], (#[trigger] a[k]).vars)
}

/// Whether no term of a member is divisible by the leading term of another
/// member.
pub open spec fn reduced(list: Seq<Seq<Term<Rat>>>) -> bool {
    forall|i: int, j: int|
        0 <= i < list.len() && 0 <= j < list.len() && i != j ==> reduced_by(
            #[trigger] list[i],
            #[trigger] list[j],
        )
}

/// The members that are kept, each reduced by the others, keep their
/// leading monomials and are reduced, while nothing overflows and the
/// divisions come to an end.
pub proof fn lemma_interreduced(members: Seq<Seq<Term<Rat>>>)
    requires
        all_canonical(members),
        leading_quotients_fit(members),
        reduction_exact(kept(members, members.len())),
    ensures
        interreduced(kept(members, members.len())).len() == kept(members, members.len()).len(),
        all_canonical(interreduced(kept(members, members.len()))),
        forall|i: int|
            0 <= i < kept(members, members.len()).len() ==> (#[trigger] interreduced(
                kept(members, members.len()),
            )[i]).len() > 0,
        reduced(interreduced(kept(members, members.len()))),
{
    let k = kept(members, members.len());
    let r = interreduced(k);
    lemma_kept_indices(members, members.len());
    assert forall|i: int| 0 <= i < k.len() implies canonical(#[trigger] k[i]) by {
        assert(canonical(members[kept_indices(members, members.len())[i]]));
    }
    assert forall|i: int| 0 <= i < k.len() implies canonical(#[trigger] r[i]) && r[i].len() > 0
        && r[i][0].vars == k[i][0].vars && irreducible(r[i], k.remove(i)) by {
        let others = k.remove(i);
        assert forall|t: int| 0 <= t < others.len() implies canonical(#[trigger] others[t]) by {
            if t < i {
                assert(others[t] == k[t]);
            } else {
                assert(others[t] == k[t + 1]);
            }
        }
        assert(division_finishes(k[i], k.remove(i)));
        if k.len() > 1 {
            lemma_kept_independent(members, i, if i == 0 { 1 } else { 0 });
        } else {
            assert(members[kept_indices(members, members.len())[i]].len() > 0);
        }
        assert(irreducible_vars(k[i][0].vars, others)) by {
            assert forall|t: int| 0 <= t < others.len() && (#[trigger] others[t]).len()
                > 0 implies !divides_vars(others[t][0], k[i][0].vars) by {
                if t < i {
                    assert(others[t] == k[t]);
                    lemma_kept_independent(members, i, t);
                } else {
                    assert(others[t] == k[t + 1]);
                    lemma_kept_independent(members, i, t + 1);
                }
            }
        }
        lemma_division_keeps_leading(k[i], others);
        lemma_remainder_irreducible(k[i], others);
        lemma_remainder_canonical(k[i], others);
    }
    assert forall|i: int, j: int| 0 <= i < r.len() && 0 <= j < r.len() && i != j implies reduced_by(
        #[trigger] r[i],
        #[trigger] r[j],
    ) by {
        let others = k.remove(i);
        let at = if j < i { j } else { j - 1 };
        assert(others[at] == k[j]);
        lemma_kept_independent(members, j, i);
        assert(canonical(r[j]) && r[j].len() > 0);
        assert(r[j][0].wf() && !r[j][0].val.is_zero_spec());
        assert(canonical(k[j]));
        assert(k[j][0].wf() && !k[j][0].val.is_zero_spec());
        assert forall|t: int| 0 <= t < r[i].len() implies !divides_vars(
            r[j][0],
            (#[trigger] r[i][t]).vars,
        ) by {
            assert(irreducible_vars(r[i][t].vars, others));
            assert(!divides_vars(others[at][0], r[i][t].vars));
        }
    }
}

/// The places in the list that the members have after sorting.
pub open spec fn sort_order(members: Seq<Seq<Term<Rat>>>) -> Seq<int>
    decreases members.len(),
{
    if members.len() == 0 {
        Seq::empty()
    } else {
        let front = members.drop_last();
        sort_order(front).insert(
            insert_position(sort_by_leading(front), members.last()) as int,
            members.len() - 1,
        )
    }
}

/// Sorting rearranges the members: each member of the sorted list is the
/// member at a place of its own in the list.
pub proof fn lemma_sort_order(members: Seq<Seq<Term<Rat>>>)
    ensures
        sort_order(members).len() == members.len(),
        sort_by_leading(members).len() == members.len(),
        forall|m: int|
            0 <= m < members.len() ==> 0 <= (#[trigger] sort_order(members)[m]) < members.len()
                && sort_by_leading(members)[m] == members[sort_order(members)[m]],
        forall|a: int, b: int|
            0 <= a < members.len() && 0 <= b < members.len() && a != b ==> (
            #[trigger] sort_order(members)[a]) != (#[trigger] sort_order(members)[b]),
    decreases members.len(),
{
    if members.len() > 0 {
        let front = members.drop_last();
        lemma_sort_order(front);
        let prev = sort_order(front);
        let sorted = sort_by_leading(front);
        crate::poly::system::lemma_insert_position(sorted, members.last());
        let pos = insert_position(sorted, members.last()) as int;
        let order = sort_order(members);
        let after = sort_by_leading(members);
        let n = members.len() - 1;
        assert(order == prev.insert(pos, n));
        assert(after == sorted.insert(pos, members.last()));
        assert forall|m: int| 0 <= m < members.len() implies 0 <= (#[trigger] order[m])
            < members.len() && after[m] == members[order[m]] by {
            if m < pos {
                assert(order[m] == prev[m]);
                assert(after[m] == sorted[m]);
                assert(front[prev[m]] == members[prev[m]]);
            } else if m > pos {
                assert(order[m] == prev[m - 1]);
                assert(after[m] == sorted[m - 1]);
                assert(front[prev[m - 1]] == members[prev[m - 1]]);
            }
        }
        assert forall|a: int, b: int|
            0 <= a < members.len() && 0 <= b < members.len() && a != b implies (
        #[trigger] order[a]) != (#[trigger] order[b]) by {
            let old = |m: int| if m < pos { m } else { m - 1 };
            if a != pos {
                assert(order[a] == prev[old(a)]);
                assert(0 <= prev[old(a)] < n);
            }
            if b != pos {
                assert(order[b] == prev[old(b)]);
                assert(0 <= prev[old(b)] < n);
            }
            if a != pos && b != pos {
                assert(old(a) != old(b));
            }
        }
    }
}


/// The first pairs of the work list name members of the list.
pub proof fn lemma_initial_pairs(rows: nat, n: nat)
    requires
        rows <= n,
        n <= usize::MAX,
    ensures
        forall|k: int|
            0 <= k < initial_pairs(rows, n).len() ==> (#[trigger] initial_pairs(rows, n)[k]).0 < n
                && initial_pairs(rows, n)[k].1 < n,
    decreases rows,
{
    if rows > 0 {
        lemma_initial_pairs((rows - 1) as nat, n);
        let prev = initial_pairs((rows - 1) as nat, n);
        let row = crate::poly::system::pairs_row((rows - 1) as usize, n);
        lemma_pairs_row((rows - 1) as usize, n, n);
        let all = initial_pairs(rows, n);
        assert forall|k: int| 0 <= k < all.len() implies (#[trigger] all[k]).0 < n && all[k].1
            < n by {
            if k < prev.len() {
                assert(all[k] == prev[k]);
            } else {
                assert(all[k] == row[k - prev.len()]);
            }
        }
    }
}

/// The pairs of a row of the work list name members of the list.
pub proof fn lemma_pairs_row(i: usize, upto: nat, n: nat)
    requires
        i < n,
        upto <= n,
        n <= usize::MAX,
    ensures
        forall|k: int|
            0 <= k < crate::poly::system::pairs_row(i, upto).len() ==> (
            #[trigger] crate::poly::system::pairs_row(i, upto)[k]).0 < n
                && crate::poly::system::pairs_row(i, upto)[k].1 < n,
    decreases upto,
{
    if upto > 0 {
        lemma_pairs_row(i, (upto - 1) as nat, n);
        let prev = crate::poly::system::pairs_row(i, (upto - 1) as nat);
        let all = crate::poly::system::pairs_row(i, upto);
        assert forall|k: int| 0 <= k < all.len() implies (#[trigger] all[k]).0 < n && all[k].1
            < n by {
            if k < prev.len() {
                assert(all[k] == prev[k]);
            }
        }
    }
}

/// Whether the basis is computed without overflow where that bears on its
/// being reduced, and the divisions that reduce its members by one another
/// come to an end: the quotients of the leading coefficients of the members
/// of the closure, the reduction of each member that is kept by the others,
/// and the primitive forms.
pub open spec fn groebner_exact(members: Seq<Seq<Term<Rat>>>) -> bool {
    let closed = closure(members, initial_pairs(members.len(), members.len()), PAIR_LIMIT as nat);
    &&& leading_quotients_fit(closed)
    &&& reduction_exact(kept(closed, closed.len()))
    &&& crate::poly::system::groebner_norm_exact(members)
}

/// The basis is reduced: no term of a member is divisible by the leading
/// term of another member. This holds while the divisions that reduce the
/// members by one another come to an end and nothing overflows in them, in
/// the quotients of leading coefficients and in the primitive forms.
pub proof fn lemma_groebner_reduced(members: Seq<Seq<Term<Rat>>>)
    requires
        all_canonical(members),
        members.len() <= usize::MAX,
        groebner_exact(members),
    ensures
        reduced(groebner(members)),
{
    let n = members.len();
    let closed = closure(members, initial_pairs(n, n), PAIR_LIMIT as nat);
    lemma_initial_pairs(n, n);
    lemma_closure_canonical(members, initial_pairs(n, n), PAIR_LIMIT as nat);
    let k = kept(closed, closed.len());
    let r = interreduced(k);
    lemma_interreduced(closed);
    let sorted = sort_by_leading(r);
    lemma_sort_order(r);
    let order = sort_order(r);
    assert(sorted == groebner_sorted(members));
    let g = groebner(members);
    assert forall|i: int, j: int| 0 <= i < g.len() && 0 <= j < g.len() && i != j implies reduced_by(
        #[trigger] g[i],
        #[trigger] g[j],
    ) by {
        let (a, b) = (sorted[i], sorted[j]);
        assert(a == r[order[i]] && b == r[order[j]]);
        assert(order[i] != order[j]);
        assert(reduced_by(r[order[i]], r[order[j]]));
        assert(canonical(a) && canonical(b));
        assert(norm_exact(groebner_sorted(members)[i]));
        assert(norm_exact(groebner_sorted(members)[j]));
        lemma_norm_primitive(a);
        lemma_norm_primitive(b);
        assert(g[i] == poly_norm(a) && g[j] == poly_norm(b));
        assert(b.len() > 0);
        assert(b[0].wf() && !b[0].val.is_zero_spec());
        assert(g[j][0].wf() && !g[j][0].val.is_zero_spec());
        assert(g[j][0].vars == b[0].vars);
        assert forall|t: int| 0 <= t < g[i].len() implies !divides_vars(
            g[j][0],
            (#[trigger] g[i][t]).vars,
        ) by {
            assert(g[i][t].vars == a[t].vars);
            assert(!divides_vars(b[0], a[t].vars));
        }
    }
}

} // verus!
