//! The real roots of a polynomial with rational coefficients come in
//! increasing order, while the points at which it is looked at are computed
//! without overflow.

use vstd::prelude::*;
use crate::exact::{lemma_positive, raw_sum, same};
use crate::field::{Field, Zero};
use crate::rational::{
    combine,
    combine_fits,
    lemma_combine_exact,
    lemma_multiply_exact,
    multiply,
    multiply_fits,
    precedes,
    Frac,
    Rat,
};
use crate::univariate::{
    all_valid,
    bisect,
    bracketed,
    derived,
    gap,
    horner,
    inner_gaps,
    isolate,
    left_gap,
    midpoint,
    positive_at,
    probe,
    refined,
    right_gap,
    root_valid,
    roots_valid,
    split_points,
    Root,
    BISECTION_LIMIT,
    PROBE_LIMIT,
};

verus! {

/// `a <= b` for fractions with positive denominators.
pub open spec fn at_most(a: Frac, b: Frac) -> bool {
    !precedes(b, a)
}

proof fn ring_order(an: int, ad: int, bn: int, bd: int, cn: int, cd: int)
    ensures
        (an * bd) * cd == (an * cd) * bd,
        (bn * ad) * cd == (bn * cd) * ad,
        (cn * bd) * ad == (cn * ad) * bd,
{
    broadcast use vstd::arithmetic::mul::group_mul_properties;

}

/// A strict inequality between products with a positive factor holds of
/// the other factors, and the other way round.
proof fn lemma_scale_order(x: int, y: int, k: int)
    requires
        k > 0,
    ensures
        x < y <==> x * k < y * k,
        x <= y <==> x * k <= y * k,
{
    assert(x < y ==> x * k < y * k) by (nonlinear_arith)
        requires
            k > 0,
    ;
    assert(x >= y ==> x * k >= y * k) by (nonlinear_arith)
        requires
            k > 0,
    ;
    assert(x <= y ==> x * k <= y * k) by (nonlinear_arith)
        requires
            k > 0,
    ;
    assert(x > y ==> x * k > y * k) by (nonlinear_arith)
        requires
            k > 0,
    ;
}

/// The order of fractions with positive denominators is transitive.
pub proof fn lemma_order_transitive(a: Frac, b: Frac, c: Frac)
    requires
        a.den > 0,
        b.den > 0,
        c.den > 0,
    ensures
        precedes(a, b) && at_most(b, c) ==> precedes(a, c),
        at_most(a, b) && precedes(b, c) ==> precedes(a, c),
        at_most(a, b) && at_most(b, c) ==> at_most(a, c),
        precedes(a, b) ==> at_most(a, b),
        at_most(a, a),
{
    ring_order(a.num, a.den, b.num, b.den, c.num, c.den);
    lemma_scale_order(a.num * b.den, b.num * a.den, c.den);
    lemma_scale_order(b.num * c.den, c.num * b.den, a.den);
    lemma_scale_order(a.num * c.den, c.num * a.den, b.den);
}

/// Fractions of the same value stand in the same order to every fraction.
pub proof fn lemma_order_same(x: Frac, y: Frac, z: Frac)
    requires
        x.den > 0,
        y.den > 0,
        z.den > 0,
        same(x, y),
    ensures
        precedes(x, z) == precedes(y, z),
        precedes(z, x) == precedes(z, y),
{
    ring_order(x.num, x.den, y.num, y.den, z.num, z.den);
    ring_order(y.num, y.den, x.num, x.den, z.num, z.den);
    lemma_scale_order(x.num * z.den, z.num * x.den, y.den);
    lemma_scale_order(y.num * z.den, z.num * y.den, x.den);
    lemma_scale_order(z.num * x.den, x.num * z.den, y.den);
    lemma_scale_order(z.num * y.den, y.num * z.den, x.den);
}

/// Whether the middle of two numbers is computed without overflow.
pub open spec fn midpoint_fits(lo: Rat, hi: Rat) -> bool {
    &&& combine_fits(lo@, hi@, 1)
    &&& multiply_fits(combine(lo@, hi@, 1), Frac { num: 1, den: 2 })
}

/// The middle of two numbers.
pub open spec fn middle(lo: Rat, hi: Rat) -> Rat {
    lo.sum(hi).quotient(Rat::of_int(2))
}

proof fn ring_middle(ln: int, ld: int, hn: int, hd: int)
    ensures
        ln * (2 * (ld * hd)) == 2 * ((ln * hd) * ld),
        ((ln * hd + 1 * (hn * ld)) * 1) * ld == (ln * hd) * ld + (hn * ld) * ld,
        ((ln * hd + 1 * (hn * ld)) * 1) * hd == (ln * hd) * hd + (hn * ld) * hd,
        hn * (2 * (ld * hd)) == 2 * ((hn * ld) * hd),
        (ld * hd) * 2 == 2 * (ld * hd),
{
    broadcast use vstd::arithmetic::mul::group_mul_properties;

}

/// The middle of two different numbers lies strictly between them, while
/// it is computed without overflow.
pub proof fn lemma_middle(lo: Rat, hi: Rat)
    requires
        lo.wf(),
        hi.wf(),
        midpoint_fits(lo, hi),
        precedes(lo@, hi@),
    ensures
        middle(lo, hi).wf(),
        precedes(lo@, middle(lo, hi)@),
        precedes(middle(lo, hi)@, hi@),
{
    let half = Frac { num: 1, den: 2 };
    let s = combine(lo@, hi@, 1);
    lemma_combine_exact(lo@, hi@, 1);
    lemma_multiply_exact(s, half);
    let m = multiply(s, half);
    assert((Frac { num: 2, den: 1 }).inverse() == half);
    assert(middle(lo, hi)@ == m);
    let (ln, ld, hn, hd) = (lo@.num, lo@.den, hi@.num, hi@.den);
    let raw = Frac { num: (ln * hd + 1 * (hn * ld)) * 1, den: (ld * hd) * 2 };
    lemma_positive(ld, hd);
    lemma_positive(ld * hd, 2);
    // the middle has the value of the sum over two
    ring_half(s.num, s.den, ln * hd + 1 * (hn * ld), ld * hd);
    crate::rational::lemma_value_transfer(m, s.num * 1, s.den * 2, raw.num, raw.den);
    assert(same(m, raw));
    lemma_order_same(m, raw, lo@);
    lemma_order_same(m, raw, hi@);
    ring_middle(ln, ld, hn, hd);
    lemma_scale_order(ln * hd, hn * ld, ld);
    lemma_scale_order(ln * hd, hn * ld, hd);
}

proof fn ring_half(sn: int, sd: int, n: int, d: int)
    ensures
        (sn * 1) * (d * 2) == (sn * d) * 2,
        (n * 1) * (sd * 2) == (n * sd) * 2,
{
    broadcast use vstd::arithmetic::mul::group_mul_properties;

}


/// Whether a root lies above a bound: a point strictly, an interval from
/// the bound on, with its lower end below its upper end.
pub open spec fn lies_above(r: Root<Rat>, bound: Rat) -> bool {
    match r {
        Root::Point(x) => precedes(bound@, x@),
        Root::Interval(a, b) => at_most(bound@, a@) && precedes(a@, b@),
    }
}

/// Whether a root lies at or below a bound, an interval with its lower end
/// below its upper end.
pub open spec fn lies_below(r: Root<Rat>, bound: Rat) -> bool {
    match r {
        Root::Point(x) => at_most(x@, bound@),
        Root::Interval(a, b) => precedes(a@, b@) && at_most(b@, bound@),
    }
}

/// A root above a bound is above every lower bound, and a root below a
/// bound is below every higher bound.
pub proof fn lemma_bounds_weaken(r: Root<Rat>, bound: Rat, other: Rat)
    requires
        root_valid(r),
        bound.wf(),
        other.wf(),
    ensures
        lies_above(r, bound) && at_most(other@, bound@) ==> lies_above(r, other),
        lies_below(r, bound) && at_most(bound@, other@) ==> lies_below(r, other),
{
    match r {
        Root::Point(x) => {
            lemma_order_transitive(other@, bound@, x@);
            lemma_order_transitive(x@, bound@, other@);
        },
        Root::Interval(a, b) => {
            lemma_order_transitive(other@, bound@, a@);
            lemma_order_transitive(b@, bound@, other@);
        },
    }
}

/// Whether bisection computes the middles of its intervals without overflow.
pub open spec fn bisect_fits(c: Seq<Rat>, lo: Rat, hi: Rat, tol: Rat, positive: bool, fuel: nat) -> bool
    decreases fuel,
{
    if fuel == 0 || !tol.below(hi.difference(lo)) {
        true
    } else {
        let mid = middle(lo, hi);
        &&& midpoint_fits(lo, hi)
        &&& if horner(c, mid).is_zero_spec() {
            true
        } else if positive_at(c, mid) == positive {
            bisect_fits(c, mid, hi, tol, positive, (fuel - 1) as nat)
        } else {
            bisect_fits(c, lo, mid, tol, positive, (fuel - 1) as nat)
        }
    }
}

/// What bisection narrows an interval down to lies within the interval:
/// a point strictly inside, or an interval with its lower end below its
/// upper end.
pub proof fn lemma_bisect_bounds(c: Seq<Rat>, lo: Rat, hi: Rat, tol: Rat, positive: bool, fuel: nat)
    requires
        lo.wf(),
        hi.wf(),
        precedes(lo@, hi@),
        bisect_fits(c, lo, hi, tol, positive, fuel),
    ensures
        root_valid(bisect(c, lo, hi, tol, positive, fuel)),
        lies_above(bisect(c, lo, hi, tol, positive, fuel), lo),
        lies_below(bisect(c, lo, hi, tol, positive, fuel), hi),
        bisect(c, lo, hi, tol, positive, fuel) is Point ==> precedes(
            bisect(c, lo, hi, tol, positive, fuel)->Point_0@,
            hi@,
        ),
    decreases fuel,
{
    lemma_order_transitive(lo@, lo@, hi@);
    lemma_order_transitive(lo@, hi@, hi@);
    if fuel == 0 || !tol.below(hi.difference(lo)) {
    } else {
        let mid = middle(lo, hi);
        lemma_middle(lo, hi);
        lemma_order_transitive(lo@, mid@, hi@);
        if horner(c, mid).is_zero_spec() {
        } else if positive_at(c, mid) == positive {
            lemma_bisect_bounds(c, mid, hi, tol, positive, (fuel - 1) as nat);
            let r = bisect(c, mid, hi, tol, positive, (fuel - 1) as nat);
            lemma_bounds_weaken(r, mid, lo);
            match r {
                Root::Point(x) => {
                    lemma_order_transitive(lo@, mid@, x@);
                },
                Root::Interval(a, b) => {},
            }
        } else {
            lemma_bisect_bounds(c, lo, mid, tol, positive, (fuel - 1) as nat);
            let r = bisect(c, lo, mid, tol, positive, (fuel - 1) as nat);
            lemma_bounds_weaken(r, mid, hi);
            match r {
                Root::Point(x) => {
                    lemma_order_transitive(x@, mid@, hi@);
                },
                Root::Interval(a, b) => {},
            }
        }
    }
}

/// Whether narrowing an interval down computes its middles without overflow.
pub open spec fn refined_fits(c: Seq<Rat>, start: Rat, end: Rat, tol: Rat) -> bool {
    bisect_fits(c, start, end, tol, positive_at(c, start), BISECTION_LIMIT as nat)
}

proof fn ring_step(bn: int, bd: int, sn: int, sd: int)
    ensures
        (bn * sd + 1 * (sn * bd)) * bd == (bn * bd) * sd + sn * (bd * bd),
        bn * (bd * sd) == (bn * bd) * sd,
{
    broadcast use vstd::arithmetic::mul::group_mul_properties;

}

/// A point a negative step away from a base lies below the base, and one a
/// positive step away above it, while the sum does not overflow.
pub proof fn lemma_step_away(base: Rat, step: Rat)
    requires
        base.wf(),
        step.wf(),
        combine_fits(base@, step@, 1),
    ensures
        base.sum(step).wf(),
        step.num < 0 ==> precedes(base.sum(step)@, base@),
        step.num > 0 ==> precedes(base@, base.sum(step)@),
{
    lemma_combine_exact(base@, step@, 1);
    let x = combine(base@, step@, 1);
    let raw = raw_sum(base@, step@, 1);
    let (bn, bd, sn, sd) = (base@.num, base@.den, step@.num, step@.den);
    lemma_positive(bd, sd);
    lemma_positive(bd, bd);
    assert(same(x, raw));
    lemma_order_same(x, raw, base@);
    ring_step(bn, bd, sn, sd);
    assert(sn < 0 ==> sn * (bd * bd) < 0) by (nonlinear_arith)
        requires
            bd * bd > 0,
    ;
    assert(sn > 0 ==> sn * (bd * bd) > 0) by (nonlinear_arith)
        requires
            bd * bd > 0,
    ;
}

/// Whether a bracketed root is computed without overflow: the end of the
/// bracket, and the middles of the intervals if it is narrowed down.
pub open spec fn bracket_fits(c: Seq<Rat>, base: Rat, step: Rat, left: bool, tol: Rat) -> bool {
    let x = base.sum(step);
    &&& combine_fits(base@, step@, 1)
    &&& !horner(c, x).is_zero_spec() ==> if left {
        refined_fits(c, x, base, tol)
    } else {
        refined_fits(c, base, x, tol)
    }
}

/// A root bracketed to the left of a base lies at or below the base, and
/// one bracketed to the right above it.
pub proof fn lemma_bracket_bounds(c: Seq<Rat>, base: Rat, step: Rat, left: bool, tol: Rat)
    requires
        base.wf(),
        step.wf(),
        left ==> step.num < 0,
        !left ==> step.num > 0,
        bracket_fits(c, base, step, left, tol),
    ensures
        root_valid(bracketed(c, base, step, left, tol)),
        left ==> lies_below(bracketed(c, base, step, left, tol), base),
        !left ==> lies_above(bracketed(c, base, step, left, tol), base),
{
    let x = base.sum(step);
    lemma_step_away(base, step);
    lemma_order_transitive(x@, base@, base@);
    lemma_order_transitive(base@, x@, x@);
    if !horner(c, x).is_zero_spec() {
        if left {
            lemma_bisect_bounds(c, x, base, tol, positive_at(c, x), BISECTION_LIMIT as nat);
        } else {
            lemma_bisect_bounds(c, base, x, tol, positive_at(c, base), BISECTION_LIMIT as nat);
        }
    }
}

/// Whether the steps of a probe are doubled without overflow.
pub open spec fn probe_fits(c: Seq<Rat>, base: Rat, step: Rat, negative: bool, fuel: nat) -> bool
    decreases fuel,
{
    if fuel == 0 {
        true
    } else {
        let x = base.sum(step);
        let same_sign = if negative {
            crate::univariate::negative_at(c, x)
        } else {
            positive_at(c, x)
        };
        same_sign ==> multiply_fits(step@, Frac { num: 2, den: 1 }) && probe_fits(
            c,
            base,
            step.product(Rat::of_int(2)),
            negative,
            (fuel - 1) as nat,
        )
    }
}

/// The step that a probe ends at has the sign of the step that it starts
/// with, while the steps are doubled without overflow.
pub proof fn lemma_probe_sign(c: Seq<Rat>, base: Rat, step: Rat, negative: bool, fuel: nat)
    requires
        step.wf(),
        probe_fits(c, base, step, negative, fuel),
        probe(c, base, step, negative, fuel).is_some(),
    ensures
        probe(c, base, step, negative, fuel).unwrap().wf(),
        step.num < 0 ==> probe(c, base, step, negative, fuel).unwrap().num < 0,
        step.num > 0 ==> probe(c, base, step, negative, fuel).unwrap().num > 0,
    decreases fuel,
{
    if fuel > 0 {
        let x = base.sum(step);
        let same_sign = if negative {
            crate::univariate::negative_at(c, x)
        } else {
            positive_at(c, x)
        };
        if same_sign {
            let two = Frac { num: 2, den: 1 };
            lemma_multiply_exact(step@, two);
            let next = step.product(Rat::of_int(2));
            let m = multiply(step@, two);
            assert(next@ == m);
            assert((step.num < 0 ==> m.num < 0) && (step.num > 0 ==> m.num > 0)) by (nonlinear_arith)
                requires
                    m.num * (step@.den * 1) == (step@.num * 2) * m.den,
                    step@.den > 0,
                    m.den > 0,
                    step@.num == step.num,
            ;
            lemma_probe_sign(c, base, next, negative, (fuel - 1) as nat);
        }
    }
}


/// Whether the root left of the leftmost point is computed without overflow.
pub open spec fn left_gap_fits(c: Seq<Rat>, first: Rat, tol: Rat) -> bool {
    let falls = c[0].below(Rat::zero_spec()) != (c.len() % 2 == 0);
    let negative = crate::univariate::negative_at(c, first);
    (negative && !falls) || (!negative && positive_at(c, first) && falls) ==> {
        &&& probe_fits(c, first, Rat::of_int(-1i64), negative, PROBE_LIMIT as nat)
        &&& match probe(c, first, Rat::of_int(-1i64), negative, PROBE_LIMIT as nat) {
            Some(step) => bracket_fits(c, first, step, true, tol),
            None => true,
        }
    }
}

/// Whether the root right of the rightmost point is computed without overflow.
pub open spec fn right_gap_fits(c: Seq<Rat>, last: Rat, tol: Rat) -> bool {
    let negative = crate::univariate::negative_at(c, last);
    (negative && !c[0].below(Rat::zero_spec())) || (!negative && positive_at(c, last)
        && !Rat::zero_spec().below(c[0])) ==> {
        &&& probe_fits(c, last, Rat::of_int(1i64), negative, PROBE_LIMIT as nat)
        &&& match probe(c, last, Rat::of_int(1i64), negative, PROBE_LIMIT as nat) {
            Some(step) => bracket_fits(c, last, step, false, tol),
            None => true,
        }
    }
}

/// Whether the root between two neighbouring points is computed without
/// overflow.
pub open spec fn gap_fits(c: Seq<Rat>, start: Rat, end: Rat, tol: Rat) -> bool {
    refined_fits(c, start, end, tol)
}

/// Whether every root of a list lies above a bound.
pub open spec fn all_above(roots: Seq<Root<Rat>>, bound: Rat) -> bool {
    forall|i: int| 0 <= i < roots.len() ==> lies_above(#[trigger] roots[i], bound)
}

/// Whether every root of a list lies at or below a bound.
pub open spec fn all_below(roots: Seq<Root<Rat>>, bound: Rat) -> bool {
    forall|i: int| 0 <= i < roots.len() ==> lies_below(#[trigger] roots[i], bound)
}

/// The root left of the leftmost point lies at or below that point.
pub proof fn lemma_left_gap_bounds(c: Seq<Rat>, first: Rat, tol: Rat)
    requires
        first.wf(),
        left_gap_fits(c, first, tol),
    ensures
        roots_valid(left_gap(c, first, tol)),
        all_below(left_gap(c, first, tol), first),
        left_gap(c, first, tol).len() <= 1,
{
    Rat::lemma_identities();
    Rat::lemma_closed(first, first, -1i64);
    lemma_order_transitive(first@, first@, first@);
    let g = left_gap(c, first, tol);
    let falls = c[0].below(Rat::zero_spec()) != (c.len() % 2 == 0);
    let negative = crate::univariate::negative_at(c, first);
    let start = Rat::of_int(-1i64);
    if (negative && !falls) || (!negative && positive_at(c, first) && falls) {
        match probe(c, first, start, negative, PROBE_LIMIT as nat) {
            Some(step) => {
                lemma_probe_sign(c, first, start, negative, PROBE_LIMIT as nat);
                lemma_bracket_bounds(c, first, step, true, tol);
                assert(g[0] == bracketed(c, first, step, true, tol));
            },
            None => {},
        }
    } else if !negative && !positive_at(c, first) {
        assert(g[0] == Root::Point(first));
    }
}

/// The root right of the rightmost point lies above that point.
pub proof fn lemma_right_gap_bounds(c: Seq<Rat>, last: Rat, tol: Rat)
    requires
        last.wf(),
        right_gap_fits(c, last, tol),
    ensures
        roots_valid(right_gap(c, last, tol)),
        all_above(right_gap(c, last, tol), last),
        right_gap(c, last, tol).len() <= 1,
{
    Rat::lemma_identities();
    Rat::lemma_closed(last, last, 1i64);
    let g = right_gap(c, last, tol);
    let negative = crate::univariate::negative_at(c, last);
    let start = Rat::of_int(1i64);
    if (negative && !c[0].below(Rat::zero_spec())) || (!negative && positive_at(c, last)
        && !Rat::zero_spec().below(c[0])) {
        match probe(c, last, start, negative, PROBE_LIMIT as nat) {
            Some(step) => {
                lemma_probe_sign(c, last, start, negative, PROBE_LIMIT as nat);
                lemma_bracket_bounds(c, last, step, false, tol);
                assert(g[0] == bracketed(c, last, step, false, tol));
            },
            None => {},
        }
    }
}

/// The root between two neighbouring points lies above the first and at
/// or below the second.
pub proof fn lemma_gap_bounds(c: Seq<Rat>, start: Rat, end: Rat, tol: Rat)
    requires
        start.wf(),
        end.wf(),
        precedes(start@, end@),
        gap_fits(c, start, end, tol),
    ensures
        roots_valid(gap(c, start, end, tol)),
        all_above(gap(c, start, end, tol), start),
        all_below(gap(c, start, end, tol), end),
        gap(c, start, end, tol).len() <= 1,
{
    let g = gap(c, start, end, tol);
    lemma_order_transitive(end@, end@, end@);
    lemma_bisect_bounds(c, start, end, tol, positive_at(c, start), BISECTION_LIMIT as nat);
    if g.len() > 0 {
        if horner(c, end).is_zero_spec() {
            assert(g[0] == Root::Point(end));
        } else {
            assert(g[0] == refined(c, start, end, tol));
        }
    }
}

/// Whether the middle of a root, if it is an interval, is computed without
/// overflow.
pub open spec fn approx_fits(r: Root<Rat>) -> bool {
    match r {
        Root::Point(_) => true,
        Root::Interval(a, b) => midpoint_fits(a, b),
    }
}

/// Whether the middles of all the roots of a list are computed without
/// overflow.
pub open spec fn all_approx_fit(roots: Seq<Root<Rat>>) -> bool {
    forall|i: int| 0 <= i < roots.len() ==> approx_fits(#[trigger] roots[i])
}

/// The point that stands for a root above a bound lies above the bound,
/// and the one that stands for a root below a bound at or below it.
pub proof fn lemma_midpoint_bounds(r: Root<Rat>, bound: Rat)
    requires
        root_valid(r),
        bound.wf(),
        approx_fits(r),
    ensures
        lies_above(r, bound) ==> precedes(bound@, midpoint(r)@),
        lies_below(r, bound) ==> at_most(midpoint(r)@, bound@),
        lies_above(r, bound) || lies_below(r, bound) ==> midpoint(r).wf(),
{
    match r {
        Root::Point(x) => {},
        Root::Interval(a, b) => {
            if precedes(a@, b@) {
                lemma_middle(a, b);
                let m = middle(a, b);
                assert(midpoint(r) == m);
                lemma_order_transitive(bound@, a@, m@);
                lemma_order_transitive(m@, b@, bound@);
            }
        },
    }
}

/// Whether each point of a list lies below all that follow.
pub open spec fn increasing(points: Seq<Rat>) -> bool {
    forall|i: int, j: int| 0 <= i < j < points.len() ==> precedes(points[i]@, points[j]@)
}

/// The points that stand for the roots of a list.
pub open spec fn midpoints(roots: Seq<Root<Rat>>) -> Seq<Rat> {
    roots.map_values(|r: Root<Rat>| midpoint(r))
}

/// Roots in increasing order at or below a bound, followed by roots in
/// increasing order above the bound, are in increasing order.
pub proof fn lemma_increasing_concat(xs: Seq<Root<Rat>>, ys: Seq<Root<Rat>>, bound: Rat)
    requires
        bound.wf(),
        roots_valid(xs),
        roots_valid(ys),
        all_approx_fit(xs),
        all_approx_fit(ys),
        increasing(midpoints(xs)),
        increasing(midpoints(ys)),
        all_below(xs, bound),
        all_above(ys, bound),
    ensures
        increasing(midpoints(xs + ys)),
        roots_valid(xs + ys),
        all_approx_fit(xs + ys),
{
    let all = xs + ys;
    let m = midpoints(all);
    assert forall|i: int, j: int| 0 <= i < j < m.len() implies precedes(m[i]@, m[j]@) by {
        if j < xs.len() {
            assert(all[i] == xs[i] && all[j] == xs[j]);
            assert(precedes(midpoints(xs)[i]@, midpoints(xs)[j]@));
        } else if i >= xs.len() {
            assert(all[i] == ys[i - xs.len()] && all[j] == ys[j - xs.len()]);
            assert(precedes(midpoints(ys)[i - xs.len()]@, midpoints(ys)[j - xs.len()]@));
        } else {
            assert(all[i] == xs[i] && all[j] == ys[j - xs.len()]);
            lemma_midpoint_bounds(xs[i], bound);
            lemma_midpoint_bounds(ys[j - xs.len()], bound);
            lemma_order_transitive(midpoint(xs[i])@, bound@, midpoint(ys[j - xs.len()])@);
        }
    }
    assert forall|i: int| 0 <= i < all.len() implies root_valid(#[trigger] all[i]) && approx_fits(
        all[i],
    ) by {
        if i < xs.len() {
            assert(all[i] == xs[i]);
        } else {
            assert(all[i] == ys[i - xs.len()]);
        }
    }
}

/// Whether the roots in the first `n` gaps between neighbouring points are
/// computed without overflow.
pub open spec fn inner_fits(c: Seq<Rat>, points: Seq<Rat>, tol: Rat, n: nat) -> bool {
    forall|i: int| 0 <= i < n ==> gap_fits(c, #[trigger] points[i], points[i + 1], tol)
}

/// The roots in the gaps between increasing points lie above the first
/// point and at or below the last, and come in increasing order.
pub proof fn lemma_inner_bounds(c: Seq<Rat>, points: Seq<Rat>, tol: Rat, n: nat)
    requires
        n < points.len(),
        all_valid(points),
        increasing(points),
        inner_fits(c, points, tol, n),
        all_approx_fit(inner_gaps(c, points, tol, n)),
    ensures
        roots_valid(inner_gaps(c, points, tol, n)),
        all_above(inner_gaps(c, points, tol, n), points[0]),
        all_below(inner_gaps(c, points, tol, n), points[n as int]),
        increasing(midpoints(inner_gaps(c, points, tol, n))),
    decreases n,
{
    let first = points[0];
    assert(first.valid());
    lemma_order_transitive(first@, first@, first@);
    if n > 0 {
        let before = inner_gaps(c, points, tol, (n - 1) as nat);
        let start = points[n - 1];
        let end = points[n as int];
        assert(start.valid() && end.valid());
        assert(precedes(start@, end@));
        let g = gap(c, start, end, tol);
        let all = before + g;
        assert(inner_gaps(c, points, tol, n) == all);
        assert(all_approx_fit(before)) by {
            assert forall|i: int| 0 <= i < before.len() implies approx_fits(#[trigger] before[i]) by {
                assert(all[i] == before[i]);
            }
        }
        assert(all_approx_fit(g)) by {
            assert forall|i: int| 0 <= i < g.len() implies approx_fits(#[trigger] g[i]) by {
                assert(all[before.len() + i] == g[i]);
            }
        }
        assert(inner_fits(c, points, tol, (n - 1) as nat));
        lemma_inner_bounds(c, points, tol, (n - 1) as nat);
        assert(gap_fits(c, points[n - 1], points[n - 1 + 1], tol));
        lemma_gap_bounds(c, start, end, tol);
        assert(increasing(midpoints(g)));
        lemma_increasing_concat(before, g, start);
        if n - 1 > 0 {
            assert(precedes(first@, start@));
        }
        lemma_order_transitive(first@, start@, start@);
        lemma_order_transitive(start@, end@, end@);
        assert forall|i: int| 0 <= i < all.len() implies lies_above(#[trigger] all[i], first)
            && lies_below(all[i], end) by {
            if i < before.len() {
                assert(all[i] == before[i]);
                lemma_bounds_weaken(before[i], start, end);
            } else {
                assert(all[i] == g[i - before.len()]);
                lemma_bounds_weaken(g[i - before.len()], start, first);
            }
        }
    }
}


/// The coefficients of the derivative of a polynomial with valid
/// coefficients are valid.
pub proof fn lemma_derived_valid(c: Seq<Rat>)
    requires
        all_valid(c),
        c.len() >= 1,
    ensures
        all_valid(derived(c)),
{
    let d = derived(c);
    assert forall|i: int| 0 <= i < d.len() implies (#[trigger] d[i]).valid() by {
        let e = (c.len() - 1 - i) as u64;
        assert(c[i].valid());
        Rat::lemma_closed(c[i], c[i], e as i64);
        Rat::lemma_closed(c[i], c[i], (e / 2) as i64);
        Rat::lemma_closed(c[i].scaled((e / 2) as i64), c[i], 2);
        Rat::lemma_closed(c[i].scaled((e / 2) as i64).scaled(2), c[i], 0);
    }
}

/// The points that stand for valid roots are valid.
pub proof fn lemma_midpoints_valid(roots: Seq<Root<Rat>>)
    requires
        roots_valid(roots),
    ensures
        all_valid(midpoints(roots)),
        all_valid(split_points(roots)),
        split_points(roots).len() >= 1,
{
    Rat::lemma_identities();
    let m = midpoints(roots);
    assert forall|i: int| 0 <= i < m.len() implies (#[trigger] m[i]).valid() by {
        assert(root_valid(roots[i]));
        match roots[i] {
            Root::Point(x) => {},
            Root::Interval(a, b) => {
                Rat::lemma_closed(a, b, 0);
                Rat::lemma_closed(a.sum(b), Rat::of_int(2), 2);
            },
        }
    }
    if roots.len() > 0 {
        assert(split_points(roots) =~= m);
    }
}

/// Whether the real roots of the polynomial with the coefficients `c` are
/// found without overflow in the points at which it is looked at: the
/// points that stand for the roots of the derivative and for the roots
/// themselves, the ends of the brackets towards infinity, and the middles
/// of the intervals that bisection goes through.
pub open spec fn isolate_fits(c: Seq<Rat>, tol: Rat) -> bool
    decreases c.len(),
{
    if c.len() <= 2 {
        true
    } else {
        let roots = isolate(derived(c), tol);
        let points = split_points(roots);
        &&& isolate_fits(derived(c), tol)
        &&& all_approx_fit(roots)
        &&& left_gap_fits(c, points[0], tol)
        &&& inner_fits(c, points, tol, (points.len() - 1) as nat)
        &&& right_gap_fits(c, points.last(), tol)
        &&& all_approx_fit(isolate(c, tol))
    }
}

/// The real roots come in increasing order: each is a point or an
/// interval with its lower end below its upper end, and the point that
/// stands for it lies below the points that stand for all later roots.
/// This holds while the points at which the polynomial is looked at are
/// computed without overflow.
pub proof fn lemma_roots_increasing(c: Seq<Rat>, tol: Rat)
    requires
        all_valid(c),
        tol.wf(),
        isolate_fits(c, tol),
    ensures
        roots_valid(isolate(c, tol)),
        increasing(midpoints(isolate(c, tol))),
    decreases c.len(),
{
    Rat::lemma_identities();
    let result = isolate(c, tol);
    if c.len() <= 1 {
    } else if c.len() == 2 {
        if !c[0].is_zero_spec() {
            assert(c[0].valid() && c[1].valid());
            Rat::lemma_closed(c[1], c[0], -1i64);
            Rat::lemma_closed(c[1].scaled(-1i64), c[0], 0);
        }
    } else {
        let dc = derived(c);
        lemma_derived_valid(c);
        lemma_roots_increasing(dc, tol);
        let roots = isolate(dc, tol);
        let points = split_points(roots);
        lemma_midpoints_valid(roots);
        let k = (points.len() - 1) as nat;
        assert(increasing(points)) by {
            if roots.len() > 0 {
                assert(points =~= midpoints(roots));
            }
        }
        let first = points[0];
        let last = points[k as int];
        assert(points.last() == last);
        assert(first.valid() && last.valid());
        let left = left_gap(c, first, tol);
        let inner = inner_gaps(c, points, tol, k);
        let right = right_gap(c, last, tol);
        assert(result == left + inner + right);
        lemma_left_gap_bounds(c, first, tol);
        lemma_right_gap_bounds(c, last, tol);
        assert(all_approx_fit(left) && all_approx_fit(inner) && all_approx_fit(right)) by {
            assert forall|i: int| 0 <= i < left.len() implies approx_fits(#[trigger] left[i]) by {
                assert(result[i] == left[i]);
            }
            assert forall|i: int| 0 <= i < inner.len() implies approx_fits(#[trigger] inner[i]) by {
                assert(result[left.len() + i] == inner[i]);
            }
            assert forall|i: int| 0 <= i < right.len() implies approx_fits(#[trigger] right[i]) by {
                assert(result[left.len() + inner.len() + i] == right[i]);
            }
        }
        lemma_inner_bounds(c, points, tol, k);
        lemma_increasing_concat(left, inner, first);
        let both = left + inner;
        lemma_order_transitive(first@, first@, last@);
        if k > 0 {
            assert(precedes(first@, last@));
        }
        assert(all_below(both, last)) by {
            assert forall|i: int| 0 <= i < both.len() implies lies_below(#[trigger] both[i], last) by {
                if i < left.len() {
                    assert(both[i] == left[i]);
                    lemma_bounds_weaken(left[i], first, last);
                } else {
                    assert(both[i] == inner[i - left.len()]);
                }
            }
        }
        lemma_increasing_concat(both, right, last);
    }
}

} // verus!
