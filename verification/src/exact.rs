//! Exact arithmetic on fractions of unbounded integers: what the
//! arithmetic of `Rat` computes while nothing overflows, and the laws that
//! it obeys.

use vstd::prelude::*;
use crate::numeric::lemma_lowest_terms_unique;
use crate::rational::{
    combine,
    combine_fits,
    lemma_combine_exact,
    lemma_multiply_exact,
    lemma_reduce,
    multiply,
    multiply_fits,
    reduce,
    Frac,
};

verus! {

/// Zero as a fraction.
pub open spec fn zero() -> Frac {
    Frac { num: 0, den: 1 }
}

/// Whether two fractions have the same value.
pub open spec fn same(x: Frac, y: Frac) -> bool {
    x.num * y.den == y.num * x.den
}

/// `x + s * y`, not reduced.
pub open spec fn raw_sum(x: Frac, y: Frac, s: int) -> Frac {
    Frac { num: x.num * y.den + s * (y.num * x.den), den: x.den * y.den }
}

/// `x * y`, not reduced.
pub open spec fn raw_product(x: Frac, y: Frac) -> Frac {
    Frac { num: x.num * y.num, den: x.den * y.den }
}

/// The fraction in lowest terms.
pub open spec fn lowest_of(x: Frac) -> Frac {
    reduce(x.num, x.den)
}

/// `x + s * y` in lowest terms.
pub open spec fn exact_sum(x: Frac, y: Frac, s: int) -> Frac {
    lowest_of(raw_sum(x, y, s))
}

/// `x * y` in lowest terms.
pub open spec fn exact_product(x: Frac, y: Frac) -> Frac {
    lowest_of(raw_product(x, y))
}

proof fn ring_products(a: int, b: int, c: int, d: int)
    ensures
        (a * b) * c == (a * c) * b,
        (a * b) * c == a * (b * c),
        a * b == b * a,
        (a * b) * (c * d) == (a * c) * (b * d),
        (a * b) * (c * d) == (a * d) * (b * c),
{
    broadcast use vstd::arithmetic::mul::group_mul_properties;

}

/// The product of positive numbers is positive.
pub proof fn lemma_positive(x: int, y: int)
    requires
        x > 0,
        y > 0,
    ensures
        x * y > 0,
{
    assert(x * y > 0) by (nonlinear_arith)
        requires
            x > 0,
            y > 0,
    ;
}

/// Having the same value is transitive.
pub proof fn lemma_same_transitive(x: Frac, y: Frac, z: Frac)
    requires
        y.den > 0,
        same(x, y),
        same(y, z),
    ensures
        same(x, z),
{
    ring_products(x.num, z.den, y.den, 1);
    ring_products(x.num, y.den, z.den, 1);
    ring_products(y.num, x.den, z.den, 1);
    ring_products(y.num, z.den, x.den, 1);
    ring_products(z.num, y.den, x.den, 1);
    ring_products(z.num, x.den, y.den, 1);
    assert((x.num * z.den) * y.den == (z.num * x.den) * y.den);
    assert(x.num * z.den == z.num * x.den) by (nonlinear_arith)
        requires
            (x.num * z.den) * y.den == (z.num * x.den) * y.den,
            y.den > 0,
    ;
}

/// Having the same value is symmetric.
pub proof fn lemma_same_symmetric(x: Frac, y: Frac)
    requires
        same(x, y),
    ensures
        same(y, x),
{
}

/// The fraction in lowest terms is in lowest terms and has the same value.
pub proof fn lemma_lowest_of(x: Frac)
    requires
        x.den > 0,
    ensures
        lowest_of(x).lowest(),
        same(lowest_of(x), x),
        x.num == 0 ==> lowest_of(x) == zero(),
        x.num != 0 ==> lowest_of(x).num != 0,
        x.lowest() ==> lowest_of(x) == x,
{
    lemma_reduce(x.num, x.den);
    let r = lowest_of(x);
    if x.num != 0 {
        assert(r.num != 0) by (nonlinear_arith)
            requires
                r.num * x.den == x.num * r.den,
                x.num != 0,
                r.den > 0,
        ;
    }
    if x.lowest() {
        lemma_lowest_terms_unique(r.num, r.den, x.num, x.den);
    }
}

/// Fractions in lowest terms of the same value are the same.
pub proof fn lemma_same_lowest(x: Frac, y: Frac)
    requires
        x.lowest(),
        y.lowest(),
        same(x, y),
    ensures
        x == y,
{
    lemma_lowest_terms_unique(x.num, x.den, y.num, y.den);
}

/// Fractions of the same value are the same in lowest terms.
pub proof fn lemma_lowest_equal(x: Frac, y: Frac)
    requires
        x.den > 0,
        y.den > 0,
        same(x, y),
    ensures
        lowest_of(x) == lowest_of(y),
{
    lemma_lowest_of(x);
    lemma_lowest_of(y);
    lemma_same_transitive(lowest_of(x), x, y);
    lemma_same_symmetric(lowest_of(y), y);
    lemma_same_transitive(lowest_of(x), y, lowest_of(y));
    lemma_same_lowest(lowest_of(x), lowest_of(y));
}

proof fn ring_sum_congruent(
    xn: int,
    xd: int,
    yn: int,
    yd: int,
    an: int,
    ad: int,
    bn: int,
    bd: int,
    s: int,
)
    ensures
        (xn * yd + s * (yn * xd)) * (ad * bd) == (xn * ad) * (yd * bd) + s * ((yn * bd) * (xd * ad)),
        (an * bd + s * (bn * ad)) * (xd * yd) == (an * xd) * (yd * bd) + s * ((bn * yd) * (xd * ad)),
{
    broadcast use vstd::arithmetic::mul::group_mul_properties;

}

/// Sums of fractions of the same values have the same value.
pub proof fn lemma_sum_congruent(x: Frac, y: Frac, a: Frac, b: Frac, s: int)
    requires
        same(x, a),
        same(y, b),
    ensures
        same(raw_sum(x, y, s), raw_sum(a, b, s)),
{
    ring_sum_congruent(x.num, x.den, y.num, y.den, a.num, a.den, b.num, b.den, s);
}

/// Products of fractions of the same values have the same value.
pub proof fn lemma_product_congruent(x: Frac, y: Frac, a: Frac, b: Frac)
    requires
        same(x, a),
        same(y, b),
    ensures
        same(raw_product(x, y), raw_product(a, b)),
{
    ring_products(x.num, y.num, a.den, b.den);
    ring_products(a.num, b.num, x.den, y.den);
    ring_products(x.num, a.den, y.num, b.den);
    ring_products(a.num, x.den, b.num, y.den);
}

/// The sum of exact values is the exact value of the sum of any fractions
/// of those values.
pub proof fn lemma_exact_sum_of(x: Frac, y: Frac, a: Frac, b: Frac, s: int)
    requires
        x.den > 0,
        y.den > 0,
        a.den > 0,
        b.den > 0,
        same(x, a),
        same(y, b),
    ensures
        exact_sum(x, y, s) == lowest_of(raw_sum(a, b, s)),
{
    lemma_sum_congruent(x, y, a, b, s);
    lemma_positive(x.den, y.den);
    lemma_positive(a.den, b.den);
    lemma_lowest_equal(raw_sum(x, y, s), raw_sum(a, b, s));
}

/// The product of exact values is the exact value of the product of any
/// fractions of those values.
pub proof fn lemma_exact_product_of(x: Frac, y: Frac, a: Frac, b: Frac)
    requires
        x.den > 0,
        y.den > 0,
        a.den > 0,
        b.den > 0,
        same(x, a),
        same(y, b),
    ensures
        exact_product(x, y) == lowest_of(raw_product(a, b)),
{
    lemma_product_congruent(x, y, a, b);
    lemma_positive(x.den, y.den);
    lemma_positive(a.den, b.den);
    lemma_lowest_equal(raw_product(x, y), raw_product(a, b));
}

/// Adding or subtracting zero changes nothing, and zero plus a number is
/// the number.
pub proof fn lemma_exact_sum_zero(x: Frac, s: int)
    requires
        x.lowest(),
    ensures
        exact_sum(x, zero(), s) == x,
        exact_sum(zero(), x, 1) == x,
{
    lemma_lowest_of(x);
    assert(raw_sum(x, zero(), s) == x) by (nonlinear_arith)
        requires
            raw_sum(x, zero(), s) == (Frac {
                num: x.num * 1 + s * (0 * x.den),
                den: x.den * 1,
            }),
    ;
    assert(raw_sum(zero(), x, 1) == x) by (nonlinear_arith)
        requires
            raw_sum(zero(), x, 1) == (Frac { num: 0 * x.den + 1 * (x.num * 1), den: 1 * x.den }),
    ;
}

/// The exact sum does not depend on the order of its terms.
pub proof fn lemma_exact_sum_commutes(x: Frac, y: Frac)
    ensures
        exact_sum(x, y, 1) == exact_sum(y, x, 1),
{
    ring_products(x.den, y.den, 1, 1);
    assert(raw_sum(x, y, 1) == raw_sum(y, x, 1));
}

proof fn ring_sum_associates(xn: int, xd: int, yn: int, yd: int, zn: int, zd: int)
    ensures
        (xn * yd + 1 * (yn * xd)) * zd + 1 * (zn * (xd * yd)) == xn * (yd * zd) + 1 * ((yn * zd + 1
            * (zn * yd)) * xd),
        (xd * yd) * zd == xd * (yd * zd),
{
    broadcast use vstd::arithmetic::mul::group_mul_properties;

}

/// The exact sum does not depend on how three terms are grouped.
pub proof fn lemma_exact_sum_associates(x: Frac, y: Frac, z: Frac)
    requires
        x.den > 0,
        y.den > 0,
        z.den > 0,
    ensures
        exact_sum(exact_sum(x, y, 1), z, 1) == exact_sum(x, exact_sum(y, z, 1), 1),
{
    let xy = raw_sum(x, y, 1);
    let yz = raw_sum(y, z, 1);
    lemma_positive(x.den, y.den);
    lemma_positive(y.den, z.den);
    lemma_lowest_of(xy);
    lemma_lowest_of(yz);
    lemma_exact_sum_of(lowest_of(xy), z, xy, z, 1);
    lemma_same_symmetric(x, x);
    lemma_exact_sum_of(x, lowest_of(yz), x, yz, 1);
    ring_sum_associates(x.num, x.den, y.num, y.den, z.num, z.den);
    assert(raw_sum(xy, z, 1) == raw_sum(x, yz, 1));
}

proof fn ring_product_distributes(cn: int, cd: int, xn: int, xd: int, yn: int, yd: int)
    ensures
        (cn * (xn * yd + 1 * (yn * xd))) * ((cd * xd) * (cd * yd)) == ((cn * xn) * (cd * yd) + 1 * ((cn
            * yn) * (cd * xd))) * (cd * (xd * yd)),
{
    broadcast use vstd::arithmetic::mul::group_mul_properties;

}

/// The exact product distributes over the exact sum.
pub proof fn lemma_exact_product_distributes(c: Frac, x: Frac, y: Frac)
    requires
        c.den > 0,
        x.den > 0,
        y.den > 0,
    ensures
        exact_product(c, exact_sum(x, y, 1)) == exact_sum(
            exact_product(c, x),
            exact_product(c, y),
            1,
        ),
{
    let xy = raw_sum(x, y, 1);
    let cx = raw_product(c, x);
    let cy = raw_product(c, y);
    lemma_positive(x.den, y.den);
    lemma_positive(c.den, x.den);
    lemma_positive(c.den, y.den);
    lemma_positive(c.den, x.den * y.den);
    lemma_positive(c.den * x.den, c.den * y.den);
    lemma_lowest_of(xy);
    lemma_lowest_of(cx);
    lemma_lowest_of(cy);
    lemma_exact_product_of(c, lowest_of(xy), c, xy);
    lemma_exact_sum_of(lowest_of(cx), lowest_of(cy), cx, cy, 1);
    ring_product_distributes(c.num, c.den, x.num, x.den, y.num, y.den);
    assert(same(raw_product(c, xy), raw_sum(cx, cy, 1)));
    lemma_lowest_equal(raw_product(c, xy), raw_sum(cx, cy, 1));
}

proof fn ring_distribute(a: int, b: int, c: int)
    ensures
        (a + b) * c == a * c + b * c,
        (a - b) * c == a * c - b * c,
        a * (b * c) == (a * b) * c,
{
    assert((a + b) * c == a * c + b * c) by (nonlinear_arith);
    assert((a - b) * c == a * c - b * c) by (nonlinear_arith);
    assert(a * (b * c) == (a * b) * c) by (nonlinear_arith);
}

proof fn ring_cancel(an: int, ad: int, sn: int, sd: int, tn: int, td: int)
    ensures
        ((an * sd + (-1) * (sn * ad)) * (td * sd) + 1 * ((tn * sd + 1 * (sn * td)) * (ad * sd))) * (
        ad * td) == (an * td + 1 * (tn * ad)) * ((ad * sd) * (td * sd)),
{
    let x = an * td + tn * ad;
    let ss = sd * sd;
    ring_distribute(an * sd, sn * ad, td * sd);
    ring_distribute(tn * sd, sn * td, ad * sd);
    ring_products(sn, ad, td, sd);
    ring_products(an, sd, td, sd);
    ring_products(tn, sd, ad, sd);
    ring_distribute(an * td, tn * ad, ss);
    let left = (an * sd - sn * ad) * (td * sd) + (tn * sd + sn * td) * (ad * sd);
    assert((sn * ad) * (td * sd) == (sn * td) * (ad * sd));
    assert((an * sd) * (td * sd) == (an * td) * ss);
    assert((tn * sd) * (ad * sd) == (tn * ad) * ss);
    assert(left == x * ss);
    ring_products(ad, sd, td, sd);
    assert((ad * sd) * (td * sd) == (ad * td) * ss);
    ring_products(ad * td, ss, 1, 1);
    ring_distribute(x, ss, ad * td);
    assert((x * ss) * (ad * td) == x * (ss * (ad * td)));
    assert(an * sd + (-1) * (sn * ad) == an * sd - sn * ad);
}

/// What is taken off one term and added to another does not change their
/// sum: `(a - s) + (t + s) = a + t`.
pub proof fn lemma_exact_cancel(a: Frac, s: Frac, t: Frac)
    requires
        a.den > 0,
        s.den > 0,
        t.den > 0,
    ensures
        exact_sum(exact_sum(a, s, -1), exact_sum(t, s, 1), 1) == exact_sum(a, t, 1),
{
    let left = raw_sum(a, s, -1);
    let right = raw_sum(t, s, 1);
    lemma_positive(a.den, s.den);
    lemma_positive(t.den, s.den);
    lemma_positive(a.den, t.den);
    lemma_positive(a.den * s.den, t.den * s.den);
    lemma_lowest_of(left);
    lemma_lowest_of(right);
    lemma_exact_sum_of(lowest_of(left), lowest_of(right), left, right, 1);
    ring_cancel(a.num, a.den, s.num, s.den, t.num, t.den);
    assert(same(raw_sum(left, right, 1), raw_sum(a, t, 1)));
    lemma_lowest_equal(raw_sum(left, right, 1), raw_sum(a, t, 1));
}

/// While nothing overflows, the sum or difference that `Rat` computes is
/// the exact one.
pub proof fn lemma_combine_is_exact(a: Frac, b: Frac, s: int)
    requires
        a.den >= 1,
        b.den >= 1,
        s == 1 || s == -1,
        combine_fits(a, b, s),
    ensures
        combine(a, b, s) == exact_sum(a, b, s),
{
    lemma_combine_exact(a, b, s);
    lemma_positive(a.den, b.den);
    lemma_lowest_of(raw_sum(a, b, s));
    let c = combine(a, b, s);
    let r = raw_sum(a, b, s);
    assert(same(c, r));
    lemma_same_symmetric(lowest_of(r), r);
    lemma_same_transitive(c, r, lowest_of(r));
    lemma_same_lowest(c, lowest_of(r));
}

/// While nothing overflows, the product that `Rat` computes is the exact one.
pub proof fn lemma_multiply_is_exact(a: Frac, b: Frac)
    requires
        a.den >= 1,
        b.den >= 1,
        multiply_fits(a, b),
    ensures
        multiply(a, b) == exact_product(a, b),
{
    lemma_multiply_exact(a, b);
    lemma_positive(a.den, b.den);
    lemma_lowest_of(raw_product(a, b));
    let c = multiply(a, b);
    let r = raw_product(a, b);
    assert(same(c, r));
    lemma_same_symmetric(lowest_of(r), r);
    lemma_same_transitive(c, r, lowest_of(r));
    lemma_same_lowest(c, lowest_of(r));
}


/// The exact product does not depend on the order of its factors.
pub proof fn lemma_exact_product_commutes(x: Frac, y: Frac)
    ensures
        exact_product(x, y) == exact_product(y, x),
{
    ring_products(x.num, y.num, 1, 1);
    ring_products(x.den, y.den, 1, 1);
    assert(raw_product(x, y) == raw_product(y, x));
}

/// `t + (r + x) = (x + t) + r`.
pub proof fn lemma_exact_rotate(t: Frac, r: Frac, x: Frac)
    requires
        t.den > 0,
        r.den > 0,
        x.den > 0,
    ensures
        exact_sum(t, exact_sum(r, x, 1), 1) == exact_sum(exact_sum(x, t, 1), r, 1),
{
    lemma_exact_sum_associates(x, t, r);
    lemma_exact_sum_commutes(x, exact_sum(t, r, 1));
    lemma_exact_sum_associates(t, r, x);
}

/// `(a + q) + p = (a + p) + q`.
pub proof fn lemma_exact_swap(a: Frac, q: Frac, p: Frac)
    requires
        a.den > 0,
        q.den > 0,
        p.den > 0,
    ensures
        exact_sum(exact_sum(a, q, 1), p, 1) == exact_sum(exact_sum(a, p, 1), q, 1),
{
    lemma_exact_sum_associates(a, q, p);
    lemma_exact_sum_commutes(q, p);
    lemma_exact_sum_associates(a, p, q);
}

/// The exact sum and the exact product of fractions with positive
/// denominators are in lowest terms.
pub proof fn lemma_exact_lowest(x: Frac, y: Frac, s: int)
    requires
        x.den > 0,
        y.den > 0,
    ensures
        exact_sum(x, y, s).lowest(),
        exact_product(x, y).lowest(),
        x.num == 0 || y.num == 0 ==> exact_product(x, y) == zero(),
{
    lemma_positive(x.den, y.den);
    lemma_lowest_of(raw_sum(x, y, s));
    lemma_lowest_of(raw_product(x, y));
    if x.num == 0 || y.num == 0 {
        assert(x.num * y.num == 0) by (nonlinear_arith)
            requires
                x.num == 0 || y.num == 0,
        ;
    }
}

} // verus!
