//! Rational numbers held as a pair of 64-bit integers in lowest terms.
//!
//! Arithmetic is exact as long as the intermediate values fit in 64 bits.
//! When one does not, an operand is replaced by a nearby fraction with half
//! the numerator and half the denominator and the operation starts over, so
//! that every operation returns a value in lowest terms.

use vstd::prelude::*;
use vstd::string::StringExecFns;
use crate::field::{Field, One, Zero};
use crate::numeric::{
    abs,
    gcd_nat,
    gcd_wide,
    lemma_exact,
    lemma_gcd_bound,
    lemma_gcd_cancel,
    lemma_gcd_divides,
    lemma_gcd_units,
    lemma_multiple,
    magnitude,
};

verus! {

/// A fraction of unbounded integers: what a `Rat` denotes, and the operands
/// of the arithmetic while precision is being shed.
pub struct Frac {
    pub num: int,
    pub den: int,
}

/// A rational number. Valid when the denominator is positive and the
/// fraction is in lowest terms, so that zero is `0 / 1`.
#[derive(Clone, Copy, Debug, PartialEq, Eq, Structural)]
pub struct Rat {
    pub num: i64,
    pub den: i64,
}

impl View for Rat {
    type V = Frac;

    open spec fn view(&self) -> Frac {
        Frac { num: self.num as int, den: self.den as int }
    }
}

/// Whether an integer can be held in 64 bits.
pub open spec fn fits(x: int) -> bool {
    i64::MIN <= x <= i64::MAX
}

impl Frac {
    /// Positive denominator, no common factor.
    pub open spec fn lowest(self) -> bool {
        self.den > 0 && gcd_nat(abs(self.num), self.den as nat) == 1
    }

    /// Whether the fraction has the value `n / d`.
    pub open spec fn same_value(self, n: int, d: int) -> bool {
        self.num * d == n * self.den
    }

    /// Both parts shifted right by one bit, rounding down.
    pub open spec fn halved(self) -> Frac {
        Frac { num: self.num / 2, den: self.den / 2 }
    }

    /// The reciprocal of a non-zero fraction, with a positive denominator.
    pub open spec fn inverse(self) -> Frac {
        if self.num < 0 {
            Frac { num: -self.den, den: -self.num }
        } else {
            Frac { num: self.den, den: self.num }
        }
    }
}

/// `n / d` in lowest terms, for positive `d`.
pub open spec fn reduce(n: int, d: int) -> Frac {
    let g = gcd_nat(abs(n), abs(d)) as int;
    Frac { num: n / g, den: d / g }
}

/// The 64-bit integer nearest to `n`, as a fraction.
pub open spec fn clamp(n: int) -> Frac {
    Frac {
        num: if n > i64::MAX {
            i64::MAX as int
        } else if n < i64::MIN {
            i64::MIN as int
        } else {
            n
        },
        den: 1,
    }
}

/// The numerator of `a + s * b` over the least common denominator, while the
/// left term, the right term, their combination and the denominator are all
/// within 64 bits.
pub open spec fn combine_fits(a: Frac, b: Frac, s: int) -> bool {
    let g = gcd_nat(a.den as nat, b.den as nat) as int;
    let l = (b.den / g) * a.num;
    let r = (a.den / g) * b.num;
    fits(l) && fits(r) && fits(l + s * r) && fits((a.den / g) * b.den)
}

/// `a + s * b` for `s` of `1` or `-1`.
///
/// The terms are brought over the least common denominator. If a term, the
/// numerator or the denominator leaves 64 bits, one operand is halved and the
/// computation starts over: the left operand if its term overflowed, the
/// right one if its term did, else the one with the larger numerator in
/// magnitude if the numerator overflowed, else the one with the larger
/// denominator. An operand whose denominator is already one is never halved;
/// the other one is halved in its place. Two integers whose combination
/// leaves 64 bits give the nearest 64-bit integer.
pub open spec fn combine(a: Frac, b: Frac, s: int) -> Frac
    decreases a.den + b.den,
{
    if a.den < 1 || b.den < 1 {
        a
    } else {
        let g = gcd_nat(a.den as nat, b.den as nat) as int;
        let l = (b.den / g) * a.num;
        let r = (a.den / g) * b.num;
        let n = l + s * r;
        let d = (a.den / g) * b.den;
        if fits(l) && fits(r) && fits(n) && fits(d) {
            reduce(n, d)
        } else if a.den < 2 && b.den < 2 {
            clamp(n)
        } else {
            let left = if !fits(l) {
                true
            } else if !fits(r) {
                false
            } else if !fits(n) {
                abs(a.num) > abs(b.num)
            } else {
                a.den > b.den
            };
            if (left && a.den >= 2) || b.den < 2 {
                combine(a.halved(), b, s)
            } else {
                combine(a, b.halved(), s)
            }
        }
    }
}

/// Whether the product of `a` and `b`, after cancelling across, has a
/// numerator and a denominator within 64 bits.
pub open spec fn multiply_fits(a: Frac, b: Frac) -> bool {
    let g1 = gcd_nat(abs(a.num), b.den as nat) as int;
    let g2 = gcd_nat(abs(b.num), a.den as nat) as int;
    fits((a.num / g1) * (b.num / g2)) && fits((a.den / g2) * (b.den / g1))
}

/// `a * b`.
///
/// Each numerator is first cancelled against the other denominator. If the
/// product of the numerators or of the denominators then leaves 64 bits, the
/// operand with the larger numerator in magnitude is halved (the right one on
/// a tie) and the computation starts over. An operand whose denominator is
/// already one is never halved; the other one is halved in its place. Two
/// integers whose product leaves 64 bits give the nearest 64-bit integer.
pub open spec fn multiply(a: Frac, b: Frac) -> Frac
    decreases a.den + b.den,
{
    if a.den < 1 || b.den < 1 {
        a
    } else {
        let g1 = gcd_nat(abs(a.num), b.den as nat) as int;
        let g2 = gcd_nat(abs(b.num), a.den as nat) as int;
        let n = (a.num / g1) * (b.num / g2);
        let d = (a.den / g2) * (b.den / g1);
        if fits(n) && fits(d) {
            reduce(n, d)
        } else if a.den < 2 && b.den < 2 {
            clamp(n)
        } else if (abs(a.num) > abs(b.num) && a.den >= 2) || b.den < 2 {
            multiply(a.halved(), b)
        } else {
            multiply(a, b.halved())
        }
    }
}

/// `a < b` for fractions with positive denominators.
pub open spec fn precedes(a: Frac, b: Frac) -> bool {
    a.num * b.den < b.num * a.den
}

/// Reducing a fraction with a positive denominator gives a fraction in
/// lowest terms of the same value, whose parts are no larger in magnitude.
pub proof fn lemma_reduce(n: int, d: int)
    requires
        d > 0,
    ensures
        reduce(n, d).lowest(),
        reduce(n, d).same_value(n, d),
        abs(reduce(n, d).num) <= abs(n),
        reduce(n, d).den <= d,
        n == 0 ==> reduce(n, d) == (Frac { num: 0, den: 1 }),
        n >= 0 ==> 0 <= reduce(n, d).num <= n,
        n <= 0 ==> n <= reduce(n, d).num <= 0,
        reduce(n, d).num == if n < 0 {
            -(abs(n) as int / (gcd_nat(abs(n), d as nat) as int))
        } else {
            abs(n) as int / (gcd_nat(abs(n), d as nat) as int)
        },
{
    let m = abs(n);
    let g = gcd_nat(m, d as nat) as int;
    lemma_gcd_divides(m, d as nat);
    lemma_gcd_cancel(m, d as nat);
    lemma_gcd_bound(m, d as nat);
    lemma_exact(m as int, g);
    lemma_exact(d, g);
    let qm = (m as int) / g;
    let qd = d / g;
    if n < 0 {
        assert(n == (-qm) * g) by (nonlinear_arith)
            requires
                m as int == qm * g,
                n == -(m as int),
        ;
        lemma_multiple(-qm, g);
        assert(n / g == -qm);
    } else {
        assert(n / g == qm);
    }
    assert(abs(n / g) == qm);
    assert(qd > 0) by (nonlinear_arith)
        requires
            d == qd * g,
            d > 0,
            g > 0,
    ;
    assert((n / g) * d == n * qd) by (nonlinear_arith)
        requires
            d == qd * g,
            n == (n / g) * g,
    ;
    assert(qm <= m) by (nonlinear_arith)
        requires
            m as int == qm * g,
            g > 0,
            qm >= 0,
    ;
    assert(qd <= d) by (nonlinear_arith)
        requires
            d == qd * g,
            g > 0,
            qd > 0,
    ;
    if n == 0 {
        lemma_gcd_units(0, d as nat);
        lemma_multiple(1, d);
        lemma_multiple(0, d);
    }
}

/// `n / d` in lowest terms, for parts that fit in 64 bits.
fn lowest_terms(n: i128, d: i128) -> (r: Rat)
    requires
        fits(n as int),
        fits(d as int),
        d >= 1,
    ensures
        r@ == reduce(n as int, d as int),
        r@.lowest(),
{
    proof {
        lemma_reduce(n as int, d as int);
        lemma_gcd_divides(abs(n as int), d as nat);
    }
    let m: i128 = if n < 0 { -n } else { n };
    let g: i128 = gcd_wide(m, d);
    let q: i128 = m / g;
    let num: i128 = if n < 0 { -q } else { q };
    let den: i128 = d / g;
    Rat { num: num as i64, den: den as i64 }
}

/// The wide integer nearest to `x / 2` from below.
fn half(x: i128) -> (r: i128)
    requires
        -0x8000_0000_0000_0000 <= x <= 0x8000_0000_0000_0000,
    ensures
        r == x / 2,
{
    if x >= 0 {
        x / 2
    } else {
        -((-(x + 1)) / 2) - 1
    }
}

/// Whether a wide integer is outside 64 bits.
fn overflows(x: i128) -> (b: bool)
    ensures
        b == !fits(x as int),
{
    x < -0x8000_0000_0000_0000 || x > 0x7fff_ffff_ffff_ffff
}

/// The 64-bit integer nearest to `n`.
fn saturate(n: i128) -> (r: Rat)
    ensures
        r@ == clamp(n as int),
        r@.lowest(),
{
    proof {
        lemma_gcd_units(abs(clamp(n as int).num), 0);
    }
    if n > 0x7fff_ffff_ffff_ffff {
        Rat { num: i64::MAX, den: 1 }
    } else if n < -0x8000_0000_0000_0000 {
        Rat { num: i64::MIN, den: 1 }
    } else {
        Rat { num: n as i64, den: 1 }
    }
}

/// The product of two wide integers of at most 64 bits of magnitude.
fn wide_product(x: i128, y: i128) -> (p: i128)
    requires
        -0x8000_0000_0000_0000 <= x <= 0x8000_0000_0000_0000,
        -0x8000_0000_0000_0000 <= y <= 0x8000_0000_0000_0000,
    ensures
        p == x * y,
{
    assert(-0x4000_0000_0000_0000_0000_0000_0000_0000 <= x * y
        <= 0x4000_0000_0000_0000_0000_0000_0000_0000) by (nonlinear_arith)
        requires
            -0x8000_0000_0000_0000 <= x <= 0x8000_0000_0000_0000,
            -0x8000_0000_0000_0000 <= y <= 0x8000_0000_0000_0000,
    ;
    x * y
}

/// A quotient by a positive divisor is no larger in magnitude than the dividend.
proof fn lemma_quotient_bound(x: int, g: int, bound: int)
    requires
        g > 0,
        -bound <= x <= bound,
    ensures
        -bound <= x / g <= bound,
{
    vstd::arithmetic::div_mod::lemma_fundamental_div_mod(x, g);
    vstd::arithmetic::div_mod::lemma_mod_bound(x, g);
    let q = x / g;
    let r = x % g;
    assert(-bound <= q <= bound) by (nonlinear_arith)
        requires
            x == g * q + r,
            0 <= r < g,
            -bound <= x <= bound,
            g > 0,
    ;
}

/// A positive multiple of a positive number has a positive quotient by it.
proof fn lemma_positive_quotient(x: int, g: int)
    requires
        g > 0,
        x > 0,
        x % g == 0,
    ensures
        x / g >= 1,
{
    lemma_exact(x, g);
    let q = x / g;
    assert(q >= 1) by (nonlinear_arith)
        requires
            x == q * g,
            x > 0,
            g > 0,
    ;
}

/// `a + b`, or `a - b` when `negate` is set, for fractions with positive
/// denominators.
fn combine_exec(a: Rat, b: Rat, negate: bool) -> (r: Rat)
    requires
        a.den >= 1,
        b.den >= 1,
    ensures
        r@ == combine(a@, b@, if negate { -1int } else { 1int }),
        r@.lowest(),
{
    let ghost s: int = if negate { -1 } else { 1 };
    let mut an: i128 = a.num as i128;
    let mut ad: i128 = a.den as i128;
    let mut bn: i128 = b.num as i128;
    let mut bd: i128 = b.den as i128;
    loop
        invariant
            s == if negate { -1int } else { 1int },
            fits(an as int),
            fits(bn as int),
            1 <= ad <= i64::MAX,
            1 <= bd <= i64::MAX,
            combine(Frac { num: an as int, den: ad as int }, Frac { num: bn as int, den: bd as int }, s)
                == combine(a@, b@, s),
        decreases ad + bd,
    {
        let ghost fa = Frac { num: an as int, den: ad as int };
        let ghost fb = Frac { num: bn as int, den: bd as int };
        let g: i128 = gcd_wide(ad, bd);
        proof {
            lemma_gcd_divides(ad as nat, bd as nat);
            lemma_quotient_bound(ad as int, g as int, 0x8000_0000_0000_0000);
            lemma_quotient_bound(bd as int, g as int, 0x8000_0000_0000_0000);
            lemma_positive_quotient(ad as int, g as int);
            lemma_positive_quotient(bd as int, g as int);
        }
        let l: i128 = wide_product(bd / g, an);
        let r: i128 = wide_product(ad / g, bn);
        let d: i128 = wide_product(ad / g, bd);
        let left: bool;
        if overflows(l) {
            left = true;
        } else if overflows(r) {
            left = false;
        } else {
            let n: i128 = if negate { l - r } else { l + r };
            assert(n == l + s * r) by (nonlinear_arith)
                requires
                    n == if negate { l - r } else { l + r },
                    s == if negate { -1int } else { 1int },
            ;
            if overflows(n) {
                if ad < 2 && bd < 2 {
                    return saturate(n);
                }
                left = magnitude_wide(an) > magnitude_wide(bn);
            } else if overflows(d) {
                left = ad > bd;
            } else {
                proof {
                    assert(d >= 1) by (nonlinear_arith)
                        requires
                            d == (ad / g) * bd,
                            ad / g >= 1,
                            bd >= 1,
                    ;
                }
                return lowest_terms(n, d);
            }
        }
        assert(!(ad < 2 && bd < 2)) by {
            if ad < 2 && bd < 2 {
                lemma_gcd_units(1, 1);
                assert(g == 1);
                assert(l == an) by (nonlinear_arith)
                    requires
                        l == (bd / g) * an,
                        bd / g == 1,
                ;
                assert(r == bn) by (nonlinear_arith)
                    requires
                        r == (ad / g) * bn,
                        ad / g == 1,
                ;
                assert(d == 1) by (nonlinear_arith)
                    requires
                        d == (ad / g) * bd,
                        ad / g == 1,
                        bd == 1,
                ;
            }
        }
        if (left && ad >= 2) || bd < 2 {
            assert(combine(fa, fb, s) == combine(fa.halved(), fb, s));
            an = half(an);
            ad = half(ad);
        } else {
            assert(combine(fa, fb, s) == combine(fa, fb.halved(), s));
            bn = half(bn);
            bd = half(bd);
        }
    }
}

/// Magnitude of a wide integer of at most 64 bits of magnitude.
fn magnitude_wide(x: i128) -> (m: i128)
    requires
        -0x8000_0000_0000_0000 <= x <= 0x8000_0000_0000_0000,
    ensures
        m == abs(x as int),
{
    if x < 0 {
        -x
    } else {
        x
    }
}

/// The product of two fractions with positive denominators whose parts have
/// at most 64 bits of magnitude.
fn multiply_exec(an0: i128, ad0: i128, bn0: i128, bd0: i128) -> (r: Rat)
    requires
        -0x8000_0000_0000_0000 <= an0 <= 0x8000_0000_0000_0000,
        -0x8000_0000_0000_0000 <= bn0 <= 0x8000_0000_0000_0000,
        1 <= ad0 <= 0x8000_0000_0000_0000,
        1 <= bd0 <= 0x8000_0000_0000_0000,
    ensures
        r@ == multiply(
            Frac { num: an0 as int, den: ad0 as int },
            Frac { num: bn0 as int, den: bd0 as int },
        ),
        r@.lowest(),
{
    let mut an: i128 = an0;
    let mut ad: i128 = ad0;
    let mut bn: i128 = bn0;
    let mut bd: i128 = bd0;
    loop
        invariant
            -0x8000_0000_0000_0000 <= an <= 0x8000_0000_0000_0000,
            -0x8000_0000_0000_0000 <= bn <= 0x8000_0000_0000_0000,
            1 <= ad <= 0x8000_0000_0000_0000,
            1 <= bd <= 0x8000_0000_0000_0000,
            multiply(Frac { num: an as int, den: ad as int }, Frac { num: bn as int, den: bd as int })
                == multiply(
                Frac { num: an0 as int, den: ad0 as int },
                Frac { num: bn0 as int, den: bd0 as int },
            ),
        decreases ad + bd,
    {
        let ghost fa = Frac { num: an as int, den: ad as int };
        let ghost fb = Frac { num: bn as int, den: bd as int };
        let ma: i128 = magnitude_wide(an);
        let mb: i128 = magnitude_wide(bn);
        let g1: i128 = gcd_wide(ma, bd);
        let g2: i128 = gcd_wide(mb, ad);
        proof {
            lemma_gcd_divides(ma as nat, bd as nat);
            lemma_gcd_divides(mb as nat, ad as nat);
            lemma_quotient_bound(ma as int, g1 as int, 0x8000_0000_0000_0000);
            lemma_quotient_bound(mb as int, g2 as int, 0x8000_0000_0000_0000);
            lemma_quotient_bound(ad as int, g2 as int, 0x8000_0000_0000_0000);
            lemma_quotient_bound(bd as int, g1 as int, 0x8000_0000_0000_0000);
            lemma_signed_quotient(an as int, g1 as int);
            lemma_signed_quotient(bn as int, g2 as int);
            lemma_positive_quotient(ad as int, g2 as int);
            lemma_positive_quotient(bd as int, g1 as int);
        }
        let qa: i128 = if an < 0 { -(ma / g1) } else { ma / g1 };
        let qb: i128 = if bn < 0 { -(mb / g2) } else { mb / g2 };
        let n: i128 = wide_product(qa, qb);
        let d: i128 = wide_product(ad / g2, bd / g1);
        if !overflows(n) && !overflows(d) {
            proof {
                assert(d >= 1) by (nonlinear_arith)
                    requires
                        d == (ad / g2) * (bd / g1),
                        ad / g2 >= 1,
                        bd / g1 >= 1,
                ;
            }
            return lowest_terms(n, d);
        }
        if ad < 2 && bd < 2 {
            return saturate(n);
        }
        if (ma > mb && ad >= 2) || bd < 2 {
            assert(multiply(fa, fb) == multiply(fa.halved(), fb));
            an = half(an);
            ad = half(ad);
        } else {
            assert(multiply(fa, fb) == multiply(fa, fb.halved()));
            bn = half(bn);
            bd = half(bd);
        }
    }
}

/// Dividing by a positive divisor of `x` commutes with taking the magnitude.
proof fn lemma_signed_quotient(x: int, g: int)
    requires
        g > 0,
        (abs(x) as int) % g == 0,
    ensures
        x / g == if x < 0 {
            -((abs(x) as int) / g)
        } else {
            (abs(x) as int) / g
        },
        g <= abs(x) || x == 0,
        x != 0 ==> x / g != 0,
        (abs(x) as int) / g >= 0,
        x == (x / g) * g,
{
    let m = abs(x) as int;
    lemma_exact(m, g);
    let q = m / g;
    if x < 0 {
        assert(x == (-q) * g) by (nonlinear_arith)
            requires
                m == q * g,
                x == -m,
        ;
        lemma_multiple(-q, g);
    }
    assert(x == (x / g) * g) by (nonlinear_arith)
        requires
            m == q * g,
            x / g == if x < 0 { -q } else { q },
            m == if x < 0 { -x } else { x },
    ;
    assert(q >= 0 && (g <= m || x == 0) && (x != 0 ==> q != 0)) by (nonlinear_arith)
        requires
            m == q * g,
            g > 0,
            m >= 0,
            m == 0 <==> x == 0,
    ;
}

/// Whether the parts of a fraction have at most 64 bits of magnitude and its
/// denominator is positive: what the operands of the arithmetic stay within.
pub open spec fn bounded(f: Frac) -> bool {
    &&& -0x8000_0000_0000_0000 <= f.num <= 0x8000_0000_0000_0000
    &&& 1 <= f.den <= 0x8000_0000_0000_0000
}

/// Halving keeps a fraction bounded while its denominator is at least two.
proof fn lemma_halved_bounded(f: Frac)
    requires
        bounded(f),
        f.den >= 2,
    ensures
        bounded(f.halved()),
        f.halved().den < f.den,
        fits(f.num) ==> fits(f.halved().num),
        fits(f.den) ==> fits(f.halved().den),
{
}

/// `combine` always gives a fraction in lowest terms that fits in 64 bits.
pub proof fn lemma_combine_closed(a: Frac, b: Frac, s: int)
    requires
        fits(a.num),
        fits(b.num),
        1 <= a.den <= i64::MAX,
        1 <= b.den <= i64::MAX,
        s == 1 || s == -1,
    ensures
        combine(a, b, s).lowest(),
        fits(combine(a, b, s).num),
        fits(combine(a, b, s).den),
    decreases a.den + b.den,
{
    let g = gcd_nat(a.den as nat, b.den as nat) as int;
    lemma_gcd_divides(a.den as nat, b.den as nat);
    lemma_positive_quotient(a.den, g);
    let l = (b.den / g) * a.num;
    let r = (a.den / g) * b.num;
    let n = l + s * r;
    let d = (a.den / g) * b.den;
    if fits(l) && fits(r) && fits(n) && fits(d) {
        lemma_positive_product(a.den / g, b.den);
        lemma_reduce(n, d);
    } else if a.den < 2 && b.den < 2 {
        lemma_gcd_units(abs(clamp(n).num), 0);
    } else {
        let left = if !fits(l) {
            true
        } else if !fits(r) {
            false
        } else if !fits(n) {
            abs(a.num) > abs(b.num)
        } else {
            a.den > b.den
        };
        if (left && a.den >= 2) || b.den < 2 {
            lemma_halved_bounded(a);
            lemma_combine_closed(a.halved(), b, s);
        } else {
            lemma_halved_bounded(b);
            lemma_combine_closed(a, b.halved(), s);
        }
    }
}

/// `multiply` always gives a fraction in lowest terms that fits in 64 bits.
pub proof fn lemma_multiply_closed(a: Frac, b: Frac)
    requires
        bounded(a),
        bounded(b),
    ensures
        multiply(a, b).lowest(),
        fits(multiply(a, b).num),
        fits(multiply(a, b).den),
    decreases a.den + b.den,
{
    let g1 = gcd_nat(abs(a.num), b.den as nat) as int;
    let g2 = gcd_nat(abs(b.num), a.den as nat) as int;
    lemma_gcd_divides(abs(a.num), b.den as nat);
    lemma_gcd_divides(abs(b.num), a.den as nat);
    lemma_positive_quotient(a.den, g2);
    lemma_positive_quotient(b.den, g1);
    let n = (a.num / g1) * (b.num / g2);
    let d = (a.den / g2) * (b.den / g1);
    if fits(n) && fits(d) {
        lemma_positive_product(a.den / g2, b.den / g1);
        lemma_reduce(n, d);
    } else if a.den < 2 && b.den < 2 {
        lemma_gcd_units(abs(clamp(n).num), 0);
    } else if (abs(a.num) > abs(b.num) && a.den >= 2) || b.den < 2 {
        lemma_halved_bounded(a);
        lemma_multiply_closed(a.halved(), b);
    } else {
        lemma_halved_bounded(b);
        lemma_multiply_closed(a, b.halved());
    }
}

impl Rat {
    /// The fraction as a `Rat`, when its parts fit.
    pub open spec fn of(f: Frac) -> Rat {
        Rat { num: f.num as i64, den: f.den as i64 }
    }

    /// Positive denominator, lowest terms.
    pub open spec fn wf(self) -> bool {
        self@.lowest()
    }

    /// The integer `val`.
    pub fn new(val: i64) -> (r: Rat)
        ensures
            r.wf(),
            r == (Rat { num: val, den: 1 }),
    {
        proof {
            lemma_gcd_units(abs(val as int), 0);
        }
        Rat { num: val, den: 1 }
    }

    /// The value as an integer, if it is one.
    pub fn try_int(&self) -> (r: Option<i64>)
        ensures
            r == if self.den == 1 {
                Some(self.num)
            } else {
                None
            },
    {
        if self.den == 1 {
            Some(self.num)
        } else {
            None
        }
    }

    pub fn is_zero(&self) -> (b: bool)
        ensures
            b == (self.num == 0),
    {
        self.num == 0
    }
}


impl Zero for Rat {
    open spec fn zero_spec() -> Rat {
        Rat { num: 0, den: 1 }
    }

    open spec fn is_zero_spec(&self) -> bool {
        self.num == 0
    }

    fn zero() -> (r: Rat) {
        Rat { num: 0, den: 1 }
    }

    fn is_zero(&self) -> (b: bool) {
        self.num == 0
    }
}

impl One for Rat {
    open spec fn one_spec() -> Rat {
        Rat { num: 1, den: 1 }
    }

    fn one() -> (r: Rat) {
        Rat { num: 1, den: 1 }
    }
}

impl Field for Rat {
    open spec fn valid(self) -> bool {
        self.wf()
    }

    open spec fn sum(self, rhs: Rat) -> Rat {
        Rat::of(combine(self@, rhs@, 1))
    }

    open spec fn difference(self, rhs: Rat) -> Rat {
        Rat::of(combine(self@, rhs@, -1))
    }

    open spec fn product(self, rhs: Rat) -> Rat {
        Rat::of(multiply(self@, rhs@))
    }

    open spec fn quotient(self, rhs: Rat) -> Rat {
        Rat::of(multiply(self@, rhs@.inverse()))
    }

    open spec fn scaled(self, k: i64) -> Rat {
        Rat::of(multiply(self@, Frac { num: k as int, den: 1 }))
    }

    open spec fn of_int(v: i64) -> Rat {
        Rat { num: v, den: 1 }
    }

    open spec fn below(self, rhs: Rat) -> bool {
        precedes(self@, rhs@)
    }

    /// The magnitude of the numerator in decimal and, unless the number is
    /// an integer, `/` and the denominator.
    open spec fn magnitude_text(self) -> Seq<char> {
        let m = crate::decimal::decimal(abs(self.num as int));
        if self.den == 1 {
            m
        } else {
            m + seq!['/'] + crate::decimal::decimal(self.den as nat)
        }
    }

    open spec fn int_value(self) -> Option<i64> {
        if self.den == 1 {
            Some(self.num)
        } else {
            None
        }
    }

    proof fn lemma_sign(x: Rat) {
        let zero = Rat::zero_spec();
        assert(x.below(zero) == (x.num < 0)) by (nonlinear_arith)
            requires
                x.below(zero) == (x@.num * 1 < 0 * x@.den),
                x@.num == x.num,
        ;
        assert(zero.below(x) == (x.num > 0)) by (nonlinear_arith)
            requires
                zero.below(x) == (0 * x@.den < x@.num * 1),
                x@.num == x.num,
        ;
    }

    proof fn lemma_closed(a: Rat, b: Rat, k: i64) {
        lemma_combine_closed(a@, b@, 1);
        lemma_combine_closed(a@, b@, -1);
        lemma_multiply_closed(a@, b@);
        if b.num != 0 {
            lemma_multiply_closed(a@, b@.inverse());
        }
        lemma_multiply_closed(a@, Frac { num: k as int, den: 1 });
        lemma_gcd_units(abs(k as int), 0);
    }

    proof fn lemma_identities() {
        lemma_gcd_units(0, 1);
        lemma_gcd_units(1, 1);
        assert forall|x: Rat| x.valid() && #[trigger] x.is_zero_spec() implies x == Rat::zero_spec() by {
            lemma_gcd_units(0, x.den as nat);
        }
    }

    fn plus(self, rhs: Rat) -> (r: Rat)
        ensures
            r@ == combine(self@, rhs@, 1),
    {
        combine_exec(self, rhs, false)
    }

    fn minus(self, rhs: Rat) -> (r: Rat)
        ensures
            r@ == combine(self@, rhs@, -1),
    {
        combine_exec(self, rhs, true)
    }

    fn times(self, rhs: Rat) -> (r: Rat)
        ensures
            r@ == multiply(self@, rhs@),
    {
        multiply_exec(self.num as i128, self.den as i128, rhs.num as i128, rhs.den as i128)
    }

    fn over(self, rhs: Rat) -> (r: Rat)
        ensures
            r@ == multiply(self@, rhs@.inverse()),
    {
        if rhs.num < 0 {
            multiply_exec(self.num as i128, self.den as i128, -(rhs.den as i128), -(rhs.num as i128))
        } else {
            multiply_exec(self.num as i128, self.den as i128, rhs.den as i128, rhs.num as i128)
        }
    }

    fn times_int(self, k: i64) -> (r: Rat)
        ensures
            r@ == multiply(self@, Frac { num: k as int, den: 1 }),
    {
        multiply_exec(self.num as i128, self.den as i128, k as i128, 1)
    }

    fn from_int(v: i64) -> (r: Rat) {
        Rat::new(v)
    }

    fn less_than(&self, rhs: &Rat) -> (b: bool) {
        wide_product(self.num as i128, rhs.den as i128) < wide_product(rhs.num as i128, self.den as i128)
    }

    fn to_int(&self) -> (r: Option<i64>) {
        self.try_int()
    }

    fn magnitude(&self) -> (s: String) {
        let mut s = String::new();
        let m: u64 = if self.num < 0 {
            (-(self.num as i128)) as u64
        } else {
            self.num as u64
        };
        crate::decimal::push_decimal(&mut s, m);
        if self.den != 1 {
            proof {
                reveal_strlit("/");
            }
            s.append("/");
            crate::decimal::push_decimal(&mut s, self.den as u64);
        }
        assert(s@ =~= self.magnitude_text());
        s
    }

    fn same(&self, rhs: &Rat) -> (b: bool) {
        *self == *rhs
    }
}

impl core::convert::From<i64> for Rat {
    fn from(val: i64) -> (r: Rat)
        ensures
            r.wf(),
    {
        Rat::new(val)
    }
}

impl vstd::std_specs::convert::FromSpecImpl<i64> for Rat {
    open spec fn obeys_from_spec() -> bool {
        true
    }

    open spec fn from_spec(val: i64) -> Rat {
        Rat { num: val, den: 1 }
    }
}

impl core::ops::Add for Rat {
    type Output = Rat;

    fn add(self, rhs: Rat) -> (r: Rat)
        ensures
            r.wf(),
            r@ == combine(self@, rhs@, 1),
    {
        self.plus(rhs)
    }
}

impl vstd::std_specs::ops::AddSpecImpl for Rat {
    open spec fn obeys_add_spec() -> bool {
        true
    }

    open spec fn add_req(self, rhs: Rat) -> bool {
        self.wf() && rhs.wf()
    }

    open spec fn add_spec(self, rhs: Rat) -> Rat {
        self.sum(rhs)
    }
}

impl core::ops::Sub for Rat {
    type Output = Rat;

    fn sub(self, rhs: Rat) -> (r: Rat)
        ensures
            r.wf(),
            r@ == combine(self@, rhs@, -1),
    {
        self.minus(rhs)
    }
}

impl vstd::std_specs::ops::SubSpecImpl for Rat {
    open spec fn obeys_sub_spec() -> bool {
        true
    }

    open spec fn sub_req(self, rhs: Rat) -> bool {
        self.wf() && rhs.wf()
    }

    open spec fn sub_spec(self, rhs: Rat) -> Rat {
        self.difference(rhs)
    }
}

impl core::ops::Mul for Rat {
    type Output = Rat;

    fn mul(self, rhs: Rat) -> (r: Rat)
        ensures
            r.wf(),
            r@ == multiply(self@, rhs@),
    {
        self.times(rhs)
    }
}

impl vstd::std_specs::ops::MulSpecImpl for Rat {
    open spec fn obeys_mul_spec() -> bool {
        true
    }

    open spec fn mul_req(self, rhs: Rat) -> bool {
        self.wf() && rhs.wf()
    }

    open spec fn mul_spec(self, rhs: Rat) -> Rat {
        self.product(rhs)
    }
}

impl core::ops::Mul<i64> for Rat {
    type Output = Rat;

    fn mul(self, rhs: i64) -> (r: Rat)
        ensures
            r.wf(),
            r@ == multiply(self@, Frac { num: rhs as int, den: 1 }),
    {
        self.times_int(rhs)
    }
}

impl vstd::std_specs::ops::MulSpecImpl<i64> for Rat {
    open spec fn obeys_mul_spec() -> bool {
        true
    }

    open spec fn mul_req(self, rhs: i64) -> bool {
        self.wf()
    }

    open spec fn mul_spec(self, rhs: i64) -> Rat {
        self.scaled(rhs)
    }
}

impl core::ops::Div for Rat {
    type Output = Rat;

    fn div(self, rhs: Rat) -> (r: Rat)
        ensures
            r.wf(),
            r@ == multiply(self@, rhs@.inverse()),
    {
        self.over(rhs)
    }
}

impl vstd::std_specs::ops::DivSpecImpl for Rat {
    open spec fn obeys_div_spec() -> bool {
        true
    }

    open spec fn div_req(self, rhs: Rat) -> bool {
        self.wf() && rhs.wf() && rhs.num != 0
    }

    open spec fn div_spec(self, rhs: Rat) -> Rat {
        self.quotient(rhs)
    }
}

impl core::convert::TryFrom<Rat> for i64 {
    type Error = ();

    fn try_from(val: Rat) -> (r: Result<i64, ()>)
        ensures
            r == if val.den == 1 {
                Ok::<i64, ()>(val.num)
            } else {
                Err::<i64, ()>(())
            },
    {
        if val.den == 1 {
            Ok(val.num)
        } else {
            Err(())
        }
    }
}

impl vstd::std_specs::convert::TryFromSpecImpl<Rat> for i64 {
    open spec fn obeys_try_from_spec() -> bool {
        true
    }

    open spec fn try_from_spec(val: Rat) -> Result<i64, ()> {
        if val.den == 1 {
            Ok(val.num)
        } else {
            Err(())
        }
    }
}

/// Scaling both parts of a fraction keeps its value.
proof fn lemma_scale_value(c: Frac, n: int, d: int, k: int)
    requires
        c.same_value(n, d),
    ensures
        c.same_value(n * k, d * k),
{
    broadcast use vstd::arithmetic::mul::group_mul_properties;

    assert(c.num * (d * k) == (c.num * d) * k);
    assert((n * k) * c.den == (n * c.den) * k);
}

/// Equal products with a common positive factor have equal cofactors.
proof fn lemma_cancel(x: int, y: int, k: int)
    requires
        k > 0,
        x * k == y * k,
    ensures
        x == y,
{
    assert(x == y) by (nonlinear_arith)
        requires
            k > 0,
            x * k == y * k,
    ;
}

/// The product of positive numbers is positive.
proof fn lemma_positive_product(x: int, y: int)
    requires
        x > 0,
        y > 0,
    ensures
        x * y > 0,
{
    assert(x * y > 0) by (nonlinear_arith)
        requires
            x > 0,
            y > 0,
    ;
}

proof fn ring_common_denominator(qa: int, qb: int, an: int, bn: int, s: int, g: int, bd: int)
    ensures
        (qb * an + s * (qa * bn)) * g == an * (qb * g) + s * (bn * (qa * g)),
        (qa * bd) * g == (qa * g) * bd,
{
    broadcast use vstd::arithmetic::mul::group_mul_properties;

}

proof fn ring_cross_cancel(qa: int, qb: int, da: int, db: int, g1: int, g2: int)
    ensures
        (qa * qb) * (g1 * g2) == (qa * g1) * (qb * g2),
        (da * db) * (g1 * g2) == (da * g2) * (db * g1),
{
    broadcast use vstd::arithmetic::mul::group_mul_properties;

}

/// While nothing overflows, `combine` is the sum or difference in lowest
/// terms, and its parts fit in 64 bits.
pub proof fn lemma_combine_exact(a: Frac, b: Frac, s: int)
    requires
        a.den >= 1,
        b.den >= 1,
        s == 1 || s == -1,
        combine_fits(a, b, s),
    ensures
        combine(a, b, s).lowest(),
        combine(a, b, s).same_value(a.num * b.den + s * (b.num * a.den), a.den * b.den),
        fits(combine(a, b, s).num),
        fits(combine(a, b, s).den),
{
    let g = gcd_nat(a.den as nat, b.den as nat) as int;
    lemma_gcd_divides(a.den as nat, b.den as nat);
    lemma_exact(a.den, g);
    lemma_exact(b.den, g);
    lemma_positive_quotient(a.den, g);
    let qa = a.den / g;
    let qb = b.den / g;
    let n = qb * a.num + s * (qa * b.num);
    let d = qa * b.den;
    lemma_positive_product(qa, b.den);
    lemma_reduce(n, d);
    let c = reduce(n, d);
    assert(combine(a, b, s) == c);
    ring_common_denominator(qa, qb, a.num, b.num, s, g, b.den);
    assert(n * g == a.num * b.den + s * (b.num * a.den));
    assert(d * g == a.den * b.den);
    lemma_scale_value(c, n, d, g);
}

/// While nothing overflows, `multiply` is the product in lowest terms, and
/// its parts fit in 64 bits.
pub proof fn lemma_multiply_exact(a: Frac, b: Frac)
    requires
        a.den >= 1,
        b.den >= 1,
        multiply_fits(a, b),
    ensures
        multiply(a, b).lowest(),
        multiply(a, b).same_value(a.num * b.num, a.den * b.den),
        fits(multiply(a, b).num),
        fits(multiply(a, b).den),
{
    let g1 = gcd_nat(abs(a.num), b.den as nat) as int;
    let g2 = gcd_nat(abs(b.num), a.den as nat) as int;
    lemma_gcd_divides(abs(a.num), b.den as nat);
    lemma_gcd_divides(abs(b.num), a.den as nat);
    lemma_signed_quotient(a.num, g1);
    lemma_signed_quotient(b.num, g2);
    lemma_exact(a.den, g2);
    lemma_exact(b.den, g1);
    lemma_positive_quotient(a.den, g2);
    lemma_positive_quotient(b.den, g1);
    let qa = a.num / g1;
    let qb = b.num / g2;
    let da = a.den / g2;
    let db = b.den / g1;
    let n = qa * qb;
    let d = da * db;
    lemma_positive_product(da, db);
    lemma_reduce(n, d);
    let c = reduce(n, d);
    assert(multiply(a, b) == c);
    ring_cross_cancel(qa, qb, da, db, g1, g2);
    assert(n * (g1 * g2) == a.num * b.num);
    assert(d * (g1 * g2) == a.den * b.den);
    lemma_scale_value(c, n, d, g1 * g2);
}

proof fn ring_add_then_sub(an: int, ad: int, bn: int, bd: int, un: int, ud: int, tn: int, td: int)
    ensures
        (tn * ad) * (ud * bd) == (tn * (ud * bd)) * ad,
        ((un * bd - bn * ud) * td) * ad == (un * (ad * bd)) * td - bn * ud * td * ad,
        ((an * bd + 1 * (bn * ad)) * ud) * td - bn * ud * td * ad == (an * td) * (ud * bd),
{
    assert(((un * bd - bn * ud) * td) * ad == (un * (ad * bd)) * td - bn * ud * td * ad)
        by (nonlinear_arith);
    assert((tn * ad) * (ud * bd) == (tn * (ud * bd)) * ad
        && ((an * bd + 1 * (bn * ad)) * ud) * td - bn * ud * td * ad == (an * td) * (ud * bd)) by {
        broadcast use vstd::arithmetic::mul::group_mul_properties;

    }
}

/// Subtracting what was added gives the first operand back, while neither
/// operation overflows.
pub proof fn lemma_add_then_sub(a: Rat, b: Rat)
    requires
        a.wf(),
        b.wf(),
        combine_fits(a@, b@, 1),
        combine_fits(combine(a@, b@, 1), b@, -1),
    ensures
        combine(combine(a@, b@, 1), b@, -1) == a@,
        a.sum(b).difference(b) == a,
{
    let u = combine(a@, b@, 1);
    lemma_combine_exact(a@, b@, 1);
    lemma_combine_exact(u, b@, -1);
    let t = combine(u, b@, -1);
    let (an, ad, bn, bd) = (a@.num, a@.den, b@.num, b@.den);
    let (un, ud, tn, td) = (u.num, u.den, t.num, t.den);
    lemma_positive_product(ud, bd);
    ring_add_then_sub(an, ad, bn, bd, un, ud, tn, td);
    assert(un * (ad * bd) == (an * bd + 1 * (bn * ad)) * ud);
    assert(tn * (ud * bd) == (un * bd - bn * ud) * td);
    lemma_cancel(tn * ad, an * td, ud * bd);
    crate::numeric::lemma_lowest_terms_unique(tn, td, an, ad);
}

proof fn ring_mul_then_div(
    an: int,
    ad: int,
    bn: int,
    bd: int,
    pn: int,
    pd: int,
    qn: int,
    qd: int,
    vn: int,
    vd: int,
)
    ensures
        (qn * ad) * (pd * (vd * bd)) == (qn * (pd * vd)) * (ad * bd),
        ((pn * vn) * qd) * (ad * bd) == (pn * (ad * bd)) * (vn * qd),
        ((an * bn) * pd) * (vn * qd) == (vn * bn) * (an * pd * qd),
        (bd * vd) * (an * pd * qd) == (an * qd) * (pd * (vd * bd)),
        (-bd) * bn == bd * (-bn),
{
    broadcast use vstd::arithmetic::mul::group_mul_properties;

}

/// Dividing by what was multiplied by gives the first operand back, while
/// neither operation overflows.
pub proof fn lemma_mul_then_div(a: Rat, b: Rat)
    requires
        a.wf(),
        b.wf(),
        b.num != 0,
        multiply_fits(a@, b@),
        multiply_fits(multiply(a@, b@), b@.inverse()),
    ensures
        multiply(multiply(a@, b@), b@.inverse()) == a@,
        a.product(b).quotient(b) == a,
{
    let p = multiply(a@, b@);
    lemma_multiply_exact(a@, b@);
    let v = b@.inverse();
    lemma_multiply_exact(p, v);
    let q = multiply(p, v);
    let (an, ad, bn, bd) = (a@.num, a@.den, b@.num, b@.den);
    let (pn, pd, qn, qd, vn, vd) = (p.num, p.den, q.num, q.den, v.num, v.den);
    lemma_positive_product(vd, bd);
    lemma_positive_product(pd, vd * bd);
    ring_mul_then_div(an, ad, bn, bd, pn, pd, qn, qd, vn, vd);
    assert(pn * (ad * bd) == (an * bn) * pd);
    assert(qn * (pd * vd) == (pn * vn) * qd);
    assert(vn * bn == bd * vd);
    lemma_cancel(qn * ad, an * qd, pd * (vd * bd));
    crate::numeric::lemma_lowest_terms_unique(qn, qd, an, ad);
}

proof fn ring_commute(qa: int, qb: int, an: int, bn: int, g: int)
    ensures
        qa * (qb * g) == qb * (qa * g),
        qb * an + 1 * (qa * bn) == qa * bn + 1 * (qb * an),
{
    broadcast use vstd::arithmetic::mul::group_mul_properties;

}

/// Addition does not depend on the order of its operands, while it does not
/// overflow.
pub proof fn lemma_add_commutes(a: Rat, b: Rat)
    requires
        a.wf(),
        b.wf(),
        combine_fits(a@, b@, 1),
    ensures
        combine_fits(b@, a@, 1),
        combine(a@, b@, 1) == combine(b@, a@, 1),
        a.sum(b) == b.sum(a),
{
    crate::numeric::lemma_gcd_symmetric(a@.den as nat, b@.den as nat);
    let g = gcd_nat(a@.den as nat, b@.den as nat) as int;
    lemma_gcd_divides(a@.den as nat, b@.den as nat);
    lemma_exact(a@.den, g);
    lemma_exact(b@.den, g);
    let qa = a@.den / g;
    let qb = b@.den / g;
    ring_commute(qa, qb, a@.num, b@.num, g);
    assert(qa * b@.den == qb * a@.den);
    assert(combine_fits(b@, a@, 1));
    assert(combine(a@, b@, 1) == combine(b@, a@, 1));
}

proof fn ring_associate_left(
    an: int,
    ad: int,
    bn: int,
    bd: int,
    cn: int,
    cd: int,
    un: int,
    ud: int,
    xn: int,
    xd: int,
)
    ensures
        (xn * (ad * bd * cd)) * ud == (xn * (ud * cd)) * (ad * bd),
        ((un * cd + 1 * (cn * ud)) * xd) * (ad * bd) == (un * (ad * bd)) * (cd * xd) + cn * ud * xd
            * ad * bd,
        ((an * bd + 1 * (bn * ad)) * ud) * (cd * xd) + cn * ud * xd * ad * bd == ((an * bd * cd + bn
            * ad * cd + cn * ad * bd) * xd) * ud,
{
    broadcast use vstd::arithmetic::mul::group_mul_properties;

}

proof fn ring_regroup_right(ad: int, bd: int, cd: int, vd: int, yn: int)
    ensures
        (yn * (ad * bd * cd)) * vd == (yn * (ad * vd)) * (bd * cd),
{
    broadcast use vstd::arithmetic::mul::group_mul_properties;

}

proof fn ring_expand_right(an: int, ad: int, bd: int, cd: int, vn: int, vd: int, yd: int)
    ensures
        ((an * vd + 1 * (vn * ad)) * yd) * (bd * cd) == an * vd * yd * bd * cd + (vn * (bd * cd)) * (
        ad * yd),
{
    broadcast use vstd::arithmetic::mul::group_mul_properties;

}

proof fn ring_collect_right(
    an: int,
    ad: int,
    bn: int,
    bd: int,
    cn: int,
    cd: int,
    vd: int,
    yd: int,
)
    ensures
        an * vd * yd * bd * cd + ((bn * cd + 1 * (cn * bd)) * vd) * (ad * yd) == ((an * bd * cd + bn
            * ad * cd + cn * ad * bd) * yd) * vd,
{
    broadcast use vstd::arithmetic::mul::group_mul_properties;

}

proof fn ring_same_value(xn: int, xd: int, yn: int, yd: int, n: int, d: int)
    ensures
        (xn * yd) * d == (xn * d) * yd,
        (n * xd) * yd == (n * yd) * xd,
        (yn * d) * xd == (yn * xd) * d,
{
    broadcast use vstd::arithmetic::mul::group_mul_properties;

}

/// Addition does not depend on how three operands are grouped, while none of
/// the four additions overflows.
pub proof fn lemma_add_associates(a: Rat, b: Rat, c: Rat)
    requires
        a.wf(),
        b.wf(),
        c.wf(),
        combine_fits(a@, b@, 1),
        combine_fits(combine(a@, b@, 1), c@, 1),
        combine_fits(b@, c@, 1),
        combine_fits(a@, combine(b@, c@, 1), 1),
    ensures
        combine(combine(a@, b@, 1), c@, 1) == combine(a@, combine(b@, c@, 1), 1),
        a.sum(b).sum(c) == a.sum(b.sum(c)),
{
    let u = combine(a@, b@, 1);
    let v = combine(b@, c@, 1);
    lemma_combine_exact(a@, b@, 1);
    lemma_combine_exact(b@, c@, 1);
    lemma_combine_exact(u, c@, 1);
    lemma_combine_exact(a@, v, 1);
    let x = combine(u, c@, 1);
    let y = combine(a@, v, 1);
    let (an, ad, bn, bd, cn, cd) = (a@.num, a@.den, b@.num, b@.den, c@.num, c@.den);
    let (un, ud, vn, vd, xn, xd, yn, yd) = (u.num, u.den, v.num, v.den, x.num, x.den, y.num, y.den);
    let big_n = an * bd * cd + bn * ad * cd + cn * ad * bd;
    let big_d = ad * bd * cd;
    lemma_positive_product(ad, bd);
    lemma_positive_product(ad * bd, cd);
    ring_associate_left(an, ad, bn, bd, cn, cd, un, ud, xn, xd);
    assert(un * (ad * bd) == (an * bd + 1 * (bn * ad)) * ud);
    assert(xn * (ud * cd) == (un * cd + 1 * (cn * ud)) * xd);
    lemma_cancel(xn * big_d, big_n * xd, ud);
    ring_regroup_right(ad, bd, cd, vd, yn);
    ring_expand_right(an, ad, bd, cd, vn, vd, yd);
    ring_collect_right(an, ad, bn, bd, cn, cd, vd, yd);
    assert(vn * (bd * cd) == (bn * cd + 1 * (cn * bd)) * vd);
    assert(yn * (ad * vd) == (an * vd + 1 * (vn * ad)) * yd);
    lemma_cancel(yn * big_d, big_n * yd, vd);
    ring_same_value(xn, xd, yn, yd, big_n, big_d);
    lemma_cancel(xn * yd, yn * xd, big_d);
    crate::numeric::lemma_lowest_terms_unique(xn, xd, yn, yd);
}


proof fn ring_div_then_mul(
    an: int,
    ad: int,
    bn: int,
    bd: int,
    qn: int,
    qd: int,
    rn: int,
    rd: int,
    vn: int,
    vd: int,
)
    ensures
        (rn * ad) * (qd * (bd * vd)) == (rn * (qd * bd)) * (ad * vd),
        ((qn * bn) * rd) * (ad * vd) == (qn * (ad * vd)) * (bn * rd),
        ((an * vn) * qd) * (bn * rd) == (vn * bn) * (an * qd * rd),
        (bd * vd) * (an * qd * rd) == (an * rd) * (qd * (bd * vd)),
        (-bd) * bn == bd * (-bn),
{
    broadcast use vstd::arithmetic::mul::group_mul_properties;

}

/// Multiplying by what was divided by gives the first operand back, while
/// neither operation overflows; and the quotient of a number that is not
/// zero is not zero.
pub proof fn lemma_div_then_mul(a: Rat, b: Rat)
    requires
        a.wf(),
        b.wf(),
        b.num != 0,
        multiply_fits(a@, b@.inverse()),
        multiply_fits(multiply(a@, b@.inverse()), b@),
    ensures
        multiply(multiply(a@, b@.inverse()), b@) == a@,
        a.quotient(b).product(b) == a,
        a.num != 0 ==> a.quotient(b).num != 0,
{
    let v = b@.inverse();
    let q = multiply(a@, v);
    lemma_multiply_exact(a@, v);
    lemma_multiply_exact(q, b@);
    let r = multiply(q, b@);
    let (an, ad, bn, bd) = (a@.num, a@.den, b@.num, b@.den);
    let (qn, qd, rn, rd, vn, vd) = (q.num, q.den, r.num, r.den, v.num, v.den);
    lemma_positive_product(bd, vd);
    lemma_positive_product(qd, bd * vd);
    ring_div_then_mul(an, ad, bn, bd, qn, qd, rn, rd, vn, vd);
    assert(qn * (ad * vd) == (an * vn) * qd);
    assert(rn * (qd * bd) == (qn * bn) * rd);
    assert(vn * bn == bd * vd);
    lemma_cancel(rn * ad, an * rd, qd * (bd * vd));
    crate::numeric::lemma_lowest_terms_unique(rn, rd, an, ad);
    if an != 0 {
        assert(qn != 0) by (nonlinear_arith)
            requires
                qn * (ad * vd) == (an * vn) * qd,
                an != 0,
                vn != 0,
                qd > 0,
        ;
    }
}


/// A fraction times an integer that divides its denominator keeps its
/// numerator, but for the sign, and has the denominator divided by the
/// integer in magnitude.
pub proof fn lemma_scale_by_divisor(a: Rat, k: i64)
    requires
        a.wf(),
        k != 0,
        (a.den as int) % (abs(k as int) as int) == 0,
        !(k < 0 && a.num == i64::MIN),
    ensures
        multiply(a@, Frac { num: k as int, den: 1 }) == (Frac {
            num: if k < 0 {
                -(a.num as int)
            } else {
                a.num as int
            },
            den: (a.den as int) / (abs(k as int) as int),
        }),
{
    let f = Frac { num: k as int, den: 1 };
    let m = abs(k as int);
    let (an, ad) = (a.num as int, a.den as int);
    lemma_gcd_units(abs(an), 0);
    crate::numeric::lemma_gcd_of_divisor(m, ad as nat);
    crate::numeric::lemma_gcd_symmetric(abs(an), ad as nat);
    crate::numeric::lemma_gcd_symmetric(abs(an), (ad / (m as int)) as nat);
    crate::numeric::lemma_coprime_quotient(abs(an), ad as nat, m);
    let g1 = gcd_nat(abs(an), 1) as int;
    let g2 = gcd_nat(m, ad as nat) as int;
    assert(g1 == 1 && g2 == m);
    let sign: int = if k < 0 { -1 } else { 1 };
    assert(k as int == sign * (m as int)) by (nonlinear_arith)
        requires
            m as int == if k < 0 { -(k as int) } else { k as int },
            sign == if k < 0 { -1int } else { 1int },
    ;
    lemma_multiple(sign, m as int);
    lemma_exact(an, 1);
    lemma_multiple(1, 1);
    let n = (an / g1) * ((k as int) / g2);
    let d = (ad / g2) * (1int / g1);
    assert(n == an * sign) by (nonlinear_arith)
        requires
            n == (an / 1) * sign,
            an / 1 == an,
    ;
    assert(d == ad / (m as int)) by (nonlinear_arith)
        requires
            d == (ad / (m as int)) * 1,
    ;
    assert(abs(n) == abs(an));
    lemma_reduce(n, d);
    lemma_exact(abs(n) as int, 1);
    lemma_exact(d, 1);
    assert(multiply(a@, f) == reduce(n, d));
    assert(reduce(n, d) == Frac { num: n, den: d });
}


proof fn ring_transfer(rn: int, rd: int, n1: int, d1: int, n2: int, d2: int)
    ensures
        (rn * d2) * d1 == (rn * d1) * d2,
        (n1 * rd) * d2 == (n1 * d2) * rd,
        (n2 * d1) * rd == (n2 * rd) * d1,
{
    broadcast use vstd::arithmetic::mul::group_mul_properties;

}

/// A fraction of the value `n1 / d1` has the value `n2 / d2` if the two
/// values are the same.
pub proof fn lemma_value_transfer(r: Frac, n1: int, d1: int, n2: int, d2: int)
    requires
        r.same_value(n1, d1),
        n1 * d2 == n2 * d1,
        d1 > 0,
    ensures
        r.same_value(n2, d2),
{
    ring_transfer(r.num, r.den, n1, d1, n2, d2);
    lemma_cancel(r.num * d2, n2 * r.den, d1);
}

proof fn ring_unique(an: int, ad: int, bn: int, bd: int, n: int, d: int)
    ensures
        (an * bd) * d == (an * d) * bd,
        (n * ad) * bd == (n * bd) * ad,
        (bn * d) * ad == (bn * ad) * d,
{
    broadcast use vstd::arithmetic::mul::group_mul_properties;

}

/// Two fractions in lowest terms of the same value are the same.
pub proof fn lemma_value_unique(a: Frac, b: Frac, n: int, d: int)
    requires
        a.lowest(),
        b.lowest(),
        a.same_value(n, d),
        b.same_value(n, d),
        d > 0,
    ensures
        a == b,
{
    ring_unique(a.num, a.den, b.num, b.den, n, d);
    lemma_cancel(a.num * b.den, b.num * a.den, d);
    crate::numeric::lemma_lowest_terms_unique(a.num, a.den, b.num, b.den);
}

proof fn ring_sum_scaled(an: int, ad: int, bn: int, bd: int, k: int, xn: int, xd: int, yn: int, yd: int)
    ensures
        (xn * yd + 1 * (yn * xd)) * (ad * bd) == (xn * (ad * 1)) * (yd * bd) + (yn * (bd * 1)) * (
        xd * ad),
        ((an * k) * xd) * (yd * bd) + ((bn * k) * yd) * (xd * ad) == ((an * bd + 1 * (bn * ad)) * k)
            * (xd * yd),
{
    broadcast use vstd::arithmetic::mul::group_mul_properties;

}

proof fn ring_scaled_sum(sn: int, sd: int, big_n: int, d: int, k: int)
    ensures
        (sn * k) * d == (sn * d) * k,
        (big_n * sd) * k == (big_n * k) * (sd * 1),
{
    broadcast use vstd::arithmetic::mul::group_mul_properties;

}

/// A sum times an integer is the sum of the terms times the integer, while
/// nothing overflows; and it is zero if the sum is.
pub proof fn lemma_scale_distributes(a: Rat, b: Rat, k: i64)
    requires
        a.wf(),
        b.wf(),
        k >= 1,
        combine_fits(a@, b@, 1),
        multiply_fits(a@, Frac { num: k as int, den: 1 }),
        multiply_fits(b@, Frac { num: k as int, den: 1 }),
        combine_fits(
            multiply(a@, Frac { num: k as int, den: 1 }),
            multiply(b@, Frac { num: k as int, den: 1 }),
            1,
        ),
        combine(a@, b@, 1).num != 0 ==> multiply_fits(
            combine(a@, b@, 1),
            Frac { num: k as int, den: 1 },
        ),
    ensures
        a.sum(b).num != 0 ==> a.sum(b).scaled(k) == a.scaled(k).sum(b.scaled(k)),
        a.sum(b).num == 0 <==> a.scaled(k).sum(b.scaled(k)).num == 0,
        a.sum(b).num != 0 ==> a.sum(b).scaled(k).num != 0,
{
    let f = Frac { num: k as int, den: 1 };
    let s = combine(a@, b@, 1);
    let x = multiply(a@, f);
    let y = multiply(b@, f);
    let r = combine(x, y, 1);
    lemma_combine_exact(a@, b@, 1);
    lemma_multiply_exact(a@, f);
    lemma_multiply_exact(b@, f);
    lemma_combine_exact(x, y, 1);
    let (an, ad, bn, bd) = (a@.num, a@.den, b@.num, b@.den);
    let big_n = an * bd + 1 * (bn * ad);
    let d = ad * bd;
    lemma_positive_product(ad, bd);
    lemma_positive_product(x.den, y.den);
    // the sum of the multiples has the value of the multiple of the sum
    ring_sum_scaled(an, ad, bn, bd, k as int, x.num, x.den, y.num, y.den);
    assert(x.num * (ad * 1) == (an * k) * x.den);
    assert(y.num * (bd * 1) == (bn * k) * y.den);
    assert((x.num * y.den + 1 * (y.num * x.den)) * d == (big_n * k) * (x.den * y.den));
    lemma_value_transfer(r, x.num * y.den + 1 * (y.num * x.den), x.den * y.den, big_n * k, d);
    assert(r.num * d == (big_n * k) * r.den);
    assert(s.num * d == big_n * s.den);
    if s.num == 0 {
        assert(big_n == 0) by (nonlinear_arith)
            requires
                s.num * d == big_n * s.den,
                s.num == 0,
                s.den > 0,
        ;
        assert(r.num == 0) by (nonlinear_arith)
            requires
                r.num * d == (big_n * k) * r.den,
                big_n == 0,
                d > 0,
        ;
    } else {
        assert(big_n != 0) by (nonlinear_arith)
            requires
                s.num * d == big_n * s.den,
                s.num != 0,
                d > 0,
        ;
        assert(r.num != 0) by (nonlinear_arith)
            requires
                r.num * d == (big_n * k) * r.den,
                big_n != 0,
                k >= 1,
                r.den > 0,
        ;
        let es = multiply(s, f);
        lemma_multiply_exact(s, f);
        ring_scaled_sum(s.num, s.den, big_n, d, k as int);
        assert((s.num * k) * d == (big_n * k) * (s.den * 1));
        lemma_value_transfer(es, s.num * k, s.den * 1, big_n * k, d);
        lemma_value_unique(es, r, big_n * k, d);
    }
}

proof fn ring_scale_commutes(cn: int, cd: int, vn: int, vd: int, k: int, pn: int, pd: int, en: int, ed: int)
    ensures
        (pn * k) * (cd * vd) == (pn * (cd * vd)) * k,
        ((cn * vn) * pd) * k == ((cn * vn) * k) * (pd * 1),
        (cn * en) * (cd * vd) == (en * (vd * 1)) * (cn * cd),
        ((vn * k) * ed) * (cn * cd) == ((cn * vn) * k) * (cd * ed),
{
    broadcast use vstd::arithmetic::mul::group_mul_properties;

}

/// A product times an integer is the product with the second factor times
/// the integer, while nothing overflows; and none of them is zero if
/// neither factor is.
pub proof fn lemma_scale_commutes(c: Rat, v: Rat, k: i64)
    requires
        c.wf(),
        v.wf(),
        k >= 1,
        multiply_fits(c@, v@),
        multiply_fits(v@, Frac { num: k as int, den: 1 }),
        multiply_fits(multiply(c@, v@), Frac { num: k as int, den: 1 }),
        multiply_fits(c@, multiply(v@, Frac { num: k as int, den: 1 })),
    ensures
        c.product(v).scaled(k) == c.product(v.scaled(k)),
        c.num != 0 && v.num != 0 ==> c.product(v).num != 0 && v.scaled(k).num != 0 && c.product(
            v,
        ).scaled(k).num != 0,
        (c.num == 0 || v.num == 0) ==> c.product(v).num == 0,
{
    let f = Frac { num: k as int, den: 1 };
    let p = multiply(c@, v@);
    let e = multiply(v@, f);
    let l = multiply(p, f);
    let r = multiply(c@, e);
    lemma_multiply_exact(c@, v@);
    lemma_multiply_exact(v@, f);
    lemma_multiply_exact(p, f);
    lemma_multiply_exact(c@, e);
    let (cn, cd, vn, vd) = (c@.num, c@.den, v@.num, v@.den);
    let n = (cn * vn) * k;
    let d = cd * vd;
    lemma_positive_product(cd, vd);
    ring_scale_commutes(cn, cd, vn, vd, k as int, p.num, p.den, e.num, e.den);
    assert(p.num * (cd * vd) == (cn * vn) * p.den);
    assert(e.num * (vd * 1) == (vn * k) * e.den);
    lemma_value_transfer(l, p.num * k, p.den * 1, n, d);
    lemma_positive_product(cd, e.den);
    lemma_value_transfer(r, cn * e.num, cd * e.den, n, d);
    lemma_value_unique(l, r, n, d);
    if cn != 0 && vn != 0 {
        assert(p.num != 0 && e.num != 0 && l.num != 0) by (nonlinear_arith)
            requires
                p.num * d == (cn * vn) * p.den,
                e.num * (vd * 1) == (vn * k) * e.den,
                l.num * d == ((cn * vn) * k) * l.den,
                cn != 0,
                vn != 0,
                k >= 1,
                d > 0,
                vd > 0,
                p.den > 0,
                e.den > 0,
                l.den > 0,
        ;
    } else {
        assert(p.num == 0) by (nonlinear_arith)
            requires
                p.num * d == (cn * vn) * p.den,
                cn == 0 || vn == 0,
                d > 0,
        ;
    }
}


/// A number that is not zero times a positive integer is not zero, while
/// the multiplication does not overflow.
pub proof fn lemma_scaled_nonzero(a: Rat, k: i64)
    requires
        a.wf(),
        a.num != 0,
        k >= 1,
        multiply_fits(a@, Frac { num: k as int, den: 1 }),
    ensures
        a.scaled(k).num != 0,
{
    let f = Frac { num: k as int, den: 1 };
    lemma_multiply_exact(a@, f);
    let x = multiply(a@, f);
    assert(x.num != 0) by (nonlinear_arith)
        requires
            x.num * (a@.den * 1) == (a@.num * k) * x.den,
            a@.num != 0,
            k >= 1,
            x.den > 0,
    ;
}


/// A number less itself is zero.
pub proof fn lemma_self_difference(a: Rat)
    requires
        a.wf(),
    ensures
        a.difference(a) == (Rat { num: 0, den: 1 }),
        combine_fits(a@, a@, -1),
{
    let d = a@.den;
    let g = gcd_nat(d as nat, d as nat) as int;
    lemma_multiple(1, d);
    crate::numeric::lemma_gcd_of_divisor(d as nat, d as nat);
    assert(g == d);
    assert(d / g == 1);
    assert((d / g) * a@.num == a@.num) by (nonlinear_arith)
        requires
            d / g == 1,
    ;
    assert((d / g) * d == d) by (nonlinear_arith)
        requires
            d / g == 1,
    ;
    lemma_reduce(0, d);
}


/// Zero less one is minus one.
pub proof fn lemma_minus_one()
    ensures
        Rat::zero_spec().difference(Rat::one_spec()) == (Rat { num: -1i64, den: 1 }),
{
    let zero = Frac { num: 0, den: 1 };
    let one = Frac { num: 1, den: 1 };
    lemma_gcd_units(1, 1);
    assert((1int / 1) * 0 == 0 && (1int / 1) * 1 == 1) by (nonlinear_arith);
    assert(combine_fits(zero, one, -1));
    lemma_reduce(-1, 1);
    lemma_exact(1, 1);
    assert(reduce(-1, 1) == Frac { num: -1, den: 1 });
}

} // verus!
