//! The primitive form of a polynomial with rational coefficients.

use vstd::prelude::*;
use crate::field::{Field, Zero};
use crate::numeric::{
    abs,
    gcd_nat,
    gcd_wide,
    lemma_divides_transitive,
    lemma_exact,
    lemma_gcd_bound,
    lemma_gcd_divides,
    lemma_gcd_units,
    lemma_lowest_terms_unique,
    lemma_multiple,
    lemma_seq_gcd_cancel,
    lemma_seq_gcd_divides,
    magnitude,
    seq_gcd,
};
use crate::poly::arithmetic::{lemma_merge_appends, merge, monomial, poly_merge, zero_poly};
use crate::poly::mono::{copy_vars, Mono, Term};
use crate::poly::{single, Poly};
use crate::poly::mono::{place, Place};
use crate::poly::canonical;
use crate::rational::{lemma_multiply_exact, multiply, multiply_fits, Frac, Rat};

verus! {

/// The least common multiple of `l` and `den`, or `l` if that is beyond 64 bits.
pub open spec fn lcm_step(l: int, den: int) -> int {
    let m = l * (den / (gcd_nat(abs(l), abs(den)) as int));
    if m <= i64::MAX {
        m
    } else {
        l
    }
}

/// The least common multiple of the denominators of the coefficients, as
/// far as it stays within 64 bits.
pub open spec fn common_den(p: Seq<Term<Rat>>) -> int
    decreases p.len(),
{
    if p.len() == 0 {
        1
    } else {
        lcm_step(common_den(p.drop_last()), p.last().val.den as int)
    }
}

/// The numerators, in magnitude, of the coefficients times `l`.
pub open spec fn scaled_numerators(p: Seq<Term<Rat>>, l: i64) -> Seq<nat> {
    Seq::new(p.len(), |i: int| abs(p[i].val.scaled(l).num as int))
}

/// The greatest common divisor of the numerators of the coefficients times `l`.
pub open spec fn content(p: Seq<Term<Rat>>, l: i64) -> nat {
    seq_gcd(scaled_numerators(p, l))
}

/// What the coefficients times the common denominator are divided by: their
/// content, with the sign of the leading coefficient.
pub open spec fn norm_divisor(p: Seq<Term<Rat>>) -> i64 {
    let l = common_den(p) as i64;
    let g = content(p, l);
    if p.len() == 0 || g == 0 {
        1
    } else if p[0].val.scaled(l).num < 0 {
        (-(g as int)) as i64
    } else if g <= i64::MAX {
        g as i64
    } else {
        1
    }
}

/// `acc` plus the terms of `p` with their coefficients times `l` and
/// divided by `d`, added one by one.
pub open spec fn norm_terms(acc: Seq<Term<Rat>>, p: Seq<Term<Rat>>, l: i64, d: i64) -> Seq<
    Term<Rat>,
>
    decreases p.len(),
{
    if p.len() == 0 {
        acc
    } else {
        norm_terms(
            poly_merge(
                acc,
                single(
                    Term::make(p[0].val.scaled(l).quotient(Rat { num: d, den: 1 }), p[0].vars),
                ),
                false,
            ),
            p.skip(1),
            l,
            d,
        )
    }
}

/// The primitive form: the polynomial times the common denominator of its
/// coefficients, divided by the content of the result, with the sign that
/// makes the leading coefficient positive.
pub open spec fn poly_norm(p: Seq<Term<Rat>>) -> Seq<Term<Rat>> {
    norm_terms(Seq::empty(), p, common_den(p) as i64, norm_divisor(p))
}

impl Poly<Rat> {
    /// The primitive form of the polynomial: the multiple of it by a
    /// rational number that has integer coefficients without a common
    /// factor and a positive leading coefficient.
    pub fn norm(&self) -> (r: Poly<Rat>)
        requires
            self.wf(),
        ensures
            r@ == poly_norm(self@),
            r.wf(),
            norm_exact(self@) ==> primitive(r@),
    {
        proof {
            if norm_exact(self@) {
                lemma_norm_primitive(self@);
            }
        }
        let n = self.terms.len();
        let mut l: i128 = 1;
        let mut i: usize = 0;
        assert(self@.take(0) =~= Seq::<Term<Rat>>::empty());
        while i < n
            invariant
                i <= n,
                n == self.terms.len(),
                self.wf(),
                1 <= l <= i64::MAX,
                l == common_den(self@.take(i as int)),
            decreases n - i,
        {
            proof {
                assert(self@.take(i + 1).drop_last() =~= self@.take(i as int));
                assert(self@.take(i + 1).last() == self.terms@[i as int]@);
                assert(self@[i as int].wf());
            }
            let den: i128 = self.terms[i].val.den as i128;
            let g: i128 = gcd_wide(l, den);
            proof {
                lemma_gcd_divides(l as nat, den as nat);
                lemma_gcd_bound(l as nat, den as nat);
            }
            let q: i128 = den / g;
            assert(0 <= q <= den) by (nonlinear_arith)
                requires
                    q == den / g,
                    g >= 1,
                    den >= 1,
            ;
            assert(l * q <= 0x7fff_ffff_ffff_ffff * 0x7fff_ffff_ffff_ffff) by (nonlinear_arith)
                requires
                    1 <= l <= 0x7fff_ffff_ffff_ffff,
                    0 <= q <= 0x7fff_ffff_ffff_ffff,
            ;
            assert(l * q >= l || q == 0) by (nonlinear_arith)
                requires
                    l >= 1,
                    q >= 0,
            ;
            let m: i128 = l * q;
            if m <= 0x7fff_ffff_ffff_ffff && m >= 1 {
                l = m;
            }
            proof {
                assert(q >= 1) by (nonlinear_arith)
                    requires
                        q == den / g,
                        g >= 1,
                        den >= g,
                ;
            }
            i = i + 1;
        }
        assert(self@.take(n as int) =~= self@);
        let scale: i64 = l as i64;
        let mut g: i128 = 0;
        i = 0;
        assert(scaled_numerators(self@.take(0), scale) =~= Seq::<nat>::empty());
        while i < n
            invariant
                i <= n,
                n == self.terms.len(),
                self.wf(),
                0 <= g <= 0x8000_0000_0000_0000,
                g == content(self@.take(i as int), scale),
            decreases n - i,
        {
            proof {
                assert(self@.take(i + 1).last() == self.terms@[i as int]@);
                assert(self@[i as int].wf());
                assert(scaled_numerators(self@.take(i + 1), scale).drop_last() =~= scaled_numerators(
                    self@.take(i as int),
                    scale,
                ));
            }
            let scaled = self.terms[i].val.times_int(scale);
            let m: i128 = magnitude(scaled.num);
            proof {
                lemma_gcd_bound(g as nat, m as nat);
            }
            g = gcd_wide(g, m);
            i = i + 1;
        }
        assert(self@.take(n as int) =~= self@);
        let mut d: i64 = 1;
        if n > 0 && g != 0 {
            assert(self@[0] == self.terms@[0]@);
            assert(self@[0].wf());
            let lead = self.terms[0].val.times_int(scale);
            if lead.num < 0 {
                d = (-g) as i64;
            } else if g <= 0x7fff_ffff_ffff_ffff {
                d = g as i64;
            }
        }
        assert(d == norm_divisor(self@));
        assert(d != 0);
        let divisor = Rat::new(d);
        let mut acc: Poly<Rat> = zero_poly();
        i = 0;
        assert(self@.skip(0) =~= self@);
        while i < n
            invariant
                i <= n,
                n == self.terms.len(),
                self.wf(),
                acc.wf(),
                divisor.wf(),
                divisor == (Rat { num: d, den: 1 }),
                d != 0,
                norm_terms(acc@, self@.skip(i as int), scale, d) == poly_norm(self@),
                scale == common_den(self@) as i64,
                d == norm_divisor(self@),
            decreases n - i,
        {
            proof {
                assert(self@.skip(i as int)[0] == self@[i as int] && self@[i as int]
                    == self.terms@[i as int]@);
                assert(self@.skip(i as int).skip(1) =~= self@.skip(i + 1));
                assert(self@[i as int].wf());
            }
            let val = self.terms[i].val.times_int(scale).over(divisor);
            let m = if val.is_zero() {
                Mono { val, vars: Vec::new() }
            } else {
                Mono { val, vars: copy_vars(&self.terms[i].vars) }
            };
            acc = merge(&acc, &monomial(m), false);
            i = i + 1;
        }
        acc
    }
}


/// Whether the common denominator is the least common multiple of all the
/// denominators: no step of it went beyond 64 bits.
pub open spec fn lcm_exact(p: Seq<Term<Rat>>) -> bool
    decreases p.len(),
{
    p.len() == 0 || (lcm_exact(p.drop_last()) && {
        let l = common_den(p.drop_last());
        let den = p.last().val.den as int;
        l * (den / (gcd_nat(abs(l), abs(den)) as int)) <= i64::MAX
    })
}

/// Whether the primitive form of `p` is computed without overflow: the
/// common denominator is the least common multiple of the denominators, and
/// neither a coefficient times it nor the division of that by the content
/// goes beyond 64 bits.
pub open spec fn norm_exact(p: Seq<Term<Rat>>) -> bool {
    let l = common_den(p) as i64;
    let d = norm_divisor(p);
    &&& lcm_exact(p)
    &&& forall|i: int|
        0 <= i < p.len() ==> multiply_fits((#[trigger] p[i]).val@, Frac { num: l as int, den: 1 })
            && multiply_fits(p[i].val.scaled(l)@, (Frac { num: d as int, den: 1 }).inverse())
}

/// The numerators, in magnitude, of the coefficients.
pub open spec fn numerators(p: Seq<Term<Rat>>) -> Seq<nat> {
    Seq::new(p.len(), |i: int| abs(p[i].val.num as int))
}

/// Whether a polynomial is in primitive form: canonical, with integer
/// coefficients that have no common factor, the leading one positive.
pub open spec fn primitive(p: Seq<Term<Rat>>) -> bool {
    &&& canonical(p)
    &&& forall|i: int| 0 <= i < p.len() ==> (#[trigger] p[i]).val.den == 1
    &&& p.len() > 0 ==> p[0].val.num > 0 && seq_gcd(numerators(p)) == 1
}

/// The common denominator is positive and within 64 bits, and while it is
/// the least common multiple every denominator divides it.
pub proof fn lemma_common_den(p: Seq<Term<Rat>>)
    requires
        forall|i: int| 0 <= i < p.len() ==> (#[trigger] p[i]).val.den >= 1,
    ensures
        1 <= common_den(p) <= i64::MAX,
        lcm_exact(p) ==> forall|i: int|
            0 <= i < p.len() ==> common_den(p) % ((#[trigger] p[i]).val.den as int) == 0,
    decreases p.len(),
{
    if p.len() > 0 {
        let front = p.drop_last();
        assert forall|i: int| 0 <= i < front.len() implies (#[trigger] front[i]).val.den >= 1 by {
            assert(front[i] == p[i]);
        }
        lemma_common_den(front);
        let l = common_den(front);
        assert(p.last() == p[p.len() - 1]);
        let den = p.last().val.den as int;
        let g = gcd_nat(abs(l), abs(den)) as int;
        lemma_gcd_divides(abs(l), abs(den));
        lemma_exact(l, g);
        lemma_exact(den, g);
        let ql = l / g;
        let qd = den / g;
        assert(qd >= 1) by (nonlinear_arith)
            requires
                den == qd * g,
                den >= 1,
                g >= 1,
        ;
        assert(l * qd >= 1) by (nonlinear_arith)
            requires
                l >= 1,
                qd >= 1,
        ;
        if lcm_exact(p) {
            let m = l * qd;
            assert(common_den(p) == m);
            assert(m == ql * den) by (nonlinear_arith)
                requires
                    m == l * qd,
                    l == ql * g,
                    den == qd * g,
            ;
            lemma_multiple(ql, den);
            lemma_multiple(qd, l);
            assert(m == qd * l) by (nonlinear_arith)
                requires
                    m == l * qd,
            ;
            assert forall|i: int| 0 <= i < p.len() implies m % ((#[trigger] p[i]).val.den as int)
                == 0 by {
                if i < p.len() - 1 {
                    assert(p[i] == front[i]);
                    lemma_divides_transitive(m, l, p[i].val.den as int);
                }
            }
        }
    }
}

/// A fraction in lowest terms times a multiple of its denominator is an
/// integer, while the multiplication does not overflow.
pub proof fn lemma_scaled_integer(val: Rat, l: int)
    requires
        val.wf(),
        l >= 1,
        l % (val.den as int) == 0,
        multiply_fits(val@, Frac { num: l, den: 1 }),
    ensures
        multiply(val@, Frac { num: l, den: 1 }) == (Frac {
            num: val.num * (l / (val.den as int)),
            den: 1,
        }),
{
    let f = Frac { num: l, den: 1 };
    lemma_multiply_exact(val@, f);
    let m = multiply(val@, f);
    let den = val.den as int;
    lemma_exact(l, den);
    let k = val.num * (l / den);
    lemma_gcd_units(abs(k), 0);
    assert((m.num * 1) * den == (k * m.den) * den) by (nonlinear_arith)
        requires
            m.num * (den * 1) == (val.num * l) * m.den,
            k == val.num * (l / den),
            l == (l / den) * den,
    ;
    assert(m.num * 1 == k * m.den) by (nonlinear_arith)
        requires
            (m.num * 1) * den == (k * m.den) * den,
            den > 0,
    ;
    lemma_lowest_terms_unique(m.num, m.den, k, 1);
}

/// An integer divided by one of its divisors is an integer, while the
/// division does not overflow.
pub proof fn lemma_divided_integer(n: int, d: int, k: int)
    requires
        d != 0,
        k * d == n,
        multiply_fits(Frac { num: n, den: 1 }, (Frac { num: d, den: 1 }).inverse()),
    ensures
        multiply(Frac { num: n, den: 1 }, (Frac { num: d, den: 1 }).inverse()) == (Frac {
            num: k,
            den: 1,
        }),
{
    let s = Frac { num: n, den: 1 };
    let v = (Frac { num: d, den: 1 }).inverse();
    lemma_multiply_exact(s, v);
    let m = multiply(s, v);
    lemma_gcd_units(abs(k), 0);
    assert(m.num * 1 == k * m.den) by (nonlinear_arith)
        requires
            m.num * (1 * v.den) == (n * v.num) * m.den,
            k * d == n,
            (v.num == -1 && v.den == -d && d < 0) || (v.num == 1 && v.den == d && d > 0),
    ;
    lemma_lowest_terms_unique(m.num, m.den, k, 1);
}

/// The coefficient of index `i` of the primitive form, as it is computed.
pub open spec fn norm_value(p: Seq<Term<Rat>>, i: int) -> Rat {
    p[i].val.scaled(common_den(p) as i64).quotient(Rat { num: norm_divisor(p), den: 1 })
}

/// The terms of `p` with the coefficients of its primitive form.
pub open spec fn norm_mapped(p: Seq<Term<Rat>>) -> Seq<Term<Rat>> {
    Seq::new(p.len(), |i: int| Term { val: norm_value(p, i), vars: p[i].vars })
}

/// While none of its coefficients vanishes, the primitive form has the
/// terms of the polynomial, each with its new coefficient.
pub proof fn lemma_norm_terms(p: Seq<Term<Rat>>, i: int)
    requires
        canonical(p),
        0 <= i <= p.len(),
        forall|j: int| 0 <= j < p.len() ==> !(#[trigger] norm_value(p, j)).is_zero_spec(),
    ensures
        norm_terms(norm_mapped(p).take(i), p.skip(i), common_den(p) as i64, norm_divisor(p))
            == norm_mapped(p),
    decreases p.len() - i,
{
    let l = common_den(p) as i64;
    let d = norm_divisor(p);
    let acc = norm_mapped(p).take(i);
    if i == p.len() {
        assert(acc =~= norm_mapped(p));
        assert(p.skip(i).len() == 0);
    } else {
        let rest = p.skip(i);
        assert(rest[0] == p[i]);
        assert(rest.skip(1) =~= p.skip(i + 1));
        let t = Term { val: norm_value(p, i), vars: p[i].vars };
        assert(!norm_value(p, i).is_zero_spec());
        assert(Term::make(p[i].val.scaled(l).quotient(Rat { num: d, den: 1 }), p[i].vars) == t);
        assert(single(t) == seq![t]);
        assert forall|k: int| 0 <= k < acc.len() implies place((#[trigger] acc[k]).vars, t.vars)
            == Place::Before by {
            assert(acc[k].vars == p[k].vars);
            assert(place(p[k].vars, p[i].vars) == Place::Before);
        }
        lemma_merge_appends(acc, t);
        assert(acc.push(t) =~= norm_mapped(p).take(i + 1));
        lemma_norm_terms(p, i + 1);
    }
}

/// A coefficient times the common denominator is an integer that is not
/// zero, while the primitive form is computed without overflow.
pub proof fn lemma_scaled_value(p: Seq<Term<Rat>>, i: int)
    requires
        canonical(p),
        norm_exact(p),
        0 <= i < p.len(),
    ensures
        p[i].val.scaled(common_den(p) as i64)@.den == 1,
        p[i].val.scaled(common_den(p) as i64).num != 0,
        1 <= common_den(p) <= i64::MAX,
{
    let big_l = common_den(p);
    assert forall|j: int| 0 <= j < p.len() implies (#[trigger] p[j]).val.den >= 1 by {
        assert(p[j].wf());
    }
    lemma_common_den(p);
    assert(p[i].wf() && !p[i].val.is_zero_spec());
    lemma_scaled_integer(p[i].val, big_l);
    lemma_multiply_exact(p[i].val@, Frac { num: big_l, den: 1 });
    let den = p[i].val.den as int;
    lemma_exact(big_l, den);
    let w = big_l / den;
    assert(w >= 1) by (nonlinear_arith)
        requires
            big_l == w * den,
            big_l >= 1,
            den >= 1,
    ;
    assert(p[i].val.num * w != 0) by (nonlinear_arith)
        requires
            p[i].val.num != 0,
            w >= 1,
    ;
}

/// The content is positive and the divisor is the content with the sign of
/// the leading coefficient, while the primitive form of a polynomial that
/// is not zero is computed without overflow.
pub proof fn lemma_norm_divisor(p: Seq<Term<Rat>>)
    requires
        canonical(p),
        norm_exact(p),
        p.len() > 0,
    ensures
        content(p, common_den(p) as i64) > 0,
        norm_divisor(p) as int == if p[0].val.scaled(common_den(p) as i64).num < 0 {
            -(content(p, common_den(p) as i64) as int)
        } else {
            content(p, common_den(p) as i64) as int
        },
{
    let l = common_den(p) as i64;
    let xs = scaled_numerators(p, l);
    let g = content(p, l);
    lemma_scaled_value(p, 0);
    assert(xs[0] == abs(p[0].val.scaled(l).num as int));
    assert(xs[0] > 0);
    lemma_seq_gcd_divides(xs);
    assert(g > 0);
    assert(xs[0] % g == 0);
    lemma_exact(xs[0] as int, g as int);
    assert(g <= xs[0]) by (nonlinear_arith)
        requires
            xs[0] as int == ((xs[0] as int) / (g as int)) * g,
            xs[0] > 0,
            g > 0,
    ;
}

/// A coefficient of the primitive form is an integer that is not zero: in
/// magnitude the numerator of the coefficient times the common denominator,
/// divided by the content, and positive for the leading coefficient.
pub proof fn lemma_norm_value(p: Seq<Term<Rat>>, i: int)
    requires
        canonical(p),
        norm_exact(p),
        0 <= i < p.len(),
    ensures
        norm_value(p, i).den == 1,
        norm_value(p, i).wf(),
        norm_value(p, i).num != 0,
        content(p, common_den(p) as i64) > 0,
        abs(norm_value(p, i).num as int) == scaled_numerators(p, common_den(p) as i64)[i] / content(
            p,
            common_den(p) as i64,
        ),
        i == 0 ==> norm_value(p, i).num > 0,
{
    let l = common_den(p) as i64;
    let d = norm_divisor(p);
    let xs = scaled_numerators(p, l);
    let g = content(p, l);
    lemma_scaled_value(p, i);
    lemma_scaled_value(p, 0);
    lemma_norm_divisor(p);
    lemma_seq_gcd_divides(xs);
    let sv = p[i].val.scaled(l);
    let lead_negative = p[0].val.scaled(l).num < 0;
    assert(xs[i] == abs(sv.num as int));
    assert(xs[i] % g == 0);
    lemma_exact(xs[i] as int, g as int);
    let m = (xs[i] / g) as int;
    assert(m > 0) by (nonlinear_arith)
        requires
            xs[i] as int == m * g,
            xs[i] > 0,
            g > 0,
    ;
    let k = if (sv.num < 0) == lead_negative { m } else { -m };
    assert(k * d == sv.num) by (nonlinear_arith)
        requires
            xs[i] as int == m * g,
            xs[i] as int == if sv.num < 0 { -(sv.num as int) } else { sv.num as int },
            d as int == if lead_negative { -(g as int) } else { g as int },
            k == if (sv.num < 0) == lead_negative { m } else { -m },
    ;
    assert(sv@ == Frac { num: sv.num as int, den: 1 });
    lemma_divided_integer(sv.num as int, d as int, k);
    lemma_multiply_exact(sv@, (Frac { num: d as int, den: 1 }).inverse());
    assert(norm_value(p, i)@ == Frac { num: k, den: 1 });
}

/// The primitive form of a polynomial is in primitive form, while it is
/// computed without overflow: its coefficients are integers without a
/// common factor, and the leading one is positive.
pub proof fn lemma_norm_primitive(p: Seq<Term<Rat>>)
    requires
        canonical(p),
        norm_exact(p),
    ensures
        primitive(poly_norm(p)),
        poly_norm(p).len() == p.len(),
        forall|i: int| 0 <= i < p.len() ==> (#[trigger] poly_norm(p)[i]).vars == p[i].vars,
{
    let l = common_den(p) as i64;
    let q = norm_mapped(p);
    assert(norm_mapped(p).take(0) =~= Seq::<Term<Rat>>::empty());
    assert(p.skip(0) =~= p);
    if p.len() == 0 {
        assert(poly_norm(p) =~= Seq::<Term<Rat>>::empty());
    } else {
        let xs = scaled_numerators(p, l);
        let g = content(p, l);
        assert forall|j: int| 0 <= j < p.len() implies !(#[trigger] norm_value(p, j)).is_zero_spec() by {
            lemma_norm_value(p, j);
        }
        lemma_norm_terms(p, 0);
        assert(poly_norm(p) == q);
        assert forall|i: int| 0 <= i < q.len() implies (#[trigger] q[i]).wf()
            && !q[i].val.is_zero_spec() && q[i].val.den == 1 by {
            assert(p[i].wf());
            lemma_norm_value(p, i);
        }
        assert forall|i: int, j: int| 0 <= i < j < q.len() implies place(
            (#[trigger] q[i]).vars,
            (#[trigger] q[j]).vars,
        ) == Place::Before by {
            assert(place(p[i].vars, p[j].vars) == Place::Before);
        }
        let ns = numerators(q);
        assert forall|i: int| 0 <= i < xs.len() implies #[trigger] ns[i] == xs[i] / g by {
            lemma_norm_value(p, i);
            assert(q[i].val == norm_value(p, i));
        }
        lemma_norm_value(p, 0);
        lemma_seq_gcd_cancel(xs, ns);
        assert(q[0].val == norm_value(p, 0));
    }
}

/// The primitive form of a polynomial in primitive form is the polynomial.
pub proof fn lemma_norm_fixes_primitive(p: Seq<Term<Rat>>)
    requires
        primitive(p),
    ensures
        poly_norm(p) == p,
        norm_exact(p),
{
    if p.len() == 0 {
        assert(poly_norm(p) =~= p);
    } else {
        lemma_unit_den(p);
        let l = common_den(p) as i64;
        assert(l == 1);
        assert forall|i: int| 0 <= i < p.len() implies (#[trigger] p[i]).val.scaled(1i64) == p[i].val
            && multiply_fits(p[i].val@, Frac { num: 1, den: 1 }) by {
            lemma_times_one(p[i].val);
        }
        assert(scaled_numerators(p, 1) =~= numerators(p));
        assert(content(p, 1) == 1);
        assert(norm_divisor(p) == 1);
        assert((Frac { num: 1, den: 1 }).inverse() == Frac { num: 1, den: 1 });
        assert forall|i: int| 0 <= i < p.len() implies (#[trigger] norm_value(p, i)) == p[i].val by {
            lemma_times_one(p[i].val);
        }
        assert(norm_mapped(p) =~= p);
        assert forall|j: int| 0 <= j < p.len() implies !(#[trigger] norm_value(p, j)).is_zero_spec() by {
            assert(!p[j].val.is_zero_spec());
        }
        lemma_norm_terms(p, 0);
        assert(norm_mapped(p).take(0) =~= Seq::<Term<Rat>>::empty());
        assert(p.skip(0) =~= p);
    }
}

/// The common denominator of integer coefficients is one.
pub proof fn lemma_unit_den(p: Seq<Term<Rat>>)
    requires
        forall|i: int| 0 <= i < p.len() ==> (#[trigger] p[i]).val.den == 1,
    ensures
        common_den(p) == 1,
        lcm_exact(p),
    decreases p.len(),
{
    if p.len() > 0 {
        let front = p.drop_last();
        assert forall|i: int| 0 <= i < front.len() implies (#[trigger] front[i]).val.den == 1 by {
            assert(front[i] == p[i]);
        }
        lemma_unit_den(front);
        assert(p.last() == p[p.len() - 1]);
        lemma_gcd_units(1, 1);
        assert(abs(1) == 1);
        assert(gcd_nat(abs(1), abs(1)) == 1);
        assert(1int * (1int / 1int) == 1) by (nonlinear_arith);
        assert(lcm_step(1, 1) == 1);
    }
}

/// An integer times one, and divided by one, is the integer.
pub proof fn lemma_times_one(val: Rat)
    requires
        val.wf(),
        val.den == 1,
    ensures
        multiply_fits(val@, Frac { num: 1, den: 1 }),
        val.scaled(1i64) == val,
        val.quotient(Rat { num: 1, den: 1 }) == val,
{
    let one = Frac { num: 1, den: 1 };
    lemma_gcd_units(abs(val.num as int), 1);
    assert((val.num as int / 1) * (1int / 1) == val.num) by (nonlinear_arith);
    assert((1int / 1) * (1int / 1) == 1) by (nonlinear_arith);
    crate::rational::lemma_reduce(val.num as int, 1);
    lemma_exact(val.num as int, 1);
    assert(multiply(val@, one) == val@);
}

/// Taking the primitive form twice gives what taking it once gives, while
/// it is computed without overflow.
pub proof fn lemma_norm_idempotent(p: Seq<Term<Rat>>)
    requires
        canonical(p),
        norm_exact(p),
    ensures
        poly_norm(poly_norm(p)) == poly_norm(p),
{
    lemma_norm_primitive(p);
    lemma_norm_fixes_primitive(poly_norm(p));
}

} // verus!
