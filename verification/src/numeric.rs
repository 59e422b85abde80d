//! Greatest common divisors over the naturals, the facts about them that
//! fraction arithmetic rests on, and their executable counterparts.

use vstd::prelude::*;
use vstd::arithmetic::div_mod::{
    lemma_fundamental_div_mod,
    lemma_fundamental_div_mod_converse,
};

verus! {

/// Magnitude of an integer.
pub open spec fn abs(x: int) -> nat {
    if x < 0 {
        (-x) as nat
    } else {
        x as nat
    }
}

/// Euclid's recursion. `gcd_nat(0, 0)` is `0`.
pub open spec fn gcd_nat(a: nat, b: nat) -> nat
    decreases b,
{
    if b == 0 {
        a
    } else {
        gcd_nat(b, a % b)
    }
}

/// A multiple of `d` leaves no remainder, and dividing it by `d` gives the factor back.
pub proof fn lemma_multiple(k: int, d: int)
    requires
        d > 0,
    ensures
        (k * d) % d == 0,
        (d * k) % d == 0,
        (k * d) / d == k,
        (d * k) / d == k,
{
    lemma_fundamental_div_mod_converse(k * d, d, k, 0);
    assert(k * d == d * k) by (nonlinear_arith);
}

/// A number that `d` divides is `d` times its quotient.
pub proof fn lemma_exact(n: int, d: int)
    requires
        d > 0,
        n % d == 0,
    ensures
        n == d * (n / d),
        n == (n / d) * d,
{
    lemma_fundamental_div_mod(n, d);
    assert(d * (n / d) == (n / d) * d) by (nonlinear_arith);
}

/// The gcd divides both arguments, and is positive unless both are zero.
pub proof fn lemma_gcd_divides(a: nat, b: nat)
    requires
        a > 0 || b > 0,
    ensures
        gcd_nat(a, b) > 0,
        a % gcd_nat(a, b) == 0,
        b % gcd_nat(a, b) == 0,
    decreases b,
{
    if b == 0 {
        lemma_multiple(1, a as int);
        lemma_multiple(0, a as int);
    } else {
        let r = a % b;
        lemma_gcd_divides(b, r);
        let g = gcd_nat(b, r) as int;
        lemma_exact(b as int, g);
        lemma_exact(r as int, g);
        lemma_fundamental_div_mod(a as int, b as int);
        let kb = (b as int) / g;
        let kr = (r as int) / g;
        let q = (a as int) / (b as int);
        assert(a as int == (kb * q + kr) * g) by (nonlinear_arith)
            requires
                a as int == (b as int) * q + (r as int),
                b as int == kb * g,
                r as int == kr * g,
        ;
        lemma_multiple(kb * q + kr, g);
    }
}

/// Every common divisor divides the gcd.
pub proof fn lemma_gcd_greatest(a: nat, b: nat, d: nat)
    requires
        d > 0,
        a % d == 0,
        b % d == 0,
    ensures
        gcd_nat(a, b) % d == 0,
    decreases b,
{
    if b != 0 {
        let r = a % b;
        lemma_exact(a as int, d as int);
        lemma_exact(b as int, d as int);
        lemma_fundamental_div_mod(a as int, b as int);
        let ka = (a as int) / (d as int);
        let kb = (b as int) / (d as int);
        let q = (a as int) / (b as int);
        assert(r as int == (ka - kb * q) * d) by (nonlinear_arith)
            requires
                a as int == (b as int) * q + (r as int),
                a as int == ka * d,
                b as int == kb * d,
        ;
        lemma_multiple(ka - kb * q, d as int);
        lemma_gcd_greatest(b, r, d);
    }
}

/// Two positive numbers that divide each other are equal.
pub proof fn lemma_mutual_divisors(x: nat, y: nat)
    requires
        x > 0,
        y > 0,
        x % y == 0,
        y % x == 0,
    ensures
        x == y,
{
    lemma_exact(x as int, y as int);
    lemma_exact(y as int, x as int);
    let j = (x as int) / (y as int);
    let k = (y as int) / (x as int);
    assert(x == y) by (nonlinear_arith)
        requires
            x > 0,
            y > 0,
            x as int == j * y,
            y as int == k * x,
    ;
}

/// The gcd does not depend on the order of its arguments.
pub proof fn lemma_gcd_symmetric(a: nat, b: nat)
    ensures
        gcd_nat(a, b) == gcd_nat(b, a),
{
    if a == 0 && b == 0 {
    } else {
        lemma_gcd_divides(a, b);
        lemma_gcd_divides(b, a);
        lemma_gcd_greatest(a, b, gcd_nat(b, a));
        lemma_gcd_greatest(b, a, gcd_nat(a, b));
        lemma_mutual_divisors(gcd_nat(a, b), gcd_nat(b, a));
    }
}

/// The gcd is at most either argument that is positive.
pub proof fn lemma_gcd_bound(a: nat, b: nat)
    ensures
        a > 0 ==> gcd_nat(a, b) <= a,
        b > 0 ==> gcd_nat(a, b) <= b,
{
    if a > 0 || b > 0 {
        lemma_gcd_divides(a, b);
        let g = gcd_nat(a, b) as int;
        if a > 0 {
            lemma_exact(a as int, g);
            let k = (a as int) / g;
            assert(g <= a) by (nonlinear_arith)
                requires
                    a > 0,
                    g > 0,
                    a as int == k * g,
            ;
        }
        if b > 0 {
            lemma_exact(b as int, g);
            let k = (b as int) / g;
            assert(g <= b) by (nonlinear_arith)
                requires
                    b > 0,
                    g > 0,
                    b as int == k * g,
            ;
        }
    }
}

/// `gcd_nat(a, 1) == 1` and `gcd_nat(0, b) == b`.
pub proof fn lemma_gcd_units(a: nat, b: nat)
    ensures
        gcd_nat(a, 1) == 1,
        gcd_nat(1, b) == 1,
        gcd_nat(0, b) == b,
        gcd_nat(a, 0) == a,
{
    lemma_gcd_symmetric(0, b);
    lemma_gcd_bound(a, 1);
    lemma_gcd_divides(a, 1);
    lemma_gcd_symmetric(1, b);
    lemma_gcd_bound(b, 1);
    lemma_gcd_divides(b, 1);
}

/// Dividing two numbers by their gcd leaves them coprime.
pub proof fn lemma_gcd_cancel(a: nat, b: nat)
    requires
        a > 0 || b > 0,
    ensures
        gcd_nat(a / gcd_nat(a, b), b / gcd_nat(a, b)) == 1,
{
    lemma_gcd_divides(a, b);
    let g = gcd_nat(a, b);
    let a1 = a / g;
    let b1 = b / g;
    lemma_exact(a as int, g as int);
    lemma_exact(b as int, g as int);
    assert(a1 > 0 || b1 > 0) by (nonlinear_arith)
        requires
            a > 0 || b > 0,
            a as int == a1 * g,
            b as int == b1 * g,
    ;
    lemma_gcd_divides(a1, b1);
    let h = gcd_nat(a1, b1);
    lemma_exact(a1 as int, h as int);
    lemma_exact(b1 as int, h as int);
    let x = (a1 as int) / (h as int);
    let y = (b1 as int) / (h as int);
    assert(g * h > 0) by (nonlinear_arith)
        requires
            g > 0,
            h > 0,
    ;
    assert(a as int == x * (g * h)) by (nonlinear_arith)
        requires
            a as int == a1 * g,
            a1 as int == x * h,
    ;
    assert(b as int == y * (g * h)) by (nonlinear_arith)
        requires
            b as int == b1 * g,
            b1 as int == y * h,
    ;
    lemma_multiple(x, (g * h) as int);
    lemma_multiple(y, (g * h) as int);
    lemma_gcd_greatest(a, b, g * h);
    lemma_exact(g as int, (g * h) as int);
    let k = (g as int) / ((g * h) as int);
    assert(h == 1) by (nonlinear_arith)
        requires
            g > 0,
            h > 0,
            g as int == k * (g * h),
    ;
}

/// Bezout coefficients: the gcd is an integer combination of the arguments.
pub proof fn lemma_bezout(a: nat, b: nat) -> (c: (int, int))
    ensures
        a * c.0 + b * c.1 == gcd_nat(a, b),
    decreases b,
{
    if b == 0 {
        assert(a * 1 + b * 0 == a) by (nonlinear_arith)
            requires
                b == 0,
        ;
        (1, 0)
    } else {
        let r = a % b;
        let (x, y) = lemma_bezout(b, r);
        lemma_fundamental_div_mod(a as int, b as int);
        let q = (a as int) / (b as int);
        assert(a * y + b * (x - q * y) == b * x + r * y) by (nonlinear_arith)
            requires
                a as int == (b as int) * q + (r as int),
        ;
        (y, x - q * y)
    }
}

/// Gauss's lemma: a number coprime to `b` that divides `b * c` divides `c`.
pub proof fn lemma_coprime_divides(a: nat, b: nat, c: int)
    requires
        a > 0,
        gcd_nat(a, b) == 1,
        (b * c) % (a as int) == 0,
    ensures
        c % (a as int) == 0,
{
    let (x, y) = lemma_bezout(a, b);
    lemma_exact(b * c, a as int);
    let k = (b * c) / (a as int);
    assert(c == (x * c + k * y) * a) by (nonlinear_arith)
        requires
            a * x + b * y == 1,
            b * c == k * a,
    ;
    lemma_multiple(x * c + k * y, a as int);
}

/// A fraction in lowest terms with a positive denominator is the only such
/// fraction of its value.
pub proof fn lemma_lowest_terms_unique(n1: int, d1: int, n2: int, d2: int)
    requires
        d1 > 0,
        d2 > 0,
        gcd_nat(abs(n1), d1 as nat) == 1,
        gcd_nat(abs(n2), d2 as nat) == 1,
        n1 * d2 == n2 * d1,
    ensures
        n1 == n2,
        d1 == d2,
{
    lemma_gcd_symmetric(abs(n1), d1 as nat);
    lemma_gcd_symmetric(abs(n2), d2 as nat);
    // d1 divides |n1| * d2
    let s1: int = if n1 < 0 { -n2 } else { n2 };
    assert(abs(n1) * d2 == s1 * d1) by (nonlinear_arith)
        requires
            n1 * d2 == n2 * d1,
            abs(n1) == if n1 < 0 { -n1 } else { n1 },
            s1 == if n1 < 0 { -n2 } else { n2 },
    ;
    lemma_multiple(s1, d1);
    lemma_coprime_divides(d1 as nat, abs(n1), d2);
    // d2 divides |n2| * d1
    let s2: int = if n2 < 0 { -n1 } else { n1 };
    assert(abs(n2) * d1 == s2 * d2) by (nonlinear_arith)
        requires
            n1 * d2 == n2 * d1,
            abs(n2) == if n2 < 0 { -n2 } else { n2 },
            s2 == if n2 < 0 { -n1 } else { n1 },
    ;
    lemma_multiple(s2, d2);
    lemma_coprime_divides(d2 as nat, abs(n2), d1);
    lemma_mutual_divisors(d1 as nat, d2 as nat);
    assert(n1 == n2) by (nonlinear_arith)
        requires
            n1 * d2 == n2 * d1,
            d1 == d2,
            d1 > 0,
    ;
}

/// The gcd of a positive number and one of its multiples is the number.
pub proof fn lemma_gcd_of_divisor(x: nat, y: nat)
    requires
        x > 0,
        y % x == 0,
    ensures
        gcd_nat(x, y) == x,
{
    lemma_gcd_divides(x, y);
    lemma_multiple(1, x as int);
    lemma_gcd_greatest(x, y, x);
    lemma_mutual_divisors(gcd_nat(x, y), x);
}

/// A number coprime to `d` is coprime to every quotient of `d` by one of
/// its divisors.
pub proof fn lemma_coprime_quotient(n: nat, d: nat, k: nat)
    requires
        d > 0,
        k > 0,
        d % k == 0,
        gcd_nat(n, d) == 1,
    ensures
        d / k > 0,
        gcd_nat(n, d / k) == 1,
{
    lemma_exact(d as int, k as int);
    let q = d / k;
    assert(q > 0) by (nonlinear_arith)
        requires
            d as int == (q as int) * (k as int),
            d > 0,
            k > 0,
    ;
    lemma_gcd_divides(n, q);
    let h = gcd_nat(n, q);
    lemma_multiple(k as int, q as int);
    assert(d as int == (k as int) * (q as int));
    lemma_divides_transitive(d as int, q as int, h as int);
    lemma_gcd_greatest(n, d, h);
    lemma_multiple(h as int, 1);
    lemma_mutual_divisors(h, 1);
}

/// Divisibility is transitive.
pub proof fn lemma_divides_transitive(a: int, b: int, c: int)
    requires
        b > 0,
        c > 0,
        a % b == 0,
        b % c == 0,
    ensures
        a % c == 0,
{
    lemma_exact(a, b);
    lemma_exact(b, c);
    let x = a / b;
    let y = b / c;
    assert(a == (x * y) * c) by (nonlinear_arith)
        requires
            a == x * b,
            b == y * c,
    ;
    lemma_multiple(x * y, c);
}

/// The greatest common divisor of a list of numbers; zero for the empty
/// list and for a list of zeros.
pub open spec fn seq_gcd(xs: Seq<nat>) -> nat
    decreases xs.len(),
{
    if xs.len() == 0 {
        0
    } else {
        gcd_nat(seq_gcd(xs.drop_last()), xs.last())
    }
}

/// The gcd of a list is positive if one of its numbers is, and it divides
/// each of them.
pub proof fn lemma_seq_gcd_divides(xs: Seq<nat>)
    ensures
        (exists|i: int| 0 <= i < xs.len() && xs[i] > 0) ==> seq_gcd(xs) > 0,
        seq_gcd(xs) > 0 ==> forall|i: int| 0 <= i < xs.len() ==> #[trigger] xs[i] % seq_gcd(xs) == 0,
        seq_gcd(xs) == 0 ==> forall|i: int| 0 <= i < xs.len() ==> #[trigger] xs[i] == 0,
    decreases xs.len(),
{
    if xs.len() > 0 {
        let front = xs.drop_last();
        let g0 = seq_gcd(front);
        let g = seq_gcd(xs);
        lemma_seq_gcd_divides(front);
        lemma_gcd_units(g0, xs.last());
        if g0 > 0 || xs.last() > 0 {
            lemma_gcd_divides(g0, xs.last());
            assert forall|i: int| 0 <= i < xs.len() implies #[trigger] xs[i] % g == 0 by {
                if i < xs.len() - 1 {
                    assert(xs[i] == front[i]);
                    if g0 > 0 {
                        assert(front[i] % g0 == 0);
                        lemma_divides_transitive(xs[i] as int, g0 as int, g as int);
                    } else {
                        assert(front[i] == 0);
                        lemma_multiple(0, g as int);
                    }
                }
            }
        } else {
            assert forall|i: int| 0 <= i < xs.len() implies #[trigger] xs[i] == 0 by {
                if i < xs.len() - 1 {
                    assert(xs[i] == front[i]);
                }
            }
        }
        if exists|i: int| 0 <= i < xs.len() && xs[i] > 0 {
            let i = choose|i: int| 0 <= i < xs.len() && xs[i] > 0;
            if i < xs.len() - 1 {
                assert(front[i] > 0);
            }
        }
    }
}

/// A number that divides every number of a list divides their gcd.
pub proof fn lemma_seq_gcd_greatest(xs: Seq<nat>, d: nat)
    requires
        d > 0,
        forall|i: int| 0 <= i < xs.len() ==> #[trigger] xs[i] % d == 0,
    ensures
        seq_gcd(xs) % d == 0,
    decreases xs.len(),
{
    if xs.len() == 0 {
        lemma_multiple(0, d as int);
    } else {
        let front = xs.drop_last();
        assert forall|i: int| 0 <= i < front.len() implies #[trigger] front[i] % d == 0 by {
            assert(front[i] == xs[i]);
        }
        lemma_seq_gcd_greatest(front, d);
        assert(xs.last() == xs[xs.len() - 1]);
        lemma_gcd_greatest(seq_gcd(front), xs.last(), d);
    }
}

/// The numbers of a list divided by their gcd have the gcd one.
pub proof fn lemma_seq_gcd_cancel(xs: Seq<nat>, ys: Seq<nat>)
    requires
        seq_gcd(xs) > 0,
        ys.len() == xs.len(),
        forall|i: int| 0 <= i < xs.len() ==> #[trigger] ys[i] == xs[i] / seq_gcd(xs),
    ensures
        seq_gcd(ys) == 1,
{
    let g = seq_gcd(xs);
    lemma_seq_gcd_divides(xs);
    lemma_seq_gcd_divides(ys);
    // some number of the list is positive, and so is its quotient
    if forall|i: int| 0 <= i < xs.len() ==> xs[i] == 0 {
        lemma_seq_gcd_zeros(xs);
    }
    let w = choose|i: int| 0 <= i < xs.len() && xs[i] != 0;
    assert(xs[w] % g == 0);
    lemma_exact(xs[w] as int, g as int);
    assert(ys[w] == xs[w] / g);
    assert(ys[w] > 0) by (nonlinear_arith)
        requires
            xs[w] as int == (ys[w] as int) * (g as int),
            xs[w] > 0,
            g > 0,
    ;
    let h = seq_gcd(ys);
    assert(h > 0);
    assert(g * h > 0) by (nonlinear_arith)
        requires
            g > 0,
            h > 0,
    ;
    assert forall|i: int| 0 <= i < xs.len() implies #[trigger] xs[i] % (g * h) == 0 by {
        assert(xs[i] % g == 0);
        lemma_exact(xs[i] as int, g as int);
        assert(ys[i] == xs[i] / g);
        assert(ys[i] % h == 0);
        lemma_exact(ys[i] as int, h as int);
        let k = (ys[i] as int) / (h as int);
        assert(xs[i] as int == k * ((g * h) as int)) by (nonlinear_arith)
            requires
                xs[i] as int == (ys[i] as int) * (g as int),
                ys[i] as int == k * (h as int),
        ;
        lemma_multiple(k, (g * h) as int);
    }
    lemma_seq_gcd_greatest(xs, g * h);
    lemma_exact(g as int, (g * h) as int);
    let k = (g as int) / ((g * h) as int);
    assert(h == 1) by (nonlinear_arith)
        requires
            g > 0,
            h > 0,
            g as int == k * (g * h),
    ;
}

/// The gcd of a list of zeros is zero.
pub proof fn lemma_seq_gcd_zeros(xs: Seq<nat>)
    requires
        forall|i: int| 0 <= i < xs.len() ==> xs[i] == 0,
    ensures
        seq_gcd(xs) == 0,
    decreases xs.len(),
{
    if xs.len() > 0 {
        let front = xs.drop_last();
        assert forall|i: int| 0 <= i < front.len() implies front[i] == 0 by {
            assert(front[i] == xs[i]);
        }
        lemma_seq_gcd_zeros(front);
        assert(xs.last() == xs[xs.len() - 1]);
    }
}

/// Euclid's algorithm on non-negative wide integers.
pub fn gcd_wide(a: i128, b: i128) -> (g: i128)
    requires
        a >= 0,
        b >= 0,
    ensures
        g == gcd_nat(a as nat, b as nat),
        g >= 0,
{
    let mut x: i128 = a;
    let mut y: i128 = b;
    while y != 0
        invariant
            x >= 0,
            y >= 0,
            gcd_nat(x as nat, y as nat) == gcd_nat(a as nat, b as nat),
        decreases y,
    {
        let r: i128 = x % y;
        x = y;
        y = r;
    }
    x
}

/// Magnitude of a 64-bit integer, widened so that the smallest one has it too.
pub fn magnitude(x: i64) -> (m: i128)
    ensures
        m == abs(x as int),
        0 <= m <= 0x8000_0000_0000_0000,
{
    if x < 0 {
        -(x as i128)
    } else {
        x as i128
    }
}

/// Greatest common divisor of the magnitudes of two integers.
pub fn gcd(a: i64, b: i64) -> (g: i64)
    requires
        gcd_nat(abs(a as int), abs(b as int)) <= i64::MAX,
    ensures
        g == gcd_nat(abs(a as int), abs(b as int)),
{
    let g: i128 = gcd_wide(magnitude(a), magnitude(b));
    g as i64
}

} // verus!
