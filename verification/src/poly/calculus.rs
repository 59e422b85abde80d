//! The derivative of a polynomial in one variable, its degree in a
//! variable, and its coefficients as a polynomial in that variable.

use vstd::prelude::*;
use crate::field::Field;
use crate::poly::arithmetic::{merge, monomial, poly_merge, zero_poly};
use crate::poly::mono::{exponent_of, sorted_vars, Mono, Term};
use crate::poly::{single, Poly};

verus! {

/// The list of variables with the exponent of the first occurrence of `var`
/// lowered by `down`, and without that variable if nothing is left of it.
pub open spec fn lowered(v: Seq<(usize, u64)>, var: usize, down: u64) -> Seq<(usize, u64)>
    decreases v.len(),
{
    if v.len() == 0 {
        v
    } else if v[0].0 == var {
        if v[0].1 > down {
            seq![(var, (v[0].1 - down) as u64)] + v.skip(1)
        } else {
            v.skip(1)
        }
    } else {
        seq![v[0]] + lowered(v.skip(1), var, down)
    }
}

/// The coefficient times an exponent.
pub open spec fn times_exponent<T: Field>(val: T, e: u64) -> T {
    if e <= i64::MAX {
        val.scaled(e as i64)
    } else {
        let double = val.scaled((e / 2) as i64).scaled(2);
        if e % 2 == 1 {
            double.sum(val)
        } else {
            double
        }
    }
}

/// The derivative of a term in the variable `var`: zero where the variable
/// does not occur, and otherwise the coefficient times the exponent, with
/// the exponent lowered by one.
pub open spec fn term_derivative<T: Field>(t: Term<T>, var: usize) -> Term<T> {
    let e = exponent_of(t.vars, var);
    if e == 0 {
        Term::zero()
    } else if e == 1 {
        Term::make(t.val, lowered(t.vars, var, 1))
    } else {
        Term::make(times_exponent(t.val, e), lowered(t.vars, var, 1))
    }
}

/// `acc` plus the derivatives of the terms of `p`, added one by one.
pub open spec fn derive_terms<T: Field>(acc: Seq<Term<T>>, p: Seq<Term<T>>, var: usize) -> Seq<
    Term<T>,
>
    decreases p.len(),
{
    if p.len() == 0 {
        acc
    } else {
        derive_terms(poly_merge(acc, single(term_derivative(p[0], var)), false), p.skip(1), var)
    }
}

/// The derivative of a polynomial in the variable `var`.
pub open spec fn poly_derivative<T: Field>(p: Seq<Term<T>>, var: usize) -> Seq<Term<T>> {
    derive_terms(Seq::empty(), p, var)
}

/// The largest exponent that `var` has in a term of `p`.
pub open spec fn poly_degree<T: Field>(p: Seq<Term<T>>, var: usize) -> nat
    decreases p.len(),
{
    if p.len() == 0 {
        0
    } else {
        let rest = poly_degree(p.drop_last(), var);
        let e = exponent_of(p.last().vars, var) as nat;
        if e > rest {
            e
        } else {
            rest
        }
    }
}

/// A term without the variable `var`.
pub open spec fn stripped<T: Field>(t: Term<T>, var: usize) -> Term<T> {
    Term { val: t.val, vars: lowered(t.vars, var, exponent_of(t.vars, var)) }
}

/// The coefficient of the power `e` of `var` in `p`: the terms of `p` in
/// which `var` has the exponent `e`, without that variable, added one by one.
pub open spec fn coefficient_of<T: Field>(p: Seq<Term<T>>, var: usize, e: nat) -> Seq<Term<T>>
    decreases p.len(),
{
    if p.len() == 0 {
        Seq::empty()
    } else {
        let rest = coefficient_of(p.drop_last(), var, e);
        if exponent_of(p.last().vars, var) as nat == e {
            poly_merge(rest, single(stripped(p.last(), var)), false)
        } else {
            rest
        }
    }
}

/// The exponent of `var` in a list of variables, and the list with that
/// exponent lowered by `down`, or by all of it when `all` is set.
fn lower_vars(v: &Vec<(usize, u64)>, var: usize, down: u64, all: bool) -> (r: (u64, Vec<(usize, u64)>))
    requires
        sorted_vars(v@),
    ensures
        r.0 == exponent_of(v@, var),
        r.1@ == lowered(v@, var, if all { exponent_of(v@, var) } else { down }),
        sorted_vars(r.1@),
{
    let mut out: Vec<(usize, u64)> = Vec::new();
    let mut i: usize = 0;
    let ghost amount = if all { exponent_of(v@, var) } else { down };
    assert(v@.skip(0) =~= v@);
    assert(out@ + lowered(v@, var, amount) =~= lowered(v@, var, amount));
    while i < v.len()
        invariant
            i <= v.len(),
            sorted_vars(v@),
            amount == if all { exponent_of(v@, var) } else { down },
            exponent_of(v@.skip(i as int), var) == exponent_of(v@, var),
            out@ + lowered(v@.skip(i as int), var, amount) == lowered(v@, var, amount),
            out@ == v@.take(i as int),
        decreases v.len() - i,
    {
        let ghost rest = v@.skip(i as int);
        assert(rest[0] == v@[i as int]);
        assert(rest.skip(1) =~= v@.skip(i + 1));
        if v[i].0 == var {
            let e = v[i].1;
            if !all && e > down {
                out.push((var, e - down));
            }
            let mut k: usize = i + 1;
            let ghost head = out@;
            assert(head + v@.skip(i + 1) =~= lowered(v@, var, amount));
            while k < v.len()
                invariant
                    i < k <= v.len(),
                    sorted_vars(v@),
                    v@[i as int].0 == var,
                    head == if !all && e > down {
                        v@.take(i as int).push((var, (e - down) as u64))
                    } else {
                        v@.take(i as int)
                    },
                    e == v@[i as int].1,
                    out@ == head + v@.subrange(i + 1, k as int),
                decreases v.len() - k,
            {
                out.push(v[k]);
                assert(v@.subrange(i + 1, k + 1) =~= v@.subrange(i + 1, k as int).push(v@[k as int]));
                k = k + 1;
            }
            assert(v@.subrange(i + 1, v.len() as int) =~= v@.skip(i + 1));
            return (e, out);
        }
        let ghost before = out@;
        out.push(v[i]);
        assert(out@ + lowered(v@.skip(i + 1), var, amount) =~= before + lowered(rest, var, amount));
        assert(v@.take(i + 1) =~= v@.take(i as int).push(v@[i as int]));
        i = i + 1;
    }
    assert(out@ + lowered(v@.skip(i as int), var, amount) =~= out@);
    assert(v@.take(v.len() as int) =~= v@);
    (0, out)
}

/// The coefficient times an exponent.
pub fn times_power<T: Field>(val: T, e: u64) -> (r: T)
    requires
        val.valid(),
    ensures
        r == times_exponent(val, e),
        r.valid(),
{
    if e <= 0x7fff_ffff_ffff_ffff {
        val.times_int(e as i64)
    } else {
        let double = val.times_int((e / 2) as i64).times_int(2);
        if e % 2 == 1 {
            double.plus(val)
        } else {
            double
        }
    }
}

/// The exponent of `var` in a list of variables, as far as `usize` reaches.
fn degree_in(v: &Vec<(usize, u64)>, var: usize) -> (r: u64)
    ensures
        r == exponent_of(v@, var),
{
    let mut i: usize = 0;
    assert(v@.skip(0) =~= v@);
    while i < v.len()
        invariant
            i <= v.len(),
            exponent_of(v@.skip(i as int), var) == exponent_of(v@, var),
        decreases v.len() - i,
    {
        assert(v@.skip(i as int)[0] == v@[i as int]);
        assert(v@.skip(i as int).skip(1) =~= v@.skip(i + 1));
        if v[i].0 == var {
            return v[i].1;
        }
        i = i + 1;
    }
    0
}

impl<T: Field> Poly<T> {
    /// The derivative in the variable `var`.
    pub fn derivative(&self, var: usize) -> (r: Poly<T>)
        requires
            self.wf(),
        ensures
            r@ == poly_derivative(self@, var),
            r@ == crate::poly::linearity::derived_terms(self@, var),
            r.wf(),
    {
        proof {
            crate::poly::linearity::lemma_derivative_terms(self@, var);
        }
        let mut acc: Poly<T> = zero_poly();
        let mut i: usize = 0;
        assert(self@.skip(0) =~= self@);
        proof {
            T::lemma_identities();
        }
        while i < self.terms.len()
            invariant
                i <= self.terms.len(),
                self.wf(),
                acc.wf(),
                T::zero_spec().valid(),
                derive_terms(acc@, self@.skip(i as int), var) == poly_derivative(self@, var),
            decreases self.terms.len() - i,
        {
            proof {
                assert(self@.skip(i as int)[0] == self@[i as int] && self@[i as int]
                    == self.terms@[i as int]@);
                assert(self@.skip(i as int).skip(1) =~= self@.skip(i + 1));
                assert(self@[i as int].wf());
            }
            let term = &self.terms[i];
            let (e, vars) = lower_vars(&term.vars, var, 1, false);
            let m = if e == 0 {
                Mono { val: T::zero(), vars: Vec::new() }
            } else {
                let val = if e == 1 {
                    term.val
                } else {
                    times_power(term.val, e)
                };
                if val.is_zero() {
                    Mono { val, vars: Vec::new() }
                } else {
                    Mono { val, vars }
                }
            };
            assert(m@ == term_derivative(self@[i as int], var));
            acc = merge(&acc, &monomial(m), false);
            i = i + 1;
        }
        acc
    }

    /// The degree in the variable `var`: the largest exponent that it has in
    /// a term, or the largest `usize` if that is smaller.
    pub fn deg(&self, var: usize) -> (r: usize)
        ensures
            r as nat == if poly_degree(self@, var) > usize::MAX {
                usize::MAX as nat
            } else {
                poly_degree(self@, var)
            },
    {
        let mut best: u64 = 0;
        let mut i: usize = 0;
        assert(self@.take(0) =~= Seq::<Term<T>>::empty());
        while i < self.terms.len()
            invariant
                i <= self.terms.len(),
                best as nat == poly_degree(self@.take(i as int), var),
            decreases self.terms.len() - i,
        {
            proof {
                assert(self@.take(i + 1).drop_last() =~= self@.take(i as int));
                assert(self@.take(i + 1).last() == self.terms@[i as int]@);
            }
            let e = degree_in(&self.terms[i].vars, var);
            if e > best {
                best = e;
            }
            i = i + 1;
        }
        assert(self@.take(self.terms.len() as int) =~= self@);
        if best > usize::MAX as u64 {
            usize::MAX
        } else {
            best as usize
        }
    }

    /// The coefficients of the polynomial as one in the variable `var`, from
    /// the highest power down to the constant.
    pub fn coefs(&self, var: usize) -> (r: Vec<Poly<T>>)
        requires
            self.wf(),
            poly_degree(self@, var) < usize::MAX,
        ensures
            r.len() == poly_degree(self@, var) + 1,
            forall|k: int|
                0 <= k < r.len() ==> (#[trigger] r@[k])@ == coefficient_of(
                    self@,
                    var,
                    (poly_degree(self@, var) - k) as nat,
                ) && r@[k].wf(),
    {
        let d = self.deg(var);
        let mut out: Vec<Poly<T>> = Vec::new();
        let mut n: usize = 0;
        while n <= d
            invariant
                n <= d + 1,
                d < usize::MAX,
                out.len() == n,
                forall|k: int|
                    0 <= k < n ==> (#[trigger] out@[k])@ == Seq::<Term<T>>::empty() && out@[k].wf(),
            decreases d + 1 - n,
        {
            out.push(zero_poly());
            n = n + 1;
        }
        let mut i: usize = 0;
        assert(self@.take(0) =~= Seq::<Term<T>>::empty());
        while i < self.terms.len()
            invariant
                i <= self.terms.len(),
                self.wf(),
                d == poly_degree(self@, var),
                d < usize::MAX,
                out.len() == d + 1,
                poly_degree(self@.take(i as int), var) <= d,
                forall|k: int|
                    0 <= k < out.len() ==> (#[trigger] out@[k])@ == coefficient_of(
                        self@.take(i as int),
                        var,
                        (d - k) as nat,
                    ) && out@[k].wf(),
            decreases self.terms.len() - i,
        {
            let ghost prefix = self@.take(i as int);
            let ghost next = self@.take(i + 1);
            proof {
                assert(next.drop_last() =~= prefix);
                assert(next.last() == self.terms@[i as int]@);
                assert(self@[i as int].wf());
                lemma_degree_prefix(self@, i + 1);
            }
            let term = &self.terms[i];
            let (e, vars) = lower_vars(&term.vars, var, 0, true);
            let k: usize = d - (e as usize);
            let m = Mono { val: term.val, vars };
            assert(m@ == stripped(self@[i as int], var));
            assert(m.wf());
            let sum = merge(&out[k], &monomial(m), false);
            let ghost old_out = out@;
            out.set(k, sum);
            assert forall|j: int| 0 <= j < out.len() implies (#[trigger] out@[j])@ == coefficient_of(
                next,
                var,
                (d - j) as nat,
            ) && out@[j].wf() by {
                if j != k {
                    assert(out@[j] == old_out[j]);
                }
            }
            i = i + 1;
        }
        assert(self@.take(self.terms.len() as int) =~= self@);
        out
    }
}

/// The degree of the first `n` terms is at most the degree of them all.
pub proof fn lemma_degree_prefix<T: Field>(p: Seq<Term<T>>, n: int)
    requires
        0 <= n <= p.len(),
    ensures
        forall|var: usize| poly_degree(p.take(n), var) <= #[trigger] poly_degree(p, var),
    decreases p.len() - n,
{
    if n == p.len() {
        assert(p.take(n) =~= p);
    } else {
        lemma_degree_prefix(p, n + 1);
        assert(p.take(n + 1).drop_last() =~= p.take(n));
    }
}

} // verus!
