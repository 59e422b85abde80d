//! The textual form of monomials and polynomials with rational coefficients.

use vstd::prelude::*;
use vstd::string::StringExecFns;
use crate::field::Field;
use crate::poly::mono::{Mono, Term};
use crate::poly::Poly;
use crate::decimal::{decimal, push_decimal};

verus! {

/// A power of a variable: its name, followed by `^` and the exponent unless
/// the exponent is one.
pub open spec fn power_text(name: Seq<char>, pow: u64) -> Seq<char> {
    if pow == 1 {
        name
    } else {
        name + seq!['^'] + decimal(pow as nat)
    }
}

/// The powers of a list of variables, one after the other.
pub open spec fn vars_text(vars: Seq<(usize, u64)>, names: Seq<String>) -> Seq<char>
    decreases vars.len(),
{
    if vars.len() == 0 {
        Seq::empty()
    } else {
        vars_text(vars.drop_last(), names) + power_text(
            names[vars.last().0 as int]@,
            vars.last().1,
        )
    }
}

/// Whether every variable of the list has a name.
pub open spec fn vars_named(vars: Seq<(usize, u64)>, count: nat) -> bool {
    forall|i: int| 0 <= i < vars.len() ==> (#[trigger] vars[i]).0 < count
}

/// Whether every variable of every term has a name.
pub open spec fn all_named<T: Field>(p: Seq<Term<T>>, count: nat) -> bool {
    forall|i: int| 0 <= i < p.len() ==> vars_named((#[trigger] p[i]).vars, count)
}

/// One term of a polynomial. The sign comes first: `-` or nothing in front
/// of the first term, ` - ` or ` + ` between terms. The magnitude of the
/// coefficient follows, unless it is one and variables follow it.
pub open spec fn term_text<T: Field>(t: Term<T>, first: bool, names: Seq<String>) -> Seq<char> {
    let negative = t.val.below(T::zero_spec());
    let sign: Seq<char> = if first {
        if negative {
            seq!['-']
        } else {
            Seq::empty()
        }
    } else if negative {
        seq![' ', '-', ' ']
    } else {
        seq![' ', '+', ' ']
    };
    let magnitude: Seq<char> = if is_unit(t) {
        Seq::empty()
    } else {
        t.val.magnitude_text()
    };
    sign + magnitude + vars_text(t.vars, names)
}

/// Whether a term has variables and the coefficient one or minus one.
pub open spec fn is_unit<T: Field>(t: Term<T>) -> bool {
    (t.val == T::one_spec() || t.val == T::zero_spec().difference(T::one_spec())) && t.vars.len()
        > 0
}

/// The terms of a polynomial, from the leading one on.
pub open spec fn terms_text<T: Field>(p: Seq<Term<T>>, names: Seq<String>) -> Seq<char>
    decreases p.len(),
{
    if p.len() == 0 {
        Seq::empty()
    } else {
        terms_text(p.drop_last(), names) + term_text(p.last(), p.len() == 1, names)
    }
}

/// A polynomial as text: its terms from the leading one on, or `0`.
pub open spec fn poly_text<T: Field>(p: Seq<Term<T>>, names: Seq<String>) -> Seq<char> {
    if p.len() == 0 {
        seq!['0']
    } else {
        terms_text(p, names)
    }
}

/// Appends the powers of a list of variables.
fn push_vars(s: &mut String, vars: &Vec<(usize, u64)>, var_dict: &[String])
    requires
        vars_named(vars@, var_dict@.len()),
    ensures
        final(s)@ == old(s)@ + vars_text(vars@, var_dict@),
{
    let ghost start = s@;
    let mut i: usize = 0;
    assert(vars@.take(0) =~= Seq::<(usize, u64)>::empty());
    assert(s@ =~= start + vars_text(vars@.take(0), var_dict@));
    while i < vars.len()
        invariant
            i <= vars.len(),
            vars_named(vars@, var_dict@.len()),
            s@ == start + vars_text(vars@.take(i as int), var_dict@),
        decreases vars.len() - i,
    {
        let ghost before = s@;
        let (var, pow) = vars[i];
        proof {
            assert(vars@.take(i + 1).drop_last() =~= vars@.take(i as int));
            assert(vars@.take(i + 1).last() == vars@[i as int]);
            reveal_strlit("^");
        }
        s.append(var_dict[var].as_str());
        if pow != 1 {
            s.append("^");
            push_decimal(s, pow);
        }
        assert(s@ =~= before + power_text(var_dict@[var as int]@, pow));
        assert(s@ =~= start + vars_text(vars@.take(i + 1), var_dict@));
        i = i + 1;
    }
    assert(vars@.take(vars.len() as int) =~= vars@);
}

/// The powers of the variables of a monomial, without its coefficient.
pub fn print_exps<T: Field>(term: &Mono<T>, var_dict: &[String]) -> (s: String)
    requires
        vars_named(term@.vars, var_dict@.len()),
    ensures
        s@ == vars_text(term@.vars, var_dict@),
{
    let mut s = String::new();
    push_vars(&mut s, &term.vars, var_dict);
    assert(s@ =~= vars_text(term@.vars, var_dict@));
    s
}

impl<T: Field> Poly<T> {
    /// The polynomial as text, with the names of its variables taken from
    /// `var_dict`.
    ///
    /// The terms come in their order, the leading one first, joined by
    /// ` + `, or by ` - ` in front of the magnitude of a negative
    /// coefficient. A coefficient of one or minus one is left out in front of
    /// variables, and any other is written as the field writes its
    /// magnitude. Exponents other than one follow their variable after `^`.
    /// The zero polynomial is `0`.
    pub fn format(&self, var_dict: &[String]) -> (s: String)
        requires
            self.wf(),
            all_named(self@, var_dict@.len()),
        ensures
            s@ == poly_text(self@, var_dict@),
    {
        let mut s = String::new();
        if self.terms.len() == 0 {
            proof {
                reveal_strlit("0");
            }
            s.append("0");
            assert(s@ =~= seq!['0']);
            return s;
        }
        proof {
            T::lemma_identities();
        }
        let zero = T::zero();
        let one = T::one();
        let minus_one = zero.minus(one);
        let mut i: usize = 0;
        assert(self@.take(0) =~= Seq::<Term<T>>::empty());
        assert(s@ =~= terms_text(self@.take(0), var_dict@));
        while i < self.terms.len()
            invariant
                i <= self.terms.len(),
                self.wf(),
                all_named(self@, var_dict@.len()),
                zero == T::zero_spec(),
                one == T::one_spec(),
                minus_one == T::zero_spec().difference(T::one_spec()),
                zero.valid(),
                s@ == terms_text(self@.take(i as int), var_dict@),
            decreases self.terms.len() - i,
        {
            let ghost before = s@;
            let term = &self.terms[i];
            proof {
                assert(self@.take(i + 1).drop_last() =~= self@.take(i as int));
                assert(self@.take(i + 1).last() == self.terms@[i as int]@);
                assert(self@[i as int] == term@);
                assert(self@[i as int].wf());
                reveal_strlit("-");
                reveal_strlit(" - ");
                reveal_strlit(" + ");
            }
            let negative = term.val.less_than(&zero);
            if i == 0 {
                if negative {
                    s.append("-");
                }
            } else if negative {
                s.append(" - ");
            } else {
                s.append(" + ");
            }
            let unit = (term.val.same(&one) || term.val.same(&minus_one)) && term.vars.len() > 0;
            if !unit {
                let magnitude = term.val.magnitude();
                s.append(magnitude.as_str());
            }
            push_vars(&mut s, &term.vars, var_dict);
            assert(s@ =~= before + term_text(term@, i == 0, var_dict@));
            i = i + 1;
        }
        assert(self@.take(self.terms.len() as int) =~= self@);
        s
    }
}

} // verus!
