//! Monomials: a coefficient times a product of powers of variables, and the
//! order in which polynomials keep them.

use vstd::prelude::*;
use std::cmp::Ordering;
use crate::field::Field;

verus! {

/// A monomial: a coefficient and the variables that occur in it, each with
/// its exponent.
///
/// Valid when the variable indices increase strictly, every exponent is at
/// least one, and the zero monomial has no variables.
#[derive(Clone, Debug, PartialEq, Eq, Hash)]
pub struct Mono<T: Field> {
    pub val: T,
    pub vars: Vec<(usize, u64)>,
}

/// What a monomial denotes.
pub struct Term<T> {
    pub val: T,
    pub vars: Seq<(usize, u64)>,
}

impl<T: Field> View for Mono<T> {
    type V = Term<T>;

    open spec fn view(&self) -> Term<T> {
        Term { val: self.val, vars: self.vars@ }
    }
}

/// Where one monomial stands relative to another in a polynomial.
#[derive(Clone, Copy, Debug, PartialEq, Eq, Structural)]
pub enum Place {
    Before,
    Level,
    After,
}

/// Strictly increasing variable indices, exponents of at least one.
pub open spec fn sorted_vars(v: Seq<(usize, u64)>) -> bool {
    &&& forall|i: int| 0 <= i < v.len() ==> (#[trigger] v[i]).1 >= 1
    &&& forall|i: int, j: int| 0 <= i < j < v.len() ==> (#[trigger] v[i]).0 < (#[trigger] v[j]).0
}

/// The sum of the exponents.
pub open spec fn total_degree(v: Seq<(usize, u64)>) -> nat
    decreases v.len(),
{
    if v.len() == 0 {
        0
    } else {
        total_degree(v.drop_last()) + v.last().1 as nat
    }
}

/// Lexicographic comparison of two variable lists, position by position as
/// far as both reach: the list that has the earlier variable, or the higher
/// power of the same variable, at the first difference stands before.
pub open spec fn lex_place(a: Seq<(usize, u64)>, b: Seq<(usize, u64)>) -> Place
    decreases a.len(),
{
    if a.len() == 0 || b.len() == 0 {
        Place::Level
    } else if a[0].0 < b[0].0 {
        Place::Before
    } else if a[0].0 > b[0].0 {
        Place::After
    } else if a[0].1 > b[0].1 {
        Place::Before
    } else if a[0].1 < b[0].1 {
        Place::After
    } else {
        lex_place(a.skip(1), b.skip(1))
    }
}

/// The monomial order: a higher total degree stands before a lower one, and
/// equal degrees are told apart lexicographically.
pub open spec fn place(a: Seq<(usize, u64)>, b: Seq<(usize, u64)>) -> Place {
    if total_degree(a) > total_degree(b) {
        Place::Before
    } else if total_degree(a) < total_degree(b) {
        Place::After
    } else {
        lex_place(a, b)
    }
}

/// The sum of two exponents, held at the largest one that 64 bits can hold.
pub open spec fn exponent_sum(x: u64, y: u64) -> u64 {
    if x + y > u64::MAX {
        u64::MAX
    } else {
        (x + y) as u64
    }
}

/// The variables of either list, in increasing order. A variable of both has
/// the larger of its two exponents when `take_max` is set, and their sum
/// otherwise.
pub open spec fn union_vars(a: Seq<(usize, u64)>, b: Seq<(usize, u64)>, take_max: bool) -> Seq<
    (usize, u64),
>
    decreases a.len() + b.len(),
{
    if a.len() == 0 {
        b
    } else if b.len() == 0 {
        a
    } else if a[0].0 < b[0].0 {
        seq![a[0]] + union_vars(a.skip(1), b, take_max)
    } else if b[0].0 < a[0].0 {
        seq![b[0]] + union_vars(a, b.skip(1), take_max)
    } else {
        let power = if take_max {
            if a[0].1 >= b[0].1 {
                a[0].1
            } else {
                b[0].1
            }
        } else {
            exponent_sum(a[0].1, b[0].1)
        };
        seq![(a[0].0, power)] + union_vars(a.skip(1), b.skip(1), take_max)
    }
}

/// A list of variables in front of an optional rest.
pub open spec fn prepend(head: Seq<(usize, u64)>, rest: Option<Seq<(usize, u64)>>) -> Option<
    Seq<(usize, u64)>,
> {
    match rest {
        Some(r) => Some(head + r),
        None => None,
    }
}

/// The variables of `a` with the exponents of `b` taken off, if every
/// variable of `b` occurs in `a` with at least the exponent it has in `b`.
pub open spec fn quotient_vars(a: Seq<(usize, u64)>, b: Seq<(usize, u64)>) -> Option<
    Seq<(usize, u64)>,
>
    decreases a.len() + b.len(),
{
    if b.len() == 0 {
        Some(a)
    } else if a.len() == 0 {
        None
    } else if a[0].0 < b[0].0 {
        prepend(seq![a[0]], quotient_vars(a.skip(1), b))
    } else if a[0].0 > b[0].0 {
        None
    } else if a[0].1 < b[0].1 {
        None
    } else if a[0].1 == b[0].1 {
        quotient_vars(a.skip(1), b.skip(1))
    } else {
        prepend(seq![(a[0].0, (a[0].1 - b[0].1) as u64)], quotient_vars(a.skip(1), b.skip(1)))
    }
}

impl<T: Field> Term<T> {
    /// The representation invariant of a monomial.
    pub open spec fn wf(self) -> bool {
        &&& self.val.valid()
        &&& sorted_vars(self.vars)
        &&& self.val.is_zero_spec() ==> self.vars.len() == 0
    }

    /// The zero monomial.
    pub open spec fn zero() -> Term<T> {
        Term { val: T::zero_spec(), vars: Seq::empty() }
    }

    /// The monomial of a coefficient and variables, without the variables
    /// when the coefficient is zero.
    pub open spec fn make(val: T, vars: Seq<(usize, u64)>) -> Term<T> {
        if val.is_zero_spec() {
            Term { val, vars: Seq::empty() }
        } else {
            Term { val, vars }
        }
    }

    /// The product: coefficients multiplied, exponents added.
    pub open spec fn times(self, rhs: Term<T>) -> Term<T> {
        if self.val.is_zero_spec() || rhs.val.is_zero_spec() {
            Term::zero()
        } else {
            Term::make(self.val.product(rhs.val), union_vars(self.vars, rhs.vars, false))
        }
    }

    /// The quotient, where the divisor is not zero and divides: coefficients
    /// divided, exponents subtracted.
    pub open spec fn over(self, rhs: Term<T>) -> Option<Term<T>> {
        if rhs.val.is_zero_spec() {
            None
        } else {
            match quotient_vars(self.vars, rhs.vars) {
                None => None,
                Some(v) => Some(Term::make(self.val.quotient(rhs.val), v)),
            }
        }
    }

    /// The least common multiple of the variable parts, with coefficient one.
    pub open spec fn lcm(self, rhs: Term<T>) -> Term<T> {
        Term { val: T::one_spec(), vars: union_vars(self.vars, rhs.vars, true) }
    }
}

impl<T: Field> Mono<T> {
    /// The representation invariant.
    pub open spec fn wf(&self) -> bool {
        self@.wf()
    }

    /// A copy of the monomial.
    pub fn duplicate(&self) -> (r: Mono<T>)
        ensures
            r@ == self@,
    {
        Mono { val: self.val, vars: copy_vars(&self.vars) }
    }
}

/// A copy of a list of variables.
pub fn copy_vars(v: &Vec<(usize, u64)>) -> (r: Vec<(usize, u64)>)
    ensures
        r@ == v@,
{
    let mut r: Vec<(usize, u64)> = Vec::new();
    let mut i: usize = 0;
    while i < v.len()
        invariant
            i <= v.len(),
            r@ == v@.take(i as int),
        decreases v.len() - i,
    {
        r.push(v[i]);
        assert(v@.take(i + 1) =~= v@.take(i as int).push(v@[i as int]));
        i = i + 1;
    }
    assert(v@.take(v.len() as int) =~= v@);
    r
}

/// The total degree of a list of variables.
fn degree_of(v: &Vec<(usize, u64)>) -> (d: u128)
    ensures
        d == total_degree(v@),
{
    let mut d: u128 = 0;
    let mut i: usize = 0;
    while i < v.len()
        invariant
            i <= v.len(),
            d == total_degree(v@.take(i as int)),
            d <= i * 0x1_0000_0000_0000_0000,
        decreases v.len() - i,
    {
        assert(v@.take(i + 1).drop_last() =~= v@.take(i as int));
        assert((i + 1) * 0x1_0000_0000_0000_0000 == i * 0x1_0000_0000_0000_0000
            + 0x1_0000_0000_0000_0000) by (nonlinear_arith);
        assert(i * 0x1_0000_0000_0000_0000 <= 0xffff_ffff_ffff_ffff * 0x1_0000_0000_0000_0000)
            by (nonlinear_arith)
            requires
                i <= 0xffff_ffff_ffff_ffff,
        ;
        d = d + v[i].1 as u128;
        i = i + 1;
    }
    assert(v@.take(v.len() as int) =~= v@);
    d
}

/// Where `lhs` stands relative to `rhs` in the monomial order.
pub fn place_of(lhs: &Vec<(usize, u64)>, rhs: &Vec<(usize, u64)>) -> (p: Place)
    ensures
        p == place(lhs@, rhs@),
{
    let dl = degree_of(lhs);
    let dr = degree_of(rhs);
    if dl > dr {
        return Place::Before;
    }
    if dl < dr {
        return Place::After;
    }
    let mut i: usize = 0;
    assert(lhs@.skip(0) =~= lhs@ && rhs@.skip(0) =~= rhs@);
    while i < lhs.len() && i < rhs.len()
        invariant
            i <= lhs.len(),
            i <= rhs.len(),
            total_degree(lhs@) == total_degree(rhs@),
            lex_place(lhs@, rhs@) == lex_place(lhs@.skip(i as int), rhs@.skip(i as int)),
        decreases lhs.len() - i,
    {
        let (lv, lp) = lhs[i];
        let (rv, rp) = rhs[i];
        let ghost a = lhs@.skip(i as int);
        let ghost b = rhs@.skip(i as int);
        assert(a[0] == lhs@[i as int] && b[0] == rhs@[i as int]);
        if lv < rv {
            return Place::Before;
        }
        if lv > rv {
            return Place::After;
        }
        if lp > rp {
            return Place::Before;
        }
        if lp < rp {
            return Place::After;
        }
        assert(a.skip(1) =~= lhs@.skip(i + 1));
        assert(b.skip(1) =~= rhs@.skip(i + 1));
        i = i + 1;
    }
    Place::Level
}

/// Compares two monomials by their variables: `Less` when `lhs` stands
/// before `rhs` in a polynomial, which is when it has the higher total
/// degree or, at the same degree, comes first lexicographically.
pub fn grevlex<T: Field>(lhs: &Mono<T>, rhs: &Mono<T>) -> (o: Ordering)
    ensures
        o == match place(lhs@.vars, rhs@.vars) {
            Place::Before => Ordering::Less,
            Place::Level => Ordering::Equal,
            Place::After => Ordering::Greater,
        },
{
    match place_of(&lhs.vars, &rhs.vars) {
        Place::Before => Ordering::Less,
        Place::Level => Ordering::Equal,
        Place::After => Ordering::Greater,
    }
}

/// The variables of either list, merged in increasing order.
fn merge_vars(a: &Vec<(usize, u64)>, b: &Vec<(usize, u64)>, take_max: bool) -> (r: Vec<
    (usize, u64),
>)
    requires
        sorted_vars(a@),
        sorted_vars(b@),
    ensures
        r@ == union_vars(a@, b@, take_max),
        sorted_vars(r@),
{
    let mut out: Vec<(usize, u64)> = Vec::new();
    let mut i: usize = 0;
    let mut j: usize = 0;
    assert(a@.skip(0) =~= a@ && b@.skip(0) =~= b@);
    assert(out@ + union_vars(a@, b@, take_max) =~= union_vars(a@, b@, take_max));
    while i < a.len() || j < b.len()
        invariant
            i <= a.len(),
            j <= b.len(),
            sorted_vars(a@),
            sorted_vars(b@),
            sorted_vars(out@),
            out@ + union_vars(a@.skip(i as int), b@.skip(j as int), take_max) == union_vars(
                a@,
                b@,
                take_max,
            ),
            forall|k: int| 0 <= k < out.len() && i < a.len() ==> (#[trigger] out@[k]).0 < a@[i as int].0,
            forall|k: int| 0 <= k < out.len() && j < b.len() ==> (#[trigger] out@[k]).0 < b@[j as int].0,
        decreases (a.len() - i) + (b.len() - j),
    {
        let ghost sa = a@.skip(i as int);
        let ghost sb = b@.skip(j as int);
        let ghost before = out@;
        let item: (usize, u64);
        if j >= b.len() || (i < a.len() && a[i].0 < b[j].0) {
            item = a[i];
            assert(sa.skip(1) =~= a@.skip(i + 1));
            assert(union_vars(sa, sb, take_max) =~= seq![item] + union_vars(
                a@.skip(i + 1),
                sb,
                take_max,
            )) by {
                if sb.len() == 0 {
                    assert(union_vars(a@.skip(i + 1), sb, take_max) =~= a@.skip(i + 1));
                    assert(sa =~= seq![item] + a@.skip(i + 1));
                }
            }
            i = i + 1;
        } else if i >= a.len() || b[j].0 < a[i].0 {
            item = b[j];
            assert(sb.skip(1) =~= b@.skip(j + 1));
            assert(union_vars(sa, sb, take_max) =~= seq![item] + union_vars(
                sa,
                b@.skip(j + 1),
                take_max,
            )) by {
                if sa.len() == 0 {
                    assert(union_vars(sa, b@.skip(j + 1), take_max) =~= b@.skip(j + 1));
                    assert(sb =~= seq![item] + b@.skip(j + 1));
                }
            }
            j = j + 1;
        } else {
            let power: u64 = if take_max {
                if a[i].1 >= b[j].1 {
                    a[i].1
                } else {
                    b[j].1
                }
            } else if a[i].1 > u64::MAX - b[j].1 {
                u64::MAX
            } else {
                a[i].1 + b[j].1
            };
            item = (a[i].0, power);
            assert(sa.skip(1) =~= a@.skip(i + 1));
            assert(sb.skip(1) =~= b@.skip(j + 1));
            i = i + 1;
            j = j + 1;
        }
        out.push(item);
        assert(out@ + union_vars(a@.skip(i as int), b@.skip(j as int), take_max) =~= before
            + union_vars(sa, sb, take_max));
    }
    assert(out@ + union_vars(a@.skip(i as int), b@.skip(j as int), take_max) =~= out@);
    out
}

/// The product of two monomials.
pub fn monomial_mul<T: Field>(lhs: &Mono<T>, rhs: &Mono<T>) -> (r: Mono<T>)
    requires
        lhs.wf(),
        rhs.wf(),
    ensures
        r@ == lhs@.times(rhs@),
        r.wf(),
        !r@.val.is_zero_spec() ==> r@.val == lhs@.val.product(rhs@.val) && forall|var: usize|
            #[trigger] exponent_of(r@.vars, var) == exponent_sum(
                exponent_of(lhs@.vars, var),
                exponent_of(rhs@.vars, var),
            ),
{
    proof {
        T::lemma_identities();
        assert forall|var: usize|
            #[trigger] exponent_of(union_vars(lhs@.vars, rhs@.vars, false), var) == exponent_sum(
                exponent_of(lhs@.vars, var),
                exponent_of(rhs@.vars, var),
            ) by {
            lemma_exponent_union(lhs@.vars, rhs@.vars, false, var);
        }
    }
    if lhs.val.is_zero() || rhs.val.is_zero() {
        return Mono { val: T::zero(), vars: Vec::new() };
    }
    let val = lhs.val.times(rhs.val);
    if val.is_zero() {
        return Mono { val, vars: Vec::new() };
    }
    Mono { val, vars: merge_vars(&lhs.vars, &rhs.vars, false) }
}

/// The least common multiple of the variable parts of two monomials, with
/// coefficient one.
pub fn monomial_lcm<T: Field>(lhs: Mono<T>, rhs: Mono<T>) -> (r: Mono<T>)
    requires
        lhs.wf(),
        rhs.wf(),
    ensures
        r@ == lhs@.lcm(rhs@),
        r.wf(),
        forall|var: usize|
            #[trigger] exponent_of(r@.vars, var) == if exponent_of(lhs@.vars, var) >= exponent_of(
                rhs@.vars,
                var,
            ) {
                exponent_of(lhs@.vars, var)
            } else {
                exponent_of(rhs@.vars, var)
            },
{
    proof {
        T::lemma_identities();
        assert forall|var: usize|
            #[trigger] exponent_of(union_vars(lhs@.vars, rhs@.vars, true), var) == if exponent_of(
                lhs@.vars,
                var,
            ) >= exponent_of(rhs@.vars, var) {
                exponent_of(lhs@.vars, var)
            } else {
                exponent_of(rhs@.vars, var)
            } by {
            lemma_exponent_union(lhs@.vars, rhs@.vars, true, var);
        }
    }
    Mono { val: T::one(), vars: merge_vars(&lhs.vars, &rhs.vars, true) }
}

/// The variables of `a` with the exponents of `b` taken off, if `b` divides.
fn divide_vars(a: &Vec<(usize, u64)>, b: &Vec<(usize, u64)>) -> (r: Option<Vec<(usize, u64)>>)
    requires
        sorted_vars(a@),
        sorted_vars(b@),
    ensures
        match r {
            Some(v) => quotient_vars(a@, b@) == Some(v@) && sorted_vars(v@),
            None => quotient_vars(a@, b@).is_none(),
        },
{
    let mut out: Vec<(usize, u64)> = Vec::new();
    let mut i: usize = 0;
    let mut j: usize = 0;
    assert(a@.skip(0) =~= a@ && b@.skip(0) =~= b@);
    assert(prepend(out@, quotient_vars(a@, b@)) == quotient_vars(a@, b@)) by {
        match quotient_vars(a@, b@) {
            Some(rest) => {
                assert(out@ + rest =~= rest);
            },
            None => {},
        }
    }
    while j < b.len()
        invariant
            i <= a.len(),
            j <= b.len(),
            sorted_vars(a@),
            sorted_vars(b@),
            sorted_vars(out@),
            prepend(out@, quotient_vars(a@.skip(i as int), b@.skip(j as int))) == quotient_vars(
                a@,
                b@,
            ),
            forall|k: int| 0 <= k < out.len() && i < a.len() ==> (#[trigger] out@[k]).0 < a@[i as int].0,
        decreases (a.len() - i) + (b.len() - j),
    {
        let ghost sa = a@.skip(i as int);
        let ghost sb = b@.skip(j as int);
        let ghost before = out@;
        if i >= a.len() {
            return None;
        }
        assert(sa.skip(1) =~= a@.skip(i + 1));
        assert(sb.skip(1) =~= b@.skip(j + 1));
        assert(sa[0] == a@[i as int] && sb[0] == b@[j as int]);
        if a[i].0 < b[j].0 {
            out.push(a[i]);
            i = i + 1;
        } else if a[i].0 > b[j].0 {
            return None;
        } else if a[i].1 < b[j].1 {
            return None;
        } else if a[i].1 == b[j].1 {
            i = i + 1;
            j = j + 1;
        } else {
            out.push((a[i].0, a[i].1 - b[j].1));
            i = i + 1;
            j = j + 1;
        }
        assert(prepend(out@, quotient_vars(a@.skip(i as int), b@.skip(j as int))) == prepend(
            before,
            quotient_vars(sa, sb),
        )) by {
            match quotient_vars(a@.skip(i as int), b@.skip(j as int)) {
                Some(rest) => {
                    assert(out@ + rest =~= before + (out@.skip(before.len() as int) + rest));
                    assert(out@.skip(before.len() as int) =~= if out@.len() == before.len() {
                        Seq::<(usize, u64)>::empty()
                    } else {
                        seq![out@.last()]
                    });
                    assert(Seq::<(usize, u64)>::empty() + rest =~= rest);
                },
                None => {},
            }
        }
    }
    while i < a.len()
        invariant
            i <= a.len(),
            j == b.len(),
            sorted_vars(a@),
            sorted_vars(out@),
            Some(out@ + a@.skip(i as int)) == quotient_vars(a@, b@),
            forall|k: int| 0 <= k < out.len() && i < a.len() ==> (#[trigger] out@[k]).0 < a@[i as int].0,
        decreases a.len() - i,
    {
        let ghost before = out@;
        out.push(a[i]);
        assert(out@ + a@.skip(i + 1) =~= before + a@.skip(i as int));
        i = i + 1;
    }
    assert(out@ + a@.skip(i as int) =~= out@);
    Some(out)
}

/// The quotient of two monomials: `Some` exactly when the divisor is not
/// zero and each of its variables occurs in the dividend with at least the
/// same exponent.
pub fn monomial_div<T: Field>(lhs: &Mono<T>, rhs: &Mono<T>) -> (r: Option<Mono<T>>)
    requires
        lhs.wf(),
        rhs.wf(),
    ensures
        match r {
            Some(m) => lhs@.over(rhs@) == Some(m@) && m.wf(),
            None => lhs@.over(rhs@).is_none(),
        },
        r.is_some() <==> !rhs@.val.is_zero_spec() && exponents_within(rhs@.vars, lhs@.vars),
{
    proof {
        lemma_quotient_exponents(lhs@.vars, rhs@.vars);
    }
    if rhs.val.is_zero() {
        return None;
    }
    match divide_vars(&lhs.vars, &rhs.vars) {
        None => None,
        Some(vars) => {
            let val = lhs.val.over(rhs.val);
            if val.is_zero() {
                Some(Mono { val, vars: Vec::new() })
            } else {
                Some(Mono { val, vars })
            }
        },
    }
}


impl Place {
    /// The place of the second relative to the first, given that of the
    /// first relative to the second.
    pub open spec fn flip(self) -> Place {
        match self {
            Place::Before => Place::After,
            Place::Level => Place::Level,
            Place::After => Place::Before,
        }
    }
}

/// The total degree is the first exponent plus the degree of the rest.
pub proof fn lemma_degree_front(v: Seq<(usize, u64)>)
    requires
        v.len() > 0,
    ensures
        total_degree(v) == v[0].1 as nat + total_degree(v.skip(1)),
    decreases v.len(),
{
    if v.len() == 1 {
        assert(v.drop_last() =~= v.skip(1));
    } else {
        lemma_degree_front(v.drop_last());
        assert(v.skip(1).drop_last() =~= v.drop_last().skip(1));
    }
}

/// Swapping the arguments of the lexicographic comparison flips its result.
pub proof fn lemma_lex_flip(a: Seq<(usize, u64)>, b: Seq<(usize, u64)>)
    ensures
        lex_place(b, a) == lex_place(a, b).flip(),
    decreases a.len(),
{
    if a.len() > 0 && b.len() > 0 && a[0] == b[0] {
        lemma_lex_flip(a.skip(1), b.skip(1));
    }
}

/// Swapping the arguments of the monomial order flips its result.
pub proof fn lemma_place_flip(a: Seq<(usize, u64)>, b: Seq<(usize, u64)>)
    ensures
        place(b, a) == place(a, b).flip(),
{
    lemma_lex_flip(a, b);
}

/// Standing before, lexicographically, is transitive.
pub proof fn lemma_lex_transitive(a: Seq<(usize, u64)>, b: Seq<(usize, u64)>, c: Seq<(usize, u64)>)
    requires
        lex_place(a, b) == Place::Before,
        lex_place(b, c) == Place::Before,
    ensures
        lex_place(a, c) == Place::Before,
    decreases a.len(),
{
    if a[0] == b[0] && b[0] == c[0] {
        lemma_lex_transitive(a.skip(1), b.skip(1), c.skip(1));
    }
}

/// Standing before, in the monomial order, is transitive.
pub proof fn lemma_place_transitive(
    a: Seq<(usize, u64)>,
    b: Seq<(usize, u64)>,
    c: Seq<(usize, u64)>,
)
    requires
        place(a, b) == Place::Before,
        place(b, c) == Place::Before,
    ensures
        place(a, c) == Place::Before,
{
    if total_degree(a) == total_degree(b) && total_degree(b) == total_degree(c) {
        lemma_lex_transitive(a, b, c);
    }
}

/// Valid variable lists of the same total degree that the lexicographic
/// comparison does not tell apart are the same list.
pub proof fn lemma_lex_level(a: Seq<(usize, u64)>, b: Seq<(usize, u64)>)
    requires
        sorted_vars(a),
        sorted_vars(b),
        total_degree(a) == total_degree(b),
        lex_place(a, b) == Place::Level,
    ensures
        a == b,
    decreases a.len(),
{
    if a.len() == 0 && b.len() == 0 {
        assert(a =~= b);
    } else if a.len() == 0 {
        lemma_degree_front(b);
        assert(b[0].1 >= 1);
    } else if b.len() == 0 {
        lemma_degree_front(a);
        assert(a[0].1 >= 1);
    } else {
        lemma_degree_front(a);
        lemma_degree_front(b);
        lemma_sorted_rest(a);
        lemma_sorted_rest(b);
        lemma_lex_level(a.skip(1), b.skip(1));
        assert(a =~= seq![a[0]] + a.skip(1));
        assert(b =~= seq![b[0]] + b.skip(1));
    }
}

/// What is left of a valid variable list without its first entry is valid.
pub proof fn lemma_sorted_rest(v: Seq<(usize, u64)>)
    requires
        sorted_vars(v),
        v.len() > 0,
    ensures
        sorted_vars(v.skip(1)),
{
    let w = v.skip(1);
    assert forall|i: int| 0 <= i < w.len() implies (#[trigger] w[i]).1 >= 1 by {
        assert(w[i] == v[i + 1]);
    }
    assert forall|i: int, j: int| 0 <= i < j < w.len() implies (#[trigger] w[i]).0 < (
    #[trigger] w[j]).0 by {
        assert(w[i] == v[i + 1]);
        assert(w[j] == v[j + 1]);
    }
}

/// Valid variable lists that the monomial order does not tell apart are the
/// same list, and no list stands before itself.
pub proof fn lemma_place_level(a: Seq<(usize, u64)>, b: Seq<(usize, u64)>)
    requires
        sorted_vars(a),
        sorted_vars(b),
    ensures
        place(a, b) == Place::Level <==> a == b,
{
    if place(a, b) == Place::Level {
        lemma_lex_level(a, b);
    }
    if a == b {
        lemma_place_flip(a, a);
    }
}


/// Whether every variable of the list has an index above `lo`.
pub open spec fn vars_above(v: Seq<(usize, u64)>, lo: int) -> bool {
    forall|i: int| 0 <= i < v.len() ==> (#[trigger] v[i]).0 > lo
}

/// The quotient of two valid variable lists is a valid variable list, and
/// merging it with the divisor, exponents added, gives the dividend back.
pub proof fn lemma_quotient_then_union(a: Seq<(usize, u64)>, b: Seq<(usize, u64)>, lo: int)
    requires
        sorted_vars(a),
        sorted_vars(b),
        vars_above(a, lo),
        quotient_vars(a, b).is_some(),
    ensures
        sorted_vars(quotient_vars(a, b).unwrap()),
        vars_above(quotient_vars(a, b).unwrap(), lo),
        union_vars(quotient_vars(a, b).unwrap(), b, false) == a,
    decreases a.len() + b.len(),
{
    let q = quotient_vars(a, b).unwrap();
    if b.len() == 0 {
    } else {
        lemma_sorted_rest(a);
        lemma_sorted_rest(b);
        let a1 = a.skip(1);
        let b1 = b.skip(1);
        assert(a[0].1 >= 1 && a[0].0 > lo);
        assert(vars_above(a1, a[0].0 as int)) by {
            assert forall|i: int| 0 <= i < a1.len() implies (#[trigger] a1[i]).0 > a[0].0 by {
                assert(a1[i] == a[i + 1]);
            }
        }
        assert(a =~= seq![a[0]] + a1);
        assert(b =~= seq![b[0]] + b1);
        if a[0].0 < b[0].0 {
            lemma_quotient_then_union(a1, b, a[0].0 as int);
            let q1 = quotient_vars(a1, b).unwrap();
            assert(q == seq![a[0]] + q1);
            assert(q.skip(1) =~= q1);
            lemma_sorted_cons(a[0], q1);
        } else {
            lemma_quotient_then_union(a1, b1, a[0].0 as int);
            let q1 = quotient_vars(a1, b1).unwrap();
            if a[0].1 == b[0].1 {
                assert(q == q1);
                if q.len() > 0 {
                    assert(q[0].0 > b[0].0);
                }
            } else {
                let h = (a[0].0, (a[0].1 - b[0].1) as u64);
                assert(q == seq![h] + q1);
                assert(q.skip(1) =~= q1);
                lemma_sorted_cons(h, q1);
            }
        }
    }
}

/// An entry with a positive exponent in front of a valid variable list
/// whose indices are all above its own gives a valid variable list.
pub proof fn lemma_sorted_cons(h: (usize, u64), rest: Seq<(usize, u64)>)
    requires
        h.1 >= 1,
        sorted_vars(rest),
        vars_above(rest, h.0 as int),
    ensures
        sorted_vars(seq![h] + rest),
{
    let v = seq![h] + rest;
    assert forall|i: int| 0 <= i < v.len() implies (#[trigger] v[i]).1 >= 1 by {
        if i > 0 {
            assert(v[i] == rest[i - 1]);
        }
    }
    assert forall|i: int, j: int| 0 <= i < j < v.len() implies (#[trigger] v[i]).0 < (
    #[trigger] v[j]).0 by {
        assert(v[j] == rest[j - 1]);
        if i > 0 {
            assert(v[i] == rest[i - 1]);
        }
    }
}

/// Multiplying the quotient of two monomials by the divisor gives the
/// dividend back, where this holds of the coefficients and the quotient of
/// a coefficient that is not zero is not zero.
pub proof fn lemma_div_then_mul<T: Field>(a: Term<T>, b: Term<T>)
    requires
        a.wf(),
        b.wf(),
        a.over(b).is_some(),
        a.val.quotient(b.val).product(b.val) == a.val,
        !a.val.is_zero_spec() ==> !a.val.quotient(b.val).is_zero_spec(),
    ensures
        a.over(b).unwrap().times(b) == a,
{
    T::lemma_identities();
    let c = a.over(b).unwrap();
    lemma_quotient_then_union(a.vars, b.vars, -1);
    let q = quotient_vars(a.vars, b.vars).unwrap();
    if a.val.is_zero_spec() {
        assert(a.vars.len() == 0);
        assert(a.vars =~= Seq::<(usize, u64)>::empty());
        assert(a == Term::<T>::zero());
        if !c.val.is_zero_spec() {
            assert(c.times(b).vars =~= Seq::<(usize, u64)>::empty());
        }
    } else {
        assert(c == Term { val: a.val.quotient(b.val), vars: q });
    }
}

/// Multiplying the quotient of two monomials with rational coefficients by
/// the divisor gives the dividend back, while neither the division nor the
/// multiplication of the coefficients overflows.
pub proof fn lemma_rational_div_then_mul(a: Term<crate::rational::Rat>, b: Term<crate::rational::Rat>)
    requires
        a.wf(),
        b.wf(),
        a.over(b).is_some(),
        crate::rational::multiply_fits(a.val@, b.val@.inverse()),
        crate::rational::multiply_fits(
            crate::rational::multiply(a.val@, b.val@.inverse()),
            b.val@,
        ),
    ensures
        a.over(b).unwrap().times(b) == a,
{
    crate::rational::lemma_div_then_mul(a.val, b.val);
    lemma_div_then_mul(a, b);
}


/// The exponent that the variable `var` has in a list of variables; zero
/// where it does not occur.
pub open spec fn exponent_of(v: Seq<(usize, u64)>, var: usize) -> u64
    decreases v.len(),
{
    if v.len() == 0 {
        0
    } else if v[0].0 == var {
        v[0].1
    } else {
        exponent_of(v.skip(1), var)
    }
}

/// A variable below all those of a list does not occur in it.
pub proof fn lemma_exponent_absent(v: Seq<(usize, u64)>, var: usize)
    requires
        vars_above(v, var as int),
    ensures
        exponent_of(v, var) == 0,
    decreases v.len(),
{
    if v.len() > 0 {
        assert(v[0].0 > var);
        let rest = v.skip(1);
        assert forall|i: int| 0 <= i < rest.len() implies (#[trigger] rest[i]).0 > var by {
            assert(rest[i] == v[i + 1]);
        }
        lemma_exponent_absent(rest, var);
    }
}

/// The variables after the first of a valid list lie above the first.
pub proof fn lemma_rest_above(v: Seq<(usize, u64)>)
    requires
        sorted_vars(v),
        v.len() > 0,
    ensures
        vars_above(v.skip(1), v[0].0 as int),
        sorted_vars(v.skip(1)),
        v == seq![v[0]] + v.skip(1),
{
    lemma_sorted_rest(v);
    let rest = v.skip(1);
    assert forall|i: int| 0 <= i < rest.len() implies (#[trigger] rest[i]).0 > v[0].0 by {
        assert(rest[i] == v[i + 1]);
    }
    assert(v =~= seq![v[0]] + rest);
}

/// Variables above `lo` are above everything below `lo`.
pub proof fn lemma_above_weaken(v: Seq<(usize, u64)>, lo: int, lower: int)
    requires
        vars_above(v, lo),
        lower <= lo,
    ensures
        vars_above(v, lower),
{
}

/// The exponent of a variable in a list with one more entry in front.
pub proof fn lemma_exponent_cons(h: (usize, u64), rest: Seq<(usize, u64)>, var: usize)
    ensures
        exponent_of(seq![h] + rest, var) == if h.0 == var {
            h.1
        } else {
            exponent_of(rest, var)
        },
{
    assert((seq![h] + rest).skip(1) =~= rest);
}

/// In the product of two monomials every variable has the sum of its
/// exponents, and in their least common multiple the larger one.
pub proof fn lemma_exponent_union(
    a: Seq<(usize, u64)>,
    b: Seq<(usize, u64)>,
    take_max: bool,
    var: usize,
)
    requires
        sorted_vars(a),
        sorted_vars(b),
    ensures
        exponent_of(union_vars(a, b, take_max), var) == if take_max {
            if exponent_of(a, var) >= exponent_of(b, var) {
                exponent_of(a, var)
            } else {
                exponent_of(b, var)
            }
        } else {
            exponent_sum(exponent_of(a, var), exponent_of(b, var))
        },
    decreases a.len() + b.len(),
{
    if a.len() == 0 || b.len() == 0 {
    } else {
        lemma_rest_above(a);
        lemma_rest_above(b);
        let a1 = a.skip(1);
        let b1 = b.skip(1);
        if a[0].0 < b[0].0 {
            lemma_exponent_union(a1, b, take_max, var);
            lemma_exponent_cons(a[0], union_vars(a1, b, take_max), var);
            if a[0].0 == var {
                lemma_above_weaken(b1, b[0].0 as int, var as int);
                lemma_exponent_absent(b1, var);
            }
        } else if b[0].0 < a[0].0 {
            lemma_exponent_union(a, b1, take_max, var);
            lemma_exponent_cons(b[0], union_vars(a, b1, take_max), var);
            if b[0].0 == var {
                lemma_above_weaken(a1, a[0].0 as int, var as int);
                lemma_exponent_absent(a1, var);
            }
        } else {
            lemma_exponent_union(a1, b1, take_max, var);
            let power = if take_max {
                if a[0].1 >= b[0].1 {
                    a[0].1
                } else {
                    b[0].1
                }
            } else {
                exponent_sum(a[0].1, b[0].1)
            };
            lemma_exponent_cons((a[0].0, power), union_vars(a1, b1, take_max), var);
        }
    }
}

/// Whether every variable has at most the exponent in `b` that it has in `a`.
pub open spec fn exponents_within(b: Seq<(usize, u64)>, a: Seq<(usize, u64)>) -> bool {
    forall|var: usize| #[trigger] exponent_of(b, var) <= exponent_of(a, var)
}

/// A monomial divides another exactly when each of its variables has at
/// most the exponent that it has in the other, and every variable then has
/// the difference of its exponents in the quotient.
pub proof fn lemma_quotient_exponents(a: Seq<(usize, u64)>, b: Seq<(usize, u64)>)
    requires
        sorted_vars(a),
        sorted_vars(b),
    ensures
        quotient_vars(a, b).is_some() <==> exponents_within(b, a),
        quotient_vars(a, b).is_some() ==> forall|var: usize|
            #[trigger] exponent_of(quotient_vars(a, b).unwrap(), var) == exponent_of(a, var)
                - exponent_of(b, var),
    decreases a.len() + b.len(),
{
    if b.len() == 0 {
    } else if a.len() == 0 {
        assert(exponent_of(b, b[0].0) == b[0].1);
        assert(b[0].1 >= 1);
        assert(exponent_of(a, b[0].0) == 0);
    } else {
        lemma_rest_above(a);
        lemma_rest_above(b);
        let a1 = a.skip(1);
        let b1 = b.skip(1);
        if a[0].0 < b[0].0 {
            lemma_quotient_exponents(a1, b);
            lemma_above_weaken(b1, b[0].0 as int, a[0].0 as int);
            lemma_exponent_absent(b1, a[0].0);
            assert(exponent_of(b, a[0].0) == 0);
            if exponents_within(b, a) {
                assert forall|var: usize| #[trigger] exponent_of(b, var) <= exponent_of(a1, var) by {
                    assert(exponent_of(b, var) <= exponent_of(a, var));
                }
            }
            if exponents_within(b, a1) {
                assert forall|var: usize| #[trigger] exponent_of(b, var) <= exponent_of(a, var) by {
                    assert(exponent_of(b, var) <= exponent_of(a1, var));
                }
            }
            if quotient_vars(a, b).is_some() {
                let q1 = quotient_vars(a1, b).unwrap();
                assert forall|var: usize| #[trigger] exponent_of(quotient_vars(a, b).unwrap(), var)
                    == exponent_of(a, var) - exponent_of(b, var) by {
                    lemma_exponent_cons(a[0], q1, var);
                    assert(exponent_of(q1, var) == exponent_of(a1, var) - exponent_of(b, var));
                }
            }
        } else if a[0].0 > b[0].0 {
            lemma_above_weaken(a1, a[0].0 as int, b[0].0 as int);
            lemma_exponent_absent(a1, b[0].0);
            assert(exponent_of(a, b[0].0) == 0);
            assert(exponent_of(b, b[0].0) == b[0].1);
            assert(b[0].1 >= 1);
        } else if a[0].1 < b[0].1 {
            assert(exponent_of(a, a[0].0) == a[0].1);
            assert(exponent_of(b, a[0].0) == b[0].1);
        } else {
            lemma_quotient_exponents(a1, b1);
            lemma_exponent_absent(a1, a[0].0);
            lemma_exponent_absent(b1, a[0].0);
            if exponents_within(b, a) {
                assert forall|var: usize| #[trigger] exponent_of(b1, var) <= exponent_of(a1, var) by {
                    assert(exponent_of(b, var) <= exponent_of(a, var));
                }
            }
            if exponents_within(b1, a1) {
                assert forall|var: usize| #[trigger] exponent_of(b, var) <= exponent_of(a, var) by {
                    assert(exponent_of(b1, var) <= exponent_of(a1, var));
                }
            }
            if quotient_vars(a, b).is_some() {
                let q1 = quotient_vars(a1, b1).unwrap();
                assert forall|var: usize| #[trigger] exponent_of(quotient_vars(a, b).unwrap(), var)
                    == exponent_of(a, var) - exponent_of(b, var) by {
                    assert(exponent_of(q1, var) == exponent_of(a1, var) - exponent_of(b1, var));
                    if a[0].1 > b[0].1 {
                        lemma_exponent_cons((a[0].0, (a[0].1 - b[0].1) as u64), q1, var);
                    }
                }
            }
        }
    }
}

/// The least common multiple of two monomials is divisible by both.
pub proof fn lemma_lcm_divisible(a: Seq<(usize, u64)>, b: Seq<(usize, u64)>)
    requires
        sorted_vars(a),
        sorted_vars(b),
    ensures
        sorted_vars(union_vars(a, b, true)),
        quotient_vars(union_vars(a, b, true), a).is_some(),
        quotient_vars(union_vars(a, b, true), b).is_some(),
{
    let l = union_vars(a, b, true);
    lemma_union_sorted(a, b, true, -1);
    lemma_quotient_exponents(l, a);
    lemma_quotient_exponents(l, b);
    assert forall|var: usize| #[trigger] exponent_of(a, var) <= exponent_of(l, var) by {
        lemma_exponent_union(a, b, true, var);
    }
    assert forall|var: usize| #[trigger] exponent_of(b, var) <= exponent_of(l, var) by {
        lemma_exponent_union(a, b, true, var);
    }
}

/// Merging two valid variable lists gives a valid variable list.
pub proof fn lemma_union_sorted(
    a: Seq<(usize, u64)>,
    b: Seq<(usize, u64)>,
    take_max: bool,
    lo: int,
)
    requires
        sorted_vars(a),
        sorted_vars(b),
        vars_above(a, lo),
        vars_above(b, lo),
    ensures
        sorted_vars(union_vars(a, b, take_max)),
        vars_above(union_vars(a, b, take_max), lo),
    decreases a.len() + b.len(),
{
    if a.len() == 0 || b.len() == 0 {
    } else {
        lemma_rest_above(a);
        lemma_rest_above(b);
        let a1 = a.skip(1);
        let b1 = b.skip(1);
        assert(a[0].0 > lo && b[0].0 > lo && a[0].1 >= 1 && b[0].1 >= 1);
        if a[0].0 < b[0].0 {
            assert(vars_above(b, a[0].0 as int)) by {
                assert forall|i: int| 0 <= i < b.len() implies (#[trigger] b[i]).0 > a[0].0 by {
                    if i > 0 {
                        assert(b[0].0 < b[i].0);
                    }
                }
            }
            lemma_union_sorted(a1, b, take_max, a[0].0 as int);
            lemma_sorted_cons(a[0], union_vars(a1, b, take_max));
            lemma_cons_above(a[0], union_vars(a1, b, take_max), lo);
        } else if b[0].0 < a[0].0 {
            assert(vars_above(a, b[0].0 as int)) by {
                assert forall|i: int| 0 <= i < a.len() implies (#[trigger] a[i]).0 > b[0].0 by {
                    if i > 0 {
                        assert(a[0].0 < a[i].0);
                    }
                }
            }
            lemma_union_sorted(a, b1, take_max, b[0].0 as int);
            lemma_sorted_cons(b[0], union_vars(a, b1, take_max));
            lemma_cons_above(b[0], union_vars(a, b1, take_max), lo);
        } else {
            let power = if take_max {
                if a[0].1 >= b[0].1 {
                    a[0].1
                } else {
                    b[0].1
                }
            } else {
                exponent_sum(a[0].1, b[0].1)
            };
            lemma_union_sorted(a1, b1, take_max, a[0].0 as int);
            lemma_sorted_cons((a[0].0, power), union_vars(a1, b1, take_max));
            lemma_cons_above((a[0].0, power), union_vars(a1, b1, take_max), lo);
        }
    }
}

/// An entry above `lo` in front of a list above the entry is above `lo`.
pub proof fn lemma_cons_above(h: (usize, u64), rest: Seq<(usize, u64)>, lo: int)
    requires
        h.0 > lo,
        vars_above(rest, h.0 as int),
    ensures
        vars_above(seq![h] + rest, lo),
{
    let v = seq![h] + rest;
    assert forall|i: int| 0 <= i < v.len() implies (#[trigger] v[i]).0 > lo by {
        if i > 0 {
            assert(v[i] == rest[i - 1]);
        }
    }
}


/// Whether `var` is the first variable in which two lists differ, and has
/// the higher exponent in `u`.
pub open spec fn first_difference(u: Seq<(usize, u64)>, w: Seq<(usize, u64)>, var: usize) -> bool {
    &&& exponent_of(u, var) > exponent_of(w, var)
    &&& forall|j: usize| j < var ==> #[trigger] exponent_of(u, j) == exponent_of(w, j)
}

/// The total degree of a valid list is at least each of its exponents, and
/// a list of degree zero is empty.
pub proof fn lemma_degree_bounds(v: Seq<(usize, u64)>, var: usize)
    requires
        sorted_vars(v),
    ensures
        total_degree(v) >= exponent_of(v, var),
        total_degree(v) == 0 ==> v.len() == 0,
    decreases v.len(),
{
    if v.len() > 0 {
        lemma_rest_above(v);
        lemma_degree_front(v);
        lemma_degree_bounds(v.skip(1), var);
        assert(v[0].1 >= 1);
    }
}

/// Of two valid lists of the same total degree, one stands before the
/// other lexicographically if, in the first variable in which they differ,
/// it has the higher exponent.
pub proof fn lemma_lex_from_difference(u: Seq<(usize, u64)>, w: Seq<(usize, u64)>, var: usize)
    requires
        sorted_vars(u),
        sorted_vars(w),
        total_degree(u) == total_degree(w),
        first_difference(u, w, var),
    ensures
        lex_place(u, w) == Place::Before,
    decreases u.len(),
{
    lemma_degree_bounds(u, var);
    lemma_degree_bounds(w, var);
    assert(u.len() > 0);
    assert(w.len() > 0);
    lemma_rest_above(u);
    lemma_rest_above(w);
    lemma_degree_front(u);
    lemma_degree_front(w);
    let u1 = u.skip(1);
    let w1 = w.skip(1);
    // the first variable of `u` is at most `var`
    if u[0].0 > var {
        lemma_above_weaken(u1, u[0].0 as int, var as int);
        lemma_exponent_absent(u1, var);
    }
    if w[0].0 < u[0].0 {
        // then `w` has a variable that `u` lacks, before `var`
        lemma_above_weaken(u1, u[0].0 as int, w[0].0 as int);
        lemma_exponent_absent(u1, w[0].0);
        assert(exponent_of(u, w[0].0) == 0);
        assert(exponent_of(w, w[0].0) == w[0].1);
        assert(exponent_of(u, w[0].0) == exponent_of(w, w[0].0));
    } else if w[0].0 == u[0].0 {
        if u[0].1 != w[0].1 {
            assert(exponent_of(u, u[0].0) == u[0].1);
            assert(exponent_of(w, u[0].0) == w[0].1);
            if u[0].0 < var {
                assert(exponent_of(u, u[0].0) == exponent_of(w, u[0].0));
            }
        } else {
            assert(u[0].0 != var);
            assert forall|j: usize| j < var implies #[trigger] exponent_of(u1, j) == exponent_of(
                w1,
                j,
            ) by {
                assert(exponent_of(u, j) == exponent_of(w, j));
                if j == u[0].0 {
                    lemma_exponent_absent(u1, j);
                    lemma_exponent_absent(w1, j);
                }
            }
            lemma_lex_from_difference(u1, w1, var);
        }
    }
}

/// Of two valid lists, the one that stands before the other
/// lexicographically has the higher exponent in the first variable in
/// which they differ.
pub proof fn lemma_lex_difference(u: Seq<(usize, u64)>, w: Seq<(usize, u64)>) -> (var: usize)
    requires
        sorted_vars(u),
        sorted_vars(w),
        lex_place(u, w) == Place::Before,
    ensures
        first_difference(u, w, var),
    decreases u.len(),
{
    lemma_rest_above(u);
    lemma_rest_above(w);
    let u1 = u.skip(1);
    let w1 = w.skip(1);
    if u[0].0 < w[0].0 {
        let k = u[0].0;
        lemma_above_weaken(w1, w[0].0 as int, k as int);
        lemma_exponent_absent(w1, k);
        assert(exponent_of(w, k) == 0);
        assert(u[0].1 >= 1);
        assert forall|j: usize| j < k implies #[trigger] exponent_of(u, j) == exponent_of(w, j) by {
            lemma_above_weaken(u1, k as int, j as int);
            lemma_exponent_absent(u1, j);
            lemma_above_weaken(w1, w[0].0 as int, j as int);
            lemma_exponent_absent(w1, j);
        }
        k
    } else if u[0].1 > w[0].1 {
        let k = u[0].0;
        assert forall|j: usize| j < k implies #[trigger] exponent_of(u, j) == exponent_of(w, j) by {
            lemma_above_weaken(u1, k as int, j as int);
            lemma_exponent_absent(u1, j);
            lemma_above_weaken(w1, k as int, j as int);
            lemma_exponent_absent(w1, j);
        }
        k
    } else {
        let k = lemma_lex_difference(u1, w1);
        let h = u[0].0;
        // `k` is a variable of what is left of `u`, so it comes after its first
        if k <= h {
            lemma_above_weaken(u1, h as int, k as int);
            lemma_exponent_absent(u1, k);
        }
        assert forall|j: usize| j < k implies #[trigger] exponent_of(u, j) == exponent_of(w, j) by {
            if j != h {
                assert(exponent_of(u1, j) == exponent_of(w1, j));
            }
        }
        k
    }
}

/// The total degree of the product of two monomials is the sum of their
/// total degrees, while no exponent goes beyond 64 bits.
pub proof fn lemma_union_degree(a: Seq<(usize, u64)>, b: Seq<(usize, u64)>)
    requires
        sorted_vars(a),
        sorted_vars(b),
        forall|var: usize| #[trigger] exponent_of(a, var) + exponent_of(b, var) <= u64::MAX,
    ensures
        total_degree(union_vars(a, b, false)) == total_degree(a) + total_degree(b),
    decreases a.len() + b.len(),
{
    if a.len() == 0 || b.len() == 0 {
        if a.len() == 0 {
            assert(total_degree(a) == 0);
        } else {
            assert(total_degree(b) == 0);
        }
    } else {
        lemma_rest_above(a);
        lemma_rest_above(b);
        lemma_degree_front(a);
        lemma_degree_front(b);
        let a1 = a.skip(1);
        let b1 = b.skip(1);
        if a[0].0 < b[0].0 {
            assert forall|var: usize| #[trigger] exponent_of(a1, var) + exponent_of(b, var)
                <= u64::MAX by {
                assert(exponent_of(a, var) + exponent_of(b, var) <= u64::MAX);
                if var == a[0].0 {
                    lemma_exponent_absent(a1, var);
                }
            }
            lemma_union_degree(a1, b);
            let l = seq![a[0]] + union_vars(a1, b, false);
            lemma_degree_front(l);
            assert(l.skip(1) =~= union_vars(a1, b, false));
        } else if b[0].0 < a[0].0 {
            assert forall|var: usize| #[trigger] exponent_of(a, var) + exponent_of(b1, var)
                <= u64::MAX by {
                assert(exponent_of(a, var) + exponent_of(b, var) <= u64::MAX);
                if var == b[0].0 {
                    lemma_exponent_absent(b1, var);
                }
            }
            lemma_union_degree(a, b1);
            let l = seq![b[0]] + union_vars(a, b1, false);
            lemma_degree_front(l);
            assert(l.skip(1) =~= union_vars(a, b1, false));
        } else {
            assert forall|var: usize| #[trigger] exponent_of(a1, var) + exponent_of(b1, var)
                <= u64::MAX by {
                assert(exponent_of(a, var) + exponent_of(b, var) <= u64::MAX);
                if var == a[0].0 {
                    lemma_exponent_absent(a1, var);
                    lemma_exponent_absent(b1, var);
                }
            }
            lemma_union_degree(a1, b1);
            assert(exponent_of(a, a[0].0) + exponent_of(b, a[0].0) <= u64::MAX);
            let h = (a[0].0, exponent_sum(a[0].1, b[0].1));
            let l = seq![h] + union_vars(a1, b1, false);
            lemma_degree_front(l);
            assert(l.skip(1) =~= union_vars(a1, b1, false));
        }
    }
}

/// Multiplying two monomials by the same monomial keeps their place in the
/// monomial order, while no exponent goes beyond 64 bits.
pub proof fn lemma_union_place(m: Seq<(usize, u64)>, u: Seq<(usize, u64)>, w: Seq<(usize, u64)>)
    requires
        sorted_vars(m),
        sorted_vars(u),
        sorted_vars(w),
        forall|var: usize| #[trigger] exponent_of(m, var) + exponent_of(u, var) <= u64::MAX,
        forall|var: usize| #[trigger] exponent_of(m, var) + exponent_of(w, var) <= u64::MAX,
        place(u, w) == Place::Before,
    ensures
        place(union_vars(m, u, false), union_vars(m, w, false)) == Place::Before,
{
    let mu = union_vars(m, u, false);
    let mw = union_vars(m, w, false);
    lemma_union_degree(m, u);
    lemma_union_degree(m, w);
    lemma_union_sorted(m, u, false, -1);
    lemma_union_sorted(m, w, false, -1);
    if total_degree(u) == total_degree(w) {
        let k = lemma_lex_difference(u, w);
        lemma_exponent_union(m, u, false, k);
        lemma_exponent_union(m, w, false, k);
        assert(exponent_of(m, k) + exponent_of(u, k) <= u64::MAX);
        assert(exponent_of(m, k) + exponent_of(w, k) <= u64::MAX);
        assert forall|j: usize| j < k implies #[trigger] exponent_of(mu, j) == exponent_of(mw, j) by {
            lemma_exponent_union(m, u, false, j);
            lemma_exponent_union(m, w, false, j);
            assert(exponent_of(u, j) == exponent_of(w, j));
        }
        lemma_lex_from_difference(mu, mw, k);
    }
}

} // verus!
