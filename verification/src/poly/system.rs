//! Systems of polynomials over one list of variable names, and their
//! reduced Groebner bases.

use vstd::prelude::*;
use vstd::string::StringExecFns;

use crate::poly::division::{all_canonical, poly_divide, polys_view, s_polynomial};
use crate::poly::mono::{monomial_div, place, place_of, Mono, Place, Term};
use crate::poly::normal::{lemma_norm_primitive, norm_exact, poly_norm, primitive};
use crate::poly::render::{all_named, poly_text};
use crate::poly::{canonical, constant_poly, leading, var_poly, Poly};
use crate::rational::Rat;

verus! {

/// The largest number of pairs that the closure of one basis looks at.
pub const PAIR_LIMIT: u64 = 0xffff_ffff_ffff_ffff;

/// A list of variable names and polynomials in those variables, the
/// variable with index `i` of a polynomial being the `i`-th name.
#[derive(Clone)]
pub struct System {
    pub var_dict: Vec<String>,
    pub members: Vec<Poly<Rat>>,
}

/// The pairs `(i, j)` for the `j` below `upto` other than `i`, in the order
/// of `j`.
pub open spec fn pairs_row(i: usize, upto: nat) -> Seq<(usize, usize)>
    decreases upto,
{
    if upto == 0 {
        Seq::empty()
    } else if upto - 1 == i {
        pairs_row(i, (upto - 1) as nat)
    } else {
        pairs_row(i, (upto - 1) as nat).push((i, (upto - 1) as usize))
    }
}

/// The pairs `(i, j)` of different indices below `n` with `i` below `rows`,
/// in the order of `i`, then of `j`.
pub open spec fn initial_pairs(rows: nat, n: nat) -> Seq<(usize, usize)>
    decreases rows,
{
    if rows == 0 {
        Seq::empty()
    } else {
        initial_pairs((rows - 1) as nat, n) + pairs_row((rows - 1) as usize, n)
    }
}

/// The pairs of every index below `m` with `m`.
pub open spec fn pairs_with(m: nat) -> Seq<(usize, usize)> {
    Seq::new(m, |k: int| (k as usize, m as usize))
}

/// Buchberger's closure, for at most `fuel` pairs.
///
/// The last pair of the work list is taken off. The S-polynomial of its two
/// members is divided by the basis; a remainder that is not zero joins the
/// basis, and its pairs with all earlier members join the work list.
pub open spec fn closure(
    members: Seq<Seq<Term<Rat>>>,
    pairs: Seq<(usize, usize)>,
    fuel: nat,
) -> Seq<Seq<Term<Rat>>>
    decreases fuel,
{
    if pairs.len() == 0 || fuel == 0 {
        members
    } else {
        let (i, j) = pairs.last();
        let rem = poly_divide(s_polynomial(members[i as int], members[j as int]), members).1;
        if rem.len() == 0 {
            closure(members, pairs.drop_last(), (fuel - 1) as nat)
        } else {
            closure(
                members.push(rem),
                pairs.drop_last() + pairs_with(members.len()),
                (fuel - 1) as nat,
            )
        }
    }
}

/// Whether the leading term of member `j` makes member `i` redundant: it
/// divides the leading term of `i`, and properly so or from an earlier place.
pub open spec fn dominates(members: Seq<Seq<Term<Rat>>>, j: int, i: int) -> bool {
    match leading(members[i]).over(leading(members[j])) {
        Some(m) => m.vars.len() > 0 || i > j,
        None => false,
    }
}

/// Whether some other member makes member `i` redundant.
pub open spec fn dominated(members: Seq<Seq<Term<Rat>>>, i: int) -> bool {
    exists|j: int| 0 <= j < members.len() && j != i && #[trigger] dominates(members, j, i)
}

/// The first `n` members without the zero ones and the redundant ones.
pub open spec fn kept(members: Seq<Seq<Term<Rat>>>, n: nat) -> Seq<Seq<Term<Rat>>>
    decreases n,
{
    if n == 0 {
        Seq::empty()
    } else {
        let prev = kept(members, (n - 1) as nat);
        if members[n - 1].len() > 0 && !dominated(members, n - 1) {
            prev.push(members[n - 1])
        } else {
            prev
        }
    }
}

/// Each member replaced by its remainder on division by the others.
pub open spec fn interreduced(members: Seq<Seq<Term<Rat>>>) -> Seq<Seq<Term<Rat>>> {
    Seq::new(members.len(), |i: int| poly_divide(members[i], members.remove(i)).1)
}

/// Where `x` goes into a list sorted by leading monomial: behind the last
/// member that does not have to stand after it.
pub open spec fn insert_position(sorted: Seq<Seq<Term<Rat>>>, x: Seq<Term<Rat>>) -> nat
    decreases sorted.len(),
{
    if sorted.len() == 0 {
        0
    } else if place(leading(sorted.last()).vars, leading(x).vars) == Place::After {
        insert_position(sorted.drop_last(), x)
    } else {
        sorted.len()
    }
}

/// The members in the order of their leading monomials, the greatest first;
/// members with the same leading monomial keep their order.
pub open spec fn sort_by_leading(members: Seq<Seq<Term<Rat>>>) -> Seq<Seq<Term<Rat>>>
    decreases members.len(),
{
    if members.len() == 0 {
        Seq::empty()
    } else {
        let sorted = sort_by_leading(members.drop_last());
        sorted.insert(insert_position(sorted, members.last()) as int, members.last())
    }
}

/// Whether no member has to stand after a later one: the leading monomials
/// go from the greatest on.
pub open spec fn leading_sorted(members: Seq<Seq<Term<Rat>>>) -> bool {
    forall|i: int, j: int|
        0 <= i < j < members.len() ==> place(
            leading(#[trigger] members[i]).vars,
            leading(#[trigger] members[j]).vars,
        ) != Place::After
}

/// A polynomial that does not have to stand after a second one, which does
/// not have to stand after a third, does not have to stand after the third.
pub proof fn lemma_not_after(a: Seq<Term<Rat>>, b: Seq<Term<Rat>>, c: Seq<Term<Rat>>)
    requires
        canonical(a),
        canonical(b),
        canonical(c),
        place(leading(a).vars, leading(b).vars) != Place::After,
        place(leading(b).vars, leading(c).vars) != Place::After,
    ensures
        place(leading(a).vars, leading(c).vars) != Place::After,
{
    let (x, y, z) = (leading(a).vars, leading(b).vars, leading(c).vars);
    assert(crate::poly::mono::sorted_vars(x)) by {
        if a.len() > 0 {
            assert(a[0].wf());
        }
    }
    assert(crate::poly::mono::sorted_vars(y)) by {
        if b.len() > 0 {
            assert(b[0].wf());
        }
    }
    assert(crate::poly::mono::sorted_vars(z)) by {
        if c.len() > 0 {
            assert(c[0].wf());
        }
    }
    crate::poly::mono::lemma_place_level(x, y);
    crate::poly::mono::lemma_place_level(y, z);
    if place(x, y) == Place::Before && place(y, z) == Place::Before {
        crate::poly::mono::lemma_place_transitive(x, y, z);
    }
}

/// Sorting canonical polynomials by their leading monomials puts them in
/// the order of their leading monomials, and keeps them canonical.
pub proof fn lemma_sort_sorted(members: Seq<Seq<Term<Rat>>>)
    requires
        all_canonical(members),
    ensures
        leading_sorted(sort_by_leading(members)),
        all_canonical(sort_by_leading(members)),
        sort_by_leading(members).len() == members.len(),
    decreases members.len(),
{
    if members.len() > 0 {
        let front = members.drop_last();
        let x = members.last();
        assert(members.last() == members[members.len() - 1]);
        assert forall|i: int| 0 <= i < front.len() implies canonical(#[trigger] front[i]) by {
            assert(front[i] == members[i]);
        }
        lemma_sort_sorted(front);
        let sorted = sort_by_leading(front);
        lemma_insert_position(sorted, x);
        let pos = insert_position(sorted, x) as int;
        let after = sorted.insert(pos, x);
        assert forall|i: int| 0 <= i < after.len() implies canonical(#[trigger] after[i]) by {
            if i < pos {
                assert(after[i] == sorted[i]);
            } else if i > pos {
                assert(after[i] == sorted[i - 1]);
            }
        }
        assert forall|i: int, j: int| 0 <= i < j < after.len() implies place(
            leading(#[trigger] after[i]).vars,
            leading(#[trigger] after[j]).vars,
        ) != Place::After by {
            if j < pos {
                assert(after[i] == sorted[i] && after[j] == sorted[j]);
            } else if j == pos {
                assert(after[i] == sorted[i]);
                if i < pos - 1 {
                    lemma_not_after(sorted[i], sorted[pos - 1], x);
                }
            } else if i == pos {
                assert(after[j] == sorted[j - 1]);
                crate::poly::mono::lemma_place_flip(
                    leading(sorted[j - 1]).vars,
                    leading(x).vars,
                );
            } else if i > pos {
                assert(after[i] == sorted[i - 1] && after[j] == sorted[j - 1]);
            } else {
                assert(after[i] == sorted[i] && after[j] == sorted[j - 1]);
            }
        }
    }
}

/// Where a polynomial goes into a sorted list: the member in front of that
/// position does not have to stand after it, and all members from that
/// position on have to.
pub proof fn lemma_insert_position(sorted: Seq<Seq<Term<Rat>>>, x: Seq<Term<Rat>>)
    ensures
        insert_position(sorted, x) <= sorted.len(),
        insert_position(sorted, x) > 0 ==> place(
            leading(sorted[insert_position(sorted, x) - 1]).vars,
            leading(x).vars,
        ) != Place::After,
        forall|j: int|
            insert_position(sorted, x) <= j < sorted.len() ==> place(
                leading(#[trigger] sorted[j]).vars,
                leading(x).vars,
            ) == Place::After,
    decreases sorted.len(),
{
    if sorted.len() > 0 {
        let front = sorted.drop_last();
        assert(sorted.last() == sorted[sorted.len() - 1]);
        if place(leading(sorted.last()).vars, leading(x).vars) == Place::After {
            lemma_insert_position(front, x);
            let pos = insert_position(front, x);
            if pos > 0 {
                assert(front[pos - 1] == sorted[pos - 1]);
            }
            assert forall|j: int| pos <= j < sorted.len() implies place(
                leading(#[trigger] sorted[j]).vars,
                leading(x).vars,
            ) == Place::After by {
                if j < sorted.len() - 1 {
                    assert(front[j] == sorted[j]);
                }
            }
        }
    }
}

/// The members of the basis before they are brought into primitive form.
pub open spec fn groebner_sorted(members: Seq<Seq<Term<Rat>>>) -> Seq<Seq<Term<Rat>>> {
    let closed = closure(members, initial_pairs(members.len(), members.len()), PAIR_LIMIT as nat);
    let minimal = kept(closed, closed.len());
    sort_by_leading(interreduced(minimal))
}

/// The reduced Groebner basis that Buchberger's algorithm gives: the
/// closure of the members under S-polynomial remainders, without redundant
/// members, each reduced by the others, sorted by leading monomial and in
/// primitive form.
pub open spec fn groebner(members: Seq<Seq<Term<Rat>>>) -> Seq<Seq<Term<Rat>>> {
    groebner_sorted(members).map_values(|p: Seq<Term<Rat>>| poly_norm(p))
}

/// Whether the primitive form of every member of the basis is computed
/// without overflow.
pub open spec fn groebner_norm_exact(members: Seq<Seq<Term<Rat>>>) -> bool {
    forall|i: int|
        0 <= i < groebner_sorted(members).len() ==> norm_exact(
            #[trigger] groebner_sorted(members)[i],
        )
}

/// The position of the first of `names` that is `name`.
pub open spec fn position_of(names: Seq<String>, name: Seq<char>) -> Option<int>
    decreases names.len(),
{
    if names.len() == 0 {
        None
    } else {
        match position_of(names.drop_last(), name) {
            Some(i) => Some(i),
            None => if names.last()@ == name {
                Some(names.len() - 1)
            } else {
                None
            },
        }
    }
}

/// A system as text: its members between brackets, separated by `, `.
pub open spec fn members_text(members: Seq<Seq<Term<Rat>>>, names: Seq<String>) -> Seq<char>
    decreases members.len(),
{
    if members.len() == 0 {
        Seq::empty()
    } else if members.len() == 1 {
        poly_text(members[0], names)
    } else {
        members_text(members.drop_last(), names) + seq![',', ' '] + poly_text(members.last(), names)
    }
}

/// A copy of a list of polynomials.
pub fn copy_polys(v: &Vec<Poly<Rat>>) -> (r: Vec<Poly<Rat>>)
    ensures
        polys_view(r@) == polys_view(v@),
{
    let mut r: Vec<Poly<Rat>> = Vec::new();
    let mut i: usize = 0;
    while i < v.len()
        invariant
            i <= v.len(),
            polys_view(r@) == polys_view(v@).take(i as int),
        decreases v.len() - i,
    {
        let p = v[i].duplicate();
        assert(polys_view(v@)[i as int] == v@[i as int]@);
        assert(polys_view(r@.push(p)) =~= polys_view(r@).push(p@));
        assert(polys_view(v@).take(i + 1) =~= polys_view(v@).take(i as int).push(p@));
        r.push(p);
        i = i + 1;
    }
    assert(polys_view(v@).take(v.len() as int) =~= polys_view(v@));
    r
}

/// A copy of a list of names.
pub fn copy_names(v: &Vec<String>) -> (r: Vec<String>)
    ensures
        r@ == v@,
{
    let mut r: Vec<String> = Vec::new();
    let mut i: usize = 0;
    while i < v.len()
        invariant
            i <= v.len(),
            r@ == v@.take(i as int),
        decreases v.len() - i,
    {
        r.push(v[i].clone());
        assert(r@ =~= v@.take(i + 1));
        i = i + 1;
    }
    assert(v@.take(v.len() as int) =~= v@);
    r
}

/// The members other than the one at `skip`, in their order.
fn others(v: &Vec<Poly<Rat>>, skip: usize) -> (r: Vec<Poly<Rat>>)
    requires
        skip < v.len(),
    ensures
        polys_view(r@) == polys_view(v@).remove(skip as int),
{
    let mut r: Vec<Poly<Rat>> = Vec::new();
    let mut i: usize = 0;
    let ghost target = polys_view(v@).remove(skip as int);
    while i < v.len()
        invariant
            i <= v.len(),
            skip < v.len(),
            target == polys_view(v@).remove(skip as int),
            polys_view(r@) == target.take(if i <= skip { i as int } else { i - 1 }),
        decreases v.len() - i,
    {
        if i != skip {
            let p = v[i].duplicate();
            let ghost at: int = if i <= skip { i as int } else { i - 1 };
            assert(polys_view(v@)[i as int] == v@[i as int]@);
            assert(target[at] == p@);
            assert(polys_view(r@.push(p)) =~= polys_view(r@).push(p@));
            assert(target.take(at + 1) =~= target.take(at).push(p@));
            r.push(p);
        }
        i = i + 1;
    }
    assert(target.take(target.len() as int) =~= target);
    r
}

/// Whether some other member makes member `i` redundant.
fn is_dominated(members: &Vec<Poly<Rat>>, i: usize) -> (b: bool)
    requires
        i < members.len(),
        all_canonical(polys_view(members@)),
    ensures
        b == dominated(polys_view(members@), i as int),
{
    let ghost mv = polys_view(members@);
    assert(mv[i as int] == members@[i as int]@);
    assert(canonical(mv[i as int]));
    let i_lt = members[i].lt_mono();
    let mut j: usize = 0;
    while j < members.len()
        invariant
            j <= members.len(),
            i < members.len(),
            mv == polys_view(members@),
            all_canonical(mv),
            i_lt@ == leading(mv[i as int]),
            i_lt.wf(),
            forall|k: int| 0 <= k < j && k != i ==> !dominates(mv, k, i as int),
        decreases members.len() - j,
    {
        if j != i {
            assert(mv[j as int] == members@[j as int]@);
            assert(canonical(mv[j as int]));
            let j_lt = members[j].lt_mono();
            match monomial_div(&i_lt, &j_lt) {
                Some(m) => {
                    if m.vars.len() > 0 || i > j {
                        assert(dominates(mv, j as int, i as int));
                        return true;
                    }
                },
                None => {},
            }
        }
        j = j + 1;
    }
    false
}

/// The members in the order of their leading monomials.
fn sort_members(v: &Vec<Poly<Rat>>) -> (r: Vec<Poly<Rat>>)
    requires
        all_canonical(polys_view(v@)),
    ensures
        polys_view(r@) == sort_by_leading(polys_view(v@)),
        all_canonical(polys_view(r@)),
{
    let mut sorted: Vec<Poly<Rat>> = Vec::new();
    let mut i: usize = 0;
    let ghost mv = polys_view(v@);
    assert(mv.take(0) =~= Seq::<Seq<Term<Rat>>>::empty());
    assert(polys_view(sorted@) =~= Seq::<Seq<Term<Rat>>>::empty());
    while i < v.len()
        invariant
            i <= v.len(),
            mv == polys_view(v@),
            all_canonical(mv),
            all_canonical(polys_view(sorted@)),
            polys_view(sorted@) == sort_by_leading(mv.take(i as int)),
        decreases v.len() - i,
    {
        let x = v[i].duplicate();
        let x_lt = x.lt_mono();
        let ghost sv = polys_view(sorted@);
        proof {
            assert(mv.take(i + 1).drop_last() =~= mv.take(i as int));
            assert(mv.take(i + 1).last() == x@);
            assert(sv.take(sv.len() as int) =~= sv);
        }
        let mut pos: usize = sorted.len();
        while pos > 0 && is_after(&sorted[pos - 1], &x_lt)
            invariant
                pos <= sorted.len(),
                sv == polys_view(sorted@),
                x_lt@ == leading(x@),
                insert_position(sv, x@) == insert_position(sv.take(pos as int), x@),
            decreases pos,
        {
            assert(sv.take(pos as int).drop_last() =~= sv.take(pos - 1));
            assert(sv.take(pos as int).last() == sorted@[pos - 1]@);
            pos = pos - 1;
        }
        proof {
            if pos > 0 {
                assert(sv.take(pos as int).last() == sorted@[pos - 1]@);
            }
            assert(insert_position(sv, x@) == pos);
            assert(polys_view(sorted@.insert(pos as int, x)) =~= sv.insert(pos as int, x@));
            assert(mv[i as int] == v@[i as int]@);
            assert(canonical(x@));
            let after = sv.insert(pos as int, x@);
            assert forall|t: int| 0 <= t < after.len() implies canonical(#[trigger] after[t]) by {
                if t < pos {
                    assert(after[t] == sv[t]);
                } else if t > pos {
                    assert(after[t] == sv[t - 1]);
                }
            }
        }
        sorted.insert(pos, x);
        i = i + 1;
    }
    assert(mv.take(v.len() as int) =~= mv);
    sorted
}

/// Whether a polynomial has to stand after a leading term in a sorted list.
fn is_after(p: &Poly<Rat>, x_lt: &Mono<Rat>) -> (b: bool)
    ensures
        b == (place(leading(p@).vars, x_lt@.vars) == Place::After),
{
    let p_lt = p.lt_mono();
    place_of(&p_lt.vars, &x_lt.vars) == Place::After
}

impl System {
    /// The constant polynomial of an integer.
    pub fn constant(&self, val: i64) -> (r: Poly<Rat>)
        ensures
            r.wf(),
            r@ == constant_poly::<Rat>(val),
    {
        Poly::constant(val)
    }

    /// The power `pow` of the variable called `var`.
    pub fn var(&self, var: &str, pow: u64) -> (r: Poly<Rat>)
        requires
            position_of(self.var_dict@, var@).is_some(),
        ensures
            r.wf(),
            r@ == var_poly::<Rat>(position_of(self.var_dict@, var@).unwrap() as usize, pow),
    {
        let name = var.to_owned();
        let mut i: usize = 0;
        assert(self.var_dict@.take(0) =~= Seq::<String>::empty());
        while i < self.var_dict.len()
            invariant
                i <= self.var_dict.len(),
                name@ == var@,
                position_of(self.var_dict@.take(i as int), var@).is_none(),
                position_of(self.var_dict@, var@).is_some(),
            decreases self.var_dict.len() - i,
        {
            proof {
                assert(self.var_dict@.take(i + 1).drop_last() =~= self.var_dict@.take(i as int));
                lemma_position_prefix(self.var_dict@, var@, i + 1);
            }
            if self.var_dict[i] == name {
                return Poly::var(i, pow);
            }
            i = i + 1;
        }
        proof {
            assert(self.var_dict@.take(i as int) =~= self.var_dict@);
        }
        Poly::var(0, pow)
    }

    /// A copy of member `i`.
    pub fn get(&self, i: usize) -> (r: Poly<Rat>)
        requires
            i < self.members.len(),
        ensures
            r@ == self.members@[i as int]@,
    {
        self.members[i].duplicate()
    }

    /// The system as text: its members between brackets, separated by `, `.
    pub fn format(&self) -> (s: String)
        requires
            self.wf(),
            forall|i: int|
                0 <= i < self.members.len() ==> all_named(
                    #[trigger] polys_view(self.members@)[i],
                    self.var_dict@.len(),
                ),
        ensures
            s@ == seq!['['] + members_text(polys_view(self.members@), self.var_dict@) + seq![']'],
    {
        let ghost mv = polys_view(self.members@);
        let mut s = String::new();
        proof {
            reveal_strlit("[");
            reveal_strlit("]");
            reveal_strlit(", ");
        }
        s.append("[");
        let mut i: usize = 0;
        assert(mv.take(0) =~= Seq::<Seq<Term<Rat>>>::empty());
        assert(s@ =~= seq!['['] + members_text(mv.take(0), self.var_dict@));
        while i < self.members.len()
            invariant
                i <= self.members.len(),
                mv == polys_view(self.members@),
                all_canonical(mv),
                forall|k: int| 0 <= k < mv.len() ==> all_named(#[trigger] mv[k], self.var_dict@.len()),
                s@ == seq!['['] + members_text(mv.take(i as int), self.var_dict@),
            decreases self.members.len() - i,
        {
            let ghost before = s@;
            proof {
                assert(mv.take(i + 1).drop_last() =~= mv.take(i as int));
                assert(mv.take(i + 1).last() == mv[i as int]);
                assert(mv[i as int] == self.members@[i as int]@);
                assert(canonical(mv[i as int]));
                assert(all_named(mv[i as int], self.var_dict@.len()));
                if i == 0 {
                    assert(mv.take(1)[0] == mv[0]);
                }
            }
            if i > 0 {
                proof {
                    reveal_strlit(", ");
                }
                s.append(", ");
            }
            let text = self.members[i].format(self.var_dict.as_slice());
            s.append(text.as_str());
            proof {
                let names = self.var_dict@;
                let t = poly_text(mv[i as int], names);
                assert(text@ == t);
                if i == 0 {
                    assert(before =~= seq!['[']);
                    assert(members_text(mv.take(1), names) == t);
                    assert(s@ =~= seq!['['] + t);
                } else {
                    assert(s@ =~= before + seq![',', ' '] + t);
                    assert(members_text(mv.take(i + 1), names) == members_text(
                        mv.take(i as int),
                        names,
                    ) + seq![',', ' '] + t);
                }
            }
            assert(s@ =~= seq!['['] + members_text(mv.take(i + 1), self.var_dict@));
            i = i + 1;
        }
        assert(mv.take(self.members.len() as int) =~= mv);
        s.append("]");
        s
    }

    /// Whether the members are canonical polynomials.
    pub open spec fn wf(&self) -> bool {
        all_canonical(polys_view(self.members@))
    }

    /// The system of the reduced Groebner basis of the members, over the
    /// same names.
    #[verifier::rlimit(40)]
    pub fn gb(&self) -> (r: System)
        requires
            self.wf(),
        ensures
            r.var_dict@ == self.var_dict@,
            polys_view(r.members@) == groebner(polys_view(self.members@)),
            r.wf(),
            groebner_norm_exact(polys_view(self.members@)) ==> leading_sorted(
                polys_view(r.members@),
            ) && forall|i: int|
                0 <= i < r.members.len() ==> primitive(#[trigger] polys_view(r.members@)[i]),
    {
        let ghost start = polys_view(self.members@);
        let n = self.members.len();
        let mut members = copy_polys(&self.members);
        // the work list
        let mut pairs: Vec<(usize, usize)> = Vec::new();
        let mut i: usize = 0;
        while i < n
            invariant
                i <= n,
                pairs@ == initial_pairs(i as nat, n as nat),
                forall|k: int| 0 <= k < pairs.len() ==> (#[trigger] pairs@[k]).0 < n && pairs@[k].1 < n,
            decreases n - i,
        {
            let ghost base = pairs@;
            let mut j: usize = 0;
            assert(base + pairs_row(i, 0) =~= base);
            while j < n
                invariant
                    j <= n,
                    i < n,
                    pairs@ == base + pairs_row(i, j as nat),
                    forall|k: int|
                        0 <= k < pairs.len() ==> (#[trigger] pairs@[k]).0 < n && pairs@[k].1 < n,
                decreases n - j,
            {
                if i != j {
                    pairs.push((i, j));
                    assert(pairs@ =~= base + pairs_row(i, (j + 1) as nat));
                }
                j = j + 1;
            }
            i = i + 1;
        }
        // closure
        assert(polys_view(members@).len() == start.len());
        let mut fuel: u64 = PAIR_LIMIT;
        while pairs.len() > 0 && fuel > 0
            invariant
                all_canonical(polys_view(members@)),
                forall|k: int|
                    0 <= k < pairs.len() ==> (#[trigger] pairs@[k]).0 < members.len() && pairs@[k].1
                        < members.len(),
                closure(polys_view(members@), pairs@, fuel as nat) == closure(
                    start,
                    initial_pairs(n as nat, n as nat),
                    PAIR_LIMIT as nat,
                ),
            decreases fuel,
        {
            let ghost mv = polys_view(members@);
            let ghost old_pairs = pairs@;
            let pair = pairs.pop();
            let (a, b) = match pair {
                Some(p) => p,
                None => (0, 0),
            };
            assert((a, b) == old_pairs.last());
            assert(pairs@ == old_pairs.drop_last());
            proof {
                assert(mv[a as int] == members@[a as int]@);
                assert(mv[b as int] == members@[b as int]@);
                assert(canonical(mv[a as int]) && canonical(mv[b as int]));
            }
            let s = Poly::s_poly(members[a].duplicate(), members[b].duplicate());
            let (_, rem) = s.compound_divide(&members);
            if !rem.is_zero() {
                let m = members.len();
                let mut k: usize = 0;
                let ghost base = pairs@;
                assert(base + pairs_with(m as nat).take(0) =~= base);
                while k < m
                    invariant
                        k <= m,
                        m == members.len(),
                        pairs@ == base + pairs_with(m as nat).take(k as int),
                        forall|t: int|
                            0 <= t < pairs.len() ==> (#[trigger] pairs@[t]).0 <= m && pairs@[t].1
                                <= m,
                    decreases m - k,
                {
                    pairs.push((k, m));
                    assert(pairs@ =~= base + pairs_with(m as nat).take(k + 1));
                    k = k + 1;
                }
                assert(pairs_with(m as nat).take(m as int) =~= pairs_with(m as nat));
                proof {
                    assert(polys_view(members@.push(rem)) =~= mv.push(rem@));
                    assert forall|t: int| 0 <= t < mv.push(rem@).len() implies canonical(
                        #[trigger] mv.push(rem@)[t],
                    ) by {
                        if t < mv.len() {
                            assert(mv.push(rem@)[t] == mv[t]);
                        }
                    }
                }
                members.push(rem);
            }
            fuel = fuel - 1;
        }
        let ghost closed = polys_view(members@);
        // without the redundant members
        let mut keep: Vec<Poly<Rat>> = Vec::new();
        i = 0;
        assert(polys_view(keep@) =~= Seq::<Seq<Term<Rat>>>::empty());
        while i < members.len()
            invariant
                i <= members.len(),
                closed == polys_view(members@),
                all_canonical(closed),
                all_canonical(polys_view(keep@)),
                polys_view(keep@) == kept(closed, i as nat),
            decreases members.len() - i,
        {
            assert(closed[i as int] == members@[i as int]@);
            assert(canonical(closed[i as int]));
            if !members[i].is_zero() && !is_dominated(&members, i) {
                let p = members[i].duplicate();
                let ghost kv = polys_view(keep@);
                proof {
                    assert(polys_view(keep@.push(p)) =~= kv.push(p@));
                    assert forall|t: int| 0 <= t < kv.push(p@).len() implies canonical(
                        #[trigger] kv.push(p@)[t],
                    ) by {
                        if t < kv.len() {
                            assert(kv.push(p@)[t] == kv[t]);
                        }
                    }
                }
                keep.push(p);
            }
            i = i + 1;
        }
        let ghost minimal = polys_view(keep@);
        // each reduced by the others
        let mut reduced: Vec<Poly<Rat>> = Vec::new();
        i = 0;
        while i < keep.len()
            invariant
                i <= keep.len(),
                minimal == polys_view(keep@),
                all_canonical(minimal),
                all_canonical(polys_view(reduced@)),
                polys_view(reduced@) == interreduced(minimal).take(i as int),
            decreases keep.len() - i,
        {
            let rest = others(&keep, i);
            proof {
                assert(minimal[i as int] == keep@[i as int]@);
                assert(canonical(minimal[i as int]));
                let rv = minimal.remove(i as int);
                assert forall|t: int| 0 <= t < rv.len() implies canonical(#[trigger] rv[t]) by {
                    if t < i {
                        assert(rv[t] == minimal[t]);
                    } else {
                        assert(rv[t] == minimal[t + 1]);
                    }
                }
            }
            let (_, rem) = keep[i].compound_divide(&rest);
            let ghost rv = polys_view(reduced@);
            proof {
                assert(polys_view(rest@) == minimal.remove(i as int));
                assert(rem@ == poly_divide(minimal[i as int], minimal.remove(i as int)).1);
                assert(rem@ == interreduced(minimal)[i as int]);
                assert(polys_view(reduced@.push(rem)) =~= rv.push(rem@));
                assert(interreduced(minimal).take(i + 1) =~= interreduced(minimal).take(
                    i as int,
                ).push(rem@));
                assert forall|t: int| 0 <= t < rv.push(rem@).len() implies canonical(
                    #[trigger] rv.push(rem@)[t],
                ) by {
                    if t < rv.len() {
                        assert(rv.push(rem@)[t] == rv[t]);
                    }
                }
                assert(polys_view(reduced@.push(rem)) =~= rv.push(rem@));
            }
            reduced.push(rem);
            i = i + 1;
        }
        assert(interreduced(minimal).take(keep.len() as int) =~= interreduced(minimal));
        // sorted, in primitive form
        let sorted = sort_members(&reduced);
        let ghost sv = polys_view(sorted@);
        proof {
            assert(sv == groebner_sorted(start));
            lemma_sort_sorted(polys_view(reduced@));
            if groebner_norm_exact(start) {
                let normed = sv.map_values(|p: Seq<Term<Rat>>| poly_norm(p));
                assert forall|i: int| 0 <= i < normed.len() implies primitive(
                    #[trigger] normed[i],
                ) && leading(normed[i]).vars == leading(sv[i]).vars by {
                    assert(norm_exact(sv[i]));
                    assert(canonical(sv[i]));
                    lemma_norm_primitive(sv[i]);
                    if sv[i].len() > 0 {
                        assert(normed[i][0].vars == sv[i][0].vars);
                    }
                }
                assert(leading_sorted(normed)) by {
                    assert forall|i: int, j: int| 0 <= i < j < normed.len() implies place(
                        leading(#[trigger] normed[i]).vars,
                        leading(#[trigger] normed[j]).vars,
                    ) != Place::After by {
                        assert(place(leading(sv[i]).vars, leading(sv[j]).vars) != Place::After);
                    }
                }
            }
        }
        let mut result: Vec<Poly<Rat>> = Vec::new();
        i = 0;
        while i < sorted.len()
            invariant
                i <= sorted.len(),
                sv == polys_view(sorted@),
                all_canonical(sv),
                all_canonical(polys_view(result@)),
                polys_view(result@) == sv.map_values(|p: Seq<Term<Rat>>| poly_norm(p)).take(i as int),
            decreases sorted.len() - i,
        {
            let ghost rv = polys_view(result@);
            assert(sv[i as int] == sorted@[i as int]@);
            assert(canonical(sv[i as int]));
            let p = sorted[i].norm();
            proof {
                assert(polys_view(result@.push(p)) =~= rv.push(p@));
                assert(rv.push(p@) =~= sv.map_values(|p: Seq<Term<Rat>>| poly_norm(p)).take(i + 1));
                assert forall|t: int| 0 <= t < rv.push(p@).len() implies canonical(
                    #[trigger] rv.push(p@)[t],
                ) by {
                    if t < rv.len() {
                        assert(rv.push(p@)[t] == rv[t]);
                    }
                }
            }
            result.push(p);
            i = i + 1;
        }
        assert(sv.map_values(|p: Seq<Term<Rat>>| poly_norm(p)).take(sorted.len() as int)
            =~= sv.map_values(|p: Seq<Term<Rat>>| poly_norm(p)));
        System { var_dict: copy_names(&self.var_dict), members: result }
    }
}

/// The position of a name among the first `n` names, if it is there, is its
/// position among them all.
pub proof fn lemma_position_prefix(names: Seq<String>, name: Seq<char>, n: int)
    requires
        0 <= n <= names.len(),
    ensures
        position_of(names.take(n), name).is_some() ==> position_of(names, name) == position_of(
            names.take(n),
            name,
        ),
    decreases names.len() - n,
{
    if n == names.len() {
        assert(names.take(n) =~= names);
    } else {
        lemma_position_prefix(names, name, n + 1);
        assert(names.take(n + 1).drop_last() =~= names.take(n));
    }
}

} // verus!
