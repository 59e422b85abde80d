//! The first step of the projection of a set of polynomials: their
//! coefficients in the variable that is eliminated first, and the reducta
//! of a polynomial.

use vstd::prelude::*;
use crate::cad::resultant::{coefs_of, matrix_view};
use crate::field::Field;
use crate::poly::calculus::poly_degree;
use crate::poly::division::{all_canonical, polys_view};
use crate::poly::mono::Term;
use crate::poly::{canonical, Poly};

verus! {

/// The position of the last of the first `n` polynomials that is not zero.
pub open spec fn last_nonzero<T: Field>(coefs: Seq<Seq<Term<T>>>, n: nat) -> Option<int>
    decreases n,
{
    if n == 0 {
        None
    } else if coefs[n - 1].len() > 0 {
        Some(n - 1)
    } else {
        last_nonzero(coefs, (n - 1) as nat)
    }
}

/// The reducta of a polynomial given by its coefficients from the highest
/// power down: the coefficient lists that are left when leading
/// coefficients are taken off one after the other, each without the zero
/// coefficients at its end. None for the zero polynomial.
pub open spec fn reducta<T: Field>(coefs: Seq<Seq<Term<T>>>) -> Seq<Seq<Seq<Term<T>>>> {
    match last_nonzero(coefs, coefs.len()) {
        None => Seq::empty(),
        Some(k) => Seq::new((k + 1) as nat, |i: int| coefs.subrange(i, k + 1)),
    }
}

/// The coefficient lists in `var` of the first `n` polynomials, each list once.
pub open spec fn distinct_coefs<T: Field>(ps: Seq<Seq<Term<T>>>, var: usize, n: nat) -> Seq<
    Seq<Seq<Term<T>>>,
>
    decreases n,
{
    if n == 0 {
        Seq::empty()
    } else {
        let prev = distinct_coefs(ps, var, (n - 1) as nat);
        let c = coefs_of(ps[n - 1], var);
        if prev.contains(c) {
            prev
        } else {
            prev.push(c)
        }
    }
}

/// Whether two lists of polynomials are the same.
pub fn same_polys<T: Field>(a: &Vec<Poly<T>>, b: &Vec<Poly<T>>) -> (r: bool)
    ensures
        r == (polys_view(a@) == polys_view(b@)),
{
    let ghost av = polys_view(a@);
    let ghost bv = polys_view(b@);
    if a.len() != b.len() {
        assert(av.len() != bv.len());
        return false;
    }
    let mut i: usize = 0;
    while i < a.len()
        invariant
            i <= a.len(),
            a.len() == b.len(),
            av == polys_view(a@),
            bv == polys_view(b@),
            av.take(i as int) == bv.take(i as int),
        decreases a.len() - i,
    {
        assert(av[i as int] == a@[i as int]@);
        assert(bv[i as int] == b@[i as int]@);
        if !a[i].same(&b[i]) {
            assert(av[i as int] != bv[i as int]);
            return false;
        }
        assert(av.take(i + 1) =~= av.take(i as int).push(av[i as int]));
        assert(bv.take(i + 1) =~= bv.take(i as int).push(bv[i as int]));
        i = i + 1;
    }
    assert(av.take(a.len() as int) =~= av);
    assert(bv.take(b.len() as int) =~= bv);
    true
}

/// The reducta of `p` as a polynomial in `var`, each given by its
/// coefficients from the highest power down.
pub fn reducta_set<T: Field>(p: &Poly<T>, var: usize) -> (r: Vec<Vec<Poly<T>>>)
    requires
        p.wf(),
        poly_degree(p@, var) < usize::MAX,
    ensures
        matrix_view(r@) == reducta(coefs_of(p@, var)),
{
    let coefs = p.coefs(var);
    let ghost cv = coefs_of(p@, var);
    assert(polys_view(coefs@) =~= cv);
    let mut end: usize = coefs.len();
    while end > 0 && coefs[end - 1].is_zero()
        invariant
            end <= coefs.len(),
            cv == polys_view(coefs@),
            last_nonzero(cv, cv.len()) == last_nonzero(cv, end as nat),
        decreases end,
    {
        assert(cv[end - 1] == coefs@[end - 1]@);
        end = end - 1;
    }
    let mut out: Vec<Vec<Poly<T>>> = Vec::new();
    if end == 0 {
        assert(matrix_view(out@) =~= reducta(cv));
        return out;
    }
    assert(cv[end - 1] == coefs@[end - 1]@);
    let ghost target = reducta(cv);
    let mut i: usize = 0;
    assert(matrix_view(out@) =~= target.take(0));
    while i < end
        invariant
            i <= end,
            0 < end <= coefs.len(),
            cv == polys_view(coefs@),
            last_nonzero(cv, cv.len()) == Some(end - 1),
            target == reducta(cv),
            matrix_view(out@) == target.take(i as int),
        decreases end - i,
    {
        let mut row: Vec<Poly<T>> = Vec::new();
        let mut k: usize = i;
        let ghost want = cv.subrange(i as int, end as int);
        assert(polys_view(row@) =~= want.take(0));
        while k < end
            invariant
                i <= k <= end,
                end <= coefs.len(),
                cv == polys_view(coefs@),
                want == cv.subrange(i as int, end as int),
                polys_view(row@) == want.take(k - i),
            decreases end - k,
        {
            let c = coefs[k].duplicate();
            assert(cv[k as int] == coefs@[k as int]@);
            assert(polys_view(row@.push(c)) =~= polys_view(row@).push(c@));
            assert(want.take(k + 1 - i) =~= want.take(k - i).push(c@));
            row.push(c);
            k = k + 1;
        }
        assert(want.take(end - i) =~= want);
        let ghost before = matrix_view(out@);
        assert(matrix_view(out@.push(row)) =~= before.push(polys_view(row@)));
        assert(target.take(i + 1) =~= target.take(i as int).push(want));
        out.push(row);
        i = i + 1;
    }
    assert(target.take(end as int) =~= target);
    out
}

/// The projection sets of the polynomials `ps` along the variables in
/// `var_order`. Only the first set is built: the coefficient lists of the
/// polynomials in the first variable, each list once.
pub fn projection<T: Field>(ps: Vec<Poly<T>>, var_order: &[usize]) -> (r: Vec<Vec<Vec<Poly<T>>>>)
    requires
        var_order@.len() >= 1,
        all_canonical(polys_view(ps@)),
        forall|i: int|
            0 <= i < ps.len() ==> poly_degree(#[trigger] polys_view(ps@)[i], var_order@[0])
                < usize::MAX,
    ensures
        r.len() == 1,
        matrix_view(r@[0]@) == distinct_coefs(polys_view(ps@), var_order@[0], ps.len() as nat),
{
    let var = var_order[0];
    let ghost pv = polys_view(ps@);
    let mut set: Vec<Vec<Poly<T>>> = Vec::new();
    let mut i: usize = 0;
    assert(matrix_view(set@) =~= distinct_coefs(pv, var, 0));
    while i < ps.len()
        invariant
            i <= ps.len(),
            pv == polys_view(ps@),
            all_canonical(pv),
            var == var_order@[0],
            forall|t: int| 0 <= t < ps.len() ==> poly_degree(#[trigger] pv[t], var) < usize::MAX,
            matrix_view(set@) == distinct_coefs(pv, var, i as nat),
        decreases ps.len() - i,
    {
        assert(pv[i as int] == ps@[i as int]@);
        assert(canonical(pv[i as int]));
        let coefs = ps[i].coefs(var);
        let ghost cv = coefs_of(pv[i as int], var);
        assert(polys_view(coefs@) =~= cv);
        let ghost sv = matrix_view(set@);
        let mut found = false;
        let mut k: usize = 0;
        while k < set.len() && !found
            invariant
                k <= set.len(),
                sv == matrix_view(set@),
                cv == polys_view(coefs@),
                found ==> sv.contains(cv),
                !found ==> forall|t: int| 0 <= t < k ==> #[trigger] sv[t] != cv,
            decreases set.len() - k + if found { 0int } else { 1int },
        {
            assert(sv[k as int] == polys_view(set@[k as int]@));
            if same_polys(&set[k], &coefs) {
                found = true;
            } else {
                k = k + 1;
            }
        }
        if !found {
            assert(!sv.contains(cv));
            assert(matrix_view(set@.push(coefs)) =~= sv.push(cv));
            set.push(coefs);
        }
        i = i + 1;
    }
    let mut out: Vec<Vec<Vec<Poly<T>>>> = Vec::new();
    out.push(set);
    out
}

} // verus!
