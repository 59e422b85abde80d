//! Real algebraic numbers: a root of a polynomial, told apart from the
//! other roots by its place among them.

use vstd::prelude::*;
use crate::field::Field;
use crate::univariate::{isolate, root_valid, roots_valid, Root, UPoly};

verus! {

/// A real root of the polynomial `p`: the root itself or an interval that
/// holds no other root, and its place `n` among the real roots of `p`,
/// counted from the smallest, which is number zero.
pub struct Algebraic<T: Field> {
    pub p: UPoly<T>,
    pub val: Root<T>,
    pub n: usize,
}

/// A copy of a root.
pub fn copy_root<T: Field>(r: &Root<T>) -> (c: Root<T>)
    ensures
        c == *r,
{
    match r {
        Root::Point(p) => Root::Point(*p),
        Root::Interval(start, end) => Root::Interval(*start, *end),
    }
}

/// The real roots of `p`, from the smallest on, each with its place.
pub fn get_roots<T: Field>(p: UPoly<T>, tolerance: T) -> (r: Vec<Algebraic<T>>)
    requires
        p.wf(),
        tolerance.valid(),
    ensures
        r.len() == isolate(p.0@, tolerance).len(),
        forall|i: int|
            0 <= i < r.len() ==> (#[trigger] r@[i]).p.0@ == p.0@ && r@[i].val == isolate(
                p.0@,
                tolerance,
            )[i] && r@[i].n == i && root_valid(r@[i].val),
{
    let roots = p.real_root_intervals(tolerance);
    let mut out: Vec<Algebraic<T>> = Vec::new();
    let mut i: usize = 0;
    while i < roots.len()
        invariant
            i <= roots.len(),
            out.len() == i,
            roots_valid(roots@),
            forall|k: int|
                0 <= k < i ==> (#[trigger] out@[k]).p.0@ == p.0@ && out@[k].val == roots@[k]
                    && out@[k].n == k && root_valid(out@[k].val),
        decreases roots.len() - i,
    {
        out.push(Algebraic { p: p.duplicate(), val: copy_root(&roots[i]), n: i });
        i = i + 1;
    }
    out
}

impl<T: Field> Algebraic<T> {
    /// The number `point`, as the only root of `x - point`.
    pub fn from_point(point: T) -> (r: Algebraic<T>)
        requires
            point.valid(),
        ensures
            r.p.0@ == seq![T::of_int(1), point.scaled(-1i64)],
            r.p.wf(),
            r.val == Root::Point(point),
            r.n == 0,
    {
        let mut coefs: Vec<T> = Vec::new();
        coefs.push(T::from_int(1));
        coefs.push(point.times_int(-1));
        assert(coefs@ =~= seq![T::of_int(1), point.scaled(-1i64)]);
        Algebraic { p: UPoly(coefs), val: Root::Point(point), n: 0 }
    }
}

} // verus!
