//! Polynomials in one variable, given by all their coefficients, and the
//! isolation of their real roots.
//!
//! The roots of a polynomial lie between the roots of its derivative, one
//! at most in each gap, so that they are found by recursion on the degree:
//! a sign change between two neighbouring roots of the derivative, or
//! between the outermost one and infinity, brackets a root, which bisection
//! then narrows down.

use vstd::prelude::*;
use crate::field::Field;
use crate::poly::calculus::{times_exponent, times_power};

verus! {

/// The largest number of halvings that narrowing down one root takes.
pub const BISECTION_LIMIT: u64 = 256;

/// The largest number of doublings that looking for a sign change towards
/// infinity takes.
pub const PROBE_LIMIT: u64 = 128;

/// A polynomial in one variable: its coefficients from the highest power
/// down to the constant.
pub struct UPoly<T: Field>(pub Vec<T>);

/// A real root: known exactly, or enclosed by an interval at whose ends the
/// polynomial has different signs.
#[derive(Debug, PartialEq, Eq)]
pub enum Root<T: Field> {
    Point(T),
    Interval(T, T),
}

/// Whether every coefficient is a valid element of the field.
pub open spec fn all_valid<T: Field>(c: Seq<T>) -> bool {
    forall|i: int| 0 <= i < c.len() ==> (#[trigger] c[i]).valid()
}

/// The value of a polynomial at `x`, by Horner's rule.
pub open spec fn horner<T: Field>(c: Seq<T>, x: T) -> T
    decreases c.len(),
{
    if c.len() == 0 {
        T::zero_spec()
    } else {
        horner(c.drop_last(), x).product(x).sum(c.last())
    }
}

/// The coefficients of the derivative.
pub open spec fn derived<T: Field>(c: Seq<T>) -> Seq<T> {
    Seq::new((c.len() - 1) as nat, |i: int| times_exponent(c[i], (c.len() - 1 - i) as u64))
}

/// The point that stands for a root: the root itself, or the middle of its
/// interval.
pub open spec fn midpoint<T: Field>(r: Root<T>) -> T {
    match r {
        Root::Point(p) => p,
        Root::Interval(start, end) => start.sum(end).quotient(T::of_int(2)),
    }
}

/// Whether the parts of a root are valid elements of the field.
pub open spec fn root_valid<T: Field>(r: Root<T>) -> bool {
    match r {
        Root::Point(p) => p.valid(),
        Root::Interval(start, end) => start.valid() && end.valid(),
    }
}

/// Whether the parts of every root are valid elements of the field.
pub open spec fn roots_valid<T: Field>(r: Seq<Root<T>>) -> bool {
    forall|i: int| 0 <= i < r.len() ==> root_valid(#[trigger] r[i])
}

/// Whether the polynomial is positive at `x`.
pub open spec fn positive_at<T: Field>(c: Seq<T>, x: T) -> bool {
    T::zero_spec().below(horner(c, x))
}

/// Whether the polynomial is negative at `x`.
pub open spec fn negative_at<T: Field>(c: Seq<T>, x: T) -> bool {
    horner(c, x).below(T::zero_spec())
}

/// Bisection, for at most `fuel` halvings. While the interval is wider
/// than the tolerance, the polynomial is looked at in its middle: a zero
/// there is the root, and else the half is kept at whose ends the
/// polynomial is positive at one and not at the other, `positive` telling
/// which it is at the start.
pub open spec fn bisect<T: Field>(c: Seq<T>, start: T, end: T, tol: T, positive: bool, fuel: nat) -> Root<
    T,
>
    decreases fuel,
{
    if fuel == 0 || !tol.below(end.difference(start)) {
        Root::Interval(start, end)
    } else {
        let mid = start.sum(end).quotient(T::of_int(2));
        if horner(c, mid).is_zero_spec() {
            Root::Point(mid)
        } else if positive_at(c, mid) == positive {
            bisect(c, mid, end, tol, positive, (fuel - 1) as nat)
        } else {
            bisect(c, start, mid, tol, positive, (fuel - 1) as nat)
        }
    }
}

/// Whether bisection comes to an end within `fuel` halvings: at a zero in
/// the middle of an interval, or at an interval no wider than the tolerance.
pub open spec fn bisection_finishes<T: Field>(
    c: Seq<T>,
    start: T,
    end: T,
    tol: T,
    positive: bool,
    fuel: nat,
) -> bool
    decreases fuel,
{
    if !tol.below(end.difference(start)) {
        true
    } else if fuel == 0 {
        false
    } else {
        let mid = start.sum(end).quotient(T::of_int(2));
        if horner(c, mid).is_zero_spec() {
            true
        } else if positive_at(c, mid) == positive {
            bisection_finishes(c, mid, end, tol, positive, (fuel - 1) as nat)
        } else {
            bisection_finishes(c, start, mid, tol, positive, (fuel - 1) as nat)
        }
    }
}

/// Whether narrowing `start .. end` down comes to an end within the limit.
pub open spec fn refinement_finishes<T: Field>(c: Seq<T>, start: T, end: T, tol: T) -> bool {
    bisection_finishes(c, start, end, tol, positive_at(c, start), BISECTION_LIMIT as nat)
}

/// Whether a root is known to within the tolerance: a point, or an
/// interval no wider than the tolerance.
pub open spec fn within<T: Field>(r: Root<T>, tol: T) -> bool {
    match r {
        Root::Point(_) => true,
        Root::Interval(lo, hi) => !tol.below(hi.difference(lo)),
    }
}

/// The root that bisection narrows `start .. end` down to.
pub open spec fn refined<T: Field>(c: Seq<T>, start: T, end: T, tol: T) -> Root<T> {
    bisect(c, start, end, tol, positive_at(c, start), BISECTION_LIMIT as nat)
}

/// Whether the polynomial has values of opposite sign, neither of them
/// zero, at `lo` and `hi`.
pub open spec fn sign_change<T: Field>(c: Seq<T>, lo: T, hi: T) -> bool {
    (negative_at(c, lo) && positive_at(c, hi)) || (positive_at(c, lo) && negative_at(c, hi))
}

/// Whether a root is what it claims to be: a point at which the polynomial
/// vanishes, or an interval at whose ends it has opposite signs.
pub open spec fn root_sound<T: Field>(c: Seq<T>, r: Root<T>) -> bool {
    match r {
        Root::Point(x) => horner(c, x).is_zero_spec(),
        Root::Interval(lo, hi) => sign_change(c, lo, hi),
    }
}

/// Whether every root of a list is what it claims to be.
pub open spec fn roots_sound<T: Field>(c: Seq<T>, r: Seq<Root<T>>) -> bool {
    forall|i: int| 0 <= i < r.len() ==> root_sound(c, #[trigger] r[i])
}

/// The root bracketed between `base` and the point `step` away from it,
/// `left` telling on which side that point lies: the point itself if the
/// polynomial vanishes there, and else the interval narrowed down.
pub open spec fn bracketed<T: Field>(c: Seq<T>, base: T, step: T, left: bool, tol: T) -> Root<T> {
    let x = base.sum(step);
    if horner(c, x).is_zero_spec() {
        Root::Point(x)
    } else if left {
        refined(c, x, base, tol)
    } else {
        refined(c, base, x, tol)
    }
}

/// The first of the steps `step`, `2 * step`, `4 * step`, ... away from
/// `base` at which the polynomial is no longer negative, or no longer
/// positive when `negative` is not set; `None` if `fuel` steps do not get
/// there.
pub open spec fn probe<T: Field>(c: Seq<T>, base: T, step: T, negative: bool, fuel: nat) -> Option<T>
    decreases fuel,
{
    if fuel == 0 {
        None
    } else {
        let x = base.sum(step);
        let same = if negative {
            negative_at(c, x)
        } else {
            positive_at(c, x)
        };
        if same {
            probe(c, base, step.product(T::of_int(2)), negative, (fuel - 1) as nat)
        } else {
            Some(step)
        }
    }
}

/// The root left of the leftmost point, if the sign of the polynomial at
/// that point differs from its sign towards minus infinity; the point
/// itself if the polynomial vanishes there.
pub open spec fn left_gap<T: Field>(c: Seq<T>, first: T, tol: T) -> Seq<Root<T>> {
    let falls = c[0].below(T::zero_spec()) != (c.len() % 2 == 0);
    if negative_at(c, first) {
        if falls {
            Seq::empty()
        } else {
            match probe(c, first, T::of_int(-1i64), true, PROBE_LIMIT as nat) {
                Some(step) => seq![bracketed(c, first, step, true, tol)],
                None => Seq::empty(),
            }
        }
    } else if positive_at(c, first) {
        if !falls {
            Seq::empty()
        } else {
            match probe(c, first, T::of_int(-1i64), false, PROBE_LIMIT as nat) {
                Some(step) => seq![bracketed(c, first, step, true, tol)],
                None => Seq::empty(),
            }
        }
    } else {
        seq![Root::Point(first)]
    }
}

/// The root between two neighbouring points: none if the polynomial
/// vanishes at the first, the second point if it vanishes there, none if it
/// has the same sign at both, and else the interval narrowed down.
pub open spec fn gap<T: Field>(c: Seq<T>, start: T, end: T, tol: T) -> Seq<Root<T>> {
    if horner(c, start).is_zero_spec() {
        Seq::empty()
    } else if horner(c, end).is_zero_spec() {
        seq![Root::Point(end)]
    } else if (negative_at(c, start) && negative_at(c, end)) || (positive_at(c, start)
        && positive_at(c, end)) {
        Seq::empty()
    } else {
        seq![refined(c, start, end, tol)]
    }
}

/// The roots in the first `n` gaps between neighbouring points.
pub open spec fn inner_gaps<T: Field>(c: Seq<T>, points: Seq<T>, tol: T, n: nat) -> Seq<Root<T>>
    decreases n,
{
    if n == 0 {
        Seq::empty()
    } else {
        inner_gaps(c, points, tol, (n - 1) as nat) + gap(c, points[n - 1], points[n as int], tol)
    }
}

/// The root right of the rightmost point, if the sign of the polynomial at
/// that point differs from its sign towards plus infinity.
pub open spec fn right_gap<T: Field>(c: Seq<T>, last: T, tol: T) -> Seq<Root<T>> {
    if negative_at(c, last) {
        if c[0].below(T::zero_spec()) {
            Seq::empty()
        } else {
            match probe(c, last, T::of_int(1), true, PROBE_LIMIT as nat) {
                Some(step) => seq![bracketed(c, last, step, false, tol)],
                None => Seq::empty(),
            }
        }
    } else if positive_at(c, last) {
        if T::zero_spec().below(c[0]) {
            Seq::empty()
        } else {
            match probe(c, last, T::of_int(1), false, PROBE_LIMIT as nat) {
                Some(step) => seq![bracketed(c, last, step, false, tol)],
                None => Seq::empty(),
            }
        }
    } else {
        Seq::empty()
    }
}

/// The points that split the real line into the gaps to look at: the
/// midpoints of the roots of the derivative, or zero if it has none.
pub open spec fn split_points<T: Field>(roots: Seq<Root<T>>) -> Seq<T> {
    if roots.len() == 0 {
        seq![T::zero_spec()]
    } else {
        roots.map_values(|r: Root<T>| midpoint(r))
    }
}

/// The real roots of the polynomial with the coefficients `c`, from the
/// smallest on.
///
/// A constant has none, and a polynomial of degree one has the root
/// `-c[1] / c[0]`, unless `c[0]` is zero. From degree two on, the roots of
/// the derivative split the real line, and each gap is looked at in turn.
pub open spec fn isolate<T: Field>(c: Seq<T>, tol: T) -> Seq<Root<T>>
    decreases c.len(),
{
    if c.len() <= 1 {
        Seq::empty()
    } else if c.len() == 2 {
        if c[0].is_zero_spec() {
            Seq::empty()
        } else {
            seq![Root::Point(c[1].scaled(-1i64).quotient(c[0]))]
        }
    } else {
        let points = split_points(isolate(derived(c), tol));
        left_gap(c, points[0], tol) + inner_gaps(c, points, tol, (points.len() - 1) as nat)
            + right_gap(c, points.last(), tol)
    }
}

/// The value of a polynomial with valid coefficients at a valid point is valid.
pub proof fn lemma_horner_valid<T: Field>(c: Seq<T>, x: T)
    requires
        all_valid(c),
        x.valid(),
    ensures
        horner(c, x).valid(),
    decreases c.len(),
{
    T::lemma_identities();
    if c.len() > 0 {
        lemma_horner_valid(c.drop_last(), x);
        T::lemma_closed(horner(c.drop_last(), x), x, 0);
        T::lemma_closed(horner(c.drop_last(), x).product(x), c.last(), 0);
    }
}

impl<T: Field> Root<T> {
    /// The point that stands for the root.
    pub fn approx(&self) -> (r: T)
        requires
            root_valid(*self),
        ensures
            r == midpoint(*self),
            r.valid(),
    {
        proof {
            T::lemma_identities();
        }
        match self {
            Root::Point(p) => *p,
            Root::Interval(start, end) => start.plus(*end).over(T::from_int(2)),
        }
    }
}

impl<T: Field> UPoly<T> {
    /// Whether the coefficients are valid elements of the field.
    pub open spec fn wf(&self) -> bool {
        all_valid(self.0@)
    }

    /// The value at `x`, by Horner's rule.
    pub fn eval(&self, x: &T) -> (r: T)
        requires
            self.wf(),
            x.valid(),
        ensures
            r == horner(self.0@, *x),
            r.valid(),
    {
        proof {
            T::lemma_identities();
        }
        let mut acc = T::zero();
        let mut i: usize = 0;
        assert(self.0@.take(0) =~= Seq::<T>::empty());
        while i < self.0.len()
            invariant
                i <= self.0.len(),
                self.wf(),
                x.valid(),
                acc.valid(),
                acc == horner(self.0@.take(i as int), *x),
            decreases self.0.len() - i,
        {
            assert(self.0@.take(i + 1).drop_last() =~= self.0@.take(i as int));
            assert(self.0@.take(i + 1).last() == self.0@[i as int]);
            acc = acc.times(*x).plus(self.0[i]);
            i = i + 1;
        }
        assert(self.0@.take(self.0.len() as int) =~= self.0@);
        acc
    }

    /// The derivative.
    pub fn derivative(&self) -> (r: UPoly<T>)
        requires
            self.wf(),
            self.0.len() >= 2,
        ensures
            r.0@ == derived(self.0@),
            r.wf(),
    {
        let n = self.0.len() - 1;
        let mut out: Vec<T> = Vec::new();
        let mut i: usize = 0;
        while i < n
            invariant
                i <= n,
                n == self.0.len() - 1,
                self.wf(),
                all_valid(out@),
                out@ == derived(self.0@).take(i as int),
            decreases n - i,
        {
            let c = times_power(self.0[i], (n - i) as u64);
            assert(out@.push(c) =~= derived(self.0@).take(i + 1));
            out.push(c);
            i = i + 1;
        }
        assert(derived(self.0@).take(n as int) =~= derived(self.0@));
        UPoly(out)
    }

    /// The first step away from `base`, doubling from `step`, at which the
    /// polynomial is no longer negative, or no longer positive when
    /// `negative` is not set.
    fn probe_from(&self, base: T, step: T, negative: bool) -> (r: Option<T>)
        requires
            self.wf(),
            base.valid(),
            step.valid(),
        ensures
            r == probe(self.0@, base, step, negative, PROBE_LIMIT as nat),
            match r {
                Some(s) => s.valid() && !(if negative {
                    negative_at(self.0@, base.sum(s))
                } else {
                    positive_at(self.0@, base.sum(s))
                }),
                None => true,
            },
    {
        proof {
            T::lemma_identities();
        }
        let mut cur = step;
        let mut fuel: u64 = PROBE_LIMIT;
        while fuel > 0
            invariant
                self.wf(),
                base.valid(),
                cur.valid(),
                T::zero_spec().valid(),
                probe(self.0@, base, cur, negative, fuel as nat) == probe(
                    self.0@,
                    base,
                    step,
                    negative,
                    PROBE_LIMIT as nat,
                ),
            decreases fuel,
        {
            let v = self.eval(&base.plus(cur));
            let same = if negative {
                v.less_than(&T::zero())
            } else {
                T::zero().less_than(&v)
            };
            if !same {
                return Some(cur);
            }
            cur = cur.times(T::from_int(2));
            fuel = fuel - 1;
        }
        None
    }

    /// Narrows the interval `start .. end` down by bisection until it is no
    /// wider than the tolerance, or to the point in the middle of an
    /// interval at which the polynomial vanishes.
    pub fn refine_root_interval(&self, start: T, end: T, tolerance: T) -> (r: Root<T>)
        requires
            self.wf(),
            start.valid(),
            end.valid(),
            tolerance.valid(),
        ensures
            r == refined(self.0@, start, end, tolerance),
            root_valid(r),
            sign_change(self.0@, start, end) ==> root_sound(self.0@, r),
            refinement_finishes(self.0@, start, end, tolerance) ==> within(r, tolerance),
    {
        proof {
            T::lemma_identities();
        }
        let positive = T::zero().less_than(&self.eval(&start));
        let mut lo = start;
        let mut hi = end;
        let mut fuel: u64 = BISECTION_LIMIT;
        while fuel > 0 && tolerance.less_than(&hi.minus(lo))
            invariant
                self.wf(),
                lo.valid(),
                hi.valid(),
                tolerance.valid(),
                T::zero_spec().valid(),
                !T::of_int(2).is_zero_spec(),
                positive == positive_at(self.0@, start),
                refinement_finishes(self.0@, start, end, tolerance) ==> bisection_finishes(
                    self.0@,
                    lo,
                    hi,
                    tolerance,
                    positive,
                    fuel as nat,
                ),
                sign_change(self.0@, start, end) ==> sign_change(self.0@, lo, hi) && positive_at(
                    self.0@,
                    lo,
                ) == positive,
                bisect(self.0@, lo, hi, tolerance, positive, fuel as nat) == bisect(
                    self.0@,
                    start,
                    end,
                    tolerance,
                    positive,
                    BISECTION_LIMIT as nat,
                ),
            decreases fuel,
        {
            let mid = lo.plus(hi).over(T::from_int(2));
            let at_mid = self.eval(&mid);
            proof {
                T::lemma_sign(at_mid);
                lemma_horner_valid(self.0@, lo);
                lemma_horner_valid(self.0@, hi);
                T::lemma_sign(horner(self.0@, lo));
                T::lemma_sign(horner(self.0@, hi));
            }
            if at_mid.is_zero() {
                return Root::Point(mid);
            }
            if T::zero().less_than(&at_mid) == positive {
                lo = mid;
            } else {
                hi = mid;
            }
            fuel = fuel - 1;
        }
        Root::Interval(lo, hi)
    }

    /// The root bracketed between `base` and the point `step` away from it.
    fn bracket(&self, base: T, step: T, left: bool, tolerance: T) -> (r: Root<T>)
        requires
            self.wf(),
            base.valid(),
            step.valid(),
            tolerance.valid(),
        ensures
            r == bracketed(self.0@, base, step, left, tolerance),
            root_valid(r),
            sign_change(self.0@, base, base.sum(step)) || horner(
                self.0@,
                base.sum(step),
            ).is_zero_spec() ==> root_sound(self.0@, r),
    {
        let x = base.plus(step);
        if self.eval(&x).is_zero() {
            Root::Point(x)
        } else if left {
            self.refine_root_interval(x, base, tolerance)
        } else {
            self.refine_root_interval(base, x, tolerance)
        }
    }

    /// The root between two neighbouring points, if there is one.
    fn gap_root(&self, start: T, end: T, tolerance: T) -> (r: Option<Root<T>>)
        requires
            self.wf(),
            start.valid(),
            end.valid(),
            tolerance.valid(),
        ensures
            gap(self.0@, start, end, tolerance) == match r {
                Some(root) => seq![root],
                None => Seq::empty(),
            },
            match r {
                Some(root) => root_valid(root) && root_sound(self.0@, root),
                None => true,
            },
    {
        proof {
            T::lemma_identities();
        }
        let sv = self.eval(&start);
        let ev = self.eval(&end);
        proof {
            T::lemma_sign(sv);
            T::lemma_sign(ev);
        }
        let zero = T::zero();
        if sv.is_zero() {
            None
        } else if ev.is_zero() {
            Some(Root::Point(end))
        } else if (sv.less_than(&zero) && ev.less_than(&zero)) || (zero.less_than(&sv)
            && zero.less_than(&ev)) {
            None
        } else {
            Some(self.refine_root_interval(start, end, tolerance))
        }
    }

    /// The real roots, from the smallest on: exact ones as points, the
    /// others as intervals no wider than the tolerance.
    #[verifier::rlimit(40)]
    pub fn real_root_intervals(&self, tolerance: T) -> (r: Vec<Root<T>>)
        requires
            self.wf(),
            tolerance.valid(),
        ensures
            r@ == isolate(self.0@, tolerance),
            roots_valid(r@),
            self.0.len() != 2 ==> roots_sound(self.0@, r@),
        decreases self.0.len(),
    {
        proof {
            T::lemma_identities();
        }
        let n = self.0.len();
        let mut roots: Vec<Root<T>> = Vec::new();
        if n <= 1 {
            return roots;
        }
        if n == 2 {
            if !self.0[0].is_zero() {
                roots.push(Root::Point(self.0[1].times_int(-1).over(self.0[0])));
                assert(roots@ =~= isolate(self.0@, tolerance));
            }
            return roots;
        }
        let derivative_roots = self.derivative().real_root_intervals(tolerance);
        let mut points: Vec<T> = Vec::new();
        if derivative_roots.len() == 0 {
            points.push(T::zero());
            assert(points@ =~= split_points(derivative_roots@));
        } else {
            let mut i: usize = 0;
            while i < derivative_roots.len()
                invariant
                    i <= derivative_roots.len(),
                    roots_valid(derivative_roots@),
                    all_valid(points@),
                    points@ == derivative_roots@.map_values(|r: Root<T>| midpoint(r)).take(i as int),
                decreases derivative_roots.len() - i,
            {
                let p = derivative_roots[i].approx();
                assert(points@.push(p) =~= derivative_roots@.map_values(|r: Root<T>| midpoint(r)).take(
                    i + 1,
                ));
                points.push(p);
                i = i + 1;
            }
            assert(derivative_roots@.map_values(|r: Root<T>| midpoint(r)).take(
                derivative_roots.len() as int,
            ) =~= split_points(derivative_roots@));
        }
        let ghost c = self.0@;
        let zero = T::zero();
        // left of the first point
        let first = points[0];
        let at_first = self.eval(&first);
        proof {
            T::lemma_sign(at_first);
        }
        let falls = self.0[0].less_than(&zero) != (n % 2 == 0);
        if at_first.less_than(&zero) {
            if !falls {
                match self.probe_from(first, T::from_int(-1), true) {
                    Some(step) => {
                        proof {
                            T::lemma_closed(first, step, 0);
                            lemma_horner_valid(c, first.sum(step));
                            T::lemma_sign(horner(c, first.sum(step)));
                        }
                        roots.push(self.bracket(first, step, true, tolerance));
                    },
                    None => {},
                }
            }
        } else if zero.less_than(&at_first) {
            if falls {
                match self.probe_from(first, T::from_int(-1), false) {
                    Some(step) => {
                        proof {
                            T::lemma_closed(first, step, 0);
                            lemma_horner_valid(c, first.sum(step));
                            T::lemma_sign(horner(c, first.sum(step)));
                        }
                        roots.push(self.bracket(first, step, true, tolerance));
                    },
                    None => {},
                }
            }
        } else {
            roots.push(Root::Point(first));
        }
        assert(roots@ =~= left_gap(c, points@[0], tolerance));
        assert(roots_sound(c, roots@));
        // between the points
        let mut i: usize = 0;
        assert(roots@ =~= left_gap(c, points@[0], tolerance) + inner_gaps(c, points@, tolerance, 0));
        while i + 1 < points.len()
            invariant
                i + 1 <= points.len(),
                self.wf(),
                tolerance.valid(),
                all_valid(points@),
                roots_valid(roots@),
                roots_sound(c, roots@),
                c == self.0@,
                roots@ == left_gap(c, points@[0], tolerance) + inner_gaps(
                    c,
                    points@,
                    tolerance,
                    i as nat,
                ),
            decreases points.len() - i,
        {
            let ghost before = roots@;
            match self.gap_root(points[i], points[i + 1], tolerance) {
                Some(root) => {
                    roots.push(root);
                },
                None => {},
            }
            assert(roots@ =~= left_gap(c, points@[0], tolerance) + inner_gaps(
                c,
                points@,
                tolerance,
                (i + 1) as nat,
            ));
            i = i + 1;
        }
        // right of the last point
        let ghost middle = roots@;
        let last = points[points.len() - 1];
        let at_last = self.eval(&last);
        proof {
            T::lemma_sign(at_last);
        }
        if at_last.less_than(&zero) {
            if !self.0[0].less_than(&zero) {
                match self.probe_from(last, T::from_int(1), true) {
                    Some(step) => {
                        proof {
                            T::lemma_closed(last, step, 0);
                            lemma_horner_valid(c, last.sum(step));
                            T::lemma_sign(horner(c, last.sum(step)));
                        }
                        roots.push(self.bracket(last, step, false, tolerance));
                    },
                    None => {},
                }
            }
        } else if zero.less_than(&at_last) {
            if !zero.less_than(&self.0[0]) {
                match self.probe_from(last, T::from_int(1), false) {
                    Some(step) => {
                        proof {
                            T::lemma_closed(last, step, 0);
                            lemma_horner_valid(c, last.sum(step));
                            T::lemma_sign(horner(c, last.sum(step)));
                        }
                        roots.push(self.bracket(last, step, false, tolerance));
                    },
                    None => {},
                }
            }
        }
        assert(roots@ =~= middle + right_gap(c, points@.last(), tolerance));
        roots
    }

    /// A copy of the polynomial.
    pub fn duplicate(&self) -> (r: UPoly<T>)
        ensures
            r.0@ == self.0@,
    {
        let mut out: Vec<T> = Vec::new();
        let mut i: usize = 0;
        while i < self.0.len()
            invariant
                i <= self.0.len(),
                out@ == self.0@.take(i as int),
            decreases self.0.len() - i,
        {
            out.push(self.0[i]);
            assert(out@ =~= self.0@.take(i + 1));
            i = i + 1;
        }
        assert(self.0@.take(self.0.len() as int) =~= self.0@);
        UPoly(out)
    }
}


/// What bisection narrows an interval down to is a point or an interval
/// no wider than the tolerance, where it comes to an end.
pub proof fn lemma_bisect_within<T: Field>(
    c: Seq<T>,
    start: T,
    end: T,
    tol: T,
    positive: bool,
    fuel: nat,
)
    requires
        bisection_finishes(c, start, end, tol, positive, fuel),
    ensures
        within(bisect(c, start, end, tol, positive, fuel), tol),
    decreases fuel,
{
    if fuel == 0 || !tol.below(end.difference(start)) {
    } else {
        let mid = start.sum(end).quotient(T::of_int(2));
        if horner(c, mid).is_zero_spec() {
        } else if positive_at(c, mid) == positive {
            lemma_bisect_within(c, mid, end, tol, positive, (fuel - 1) as nat);
        } else {
            lemma_bisect_within(c, start, mid, tol, positive, (fuel - 1) as nat);
        }
    }
}

/// Whether narrowing a bracketed root down comes to an end within the limit.
pub open spec fn bracket_finishes<T: Field>(c: Seq<T>, base: T, step: T, left: bool, tol: T) -> bool {
    let x = base.sum(step);
    !horner(c, x).is_zero_spec() ==> if left {
        refinement_finishes(c, x, base, tol)
    } else {
        refinement_finishes(c, base, x, tol)
    }
}

/// Whether narrowing down the root that a probe from `base` brackets, if
/// it brackets one, comes to an end within the limit.
pub open spec fn probe_finishes<T: Field>(c: Seq<T>, base: T, left: bool, negative: bool, tol: T) -> bool {
    let start = if left {
        T::of_int(-1i64)
    } else {
        T::of_int(1i64)
    };
    match probe(c, base, start, negative, PROBE_LIMIT as nat) {
        Some(step) => bracket_finishes(c, base, step, left, tol),
        None => true,
    }
}

/// Whether every bisection that the isolation of the real roots goes
/// through on its way to the roots that it returns comes to an end within
/// the limit.
pub open spec fn isolation_finishes<T: Field>(c: Seq<T>, tol: T) -> bool {
    c.len() >= 3 ==> {
        let points = split_points(isolate(derived(c), tol));
        let first = points[0];
        let last = points.last();
        &&& negative_at(c, first) ==> probe_finishes(c, first, true, true, tol)
        &&& positive_at(c, first) ==> probe_finishes(c, first, true, false, tol)
        &&& negative_at(c, last) ==> probe_finishes(c, last, false, true, tol)
        &&& positive_at(c, last) ==> probe_finishes(c, last, false, false, tol)
        &&& forall|i: int|
            0 <= i < points.len() - 1 ==> refinement_finishes(
                c,
                #[trigger] points[i],
                points[i + 1],
                tol,
            )
    }
}

/// The roots in the gaps between neighbouring points are points or
/// intervals no wider than the tolerance, where the bisections come to an end.
pub proof fn lemma_inner_within<T: Field>(c: Seq<T>, points: Seq<T>, tol: T, n: nat)
    requires
        n < points.len(),
        forall|i: int|
            0 <= i < n ==> refinement_finishes(c, #[trigger] points[i], points[i + 1], tol),
    ensures
        forall|k: int|
            0 <= k < inner_gaps(c, points, tol, n).len() ==> within(
                #[trigger] inner_gaps(c, points, tol, n)[k],
                tol,
            ),
    decreases n,
{
    if n > 0 {
        lemma_inner_within(c, points, tol, (n - 1) as nat);
        let before = inner_gaps(c, points, tol, (n - 1) as nat);
        let start = points[n - 1];
        let end = points[n as int];
        let g = gap(c, start, end, tol);
        assert(refinement_finishes(c, points[n - 1], points[n - 1 + 1], tol));
        lemma_bisect_within(c, start, end, tol, positive_at(c, start), BISECTION_LIMIT as nat);
        let all = before + g;
        assert forall|k: int| 0 <= k < all.len() implies within(#[trigger] all[k], tol) by {
            if k < before.len() {
                assert(all[k] == before[k]);
            } else {
                assert(all[k] == g[k - before.len()]);
            }
        }
    }
}

/// A bracketed root is a point or an interval no wider than the
/// tolerance, where narrowing it down comes to an end.
pub proof fn lemma_bracket_within<T: Field>(c: Seq<T>, base: T, step: T, left: bool, tol: T)
    requires
        bracket_finishes(c, base, step, left, tol),
    ensures
        within(bracketed(c, base, step, left, tol), tol),
{
    let x = base.sum(step);
    if !horner(c, x).is_zero_spec() {
        if left {
            lemma_bisect_within(c, x, base, tol, positive_at(c, x), BISECTION_LIMIT as nat);
        } else {
            lemma_bisect_within(c, base, x, tol, positive_at(c, base), BISECTION_LIMIT as nat);
        }
    }
}

/// Every real root that is returned is a point or an interval no wider
/// than the tolerance, where the bisections come to an end within the limit.
pub proof fn lemma_roots_within<T: Field>(c: Seq<T>, tol: T)
    requires
        isolation_finishes(c, tol),
    ensures
        forall|k: int|
            0 <= k < isolate(c, tol).len() ==> within(#[trigger] isolate(c, tol)[k], tol),
{
    let result = isolate(c, tol);
    if c.len() >= 3 {
        let points = split_points(isolate(derived(c), tol));
        let first = points[0];
        let last = points.last();
        let n = (points.len() - 1) as nat;
        let left = left_gap(c, first, tol);
        let inner = inner_gaps(c, points, tol, n);
        let right = right_gap(c, last, tol);
        lemma_inner_within(c, points, tol, n);
        assert forall|k: int| 0 <= k < left.len() implies within(#[trigger] left[k], tol) by {
            let negative = negative_at(c, first);
            match probe(c, first, T::of_int(-1i64), negative, PROBE_LIMIT as nat) {
                Some(step) => {
                    if negative || positive_at(c, first) {
                        lemma_bracket_within(c, first, step, true, tol);
                    }
                },
                None => {},
            }
        }
        assert forall|k: int| 0 <= k < right.len() implies within(#[trigger] right[k], tol) by {
            let negative = negative_at(c, last);
            match probe(c, last, T::of_int(1i64), negative, PROBE_LIMIT as nat) {
                Some(step) => {
                    if negative || positive_at(c, last) {
                        lemma_bracket_within(c, last, step, false, tol);
                    }
                },
                None => {},
            }
        }
        assert forall|k: int| 0 <= k < result.len() implies within(#[trigger] result[k], tol) by {
            if k < left.len() {
                assert(result[k] == left[k]);
            } else if k < left.len() + inner.len() {
                assert(result[k] == inner[k - left.len()]);
            } else {
                assert(result[k] == right[k - left.len() - inner.len()]);
            }
        }
    }
}

} // verus!
