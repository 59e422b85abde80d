//! The capability set that coefficients must offer: the elements of an
//! ordered field, with their arithmetic named by specification functions.

use vstd::prelude::*;

verus! {

/// A type with a distinguished additive identity.
pub trait Zero: Sized {
    /// The additive identity.
    spec fn zero_spec() -> Self;

    /// Whether a value is the additive identity.
    spec fn is_zero_spec(&self) -> bool;

    fn zero() -> (r: Self)
        ensures
            r == Self::zero_spec(),
            r.is_zero_spec(),
    ;

    fn is_zero(&self) -> (b: bool)
        ensures
            b == self.is_zero_spec(),
    ;
}

/// A type with a distinguished multiplicative identity.
pub trait One: Sized {
    /// The multiplicative identity.
    spec fn one_spec() -> Self;

    fn one() -> (r: Self)
        ensures
            r == Self::one_spec(),
    ;
}

/// An ordered field whose elements are plain values.
///
/// Every operation takes valid elements to a valid element and is named by a
/// specification function, so that what is computed over the field can be
/// stated exactly. Of the laws of a field only the barest are asked for: an
/// implementation with bounded precision fits as well as an exact one, and
/// statements that need more carry it as a hypothesis.
pub trait Field: Zero + One + Copy {
    /// The representation invariant of an element.
    spec fn valid(self) -> bool;

    /// What addition gives.
    spec fn sum(self, rhs: Self) -> Self;

    /// What subtraction gives.
    spec fn difference(self, rhs: Self) -> Self;

    /// What multiplication gives.
    spec fn product(self, rhs: Self) -> Self;

    /// What division by an element other than zero gives.
    spec fn quotient(self, rhs: Self) -> Self;

    /// The element times an integer.
    spec fn scaled(self, k: i64) -> Self;

    /// The element that an integer denotes.
    spec fn of_int(v: i64) -> Self;

    /// Strict order.
    spec fn below(self, rhs: Self) -> bool;

    /// The integer that the element is, if it is one that 64 bits can hold.
    spec fn int_value(self) -> Option<i64>;

    /// The magnitude of the element as it is written out.
    spec fn magnitude_text(self) -> Seq<char>;

    /// The identities are valid and are what the integers zero and one
    /// denote, two is not zero, among valid elements only zero is zero, and
    /// an element times an integer is its product with what the integer
    /// denotes.
    proof fn lemma_identities()
        ensures
            Self::zero_spec().valid(),
            Self::zero_spec().is_zero_spec(),
            Self::one_spec().valid(),
            !Self::one_spec().is_zero_spec(),
            !Self::of_int(2).is_zero_spec(),
            Self::of_int(0).is_zero_spec(),
            Self::of_int(1) == Self::one_spec(),
            forall|x: Self, k: i64| #[trigger] x.scaled(k) == x.product(Self::of_int(k)),
            forall|x: Self| x.valid() && #[trigger] x.is_zero_spec() ==> x == Self::zero_spec(),
    ;

    /// A valid element is negative, zero or positive, and only one of them.
    proof fn lemma_sign(x: Self)
        requires
            x.valid(),
        ensures
            x.is_zero_spec() || x.below(Self::zero_spec()) || Self::zero_spec().below(x),
            !(x.is_zero_spec() && x.below(Self::zero_spec())),
            !(x.is_zero_spec() && Self::zero_spec().below(x)),
            !(x.below(Self::zero_spec()) && Self::zero_spec().below(x)),
    ;

    /// The operations take valid elements to valid elements.
    proof fn lemma_closed(a: Self, b: Self, k: i64)
        requires
            a.valid(),
            b.valid(),
        ensures
            a.sum(b).valid(),
            a.difference(b).valid(),
            a.product(b).valid(),
            !b.is_zero_spec() ==> a.quotient(b).valid(),
            a.scaled(k).valid(),
            Self::of_int(k).valid(),
    ;

    fn plus(self, rhs: Self) -> (r: Self)
        requires
            self.valid(),
            rhs.valid(),
        ensures
            r.valid(),
            r == self.sum(rhs),
    ;

    fn minus(self, rhs: Self) -> (r: Self)
        requires
            self.valid(),
            rhs.valid(),
        ensures
            r.valid(),
            r == self.difference(rhs),
    ;

    fn times(self, rhs: Self) -> (r: Self)
        requires
            self.valid(),
            rhs.valid(),
        ensures
            r.valid(),
            r == self.product(rhs),
    ;

    fn over(self, rhs: Self) -> (r: Self)
        requires
            self.valid(),
            rhs.valid(),
            !rhs.is_zero_spec(),
        ensures
            r.valid(),
            r == self.quotient(rhs),
    ;

    fn times_int(self, k: i64) -> (r: Self)
        requires
            self.valid(),
        ensures
            r.valid(),
            r == self.scaled(k),
    ;

    fn from_int(v: i64) -> (r: Self)
        ensures
            r.valid(),
            r == Self::of_int(v),
    ;

    fn less_than(&self, rhs: &Self) -> (b: bool)
        requires
            self.valid(),
            rhs.valid(),
        ensures
            b == self.below(*rhs),
    ;

    fn to_int(&self) -> (r: Option<i64>)
        requires
            self.valid(),
        ensures
            r == self.int_value(),
    ;

    fn magnitude(&self) -> (s: String)
        requires
            self.valid(),
        ensures
            s@ == self.magnitude_text(),
    ;

    fn same(&self, rhs: &Self) -> (b: bool)
        ensures
            b == (*self == *rhs),
    ;
}

} // verus!
