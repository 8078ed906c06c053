//! The numbers the simulator computes with.
//!
//! Every power, energy, price and rate is a value of one type that implements
//! [`Num`]. The trait names the meaning of each operation by a specification
//! function, and each executable operation returns exactly that value, so the
//! contracts of the library fix which operations are performed and in which
//! order, whatever the representation of the numbers is.
//!
//! The laws about conservation and bounds are proved for numbers that round
//! toward zero, exact ones among them; see [`crate::rounding`].

use vstd::prelude::*;

verus! {

/// A number type: arithmetic, comparison, constants and text.
pub trait Num: Copy {
    /// `self + other`.
    spec fn plus(self, other: Self) -> Self;

    /// `self - other`.
    spec fn minus(self, other: Self) -> Self;

    /// `self * other`.
    spec fn times(self, other: Self) -> Self;

    /// `self / other`.
    spec fn over(self, other: Self) -> Self;

    /// `-self`.
    spec fn negated(self) -> Self;

    /// The absolute value.
    spec fn magnitude(self) -> Self;

    /// The smaller of the two.
    spec fn lesser(self, other: Self) -> Self;

    /// The larger of the two.
    spec fn greater(self, other: Self) -> Self;

    /// `e` to the power `self`.
    spec fn exponential(self) -> Self;

    /// `self < other`.
    spec fn below(self, other: Self) -> bool;

    /// `self <= other`.
    spec fn at_most(self, other: Self) -> bool;

    /// `self == other` as numbers.
    spec fn same(self, other: Self) -> bool;

    /// Neither infinite nor undefined.
    spec fn finite(self) -> bool;

    /// Positive or negative infinity.
    spec fn infinite(self) -> bool;

    /// Not a number: the result of an undefined operation.
    spec fn undefined(self) -> bool;

    /// The quotient of two whole numbers.
    spec fn rational(n: u64, d: u64) -> Self;

    /// Positive infinity.
    spec fn unbounded() -> Self;

    /// The value that is no number.
    spec fn no_number() -> Self;

    /// The whole part, 0 for a negative value, the largest index for one that
    /// is too large.
    spec fn whole(self) -> usize;

    /// The value in scientific notation with full precision.
    spec fn scientific(self) -> String;

    /// The number that `text` spells, if it spells one.
    spec fn spelled(text: &[char]) -> Option<Self>;

    fn add(self, other: Self) -> (r: Self)
        ensures
            r == self.plus(other),
    ;

    fn sub(self, other: Self) -> (r: Self)
        ensures
            r == self.minus(other),
    ;

    fn mul(self, other: Self) -> (r: Self)
        ensures
            r == self.times(other),
    ;

    fn div(self, other: Self) -> (r: Self)
        ensures
            r == self.over(other),
    ;

    fn neg(self) -> (r: Self)
        ensures
            r == self.negated(),
    ;

    fn abs(self) -> (r: Self)
        ensures
            r == self.magnitude(),
    ;

    fn min(self, other: Self) -> (r: Self)
        ensures
            r == self.lesser(other),
    ;

    fn max(self, other: Self) -> (r: Self)
        ensures
            r == self.greater(other),
    ;

    fn exp(self) -> (r: Self)
        ensures
            r == self.exponential(),
    ;

    fn lt(self, other: Self) -> (r: bool)
        ensures
            r == self.below(other),
    ;

    fn le(self, other: Self) -> (r: bool)
        ensures
            r == self.at_most(other),
    ;

    fn eq(self, other: Self) -> (r: bool)
        ensures
            r == self.same(other),
    ;

    fn is_finite(self) -> (r: bool)
        ensures
            r == self.finite(),
    ;

    fn is_infinite(self) -> (r: bool)
        ensures
            r == self.infinite(),
    ;

    fn is_nan(self) -> (r: bool)
        ensures
            r == self.undefined(),
    ;

    fn ratio(n: u64, d: u64) -> (r: Self)
        requires
            d > 0,
        ensures
            r == Self::rational(n, d),
    ;

    fn infinity() -> (r: Self)
        ensures
            r == Self::unbounded(),
    ;

    fn nan() -> (r: Self)
        ensures
            r == Self::no_number(),
    ;

    fn to_usize(self) -> (r: usize)
        ensures
            r == self.whole(),
    ;

    fn to_scientific(self) -> (r: String)
        ensures
            r@ == self.scientific()@,
    ;

    fn parse(text: &[char]) -> (r: Option<Self>)
        ensures
            r == Self::spelled(text),
    ;
}

/// The whole number `n`.
pub open spec fn count<N: Num>(n: int) -> N {
    N::rational(n as u64, 1)
}

/// The number zero.
pub open spec fn zero_of<N: Num>() -> N {
    count(0)
}

/// The number one.
pub open spec fn one_of<N: Num>() -> N {
    count(1)
}

/// The number minus one.
pub open spec fn minus_one_of<N: Num>() -> N {
    one_of::<N>().negated()
}

/// Negative infinity.
pub open spec fn unbounded_below<N: Num>() -> N {
    N::unbounded().negated()
}

/// `x` moved into `[lo, hi]`.
pub open spec fn clamped<N: Num>(x: N, lo: N, hi: N) -> N {
    if x.below(lo) {
        lo
    } else if hi.below(x) {
        hi
    } else {
        x
    }
}

/// The number zero.
pub fn zero<N: Num>() -> (r: N)
    ensures
        r == zero_of::<N>(),
{
    N::ratio(0, 1)
}

/// The number one.
pub fn one<N: Num>() -> (r: N)
    ensures
        r == one_of::<N>(),
{
    N::ratio(1, 1)
}

/// The number minus one.
pub fn minus_one<N: Num>() -> (r: N)
    ensures
        r == minus_one_of::<N>(),
{
    one::<N>().neg()
}

/// The whole number `n`.
pub fn from_count<N: Num>(n: usize) -> (r: N)
    ensures
        r == count::<N>(n as int),
{
    N::ratio(n as u64, 1)
}

/// Moves `x` into `[lo, hi]`.
pub fn clamp<N: Num>(x: N, lo: N, hi: N) -> (r: N)
    requires
        lo.at_most(hi),
    ensures
        r == clamped(x, lo, hi),
{
    if x.lt(lo) {
        lo
    } else if hi.lt(x) {
        hi
    } else {
        x
    }
}

} // verus!
