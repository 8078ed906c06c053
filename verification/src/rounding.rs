//! Numbers that round toward zero: sums and comparisons are exact as long as
//! they fit, products and quotients lose at most one unit.
//!
//! The laws on power, batteries and energy are proved for such numbers. With a
//! unit of zero they are the laws of exact arithmetic; fixed-point numbers obey
//! them with a unit of one millionth.

use vstd::prelude::*;

use crate::fixed::{saturated, toward_zero, Fixed, SCALE, TOP};
use crate::num::{count, one_of, unbounded_below, zero_of, Num};

verus! {

/// Not undefined.
pub open spec fn is_number<N: Num>(x: N) -> bool {
    !x.undefined()
}

/// Some finite number is at least as large as `x` and as `-x`.
pub open spec fn fits<N: Num>(value: spec_fn(N) -> real, x: real) -> bool {
    exists|c: N| (#[trigger] c.finite()) && 0real - value(c) <= x <= value(c)
}

/// The smaller of two reals.
pub open spec fn least(a: real, b: real) -> real {
    if a <= b {
        a
    } else {
        b
    }
}

/// The larger of two reals.
pub open spec fn most(a: real, b: real) -> real {
    if a <= b {
        b
    } else {
        a
    }
}

/// Numbers are ordered by their values.
pub open spec fn orders<N: Num>(value: spec_fn(N) -> real) -> bool {
    &&& forall|a: N, b: N|
        #![trigger a.below(b)]
        is_number(a) && is_number(b) ==> (a.below(b) <==> value(a) < value(b))
    &&& forall|a: N, b: N|
        #![trigger a.at_most(b)]
        is_number(a) && is_number(b) ==> (a.at_most(b) <==> value(a) <= value(b))
    &&& forall|a: N, b: N|
        #![trigger a.lesser(b)]
        is_number(a) && is_number(b) ==> is_number(a.lesser(b)) && value(a.lesser(b)) == least(
            value(a),
            value(b),
        )
    &&& forall|a: N, b: N|
        #![trigger a.greater(b)]
        is_number(a) && is_number(b) ==> is_number(a.greater(b)) && value(a.greater(b)) == most(
            value(a),
            value(b),
        )
    &&& forall|a: N| #![trigger a.finite()] a.finite() ==> is_number(a)
    &&& forall|a: N| #![trigger a.finite()] is_number(a) && fits(value, value(a)) ==> a.finite()
}

/// Sums and differences are exact where they fit.
pub open spec fn adds<N: Num>(value: spec_fn(N) -> real) -> bool {
    &&& forall|a: N, b: N|
        #![trigger a.plus(b)]
        is_number(a) && b.finite() ==> is_number(a.plus(b)) && (a.finite() && fits(
            value,
            value(a) + value(b),
        ) ==> value(a.plus(b)) == value(a) + value(b))
    &&& forall|a: N, b: N|
        #![trigger a.minus(b)]
        is_number(a) && b.finite() ==> is_number(a.minus(b)) && (a.finite() && fits(
            value,
            value(a) - value(b),
        ) ==> value(a.minus(b)) == value(a) - value(b))
    &&& forall|a: N|
        #![trigger a.negated()]
        a.finite() ==> a.negated().finite() && value(a.negated()) == 0real - value(a)
}

/// `x` stands for `exact`, rounded down by at most `unit`; by more only where
/// `exact` does not fit.
pub open spec fn is_rounded<N: Num>(value: spec_fn(N) -> real, unit: real, x: N, exact: real) -> bool {
    &&& is_number(x)
    &&& 0real <= value(x) <= exact
    &&& fits(value, exact) ==> exact - unit <= value(x)
}

/// Products and quotients of numbers that are not negative are rounded down.
pub open spec fn multiplies<N: Num>(value: spec_fn(N) -> real, unit: real) -> bool {
    &&& forall|a: N, b: N|
        #![trigger a.times(b)]
        a.finite() && b.finite() && 0real <= value(a) && 0real <= value(b) ==> is_rounded(
            value,
            unit,
            a.times(b),
            value(a) * value(b),
        )
    &&& forall|a: N, b: N|
        #![trigger a.over(b)]
        a.finite() && b.finite() && 0real <= value(a) && 0real < value(b) ==> is_rounded(
            value,
            unit,
            a.over(b),
            value(a) / value(b),
        )
}

/// The constants that the simulation uses have their values.
pub open spec fn has_constants<N: Num>(value: spec_fn(N) -> real) -> bool {
    &&& zero_of::<N>().finite() && value(zero_of::<N>()) == 0real
    &&& one_of::<N>().finite() && value(one_of::<N>()) == 1real
    &&& count::<N>(60).finite() && value(count::<N>(60)) == 60real
    &&& is_number(N::unbounded())
    &&& is_number(N::rational(1, 1_000_000_000)) && 0real <= value(N::rational(1, 1_000_000_000))
}

/// Numbers that compute like the reals, rounding products and quotients toward
/// zero by at most `unit`.
#[verifier::opaque]
pub open spec fn rounds_toward_zero<N: Num>(value: spec_fn(N) -> real, unit: real) -> bool {
    &&& 0real <= unit
    &&& has_constants(value)
    &&& orders(value)
    &&& adds(value)
    &&& multiplies(value, unit)
}

/// Infinity is above every finite number, and stays so whatever finite number is
/// taken off.
pub open spec fn has_infinity<N: Num>(value: spec_fn(N) -> real) -> bool {
    forall|b: N|
        (#[trigger] b.finite()) ==> value(b) <= value(N::unbounded()) && N::unbounded().minus(b)
            == N::unbounded()
}

/// Whole numbers, tenths and absolute values are what they say, rounding keeps the order
/// of products and quotients, and the quotient of a negative number is the opposite of
/// that of its opposite.
#[verifier::opaque]
pub open spec fn has_measures<N: Num>(value: spec_fn(N) -> real) -> bool {
    &&& fits(value, 3600real)
    &&& forall|n: u64|
        #![trigger N::rational(n, 1)]
        fits(value, n as real) ==> N::rational(n, 1).finite() && value(N::rational(n, 1)) == n as real
    &&& N::rational(1, 10).finite() && 0real <= value(N::rational(1, 10)) <= 1real / 10real
    &&& N::rational(1, 100_000).finite() && 0real <= value(N::rational(1, 100_000)) <= 1real / 100_000real
    &&& forall|a: N|
        #![trigger a.magnitude()]
        a.finite() ==> a.magnitude().finite() && value(a.magnitude()) == most(value(a), 0real - value(a))
    &&& forall|a: N, b: N, c: N|
        #![trigger a.over(c), b.over(c)]
        a.finite() && b.finite() && c.finite() && 0real <= value(a) <= value(b) && 0real < value(c)
            ==> value(a.over(c)) <= value(b.over(c))
    &&& forall|a: N, b: N, c: N|
        #![trigger a.times(c), b.times(c)]
        a.finite() && b.finite() && c.finite() && 0real <= value(a) <= value(b) && 0real <= value(c)
            ==> value(a.times(c)) <= value(b.times(c))
    &&& forall|a: N| #![trigger a.infinite()] a.finite() ==> !a.infinite()
    &&& forall|a: N, c: N|
        #![trigger a.over(c), a.negated()]
        a.finite() && c.finite() && value(a) <= 0real && 0real < value(c) ==> is_number(a.over(c)) && value(
            a.over(c),
        ) == 0real - value(a.negated().over(c))
}

/// `x` is `exact`, up to a unit either way, where that fits.
pub open spec fn is_about<N: Num>(value: spec_fn(N) -> real, unit: real, x: N, exact: real) -> bool {
    fits(value, exact) ==> x.finite() && exact - unit <= value(x) <= exact + unit
}

/// Fractions, products and quotients of any sign are what they say up to a unit, and
/// negative infinity is below every finite number.
#[verifier::opaque]
pub open spec fn has_fractions<N: Num>(value: spec_fn(N) -> real, unit: real) -> bool {
    &&& is_number(unbounded_below::<N>())
    &&& forall|b: N| (#[trigger] b.finite()) ==> value(unbounded_below::<N>()) <= value(b)
    &&& forall|n: u64, d: u64|
        #![trigger N::rational(n, d)]
        d > 0 ==> is_about(value, unit, N::rational(n, d), n as real / d as real)
    &&& forall|a: N, b: N|
        #![trigger a.times(b)]
        a.finite() && b.finite() ==> is_about(value, unit, a.times(b), value(a) * value(b))
    &&& forall|a: N, b: N|
        #![trigger a.over(b)]
        a.finite() && b.finite() && 0real < value(b) ==> is_about(value, unit, a.over(b), value(a) / value(b))
}

// ------------------------------------------------------------- using the rules

pub(crate) proof fn lemma_constants<N: Num>(value: spec_fn(N) -> real, unit: real)
    requires
        rounds_toward_zero(value, unit),
    ensures
        0real <= unit,
        has_constants(value),
        is_number(zero_of::<N>()),
        is_number(one_of::<N>()),
        is_number(count::<N>(60)),
{
    reveal(rounds_toward_zero);
}

/// A finite number is a number and fits.
pub(crate) proof fn lemma_finite<N: Num>(value: spec_fn(N) -> real, unit: real, a: N)
    requires
        rounds_toward_zero(value, unit),
        a.finite(),
    ensures
        is_number(a),
        fits(value, value(a)),
{
    reveal(rounds_toward_zero);
    if value(a) < 0real {
        assert(a.negated().finite());
    }
}

/// What is closer to zero fits too.
pub(crate) proof fn lemma_closer_fits<N: Num>(value: spec_fn(N) -> real, x: real, y: real)
    requires
        fits(value, y),
        0real - y <= x <= y || y <= x <= 0real - y,
    ensures
        fits(value, x),
{
    let c = choose|c: N| (#[trigger] c.finite()) && 0real - value(c) <= y <= value(c);
    assert(c.finite());
}

/// A number whose value fits is finite.
pub(crate) proof fn lemma_fitting<N: Num>(value: spec_fn(N) -> real, unit: real, a: N)
    requires
        rounds_toward_zero(value, unit),
        is_number(a),
        fits(value, value(a)),
    ensures
        a.finite(),
{
    reveal(rounds_toward_zero);
}

pub(crate) proof fn lemma_compare<N: Num>(value: spec_fn(N) -> real, unit: real, a: N, b: N)
    requires
        rounds_toward_zero(value, unit),
        is_number(a),
        is_number(b),
    ensures
        a.below(b) <==> value(a) < value(b),
        a.at_most(b) <==> value(a) <= value(b),
        is_number(a.lesser(b)),
        value(a.lesser(b)) == least(value(a), value(b)),
        is_number(a.greater(b)),
        value(a.greater(b)) == most(value(a), value(b)),
{
    reveal(rounds_toward_zero);
}

/// Sums and differences with a finite number are numbers.
pub(crate) proof fn lemma_still_numbers<N: Num>(value: spec_fn(N) -> real, unit: real, a: N, b: N)
    requires
        rounds_toward_zero(value, unit),
        is_number(a),
        b.finite(),
    ensures
        is_number(a.plus(b)),
        is_number(a.minus(b)),
{
    reveal(rounds_toward_zero);
}

pub(crate) proof fn lemma_plus<N: Num>(value: spec_fn(N) -> real, unit: real, a: N, b: N)
    requires
        rounds_toward_zero(value, unit),
        a.finite(),
        b.finite(),
        fits(value, value(a) + value(b)),
    ensures
        a.plus(b).finite(),
        value(a.plus(b)) == value(a) + value(b),
{
    reveal(rounds_toward_zero);
    lemma_finite(value, unit, a);
    assert(is_number(a.plus(b)));
    lemma_fitting(value, unit, a.plus(b));
}

pub(crate) proof fn lemma_minus<N: Num>(value: spec_fn(N) -> real, unit: real, a: N, b: N)
    requires
        rounds_toward_zero(value, unit),
        a.finite(),
        b.finite(),
        fits(value, value(a) - value(b)),
    ensures
        a.minus(b).finite(),
        value(a.minus(b)) == value(a) - value(b),
{
    reveal(rounds_toward_zero);
    lemma_finite(value, unit, a);
    assert(is_number(a.minus(b)));
    lemma_fitting(value, unit, a.minus(b));
}

pub(crate) proof fn lemma_negated<N: Num>(value: spec_fn(N) -> real, unit: real, a: N)
    requires
        rounds_toward_zero(value, unit),
        a.finite(),
    ensures
        a.negated().finite(),
        value(a.negated()) == 0real - value(a),
{
    reveal(rounds_toward_zero);
}

/// A product that is not negative.
pub(crate) proof fn lemma_times<N: Num>(value: spec_fn(N) -> real, unit: real, a: N, b: N)
    requires
        rounds_toward_zero(value, unit),
        a.finite(),
        b.finite(),
        0real <= value(a),
        0real <= value(b),
    ensures
        is_number(a.times(b)),
        0real <= value(a.times(b)) <= value(a) * value(b),
        fits(value, value(a) * value(b)) ==> a.times(b).finite() && value(a) * value(b) - unit <= value(
            a.times(b),
        ),
{
    reveal(rounds_toward_zero);
    assert(is_rounded(value, unit, a.times(b), value(a) * value(b)));
    if fits(value, value(a) * value(b)) {
        lemma_closer_fits(value, value(a.times(b)), value(a) * value(b));
        lemma_fitting(value, unit, a.times(b));
    }
}

/// A quotient that is not negative.
pub(crate) proof fn lemma_over<N: Num>(value: spec_fn(N) -> real, unit: real, a: N, b: N)
    requires
        rounds_toward_zero(value, unit),
        a.finite(),
        b.finite(),
        0real <= value(a),
        0real < value(b),
    ensures
        is_number(a.over(b)),
        0real <= value(a.over(b)) <= value(a) / value(b),
        fits(value, value(a) / value(b)) ==> a.over(b).finite() && value(a) / value(b) - unit <= value(
            a.over(b),
        ),
{
    reveal(rounds_toward_zero);
    assert(is_rounded(value, unit, a.over(b), value(a) / value(b)));
    if fits(value, value(a) / value(b)) {
        lemma_closer_fits(value, value(a.over(b)), value(a) / value(b));
        lemma_fitting(value, unit, a.over(b));
    }
}

/// A quotient that is not positive.
pub(crate) proof fn lemma_under<N: Num>(value: spec_fn(N) -> real, unit: real, a: N, b: N)
    requires
        rounds_toward_zero(value, unit),
        has_measures(value),
        a.finite(),
        b.finite(),
        value(a) <= 0real,
        0real < value(b),
        fits(value, value(a) / value(b)),
    ensures
        a.over(b).finite(),
        value(a) / value(b) <= value(a.over(b)) <= 0real,
        value(a.over(b)) <= value(a) / value(b) + unit,
{
    reveal(has_measures);
    lemma_negated(value, unit, a);
    let c = a.negated();
    let x = value(a);
    let y = value(b);
    assert((0real - x) / y == 0real - x / y && x / y <= 0real) by (nonlinear_arith)
        requires
            x <= 0real,
            0real < y,
    ;
    lemma_closer_fits(value, value(c) / y, x / y);
    lemma_over(value, unit, c, b);
    lemma_closer_fits(value, value(a.over(b)), x / y);
    lemma_fitting(value, unit, a.over(b));
}

// -------------------------------------------------------- fixed-point numbers

/// The value of a fixed-point number.
pub open spec fn fixed_value() -> spec_fn(Fixed) -> real {
    |x: Fixed| x.millionths as real / 1_000_000real
}

/// One millionth.
pub open spec fn millionth() -> real {
    1real / 1_000_000real
}

proof fn lemma_scaled(a: int, b: int)
    ensures
        a <= b <==> a as real / 1_000_000real <= b as real / 1_000_000real,
        a < b <==> (a as real / 1_000_000real) < b as real / 1_000_000real,
        (a + b) as real / 1_000_000real == a as real / 1_000_000real + b as real / 1_000_000real,
        (a - b) as real / 1_000_000real == a as real / 1_000_000real - b as real / 1_000_000real,
{
}

/// What fits into fixed-point numbers.
pub(crate) proof fn lemma_fixed_fits(x: real)
    ensures
        fits(fixed_value(), x) <==> 0real - ((TOP - 1) as real) <= x * 1_000_000real <= (TOP - 1) as real,
{
    let value = fixed_value();
    let c = Fixed { millionths: (TOP - 1) as i64 };
    if 0real - ((TOP - 1) as real) <= x * 1_000_000real <= (TOP - 1) as real {
        assert(c.finite());
        assert(0real - value(c) <= x <= value(c));
    }
    if fits(value, x) {
        let d = choose|d: Fixed| (#[trigger] d.finite()) && 0real - value(d) <= x <= value(d);
        assert(d.millionths <= TOP - 1);
        lemma_scaled(d.millionths as int, (TOP - 1) as int);
    }
}

proof fn lemma_fixed_product(a: int, b: int)
    requires
        0 <= a < TOP,
        0 <= b < TOP,
    ensures
        ({
            let x = saturated(toward_zero(a * b, SCALE as int));
            let exact = (a as real / 1_000_000real) * (b as real / 1_000_000real);
            &&& 0real <= fixed_value()(x) <= exact
            &&& !x.is_undefined()
            &&& exact * 1_000_000real <= (TOP - 1) as real ==> exact - millionth() <= fixed_value()(x)
        }),
{
    let p = a * b;
    assert(0 <= p) by (nonlinear_arith)
        requires
            0 <= a,
            0 <= b,
            p == a * b,
    ;
    let q = p / 1_000_000;
    assert(q * 1_000_000 <= p < (q + 1) * 1_000_000);
    assert(0 <= q);
    let exact = (a as real / 1_000_000real) * (b as real / 1_000_000real);
    assert(p as real == a as real * b as real) by (nonlinear_arith)
        requires
            p == a * b,
    ;
    assert(exact == p as real / 1_000_000_000_000real) by (nonlinear_arith)
        requires
            p as real == a as real * b as real,
            exact == (a as real / 1_000_000real) * (b as real / 1_000_000real),
    ;
    assert((q * 1_000_000) as real <= p as real);
    assert((p as real) < ((q + 1) * 1_000_000) as real);
    assert((q * 1_000_000) as real == q as real * 1_000_000real);
    assert(((q + 1) * 1_000_000) as real == q as real * 1_000_000real + 1_000_000real);
}

proof fn lemma_fixed_quotient(a: int, b: int)
    requires
        0 <= a < TOP,
        0 < b < TOP,
    ensures
        ({
            let x = saturated(toward_zero(a * SCALE, b));
            let exact = (a as real / 1_000_000real) / (b as real / 1_000_000real);
            &&& 0real <= fixed_value()(x) <= exact
            &&& !x.is_undefined()
            &&& exact * 1_000_000real <= (TOP - 1) as real ==> exact - millionth() <= fixed_value()(x)
        }),
{
    let p = a * 1_000_000;
    let q = p / b;
    assert(q * b <= p < (q + 1) * b && 0 <= q) by (nonlinear_arith)
        requires
            q == p / b,
            0 <= p,
            0 < b,
    ;
    let exact = (a as real / 1_000_000real) / (b as real / 1_000_000real);
    let x = a as real;
    let y = b as real;
    assert(exact == x / y) by (nonlinear_arith)
        requires
            exact == (x / 1_000_000real) / (y / 1_000_000real),
            y > 0real,
    ;
    assert((q * b) as real <= p as real);
    assert((p as real) < ((q + 1) * b) as real);
    let z = q as real;
    assert((q * b) as real == z * y) by (nonlinear_arith)
        requires
            z == q as real,
            y == b as real,
    ;
    assert(((q + 1) * b) as real == (z + 1real) * y) by (nonlinear_arith)
        requires
            z == q as real,
            y == b as real,
    ;
    assert(p as real == x * 1_000_000real);
    assert(z / 1_000_000real <= x / y && x / y < (z + 1real) / 1_000_000real) by (nonlinear_arith)
        requires
            y > 0real,
            z * y <= x * 1_000_000real,
            x * 1_000_000real < (z + 1real) * y,
    ;
}

/// Fixed-point numbers round toward zero by at most a millionth.
pub proof fn fixed_numbers_round_toward_zero()
    ensures
        rounds_toward_zero(fixed_value(), millionth()),
{
    let value = fixed_value();
    reveal(rounds_toward_zero);
    assert(has_constants(value)) by {
        assert(zero_of::<Fixed>().millionths == 0);
        assert(one_of::<Fixed>().millionths == 1_000_000);
        assert(count::<Fixed>(60).millionths == 60_000_000);
        assert(Fixed::rational(1, 1_000_000_000).millionths == 0);
    }
    assert(orders(value)) by {
        assert forall|a: Fixed| #![trigger a.finite()] is_number(a) && fits(value, value(a)) implies a.finite() by {
            lemma_fixed_fits(value(a));
        }
    }
    assert(adds(value)) by {
        assert forall|a: Fixed, b: Fixed| #![trigger a.plus(b)] is_number(a) && b.finite() implies is_number(
            a.plus(b),
        ) && (a.finite() && fits(value, value(a) + value(b)) ==> value(a.plus(b)) == value(a) + value(b)) by {
            lemma_fixed_fits(value(a) + value(b));
            lemma_scaled(a.millionths as int, b.millionths as int);
        }
        assert forall|a: Fixed, b: Fixed| #![trigger a.minus(b)] is_number(a) && b.finite() implies is_number(
            a.minus(b),
        ) && (a.finite() && fits(value, value(a) - value(b)) ==> value(a.minus(b)) == value(a) - value(
            b,
        )) by {
            lemma_fixed_fits(value(a) - value(b));
            lemma_scaled(a.millionths as int, b.millionths as int);
        }
        assert forall|a: Fixed| #![trigger a.negated()] a.finite() implies a.negated().finite() && value(
            a.negated(),
        ) == 0real - value(a) by {}
    }
    assert(multiplies(value, millionth())) by {
        assert forall|a: Fixed, b: Fixed|
            #![trigger a.times(b)]
            a.finite() && b.finite() && 0real <= value(a) && 0real <= value(b) implies is_rounded(
            value,
            millionth(),
            a.times(b),
            value(a) * value(b),
        ) by {
            lemma_fixed_fits(value(a) * value(b));
            lemma_fixed_product(a.millionths as int, b.millionths as int);
        }
        assert forall|a: Fixed, b: Fixed|
            #![trigger a.over(b)]
            a.finite() && b.finite() && 0real <= value(a) && 0real < value(b) implies is_rounded(
            value,
            millionth(),
            a.over(b),
            value(a) / value(b),
        ) by {
            lemma_fixed_fits(value(a) / value(b));
            lemma_fixed_quotient(a.millionths as int, b.millionths as int);
        }
    }
}

proof fn lemma_saturated_order(a: int, b: int)
    requires
        a <= b,
    ensures
        saturated(a).millionths <= saturated(b).millionths,
        !saturated(a).is_undefined(),
{
}

/// Fixed-point numbers have an infinity, and their measures are what they say.
pub proof fn fixed_numbers_measure_and_reach_infinity()
    ensures
        has_infinity(fixed_value()),
        has_measures(fixed_value()),
{
    let value = fixed_value();
    reveal(has_measures);
    assert forall|b: Fixed| (#[trigger] b.finite()) implies value(b) <= value(Fixed::unbounded())
        && Fixed::unbounded().minus(b) == Fixed::unbounded() by {
        lemma_scaled(b.millionths as int, TOP as int);
    }
    lemma_fixed_fits(3600real);
    assert forall|n: u64| #![trigger Fixed::rational(n, 1)] fits(value, n as real) implies Fixed::rational(
        n,
        1,
    ).finite() && value(Fixed::rational(n, 1)) == n as real by {
        lemma_fixed_fits(n as real);
        let x = n as int * 1_000_000;
        assert(x as real == n as real * 1_000_000real);
        assert(x <= TOP - 1);
        assert(toward_zero(n * SCALE, 1) == x);
    }
    assert(Fixed::rational(1, 10).millionths == 100_000);
    assert(Fixed::rational(1, 100_000).millionths == 10);
    assert forall|a: Fixed, b: Fixed, c: Fixed|
        #![trigger a.over(c), b.over(c)]
        a.finite() && b.finite() && c.finite() && 0real <= value(a) <= value(b) && 0real < value(
            c,
        ) implies value(a.over(c)) <= value(b.over(c)) by {
        let x = a.millionths * SCALE;
        let y = b.millionths * SCALE;
        let z = c.millionths as int;
        lemma_scaled(a.millionths as int, b.millionths as int);
        assert(x / z <= y / z) by (nonlinear_arith)
            requires
                0 <= x <= y,
                0 < z,
        ;
        lemma_saturated_order(x / z, y / z);
        lemma_scaled(saturated(x / z).millionths as int, saturated(y / z).millionths as int);
    }
    assert forall|a: Fixed, b: Fixed, c: Fixed|
        #![trigger a.times(c), b.times(c)]
        a.finite() && b.finite() && c.finite() && 0real <= value(a) <= value(b) && 0real <= value(
            c,
        ) implies value(a.times(c)) <= value(b.times(c)) by {
        lemma_scaled(a.millionths as int, b.millionths as int);
        let p = a.millionths * c.millionths;
        let q = b.millionths * c.millionths;
        assert(0 <= p <= q) by (nonlinear_arith)
            requires
                0 <= a.millionths <= b.millionths,
                0 <= c.millionths,
                p == a.millionths * c.millionths,
                q == b.millionths * c.millionths,
        ;
        assert(p / 1_000_000 <= q / 1_000_000);
        lemma_saturated_order(p / 1_000_000, q / 1_000_000);
        lemma_scaled(
            saturated(p / 1_000_000).millionths as int,
            saturated(q / 1_000_000).millionths as int,
        );
    }
    assert forall|a: Fixed, c: Fixed|
        #![trigger a.over(c), a.negated()]
        a.finite() && c.finite() && value(a) <= 0real && 0real < value(c) implies is_number(a.over(c)) && value(
        a.over(c),
    ) == 0real - value(a.negated().over(c)) by {
        lemma_scaled(a.millionths as int, 0);
        lemma_scaled(0, c.millionths as int);
        assert(-(a.millionths * SCALE) == (-a.millionths) * SCALE) by (nonlinear_arith);
        assert(0 <= (-a.millionths) * SCALE);
        let q = toward_zero((-a.millionths) * SCALE, c.millionths as int);
        assert(toward_zero(a.millionths * SCALE, c.millionths as int) == -q);
        assert(saturated(-q).millionths == -saturated(q).millionths);
        lemma_scaled(0, saturated(q).millionths as int);
    }
}

/// Division of whole numbers toward zero is off by less than one.
proof fn lemma_toward_zero(n: int, d: int)
    requires
        0 < d,
    ensures
        ({
            let q = toward_zero(n, d) as real;
            n as real / d as real - 1real <= q <= n as real / d as real + 1real
        }),
{
    let m = if n >= 0 {
        n
    } else {
        -n
    };
    let q = m / d;
    assert(q * d <= m < (q + 1) * d) by (nonlinear_arith)
        requires
            q == m / d,
            0 < d,
            0 <= m,
    ;
    let x = m as real;
    let y = d as real;
    let z = q as real;
    assert((q * d) as real <= x && x < ((q + 1) * d) as real);
    assert((q * d) as real == z * y) by (nonlinear_arith)
        requires
            z == q as real,
            y == d as real,
    ;
    assert(((q + 1) * d) as real == (z + 1real) * y) by (nonlinear_arith)
        requires
            z == q as real,
            y == d as real,
    ;
    assert(z <= x / y && x / y <= z + 1real && (0real - x) / y == 0real - x / y) by (nonlinear_arith)
        requires
            0real < y,
            z * y <= x,
            x <= (z + 1real) * y,
    ;
}

/// Millionths that come within one of what fits.
proof fn lemma_about(n: int, exact: real)
    requires
        exact * 1_000_000real - 1real <= n as real <= exact * 1_000_000real + 1real,
        fits(fixed_value(), exact) ==> 0real - ((TOP - 1) as real) <= n as real <= (TOP - 1) as real,
    ensures
        is_about(fixed_value(), millionth(), saturated(n), exact),
{
    if fits(fixed_value(), exact) {
        assert(-(TOP - 1) <= n <= TOP - 1);
    }
}

/// What is rounded toward zero fits where the exact value does.
proof fn lemma_still_fits(n: int, d: int, exact: real)
    requires
        0 < d,
        n as real / d as real == exact * 1_000_000real,
    ensures
        fits(fixed_value(), exact) ==> 0real - ((TOP - 1) as real) <= toward_zero(n, d) as real <= (TOP - 1) as real,
{
    lemma_fixed_fits(exact);
    let m = if n >= 0 {
        n
    } else {
        -n
    };
    let q = m / d;
    assert(q * d <= m && 0 <= q) by (nonlinear_arith)
        requires
            q == m / d,
            0 < d,
            0 <= m,
    ;
    let x = m as real;
    let y = d as real;
    let z = q as real;
    assert((q * d) as real <= x);
    assert((q * d) as real == z * y) by (nonlinear_arith)
        requires
            z == q as real,
            y == d as real,
    ;
    assert(z <= x / y && (0real - x) / y == 0real - x / y) by (nonlinear_arith)
        requires
            0real < y,
            z * y <= x,
    ;
}

proof fn lemma_ratio_scaled(a: real, b: real)
    requires
        0real < b,
    ensures
        (a * 1_000_000real) / b == a / b * 1_000_000real,
        (a / 1_000_000real) / (b / 1_000_000real) == a / b,
{
    assert((a * 1_000_000real) / b == a / b * 1_000_000real) by (nonlinear_arith)
        requires
            0real < b,
    ;
    assert((a / 1_000_000real) / (b / 1_000_000real) == a / b) by (nonlinear_arith)
        requires
            0real < b,
    ;
}

/// Fixed-point numbers have fractions up to a millionth.
pub proof fn fixed_numbers_have_fractions()
    ensures
        has_fractions(fixed_value(), millionth()),
{
    let value = fixed_value();
    let unit = millionth();
    reveal(has_fractions);
    assert forall|b: Fixed| (#[trigger] b.finite()) implies value(unbounded_below::<Fixed>()) <= value(b) by {
        assert(unbounded_below::<Fixed>().millionths == -TOP);
        lemma_scaled(-TOP as int, b.millionths as int);
    }
    assert forall|n: u64, d: u64| #![trigger Fixed::rational(n, d)] d > 0 implies is_about(
        value,
        unit,
        Fixed::rational(n, d),
        n as real / d as real,
    ) by {
        let m = n * SCALE;
        assert(m as real == n as real * 1_000_000real);
        lemma_ratio_scaled(n as real, d as real);
        lemma_toward_zero(m as int, d as int);
        lemma_still_fits(m as int, d as int, n as real / d as real);
        lemma_about(toward_zero(m as int, d as int), n as real / d as real);
    }
    assert forall|a: Fixed, b: Fixed| #![trigger a.times(b)] a.finite() && b.finite() implies is_about(
        value,
        unit,
        a.times(b),
        value(a) * value(b),
    ) by {
        let m = a.millionths * b.millionths;
        let x = a.millionths as real;
        let y = b.millionths as real;
        assert(m as real == x * y) by (nonlinear_arith)
            requires
                m == a.millionths * b.millionths,
                x == a.millionths as real,
                y == b.millionths as real,
        ;
        assert((x * y) / 1_000_000real == (x / 1_000_000real) * (y / 1_000_000real) * 1_000_000real)
            by (nonlinear_arith);
        lemma_toward_zero(m as int, SCALE as int);
        lemma_still_fits(m as int, SCALE as int, value(a) * value(b));
        lemma_about(toward_zero(m as int, SCALE as int), value(a) * value(b));
    }
    assert forall|a: Fixed, b: Fixed|
        #![trigger a.over(b)]
        a.finite() && b.finite() && 0real < value(b) implies is_about(value, unit, a.over(b), value(a) / value(b)) by {
        lemma_scaled(0, b.millionths as int);
        let m = a.millionths * SCALE;
        let x = a.millionths as real;
        let y = b.millionths as real;
        assert(m as real == x * 1_000_000real);
        lemma_ratio_scaled(x, y);
        lemma_toward_zero(m as int, b.millionths as int);
        lemma_still_fits(m as int, b.millionths as int, value(a) / value(b));
        lemma_about(toward_zero(m as int, b.millionths as int), value(a) / value(b));
    }
}

} // verus!
