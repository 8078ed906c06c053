//! Fixed-point numbers: whole millionths, with infinities and an undefined
//! value, for runs that must not depend on floating-point hardware.
//!
//! Results that do not fit become infinite; products and quotients are rounded
//! toward zero.

use vstd::prelude::*;

use crate::num::Num;
use crate::text::{decimal, digit, push_u64};

verus! {

/// A number of millionths. The largest and the smallest symmetric value stand for
/// the infinities, the value below them for the undefined number.
#[derive(Debug, Clone, Copy, PartialEq, Eq, Structural)]
pub struct Fixed {
    pub millionths: i64,
}

/// Millionths in one.
pub const SCALE: i64 = 1_000_000;

/// The raw value of positive infinity.
pub const TOP: i64 = 0x7fff_ffff_ffff_ffff;

/// The raw value of negative infinity.
pub const BOTTOM: i64 = -0x7fff_ffff_ffff_ffff;

/// The raw value of the undefined number.
pub const UNDEFINED: i64 = -0x7fff_ffff_ffff_ffff - 1;

/// The undefined number.
pub open spec fn undefined() -> Fixed {
    Fixed { millionths: UNDEFINED }
}

/// `n` millionths, infinite where they do not fit.
pub open spec fn saturated(n: int) -> Fixed {
    if n >= TOP {
        Fixed { millionths: TOP }
    } else if n <= BOTTOM {
        Fixed { millionths: BOTTOM }
    } else {
        Fixed { millionths: n as i64 }
    }
}

/// The infinity with the sign of `n`, undefined for zero.
pub open spec fn infinity_like(n: int) -> Fixed {
    if n > 0 {
        Fixed { millionths: TOP }
    } else if n < 0 {
        Fixed { millionths: BOTTOM }
    } else {
        undefined()
    }
}

/// `n / d` toward zero, for a positive `d`.
pub open spec fn toward_zero(n: int, d: int) -> int {
    if n >= 0 {
        n / d
    } else {
        -((-n) / d)
    }
}

/// The sign of `n`.
pub open spec fn sign(n: int) -> int {
    if n > 0 {
        1
    } else if n < 0 {
        -1
    } else {
        0
    }
}

impl Fixed {
    /// The undefined number.
    pub open spec fn is_undefined(self) -> bool {
        self.millionths == UNDEFINED
    }

    /// One of the infinities.
    pub open spec fn is_unbounded(self) -> bool {
        self.millionths == TOP || self.millionths == BOTTOM
    }

    /// `-self`.
    pub open spec fn opposite(self) -> Fixed {
        if self.is_undefined() {
            self
        } else {
            Fixed { millionths: (-self.millionths) as i64 }
        }
    }

    /// `self + other`.
    pub open spec fn sum(self, other: Fixed) -> Fixed {
        if self.is_undefined() || other.is_undefined() {
            undefined()
        } else if self.is_unbounded() {
            if other.is_unbounded() && other != self {
                undefined()
            } else {
                self
            }
        } else if other.is_unbounded() {
            other
        } else {
            saturated(self.millionths + other.millionths)
        }
    }

    /// `self * other`.
    pub open spec fn product(self, other: Fixed) -> Fixed {
        if self.is_undefined() || other.is_undefined() {
            undefined()
        } else if self.is_unbounded() || other.is_unbounded() {
            infinity_like(sign(self.millionths as int) * sign(other.millionths as int))
        } else {
            saturated(toward_zero(self.millionths * other.millionths, SCALE as int))
        }
    }

    /// `self / other`.
    pub open spec fn quotient(self, other: Fixed) -> Fixed {
        if self.is_undefined() || other.is_undefined() {
            undefined()
        } else if other.is_unbounded() {
            if self.is_unbounded() {
                undefined()
            } else {
                Fixed { millionths: 0 }
            }
        } else if self.is_unbounded() {
            if other.millionths < 0 {
                self.opposite()
            } else {
                self
            }
        } else if other.millionths == 0 {
            infinity_like(self.millionths as int)
        } else if other.millionths > 0 {
            saturated(toward_zero(self.millionths * SCALE, other.millionths as int))
        } else {
            saturated(toward_zero(-(self.millionths * SCALE), -other.millionths))
        }
    }

    /// `self` squared `n` times over.
    pub open spec fn squared(self, n: nat) -> Fixed
        decreases n,
    {
        if n == 0 {
            self
        } else {
            self.product(self).squared((n - 1) as nat)
        }
    }

    /// `e` to the power `self`, approximately: `(1 + self / 1024)` squared ten
    /// times over, zero far below zero.
    pub open spec fn power_of_e(self) -> Fixed {
        if self.is_undefined() {
            self
        } else if self.millionths <= -40_000_000 {
            Fixed { millionths: 0 }
        } else {
            Fixed { millionths: SCALE }.sum(
                self.quotient(Fixed { millionths: 1_024_000_000 }),
            ).squared(10)
        }
    }

    /// The whole part of a number that is not negative.
    pub open spec fn whole_part(self) -> int {
        if self.millionths <= 0 {
            0
        } else if self.is_unbounded() || self.millionths as int / SCALE as int > usize::MAX {
            usize::MAX as int
        } else {
            self.millionths as int / SCALE as int
        }
    }

    /// The decimal text of the number.
    pub open spec fn text(self) -> Seq<char> {
        if self.is_undefined() {
            "NaN"@
        } else if self.millionths == TOP {
            "inf"@
        } else if self.millionths == BOTTOM {
            "-inf"@
        } else if self.millionths < 0 {
            "-"@ + magnitude_text((-self.millionths) as nat)
        } else {
            magnitude_text(self.millionths as nat)
        }
    }
}

/// The decimal text of `n` millionths.
pub open spec fn magnitude_text(n: nat) -> Seq<char> {
    decimal(n / 1_000_000) + "."@ + padded(n % 1_000_000, 6)
}

/// The last `width` digits of `n`.
pub open spec fn padded(n: nat, width: nat) -> Seq<char>
    decreases width,
{
    if width == 0 {
        Seq::empty()
    } else {
        padded(n / 10, (width - 1) as nat) + digit((n % 10) as int)
    }
}

// ------------------------------------------------------------------ reading

/// A decimal digit.
pub open spec fn is_digit(c: char) -> bool {
    '0' as u32 <= c as u32 <= '9' as u32
}

/// The number that digits spell.
pub open spec fn digits_value(s: Seq<char>) -> nat
    decreases s.len(),
{
    if s.len() == 0 {
        0
    } else {
        digits_value(s.drop_last()) * 10 + (s.last() as u32 - '0' as u32) as nat
    }
}

/// All characters are digits.
pub open spec fn are_digits(s: Seq<char>) -> bool {
    forall|i: int| 0 <= i < s.len() ==> is_digit(#[trigger] s[i])
}

/// Ten to the power `n`.
pub open spec fn ten_to(n: nat) -> nat
    decreases n,
{
    if n == 0 {
        1
    } else {
        10 * ten_to((n - 1) as nat)
    }
}

/// The first position of a dot.
pub open spec fn dot_in(s: Seq<char>, i: int) -> int
    decreases s.len() - i,
{
    if i >= s.len() || s[i] == '.' {
        i
    } else {
        dot_in(s, i + 1)
    }
}

/// The millionths that an unsigned text spells: one to twelve digits, and after
/// a dot one to six more.
pub open spec fn unsigned_value(s: Seq<char>) -> Option<nat> {
    let d = dot_in(s, 0);
    let head = s.subrange(0, d);
    if !(1 <= d <= 12 && d <= s.len() && are_digits(head)) {
        None
    } else if d == s.len() {
        Some(digits_value(head) * 1_000_000)
    } else {
        let tail = s.subrange(d + 1, s.len() as int);
        if 1 <= tail.len() <= 6 && are_digits(tail) {
            Some(
                digits_value(head) * 1_000_000 + digits_value(tail) * ten_to((6 - tail.len()) as nat),
            )
        } else {
            None
        }
    }
}

/// The number that a text spells: an optional minus sign and an unsigned text.
pub open spec fn text_value(s: Seq<char>) -> Option<Fixed> {
    if s.len() > 0 && s[0] == '-' {
        match unsigned_value(s.subrange(1, s.len() as int)) {
            Some(n) => Some(Fixed { millionths: (-n) as i64 }),
            None => None,
        }
    } else {
        match unsigned_value(s) {
            Some(n) => Some(Fixed { millionths: n as i64 }),
            None => None,
        }
    }
}

proof fn lemma_digits_value(s: Seq<char>)
    requires
        are_digits(s),
    ensures
        digits_value(s) < ten_to(s.len()),
    decreases s.len(),
{
    if s.len() > 0 {
        let rest = s.drop_last();
        assert forall|i: int| 0 <= i < rest.len() implies is_digit(#[trigger] rest[i]) by {
            assert(rest[i] == s[i]);
        }
        lemma_digits_value(rest);
        assert(is_digit(s[s.len() - 1]));
    }
}

proof fn lemma_ten_to(m: nat, n: nat)
    requires
        m <= n,
    ensures
        1 <= ten_to(m) <= ten_to(n),
    decreases n,
{
    if n > 0 {
        if m < n {
            lemma_ten_to(m, (n - 1) as nat);
        } else {
            lemma_ten_to((m - 1) as nat, (n - 1) as nat);
        }
    }
}

proof fn lemma_twelve_digits()
    ensures
        ten_to(12) == 1_000_000_000_000,
        ten_to(6) == 1_000_000,
{
    reveal_with_fuel(ten_to, 13);
}

// ---------------------------------------------------------------- execution

/// `n` millionths, infinite where they do not fit.
fn saturate(n: i128) -> (r: Fixed)
    ensures
        r == saturated(n as int),
{
    if n >= TOP as i128 {
        Fixed { millionths: TOP }
    } else if n <= BOTTOM as i128 {
        Fixed { millionths: BOTTOM }
    } else {
        Fixed { millionths: n as i64 }
    }
}

/// `n / d` toward zero.
fn divide(n: i128, d: i128) -> (r: i128)
    requires
        d > 0,
        -0x7fff_ffff_ffff_ffff_ffff_ffff_ffff_ffff <= n,
    ensures
        r == toward_zero(n as int, d as int),
{
    if n >= 0 {
        proof {
            vstd::arithmetic::div_mod::lemma_div_pos_is_pos(n as int, d as int);
            vstd::arithmetic::div_mod::lemma_div_nonincreasing(n as int, d as int);
        }
        n / d
    } else {
        let m: i128 = -n;
        proof {
            vstd::arithmetic::div_mod::lemma_div_pos_is_pos(m as int, d as int);
            vstd::arithmetic::div_mod::lemma_div_nonincreasing(m as int, d as int);
        }
        -(m / d)
    }
}

/// The infinity with the sign of `n`, undefined for zero.
fn infinite_like(n: i64) -> (r: Fixed)
    ensures
        r == infinity_like(n as int),
{
    if n > 0 {
        Fixed { millionths: TOP }
    } else if n < 0 {
        Fixed { millionths: BOTTOM }
    } else {
        Fixed { millionths: UNDEFINED }
    }
}

/// The sign of `n`.
fn sign_of(n: i64) -> (r: i64)
    ensures
        r == sign(n as int),
        -1 <= r <= 1,
{
    if n > 0 {
        1
    } else if n < 0 {
        -1
    } else {
        0
    }
}

impl Fixed {
    fn find_sum(self, other: Fixed) -> (r: Fixed)
        ensures
            r == self.sum(other),
    {
        if self.millionths == UNDEFINED || other.millionths == UNDEFINED {
            Fixed { millionths: UNDEFINED }
        } else if self.millionths == TOP || self.millionths == BOTTOM {
            if (other.millionths == TOP || other.millionths == BOTTOM) && other.millionths
                != self.millionths {
                Fixed { millionths: UNDEFINED }
            } else {
                self
            }
        } else if other.millionths == TOP || other.millionths == BOTTOM {
            other
        } else {
            saturate(self.millionths as i128 + other.millionths as i128)
        }
    }

    fn find_opposite(self) -> (r: Fixed)
        ensures
            r == self.opposite(),
    {
        if self.millionths == UNDEFINED {
            self
        } else {
            Fixed { millionths: -self.millionths }
        }
    }

    fn find_product(self, other: Fixed) -> (r: Fixed)
        ensures
            r == self.product(other),
    {
        if self.millionths == UNDEFINED || other.millionths == UNDEFINED {
            Fixed { millionths: UNDEFINED }
        } else if self.millionths == TOP || self.millionths == BOTTOM || other.millionths == TOP
            || other.millionths == BOTTOM {
            let a: i64 = sign_of(self.millionths);
            let b: i64 = sign_of(other.millionths);
            assert(-1 <= a * b <= 1) by (nonlinear_arith)
                requires
                    -1 <= a <= 1,
                    -1 <= b <= 1,
            ;
            infinite_like(a * b)
        } else {
            let a: i128 = self.millionths as i128;
            let b: i128 = other.millionths as i128;
            assert(-0x4000_0000_0000_0000_0000_0000_0000_0000 <= a * b
                <= 0x4000_0000_0000_0000_0000_0000_0000_0000) by (nonlinear_arith)
                requires
                    -0x8000_0000_0000_0000 <= a <= 0x7fff_ffff_ffff_ffff,
                    -0x8000_0000_0000_0000 <= b <= 0x7fff_ffff_ffff_ffff,
            ;
            saturate(divide(a * b, SCALE as i128))
        }
    }

    fn find_quotient(self, other: Fixed) -> (r: Fixed)
        ensures
            r == self.quotient(other),
    {
        if self.millionths == UNDEFINED || other.millionths == UNDEFINED {
            Fixed { millionths: UNDEFINED }
        } else if other.millionths == TOP || other.millionths == BOTTOM {
            if self.millionths == TOP || self.millionths == BOTTOM {
                Fixed { millionths: UNDEFINED }
            } else {
                Fixed { millionths: 0 }
            }
        } else if self.millionths == TOP || self.millionths == BOTTOM {
            if other.millionths < 0 {
                self.find_opposite()
            } else {
                self
            }
        } else if other.millionths == 0 {
            infinite_like(self.millionths)
        } else {
            let n: i128 = self.millionths as i128 * SCALE as i128;
            let d: i128 = other.millionths as i128;
            if d > 0 {
                saturate(divide(n, d))
            } else {
                saturate(divide(-n, -d))
            }
        }
    }
}

/// Appends the last `width` digits of `n`.
fn push_padded(out: &mut String, n: u64, width: u64)
    ensures
        final(out)@ == old(out)@ + padded(n as nat, width as nat),
    decreases width,
{
    if width == 0 {
        assert(out@ =~= old(out)@ + padded(n as nat, 0));
    } else {
        push_padded(out, n / 10, width - 1);
        let ghost before = out@;
        push_u64(out, n % 10);
        assert(decimal((n % 10) as nat) == digit((n % 10) as int));
        assert(out@ =~= old(out)@ + padded(n as nat, width as nat));
    }
}

/// The millionths that an unsigned text spells.
fn read_unsigned(s: &[char]) -> (r: Option<i64>)
    ensures
        match (r, unsigned_value(s@)) {
            (Some(a), Some(b)) => a == b && 0 <= a <= 1_000_000_000_000_000_000,
            (None, None) => true,
            _ => false,
        },
{
    let n: usize = s.len();
    let mut d: usize = 0;
    while d < n && s[d] != '.'
        invariant
            n == s@.len(),
            d <= n,
            dot_in(s@, 0) == dot_in(s@, d as int),
        decreases n - d,
    {
        d = d + 1;
    }
    if d == 0 || d > 12 {
        return None;
    }
    let head = match read_digits(s, 0, d) {
        Some(x) => x,
        None => {
            return None;
        },
    };
    proof {
        lemma_twelve_digits();
        lemma_ten_to(d as nat, 12);
    }
    if d == n {
        return Some(head * 1_000_000);
    }
    let more: usize = n - d - 1;
    if more == 0 || more > 6 {
        return None;
    }
    let tail = match read_digits(s, d + 1, n) {
        Some(x) => x,
        None => {
            return None;
        },
    };
    let ghost start = tail;
    let mut scaled: i64 = tail;
    let mut k: usize = more;
    proof {
        lemma_ten_to(more as nat, 6);
    }
    assert(ten_to((k - more) as nat) == 1);
    assert(start * 1 == start);
    while k < 6
        invariant
            more <= k <= 6,
            1 <= more,
            0 <= start < ten_to(more as nat),
            scaled == start * ten_to((k - more) as nat),
            0 <= scaled < ten_to(k as nat),
            ten_to(6) == 1_000_000,
        decreases 6 - k,
    {
        proof {
            lemma_ten_to((k + 1) as nat, 6);
            let a = start as int;
            let b = ten_to((k - more) as nat) as int;
            assert(ten_to((k + 1 - more) as nat) == 10 * ten_to((k - more) as nat));
            assert((a * b) * 10 == a * (10 * b)) by (nonlinear_arith);
        }
        scaled = scaled * 10;
        k = k + 1;
    }
    Some(head * 1_000_000 + scaled)
}

/// The number that the digits in `s[lo..hi]` spell.
fn read_digits(s: &[char], lo: usize, hi: usize) -> (r: Option<i64>)
    requires
        lo <= hi <= s@.len(),
        hi - lo <= 12,
    ensures
        r is Some <==> are_digits(s@.subrange(lo as int, hi as int)),
        r matches Some(x) ==> x == digits_value(s@.subrange(lo as int, hi as int)) && 0 <= x < ten_to(
            (hi - lo) as nat,
        ),
{
    let mut x: i64 = 0;
    let mut i: usize = lo;
    assert(s@.subrange(lo as int, lo as int) =~= Seq::empty());
    while i < hi
        invariant
            lo <= i <= hi <= s@.len(),
            hi - lo <= 12,
            are_digits(s@.subrange(lo as int, i as int)),
            x == digits_value(s@.subrange(lo as int, i as int)),
            0 <= x < ten_to((i - lo) as nat),
        decreases hi - i,
    {
        let c: char = s[i];
        let ghost before = s@.subrange(lo as int, i as int);
        let ghost after = s@.subrange(lo as int, i + 1);
        assert(after =~= before.push(c));
        assert(after.drop_last() =~= before);
        let code: u32 = c as u32;
        if code < 48 || code > 57 {
            assert(!is_digit(s@.subrange(lo as int, hi as int)[i - lo]));
            return None;
        }
        proof {
            lemma_twelve_digits();
            lemma_ten_to((i + 1 - lo) as nat, 12);
            lemma_ten_to((i - lo) as nat, 12);
            assert forall|j: int| 0 <= j < after.len() implies is_digit(#[trigger] after[j]) by {
                if j < before.len() {
                    assert(before[j] == after[j]);
                }
            }
            lemma_digits_value(after);
        }
        x = x * 10 + (code - 48) as i64;
        i = i + 1;
    }
    Some(x)
}

/// The number that a text spells.
fn read_text(text: &[char]) -> (r: Option<Fixed>)
    ensures
        r == text_value(text@),
{
    if text.len() > 0 && text[0] == '-' {
        match read_unsigned(vstd::slice::slice_subrange(text, 1, text.len())) {
            Some(n) => Some(Fixed { millionths: -n }),
            None => None,
        }
    } else {
        match read_unsigned(text) {
            Some(n) => Some(Fixed { millionths: n }),
            None => None,
        }
    }
}

impl Num for Fixed {
    open spec fn plus(self, other: Self) -> Self {
        self.sum(other)
    }

    open spec fn minus(self, other: Self) -> Self {
        self.sum(other.opposite())
    }

    open spec fn times(self, other: Self) -> Self {
        self.product(other)
    }

    open spec fn over(self, other: Self) -> Self {
        self.quotient(other)
    }

    open spec fn negated(self) -> Self {
        self.opposite()
    }

    open spec fn magnitude(self) -> Self {
        if self.is_undefined() || self.millionths >= 0 {
            self
        } else {
            self.opposite()
        }
    }

    open spec fn lesser(self, other: Self) -> Self {
        if self.is_undefined() {
            other
        } else if other.is_undefined() || self.millionths <= other.millionths {
            self
        } else {
            other
        }
    }

    open spec fn greater(self, other: Self) -> Self {
        if self.is_undefined() {
            other
        } else if other.is_undefined() || other.millionths <= self.millionths {
            self
        } else {
            other
        }
    }

    open spec fn exponential(self) -> Self {
        self.power_of_e()
    }

    open spec fn below(self, other: Self) -> bool {
        !self.is_undefined() && !other.is_undefined() && self.millionths < other.millionths
    }

    open spec fn at_most(self, other: Self) -> bool {
        !self.is_undefined() && !other.is_undefined() && self.millionths <= other.millionths
    }

    open spec fn same(self, other: Self) -> bool {
        !self.is_undefined() && self == other
    }

    open spec fn finite(self) -> bool {
        !self.is_undefined() && !self.is_unbounded()
    }

    open spec fn infinite(self) -> bool {
        self.is_unbounded()
    }

    open spec fn undefined(self) -> bool {
        self.is_undefined()
    }

    open spec fn rational(n: u64, d: u64) -> Self {
        saturated(toward_zero(n * SCALE, d as int))
    }

    open spec fn unbounded() -> Self {
        Fixed { millionths: TOP }
    }

    open spec fn no_number() -> Self {
        undefined()
    }

    open spec fn whole(self) -> usize {
        self.whole_part() as usize
    }

    open spec fn scientific(self) -> String {
        choose|s: String| s@ == self.text()
    }

    open spec fn spelled(text: &[char]) -> Option<Self> {
        text_value(text@)
    }

    fn add(self, other: Self) -> (r: Self) {
        self.find_sum(other)
    }

    fn sub(self, other: Self) -> (r: Self) {
        self.find_sum(other.find_opposite())
    }

    fn mul(self, other: Self) -> (r: Self) {
        self.find_product(other)
    }

    fn div(self, other: Self) -> (r: Self) {
        self.find_quotient(other)
    }

    fn neg(self) -> (r: Self) {
        self.find_opposite()
    }

    fn abs(self) -> (r: Self) {
        if self.millionths == UNDEFINED || self.millionths >= 0 {
            self
        } else {
            self.find_opposite()
        }
    }

    fn min(self, other: Self) -> (r: Self) {
        if self.millionths == UNDEFINED {
            other
        } else if other.millionths == UNDEFINED || self.millionths <= other.millionths {
            self
        } else {
            other
        }
    }

    fn max(self, other: Self) -> (r: Self) {
        if self.millionths == UNDEFINED {
            other
        } else if other.millionths == UNDEFINED || other.millionths <= self.millionths {
            self
        } else {
            other
        }
    }

    fn exp(self) -> (r: Self) {
        if self.millionths == UNDEFINED {
            self
        } else if self.millionths <= -40_000_000 {
            Fixed { millionths: 0 }
        } else {
            let mut x = Fixed { millionths: SCALE }.find_sum(
                self.find_quotient(Fixed { millionths: 1_024_000_000 }),
            );
            let ghost base = x;
            let mut n: u64 = 10;
            while n > 0
                invariant
                    n <= 10,
                    base.squared(10) == x.squared(n as nat),
                decreases n,
            {
                x = x.find_product(x);
                n = n - 1;
            }
            x
        }
    }

    fn lt(self, other: Self) -> (r: bool) {
        self.millionths != UNDEFINED && other.millionths != UNDEFINED && self.millionths
            < other.millionths
    }

    fn le(self, other: Self) -> (r: bool) {
        self.millionths != UNDEFINED && other.millionths != UNDEFINED && self.millionths
            <= other.millionths
    }

    fn eq(self, other: Self) -> (r: bool) {
        self.millionths != UNDEFINED && self.millionths == other.millionths
    }

    fn is_finite(self) -> (r: bool) {
        self.millionths != UNDEFINED && self.millionths != TOP && self.millionths != BOTTOM
    }

    fn is_infinite(self) -> (r: bool) {
        self.millionths == TOP || self.millionths == BOTTOM
    }

    fn is_nan(self) -> (r: bool) {
        self.millionths == UNDEFINED
    }

    fn ratio(n: u64, d: u64) -> (r: Self) {
        let scaled: i128 = n as i128 * 1_000_000;
        saturate(divide(scaled, d as i128))
    }

    fn infinity() -> (r: Self) {
        Fixed { millionths: TOP }
    }

    fn nan() -> (r: Self) {
        Fixed { millionths: UNDEFINED }
    }

    fn to_usize(self) -> (r: usize) {
        if self.millionths <= 0 {
            0
        } else if self.millionths == TOP {
            usize::MAX
        } else {
            let whole: u64 = self.millionths as u64 / 1_000_000;
            if whole > usize::MAX as u64 {
                usize::MAX
            } else {
                whole as usize
            }
        }
    }

    fn to_scientific(self) -> (r: String) {
        let mut out = String::new();
        if self.millionths == UNDEFINED {
            out.append("NaN");
        } else if self.millionths == TOP {
            out.append("inf");
        } else if self.millionths == BOTTOM {
            out.append("-inf");
        } else {
            let n: u64 = if self.millionths < 0 {
                out.append("-");
                (-self.millionths) as u64
            } else {
                self.millionths as u64
            };
            push_u64(&mut out, n / 1_000_000);
            out.append(".");
            push_padded(&mut out, n % 1_000_000, 6);
        }
        assert(out@ =~= self.text());
        out
    }

    fn parse(text: &[char]) -> (r: Option<Self>) {
        read_text(text)
    }
}

} // verus!
