//! Binary64 numbers of either sign, infinities, and patterns that stand for no number.
//!
//! `binary64` has the arithmetic on what these numbers are without their sign.
use crate::binary64;
use crate::binary64::{difference, floor, quotient, ratio, sum, INFINITY};
use vstd::prelude::*;

verus! {

/// The weight of the sign bit, which negative numbers have set. On its own it is the
/// pattern of a negative zero.
pub const SIGN: u64 = 0x8000_0000_0000_0000;

/// The pattern that an operation without a result gives. Every pattern beyond an
/// infinity stands for no number.
pub const NAN: u64 = 0x7FF8_0000_0000_0000;

/// A number without its sign.
pub open spec fn magnitude(b: u64) -> u64 {
    b % SIGN
}

/// Whether the sign of a number is set.
pub open spec fn is_negative(b: u64) -> bool {
    b >= SIGN
}

/// Whether a pattern stands for no number.
pub open spec fn is_nan(b: u64) -> bool {
    magnitude(b) > INFINITY
}

/// The number of the given sign and magnitude.
pub open spec fn signed(negative: bool, size: u64) -> u64 {
    if negative {
        (SIGN + size) as u64
    } else {
        size
    }
}

/// The sum of two numbers. Opposite infinities have none.
pub open spec fn plus_of(a: u64, b: u64) -> u64 {
    let (x, y) = (magnitude(a), magnitude(b));
    if is_nan(a) || is_nan(b) {
        NAN
    } else if is_negative(a) == is_negative(b) {
        signed(is_negative(a), binary64::sum_of(x, y))
    } else if x > y {
        signed(is_negative(a), binary64::difference_of(x, y))
    } else if x < y {
        signed(is_negative(b), binary64::difference_of(y, x))
    } else if x == INFINITY {
        NAN
    } else {
        0
    }
}

/// A number divided by another. Two zeros and two infinities have no quotient.
pub open spec fn over_of(a: u64, b: u64) -> u64 {
    let (x, y) = (magnitude(a), magnitude(b));
    if is_nan(a) || is_nan(b) || (x == 0 && y == 0) || (x == INFINITY && y == INFINITY) {
        NAN
    } else {
        signed(is_negative(a) != is_negative(b), binary64::quotient_of(x, y))
    }
}

/// A number multiplied by one positive whole number and divided by another, with a
/// single rounding.
pub open spec fn scaled_by(b: u64, factor: nat, divisor: nat) -> u64 {
    if is_nan(b) {
        NAN
    } else {
        signed(is_negative(b), binary64::ratio_of(magnitude(b), factor, divisor))
    }
}

/// The whole part of a number as a `u64`: zero for what is negative or no number, and
/// the greatest `u64` for what is beyond that.
pub open spec fn truncated_of(b: u64) -> u64 {
    if is_nan(b) || is_negative(b) {
        0
    } else {
        binary64::floor_of(b)
    }
}

/// The number of the given sign and magnitude.
fn with_sign(negative: bool, size: u64) -> (b: u64)
    requires
        size < SIGN,
    ensures
        b == signed(negative, size),
{
    if negative {
        SIGN + size
    } else {
        size
    }
}

/// The sum of two numbers.
pub fn plus(a: u64, b: u64) -> (r: u64)
    ensures
        r == plus_of(a, b),
{
    let x = a % SIGN;
    let y = b % SIGN;
    if x > INFINITY || y > INFINITY {
        NAN
    } else if (a >= SIGN) == (b >= SIGN) {
        with_sign(a >= SIGN, sum(x, y))
    } else if x > y {
        with_sign(a >= SIGN, difference(x, y))
    } else if x < y {
        with_sign(b >= SIGN, difference(y, x))
    } else if x == INFINITY {
        NAN
    } else {
        0
    }
}

/// A number divided by another.
pub fn over(a: u64, b: u64) -> (r: u64)
    ensures
        r == over_of(a, b),
{
    let x = a % SIGN;
    let y = b % SIGN;
    if x > INFINITY || y > INFINITY || (x == 0 && y == 0) || (x == INFINITY && y == INFINITY) {
        NAN
    } else {
        with_sign((a >= SIGN) != (b >= SIGN), quotient(x, y))
    }
}

/// A number multiplied by one positive whole number and divided by another, with a
/// single rounding.
pub fn scale(b: u64, factor: u32, divisor: u32) -> (r: u64)
    requires
        factor > 0,
        divisor > 0,
    ensures
        r == scaled_by(b, factor as nat, divisor as nat),
{
    let size = b % SIGN;
    if size > INFINITY {
        NAN
    } else {
        with_sign(b >= SIGN, ratio(size, factor, divisor))
    }
}

/// The whole part of a number as a `u64`.
pub fn truncate(b: u64) -> (n: u64)
    ensures
        n == truncated_of(b),
{
    if b > INFINITY {
        0
    } else {
        floor(b)
    }
}

/// Scaling keeps the sign of a number, and makes no number of what is none.
pub proof fn scaling_keeps_the_sign(b: u64, factor: nat, divisor: nat)
    requires
        divisor > 0,
    ensures
        is_nan(scaled_by(b, factor, divisor)) == is_nan(b),
        !is_nan(b) ==> is_negative(scaled_by(b, factor, divisor)) == is_negative(b),
{
    binary64::rounding_keeps_bounds(binary64::scaled(magnitude(b)) * factor, divisor, 0);
}

/// The sum of two numbers does not depend on their order.
pub proof fn sums_commute(a: u64, b: u64)
    ensures
        plus_of(a, b) == plus_of(b, a),
{
}

/// The sum of two numbers of the same sign has that sign and the sum of their sizes; of
/// two of different signs, the sign of the greater and what is left of it. Opposite numbers
/// come to zero, except infinities, which have no sum.
pub proof fn sums_go_by_sign_and_size(x: u64, y: u64)
    requires
        x <= 0x7FF0_0000_0000_0000,
        y <= 0x7FF0_0000_0000_0000,
    ensures
        plus_of(x, y) == binary64::sum_of(x, y),
        plus_of((x + 0x8000_0000_0000_0000) as u64, (y + 0x8000_0000_0000_0000) as u64)
            == binary64::sum_of(x, y) + 0x8000_0000_0000_0000,
        x > y ==> plus_of(x, (y + 0x8000_0000_0000_0000) as u64) == binary64::difference_of(x, y),
        x < y ==> plus_of(x, (y + 0x8000_0000_0000_0000) as u64) == binary64::difference_of(y, x)
            + 0x8000_0000_0000_0000,
        x == y && x < 0x7FF0_0000_0000_0000 ==> plus_of(x, (y + 0x8000_0000_0000_0000) as u64) == 0,
        x == y && x == 0x7FF0_0000_0000_0000 ==> is_nan(
            plus_of(x, (y + 0x8000_0000_0000_0000) as u64),
        ),
{
    binary64::sums_are_nearest(x, y);
    binary64::rounding_keeps_bounds(binary64::scaled(x) + binary64::scaled(y), 1, 0);
    let rest = (binary64::scaled(y) - binary64::scaled(x)) as nat;
    binary64::rounding_keeps_bounds(rest, 1, 0);
    sums_commute(x, (y + 0x8000_0000_0000_0000) as u64);
}

/// The quotient of two numbers is negative exactly where one of them is, and it has the
/// quotient of their sizes. Two zeros and two infinities have none.
pub proof fn quotients_go_by_sign_and_size(x: u64, y: u64)
    requires
        x <= 0x7FF0_0000_0000_0000,
        y <= 0x7FF0_0000_0000_0000,
    ensures
        ({
            let minus_x = (x + 0x8000_0000_0000_0000) as u64;
            let minus_y = (y + 0x8000_0000_0000_0000) as u64;
            let none = (x == 0 && y == 0) || (x == 0x7FF0_0000_0000_0000 && y
                == 0x7FF0_0000_0000_0000);
            &&& none ==> is_nan(over_of(x, y)) && is_nan(over_of(minus_x, y)) && is_nan(
                over_of(x, minus_y),
            ) && is_nan(over_of(minus_x, minus_y))
            &&& !none ==> {
                &&& over_of(x, y) == binary64::quotient_of(x, y)
                &&& over_of(minus_x, minus_y) == binary64::quotient_of(x, y)
                &&& over_of(minus_x, y) == binary64::quotient_of(x, y) + 0x8000_0000_0000_0000
                &&& over_of(x, minus_y) == binary64::quotient_of(x, y) + 0x8000_0000_0000_0000
            }
        }),
{
    binary64::quotients_are_nearest(x, y);
    if 0 < y < INFINITY && x < INFINITY {
        binary64::rounding_keeps_bounds(
            binary64::scaled(x) * binary64::scaled(binary64::ONE),
            binary64::scaled(y),
            0,
        );
    }
}

/// What is no number makes no number.
pub proof fn no_number_comes_of_none(a: u64, b: u64, factor: nat, divisor: nat)
    requires
        a % 0x8000_0000_0000_0000 > 0x7FF0_0000_0000_0000,
    ensures
        is_nan(a),
        is_nan(plus_of(a, b)),
        is_nan(plus_of(b, a)),
        is_nan(over_of(a, b)),
        is_nan(over_of(b, a)),
        is_nan(scaled_by(a, factor, divisor)),
        truncated_of(a) == 0,
{
}

/// Scaling a number scales its size, and truncation keeps the whole part of what is not
/// negative and nothing else.
pub proof fn scaling_goes_by_size(x: u64, factor: nat, divisor: nat)
    requires
        x <= 0x7FF0_0000_0000_0000,
        divisor > 0,
    ensures
        !is_nan(x),
        scaled_by(x, factor, divisor) == binary64::ratio_of(x, factor, divisor),
        scaled_by((x + 0x8000_0000_0000_0000) as u64, factor, divisor) == binary64::ratio_of(
            x,
            factor,
            divisor,
        ) + 0x8000_0000_0000_0000,
        truncated_of(x) == binary64::floor_of(x),
        truncated_of((x + 0x8000_0000_0000_0000) as u64) == 0,
{
    binary64::rounding_keeps_bounds(binary64::scaled(x) * factor, divisor, 0);
}

}
