//! Exact arithmetic on the bit patterns of non-negative binary64 numbers.
//!
//! A number travels through this library as the 64-bit pattern that stands for
//! it. For the non-negative numbers and positive infinity the patterns are
//! `0 ..= INFINITY`, and their order as integers is the order of the numbers.
//! Every operation here gives the number nearest to the exact result, the one
//! with the even pattern where two are equally near.
use vstd::arithmetic::power2::*;
use vstd::prelude::*;

verus! {

/// The pattern of positive infinity, the greatest pattern in use.
pub const INFINITY: u64 = 0x7FF0_0000_0000_0000;

/// The pattern of the number one.
pub const ONE: u64 = 0x3FF0_0000_0000_0000;

/// The weight of the lowest exponent bit of a pattern.
pub const EXPONENT_UNIT: u64 = 0x10_0000_0000_0000;

/// The significand of the number behind a pattern, with its hidden bit.
pub open spec fn significand(b: u64) -> nat {
    if b < EXPONENT_UNIT {
        b as nat
    } else {
        (EXPONENT_UNIT + b % EXPONENT_UNIT) as nat
    }
}

/// The power of two by which the significand is to be multiplied, counted from
/// the exponent of the smallest positive number.
pub open spec fn exponent(b: u64) -> nat {
    if b < EXPONENT_UNIT {
        0
    } else {
        (b / EXPONENT_UNIT - 1) as nat
    }
}

/// The number behind a pattern, in multiples of the smallest positive number.
/// Infinity counts as the number that would follow the greatest finite one.
pub open spec fn scaled(b: u64) -> nat {
    significand(b) * pow2(exponent(b))
}

/// How far `den` times the number `b` lies from `num`.
pub open spec fn distance(num: nat, den: nat, b: u64) -> int {
    let gap = scaled(b) * den - num;
    if gap < 0 {
        -gap
    } else {
        gap
    }
}

/// Whether `r` is what the quotient `num / den` rounds to: no other number is
/// nearer, and one that is as near has an odd pattern while `r` has an even one.
pub open spec fn rounds_to(num: nat, den: nat, r: u64) -> bool {
    &&& r <= INFINITY
    &&& forall|c: u64|
        c <= INFINITY && c != r ==> distance(num, den, r) < #[trigger] distance(num, den, c) || (
        distance(num, den, r) == distance(num, den, c) && r % 2 == 0)
}

/// The number nearest to the quotient `num / den`.
pub open spec fn nearest(num: nat, den: nat) -> u64 {
    choose|r: u64| rounds_to(num, den, r)
}

/// The sum of two numbers.
pub open spec fn sum_of(a: u64, b: u64) -> u64 {
    nearest(scaled(a) + scaled(b), 1)
}

/// The difference of two numbers, the second finite and not above the first.
/// Infinity less a finite number is infinity.
pub open spec fn difference_of(a: u64, b: u64) -> u64 {
    if a == INFINITY {
        INFINITY
    } else {
        nearest((scaled(a) - scaled(b)) as nat, 1)
    }
}

/// A number multiplied by one whole number and divided by another, positive one,
/// with a single rounding. Infinity gives infinity.
pub open spec fn ratio_of(a: u64, factor: nat, divisor: nat) -> u64 {
    if a == INFINITY {
        INFINITY
    } else {
        nearest(scaled(a) * factor, divisor)
    }
}

/// A number divided by another, the two not both zero and not both infinite. Infinity
/// divided and what is divided by zero give infinity, what is divided by infinity
/// gives zero.
pub open spec fn quotient_of(a: u64, b: u64) -> u64 {
    if a == INFINITY || b == 0 {
        INFINITY
    } else if b == INFINITY {
        0
    } else {
        nearest(scaled(a) * scaled(ONE), scaled(b))
    }
}

/// A whole number.
pub open spec fn whole_of(n: nat) -> u64 {
    nearest(n * scaled(ONE), 1)
}

/// The pattern with significand `top` and exponent `k`, and the one after it.
proof fn lemma_assemble(top: nat, k: nat, b: u64)
    requires
        top < 2 * EXPONENT_UNIT,
        top >= EXPONENT_UNIT || k == 0,
        b == k * EXPONENT_UNIT + top,
        b < INFINITY,
    ensures
        scaled(b) == top * pow2(k),
        scaled((b + 1) as u64) == (top + 1) * pow2(k),
{
    let unit = EXPONENT_UNIT as nat;
    lemma_pow2_unfold(k + 1);
    if top < unit {
        assert(b == top);
        if top + 1 == unit {
            assert(significand((b + 1) as u64) == unit);
            assert(exponent((b + 1) as u64) == 0);
        }
    } else {
        assert(b / EXPONENT_UNIT == k + 1 && b % EXPONENT_UNIT == top - unit) by (nonlinear_arith)
            requires
                b == k * unit + top,
                unit <= top < 2 * unit,
                unit == EXPONENT_UNIT,
        ;
        let c = (b + 1) as u64;
        if top + 1 < 2 * unit {
            assert(c / EXPONENT_UNIT == k + 1 && c % EXPONENT_UNIT == top + 1 - unit)
                by (nonlinear_arith)
                requires
                    c == k * unit + top + 1,
                    unit <= top + 1 < 2 * unit,
                    unit == EXPONENT_UNIT,
            ;
        } else {
            assert(c / EXPONENT_UNIT == k + 2 && c % EXPONENT_UNIT == 0) by (nonlinear_arith)
                requires
                    c == k * unit + 2 * unit,
                    unit == EXPONENT_UNIT,
            ;
            assert(unit * pow2(k + 1) == (2 * unit) * pow2(k)) by (nonlinear_arith)
                requires
                    pow2(k + 1) == 2 * pow2(k),
            ;
        }
    }
}

/// A pattern is made up of its exponent and its significand.
proof fn lemma_parts(b: u64)
    ensures
        b == exponent(b) * EXPONENT_UNIT + significand(b),
        significand(b) < 2 * EXPONENT_UNIT,
        significand(b) >= EXPONENT_UNIT || exponent(b) == 0,
        b <= INFINITY ==> exponent(b) <= 2046,
        b < INFINITY ==> exponent(b) <= 2045,
{
    if b >= EXPONENT_UNIT {
        assert(b == (b / EXPONENT_UNIT) * EXPONENT_UNIT + b % EXPONENT_UNIT);
    }
}

/// The number after `b` is greater by the power of two that `b` is counted in.
proof fn lemma_successor(b: u64)
    requires
        b < INFINITY,
    ensures
        scaled((b + 1) as u64) == scaled(b) + pow2(exponent(b)),
        scaled(b) < scaled((b + 1) as u64),
{
    lemma_parts(b);
    lemma_assemble(significand(b), exponent(b), b);
    lemma_pow2_pos(exponent(b));
    let top = significand(b);
    let p = pow2(exponent(b));
    assert((top + 1) * p == top * p + p) by (nonlinear_arith);
}

/// The order of the patterns is the order of the numbers.
pub proof fn patterns_keep_order(a: u64, b: u64)
    requires
        a <= INFINITY,
        b <= INFINITY,
    ensures
        a < b <==> scaled(a) < scaled(b),
        a == b <==> scaled(a) == scaled(b),
    decreases
            if a < b {
                b - a
            } else {
                a - b
            },
{
    if a < b {
        lemma_successor((b - 1) as u64);
        patterns_keep_order(a, (b - 1) as u64);
    } else if b < a {
        lemma_successor((a - 1) as u64);
        patterns_keep_order((a - 1) as u64, b);
    }
}

/// The pattern after `t` lies on the other side of the quotient, so one of the
/// two is the nearest.
proof fn lemma_between(num: nat, den: nat, t: u64, r: u64)
    requires
        den > 0,
        t < INFINITY,
        scaled(t) * den <= num,
        num <= scaled((t + 1) as u64) * den,
        r == t ==> {
            ||| 2 * num < (scaled(t) + scaled((t + 1) as u64)) * den
            ||| 2 * num == (scaled(t) + scaled((t + 1) as u64)) * den && t % 2 == 0
        },
        r != t ==> {
            &&& r == t + 1
            &&& {
                ||| 2 * num > (scaled(t) + scaled((t + 1) as u64)) * den
                ||| 2 * num == (scaled(t) + scaled((t + 1) as u64)) * den && t % 2 == 1
            }
        },
    ensures
        rounds_to(num, den, r),
{
    let u = (t + 1) as u64;
    assert((scaled(t) + scaled(u)) * den == scaled(t) * den + scaled(u) * den) by (nonlinear_arith);
    assert forall|c: u64| c <= INFINITY && c != r implies distance(num, den, r)
        < #[trigger] distance(num, den, c) || (distance(num, den, r) == distance(num, den, c) && r
        % 2 == 0) by {
        patterns_keep_order(c, t);
        patterns_keep_order(c, u);
        if c < t {
            let x = scaled(c);
            let y = scaled(t);
            assert(x * den < y * den) by (nonlinear_arith)
                requires
                    x < y,
                    den > 0,
            ;
        } else if c > u {
            let x = scaled(c);
            let y = scaled(u);
            assert(x * den > y * den) by (nonlinear_arith)
                requires
                    x > y,
                    den > 0,
            ;
        }
    }
}

/// A quotient at or above infinity rounds to infinity.
proof fn lemma_above(num: nat, den: nat)
    requires
        den > 0,
        scaled(INFINITY) * den <= num,
    ensures
        rounds_to(num, den, INFINITY),
{
    assert forall|c: u64| c <= INFINITY && c != INFINITY implies distance(num, den, INFINITY)
        < #[trigger] distance(num, den, c) by {
        patterns_keep_order(c, INFINITY);
        let x = scaled(c);
        let y = scaled(INFINITY);
        assert(x * den < y * den) by (nonlinear_arith)
            requires
                x < y,
                den > 0,
        ;
    }
}

/// The greatest pattern below infinity whose number does not exceed the quotient.
proof fn lemma_floor(num: nat, den: nat, top: u64) -> (t: u64)
    requires
        den > 0,
        top <= INFINITY,
        num < scaled(top) * den,
    ensures
        t < top,
        scaled(t) * den <= num,
        num < scaled((t + 1) as u64) * den,
    decreases top,
{
    if top == 0 {
        assert(scaled(0) == 0) by (nonlinear_arith)
            requires
                scaled(0) == significand(0) * pow2(exponent(0)),
                significand(0) == 0,
        ;
        assert(0 * den == 0);
        0
    } else {
        let t = (top - 1) as u64;
        if scaled(t) * den <= num {
            t
        } else {
            lemma_floor(num, den, t)
        }
    }
}

/// Every quotient rounds to some number.
proof fn lemma_rounding_exists(num: nat, den: nat)
    requires
        den > 0,
    ensures
        rounds_to(num, den, nearest(num, den)),
{
    if scaled(INFINITY) * den <= num {
        lemma_above(num, den);
    } else {
        let t = lemma_floor(num, den, INFINITY);
        let mid = (scaled(t) + scaled((t + 1) as u64)) * den;
        let r = if 2 * num < mid || (2 * num == mid && t % 2 == 0) {
            t
        } else {
            (t + 1) as u64
        };
        lemma_between(num, den, t, r);
    }
}

/// Rounding is a function: a quotient rounds to one number only.
pub proof fn rounding_is_unique(num: nat, den: nat, r: u64)
    requires
        den > 0,
        rounds_to(num, den, r),
    ensures
        nearest(num, den) == r,
{
    let s = nearest(num, den);
    if s != r {
        assert(distance(num, den, r) == distance(num, den, s));
        let (a, b) = if r < s {
            (r, s)
        } else {
            (s, r)
        };
        let m = (a + 1) as u64;
        patterns_keep_order(a, m);
        patterns_keep_order(m, b);
        let x = scaled(a);
        let y = scaled(m);
        let z = scaled(b);
        assert(x * den < y * den) by (nonlinear_arith)
            requires
                x < y,
                den > 0,
        ;
        assert(y * den < z * den) by (nonlinear_arith)
            requires
                y < z,
                den > 0,
        ;
        assert(distance(num, den, m) < distance(num, den, a));
    }
}

/// Rounding a number that a pattern stands for gives that pattern.
pub proof fn rounding_is_exact(c: u64, den: nat)
    requires
        c <= INFINITY,
        den > 0,
    ensures
        nearest(scaled(c) * den, den) == c,
{
    let num = scaled(c) * den;
    assert forall|d: u64| d <= INFINITY && d != c implies distance(num, den, c)
        < #[trigger] distance(num, den, d) by {
        patterns_keep_order(c, d);
        let x = scaled(d);
        let y = scaled(c);
        assert(x * den != y * den) by (nonlinear_arith)
            requires
                x != y,
                den > 0,
        ;
    }
    rounding_is_unique(num, den, c);
}

/// Rounding does not pass a number: a quotient at or below it rounds to it or
/// to a number below it, and a quotient at or above it to it or a number above it.
pub proof fn rounding_keeps_bounds(num: nat, den: nat, c: u64)
    requires
        den > 0,
        c <= INFINITY,
    ensures
        nearest(num, den) <= INFINITY,
        num <= scaled(c) * den ==> nearest(num, den) <= c,
        num >= scaled(c) * den ==> nearest(num, den) >= c,
{
    lemma_rounding_exists(num, den);
    let r = nearest(num, den);
    patterns_keep_order(r, c);
    let x = scaled(r);
    let y = scaled(c);
    if r > c {
        assert(x * den > y * den) by (nonlinear_arith)
            requires
                x > y,
                den > 0,
        ;
        assert(num <= scaled(c) * den ==> distance(num, den, c) < distance(num, den, r));
    } else if r < c {
        assert(x * den < y * den) by (nonlinear_arith)
            requires
                x < y,
                den > 0,
        ;
        assert(num >= scaled(c) * den ==> distance(num, den, c) < distance(num, den, r));
    }
}

/// Rounding keeps order: a greater quotient does not round to a smaller number.
pub proof fn rounding_keeps_order(small: nat, great: nat, den: nat)
    requires
        den > 0,
        small <= great,
    ensures
        nearest(small, den) <= nearest(great, den),
{
    lemma_rounding_exists(small, den);
    lemma_rounding_exists(great, den);
    let r = nearest(small, den);
    let s = nearest(great, den);
    if r > s {
        patterns_keep_order(r, s);
        let x = scaled(r);
        let y = scaled(s);
        assert(x * den > y * den) by (nonlinear_arith)
            requires
                x > y,
                den > 0,
        ;
        assert(distance(small, den, r) <= distance(small, den, s));
        assert(distance(great, den, s) <= distance(great, den, r));
        if small == great {
            rounding_is_unique(small, den, r);
            rounding_is_unique(great, den, s);
        }
    }
}

/// A significand that fits, times a power of two that is not too great, is a number.
proof fn lemma_representable(m: nat, k: nat) -> (c: u64)
    requires
        m < 2 * EXPONENT_UNIT,
        k <= 2045,
    ensures
        c < INFINITY,
        scaled(c) == m * pow2(k),
    decreases k,
{
    if m >= EXPONENT_UNIT || k == 0 {
        let c = (k * EXPONENT_UNIT + m) as u64;
        assert(k * EXPONENT_UNIT <= 2045 * EXPONENT_UNIT) by (nonlinear_arith)
            requires
                k <= 2045,
        ;
        lemma_assemble(m, k, c);
        c
    } else {
        lemma_pow2_unfold(k);
        let p = pow2((k - 1) as nat);
        assert((2 * m) * p == m * (2 * p)) by (nonlinear_arith);
        lemma_representable(2 * m, (k - 1) as nat)
    }
}

/// A whole number below two to the power 53 is kept as it is.
pub proof fn whole_numbers_are_exact(n: nat)
    requires
        n < 2 * EXPONENT_UNIT,
    ensures
        whole_of(n) < INFINITY,
        scaled(whole_of(n)) == n * scaled(ONE),
{
    lemma2_to64_rest();
    lemma_pow2_adds(52, 1022);
    assert(scaled(ONE) == pow2(1074));
    let c = lemma_representable(n, 1074);
    assert(scaled(c) * 1 == n * scaled(ONE));
    rounding_is_exact(c, 1);
}

/// The number that is half of a whole number below two to the power 53.
pub open spec fn halved(n: nat) -> u64 {
    nearest(n * scaled(ONE), 2)
}

/// Half of a whole number below two to the power 53 is exact.
pub proof fn halves_are_exact(n: nat)
    requires
        n < 2 * EXPONENT_UNIT,
    ensures
        halved(n) < INFINITY,
        2 * scaled(halved(n)) == n * scaled(ONE),
{
    lemma2_to64_rest();
    lemma_pow2_adds(52, 1022);
    lemma_pow2_unfold(1074);
    assert(scaled(ONE) == pow2(1074));
    let c = lemma_representable(n, 1073);
    let p = pow2(1073);
    assert(n * (2 * p) == (n * p) * 2) by (nonlinear_arith);
    rounding_is_exact(c, 2);
}

/// A quotient that lies within half the gap below a number rounds to that
/// number; at exactly half the gap, to a number with an even pattern.
pub proof fn rounding_within_half_gap(num: nat, den: nat, r: u64)
    requires
        den > 0,
        0 < r < INFINITY,
        ({
            let gap = (pow2(exponent((r - 1) as u64)) * den) as int;
            ||| 2 * distance(num, den, r) < gap
            ||| 2 * distance(num, den, r) == gap && r % 2 == 0
        }),
    ensures
        nearest(num, den) == r,
{
    let below = (r - 1) as u64;
    let above = (r + 1) as u64;
    let p = pow2(exponent(below));
    let q = pow2(exponent(r));
    lemma_successor(below);
    lemma_successor(r);
    lemma_parts(below);
    lemma_parts(r);
    lemma_exponents_ordered(r, below);
    if exponent(below) < exponent(r) {
        lemma_pow2_strictly_increases(exponent(below), exponent(r));
    }
    let x = scaled(r);
    assert((x - p) * den == x * den - p * den) by (nonlinear_arith);
    assert((x + q) * den == x * den + q * den) by (nonlinear_arith);
    assert((x + (x - p)) * den == 2 * (x * den) - p * den) by (nonlinear_arith);
    assert((x + (x + q)) * den == 2 * (x * den) + q * den) by (nonlinear_arith);
    assert(p * den <= q * den) by (nonlinear_arith)
        requires
            p <= q,
    ;
    if num >= x * den {
        lemma_between(num, den, r, r);
    } else {
        lemma_between(num, den, below, r);
    }
    rounding_is_unique(num, den, r);
}

/// The significand and the exponent of a pattern.
fn split(b: u64) -> (r: (u64, u32))
    requires
        b <= INFINITY,
    ensures
        r.0 == significand(b),
        r.1 == exponent(b),
        r.0 < 2 * EXPONENT_UNIT,
        r.0 >= EXPONENT_UNIT || r.1 == 0,
        r.1 <= 2046,
{
    proof {
        lemma_parts(b);
    }
    if b < EXPONENT_UNIT {
        (b, 0)
    } else {
        (EXPONENT_UNIT + b % EXPONENT_UNIT, (b / EXPONENT_UNIT - 1) as u32)
    }
}

/// `m` doubled `times` times.
fn doubled(m: u64, times: u32) -> (r: u128)
    requires
        m < 2 * EXPONENT_UNIT,
        times <= 64,
    ensures
        r == m * pow2(times as nat),
        r < 0x20_0000_0000_0000_0000_0000_0000_0000,
{
    let mut r: u128 = m as u128;
    let mut done: u32 = 0;
    proof {
        lemma2_to64();
        assert(m * pow2(0) == m) by (nonlinear_arith)
            requires
                pow2(0) == 1,
        ;
    }
    while done < times
        invariant
            done <= times <= 64,
            m < 2 * EXPONENT_UNIT,
            r == m * pow2(done as nat),
            r <= m * 0x1_0000_0000_0000_0000,
        decreases times - done,
    {
        proof {
            lemma_pow2_unfold((done + 1) as nat);
            lemma2_to64_rest();
            if done < 63 {
                lemma_pow2_strictly_increases((done + 1) as nat, 64);
            }
            let p = pow2(done as nat);
            assert(m * (2 * p) == 2 * (m * p)) by (nonlinear_arith);
            let q = pow2((done + 1) as nat);
            assert(m * q <= m * 0x1_0000_0000_0000_0000) by (nonlinear_arith)
                requires
                    q <= 0x1_0000_0000_0000_0000,
            ;
        }
        r = r * 2;
        done = done + 1;
    }
    r
}

/// What is left of a quotient once the number `top * unit * base` is taken off it.
proof fn lemma_remainder(whole: nat, top: nat, low: nat, rem: nat, n: nat, unit: nat, base: nat)
    requires
        whole == top * unit + low,
        low < unit,
        rem < n,
        base > 0,
    ensures
        (whole * n + rem) * base == (top * (unit * base)) * n + (low * n + rem) * base,
        ((top + 1) * (unit * base)) * n == (top * (unit * base)) * n + (unit * n) * base,
        low * n + rem < unit * n,
        (low * n + rem) * base < (unit * n) * base,
        2 * (low * n + rem) < unit * n ==> 2 * ((low * n + rem) * base) < (unit * n) * base,
        2 * (low * n + rem) > unit * n ==> 2 * ((low * n + rem) * base) > (unit * n) * base,
        2 * (low * n + rem) == unit * n ==> 2 * ((low * n + rem) * base) == (unit * n) * base,
{
    let taken = low * n + rem;
    let full = unit * n;
    assert((whole * n + rem) * base == (top * (unit * base)) * n + taken * base)
        by (nonlinear_arith)
        requires
            whole == top * unit + low,
            taken == low * n + rem,
    ;
    assert(((top + 1) * (unit * base)) * n == (top * (unit * base)) * n + full * base)
        by (nonlinear_arith)
        requires
            full == unit * n,
    ;
    assert(taken < full) by (nonlinear_arith)
        requires
            taken == low * n + rem,
            full == unit * n,
            low + 1 <= unit,
            rem < n,
    ;
    assert(taken * base < full * base) by (nonlinear_arith)
        requires
            taken < full,
            base > 0,
    ;
    assert(2 * (taken * base) == (2 * taken) * base) by (nonlinear_arith);
    if 2 * taken < full {
        assert((2 * taken) * base < full * base) by (nonlinear_arith)
            requires
                2 * taken < full,
                base > 0,
        ;
    } else if 2 * taken > full {
        assert((2 * taken) * base > full * base) by (nonlinear_arith)
            requires
                2 * taken > full,
                base > 0,
        ;
    }
}

/// The number nearest to `(q + rem / n)` times two to the power `t`.
fn round(q: u128, rem: u64, n: u64, t: u32) -> (r: u64)
    requires
        0 < n <= 0x40_0000_0000_0000,
        rem < n,
        q * n < 0x40_0000_0000_0000_0000_0000_0000_0000,
        t <= 3200,
        t == 0 || q >= EXPONENT_UNIT || rem == 0,
    ensures
        rounds_to((q * n + rem) as nat * pow2(t as nat), n as nat, r),
{
    let ghost num = (q * n + rem) as nat * pow2(t as nat);
    // Bring the significand up to its full width, as far as the exponent allows.
    let mut top: u128 = q;
    let mut k: u32 = t;
    while top < EXPONENT_UNIT as u128 && k > 0
        invariant
            k <= t <= 3200,
            0 < n <= 0x40_0000_0000_0000,
            rem < n,
            top * n < 0x40_0000_0000_0000_0000_0000_0000_0000,
            num == (top * n + rem) as nat * pow2(k as nat),
            k == 0 || top >= EXPONENT_UNIT || rem == 0,
        decreases k,
    {
        proof {
            lemma_pow2_unfold(k as nat);
            let p = pow2((k - 1) as nat);
            assert((top * n) as nat * (2 * p) == ((2 * top) * n) as nat * p) by (nonlinear_arith);
            assert((2 * top) * n < 0x20_0000_0000_0000 * 0x40_0000_0000_0000 + 1)
                by (nonlinear_arith)
                requires
                    top < 0x10_0000_0000_0000,
                    0 < n <= 0x40_0000_0000_0000,
            ;
        }
        top = top * 2;
        k = k - 1;
    }
    // Take off what exceeds the full width, keeping what was taken off.
    let ghost whole = top;
    let ghost base = k;
    let mut low: u128 = 0;
    let mut unit: u128 = 1;
    proof {
        lemma2_to64();
        assert(whole <= whole * n) by (nonlinear_arith)
            requires
                n >= 1,
                whole >= 0,
        ;
    }
    while top >= 2 * EXPONENT_UNIT as u128
        invariant
            base <= k <= 3200 + 65,
            base <= 3200,
            whole < 0x40_0000_0000_0000_0000_0000_0000_0000,
            whole == top * unit + low,
            low < unit,
            unit == pow2((k - base) as nat),
            top >= EXPONENT_UNIT || k == 0,
            1 <= unit <= 0x1_0000_0000_0000_0000_0000,
            unit > 1 ==> top >= EXPONENT_UNIT,
        decreases top,
    {
        proof {
            lemma_pow2_unfold((k + 1 - base) as nat);
            assert(top == 2 * (top / 2) + top % 2);
            assert(top * unit == (top / 2) * (2 * unit) + (top % 2) * unit) by (nonlinear_arith)
                requires
                    top == 2 * (top / 2) + top % 2,
            ;
            assert(unit < 0x2_0000_0000_0000_0000) by (nonlinear_arith)
                requires
                    top * unit <= whole,
                    whole < 0x40_0000_0000_0000_0000_0000_0000_0000,
                    top >= 0x20_0000_0000_0000,
                    unit >= 0,
            ;
            if k - base >= 65 {
                lemma2_to64_rest();
                lemma_pow2_unfold(65);
                if k - base > 65 {
                    lemma_pow2_strictly_increases(65, (k - base) as nat);
                }
                assert(false);
            }
            assert((top % 2) * unit <= unit) by (nonlinear_arith)
                requires
                    0 <= top % 2 <= 1,
                    unit >= 0,
            ;
        }
        low = low + (top % 2) * unit;
        top = top / 2;
        unit = unit * 2;
        k = k + 1;
    }
    let ghost p = pow2(k as nat);
    proof {
        lemma_pow2_adds((k - base) as nat, base as nat);
        lemma_pow2_pos(base as nat);
        lemma_pow2_pos(k as nat);
        lemma_remainder(
            whole as nat,
            top as nat,
            low as nat,
            rem as nat,
            n as nat,
            unit as nat,
            pow2(base as nat),
        );
    }
    if k >= 2046 {
        proof {
            let m = top as nat;
            let big = pow2(2046);
            lemma_parts(INFINITY);
            if k > 2046 {
                lemma_pow2_strictly_increases(2046, k as nat);
            }
            assert(scaled(INFINITY) == EXPONENT_UNIT * big);
            assert(EXPONENT_UNIT * big <= m * p) by (nonlinear_arith)
                requires
                    EXPONENT_UNIT <= m,
                    big <= p,
            ;
            let x = scaled(INFINITY);
            assert(x * n <= (m * p) * n) by (nonlinear_arith)
                requires
                    x <= m * p,
            ;
            lemma_above(num, n as nat);
        }
        return INFINITY;
    }
    let b: u64 = k as u64 * EXPONENT_UNIT + top as u64;
    proof {
        assert(k <= 2045 ==> k * EXPONENT_UNIT + 2 * EXPONENT_UNIT <= INFINITY) by (nonlinear_arith)
            requires EXPONENT_UNIT == 0x10_0000_0000_0000, INFINITY == 0x7FF0_0000_0000_0000;
        lemma_assemble(top as nat, k as nat, b);
        if unit > 1 {
            assert(unit * n <= 0x1_0000_0000_0000_0000_0000) by (nonlinear_arith)
                requires
                    whole * n < 0x40_0000_0000_0000_0000_0000_0000_0000,
                    whole == top * unit + low,
                    top >= 0x10_0000_0000_0000,
                    low >= 0,
                    unit >= 0,
                    n >= 0,
            ;
        }
        assert(low * n <= unit * n) by (nonlinear_arith)
            requires
                low <= unit,
        ;
    }
    let taken: u128 = low * n as u128 + rem as u128;
    let full: u128 = unit * n as u128;
    let r: u64 = if 2 * taken > full || (2 * taken == full && top % 2 == 1) {
        b + 1
    } else {
        b
    };
    proof {
        assert(b % 2 == top as u64 % 2) by (nonlinear_arith)
            requires
                b == k * EXPONENT_UNIT + top as u64,
                EXPONENT_UNIT == 2 * 0x8_0000_0000_0000,
        ;
        let x = scaled(b);
        let y = scaled((b + 1) as u64);
        assert((x + y) * n == x * n + y * n) by (nonlinear_arith);
        lemma_between(num, n as nat, b, r);
    }
    r
}

/// The greater of two numbers has the greater exponent.
proof fn lemma_exponents_ordered(hi: u64, lo: u64)
    requires
        lo <= hi <= INFINITY,
    ensures
        exponent(lo) <= exponent(hi),
{
}

/// A number whose exponent is far below that of another changes nothing in it.
proof fn lemma_negligible(hi: u64, lo: u64)
    requires
        lo <= hi <= INFINITY,
        exponent(hi) - exponent(lo) > 64,
    ensures
        hi > 0,
        2 * scaled(lo) < pow2(exponent((hi - 1) as u64)),
        2 * scaled(lo) < pow2(exponent(hi)),
{
    let e = exponent(hi);
    let f = exponent(lo);
    let d = exponent((hi - 1) as u64);
    lemma_parts(lo);
    lemma_parts(hi);
    lemma_parts((hi - 1) as u64);
    assert(d >= e - 1);
    lemma2_to64_rest();
    lemma_pow2_adds(54, f);
    lemma_pow2_pos(f);
    let w = significand(lo);
    let p = pow2(f);
    assert(2 * (w * p) < 0x40_0000_0000_0000 * p) by (nonlinear_arith)
        requires
            w < 0x20_0000_0000_0000,
            p > 0,
    ;
    lemma_pow2_strictly_increases(54 + f, d);
    lemma_pow2_strictly_increases(54 + f, e);
}

/// Two numbers brought to the exponent of the smaller.
proof fn lemma_aligned(hi: u64, lo: u64)
    requires
        lo <= hi <= INFINITY,
    ensures
        scaled(hi) == (significand(hi) * pow2((exponent(hi) - exponent(lo)) as nat)) * pow2(
            exponent(lo),
        ),
        significand(lo) <= significand(hi) * pow2((exponent(hi) - exponent(lo)) as nat),
{
    let m = significand(hi);
    let w = significand(lo);
    let d = (exponent(hi) - exponent(lo)) as nat;
    let p = pow2(exponent(lo));
    let g = pow2(d);
    lemma_exponents_ordered(hi, lo);
    lemma_pow2_adds(d, exponent(lo));
    assert(m * (g * p) == (m * g) * p) by (nonlinear_arith);
    patterns_keep_order(lo, hi);
    lemma_pow2_pos(exponent(lo));
    assert(w <= m * g) by (nonlinear_arith)
        requires
            w * p <= (m * g) * p,
            p > 0,
    ;
}

/// The sum of two numbers.
pub fn sum(a: u64, b: u64) -> (r: u64)
    requires
        a <= INFINITY,
        b <= INFINITY,
    ensures
        r <= INFINITY,
        r == sum_of(a, b),
{
    let (hi, lo) = if a >= b {
        (a, b)
    } else {
        (b, a)
    };
    let (m, e) = split(hi);
    let (w, f) = split(lo);
    let ghost num = scaled(a) + scaled(b);
    proof {
        lemma_exponents_ordered(hi, lo);
    }
    if e - f > 64 {
        proof {
            lemma_negligible(hi, lo);
            if hi < INFINITY {
                lemma_successor(hi);
                lemma_between(num, 1, hi, hi);
            } else {
                lemma_above(num, 1);
            }
            rounding_is_unique(num, 1, hi);
        }
        return hi;
    }
    let q = doubled(m, e - f) + w as u128;
    let r = round(q, 0, 1, f);
    proof {
        lemma_aligned(hi, lo);
        let g = (m * pow2((e - f) as nat)) as nat;
        let p = pow2(f as nat);
        assert((g + w) * p == g * p + w * p) by (nonlinear_arith);
        assert((q * 1 + 0) as nat == g + w);
        rounding_is_unique(num, 1, r);
    }
    r
}

/// The difference of two numbers, the second finite and not above the first.
pub fn difference(a: u64, b: u64) -> (r: u64)
    requires
        b <= a <= INFINITY,
        b < INFINITY,
    ensures
        r <= INFINITY,
        r == difference_of(a, b),
{
    if a == INFINITY {
        return INFINITY;
    }
    let (m, e) = split(a);
    let (w, f) = split(b);
    let ghost num = (scaled(a) - scaled(b)) as nat;
    proof {
        patterns_keep_order(a, b);
        lemma_exponents_ordered(a, b);
    }
    if e - f > 64 {
        proof {
            lemma_negligible(a, b);
            let t = (a - 1) as u64;
            lemma_successor(t);
            lemma_between(num, 1, t, a);
            rounding_is_unique(num, 1, a);
        }
        return a;
    }
    proof {
        lemma_aligned(a, b);
    }
    let q = doubled(m, e - f) - w as u128;
    let r = round(q, 0, 1, f);
    proof {
        let g = (m * pow2((e - f) as nat)) as nat;
        let p = pow2(f as nat);
        assert((g - w) * p == g * p - w * p) by (nonlinear_arith);
        assert((q * 1 + 0) as nat == g - w);
        rounding_is_unique(num, 1, r);
    }
    r
}

/// A number multiplied by one whole number and divided by another, positive one,
/// with a single rounding.
pub fn ratio(a: u64, factor: u32, divisor: u32) -> (r: u64)
    requires
        a <= INFINITY,
        divisor > 0,
    ensures
        r <= INFINITY,
        r == ratio_of(a, factor as nat, divisor as nat),
{
    if a == INFINITY {
        return INFINITY;
    }
    let (m, e) = split(a);
    let lift: u32 = if e < 32 {
        e
    } else {
        32
    };
    let raised = doubled(m, lift);
    let ghost g = pow2(lift as nat);
    let ghost p = pow2((e - lift) as nat);
    proof {
        lemma2_to64();
        if lift < 32 {
            lemma_pow2_strictly_increases(lift as nat, 32);
        }
        assert(m * g < 0x20_0000_0000_0000 * 0x1_0000_0000) by (nonlinear_arith)
            requires
                m < 0x20_0000_0000_0000,
                0 <= g <= 0x1_0000_0000,
        ;
        assert(raised * factor <= 0x20_0000_0000_0000_0000_0000_0000_0000) by (nonlinear_arith)
            requires
                raised <= 0x20_0000_0000_0000 * 0x1_0000_0000,
                factor <= 0x1_0000_0000,
        ;
    }
    let wide = raised * factor as u128;
    let n = divisor as u128;
    let q = wide / n;
    let rem = (wide % n) as u64;
    proof {
        assert(q * (divisor as u64) <= wide) by (nonlinear_arith)
            requires
                q == wide / n,
                n == divisor as u64,
                n > 0,
        ;
        assert(wide == q * divisor + rem) by (nonlinear_arith)
            requires
                q == wide / n,
                rem == wide % n,
                n == divisor,
                n > 0,
        ;
        assert(q <= wide) by (nonlinear_arith)
            requires
                wide == q * divisor + rem,
                divisor >= 1,
                rem >= 0,
        ;
        if factor == 0 {
            assert(wide == 0) by (nonlinear_arith)
                requires
                    wide == raised * factor,
                    factor == 0,
            ;
            assert(rem == 0);
        } else if e > 32 {
            assert(wide >= 0x10_0000_0000_0000 * 0x1_0000_0000) by (nonlinear_arith)
                requires
                    wide == raised * factor,
                    raised == m * g,
                    m >= 0x10_0000_0000_0000,
                    g == 0x1_0000_0000,
                    factor >= 1,
            ;
            assert(q >= EXPONENT_UNIT) by (nonlinear_arith)
                requires
                    q * divisor + rem >= 0x10_0000_0000_0000 * 0x1_0000_0000,
                    rem < divisor <= 0xFFFF_FFFF,
                    EXPONENT_UNIT == 0x10_0000_0000_0000,
                    q >= 0,
            ;
        }
    }
    let r = round(q, rem, divisor as u64, e - lift);
    proof {
        lemma_pow2_adds(lift as nat, (e - lift) as nat);
        assert((m * (g * p)) * factor == ((m * g) * factor) * p) by (nonlinear_arith);
        assert((q * (divisor as u64) + rem) as nat == (m * g) * factor);
        rounding_is_unique(scaled(a) * (factor as nat), divisor as nat, r);
    }
    r
}

/// What a quotient rounds to, its multiples by a common factor round to as well.
proof fn lemma_common_factor(num: nat, den: nat, factor: nat, r: u64)
    requires
        den > 0,
        factor > 0,
        rounds_to(num, den, r),
    ensures
        rounds_to(num * factor, den * factor, r),
{
    lemma_distances_grow(num, den, factor, r);
    assert forall|c: u64| c <= INFINITY && c != r implies distance(num * factor, den * factor, r)
        < #[trigger] distance(num * factor, den * factor, c) || (distance(
        num * factor,
        den * factor,
        r,
    ) == distance(num * factor, den * factor, c) && r % 2 == 0) by {
        lemma_distances_grow(num, den, factor, c);
        let x = distance(num, den, r);
        let y = distance(num, den, c);
        if x < y {
            assert(x * factor < y * factor) by (nonlinear_arith)
                requires
                    x < y,
                    factor > 0,
            ;
        }
    }
}

/// Distances grow with a common factor.
proof fn lemma_distances_grow(num: nat, den: nat, factor: nat, c: u64)
    ensures
        distance(num * factor, den * factor, c) == distance(num, den, c) * factor,
{
    let gap = scaled(c) * den - num;
    let x = scaled(c);
    assert(x * (den * factor) - num * factor == gap * factor) by (nonlinear_arith)
        requires
            gap == x * den - num,
    ;
    assert((-gap) * factor == -(gap * factor)) by (nonlinear_arith);
    if gap < 0 {
        assert(gap * factor <= 0) by (nonlinear_arith)
            requires
                gap < 0,
                factor >= 0,
        ;
    } else {
        assert(gap * factor >= 0) by (nonlinear_arith)
            requires
                gap >= 0,
                factor >= 0,
        ;
    }
    if factor == 0 {
        assert(gap * factor == 0) by (nonlinear_arith)
            requires
                factor == 0,
        ;
    }
}

/// A quotient below one half of the smallest positive number rounds to zero.
proof fn lemma_vanishes(num: nat, den: nat)
    requires
        2 * num < den,
    ensures
        rounds_to(num, den, 0),
{
    lemma2_to64();
    assert(scaled(0) == 0 * pow2(0));
    assert(scaled(1) == 1 * pow2(0));
    let x = scaled(0);
    let y = scaled(1);
    assert(x * den == 0 && y * den == den && (x + y) * den == den) by (nonlinear_arith)
        requires
            x == 0,
            y == 1,
    ;
    lemma_between(num, den, 0, 0);
}

/// The number nearest to `m` times two to the power `d`, divided by `w`.
fn divide(m: u64, w: u64, d: u32) -> (r: u64)
    requires
        m < 2 * EXPONENT_UNIT,
        0 < w < 2 * EXPONENT_UNIT,
        d <= 3200,
    ensures
        rounds_to(m as nat * pow2(d as nat), w as nat, r),
{
    let ghost num = m as nat * pow2(d as nat);
    let mut top: u64 = m;
    let mut k: u32 = d;
    while top < EXPONENT_UNIT && k > 0
        invariant
            k <= d <= 3200,
            top < 2 * EXPONENT_UNIT,
            num == top as nat * pow2(k as nat),
        decreases k,
    {
        proof {
            lemma_pow2_unfold(k as nat);
            let p = pow2((k - 1) as nat);
            assert(top as nat * (2 * p) == (2 * top) as nat * p) by (nonlinear_arith);
        }
        top = top * 2;
        k = k - 1;
    }
    let lift: u32 = if k < 64 {
        k
    } else {
        64
    };
    let raised = doubled(top, lift);
    let n = w as u128;
    let q = raised / n;
    let rem = (raised % n) as u64;
    let ghost g = pow2(lift as nat);
    let ghost p = pow2((k - lift) as nat);
    proof {
        lemma2_to64_rest();
        assert(raised == q * w + rem) by (nonlinear_arith)
            requires
                q == raised / n,
                rem == raised % n,
                n == w,
                n > 0,
        ;
        if k > 64 {
            assert(raised >= 0x10_0000_0000_0000 * 0x1_0000_0000_0000_0000) by (nonlinear_arith)
                requires
                    raised == top * g,
                    top >= 0x10_0000_0000_0000,
                    g == 0x1_0000_0000_0000_0000,
            ;
            assert(q >= EXPONENT_UNIT) by (nonlinear_arith)
                requires
                    q * w + rem >= 0x10_0000_0000_0000 * 0x1_0000_0000_0000_0000,
                    rem < w < 0x20_0000_0000_0000,
                    EXPONENT_UNIT == 0x10_0000_0000_0000,
                    q >= 0,
            ;
        }
    }
    let r = round(q, rem, w, k - lift);
    proof {
        lemma_pow2_adds(lift as nat, (k - lift) as nat);
        assert(top * (g * p) == (top * g) * p) by (nonlinear_arith);
    }
    r
}

/// A number divided by another, the two not both zero and not both infinite.
pub fn quotient(a: u64, b: u64) -> (r: u64)
    requires
        a <= INFINITY,
        b <= INFINITY,
        a > 0 || b > 0,
        a < INFINITY || b < INFINITY,
    ensures
        r <= INFINITY,
        r == quotient_of(a, b),
{
    if a == INFINITY || b == 0 {
        return INFINITY;
    }
    if b == INFINITY {
        return 0;
    }
    let (m, e) = split(a);
    let (w, f) = split(b);
    let ghost num = scaled(a) * scaled(ONE);
    let ghost den = scaled(b);
    proof {
        lemma_parts(a);
        lemma_parts(b);
        lemma2_to64_rest();
        lemma_pow2_adds(52, 1022);
        assert(scaled(ONE) == pow2(1074));
        lemma_pow2_adds(e as nat, 1074);
        let x = pow2(e as nat);
        let y = pow2(1074);
        assert((m * x) * y == m * (x * y)) by (nonlinear_arith);
        lemma_pow2_pos(f as nat);
        assert(w * pow2(f as nat) > 0) by (nonlinear_arith)
            requires
                w > 0,
                pow2(f as nat) > 0,
        ;
    }
    if e + 1074 >= f {
        let d = e + 1074 - f;
        let r = divide(m, w, d);
        proof {
            let x = pow2(d as nat);
            let y = pow2(f as nat);
            lemma_pow2_adds(d as nat, f as nat);
            assert((m * x) * y == m * (x * y)) by (nonlinear_arith);
            lemma_common_factor((m * x) as nat, w as nat, y, r);
            rounding_is_unique(num, den, r);
        }
        r
    } else {
        let ghost g = pow2((e + 1074) as nat);
        proof {
            lemma_pow2_pos((e + 1074) as nat);
            lemma2_to64();
        }
        if f == e + 1075 {
            let r = round(0, m, 2 * w, 0);
            proof {
                lemma_pow2_unfold(f as nat);
                assert(w * (2 * g) == (2 * w) * g) by (nonlinear_arith);
                assert(((0 * (2 * w) + m) as nat * pow2(0)) as nat == m);
                lemma_common_factor(m as nat, (2 * w) as nat, g, r);
                rounding_is_unique(num, den, r);
            }
            r
        } else {
            proof {
                let k = (f - e - 1074) as nat;
                let h = pow2(k);
                lemma_pow2_adds(k, (e + 1074) as nat);
                if k > 2 {
                    lemma_pow2_strictly_increases(2, k);
                }
                assert(w * (h * g) == (w * h) * g) by (nonlinear_arith);
                assert(2 * m < w * h) by (nonlinear_arith)
                    requires
                        m < 0x20_0000_0000_0000,
                        w >= 0x10_0000_0000_0000,
                        h >= 4,
                ;
                lemma_vanishes(m as nat, (w * h) as nat);
                lemma_common_factor(m as nat, (w * h) as nat, g, 0);
                rounding_is_unique(num, den, 0);
            }
            0
        }
    }
}

/// A number divided by a greater one gives less than one.
pub proof fn quotients_by_greater_numbers_are_below_one(a: u64, b: u64)
    requires
        a < b <= INFINITY,
    ensures
        quotient_of(a, b) < ONE,
{
    if b < INFINITY {
        let below = (b - 1) as u64;
        let almost = (ONE - 1) as u64;
        let m = significand(below);
        let p = pow2(exponent(below));
        let q = pow2(1021);
        let x = scaled(below);
        let y = scaled(a);
        lemma2_to64_rest();
        lemma_pow2_pos(1021);
        lemma_pow2_unfold(1022);
        lemma_pow2_pos(exponent(below));
        lemma_parts(below);
        lemma_successor(below);
        patterns_keep_order(below, a);
        assert(scaled(ONE) == 0x10_0000_0000_0000 * pow2(1022));
        assert(scaled(almost) == 0x1F_FFFF_FFFF_FFFF * q);
        assert(x <= 0x1F_FFFF_FFFF_FFFF * p) by (nonlinear_arith)
            requires
                x == m * p,
                m <= 0x1F_FFFF_FFFF_FFFF,
                p > 0,
        ;
        let left = 0x20_0000_0000_0000 * x;
        let right = 0x1F_FFFF_FFFF_FFFF * (x + p);
        assert(left * q <= right * q) by (nonlinear_arith)
            requires
                left <= right,
                q > 0,
        ;
        assert(y * (0x10_0000_0000_0000 * (2 * q)) <= (0x20_0000_0000_0000 * x) * q)
            by (nonlinear_arith)
            requires
                y <= x,
                q > 0,
        ;
        assert((0x1F_FFFF_FFFF_FFFF * (x + p)) * q == (0x1F_FFFF_FFFF_FFFF * q) * (x + p))
            by (nonlinear_arith);
        rounding_keeps_bounds(y * scaled(ONE), scaled(b), almost);
    }
}

/// The whole part of a number, or the greatest `u64` where it is beyond that.
pub open spec fn floor_of(b: u64) -> u64 {
    let n = scaled(b) / scaled(ONE);
    if n > u64::MAX {
        u64::MAX
    } else {
        n as u64
    }
}

/// The whole part of a number, or the greatest `u64` where it is beyond that.
pub fn floor(b: u64) -> (n: u64)
    requires
        b <= INFINITY,
    ensures
        n == floor_of(b),
{
    let (m, e) = split(b);
    proof {
        lemma2_to64_rest();
        lemma_pow2_adds(52, 1022);
        assert(scaled(ONE) == pow2(1074));
        lemma_pow2_pos(1074);
    }
    let ghost one = pow2(1074);
    if e >= 1074 {
        let up = e - 1074;
        let ghost g = pow2(up as nat);
        proof {
            lemma_pow2_adds(up as nat, 1074);
            assert(m * (g * one) == (m * g) * one) by (nonlinear_arith);
            assert(((m * g) * one) / (one as int) == m * g) by (nonlinear_arith)
                requires
                    one > 0,
            ;
        }
        if up > 11 {
            proof {
                if up > 12 {
                    lemma_pow2_strictly_increases(12, up as nat);
                }
                lemma2_to64();
                assert(m * g > u64::MAX) by (nonlinear_arith)
                    requires
                        m >= 0x10_0000_0000_0000,
                        g >= 0x1000,
                ;
            }
            return u64::MAX;
        }
        let r = doubled(m, up);
        proof {
            if up < 11 {
                lemma_pow2_strictly_increases(up as nat, 11);
            }
            lemma2_to64();
            assert(m * g <= u64::MAX) by (nonlinear_arith)
                requires
                    m <= 0x1F_FFFF_FFFF_FFFF,
                    0 <= g <= 0x800,
            ;
        }
        r as u64
    } else {
        let down = 1074 - e;
        let ghost h = pow2(down as nat);
        let ghost x = pow2(e as nat);
        proof {
            lemma_pow2_adds(down as nat, e as nat);
            lemma_pow2_pos(down as nat);
            lemma_pow2_pos(e as nat);
            assert(one == h * x);
            assert((m * x) / ((h * x) as int) == m as int / (h as int)) by {
                vstd::arithmetic::div_mod::lemma_div_multiples_vanish_quotient(
                    x as int,
                    m as int,
                    h as int,
                );
                assert(x * m == m * x) by (nonlinear_arith);
                assert(x * h == h * x) by (nonlinear_arith);
            }
        }
        if down > 53 {
            proof {
                lemma_pow2_strictly_increases(53, down as nat);
                assert(m as int / (h as int) == 0) by (nonlinear_arith)
                    requires
                        0 <= m < h,
                ;
            }
            return 0;
        }
        let divisor = doubled(1, down);
        proof {
            assert(m as int / (divisor as int) <= m) by (nonlinear_arith)
                requires
                    divisor >= 1,
                    m >= 0,
            ;
        }
        (m as u128 / divisor) as u64
    }
}

/// A whole number.
pub fn whole(n: u64) -> (r: u64)
    ensures
        r <= INFINITY,
        r == whole_of(n as nat),
{
    let r = round(n as u128, 0, 1, 1074);
    proof {
        lemma2_to64_rest();
        lemma_pow2_adds(52, 1022);
        assert(scaled(ONE) == pow2(1074));
        assert(((n as u128) * 1 + 0) as nat == n as nat);
        rounding_is_unique(n as nat * scaled(ONE), 1, r);
    }
    r
}

/// A pattern below two to the power 52 is a small number as it stands; any other is its
/// lower 52 bits with a leading one, doubled once less than its upper bits say.
pub proof fn patterns_are_read_as_written(b: u64)
    ensures
        b < 0x10_0000_0000_0000 ==> scaled(b) == b,
        b >= 0x10_0000_0000_0000 ==> scaled(b) == (0x10_0000_0000_0000 + b % 0x10_0000_0000_0000)
            * pow2((b / 0x10_0000_0000_0000 - 1) as nat),
{
    lemma2_to64();
    assert(b * pow2(0) == b) by (nonlinear_arith)
        requires
            pow2(0) == 1,
    ;
}

/// What a quotient rounds to is as near to it as any number is, and where another is as
/// near, it has an even pattern.
pub proof fn rounding_is_to_the_nearest(num: nat, den: nat, r: u64, c: u64)
    requires
        rounds_to(num, den, r),
        c <= 0x7FF0_0000_0000_0000,
    ensures
        r <= 0x7FF0_0000_0000_0000,
        ({
            let near = scaled(r) * den - num;
            let far = scaled(c) * den - num;
            &&& -far <= near <= far || far <= near <= -far
            &&& c != r && (near == far || near == -far) ==> r % 2 == 0
        }),
{
    assert(distance(num, den, r) <= distance(num, den, c));
    if c != r {
        assert(distance(num, den, r) < distance(num, den, c) || r % 2 == 0);
    }
}

/// A sum is the number nearest to what the two numbers come to.
pub proof fn sums_are_nearest(a: u64, b: u64)
    ensures
        rounds_to(scaled(a) + scaled(b), 1, sum_of(a, b)),
{
    lemma_rounding_exists(scaled(a) + scaled(b), 1);
}

/// A difference is the number nearest to what is left; infinity stays infinity.
pub proof fn differences_are_nearest(a: u64, b: u64)
    requires
        b <= a <= 0x7FF0_0000_0000_0000,
    ensures
        a < 0x7FF0_0000_0000_0000 ==> scaled(b) <= scaled(a) && rounds_to(
            (scaled(a) - scaled(b)) as nat,
            1,
            difference_of(a, b),
        ),
        a == 0x7FF0_0000_0000_0000 ==> difference_of(a, b) == a,
{
    patterns_keep_order(a, b);
    lemma_rounding_exists((scaled(a) - scaled(b)) as nat, 1);
}

/// A ratio is the number nearest to the number times the factor over the divisor; infinity
/// stays infinity.
pub proof fn ratios_are_nearest(a: u64, factor: nat, divisor: nat)
    requires
        divisor > 0,
    ensures
        a != 0x7FF0_0000_0000_0000 ==> rounds_to(
            scaled(a) * factor,
            divisor,
            ratio_of(a, factor, divisor),
        ),
        a == 0x7FF0_0000_0000_0000 ==> ratio_of(a, factor, divisor) == a,
{
    lemma_rounding_exists(scaled(a) * factor, divisor);
}

/// A quotient is the number nearest to the one number over the other, counted in ones.
pub proof fn quotients_are_nearest(a: u64, b: u64)
    requires
        a <= 0x7FF0_0000_0000_0000,
        b <= 0x7FF0_0000_0000_0000,
    ensures
        a < 0x7FF0_0000_0000_0000 && 0 < b < 0x7FF0_0000_0000_0000 ==> scaled(b) > 0 && rounds_to(
            scaled(a) * scaled(0x3FF0_0000_0000_0000),
            scaled(b),
            quotient_of(a, b),
        ),
        a < 0x7FF0_0000_0000_0000 && b == 0x7FF0_0000_0000_0000 ==> quotient_of(a, b) == 0,
        a == 0x7FF0_0000_0000_0000 || b == 0 ==> quotient_of(a, b) == 0x7FF0_0000_0000_0000,
{
    if 0 < b {
        patterns_keep_order(0, b);
        lemma_rounding_exists(scaled(a) * scaled(ONE), scaled(b));
    }
}

/// A whole number becomes the number nearest to it.
pub proof fn wholes_are_nearest(n: nat)
    ensures
        rounds_to(n * scaled(0x3FF0_0000_0000_0000), 1, whole_of(n)),
{
    lemma_rounding_exists(n * scaled(ONE), 1);
}

/// The whole part of a number is not above it, and one more is; where it does not fit, the
/// greatest `u64` stands for it.
pub proof fn floors_are_below(b: u64)
    ensures
        floor_of(b) * scaled(0x3FF0_0000_0000_0000) <= scaled(b),
        floor_of(b) < u64::MAX ==> scaled(b) < (floor_of(b) + 1) * scaled(0x3FF0_0000_0000_0000),
{
    let one = scaled(ONE);
    let x = scaled(b);
    lemma_pow2_pos(1022);
    assert(one == 0x10_0000_0000_0000 * pow2(1022));
    let n = x / one;
    assert(n * one <= x < (n + 1) * one) by (nonlinear_arith)
        requires
            n == x / one,
            one > 0,
    ;
    if n > u64::MAX {
        assert(u64::MAX * one <= n * one) by (nonlinear_arith)
            requires
                n >= u64::MAX,
                one > 0,
        ;
    }
}

}
