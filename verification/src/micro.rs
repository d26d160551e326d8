//! Measurements in millionths of their unit: rates and shares. Results are rounded
//! down and capped at the largest `u64`.
use crate::text;
use vstd::prelude::*;

verus! {

/// One whole unit.
pub const ONE: u64 = 1_000_000;

/// Nanoseconds in a second.
pub const SECOND: u64 = 1_000_000_000;

/// Nanoseconds in a millisecond.
pub const MILLISECOND: u64 = 1_000_000;

/// `n`, or the largest `u64` where that is less.
pub open spec fn capped(n: int) -> u64 {
    if n > u64::MAX {
        u64::MAX
    } else {
        n as u64
    }
}

pub fn cap(n: u128) -> (r: u64)
    ensures
        r == capped(n as int),
{
    if n > u64::MAX as u128 {
        u64::MAX
    } else {
        n as u64
    }
}

/// The larger of two measurements.
pub open spec fn larger(a: u64, b: u64) -> u64 {
    if a > b {
        a
    } else {
        b
    }
}

pub fn max(a: u64, b: u64) -> (r: u64)
    ensures
        r == larger(a, b),
{
    if a > b {
        a
    } else {
        b
    }
}

/// The time from `from` to `to` in nanoseconds; none where `to` comes first.
pub open spec fn elapsed(from: u64, to: u64) -> u64 {
    if to > from {
        (to - from) as u64
    } else {
        0
    }
}

pub fn since(from: u64, to: u64) -> (r: u64)
    ensures
        r == elapsed(from, to),
{
    if to > from {
        to - from
    } else {
        0
    }
}

/// `count` in `nanos` nanoseconds, as so many per second.
pub open spec fn rate(count: int, nanos: int) -> u64 {
    capped(count * 1_000_000_000_000_000 / nanos)
}

pub fn per_second(count: u64, nanos: u64) -> (r: u64)
    requires
        nanos > 0,
    ensures
        r == rate(count as int, nanos as int),
{
    cap((count as u128) * 1_000_000_000_000_000 / (nanos as u128))
}

/// `a / b` in millionths.
pub open spec fn ratio(a: int, b: int) -> u64 {
    capped(a * ONE / b)
}

pub fn ratio_of(a: u64, b: u64) -> (r: u64)
    requires
        b > 0,
    ensures
        r == ratio(a as int, b as int),
{
    cap((a as u128) * (ONE as u128) / (b as u128))
}

/// `a / b` in millionths, and no more than one.
pub open spec fn share(a: int, b: int) -> u64 {
    if ratio(a, b) > ONE {
        ONE
    } else {
        ratio(a, b)
    }
}

pub fn share_of(a: u64, b: u64) -> (r: u64)
    requires
        b > 0,
    ensures
        r == share(a as int, b as int),
        r <= ONE,
{
    let q: u64 = ratio_of(a, b);
    if q > ONE {
        ONE
    } else {
        q
    }
}

/// `a * b / c`.
pub open spec fn scaled(a: int, b: int, c: int) -> u64 {
    capped(a * b / c)
}

pub fn scale(a: u64, b: u64, c: u64) -> (r: u64)
    requires
        c > 0,
    ensures
        r == scaled(a as int, b as int, c as int),
{
    assert(0 <= a * b <= u64::MAX * u64::MAX) by (nonlinear_arith)
        requires
            0 <= a <= u64::MAX,
            0 <= b <= u64::MAX,
    ;
    cap((a as u128) * (b as u128) / (c as u128))
}

/// Whether `a * b <= c * d`, for factors whose products fit no machine word.
///
/// Compares the fractions `a / c` and `d / b` by their whole parts; where those
/// are equal, the rests are compared upside down.
pub fn product_at_most(a: u128, b: u128, c: u128, d: u128) -> (r: bool)
    ensures
        r == (a * b <= c * d),
    decreases b + c,
{
    if a == 0 || b == 0 {
        assert(a * b == 0 && 0 <= c * d) by (nonlinear_arith)
            requires
                a == 0 || b == 0,
                0 <= c,
                0 <= d,
        ;
        return true;
    }
    if c == 0 || d == 0 {
        assert(a * b > 0 && c * d == 0) by (nonlinear_arith)
            requires
                a > 0,
                b > 0,
                c == 0 || d == 0,
        ;
        return false;
    }
    let q1: u128 = a / c;
    let r1: u128 = a % c;
    let q2: u128 = d / b;
    let r2: u128 = d % b;
    proof {
        vstd::arithmetic::div_mod::lemma_fundamental_div_mod(a as int, c as int);
        vstd::arithmetic::div_mod::lemma_fundamental_div_mod(d as int, b as int);
        assert(a * b == (c * b) * q1 + r1 * b) by (nonlinear_arith)
            requires
                a == c * q1 + r1,
        ;
        assert(c * d == (c * b) * q2 + c * r2) by (nonlinear_arith)
            requires
                d == b * q2 + r2,
        ;
        assert(0 <= r1 * b < c * b) by (nonlinear_arith)
            requires
                0 <= r1 < c,
                0 < b,
        ;
        assert(0 <= c * r2 < c * b) by (nonlinear_arith)
            requires
                0 <= r2 < b,
                0 < c,
        ;
    }
    if q1 < q2 {
        assert((c * b) * q1 + c * b <= (c * b) * q2) by (nonlinear_arith)
            requires
                q1 + 1 <= q2,
                0 <= c * b,
        ;
        return true;
    }
    if q1 > q2 {
        assert((c * b) * q2 + c * b <= (c * b) * q1) by (nonlinear_arith)
            requires
                q2 + 1 <= q1,
                0 <= c * b,
        ;
        return false;
    }
    assert(r1 * b == b * r1) by (nonlinear_arith);
    assert(c * r2 == r2 * c) by (nonlinear_arith);
    product_at_most(b, r1, r2, c)
}

/// `n / unit` to the nearest whole number, and to the even one of two that are
/// equally near.
pub open spec fn nearest(n: int, unit: int) -> int {
    let q = n / unit;
    let r = n % unit;
    if 2 * r > unit || (2 * r == unit && q % 2 == 1) {
        q + 1
    } else {
        q
    }
}

pub fn nearest_to(n: u64, unit: u64) -> (r: u64)
    requires
        1 < unit < 0x1000_0000_0000_0000,
    ensures
        r == nearest(n as int, unit as int),
{
    let q: u64 = n / unit;
    let r: u64 = n % unit;
    assert(q <= n / 2) by (nonlinear_arith)
        requires
            q == n / unit,
            unit > 1,
    ;
    if 2 * r > unit || (2 * r == unit && q % 2 == 1) {
        q + 1
    } else {
        q
    }
}

/// A measurement to the nearest whole unit.
pub open spec fn whole_text(n: u64) -> Seq<char> {
    text::decimal(nearest(n as int, ONE as int) as nat)
}

/// `n / unit` with one digit after the point.
pub open spec fn tenths_text(n: u64, unit: u64) -> Seq<char> {
    let t = nearest(n as int, unit as int / 10);
    text::decimal((t / 10) as nat) + "."@ + text::decimal((t % 10) as nat)
}

/// Appends a measurement to the nearest whole unit.
pub fn add_whole(to: &mut Vec<char>, n: u64)
    ensures
        final(to)@ == old(to)@ + whole_text(n),
{
    text::add_number(to, nearest_to(n, ONE));
}

/// Appends `n / unit` with one digit after the point.
pub fn add_tenths(to: &mut Vec<char>, n: u64, unit: u64)
    requires
        20 <= unit < 0x1000_0000_0000_0000,
    ensures
        final(to)@ == old(to)@ + tenths_text(n, unit),
{
    let ghost before = to@;
    let t: u64 = nearest_to(n, unit / 10);
    text::add_number(to, t / 10);
    text::add_str(to, ".");
    text::add_number(to, t % 10);
    assert(to@ =~= before + tenths_text(n, unit));
}

/// A magnitude with its sign, capped on either side.
pub open spec fn signed(n: u64, minus: bool) -> i64 {
    let m = if n > i64::MAX {
        i64::MAX
    } else {
        n as i64
    };
    if minus {
        (-m) as i64
    } else {
        m
    }
}

pub fn with_sign(n: u64, minus: bool) -> (r: i64)
    ensures
        r == signed(n, minus),
{
    let m: i64 = if n > i64::MAX as u64 {
        i64::MAX
    } else {
        n as i64
    };
    if minus {
        -m
    } else {
        m
    }
}

/// What of a measurement lies above zero.
pub open spec fn positive(n: i64) -> u64 {
    if n > 0 {
        n as u64
    } else {
        0
    }
}

pub fn above_zero(n: i64) -> (r: u64)
    ensures
        r == positive(n),
{
    if n > 0 {
        n as u64
    } else {
        0
    }
}

} // verus!
