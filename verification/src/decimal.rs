//! Decimal numbers in text, read as the nearest single-precision number.
use crate::big::{Big, Side};
use crate::float::{magnitude_value, magnitudes_are_ordered, Single};
use crate::text;
use vstd::arithmetic::power2;
use vstd::prelude::*;

verus! {

broadcast use power2::lemma_pow2_pos;

/// Ten to the power of `n`.
pub open spec fn tens(n: nat) -> nat
    decreases n,
{
    if n == 0 {
        1
    } else {
        10 * tens((n - 1) as nat)
    }
}

/// Halfway between the numbers with the magnitude bits `m - 1` and `m`, in units of
/// 2^-150.
pub open spec fn half_way(m: int) -> int {
    magnitude_value(m - 1, 0x80_0000) + magnitude_value(m, 0x80_0000)
}

/// `p / q` lies beyond the half way from `m - 1` to `m`, or on it where `m` is even.
pub open spec fn is_beyond(p: nat, q: nat, m: int) -> bool {
    let x = p * power2::pow2(150);
    let h = q * half_way(m);
    h < x || (h == x && m % 2 == 0)
}

/// `m` are the magnitude bits of the number nearest to `p / q`; of two that are
/// equally near, those that are even. What lies beyond the largest number counts as
/// infinite.
pub open spec fn is_nearest(p: nat, q: nat, m: int) -> bool {
    &&& 0 <= m <= 0x7f80_0000
    &&& m > 0 ==> is_beyond(p, q, m)
    &&& m < 0x7f80_0000 ==> !is_beyond(p, q, m + 1)
}

/// The magnitude bits of the number nearest to `p / q`.
pub open spec fn nearest(p: nat, q: nat) -> int {
    choose|m: int| is_nearest(p, q, m)
}

/// The number that is nearest to so many millionths.
pub open spec fn of_millionths(n: nat) -> Single {
    Single { bits: nearest(n, 1_000_000) as u32 }
}

proof fn lemma_half_way_grows(a: int, b: int)
    requires
        1 <= a < b,
    ensures
        0 < half_way(a) < half_way(b),
{
    magnitudes_are_ordered(a - 1, a, 0x80_0000);
    magnitudes_are_ordered(a - 1, b - 1, 0x80_0000);
    magnitudes_are_ordered(a, b, 0x80_0000);
}

proof fn lemma_beyond_before(p: nat, q: nat, a: int, b: int)
    requires
        1 <= a <= b,
        is_beyond(p, q, b),
        q > 0,
    ensures
        is_beyond(p, q, a),
{
    if a < b {
        lemma_half_way_grows(a, b);
        assert(q * half_way(a) < q * half_way(b)) by (nonlinear_arith)
            requires
                q > 0,
                half_way(a) < half_way(b),
        ;
    }
}

/// A larger number reads as no smaller one, and every number has one nearest.
pub proof fn nearest_numbers_are_ordered(p: nat, r: nat, q: nat, a: int, b: int)
    requires
        p <= r,
        q > 0,
        is_nearest(p, q, a),
        is_nearest(r, q, b),
    ensures
        a <= b,
        p == r ==> a == b && nearest(p, q) == a,
{
    if a > b {
        lemma_beyond_before(p, q, b + 1, a);
        assert(p * power2::pow2(150) <= r * power2::pow2(150)) by (nonlinear_arith)
            requires
                p <= r,
                power2::pow2(150) > 0,
        ;
        assert(is_beyond(r, q, b + 1));
    }
    if p == r && a < b {
        lemma_beyond_before(r, q, a + 1, b);
    }
    if p == r {
        let c = nearest(p, q);
        assert(is_nearest(p, q, c));
        if a < c {
            lemma_beyond_before(p, q, a + 1, c);
        } else if c < a {
            lemma_beyond_before(p, q, c + 1, a);
        }
    }
}

/// The half way to the magnitude bits `m`, as a factor and a power of two.
fn half_way_to(m: u32) -> (r: (u32, u32))
    requires
        1 <= m <= 0x7f80_0000,
    ensures
        half_way(m as int) == r.0 * power2::pow2(r.1 as nat),
{
    let e: u32 = m / 0x80_0000;
    let f: u32 = m % 0x80_0000;
    let ghost l = m - 1;
    let ghost unit = 0x80_0000int;
    proof {
        power2::lemma2_to64();
        assert(power2::pow2(0) == 1);
    }
    if e == 0 {
        proof {
            assert(l / unit == 0 && l % unit == l);
            assert(half_way(m as int) == 2 * f - 1);
            assert((2 * f - 1) * 1 == 2 * f - 1);
        }
        (2 * f - 1, 0)
    } else if f > 0 {
        proof {
            assert(l / unit == e && l % unit == f - 1);
            let p = power2::pow2((e - 1) as nat) as int;
            assert(half_way(m as int) == (unit + (f - 1)) * p + (unit + f) * p);
            assert((unit + (f - 1)) * p + (unit + f) * p == (2 * unit + 2 * f - 1) * p)
                by (nonlinear_arith);
        }
        (0x100_0000 + 2 * f - 1, e - 1)
    } else if e == 1 {
        proof {
            assert(l / unit == 0 && l % unit == 0x7f_ffff);
            assert(half_way(m as int) == 0x7f_ffff + (unit + 0) * 1);
            assert(0xff_ffff * 1 == 0xff_ffff);
        }
        (0xff_ffff, 0)
    } else {
        proof {
            assert(l / unit == e - 1 && l % unit == 0x7f_ffff);
            let p = power2::pow2((e - 2) as nat) as int;
            power2::lemma_pow2_unfold((e - 1) as nat);
            assert(((e - 1) - 1) as nat == (e - 2) as nat);
            assert(half_way(m as int) == 0xff_ffff * p + 0x80_0000 * (2 * p));
            assert(0xff_ffff * p + 0x80_0000 * (2 * p) == 0x1ff_ffff * p) by (nonlinear_arith);
        }
        (0x1ff_ffff, e - 2)
    }
}

/// Whether the number behind `x`, which is `p * 2^150`, lies beyond a half way.
fn beyond(x: &Big, q: &Big, m: u32, Ghost(p): Ghost<nat>) -> (r: bool)
    requires
        x@ == p * power2::pow2(150),
        1 <= m <= 0x7f80_0000,
    ensures
        r == is_beyond(p, q@, m as int),
{
    let (w, k) = half_way_to(m);
    let mut h = q.copy();
    h.times_plus(w, 0);
    h.shift(k);
    proof {
        let t = power2::pow2(k as nat) as int;
        assert(q@ * w * t == q@ * (w * t)) by (nonlinear_arith);
    }
    match h.side_of(x) {
        Side::Below => true,
        Side::Level => m % 2 == 0,
        Side::Above => false,
    }
}

/// The magnitude bits of the number nearest to `p / q`, by halving the range.
fn nearest_to(p: &Big, q: &Big) -> (m: u32)
    requires
        q@ > 0,
    ensures
        is_nearest(p@, q@, m as int),
        m == nearest(p@, q@),
        m <= 0x7f80_0000,
{
    let mut x = p.copy();
    x.shift(150);
    let mut lo: u32 = 0;
    let mut hi: u32 = 0x7f80_0001;
    while hi - lo > 1
        invariant
            lo < hi <= 0x7f80_0001,
            x@ == p@ * power2::pow2(150),
            lo > 0 ==> is_beyond(p@, q@, lo as int),
            hi <= 0x7f80_0000 ==> !is_beyond(p@, q@, hi as int),
        decreases hi - lo,
    {
        let mid: u32 = lo + (hi - lo) / 2;
        if beyond(&x, q, mid, Ghost(p@)) {
            lo = mid;
        } else {
            hi = mid;
        }
    }
    proof {
        nearest_numbers_are_ordered(p@, p@, q@, lo as int, lo as int);
    }
    lo
}

/// The number nearest to so many millionths.
pub fn from_millionths(n: u64) -> (r: Single)
    ensures
        r == of_millionths(n as nat),
        is_nearest(n as nat, 1_000_000, r.bits as int),
{
    let high: u32 = (n / 0x1_0000_0000) as u32;
    let low: u32 = (n % 0x1_0000_0000) as u32;
    let mut p = Big::new(high);
    p.shift(32);
    p.times_plus(1, low);
    proof {
        power2::lemma2_to64();
        assert(p@ == n);
    }
    let q = Big::new(1_000_000);
    Single { bits: nearest_to(&p, &q) }
}

proof fn lemma_tens_large(n: nat)
    ensures
        tens(n) >= power2::pow2(3 * n),
    decreases n,
{
    if n == 0 {
        power2::lemma2_to64();
    } else {
        let m = (n - 1) as nat;
        lemma_tens_large(m);
        power2::lemma2_to64();
        power2::lemma_pow2_adds(3 * m, 3);
        assert(3 * n == 3 * m + 3);
    }
}

proof fn lemma_tens_add(a: nat, b: nat)
    ensures
        tens(a + b) == tens(a) * tens(b),
    decreases a,
{
    if a == 0 {
        assert(1 * tens(b) == tens(b));
    } else {
        lemma_tens_add((a - 1) as nat, b);
        assert((a + b - 1) as nat == (a - 1) as nat + b);
        assert(10 * (tens((a - 1) as nat) * tens(b)) == 10 * tens((a - 1) as nat) * tens(b))
            by (nonlinear_arith);
    }
}

proof fn lemma_digits_bound(d: Seq<char>)
    requires
        only_digits(d),
    ensures
        text::digits_value(d) < tens(d.len()),
    decreases d.len(),
{
    if d.len() > 0 {
        assert(text::is_digit(d[d.len() - 1]));
        lemma_digits_bound(d.drop_last());
    }
}

/// The numerator of a number with its point moved.
pub open spec fn numerator(n: nat, places: int) -> nat {
    if places > 0 {
        n * tens(places as nat)
    } else {
        n
    }
}

pub open spec fn denominator(places: int) -> nat {
    if places < 0 {
        tens((-places) as nat)
    } else {
        1
    }
}

proof fn lemma_nothing(q: nat)
    requires
        q > 0,
    ensures
        is_nearest(0, q, 0),
{
    magnitudes_are_ordered(0, 1, 0x80_0000);
    assert(0 * power2::pow2(150) == 0);
    assert(q * half_way(1) > 0) by (nonlinear_arith)
        requires
            q > 0,
            half_way(1) > 0,
    ;
}

/// What is far too large is infinite.
proof fn lemma_too_large(n: nat, places: int)
    requires
        n > 0,
        places >= 200,
    ensures
        is_nearest(numerator(n, places), denominator(places), 0x7f80_0000),
{
    let t = tens(places as nat);
    lemma_tens_large(places as nat);
    power2::lemma_pow2_strictly_increases(200, 3 * places as nat);
    power2::lemma_pow2_adds(200, 150);
    assert(n * t >= t) by (nonlinear_arith)
        requires
            n >= 1,
    ;
    let p150 = power2::pow2(150) as int;
    let p200 = power2::pow2(200) as int;
    assert(n * t * p150 >= p200 * p150) by (nonlinear_arith)
        requires
            n * t >= p200,
            p150 > 0,
    ;
    // Half way to infinity is less than 2^278.
    assert(half_way(0x7f80_0000) < power2::pow2(278)) by {
        let a = power2::pow2(253) as int;
        power2::lemma2_to64();
        power2::lemma_pow2_unfold(254);
        power2::lemma_pow2_adds(253, 25);
        assert(0x7f7f_ffffint / 0x80_0000 == 254 && 0x7f7f_ffffint % 0x80_0000 == 0x7f_ffff);
        assert(0x7f80_0000int / 0x80_0000 == 255 && 0x7f80_0000int % 0x80_0000 == 0);
        assert(0xff_ffff * a + 0x80_0000 * (2 * a) < a * 0x200_0000) by (nonlinear_arith)
            requires
                a > 0,
        ;
    }
    power2::lemma_pow2_strictly_increases(278, 350);
    assert(1 * half_way(0x7f80_0000) == half_way(0x7f80_0000));
}

/// What is far too small is nothing.
proof fn lemma_too_small(d: Seq<char>, places: int)
    requires
        only_digits(d),
        places <= -(d.len() + 60),
    ensures
        is_nearest(
            numerator(text::digits_value(d), places),
            denominator(places),
            0,
        ),
{
    let n = text::digits_value(d);
    let q = denominator(places);
    let rest = (-places - d.len() - 60) as nat;
    lemma_digits_bound(d);
    lemma_tens_add(d.len() + 60, rest);
    lemma_tens_add(d.len(), 60);
    assert(d.len() + 60 + rest == (-places) as nat);
    lemma_tens_large(60);
    lemma_tens_large(rest);
    power2::lemma_pow2_strictly_increases(150, 180);
    let big = tens(d.len()) as int;
    let p150 = power2::pow2(150) as int;
    assert(n * p150 < big * tens(60)) by (nonlinear_arith)
        requires
            0 <= n < big,
            0 < p150 <= tens(60),
    ;
    assert(big * tens(60) <= big * tens(60) * tens(rest)) by (nonlinear_arith)
        requires
            big * tens(60) >= 0,
            tens(rest) >= 1,
    ;
    assert(half_way(1) == 1) by {
        assert(1int / 0x80_0000 == 0 && 1int % 0x80_0000 == 1);
        assert(0int / 0x80_0000 == 0 && 0int % 0x80_0000 == 0);
    }
    assert(q * 1 == q);
}

/// Nothing but digits, and possibly nothing.
pub open spec fn only_digits(s: Seq<char>) -> bool {
    forall|i: int| 0 <= i < s.len() ==> text::is_digit(#[trigger] s[i])
}

/// The position of the first character that is `a` or `b`; the length where there
/// is none.
pub open spec fn first_of(s: Seq<char>, a: char, b: char) -> int
    decreases s.len(),
{
    if s.len() == 0 {
        0
    } else if s[0] == a || s[0] == b {
        0
    } else {
        1 + first_of(s.drop_first(), a, b)
    }
}

/// The text without a sign in front.
pub open spec fn unsigned_part(s: Seq<char>) -> Seq<char> {
    if s.len() > 0 && (s[0] == '+' || s[0] == '-') {
        s.drop_first()
    } else {
        s
    }
}

pub open spec fn has_minus(s: Seq<char>) -> bool {
    s.len() > 0 && s[0] == '-'
}

/// A text is a word, whatever the case of its letters. `word` is in upper case.
pub open spec fn is_word(s: Seq<char>, word: Seq<char>) -> bool {
    s.map_values(|c: char| text::upper(c)) == word
}

/// What a text that writes a number without a sign consists of: its digits, and how
/// many places their point is moved to the right. There are digits with a point
/// among them or not, and possibly a power of ten.
pub open spec fn parts_of(s: Seq<char>) -> Option<(Seq<char>, int)> {
    let at = first_of(s, 'e', 'E');
    let m = s.take(at);
    let dot = first_of(m, '.', '.');
    let tail = if dot < m.len() {
        m.skip(dot + 1)
    } else {
        Seq::empty()
    };
    let power = if at < s.len() {
        s.skip(at + 1)
    } else {
        seq!['0']
    };
    let digits = m.take(dot) + tail;
    if digits.len() > 0 && only_digits(digits) && text::all_digits(unsigned_part(power)) {
        let e = text::digits_value(unsigned_part(power)) as int;
        Some(
            (
                digits,
                (if has_minus(power) {
                    -e
                } else {
                    e
                }) - tail.len(),
            ),
        )
    } else {
        None
    }
}

/// The magnitude bits of the number that a text without a sign writes.
pub open spec fn magnitude_in(s: Seq<char>) -> Option<int> {
    if is_word(s, "INF"@) || is_word(s, "INFINITY"@) {
        Some(0x7f80_0000)
    } else if is_word(s, "NAN"@) {
        Some(0x7fc0_0000)
    } else {
        match parts_of(s) {
            Some((digits, places)) => Some(
                nearest(numerator(text::digits_value(digits), places), denominator(places)),
            ),
            None => None,
        }
    }
}

/// The single-precision number that a text writes: the nearest one to a decimal
/// number, an infinity, or what is not a number.
pub open spec fn number(s: Seq<char>) -> Option<Single> {
    match magnitude_in(unsigned_part(s)) {
        Some(m) => Some(
            Single {
                bits: (m + (if has_minus(s) {
                    0x8000_0000int
                } else {
                    0
                })) as u32,
            },
        ),
        None => None,
    }
}

/// The number that digits write, capped at `limit`.
fn digits_up_to(d: &[char], limit: u128) -> (r: u128)
    requires
        only_digits(d@),
        limit <= 0x10_0000_0000_0000_0000_0000_0000_0000,
    ensures
        r == (if text::digits_value(d@) > limit {
            limit as int
        } else {
            text::digits_value(d@) as int
        }),
{
    let mut v: u128 = 0;
    let mut i: usize = 0;
    assert(d@.take(0) =~= Seq::<char>::empty());
    while i < d.len()
        invariant
            i <= d.len(),
            only_digits(d@),
            limit <= 0x10_0000_0000_0000_0000_0000_0000_0000,
            v == (if text::digits_value(d@.take(i as int)) > limit {
                limit as int
            } else {
                text::digits_value(d@.take(i as int)) as int
            }),
        decreases d.len() - i,
    {
        assert(d@.take(i + 1).drop_last() =~= d@.take(i as int));
        assert(text::is_digit(d@[i as int]));
        let digit: u128 = (d[i] as u32 - '0' as u32) as u128;
        let next: u128 = v * 10 + digit;
        v = if next > limit {
            limit
        } else {
            next
        };
        i += 1;
    }
    assert(d@.take(d@.len() as int) =~= d@);
    v
}

/// The number that digits write.
fn big_of(d: &[char]) -> (r: Big)
    requires
        only_digits(d@),
    ensures
        r@ == text::digits_value(d@),
{
    let mut r = Big::new(0);
    let mut i: usize = 0;
    assert(d@.take(0) =~= Seq::<char>::empty());
    while i < d.len()
        invariant
            i <= d.len(),
            only_digits(d@),
            r@ == text::digits_value(d@.take(i as int)),
        decreases d.len() - i,
    {
        assert(d@.take(i + 1).drop_last() =~= d@.take(i as int));
        assert(text::is_digit(d@[i as int]));
        let digit: u32 = d[i] as u32 - '0' as u32;
        r.times_plus(10, digit);
        i += 1;
    }
    assert(d@.take(d@.len() as int) =~= d@);
    r
}

/// Multiplies by a power of ten.
fn times_tens(b: &mut Big, n: u128)
    ensures
        final(b)@ == old(b)@ * tens(n as nat),
{
    let ghost start = b@;
    let mut left: u128 = n;
    assert(tens(0) == 1);
    assert(start * 1 == start);
    while left > 0
        invariant
            left <= n,
            b@ == start * tens((n - left) as nat),
        decreases left,
    {
        let ghost done = (n - left) as nat;
        b.times_plus(10, 0);
        left = left - 1;
        proof {
            assert((done + 1 - 1) as nat == done);
            assert(start * tens(done) * 10 == start * (10 * tens(done))) by (nonlinear_arith);
        }
    }
}

/// The magnitude bits of the number nearest to what digits write with their point
/// moved.
fn magnitude_of(d: &[char], places: i128) -> (m: u32)
    requires
        only_digits(d@),
        -0x1000_0000_0000_0000_0000_0000_0000 < places < 0x1000_0000_0000_0000_0000_0000_0000,
    ensures
        m == nearest(
            numerator(text::digits_value(d@), places as int),
            denominator(places as int),
        ),
        m <= 0x7f80_0000,
{
    let ghost n = text::digits_value(d@);
    let ghost up = numerator(n, places as int);
    let ghost down = denominator(places as int);
    proof {
        lemma_tens_large(
            (if places < 0 {
                -places
            } else {
                places as int
            }) as nat,
        );
    }
    if digits_up_to(d, 1) == 0 {
        proof {
            assert(up == 0);
            lemma_nothing(down);
            nearest_numbers_are_ordered(up, up, down, 0, 0);
        }
        return 0;
    }
    if places >= 200 {
        proof {
            lemma_too_large(n, places as int);
            nearest_numbers_are_ordered(up, up, down, 0x7f80_0000, 0x7f80_0000);
        }
        return 0x7f80_0000;
    }
    if places <= -(d.len() as i128 + 60) {
        proof {
            lemma_too_small(d@, places as int);
            nearest_numbers_are_ordered(up, up, down, 0, 0);
        }
        return 0;
    }
    let mut p = big_of(d);
    let mut q = Big::new(1);
    if places > 0 {
        times_tens(&mut p, places as u128);
    } else if places < 0 {
        times_tens(&mut q, (-places) as u128);
        assert(1 * tens((-places) as nat) == tens((-places) as nat));
    }
    nearest_to(&p, &q)
}

fn are_digits(s: &[char]) -> (r: bool)
    ensures
        r == only_digits(s@),
{
    let mut i: usize = 0;
    while i < s.len()
        invariant
            i <= s.len(),
            forall|j: int| 0 <= j < i ==> text::is_digit(#[trigger] s@[j]),
        decreases s.len() - i,
    {
        if !text::is_digit_char(s[i]) {
            return false;
        }
        i += 1;
    }
    true
}

fn find_either(s: &[char], a: char, b: char) -> (r: usize)
    ensures
        r == first_of(s@, a, b),
        r <= s.len(),
{
    let mut i: usize = 0;
    assert(s@.skip(0) =~= s@);
    while i < s.len()
        invariant
            i <= s.len(),
            i + first_of(s@.skip(i as int), a, b) == first_of(s@, a, b),
        decreases s.len() - i,
    {
        assert(s@.skip(i as int)[0] == s@[i as int]);
        if s[i] == a || s[i] == b {
            return i;
        }
        assert(s@.skip(i as int).drop_first() =~= s@.skip(i + 1));
        i += 1;
    }
    i
}

fn without_sign(s: &[char]) -> (r: Vec<char>)
    ensures
        r@ == unsigned_part(s@),
{
    let from: usize = if s.len() > 0 && (s[0] == '+' || s[0] == '-') {
        1
    } else {
        0
    };
    let r = text::part(s, from, s.len());
    assert(r@ =~= unsigned_part(s@));
    r
}

/// The largest power of ten that is told apart from larger ones.
const POWER_LIMIT: u128 = 0x10_0000_0000_0000_0000_0000_0000;

/// The magnitude bits of the number that digits and a power of ten write.
fn parse_plain(s: &[char]) -> (r: Option<u32>)
    ensures
        r is Some <==> parts_of(s@) is Some,
        r matches Some(m) ==> m <= 0x7f80_0000 && (parts_of(s@) matches Some((d, places)) && m
            == nearest(numerator(text::digits_value(d), places), denominator(places))),
{
    let at: usize = find_either(s, 'e', 'E');
    let m = text::part(s, 0, at);
    assert(m@ =~= s@.take(at as int));
    let dot: usize = find_either(&m, '.', '.');
    let mut digits = text::part(&m, 0, dot);
    assert(digits@ =~= m@.take(dot as int));
    let tail = if dot < m.len() {
        let t = text::part(&m, dot + 1, m.len());
        assert(t@ =~= m@.skip(dot + 1));
        t
    } else {
        let t: Vec<char> = Vec::new();
        assert(t@ =~= Seq::<char>::empty());
        t
    };
    text::add_all(&mut digits, &tail);
    let power = if at < s.len() {
        let p = text::part(s, at + 1, s.len());
        assert(p@ =~= s@.skip(at + 1));
        p
    } else {
        let mut p: Vec<char> = Vec::new();
        p.push('0');
        assert(p@ =~= seq!['0']);
        p
    };
    let e = without_sign(&power);
    if digits.len() == 0 || !are_digits(&digits) || e.len() == 0 || !are_digits(&e) {
        return None;
    }
    let minus = power.len() > 0 && power[0] == '-';
    let size: u128 = digits_up_to(&e, POWER_LIMIT);
    let ghost n = text::digits_value(digits@);
    let ghost size_told = text::digits_value(e@) as int;
    let ghost places_told = (if minus {
        -size_told
    } else {
        size_told
    }) - tail@.len();
    if size == POWER_LIMIT {
        // So many places are beyond all digits that a text can hold.
        let ghost up = numerator(n, places_told);
        let ghost down = denominator(places_told);
        let some: u128 = digits_up_to(&digits, 1);
        if minus || some == 0 {
            proof {
                lemma_tens_large(
                    (if places_told < 0 {
                        -places_told
                    } else {
                        places_told
                    }) as nat,
                );
                if n == 0 {
                    assert(up == 0);
                    lemma_nothing(down);
                } else {
                    lemma_too_small(digits@, places_told);
                }
                nearest_numbers_are_ordered(up, up, down, 0, 0);
            }
            return Some(0);
        }
        proof {
            lemma_too_large(n, places_told);
            nearest_numbers_are_ordered(up, up, down, 0x7f80_0000, 0x7f80_0000);
        }
        return Some(0x7f80_0000);
    }
    let places: i128 = (if minus {
        -(size as i128)
    } else {
        size as i128
    }) - (tail.len() as i128);
    Some(magnitude_of(&digits, places))
}

fn same_word(s: &[char], word: &str) -> (r: bool)
    ensures
        r == is_word(s@, word@),
{
    text::is_text(&text::to_upper(s), word)
}

/// The single-precision number that a text writes.
pub fn parse_number(s: &[char]) -> (r: Option<Single>)
    ensures
        r == number(s@),
{
    let t = without_sign(s);
    let sign: u32 = if s.len() > 0 && s[0] == '-' {
        0x8000_0000
    } else {
        0
    };
    let magnitude: u32 = if same_word(&t, "INF") || same_word(&t, "INFINITY") {
        0x7f80_0000
    } else if same_word(&t, "NAN") {
        0x7fc0_0000
    } else {
        match parse_plain(&t) {
            Some(m) => m,
            None => return None,
        }
    };
    Some(Single { bits: magnitude + sign })
}

} // verus!
