//! How numbers are written, kept and ordered.
use crate::decimal::{first_of, nearest, number, parts_of, tens};
use crate::float::{magnitude_value, Single};
use crate::order::{keys_ascend, placed, sorted, sorting_keeps_the_items};
use crate::text;
use vstd::arithmetic::power2;
use vstd::prelude::*;

verus! {

broadcast use power2::lemma_pow2_pos;

/// Nothing but digits.
pub open spec fn digits(s: Seq<char>) -> bool {
    forall|i: int| 0 <= i < s.len() ==> '0' <= #[trigger] s[i] <= '9'
}

proof fn lemma_first_of(s: Seq<char>, a: char, b: char, k: int)
    requires
        0 <= k <= s.len(),
        forall|i: int| 0 <= i < k ==> #[trigger] s[i] != a && s[i] != b,
        k < s.len() ==> s[k] == a || s[k] == b,
    ensures
        first_of(s, a, b) == k,
    decreases k,
{
    if k > 0 {
        let rest = s.drop_first();
        assert(s[0] != a && s[0] != b);
        assert forall|i: int| 0 <= i < k - 1 implies #[trigger] rest[i] != a && rest[i] != b by {
            assert(s[i + 1] != a);
        }
        lemma_first_of(rest, a, b, k - 1);
    }
}

/// A word of letters is no number that starts with a digit.
proof fn lemma_no_words(s: Seq<char>)
    requires
        s.len() > 0,
        '0' <= s[0] <= '9',
    ensures
        !crate::decimal::is_word(s, "INF"@),
        !crate::decimal::is_word(s, "INFINITY"@),
        !crate::decimal::is_word(s, "NAN"@),
{
    reveal_strlit("INF");
    reveal_strlit("INFINITY");
    reveal_strlit("NAN");
    let u = s.map_values(|c: char| text::upper(c));
    assert(u[0] == s[0]);
}

/// A number with a point is the nearest to its digits over as many tens as stand behind
/// the point; one without is the nearest to its digits. A minus sign in front makes it
/// negative, and a plus sign makes no difference.
pub proof fn decimal_texts_are_read(w: Seq<char>, f: Seq<char>)
    requires
        w.len() > 0,
        digits(w),
        digits(f),
    ensures
        number(w + "."@ + f) == Some(
            Single { bits: nearest(text::digits_value(w + f), tens(f.len())) as u32 },
        ),
        number(w) == Some(Single { bits: nearest(text::digits_value(w), 1) as u32 }),
        number(seq!['+'] + w) == number(w),
        number(seq!['-'] + w) == Some(
            Single { bits: (nearest(text::digits_value(w), 1) + 0x8000_0000) as u32 },
        ),
{
    reveal_strlit(".");
    let s = w + "."@ + f;
    let n = w.len() as int;
    assert(s[0] == w[0]);
    assert('0' <= w[0] <= '9');
    lemma_no_words(s);
    lemma_no_words(w);
    assert forall|i: int| 0 <= i < s.len() implies #[trigger] s[i] != 'e' && s[i] != 'E' by {
        if i < n {
            assert(s[i] == w[i]);
        } else if i > n {
            assert(s[i] == f[i - n - 1]);
        }
    }
    lemma_first_of(s, 'e', 'E', s.len() as int);
    assert(s.take(s.len() as int) =~= s);
    assert forall|i: int| 0 <= i < n implies #[trigger] s[i] != '.' by {
        assert(s[i] == w[i]);
    }
    lemma_first_of(s, '.', '.', n);
    assert(s.take(n) =~= w);
    assert(s.skip(n + 1) =~= f);
    lemma_digits_of(w + f, w, f);
    lemma_zero();
    assert(parts_of(s) == Some((w + f, -(f.len() as int))));
    // Without a point.
    assert forall|i: int| 0 <= i < n implies #[trigger] w[i] != 'e' && w[i] != 'E' by {
        assert('0' <= w[i] <= '9');
    }
    lemma_first_of(w, 'e', 'E', n);
    assert(w.take(n) =~= w);
    assert forall|i: int| 0 <= i < n implies #[trigger] w[i] != '.' by {
        assert('0' <= w[i] <= '9');
    }
    lemma_first_of(w, '.', '.', n);
    assert(w + Seq::<char>::empty() =~= w);
    lemma_digits_of(w, w, Seq::empty());
    assert(parts_of(w) == Some((w, 0int)));
    assert((seq!['+'] + w).drop_first() =~= w);
    assert((seq!['-'] + w).drop_first() =~= w);
    assert(tens(0) == 1);
}

proof fn lemma_zero()
    ensures
        text::all_digits(crate::decimal::unsigned_part(seq!['0'])),
        text::digits_value(crate::decimal::unsigned_part(seq!['0'])) == 0,
        !crate::decimal::has_minus(seq!['0']),
{
    let z = seq!['0'];
    assert(crate::decimal::unsigned_part(z) == z);
    assert(z.drop_last() =~= Seq::empty());
    assert(text::digits_value(z.drop_last()) == 0);
    assert(text::is_digit(z[0]));
}

proof fn lemma_digits_of(s: Seq<char>, w: Seq<char>, f: Seq<char>)
    requires
        s == w + f,
        digits(w),
        digits(f),
    ensures
        crate::decimal::only_digits(s),
{
    assert forall|i: int| 0 <= i < s.len() implies text::is_digit(#[trigger] s[i]) by {
        if i < w.len() {
            assert(s[i] == w[i]);
            assert('0' <= w[i] <= '9');
        } else {
            assert(s[i] == f[i - w.len()]);
            assert('0' <= f[i - w.len()] <= '9');
        }
    }
}

/// A number in millionths is its value towards zero: in units of 2^-149 it makes up the
/// value, but for less than a millionth. What is no number counts as zero, and a negative
/// number is as much below zero as its positive one is above.
pub proof fn millionths_make_up_the_number(x: Single)
    ensures
        x.nan() ==> x.millionths() == 0,
        !x.nan() && !x.negative() && x.millionths() < i64::MAX ==> {
            let m = x.millionths() as int;
            let one = power2::pow2(149) as int;
            0 <= m && m * one <= magnitude_value(x.magnitude(), 0x80_0000) * 1_000_000 < (m + 1)
                * one
        },
        !x.nan() && x.negative() ==> {
            let up = Single { bits: (x.bits - 0x8000_0000) as u32 };
            !up.negative() && x.millionths() == -up.millionths()
        },
        x.finite() ==> x.level() == if x.millionths() > 0 {
            x.millionths() as int
        } else {
            0
        },
        !x.finite() ==> x.level() == 0,
{
    let one = power2::pow2(149) as int;
    crate::float::magnitudes_are_ordered(x.magnitude(), x.magnitude() + 1, 0x80_0000);
    let v = magnitude_value(x.magnitude(), 0x80_0000) * 1_000_000;
    vstd::arithmetic::div_mod::lemma_fundamental_div_mod(v, one);
    vstd::arithmetic::div_mod::lemma_mod_pos_bound(v, one);
    let q = v / one;
    assert(one * q == q * one) by (nonlinear_arith);
    assert((q + 1) * one == q * one + one) by (nonlinear_arith);
    assert(q >= 0) by (nonlinear_arith)
        requires
            v >= 0,
            one > 0,
            v < q * one + one,
    ;
    if x.negative() {
        let up = Single { bits: (x.bits - 0x8000_0000) as u32 };
        assert(up.magnitude() == x.magnitude());
    }
}

proof fn lemma_placed_keeps<T>(list: Seq<(u128, T)>, x: (u128, T), key: u128)
    requires
        keys_ascend(list),
    ensures
        placed(list, x).filter(|y: (u128, T)| y.0 == key) == if x.0 == key {
            list.filter(|y: (u128, T)| y.0 == key).push(x)
        } else {
            list.filter(|y: (u128, T)| y.0 == key)
        },
    decreases list.len(),
{
    reveal(Seq::filter);
    let f = |y: (u128, T)| y.0 == key;
    if list.len() == 0 || list.last().0 <= x.0 {
        assert(list.push(x).drop_last() =~= list);
    } else {
        let head = list.drop_last();
        lemma_placed_keeps(head, x, key);
        let p = placed(head, x);
        assert(p.push(list.last()).drop_last() =~= p);
        if x.0 == key {
            assert(list.last().0 > key);
        }
    }
}

/// Sorting keeps items with equal keys in their order.
pub proof fn equal_keys_keep_their_order<T>(list: Seq<(u128, T)>, key: u128)
    ensures
        sorted(list).filter(|y: (u128, T)| y.0 == key) == list.filter(|y: (u128, T)| y.0 == key),
    decreases list.len(),
{
    reveal(Seq::filter);
    if list.len() > 0 {
        let head = list.drop_last();
        equal_keys_keep_their_order(head, key);
        sorting_keeps_the_items(head);
        lemma_placed_keeps(sorted(head), list.last(), key);
    }
}

/// The highest bit of a number is its sign, the next eight are its exponent and the others
/// its fraction. An exponent of all ones is an infinity, or no number where the fraction
/// is not zero. Every other number is its fraction, with one more bit in front unless the
/// exponent is zero, times a power of two.
pub proof fn the_bits_tell_the_number(x: Single)
    ensures
        ({
            let e = x.bits as int / 0x80_0000 % 256;
            let f = x.bits as int % 0x80_0000;
            &&& x.negative() <==> x.bits as int / 0x8000_0000 == 1
            &&& x.finite() <==> e != 255
            &&& x.nan() <==> e == 255 && f != 0
            &&& !x.negative() ==> x.value() == if e == 0 {
                f
            } else {
                (0x80_0000 + f) * power2::pow2((e - 1) as nat)
            }
            &&& x.negative() ==> x.value() == -(if e == 0 {
                f
            } else {
                (0x80_0000 + f) * power2::pow2((e - 1) as nat)
            })
        }),
{
    let b = x.bits as int;
    let e = b / 0x80_0000 % 256;
    let f = b % 0x80_0000;
    assert(x.magnitude() == e * 0x80_0000 + f);
    assert(x.magnitude() / 0x80_0000 == e);
    assert(x.magnitude() % 0x80_0000 == f);
}

/// Numbers are ordered by their values, and what is no number is neither above nor below
/// anything. The whole part of a number is its value towards zero.
pub proof fn numbers_are_ordered_by_value(x: Single, y: Single)
    ensures
        x.nan() || y.nan() ==> !x.above(y) && !x.at_least(y),
        !x.nan() && !y.nan() ==> (x.above(y) <==> x.value() > y.value()) && (x.at_least(y)
            <==> !y.above(x)),
        x.nan() || x.value() <= 0 ==> x.whole() == 0,
        !x.nan() && x.value() > 0 && x.whole() < u64::MAX ==> {
            let one = power2::pow2(149) as int;
            x.whole() * one <= x.value() < (x.whole() + 1) * one
        },
        x.or_one() == if x.above(Single { bits: 0x3f80_0000 }) {
            x
        } else {
            Single { bits: 0x3f80_0000 }
        },
{
    let one = power2::pow2(149) as int;
    let v = x.value();
    vstd::arithmetic::div_mod::lemma_fundamental_div_mod(v, one);
    vstd::arithmetic::div_mod::lemma_mod_bound(v, one);
    let q = v / one;
    assert(one * q == q * one) by (nonlinear_arith);
    assert((q + 1) * one == q * one + one) by (nonlinear_arith);
}

/// Ten to a power grows tenfold with each place.
pub proof fn tens_grow_tenfold(n: nat)
    ensures
        tens(0) == 1,
        tens(n + 1) == 10 * tens(n),
{
}

} // verus!
