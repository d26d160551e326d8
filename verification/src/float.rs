//! Binary floating-point readings held by their bit patterns.
//!
//! The library never computes with such a number. It stores what an instrument
//! reported, compares it with thresholds, and cuts it down to whole numbers or
//! millionths. All of that is decided by the bits, read as exact integers.
use crate::micro;
use vstd::arithmetic::div_mod;
use vstd::arithmetic::power2;
use vstd::bits;
use vstd::prelude::*;

verus! {

broadcast use power2::lemma_pow2_pos;

/// The value of the number with exponent field `e` and fraction field `f`, counted
/// in units of the smallest positive number of its format. `unit` is two to the
/// number of fraction bits.
pub open spec fn scaled_value(e: int, f: int, unit: int) -> int {
    if e <= 0 {
        f
    } else {
        (unit + f) * power2::pow2((e - 1) as nat)
    }
}

/// The value of the magnitude bits `m` of a number with `unit` fraction values.
pub open spec fn magnitude_value(m: int, unit: int) -> int {
    scaled_value(m / unit, m % unit, unit)
}

/// Larger magnitude bits stand for larger numbers.
pub proof fn magnitudes_are_ordered(a: int, b: int, unit: int)
    requires
        0 <= a < b,
        0 < unit,
    ensures
        0 <= magnitude_value(a, unit) < magnitude_value(b, unit),
{
    let ea = a / unit;
    let eb = b / unit;
    let fa = a % unit;
    let fb = b % unit;
    div_mod::lemma_fundamental_div_mod(a, unit);
    div_mod::lemma_fundamental_div_mod(b, unit);
    div_mod::lemma_mod_pos_bound(a, unit);
    div_mod::lemma_mod_pos_bound(b, unit);
    div_mod::lemma_div_is_ordered(a, b, unit);
    div_mod::lemma_div_pos_is_pos(a, unit);
    if ea == eb {
        assert(fa < fb);
        if ea > 0 {
            let p = power2::pow2((ea - 1) as nat);
            assert(0 <= (unit + fa) * p < (unit + fb) * p) by (nonlinear_arith)
                requires
                    0 < unit,
                    0 <= fa < fb,
                    0 < p,
            ;
        }
    } else {
        assert(ea < eb);
        let pb = power2::pow2((eb - 1) as nat);
        if ea == 0 {
            assert(unit <= (unit + fb) * pb) by (nonlinear_arith)
                requires
                    0 < unit,
                    0 <= fb,
                    1 <= pb,
            ;
        } else {
            let pa = power2::pow2((ea - 1) as nat);
            power2::lemma_pow2_unfold(ea as nat);
            let pn = power2::pow2(ea as nat);
            assert(pn == 2 * pa);
            if ea < eb - 1 {
                power2::lemma_pow2_strictly_increases(ea as nat, (eb - 1) as nat);
            }
            assert(pn <= pb);
            assert(0 <= (unit + fa) * pa < unit * (2 * pa)) by (nonlinear_arith)
                requires
                    0 < unit,
                    0 <= fa < unit,
                    0 < pa,
            ;
            assert(unit * pn <= (unit + fb) * pb) by (nonlinear_arith)
                requires
                    0 < unit,
                    0 <= fb,
                    0 < pn <= pb,
            ;
        }
    }
}

/// `m * 2^up / 2^down` rounded towards zero, or `u64::MAX` where that is more.
fn scaled(m: u64, up: u32, down: u32) -> (r: u64)
    ensures
        r == ({
            let v = (m * power2::pow2(up as nat))
                / (power2::pow2(down as nat) as int);
            if v > u64::MAX { u64::MAX as int } else { v }
        }),
{
    let ghost pu = power2::pow2(up as nat) as int;
    let ghost pd = power2::pow2(down as nat) as int;
    if up >= down {
        let k: u32 = up - down;
        let ghost pk = power2::pow2(k as nat) as int;
        proof {
            power2::lemma_pow2_adds(down as nat, k as nat);
            assert(m * pu == (m * pk) * pd) by (nonlinear_arith)
                requires
                    pu == pd * pk,
            ;
            assert((m * pk) * pd == pd * (m * pk)) by (nonlinear_arith);
            div_mod::lemma_div_multiples_vanish(m * pk, pd);
        }
        if m == 0 {
            return 0;
        }
        if k >= 64 {
            proof {
                power2::lemma2_to64();
                if k > 64 {
                    power2::lemma_pow2_strictly_increases(64, k as nat);
                }
                assert(m * pk >= pk) by (nonlinear_arith)
                    requires
                        m >= 1,
                        pk > 0,
                ;
            }
            return u64::MAX;
        }
        let room: u64 = u64::MAX >> (k as u64);
        proof {
            bits::lemma_u64_shr_is_div(u64::MAX, k as u64);
            div_mod::lemma_fundamental_div_mod(u64::MAX as int, pk);
            div_mod::lemma_mod_pos_bound(u64::MAX as int, pk);
        }
        if m > room {
            proof {
                assert(m * pk >= (room + 1) * pk) by (nonlinear_arith)
                    requires
                        m >= room + 1,
                        pk > 0,
                ;
                assert((room + 1) * pk == pk * room + pk) by (nonlinear_arith);
            }
            return u64::MAX;
        }
        proof {
            assert(m * pk <= room * pk) by (nonlinear_arith)
                requires
                    m <= room,
                    pk > 0,
            ;
            assert(room * pk == pk * room) by (nonlinear_arith);
            bits::lemma_u64_shl_is_mul(m, k as u64);
        }
        m << (k as u64)
    } else {
        let k: u32 = down - up;
        let ghost pk = power2::pow2(k as nat) as int;
        proof {
            power2::lemma_pow2_adds(up as nat, k as nat);
            assert(m * pu == pu * m) by (nonlinear_arith);
            div_mod::lemma_div_multiples_vanish_quotient(pu, m as int, pk);
        }
        if k >= 64 {
            proof {
                power2::lemma2_to64();
                if k > 64 {
                    power2::lemma_pow2_strictly_increases(64, k as nat);
                }
                div_mod::lemma_basic_div(m as int, pk);
            }
            return 0;
        }
        proof {
            bits::lemma_u64_shr_is_div(m, k as u64);
            assert(m as int / pk <= m) by {
                div_mod::lemma_div_nonincreasing(m as int, pk);
            }
        }
        m >> (k as u64)
    }
}

/// A single-precision number: one sign bit, eight exponent bits, 23 fraction bits.
///
/// `==` compares bit patterns; `gt` and `ge` compare numbers.
#[derive(Clone, Copy, Debug, PartialEq, Eq, Structural)]
pub struct Single {
    pub bits: u32,
}

impl Single {
    /// The bits below the sign.
    pub open spec fn magnitude(self) -> int {
        self.bits as int % 0x8000_0000
    }

    pub open spec fn negative(self) -> bool {
        self.bits >= 0x8000_0000
    }

    pub open spec fn nan(self) -> bool {
        self.magnitude() > 0x7f80_0000
    }

    /// The number in units of 2^-149. An infinity lies beyond every finite number.
    pub open spec fn value(self) -> int {
        let v = magnitude_value(self.magnitude(), 0x80_0000);
        if self.negative() {
            -v
        } else {
            v
        }
    }

    /// `self > other` as numbers; false where either is not one.
    pub open spec fn above(self, other: Single) -> bool {
        !self.nan() && !other.nan() && self.value() > other.value()
    }

    /// `self >= other` as numbers; false where either is not one.
    pub open spec fn at_least(self, other: Single) -> bool {
        !self.nan() && !other.nan() && self.value() >= other.value()
    }

    /// The whole part as a `u64`: 0 for what is negative or no number, the largest
    /// `u64` for what is too large.
    pub open spec fn whole(self) -> int {
        if self.nan() || self.value() <= 0 {
            0
        } else {
            let v = self.value() / (power2::pow2(149) as int);
            if v > u64::MAX {
                u64::MAX as int
            } else {
                v
            }
        }
    }

    /// The number is neither infinite nor no number at all.
    pub open spec fn finite(self) -> bool {
        self.magnitude() < 0x7f80_0000
    }

    /// The number in millionths, towards zero; 0 for what is no number.
    pub open spec fn millionths(self) -> i64 {
        if self.nan() {
            0
        } else {
            micro::signed(
                micro::capped(
                    magnitude_value(self.magnitude(), 0x80_0000) * micro::ONE / (power2::pow2(
                        149,
                    ) as int),
                ),
                self.negative(),
            )
        }
    }

    /// What a meter shows of the number: its millionths above zero, and nothing of
    /// what is not finite.
    pub open spec fn level(self) -> u64 {
        if self.finite() {
            micro::positive(self.millionths())
        } else {
            0
        }
    }

    /// The number, but at least one.
    pub open spec fn or_one(self) -> Single {
        if self.above(Single { bits: 0x3f80_0000 }) {
            self
        } else {
            Single { bits: 0x3f80_0000 }
        }
    }

    pub fn from_bits(bits: u32) -> (r: Single)
        ensures
            r.bits == bits,
    {
        Single { bits }
    }

    pub fn zero() -> (r: Single)
        ensures
            r.bits == 0,
            r.value() == 0,
    {
        Single { bits: 0 }
    }

    fn low(self) -> (r: u32)
        ensures
            r == self.magnitude(),
    {
        self.bits % 0x8000_0000
    }

    pub fn is_nan(self) -> (r: bool)
        ensures
            r == self.nan(),
    {
        self.low() > 0x7f80_0000
    }

    /// The magnitude with the sign applied: orders the numbers as their values do.
    fn rank(self) -> (r: i64)
        ensures
            r == (if self.negative() {
                -self.magnitude()
            } else {
                self.magnitude()
            }),
    {
        if self.bits >= 0x8000_0000 {
            -((self.bits - 0x8000_0000) as i64)
        } else {
            self.bits as i64
        }
    }

    pub fn gt(self, other: Single) -> (r: bool)
        ensures
            r == self.above(other),
    {
        proof {
            lemma_rank(self, other);
            lemma_rank(other, self);
        }
        !self.is_nan() && !other.is_nan() && self.rank() > other.rank()
    }

    pub fn ge(self, other: Single) -> (r: bool)
        ensures
            r == self.at_least(other),
    {
        proof {
            lemma_rank(self, other);
            lemma_rank(other, self);
        }
        !self.is_nan() && !other.is_nan() && self.rank() >= other.rank()
    }

    pub fn is_positive(self) -> (r: bool)
        ensures
            r == self.above(Single { bits: 0 }),
    {
        self.gt(Single::zero())
    }

    pub fn to_whole(self) -> (r: u64)
        ensures
            r == self.whole(),
    {
        if !self.is_positive() {
            return 0;
        }
        let m = self.low();
        let e: u32 = m / 0x80_0000;
        let f: u32 = m % 0x80_0000;
        proof {
            power2::lemma2_to64();
            assert(power2::pow2(0) == 1);
            assert(f * 1 == f);
        }
        if e == 0 {
            scaled(f as u64, 0, 149)
        } else {
            scaled((0x80_0000 + f) as u64, e - 1, 149)
        }
    }
}

impl Single {
    pub fn is_finite(self) -> (r: bool)
        ensures
            r == self.finite(),
    {
        self.low() < 0x7f80_0000
    }

    pub fn at_least_one(self) -> (r: Single)
        ensures
            r == self.or_one(),
    {
        let one = Single { bits: 0x3f80_0000 };
        if self.gt(one) {
            self
        } else {
            one
        }
    }

    pub fn to_millionths(self) -> (r: i64)
        ensures
            r == self.millionths(),
    {
        if self.is_nan() {
            return 0;
        }
        let m = self.low();
        let e: u32 = m / 0x80_0000;
        let f: u32 = m % 0x80_0000;
        proof {
            power2::lemma2_to64();
            assert(power2::pow2(0) == 1);
        }
        let size: u64 = if e == 0 {
            assert(f * 1_000_000 * 1 == f * 1_000_000);
            scaled(f as u64 * 1_000_000, 0, 149)
        } else {
            let sig: u64 = (0x80_0000 + f) as u64;
            proof {
                let p = power2::pow2((e - 1) as nat) as int;
                assert((sig * 1_000_000) * p == (sig * p) * 1_000_000) by (nonlinear_arith);
            }
            scaled(sig * 1_000_000, e - 1, 149)
        };
        micro::with_sign(size, self.bits >= 0x8000_0000)
    }

    pub fn to_level(self) -> (r: u64)
        ensures
            r == self.level(),
    {
        if self.is_finite() {
            micro::above_zero(self.to_millionths())
        } else {
            0
        }
    }
}

/// Bits without a sign that are no larger stand for a number that is no larger.
pub proof fn bits_order_numbers(a: Single, b: Single)
    requires
        a.bits <= b.bits <= 0x7f80_0000,
    ensures
        b.at_least(a),
{
    if a.bits < b.bits {
        magnitudes_are_ordered(a.magnitude(), b.magnitude(), 0x80_0000);
    }
}

/// The sign-and-magnitude order of the bits is the order of the numbers.
proof fn lemma_rank(a: Single, b: Single)
    ensures
        ({
            let ra = if a.negative() { -a.magnitude() } else { a.magnitude() };
            let rb = if b.negative() { -b.magnitude() } else { b.magnitude() };
            ra < rb <==> a.value() < b.value()
        }),
{
    let ma = a.magnitude();
    let mb = b.magnitude();
    if ma < mb {
        magnitudes_are_ordered(ma, mb, 0x80_0000);
    }
    if mb < ma {
        magnitudes_are_ordered(mb, ma, 0x80_0000);
    }
    if ma > 0 {
        magnitudes_are_ordered(0, ma, 0x80_0000);
    }
    if mb > 0 {
        magnitudes_are_ordered(0, mb, 0x80_0000);
    }
}

/// A double-precision number: one sign bit, eleven exponent bits, 52 fraction bits.
#[derive(Clone, Copy, Debug, PartialEq, Eq, Structural)]
pub struct Double {
    pub bits: u64,
}

impl Double {
    pub open spec fn magnitude(self) -> int {
        self.bits as int % 0x8000_0000_0000_0000
    }

    pub open spec fn nan(self) -> bool {
        self.magnitude() > 0x7ff0_0000_0000_0000
    }

    pub open spec fn not_negative(self) -> bool {
        !self.nan() && (self.bits < 0x8000_0000_0000_0000 || self.magnitude() == 0)
    }

    /// The size of the number in units of 2^-1074.
    pub open spec fn size(self) -> int {
        magnitude_value(self.magnitude(), 0x10_0000_0000_0000)
    }

    /// The whole part as a `u64`: 0 for what is negative or no number, the largest
    /// `u64` for what is too large.
    pub open spec fn whole(self) -> int {
        if self.nan() || self.bits >= 0x8000_0000_0000_0000 {
            0
        } else {
            let v = self.size() / (power2::pow2(1074) as int);
            if v > u64::MAX {
                u64::MAX as int
            } else {
                v
            }
        }
    }

    pub fn is_not_negative(self) -> (r: bool)
        ensures
            r == self.not_negative(),
    {
        self.bits <= 0x7ff0_0000_0000_0000 || self.bits == 0x8000_0000_0000_0000
    }

    pub fn to_whole(self) -> (r: u64)
        ensures
            r == self.whole(),
    {
        if self.bits > 0x7ff0_0000_0000_0000 {
            return 0;
        }
        let e: u64 = self.bits / 0x10_0000_0000_0000;
        let f: u64 = self.bits % 0x10_0000_0000_0000;
        proof {
            power2::lemma2_to64();
            assert(power2::pow2(0) == 1);
            assert(f * 1 == f);
        }
        if e == 0 {
            scaled(f, 0, 1074)
        } else {
            scaled(0x10_0000_0000_0000 + f, (e - 1) as u32, 1074)
        }
    }
}

} // verus!
