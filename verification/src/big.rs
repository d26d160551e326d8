//! Whole numbers of any size, as far as they are needed to compare a decimal number
//! with a binary one exactly.
use vstd::arithmetic::power2;
use vstd::prelude::*;

verus! {

broadcast use power2::lemma_pow2_pos;

/// The number that words of 32 bits stand for, the lowest first.
pub open spec fn value_of(words: Seq<u32>) -> nat
    decreases words.len(),
{
    if words.len() == 0 {
        0
    } else {
        let high = (words.len() - 1) as nat;
        value_of(words.drop_last()) + words.last() as nat * power2::pow2(32 * high)
    }
}

/// A whole number of any size.
#[derive(Debug)]
pub struct Big {
    pub words: Vec<u32>,
}

impl View for Big {
    type V = nat;

    open spec fn view(&self) -> nat {
        value_of(self.words@)
    }
}

/// How two numbers lie to each other.
#[derive(Clone, Copy, Debug, PartialEq, Eq, Structural)]
pub enum Side {
    Below,
    Level,
    Above,
}

/// On which side of `b` the number `a` lies.
pub open spec fn side(a: int, b: int) -> Side {
    if a < b {
        Side::Below
    } else if a == b {
        Side::Level
    } else {
        Side::Above
    }
}

proof fn lemma_word(i: nat)
    ensures
        power2::pow2(32 * (i + 1)) == power2::pow2(32 * i) * 0x1_0000_0000,
{
    power2::lemma2_to64();
    power2::lemma_pow2_adds(32 * i, 32);
    assert(32 * (i + 1) == 32 * i + 32);
}

/// One step of a multiplication: a word, what was carried over, and what is carried
/// on.
proof fn lemma_step(done: int, was: int, f: int, a: int, p: int, x: int, c: int, y: int, d: int)
    requires
        done + c * p == f * was + a,
        y + d * 0x1_0000_0000 == f * x + c,
    ensures
        (done + y * p) + d * (p * 0x1_0000_0000) == f * (was + x * p) + a,
{
    assert(d * (p * 0x1_0000_0000) + y * p == (y + d * 0x1_0000_0000) * p) by (nonlinear_arith);
    assert((f * x + c) * p == f * (x * p) + c * p) by (nonlinear_arith);
    assert(f * (was + x * p) == f * was + f * (x * p)) by (nonlinear_arith);
}

impl Big {
    pub fn new(n: u32) -> (r: Big)
        ensures
            r@ == n,
    {
        let mut words: Vec<u32> = Vec::new();
        words.push(n);
        proof {
            power2::lemma2_to64();
            reveal_with_fuel(value_of, 2);
            assert(words@.drop_last() =~= Seq::<u32>::empty());
            assert(n as nat * 1 == n);
        }
        Big { words }
    }

    pub fn copy(&self) -> (r: Big)
        ensures
            r@ == self@,
    {
        let mut words: Vec<u32> = Vec::new();
        let mut i: usize = 0;
        while i < self.words.len()
            invariant
                i <= self.words.len(),
                words@ == self.words@.take(i as int),
            decreases self.words.len() - i,
        {
            words.push(self.words[i]);
            assert(words@ =~= self.words@.take(i + 1));
            i += 1;
        }
        assert(words@ =~= self.words@);
        Big { words }
    }

    /// Multiplies by `f` and adds `a`.
    pub fn times_plus(&mut self, f: u32, a: u32)
        ensures
            final(self)@ == old(self)@ * f + a,
    {
        let ghost start = self.words@;
        let n = self.words.len();
        let mut carry: u64 = a as u64;
        let mut i: usize = 0;
        proof {
            power2::lemma2_to64();
            assert(self.words@.take(0) =~= Seq::<u32>::empty());
            assert(value_of(start.take(0)) == 0);
            assert(f * 0 == 0);
            assert(32 * 0 == 0);
            assert(carry * power2::pow2(0) == carry) by {
                assert(power2::pow2(0) == 1);
            }
        }
        while i < n
            invariant
                i <= n,
                n == start.len(),
                self.words@.len() == n,
                carry <= 0xffff_ffff,
                value_of(self.words@.take(i as int)) + carry * power2::pow2(32 * i as nat) == f
                    * value_of(start.take(i as int)) + a,
                forall|j: int| i <= j < n ==> self.words@[j] == start[j],
            decreases n - i,
        {
            let ghost before = self.words@;
            let x: u32 = self.words[i];
            assert(0 <= f * x <= 0xffff_ffff * 0xffff_ffff) by (nonlinear_arith)
                requires
                    0 <= f <= 0xffff_ffff,
                    0 <= x <= 0xffff_ffff,
            ;
            let full: u64 = (f as u64) * (x as u64) + carry;
            let y: u32 = (full % 0x1_0000_0000) as u32;
            let d: u64 = full / 0x1_0000_0000;
            self.words.set(i, y);
            proof {
                let p = power2::pow2(32 * i as nat) as int;
                lemma_word(i as nat);
                assert(self.words@.take(i + 1).drop_last() =~= before.take(i as int));
                assert(start.take(i + 1).drop_last() =~= start.take(i as int));
                assert(y + d * 0x1_0000_0000 == f * x + carry);
                lemma_step(
                    value_of(before.take(i as int)) as int,
                    value_of(start.take(i as int)) as int,
                    f as int,
                    a as int,
                    p,
                    x as int,
                    carry as int,
                    y as int,
                    d as int,
                );
            }
            carry = d;
            i += 1;
        }
        let ghost body = self.words@;
        self.words.push(carry as u32);
        proof {
            assert(self.words@.drop_last() =~= body);
            assert(body.take(n as int) =~= body);
            assert(start.take(n as int) =~= start);
            assert(f * value_of(start) == value_of(start) * f) by (nonlinear_arith);
        }
    }

    /// Multiplies by a power of two.
    pub fn shift(&mut self, bits: u32)
        ensures
            final(self)@ == old(self)@ * power2::pow2(bits as nat),
    {
        let ghost start = self@;
        let mut left: u32 = bits;
        proof {
            power2::lemma2_to64();
            assert(start * 1 == start);
        }
        while left > 0
            invariant
                left <= bits,
                self@ == start * power2::pow2((bits - left) as nat),
            decreases left,
        {
            let ghost before = self@;
            let ghost done = (bits - left) as nat;
            if left >= 16 {
                self.times_plus(65536, 0);
                left = left - 16;
                proof {
                    power2::lemma2_to64();
                    power2::lemma_pow2_adds(done, 16);
                    assert(start * (power2::pow2(done) * 65536) == start * power2::pow2(done)
                        * 65536) by (nonlinear_arith);
                }
            } else {
                self.times_plus(2, 0);
                left = left - 1;
                proof {
                    power2::lemma2_to64();
                    power2::lemma_pow2_adds(done, 1);
                    assert(start * (power2::pow2(done) * 2) == start * power2::pow2(done) * 2)
                        by (nonlinear_arith);
                }
            }
        }
    }

    /// The word at a place; zero beyond the last.
    fn word(&self, i: usize) -> (r: u32)
        ensures
            r == padded(self.words@, i as int),
    {
        if i < self.words.len() {
            self.words[i]
        } else {
            0
        }
    }

    /// On which side of another number this one lies.
    pub fn side_of(&self, other: &Big) -> (r: Side)
        ensures
            r == side(self@ as int, other@ as int),
    {
        let ghost a = self.words@;
        let ghost b = other.words@;
        let n = if self.words.len() > other.words.len() {
            self.words.len()
        } else {
            other.words.len()
        };
        let mut i: usize = n;
        proof {
            lemma_padded(a, n as nat);
            lemma_padded(b, n as nat);
        }
        while i > 0
            invariant
                i <= n,
                a == self.words@,
                b == other.words@,
                self@ - other@ == low(a, i as nat) - low(b, i as nat),
            decreases i,
        {
            let x = self.word(i - 1);
            let y = other.word(i - 1);
            proof {
                let p = power2::pow2(32 * (i - 1) as nat) as int;
                lemma_low_bound(a, (i - 1) as nat);
                lemma_low_bound(b, (i - 1) as nat);
                if x < y {
                    assert(x * p + p <= y * p) by (nonlinear_arith)
                        requires
                            x + 1 <= y,
                            0 < p,
                    ;
                } else if y < x {
                    assert(y * p + p <= x * p) by (nonlinear_arith)
                        requires
                            y + 1 <= x,
                            0 < p,
                    ;
                }
            }
            if x < y {
                return Side::Below;
            }
            if y < x {
                return Side::Above;
            }
            i -= 1;
        }
        Side::Level
    }
}

/// A word, or zero beyond the last.
spec fn padded(words: Seq<u32>, i: int) -> u32 {
    if i < words.len() {
        words[i]
    } else {
        0
    }
}

/// The number that the lowest `n` words stand for.
spec fn low(words: Seq<u32>, n: nat) -> nat
    decreases n,
{
    if n == 0 {
        0
    } else {
        low(words, (n - 1) as nat) + padded(words, n - 1) as nat * power2::pow2(
            32 * (n - 1) as nat,
        )
    }
}

proof fn lemma_low_is_value(words: Seq<u32>, n: nat)
    requires
        n <= words.len(),
    ensures
        low(words, n) == value_of(words.take(n as int)),
    decreases n,
{
    if n > 0 {
        lemma_low_is_value(words, (n - 1) as nat);
        assert(words.take(n as int).drop_last() =~= words.take(n - 1));
    }
}

proof fn lemma_padded(words: Seq<u32>, n: nat)
    requires
        words.len() <= n,
    ensures
        low(words, n) == value_of(words),
    decreases n,
{
    if n == words.len() {
        lemma_low_is_value(words, n);
        assert(words.take(n as int) =~= words);
    } else {
        lemma_padded(words, (n - 1) as nat);
        assert(0 * power2::pow2(32 * (n - 1) as nat) == 0);
    }
}

proof fn lemma_low_bound(words: Seq<u32>, n: nat)
    ensures
        low(words, n) < power2::pow2(32 * n),
    decreases n,
{
    if n == 0 {
        power2::lemma2_to64();
    } else {
        let high = (n - 1) as nat;
        lemma_low_bound(words, high);
        lemma_word(high);
        let p = power2::pow2(32 * high) as int;
        let w = padded(words, n - 1) as int;
        assert(w * p + p <= p * 0x1_0000_0000) by (nonlinear_arith)
            requires
                0 <= w <= 0xffff_ffff,
                0 < p,
        ;
    }
}

} // verus!
