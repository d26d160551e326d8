//! The random numbers of the demo: a linear congruential generator, what its draws
//! stand for in single precision, and why every number that it can show comes up
//! again and again.
use crate::micro;
use vstd::arithmetic::div_mod;
use vstd::arithmetic::power2;
use vstd::prelude::*;

verus! {

/// The multiplier.
pub const FACTOR: u64 = 6364136223846793005;

/// How many states there are.
spec fn states() -> int {
    0x1_0000_0000_0000_0000
}

/// The next state of the generator.
#[verifier::opaque]
pub open spec fn next_seed(seed: u64) -> u64 {
    seed.wrapping_mul(FACTOR).wrapping_add(1)
}

/// What a state of the generator shows: 32 bits.
pub open spec fn drawn(seed: u64) -> u64 {
    seed / 0x1_0000_0000
}

/// Draws 32 random bits.
pub fn draw(seed: &mut u64) -> (r: u64)
    ensures
        *final(seed) == next_seed(*old(seed)),
        r == drawn(*final(seed)),
        r < 0x1_0000_0000,
{
    reveal(next_seed);
    *seed = seed.wrapping_mul(FACTOR).wrapping_add(1);
    *seed / 0x1_0000_0000
}

/// The state after `n` pairs of draws.
pub open spec fn after_pairs(seed: u64, n: nat) -> u64
    decreases n,
{
    if n == 0 {
        seed
    } else {
        let s = after_pairs(seed, (n - 1) as nat);
        next_seed(next_seed(s))
    }
}

/// A pair of draws multiplies by this and adds the other, but for whole rounds.
spec fn pair_factor() -> int {
    FACTOR * FACTOR
}

spec fn pair_step() -> int {
    FACTOR + 1
}

/// `n` pairs of draws, without taking whole rounds off.
spec fn unrolled(x: int, n: nat) -> int
    decreases n,
{
    if n == 0 {
        x
    } else {
        pair_factor() * unrolled(x, (n - 1) as nat) + pair_step()
    }
}

/// What `2^j` pairs multiply by.
spec fn jump_factor(j: nat) -> int
    decreases j,
{
    if j == 0 {
        pair_factor()
    } else {
        jump_factor((j - 1) as nat) * jump_factor((j - 1) as nat)
    }
}

/// What `2^j` pairs add.
spec fn jump_step(j: nat) -> int
    decreases j,
{
    if j == 0 {
        pair_step()
    } else {
        jump_step((j - 1) as nat) * (jump_factor((j - 1) as nat) + 1)
    }
}

proof fn lemma_next_seed(seed: u64)
    ensures
        next_seed(seed) == (FACTOR * seed + 1) % states(),
{
    reveal(next_seed);
    let p = (seed * FACTOR) as int;
    let w = seed.wrapping_mul(FACTOR) as int;
    assert(w == p % states());
    assert((w + 1) % states() == (p + 1) % states()) by {
        div_mod::lemma_add_mod_noop(p, 1, states());
        div_mod::lemma_add_mod_noop(w, 1, states());
        div_mod::lemma_mod_twice(p, states());
    }
    assert(seed * FACTOR == FACTOR * seed) by (nonlinear_arith);
}

/// A remainder can be taken before a factor and a term as well as after.
proof fn lemma_affine_mod(a: int, v: int, c: int)
    ensures
        (a * (v % states()) + c) % states() == (a * v + c) % states(),
{
    let q = v / states();
    div_mod::lemma_fundamental_div_mod(v, states());
    assert(a * v + c == states() * (a * q) + (a * (v % states()) + c)) by (nonlinear_arith)
        requires
            v == states() * q + v % states(),
    ;
    div_mod::lemma_mod_multiples_vanish(a * q, a * (v % states()) + c, states());
}

proof fn lemma_unrolled(seed: u64, n: nat)
    ensures
        after_pairs(seed, n) == unrolled(seed as int, n) % states(),
    decreases n,
{
    if n == 0 {
        div_mod::lemma_small_mod(seed as nat, states() as nat);
    } else {
        let m = (n - 1) as nat;
        lemma_unrolled(seed, m);
        let s = after_pairs(seed, m);
        let v = unrolled(seed as int, m);
        let t = next_seed(s);
        lemma_next_seed(s);
        lemma_next_seed(t);
        lemma_affine_mod(FACTOR as int, v, 1);
        lemma_affine_mod(FACTOR as int, FACTOR * v + 1, 1);
        assert(FACTOR * (FACTOR * v + 1) + 1 == pair_factor() * v + pair_step())
            by (nonlinear_arith)
            requires
                pair_factor() == FACTOR * FACTOR,
                pair_step() == FACTOR + 1,
        ;
    }
}

proof fn lemma_unrolled_adds(x: int, n: nat, m: nat)
    ensures
        unrolled(x, n + m) == unrolled(unrolled(x, n), m),
    decreases m,
{
    if m > 0 {
        lemma_unrolled_adds(x, n, (m - 1) as nat);
        assert((n + m - 1) as nat == n + (m - 1) as nat);
    }
}

proof fn lemma_jump(x: int, j: nat)
    ensures
        unrolled(x, power2::pow2(j)) == jump_factor(j) * x + jump_step(j),
    decreases j,
{
    if j == 0 {
        power2::lemma2_to64();
        reveal_with_fuel(unrolled, 2);
    } else {
        let i = (j - 1) as nat;
        let p = power2::pow2(i);
        power2::lemma_pow2_unfold(j);
        lemma_unrolled_adds(x, p, p);
        lemma_jump(x, i);
        let y = unrolled(x, p);
        lemma_jump(y, i);
        let f = jump_factor(i);
        let s = jump_step(i);
        assert(f * (f * x + s) + s == (f * f) * x + s * (f + 1)) by (nonlinear_arith);
    }
}

/// `2^j` pairs multiply by one more than a multiple of `2^(j + 3)`, and add an odd
/// multiple of `2^(j + 1)`.
proof fn lemma_jump_shape(j: nat) -> (r: (int, int))
    ensures
        jump_factor(j) == 1 + power2::pow2(j + 3) * r.0,
        jump_step(j) == power2::pow2(j + 1) * (2 * r.1 + 1),
    decreases j,
{
    if j == 0 {
        power2::lemma2_to64();
        let t = (pair_factor() - 1) / 8;
        let u = (pair_step() / 2 - 1) / 2;
        assert(pair_factor() == 1 + 8 * t) by {
            assert(FACTOR * FACTOR == 40502229875678917802724098623316930025int) by (nonlinear_arith);
        }
        assert(pair_step() == 2 * (2 * u + 1));
        (t, u)
    } else {
        let i = (j - 1) as nat;
        let (t, u) = lemma_jump_shape(i);
        let p3 = power2::pow2(i + 3) as int;
        let p1 = power2::pow2(i + 1) as int;
        power2::lemma_pow2_unfold((j + 3) as nat);
        power2::lemma_pow2_unfold((j + 1) as nat);
        power2::lemma_pow2_adds(i + 1, 2);
        power2::lemma2_to64();
        assert(p3 == p1 * 4);
        let f = jump_factor(i);
        let h = p1 * 2 * t;
        assert(p3 * t == 2 * h) by (nonlinear_arith)
            requires
                p3 == p1 * 4,
                h == p1 * 2 * t,
        ;
        let t2 = t + h * t;
        assert(f * f == 1 + (2 * p3) * t2) by (nonlinear_arith)
            requires
                f == 1 + p3 * t,
                p3 * t == 2 * h,
                t2 == t + h * t,
        ;
        let g = p1 * t;
        let odd = 2 * u + 1;
        assert(h == 2 * g) by (nonlinear_arith)
            requires
                h == p1 * 2 * t,
                g == p1 * t,
        ;
        let u2 = u + g * odd;
        assert(jump_step(j) == (2 * p1) * (odd + 2 * (g * odd))) by (nonlinear_arith)
            requires
                jump_step(j) == (p1 * odd) * (f + 1),
                f == 1 + 4 * g,
        ;
        (t2, u2)
    }
}

/// Pairs of draws lead from any number to any other that is `2 * half` away, up to
/// a multiple of `2^(m + 1)`: bit by bit, since `2^m` pairs change bit `m + 1` and
/// none below.
proof fn lemma_reaches(x: int, y: int, half: int, m: nat) -> (r: (nat, int))
    requires
        x - y == 2 * half,
    ensures
        unrolled(x, r.0) - y == power2::pow2(m + 1) * r.1,
    decreases m,
{
    if m == 0 {
        power2::lemma2_to64();
        (0, half)
    } else {
        let i = (m - 1) as nat;
        let (n, t) = lemma_reaches(x, y, half, i);
        let p = power2::pow2(m) as int;
        power2::lemma_pow2_unfold(m + 1);
        let z = unrolled(x, n);
        assert(z - y == p * t);
        if t % 2 == 0 {
            let h = t / 2;
            assert(p * t == (2 * p) * h) by (nonlinear_arith)
                requires
                    t == 2 * h,
            ;
            (n, h)
        } else {
            let (t1, u) = lemma_jump_shape(i);
            lemma_unrolled_adds(x, n, power2::pow2(i));
            lemma_jump(z, i);
            power2::lemma_pow2_adds(m, 2);
            power2::lemma2_to64();
            assert(power2::pow2(i + 3) == p * 4);
            let f = jump_factor(i);
            let d = t / 2;
            let h = d + 1 + u + 2 * (t1 * z);
            assert(f * z + jump_step(i) - y == (2 * p) * h) by (nonlinear_arith)
                requires
                    f == 1 + (p * 4) * t1,
                    jump_step(i) == p * (2 * u + 1),
                    z - y == p * t,
                    t == 2 * d + 1,
                    h == d + 1 + u + 2 * (t1 * z),
            ;
            (n + power2::pow2(i), h)
        }
    }
}

/// The state after one that is four further is further by a fixed distance, round
/// the states: a little more than 38 % of them.
pub proof fn four_states_on(seed: u64)
    requires
        seed <= u64::MAX - 4,
    ensures
        ({
            let on = next_seed(seed) + 7009800821677620404;
            next_seed((seed + 4) as u64) == (if on > u64::MAX {
                on - 0x1_0000_0000_0000_0000
            } else {
                on
            })
        }),
{
    let on = (seed + 4) as u64;
    lemma_next_seed(seed);
    lemma_next_seed(on);
    let v = FACTOR * seed + 1;
    assert(FACTOR * on + 1 == v + 4 * FACTOR) by (nonlinear_arith)
        requires
            on == seed + 4,
            v == FACTOR * seed + 1,
    ;
    div_mod::lemma_fundamental_div_mod(v, states());
    div_mod::lemma_mod_pos_bound(v, states());
    let r = v % states();
    let q = v / states();
    assert(4 * FACTOR == states() + 7009800821677620404);
    if r + 7009800821677620404 >= states() {
        div_mod::lemma_fundamental_div_mod_converse(
            v + 4 * FACTOR,
            states(),
            q + 2,
            r + 7009800821677620404 - states(),
        );
    } else {
        div_mod::lemma_fundamental_div_mod_converse(
            v + 4 * FACTOR,
            states(),
            q + 1,
            r + 7009800821677620404,
        );
    }
}

/// From any state, pairs of draws lead to every state of the same parity.
pub proof fn pairs_reach_every_second_state(seed: u64, target: u64) -> (n: nat)
    requires
        seed % 2 == target % 2,
    ensures
        after_pairs(seed, n) == target,
{
    let half = (seed - target) / 2;
    let (n, t) = lemma_reaches(seed as int, target as int, half, 63);
    power2::lemma2_to64();
    assert(power2::pow2(64) == states());
    lemma_unrolled(seed, n);
    assert(unrolled(seed as int, n) == states() * t + target);
    div_mod::lemma_mod_multiples_vanish(t, target as int, states());
    div_mod::lemma_small_mod(target as nat, states() as nat);
    n
}

/// The unit of the last place of a whole number that is kept in 24 binary digits.
pub open spec fn last_place(x: nat) -> nat
    decreases x,
{
    if x < 0x100_0000 {
        1
    } else {
        2 * last_place(x / 2)
    }
}

/// A whole number as single precision keeps it: in 24 binary digits, to the nearest,
/// and to the even one of two that are equally near.
#[verifier::opaque]
pub open spec fn rounded(x: nat) -> nat {
    let u = last_place(x) as int;
    (micro::nearest(x as int, u) * u) as nat
}

/// The whole part of a draw between 0 and 1, times a width, where both the draw and
/// the product are kept in single precision. A draw can be 1.
pub open spec fn part_of(bits: u64, width: u64) -> u64 {
    (rounded(rounded(bits as nat) * rounded(width as nat)) / 0x1_0000_0000) as u64
}

/// The whole part of a base and a draw times a width, in single precision.
pub open spec fn part_above(base: u64, bits: u64, width: u64) -> u64 {
    (rounded(
        rounded(base as nat) * 0x1_0000_0000 + rounded(
            rounded(bits as nat) * rounded(width as nat),
        ),
    ) / 0x1_0000_0000) as u64
}

/// A draw lies below `limit` parts of 2^32.
pub open spec fn is_below(bits: u64, limit: u64) -> bool {
    rounded(bits as nat) < limit
}

proof fn lemma_last_place(x: nat)
    ensures
        1 <= last_place(x),
        x >= 0x100_0000 ==> 0x80_0000 * last_place(x) <= x && last_place(x) % 2 == 0,
        last_place(x) <= 1 || last_place(x) <= x,
    decreases x,
{
    if x >= 0x100_0000 {
        lemma_last_place(x / 2);
    }
}

/// The nearest multiple of `u` lies between two multiples between which the number
/// lies.
proof fn lemma_between(x: int, u: int, a: int, b: int)
    requires
        0 <= x,
        0 < u,
        u * a <= x <= u * b,
    ensures
        u * a <= micro::nearest(x, u) * u <= u * b,
{
    let q = x / u;
    div_mod::lemma_fundamental_div_mod(x, u);
    div_mod::lemma_mod_pos_bound(x, u);
    assert(a <= q) by (nonlinear_arith)
        requires
            u * a <= x,
            x == u * q + x % u,
            0 <= x % u < u,
            0 < u,
    ;
    assert(q <= b) by (nonlinear_arith)
        requires
            x <= u * b,
            x == u * q + x % u,
            0 <= x % u < u,
            0 < u,
    ;
    assert(x % u > 0 ==> q + 1 <= b) by (nonlinear_arith)
        requires
            x <= u * b,
            x == u * q + x % u,
            0 <= x % u < u,
            0 < u,
    ;
    let n = micro::nearest(x, u);
    assert(u * a <= n * u <= u * b) by (nonlinear_arith)
        requires
            a <= n <= b,
            0 < u,
    ;
}

/// Rounding changes a number by no more than its 2^24th part.
pub proof fn rounding_is_small(x: nat)
    ensures
        rounded(x) <= x + x / 0x100_0000,
        x <= rounded(x) + x / 0x100_0000,
        x < 0x100_0000 ==> rounded(x) == x,
{
    reveal(rounded);
    let u = last_place(x) as int;
    let q = x as int / u;
    let r = x as int % u;
    lemma_last_place(x);
    div_mod::lemma_fundamental_div_mod(x as int, u);
    div_mod::lemma_mod_pos_bound(x as int, u);
    assert(u * q == q * u) by (nonlinear_arith);
    assert((q + 1) * u == q * u + u) by (nonlinear_arith);
    assert(q >= 0) by (nonlinear_arith)
        requires
            x == u * q + r,
            0 <= r < u,
            0 <= x,
    ;
    assert(q * u >= 0) by (nonlinear_arith)
        requires
            q >= 0,
            u > 0,
    ;
    if x < 0x100_0000 {
        assert(u == 1);
    } else {
        assert(u / 2 <= x / 0x100_0000);
    }
}

/// The unit of the last place of a number below `2^(24 + j)` divides `2^j`.
proof fn lemma_place_divides(x: nat, j: nat) -> (c: int)
    requires
        x < 0x100_0000 * power2::pow2(j),
    ensures
        c >= 1,
        last_place(x) * c == power2::pow2(j),
    decreases x,
{
    power2::lemma_pow2_pos(j);
    if x < 0x100_0000 {
        assert(1 * power2::pow2(j) == power2::pow2(j));
        power2::pow2(j) as int
    } else {
        power2::lemma2_to64();
        assert(j > 0);
        power2::lemma_pow2_unfold(j);
        let c = lemma_place_divides(x / 2, (j - 1) as nat);
        let u = last_place(x / 2) as int;
        assert((2 * u) * c == 2 * (u * c)) by (nonlinear_arith);
        c
    }
}

/// Rounding does not go beyond the next power of two.
proof fn lemma_rounded_below(x: nat, j: nat)
    requires
        x < 0x100_0000 * power2::pow2(j),
    ensures
        rounded(x) <= 0x100_0000 * power2::pow2(j),
{
    reveal(rounded);
    let c = lemma_place_divides(x, j);
    let u = last_place(x) as int;
    let p = power2::pow2(j) as int;
    lemma_last_place(x);
    assert(u * (c * 0x100_0000) == 0x100_0000 * p) by (nonlinear_arith)
        requires
            u * c == p,
    ;
    assert(u * 0 == 0);
    lemma_between(x as int, u, 0, c * 0x100_0000);
}

/// Some draw stands for each part of a width that is not too fine for single
/// precision.
pub proof fn every_part_is_drawn(e: nat, n: nat) -> (bits: u64)
    requires
        e < n <= 0x40_0000,
    ensures
        bits < 0x1_0000_0000,
        part_of(bits, n as u64) == e,
{
    reveal(rounded);
    let top = (e * 0x100_0000 + n - 1) as int;
    let g = top / n as int;
    let rest = top % n as int;
    div_mod::lemma_fundamental_div_mod(top, n as int);
    div_mod::lemma_mod_pos_bound(top, n as int);
    assert(n * g == g * n) by (nonlinear_arith);
    assert(e * 0x100_0000 <= g * n < e * 0x100_0000 + n);
    assert(0 <= g < 0x100_0000) by (nonlinear_arith)
        requires
            0 <= e * 0x100_0000 <= g * n,
            g * n < e * 0x100_0000 + n,
            e + 1 <= n,
            0 < n <= 0x40_0000,
    ;
    let h = (256 * g) as nat;
    power2::lemma2_to64();
    let c = lemma_place_divides(h, 8);
    let u = last_place(h) as int;
    lemma_last_place(h);
    assert(u * (c * g) == h) by (nonlinear_arith)
        requires
            u * c == 256,
            h == 256 * g,
    ;
    lemma_between(h as int, u, c * g, c * g);
    assert(rounded(h) == h);
    rounding_is_small(n);
    let x = (h * n) as nat;
    assert(x == 256 * (g * n)) by (nonlinear_arith)
        requires
            x == h * n,
            h == 256 * g,
    ;
    let d = lemma_place_divides(x, 31);
    let v = last_place(x) as int;
    lemma_last_place(x);
    assert(v * (2 * e * d) == e * 0x1_0000_0000) by (nonlinear_arith)
        requires
            v * d == 0x8000_0000,
    ;
    assert(v * ((2 * e + 1) * d) == (2 * e + 1) * 0x8000_0000) by (nonlinear_arith)
        requires
            v * d == 0x8000_0000,
    ;
    lemma_between(x as int, v, 2 * e * d, (2 * e + 1) * d);
    h as u64
}

/// Rounds a whole number to single precision.
fn round(x: u64) -> (r: u64)
    requires
        x <= 0x8000_0000_0000_0000,
    ensures
        r == rounded(x as nat),
        r <= x + x / 0x100_0000,
{
    let mut u: u64 = 1;
    let mut y: u64 = x;
    let ghost place = last_place(x as nat);
    assert(1 * last_place(x as nat) == place);
    while y >= 0x100_0000
        invariant
            u * last_place(y as nat) == place,
            1 <= u,
            u == 1 || u % 2 == 0,
            u * y <= x,
            x <= 0x8000_0000_0000_0000,
        decreases y,
    {
        proof {
            let l = last_place((y / 2) as nat) as int;
            assert(u * (2 * l) == (2 * u) * l) by (nonlinear_arith);
            assert((2 * u) * (y / 2) <= u * y) by (nonlinear_arith)
                requires
                    2 * (y / 2) <= y,
                    0 <= u,
            ;
            assert(u * 0x100_0000 <= u * y) by (nonlinear_arith)
                requires
                    0x100_0000 <= y,
                    0 <= u,
            ;
        }
        u = 2 * u;
        y = y / 2;
    }
    proof {
        reveal(rounded);
        assert(u * 1 == u);
        assert(place == u);
        rounding_is_small(x as nat);
        lemma_last_place(x as nat);
    }
    if u == 1 {
        return x;
    }
    micro::nearest_to(x, u) * u
}

/// A draw lies between 0 and 1, and its product with a width close to that part of
/// the width.
proof fn lemma_product(bits: u64, width: u64)
    requires
        bits < 0x1_0000_0000,
        width <= 0x7fff_ffff,
    ensures
        ({
            let b = rounded(bits as nat);
            let w = rounded(width as nat);
            let x = rounded(b * w);
            &&& b <= 0x1_0000_0000
            &&& w <= 0x8000_0000
            &&& b * w <= 0x1_0000_0000 * w
            &&& x <= b * w + b * w / 0x100_0000
            &&& w <= width + width / 0x100_0000
            &&& width < 0x100_0000 ==> w == width
        }),
{
    let b = rounded(bits as nat);
    let w = rounded(width as nat);
    power2::lemma2_to64();
    lemma_rounded_below(bits as nat, 8);
    lemma_rounded_below(width as nat, 7);
    rounding_is_small(width as nat);
    assert(0 <= b * w <= 0x1_0000_0000 * w) by (nonlinear_arith)
        requires
            0 <= b <= 0x1_0000_0000,
            0 <= w,
    ;
    rounding_is_small(b * w);
}

/// A part of a width that single precision can hold is no more than the width.
pub proof fn parts_are_within(bits: u64, width: u64)
    requires
        bits < 0x1_0000_0000,
        width < 0x100_0000,
    ensures
        part_of(bits, width) <= width,
{
    lemma_product(bits, width);
}

/// The whole part of a draw times a width.
pub fn part(bits: u64, width: u64) -> (r: u64)
    requires
        bits < 0x1_0000_0000,
        width <= 0x7fff_ffff,
    ensures
        r == part_of(bits, width),
        width < 0x100_0000 ==> r <= width,
        r <= width + 1024,
{
    proof {
        lemma_product(bits, width);
    }
    let b: u64 = round(bits);
    let w: u64 = round(width);
    round(b * w) / 0x1_0000_0000
}

/// The whole part of a base and a draw times a width.
pub fn part_from(base: u64, bits: u64, width: u64) -> (r: u64)
    requires
        bits < 0x1_0000_0000,
        base <= 0xfff_ffff,
        width <= 0xfff_ffff,
    ensures
        r == part_above(base, bits, width),
        base + width < 0x10_0000 ==> r <= base + width,
        base + width < 0x10_0000 ==> base <= r + 1,
        r <= base + width + 1024,
{
    proof {
        lemma_product(bits, width);
        rounding_is_small(base as nat);
    }
    let b: u64 = round(bits);
    let w: u64 = round(width);
    let a: u64 = round(base);
    let x: u64 = round(b * w);
    proof {
        rounding_is_small((a * 0x1_0000_0000 + x) as nat);
    }
    round(a * 0x1_0000_0000 + x) / 0x1_0000_0000
}

/// Whether a draw lies below `limit` parts of 2^32.
pub fn below(bits: u64, limit: u64) -> (r: bool)
    requires
        bits < 0x1_0000_0000,
    ensures
        r == is_below(bits, limit),
{
    round(bits) < limit
}

} // verus!
