//! Facts about single-precision arithmetic on non-negative numbers.
use vstd::arithmetic::power2::{lemma2_to64, lemma2_to64_rest, lemma_pow2_pos, pow2};
use vstd::prelude::*;

use crate::dsp::level::smooth;
use crate::arith::{lemma_pow2_double, lemma_pow2_even, lemma_pow2_monotone, lemma_pow2_sum};
use crate::nearest::{
    law_rounding_is_monotone, law_rounding_is_nearest, lemma_magnitude_of_parts,
    lemma_round_parts, lemma_round_representable, lemma_round_up_error, uncut,
};
use crate::rounding::{
    binade, lemma_magnitude_monotone, lemma_magnitude_zero, magnitude, round_magnitude,
};
use crate::single::Single;

verus! {

/// Finite, and without a minus sign. Such numbers are ordered as their bits are.
pub open spec fn nonneg(a: Single) -> bool {
    a.bits < 0x7f80_0000
}

/// The value of a non-negative number, in units of `2^-149`.
pub open spec fn size(a: Single) -> nat {
    magnitude(23, a.bits as nat)
}

/// Bits order the values of non-negative numbers.
pub proof fn lemma_size_order(a: Single, b: Single)
    requires
        nonneg(a),
        nonneg(b),
    ensures
        a.bits <= b.bits <==> size(a) <= size(b),
        a.bits < b.bits <==> size(a) < size(b),
        a.lt(b) == (a.bits < b.bits),
        a.gt(b) == (b.bits < a.bits),
        size(a) == 0 <==> a.bits == 0,
        a.value() == size(a),
{
    reveal(crate::float::less);
    if a.bits < b.bits {
        lemma_magnitude_monotone(23, a.bits as nat, b.bits as nat);
    } else if b.bits < a.bits {
        lemma_magnitude_monotone(23, b.bits as nat, a.bits as nat);
    }
    lemma_magnitude_zero(23, a.bits as nat);
}

/// Bits order the values of all finite numbers, with the order turned round below zero.
pub proof fn lemma_at_most(a: Single, b: Single)
    requires
        a.finite(),
        b.finite(),
    ensures
        a.le(b) == if a.word().neg && b.word().neg {
            a.abs().bits >= b.abs().bits
        } else if a.word().neg {
            true
        } else if b.word().neg {
            a.abs().bits == 0 && b.abs().bits == 0
        } else {
            a.bits <= b.bits
        },
        a.lt(b) == !b.le(a),
{
    reveal(crate::float::less);
    reveal(crate::float::at_most);
    lemma_size_order(a.abs(), b.abs());
    lemma_size_order(b.abs(), a.abs());
}

/// One is `2^149` units.
pub proof fn lemma_size_one()
    ensures
        nonneg(Single::one()),
        size(Single::one()) == pow2(149),
        pow2(149) > 0x1_0000_0000,
        pow2(149) % 2 == 0,
{
    lemma2_to64();
    lemma2_to64_rest();
    lemma_magnitude_of_parts(23, 126, 0x80_0000);
    lemma_pow2_sum(23, 126);
    lemma_pow2_monotone(63, 149);
    lemma_pow2_even(149);
}

/// The product of non-negative numbers is the rounded exact product.
pub proof fn lemma_times(a: Single, b: Single)
    requires
        nonneg(a),
        nonneg(b),
    ensures
        a.times(b).bits == round_magnitude(23, size(a) * size(b), pow2(149)),
        a.times(b).bits <= 0x7f80_0000,
{
    reveal(crate::float::multiplied);
}

/// The sum of non-negative numbers is the rounded exact sum.
pub proof fn lemma_plus(a: Single, b: Single)
    requires
        nonneg(a),
        nonneg(b),
    ensures
        a.plus(b).bits == round_magnitude(23, size(a) + size(b), 1),
        a.plus(b).bits <= 0x7f80_0000,
{
    reveal(crate::float::added);
    if size(a) + size(b) == 0 {
        lemma_magnitude_zero(23, 0);
        lemma_round_representable(23, 0, 0, 1);
    }
}

/// The difference of non-negative numbers, the larger first, is the rounded exact difference.
pub proof fn lemma_minus(a: Single, b: Single)
    requires
        nonneg(a),
        nonneg(b),
        b.bits <= a.bits,
    ensures
        size(b) <= size(a),
        a.minus(b).bits == round_magnitude(23, (size(a) - size(b)) as nat, 1),
        a.minus(b).bits <= 0x7f80_0000,
{
    reveal(crate::float::added);
    lemma_size_order(a, b);
    lemma_size_order(b, a);
    if size(a) == size(b) {
        lemma_magnitude_zero(23, 0);
        lemma_round_representable(23, 0, 0, 1);
    }
}

/// The quotient of a non-negative and a positive number is the rounded exact quotient.
pub proof fn lemma_over(a: Single, b: Single)
    requires
        nonneg(a),
        nonneg(b),
        b.bits > 0,
    ensures
        size(b) > 0,
        a.over(b).bits == round_magnitude(23, size(a) * pow2(149), size(b)),
        a.over(b).bits <= 0x7f80_0000,
{
    reveal(crate::float::divided);
    lemma_magnitude_zero(23, b.bits as nat);
}

/// A product does not fall when its factors rise.
pub proof fn lemma_times_monotone(a: Single, b: Single, c: Single, d: Single)
    requires
        nonneg(a),
        nonneg(b),
        nonneg(c),
        nonneg(d),
        a.bits <= c.bits,
        b.bits <= d.bits,
    ensures
        a.times(b).bits <= c.times(d).bits,
{
    lemma_times(a, b);
    lemma_times(c, d);
    lemma_size_order(a, c);
    lemma_size_order(b, d);
    lemma_pow2_pos(149);
    let p: nat = size(a) * size(b);
    let q: nat = size(c) * size(d);
    assert(p <= q) by (nonlinear_arith)
        requires
            p == size(a) * size(b),
            q == size(c) * size(d),
            size(a) <= size(c),
            size(b) <= size(d),
    ;
    let u: nat = pow2(149);
    assert(p * u <= q * u) by (nonlinear_arith)
        requires
            p <= q,
    ;
    law_rounding_is_monotone(23, p, u, q, u);
}

/// A sum does not fall when its terms rise.
pub proof fn lemma_plus_monotone(a: Single, b: Single, c: Single, d: Single)
    requires
        nonneg(a),
        nonneg(b),
        nonneg(c),
        nonneg(d),
        a.bits <= c.bits,
        b.bits <= d.bits,
    ensures
        a.plus(b).bits <= c.plus(d).bits,
{
    lemma_plus(a, b);
    lemma_plus(c, d);
    lemma_size_order(a, c);
    lemma_size_order(b, d);
    law_rounding_is_monotone(23, size(a) + size(b), 1, size(c) + size(d), 1);
}

/// Multiplying by one changes nothing, whatever the number.
pub proof fn law_one_is_neutral(x: Single)
    requires
        !x.nan(),
    ensures
        x.times(Single::one()) == x,
        Single::one().times(x) == x,
{
    reveal(crate::float::multiplied);
    lemma_size_one();
    let m: nat = magnitude(23, x.word().mag as nat);
    let u: nat = pow2(149);
    assert(m * u == u * m) by (nonlinear_arith);
    if x.finite() {
        lemma_round_representable(23, x.word().mag as nat, m * u, u);
    }
}

/// How far rounding moves what is less than one: at most a quarter of the spacing above one.
proof fn lemma_error_below_one(n: nat)
    requires
        n <= pow2(149),
    ensures
        n - pow2(124) <= magnitude(23, round_magnitude(23, n, 1)) <= n + pow2(124),
{
    lemma2_to64();
    lemma2_to64_rest();
    lemma_pow2_pos(124);
    lemma_size_one();
    if n == pow2(149) {
        lemma_round_representable(23, Single::one().bits as nat, n, 1);
    } else {
        lemma_round_parts(23, n, 1);
        let e: nat = binade(23, n, 1);
        if e > 125 {
            lemma_pow2_monotone(149, 23 + e);
        }
        lemma_pow2_monotone(e, 125);
        lemma_pow2_double(124);
        let full: nat = uncut(23, n, 1);
        let m: int = magnitude(23, full) as int;
        assert(m * 1 == m);
        lemma_magnitude_of_parts(23, 126, 0x80_0000);
        if full > Single::one().bits {
            law_rounding_is_monotone(23, n, 1, pow2(149), 1);
            lemma_round_representable(23, Single::one().bits as nat, pow2(149), 1);
        }
    }
}

/// The numbers next to one, and how far they are.
proof fn lemma_neighbours_of_one(b: nat)
    requires
        b != Single::one().bits,
    ensures
        magnitude(23, b) >= pow2(149) + 4 * pow2(124) || (magnitude(23, b) <= pow2(149) - 2 * pow2(
            124,
        ) && (magnitude(23, b) == pow2(149) - 2 * pow2(124) ==> b % 2 == 1)),
{
    lemma2_to64();
    lemma2_to64_rest();
    lemma_pow2_double(124);
    lemma_pow2_double(125);
    lemma_pow2_sum(23, 126);
    lemma_pow2_sum(24, 125);
    if b > 0x3f80_0000 {
        lemma_magnitude_of_parts(23, 126, 0x80_0001);
        if b > 0x3f80_0001 {
            lemma_magnitude_monotone(23, 0x3f80_0001, b);
        }
    } else {
        lemma_magnitude_of_parts(23, 125, 0xff_ffff);
        if b < 0x3f7f_ffff {
            lemma_magnitude_monotone(23, b, 0x3f7f_ffff);
        }
    }
}

/// Whatever share of one is split off, what is left adds up to one again.
pub proof fn lemma_shares_of_one(c: Single)
    requires
        c.bits <= Single::one().bits,
    ensures
        nonneg(Single::one().minus(c)),
        Single::one().minus(c).bits <= Single::one().bits,
        c.plus(Single::one().minus(c)) == Single::one(),
{
    let one = Single::one();
    lemma_size_one();
    lemma_size_order(c, one);
    lemma_minus(one, c);
    let v = one.minus(c);
    let u: int = pow2(149) as int;
    let q: int = pow2(124) as int;
    lemma_pow2_pos(124);
    let rest: nat = (u - size(c)) as nat;
    law_rounding_is_monotone(23, rest, 1, pow2(149), 1);
    lemma_round_representable(23, one.bits as nat, pow2(149), 1);
    lemma_plus(c, v);
    let n: nat = size(c) + size(v);
    let r: nat = round_magnitude(23, n, 1);
    lemma_error_below_one(rest);
    assert(u - q <= n <= u + q);
    law_rounding_is_nearest(23, n, 1, one.bits as nat);
    if r != one.bits {
        lemma_neighbours_of_one(r);
        let mr: int = magnitude(23, r) as int;
        assert(mr * 1 == mr && u * 1 == u);
    }
}

/// Smoothing at one stays at one.
pub proof fn lemma_smooth_at_one(c: Single)
    requires
        c.bits <= Single::one().bits,
    ensures
        smooth(c, Single::one(), Single::one()) == Single::one(),
{
    lemma_size_one();
    lemma_shares_of_one(c);
    law_one_is_neutral(c);
    law_one_is_neutral(Single::one().minus(c));
}

/// Without smoothing, a parameter is at its target after one step.
pub proof fn law_unsmoothed_parameter_jumps(current: Single, target: Single)
    requires
        nonneg(current),
        nonneg(target),
    ensures
        smooth(Single::zero(), current, target) == target,
{
    let zero = Single::zero();
    let one = Single::one();
    lemma_size_one();
    lemma_magnitude_zero(23, 0);
    lemma_minus(one, zero);
    lemma_round_representable(23, one.bits as nat, pow2(149), 1);
    law_one_is_neutral(target);
    lemma_times(zero, current);
    lemma_pow2_pos(149);
    assert(0 * size(current) == 0) by (nonlinear_arith);
    lemma_round_representable(23, 0, 0, pow2(149));
    lemma_plus(zero, target);
    lemma_round_representable(23, target.bits as nat, size(target), 1);
}

/// Smoothing does not fall when what it starts from or what it goes to rises.
pub proof fn lemma_smooth_monotone(c: Single, a: Single, t: Single, b: Single, u: Single)
    requires
        c.bits <= Single::one().bits,
        a.bits <= b.bits <= Single::one().bits,
        t.bits <= u.bits <= Single::one().bits,
    ensures
        smooth(c, a, t).bits <= smooth(c, b, u).bits <= Single::one().bits,
{
    let one = Single::one();
    let v = one.minus(c);
    lemma_size_one();
    lemma_shares_of_one(c);
    law_one_is_neutral(c);
    law_one_is_neutral(v);
    lemma_times_monotone(c, a, c, b);
    lemma_times_monotone(v, t, v, u);
    lemma_times_monotone(c, b, c, one);
    lemma_times_monotone(v, u, v, one);
    lemma_plus_monotone(c.times(a), v.times(t), c.times(b), v.times(u));
    lemma_plus_monotone(c.times(b), v.times(u), c, v);
}

/// The size of a product does not depend on signs.
pub proof fn lemma_times_abs(x: Single, g: Single)
    requires
        x.finite(),
        nonneg(g),
    ensures
        nonneg(x.abs()),
        x.times(g).abs() == x.abs().times(g),
{
    reveal(crate::float::multiplied);
    lemma_times(x.abs(), g);
}

/// A factor of at most one does not make a number larger.
pub proof fn lemma_times_shrinks(x: Single, g: Single)
    requires
        nonneg(x),
        g.bits <= Single::one().bits,
    ensures
        x.times(g).bits <= x.bits,
{
    lemma_size_one();
    law_one_is_neutral(x);
    lemma_times_monotone(x, g, x, Single::one());
}

/// A number over a larger one is at most one.
pub proof fn lemma_over_larger(a: Single, b: Single)
    requires
        nonneg(a),
        nonneg(b),
        a.bits < b.bits,
    ensures
        a.over(b).bits <= Single::one().bits,
{
    lemma_size_one();
    lemma_over(a, b);
    lemma_size_order(a, b);
    let u: nat = pow2(149);
    lemma_pow2_pos(149);
    let n: nat = size(a) * u;
    assert(n * 1 <= u * size(b)) by (nonlinear_arith)
        requires
            n == size(a) * u,
            size(a) <= size(b),
    ;
    law_rounding_is_monotone(23, n, size(b), u, 1);
    lemma_round_representable(23, Single::one().bits as nat, u, 1);
}

/// Rounding adds at most one part in `2^24` and half a unit.
proof fn lemma_rounded_bound(n: nat, d: nat)
    requires
        d > 0,
    ensures
        0x100_0000 * (magnitude(23, round_magnitude(23, n, d)) * d) <= 0x100_0001 * n + 0x80_0000 * d,
{
    lemma2_to64();
    lemma2_to64_rest();
    lemma_round_up_error(23, n, d);
    assert(d * pow2(23) == 0x80_0000 * d) by (nonlinear_arith)
        requires
            pow2(23) == 0x80_0000,
    ;
    let m: int = (magnitude(23, round_magnitude(23, n, d)) * d) as int;
    let k: int = pow2(24) as int;
    assert(k * m == 0x100_0000 * m && k * n == 0x100_0000 * n) by (nonlinear_arith)
        requires
            k == 0x100_0000,
    ;
}

/// Two rounded products, of shares that add up to little more than `u`, and their rounded sum.
proof fn lemma_shares_bound(
    h: int,
    k: int,
    u: int,
    r: int,
    v: int,
    t: int,
    p: int,
    q: int,
    s: int,
)
    requires
        k == 2 * h,
        h >= 1,
        u > 0,
        t >= 0,
        k * (r + v) <= (k + 1) * u,
        k * (p * u) <= (k + 1) * (r * t) + h * u,
        k * (q * u) <= (k + 1) * (v * t) + h * u,
        k * s <= (k + 1) * (p + q) + h,
    ensures
        (k * k * k) * s <= ((k + 1) * (k + 1) * (k + 1)) * t + 2 * (k * k * k),
{
    let w: int = p + q;
    let j: int = k + 1;
    let x: int = r + v;
    assert(k * (w * u) <= j * (x * t) + k * u) by (nonlinear_arith)
        requires
            k == 2 * h,
            w == p + q,
            x == r + v,
            k * (p * u) <= j * (r * t) + h * u,
            k * (q * u) <= j * (v * t) + h * u,
    ;
    assert((k * x) * t <= (j * u) * t) by (nonlinear_arith)
        requires
            k * x <= j * u,
            t >= 0,
    ;
    assert((k * k) * (w * u) <= j * ((k * x) * t) + (k * k) * u) by (nonlinear_arith)
        requires
            k * (w * u) <= j * (x * t) + k * u,
            k > 0,
    ;
    assert((k * k) * (w * u) <= j * ((j * u) * t) + (k * k) * u) by (nonlinear_arith)
        requires
            (k * k) * (w * u) <= j * ((k * x) * t) + (k * k) * u,
            (k * x) * t <= (j * u) * t,
            j > 0,
    ;
    assert((k * k) * w <= (j * j) * t + k * k) by (nonlinear_arith)
        requires
            (k * k) * (w * u) <= j * ((j * u) * t) + (k * k) * u,
            u > 0,
    ;
    let kk: int = k * k;
    let y: int = (j * j) * t + kk;
    assert(kk >= k && kk > 0) by (nonlinear_arith)
        requires
            kk == k * k,
            k >= 2,
    ;
    assert(kk * (k * s) <= kk * (j * w + h)) by (nonlinear_arith)
        requires
            k * s <= j * w + h,
            kk > 0,
    ;
    assert(kk * (j * w + h) == j * (kk * w) + kk * h) by (nonlinear_arith);
    assert(j * (kk * w) <= j * y) by (nonlinear_arith)
        requires
            kk * w <= y,
            j > 0,
    ;
    assert(j * y == (j * j * j) * t + j * kk) by (nonlinear_arith)
        requires
            y == (j * j) * t + kk,
    ;
    assert(j * kk + kk * h <= 2 * (k * kk)) by (nonlinear_arith)
        requires
            j == k + 1,
            k == 2 * h,
            h >= 1,
            kk > 0,
    ;
    assert(kk * (k * s) == (k * k * k) * s) by (nonlinear_arith)
        requires
            kk == k * k,
    ;
    assert(k * kk == k * k * k) by (nonlinear_arith)
        requires
            kk == k * k,
    ;
}

/// `g` exceeds `t` by little: three parts in `2^24`, and two units.
pub open spec fn hardly_above(g: Single, t: Single) -> bool {
    let k: int = 0x100_0000;
    let j: int = 0x100_0001;
    (k * k * k) * size(g) <= (j * j * j) * size(t) + 2 * (k * k * k)
}

/// What is below a number that hardly exceeds another hardly exceeds it either.
pub proof fn lemma_hardly_above(g: Single, s: Single, t: Single)
    requires
        nonneg(g),
        nonneg(s),
        g.bits <= s.bits,
        s == t || hardly_above(s, t),
    ensures
        hardly_above(g, t),
{
    lemma_size_order(g, s);
    let k: int = 0x100_0000;
    let j: int = 0x100_0001;
    let kk: int = k * k * k;
    let jj: int = j * j * j;
    assert(0 < kk <= jj) by (nonlinear_arith)
        requires
            kk == k * k * k,
            jj == j * j * j,
            0 < k <= j,
    ;
    assert(kk * size(g) <= kk * size(s)) by (nonlinear_arith)
        requires
            kk > 0,
            size(g) <= size(s),
    ;
    assert(kk * size(s) <= jj * size(s)) by (nonlinear_arith)
        requires
            kk <= jj,
    ;
}

/// The two shares of one exceed it by at most one part in `2^24`.
proof fn lemma_shares_exceed(c: Single)
    requires
        c.bits <= Single::one().bits,
    ensures
        0x100_0000 * (size(c) + size(Single::one().minus(c))) <= 0x100_0001 * pow2(149),
{
    let one = Single::one();
    let u: int = pow2(149) as int;
    let k: int = 0x100_0000;
    let h: int = 0x80_0000;
    lemma2_to64();
    lemma2_to64_rest();
    lemma_size_one();
    lemma_size_order(c, one);
    lemma_minus(one, c);
    let v = one.minus(c);
    let rest: nat = (u - size(c)) as nat;
    lemma_round_up_error(23, rest, 1);
    assert(k * size(v) <= k * rest + u) by {
        let kk: int = pow2(24) as int;
        let m: int = (size(v) * 1) as int;
        assert(kk * m == k * size(v) && kk * rest == k * rest) by (nonlinear_arith)
            requires
                kk == k,
                m == size(v),
        ;
        assert(1 * pow2(23) == h);
    }
    assert(k * (size(c) + size(v)) <= (k + 1) * u) by (nonlinear_arith)
        requires
            k * size(v) <= k * rest + u,
            rest == u - size(c),
    ;
}

/// Smoothing hardly lifts a number that goes to itself.
pub proof fn lemma_smooth_lift(c: Single, t: Single)
    requires
        c.bits <= Single::one().bits,
        t.bits <= Single::one().bits,
    ensures
        hardly_above(smooth(c, t, t), t),
{
    let one = Single::one();
    let u: int = pow2(149) as int;
    let k: int = 0x100_0000;
    let h: int = 0x80_0000;
    lemma2_to64();
    lemma2_to64_rest();
    lemma_size_one();
    lemma_size_order(c, one);
    lemma_shares_of_one(c);
    let v = one.minus(c);
    lemma_shares_exceed(c);
    lemma_times(c, t);
    lemma_times(v, t);
    let p = c.times(t);
    let q = v.times(t);
    lemma_times_shrinks(t, c);
    lemma_times_shrinks(t, v);
    lemma_times_commutes(c, t);
    lemma_times_commutes(v, t);
    lemma_plus(p, q);
    lemma_rounded_bound(size(c) * size(t), pow2(149));
    lemma_rounded_bound(size(v) * size(t), pow2(149));
    lemma_rounded_bound(size(p) + size(q), 1);
    lemma_shares_bound(
        h,
        k,
        u,
        size(c) as int,
        size(v) as int,
        size(t) as int,
        size(p) as int,
        size(q) as int,
        size(smooth(c, t, t)) as int,
    );
}

/// The order of factors does not matter.
pub proof fn lemma_times_commutes(a: Single, b: Single)
    ensures
        a.times(b) == b.times(a),
{
    reveal(crate::float::multiplied);
    let x: nat = magnitude(23, a.word().mag as nat);
    let y: nat = magnitude(23, b.word().mag as nat);
    assert(x * y == y * x) by (nonlinear_arith);
}

/// From the bounds on a rounded quotient, on a gain that is little more than it, and on the
/// rounded product with that gain, to one on the product itself.
proof fn lemma_product_bound(h: int, k: int, u: int, c: int, x: int, t: int, g: int, y: int)
    requires
        k == 2 * h,
        h >= 32,
        u > 0,
        c >= 0,
        x >= 0,
        k * (t * x) <= (k + 1) * (c * u) + h * x,
        (k * k * k) * g <= ((k + 1) * (k + 1) * (k + 1)) * t + 2 * (k * k * k),
        k * (y * u) <= (k + 1) * (x * g) + h * u,
    ensures
        k * (y * u) <= (k + 8) * (c * u) + 4 * (k * x) + h * u,
{
    let j: int = k + 1;
    let k3: int = k * k * k;
    let j3: int = j * j * j;
    let cu: int = c * u;
    let xg: int = x * g;
    let tx: int = t * x;
    assert(cu >= 0) by (nonlinear_arith)
        requires
            cu == c * u,
            c >= 0,
            u > 0,
    ;
    assert(k3 > 0 && j3 > 0) by (nonlinear_arith)
        requires
            k3 == k * k * k,
            j3 == j * j * j,
            k > 0,
            j > 0,
    ;
    assert(j3 <= 2 * k3) by (nonlinear_arith)
        requires
            k3 == k * k * k,
            j3 == j * j * j,
            j == k + 1,
            k >= 64,
    ;
    assert(k3 * xg <= j3 * tx + 2 * (k3 * x)) by (nonlinear_arith)
        requires
            k3 * g <= j3 * t + 2 * k3,
            x >= 0,
            xg == x * g,
            tx == t * x,
    ;
    assert(j3 * (k * tx) <= j3 * (j * cu + h * x)) by (nonlinear_arith)
        requires
            k * tx <= j * cu + h * x,
            j3 > 0,
    ;
    assert(k * (k3 * xg) <= j3 * (k * tx) + 2 * (k * (k3 * x))) by (nonlinear_arith)
        requires
            k3 * xg <= j3 * tx + 2 * (k3 * x),
            k > 0,
    ;
    assert(j3 * (j * cu + h * x) == (j3 * j) * cu + (j3 * h) * x) by (nonlinear_arith);
    assert((j3 * h) * x <= (k * k3) * x) by (nonlinear_arith)
        requires
            j3 <= 2 * k3,
            k == 2 * h,
            h > 0,
            x >= 0,
    ;
    let k4: int = k * k3;
    assert(k4 > 0) by (nonlinear_arith)
        requires
            k4 == k * k3,
            k > 0,
            k3 > 0,
    ;
    assert(k * (k3 * xg) == k4 * xg && k * (k3 * x) == k4 * x) by (nonlinear_arith)
        requires
            k4 == k * k3,
    ;
    // so the product of sample and gain is bounded
    assert(k4 * xg <= (j3 * j) * cu + 3 * (k4 * x));
    assert(k4 * (k * (y * u)) <= k4 * (j * xg + h * u)) by (nonlinear_arith)
        requires
            k * (y * u) <= j * xg + h * u,
            k4 > 0,
    ;
    assert(k4 * (j * xg + h * u) == j * (k4 * xg) + k4 * (h * u)) by (nonlinear_arith);
    assert(j * (k4 * xg) <= j * ((j3 * j) * cu + 3 * (k4 * x))) by (nonlinear_arith)
        requires
            k4 * xg <= (j3 * j) * cu + 3 * (k4 * x),
            j > 0,
    ;
    assert(j * ((j3 * j) * cu + 3 * (k4 * x)) == (j3 * j * j) * cu + 3 * (j * (k4 * x)))
        by (nonlinear_arith);
    assert(3 * (j * (k4 * x)) <= k4 * (4 * (k * x))) by (nonlinear_arith)
        requires
            j == k + 1,
            k >= 64,
            k4 > 0,
            x >= 0,
    ;
    assert(j3 * j * j <= k4 * (k + 8)) by {
        lemma_fifth_power(k);
        assert(j3 * j * j == j * j * j * j * j) by (nonlinear_arith)
            requires
                j3 == j * j * j,
        ;
        assert(k4 * (k + 8) == k * k * k * k * (k + 8)) by (nonlinear_arith)
            requires
                k4 == k * (k * k * k),
        ;
    }
    assert((j3 * j * j) * cu <= k4 * ((k + 8) * cu)) by (nonlinear_arith)
        requires
            j3 * j * j <= k4 * (k + 8),
            cu >= 0,
    ;
    let right: int = (k + 8) * cu + 4 * (k * x) + h * u;
    assert(k4 * (k * (y * u)) <= k4 * right) by (nonlinear_arith)
        requires
            k4 * (k * (y * u)) <= k4 * ((k + 8) * cu) + k4 * (4 * (k * x)) + k4 * (h * u),
            right == (k + 8) * cu + 4 * (k * x) + h * u,
    ;
    assert(k * (y * u) <= right) by (nonlinear_arith)
        requires
            k4 * (k * (y * u)) <= k4 * right,
            k4 > 0,
    ;
}

proof fn lemma_fifth_power(k: int)
    requires
        k >= 64,
    ensures
        (k + 1) * (k + 1) * (k + 1) * (k + 1) * (k + 1) <= k * k * k * k * (k + 8),
{
    let j: int = k + 1;
    let k2: int = k * k;
    assert(j * j <= k2 + 3 * k) by (nonlinear_arith)
        requires
            j == k + 1,
            k2 == k * k,
            k >= 64,
    ;
    assert((j * j) * (j * j) <= (k2 + 3 * k) * (k2 + 3 * k)) by (nonlinear_arith)
        requires
            0 <= j * j <= k2 + 3 * k,
    ;
    assert((k2 + 3 * k) * (k2 + 3 * k) == k2 * (k2 + 6 * k + 9)) by (nonlinear_arith)
        requires
            k2 == k * k,
    ;
    assert(((j * j) * (j * j)) * j <= (k2 * (k2 + 6 * k + 9)) * j) by (nonlinear_arith)
        requires
            (j * j) * (j * j) <= k2 * (k2 + 6 * k + 9),
            j > 0,
    ;
    assert((k2 + 6 * k + 9) * j <= k2 * (k + 8)) by (nonlinear_arith)
        requires
            j == k + 1,
            k2 == k * k,
            k >= 64,
    ;
    assert(k2 * ((k2 + 6 * k + 9) * j) <= k2 * (k2 * (k + 8))) by (nonlinear_arith)
        requires
            (k2 + 6 * k + 9) * j <= k2 * (k + 8),
            k2 >= 0,
    ;
    assert((k2 * (k2 + 6 * k + 9)) * j == k2 * ((k2 + 6 * k + 9) * j)) by (nonlinear_arith);
    assert(((j * j) * (j * j)) * j == j * j * j * j * j) by (nonlinear_arith);
    assert(k2 * (k2 * (k + 8)) == k * k * k * k * (k + 8)) by (nonlinear_arith)
        requires
            k2 == k * k,
    ;
}

/// A number `x` times a gain that hardly exceeds `c / x` exceeds `c` by at most one
/// part in `2^21`, `2^-147` of the number, and half a unit.
pub proof fn lemma_limited(c: Single, x: Single, g: Single)
    requires
        nonneg(c),
        nonneg(x),
        c.bits < x.bits,
        g.bits <= Single::one().bits,
        hardly_above(g, c.over(x)),
    ensures
        0x20_0000 * (size(x.times(g)) * pow2(149)) <= 0x20_0001 * (size(c) * pow2(149)) + 0x80_0000
            * size(x) + 0x10_0000 * pow2(149),
{
    let u: int = pow2(149) as int;
    lemma_size_one();
    lemma_over_larger(c, x);
    lemma_over(c, x);
    lemma_times(x, g);
    lemma_rounded_bound(size(c) * pow2(149), size(x));
    lemma_rounded_bound(size(x) * size(g), pow2(149));
    let y: int = size(x.times(g)) as int;
    lemma_product_bound(
        0x80_0000,
        0x100_0000,
        u,
        size(c) as int,
        size(x) as int,
        size(c.over(x)) as int,
        size(g) as int,
        y,
    );
}

/// A sum that can be represented is exact.
pub proof fn law_exact_sum(a: Single, b: Single, c: Single)
    requires
        a.finite(),
        b.finite(),
        c.finite(),
        c.value() == a.value() + b.value(),
        c.value() != 0,
    ensures
        a.plus(b) == c,
{
    reveal(crate::float::added);
    let m: nat = magnitude(23, c.word().mag as nat);
    assert(m * 1 == m);
    lemma_round_representable(23, c.word().mag as nat, m, 1);
}

/// A difference that can be represented is exact.
pub proof fn law_exact_difference(a: Single, b: Single, c: Single)
    requires
        a.finite(),
        b.finite(),
        c.finite(),
        c.value() == a.value() - b.value(),
        c.value() != 0,
    ensures
        a.minus(b) == c,
{
    reveal(crate::float::added);
    let m: nat = magnitude(23, c.word().mag as nat);
    assert(m * 1 == m);
    lemma_round_representable(23, c.word().mag as nat, m, 1);
}

/// A product that can be represented is exact.
pub proof fn law_exact_product(a: Single, b: Single, c: Single)
    requires
        a.finite(),
        b.finite(),
        c.finite(),
        c.value() * pow2(149) == a.value() * b.value(),
        c.value() != 0,
    ensures
        a.times(b) == c,
{
    reveal(crate::float::multiplied);
    let x: int = a.value();
    let y: int = b.value();
    let z: int = c.value();
    let u: int = pow2(149) as int;
    lemma_pow2_pos(149);
    let p: int = magnitude(23, a.word().mag as nat) as int;
    let q: int = magnitude(23, b.word().mag as nat) as int;
    let m: int = magnitude(23, c.word().mag as nat) as int;
    lemma_signs(x, y, z, u, p, q, m);
    lemma_round_representable(23, c.word().mag as nat, (p * q) as nat, pow2(149));
}

/// A quotient that can be represented is exact.
pub proof fn law_exact_quotient(a: Single, b: Single, c: Single)
    requires
        a.finite(),
        b.finite(),
        c.finite(),
        b.value() != 0,
        c.value() * b.value() == a.value() * pow2(149),
        c.value() != 0,
    ensures
        a.over(b) == c,
{
    reveal(crate::float::divided);
    let x: int = a.value();
    let y: int = b.value();
    let z: int = c.value();
    let u: int = pow2(149) as int;
    lemma_pow2_pos(149);
    let p: int = magnitude(23, a.word().mag as nat) as int;
    let q: int = magnitude(23, b.word().mag as nat) as int;
    let m: int = magnitude(23, c.word().mag as nat) as int;
    lemma_signs(z, y, x, u, m, q, p);
    lemma_magnitude_zero(23, b.word().mag as nat);
    lemma_round_representable(23, c.word().mag as nat, (p * u) as nat, q as nat);
}

/// Signs and magnitudes of an equation between products.
proof fn lemma_signs(x: int, y: int, z: int, u: int, p: int, q: int, m: int)
    requires
        u > 0,
        p >= 0,
        q >= 0,
        m >= 0,
        x == p || x == -p,
        y == q || y == -q,
        z == m || z == -m,
        z * u == x * y,
        x != 0 || z != 0,
        y != 0 || z != 0,
    ensures
        m * u == p * q,
        z != 0,
        x != 0,
        y != 0,
        (z < 0) == ((x < 0) != (y < 0)),
{
    assert(x * y == p * q || x * y == -(p * q)) by (nonlinear_arith)
        requires
            x == p || x == -p,
            y == q || y == -q,
    ;
    assert(z * u == m * u || z * u == -(m * u)) by (nonlinear_arith)
        requires
            z == m || z == -m,
    ;
    assert(p * q >= 0 && m * u >= 0) by (nonlinear_arith)
        requires
            p >= 0,
            q >= 0,
            m >= 0,
            u > 0,
    ;
    assert(z == 0 ==> x * y == 0) by (nonlinear_arith)
        requires
            z * u == x * y,
    ;
    assert(x == 0 || y == 0 ==> z == 0) by (nonlinear_arith)
        requires
            z * u == x * y,
            u > 0,
    ;
    assert(x * y == 0 ==> x == 0 || y == 0) by (nonlinear_arith);
    assert((z < 0) == (z * u < 0)) by (nonlinear_arith)
        requires
            u > 0,
    ;
    assert(x != 0 && y != 0 ==> ((x * y < 0) == ((x < 0) != (y < 0)))) by (nonlinear_arith);
}

/// How far above `t` a number smoothed towards `t` may be, times `2^24` times one minus the
/// coefficient, both in units.
pub open spec fn drift(t: Single) -> nat {
    8 * (pow2(149) * size(t)) + 4 * (pow2(149) * 0x100_0000)
}

/// `x` exceeds `t` by no more than smoothing towards `t` with this coefficient can make it: eight
/// parts in `2^24` and four units, both over one minus the coefficient.
pub open spec fn hardly_drifted(c: Single, x: Single, t: Single) -> bool {
    (size(x) - size(t)) * (0x100_0000 * (pow2(149) - size(c))) <= drift(t)
}

/// From the bounds on a smoothing step to the bound on its drift.
proof fn lemma_drift_bound(
    h: int,
    k: int,
    u: int,
    r: int,
    v: int,
    x: int,
    t: int,
    p: int,
    q: int,
    s: int,
)
    requires
        k == 2 * h,
        h >= 32,
        u > 0,
        0 <= r <= u,
        0 <= x,
        0 <= t,
        0 <= v,
        k * (u - r) >= 8 * u,
        k * (r + v) <= (k + 1) * u,
        k * (p * u) <= (k + 1) * (r * x) + h * u,
        k * (q * u) <= (k + 1) * (v * t) + h * u,
        k * s <= (k + 1) * (p + q) + h,
        (x - t) * (k * (u - r)) <= 8 * (u * t) + 4 * (u * k),
    ensures
        (s - t) * (k * (u - r)) <= 8 * (u * t) + 4 * (u * k),
{
    let j: int = k + 1;
    let y: int = if x > t {
        x - t
    } else {
        0
    };
    let g: int = u - r;
    let w: int = p + q;
    let d: int = 8 * (u * t) + 4 * (u * k);
    assert(u * t >= 0 && u * k >= 0) by (nonlinear_arith)
        requires
            u > 0,
            t >= 0,
            k > 0,
    ;
    // one step, in terms of the excess before it
    assert(r * x <= r * t + r * y) by (nonlinear_arith)
        requires
            r >= 0,
            x <= t + y,
    ;
    assert(k * (w * u) <= j * (r * x + v * t) + k * u) by (nonlinear_arith)
        requires
            k == 2 * h,
            w == p + q,
            k * (p * u) <= j * (r * x) + h * u,
            k * (q * u) <= j * (v * t) + h * u,
    ;
    let share: int = r * t + v * t;
    assert(k * share <= j * (u * t)) by (nonlinear_arith)
        requires
            k * (r + v) <= j * u,
            share == r * t + v * t,
            t >= 0,
    ;
    let ry: int = r * y;
    assert(j * (r * x + v * t) <= j * (share + ry)) by (nonlinear_arith)
        requires
            r * x + v * t <= share + ry,
            j > 0,
    ;
    assert(k * (k * (w * u)) <= k * (j * (share + ry) + k * u)) by (nonlinear_arith)
        requires
            k * (w * u) <= j * (share + ry) + k * u,
            k > 0,
    ;
    assert(k * (j * (share + ry) + k * u) == j * (k * share) + j * (k * ry) + k * (k * u))
        by (nonlinear_arith);
    assert(j * (k * share) <= j * (j * (u * t))) by (nonlinear_arith)
        requires
            k * share <= j * (u * t),
            j > 0,
    ;
    let kk: int = k * k;
    let a: int = j * (j * (u * t)) + j * (k * ry) + kk * u;
    assert(kk * (w * u) <= a) by (nonlinear_arith)
        requires
            k * (k * (w * u)) <= j * (j * (u * t)) + j * (k * ry) + k * (k * u),
            a == j * (j * (u * t)) + j * (k * ry) + kk * u,
            kk == k * k,
    ;
    assert(kk > 0 && kk >= k) by (nonlinear_arith)
        requires
            kk == k * k,
            k >= 2,
    ;
    // K^3 S U <= (K+1) K^2 (P+Q) U + H K^2 U
    assert((kk * u) * (k * s) <= (kk * u) * (j * w + h)) by (nonlinear_arith)
        requires
            k * s <= j * w + h,
            kk > 0,
            u > 0,
    ;
    assert((kk * u) * (j * w + h) == j * (kk * (w * u)) + (kk * u) * h) by (nonlinear_arith);
    assert(j * (kk * (w * u)) <= j * a) by (nonlinear_arith)
        requires
            kk * (w * u) <= a,
            j > 0,
    ;
    let left: int = (kk * u) * (k * s);
    assert(left <= j * a + (kk * u) * h);
    lemma_drift_finish(h, k, u, r, t, y, s, g, d, left, a, ry);
}

proof fn lemma_drift_finish(
    h: int,
    k: int,
    u: int,
    r: int,
    t: int,
    y: int,
    s: int,
    g: int,
    d: int,
    left: int,
    a: int,
    ry: int,
)
    requires
        k == 2 * h,
        h >= 32,
        u > 0,
        0 <= r <= u,
        0 <= t,
        0 <= y,
        g == u - r,
        k * g >= 8 * u,
        d == 8 * (u * t) + 4 * (u * k),
        y * (k * g) <= d || y == 0,
        ry == r * y,
        left == ((k * k) * u) * (k * s),
        a == (k + 1) * ((k + 1) * (u * t)) + (k + 1) * (k * ry) + (k * k) * u,
        left <= (k + 1) * a + ((k * k) * u) * h,
    ensures
        (s - t) * (k * g) <= d,
{
    let j: int = k + 1;
    let kk: int = k * k;
    let kg: int = k * g;
    let ut: int = u * t;
    let k3: int = kk * k;
    assert(ut >= 0 && u * k > 0 && d >= 0) by (nonlinear_arith)
        requires
            ut == u * t,
            u > 0,
            t >= 0,
            k > 0,
            d == 8 * ut + 4 * (u * k),
    ;
    assert(y * kg <= d) by {
        if y == 0 {
            assert(0 * kg == 0) by (nonlinear_arith);
        }
    }
    assert(kk > 0 && k3 > 0) by (nonlinear_arith)
        requires
            kk == k * k,
            k3 == kk * k,
            k > 0,
    ;
    // (K+1)^3 <= K^3 + 4 K^2, and (K+1) K^2 + H K^2 <= 2 K^3
    let j3: int = j * j * j;
    assert(j3 <= k3 + 4 * kk) by (nonlinear_arith)
        requires
            j == k + 1,
            j3 == j * j * j,
            kk == k * k,
            k3 == kk * k,
            k >= 64,
    ;
    let a1: int = j * (j * ut);
    let a2: int = j * (k * ry);
    let a3: int = kk * u;
    assert(j * a == j * a1 + j * a2 + j * a3) by (nonlinear_arith)
        requires
            a == a1 + a2 + a3,
    ;
    assert(j * (j * (j * ut)) == j3 * ut) by (nonlinear_arith)
        requires
            j3 == j * j * j,
    ;
    assert(j * (j * (k * ry)) == (j * j * k) * ry) by (nonlinear_arith);
    assert(j * (kk * u) == (j * kk) * u) by (nonlinear_arith);
    assert(j3 * ut <= (k3 + 4 * kk) * ut) by (nonlinear_arith)
        requires
            j3 <= k3 + 4 * kk,
            ut >= 0,
    ;
    assert((j * kk) * u + (kk * u) * h <= 2 * (k3 * u)) by (nonlinear_arith)
        requires
            j == k + 1,
            k == 2 * h,
            k3 == kk * k,
            kk > 0,
            u > 0,
            h >= 32,
    ;
    assert((k3 + 4 * kk) * ut == k3 * ut + 4 * (kk * ut)) by (nonlinear_arith);
    assert(left == (k3 * u) * s) by (nonlinear_arith)
        requires
            left == (kk * u) * (k * s),
            k3 == kk * k,
    ;
    let e: int = s - t;
    assert((k3 * u) * s == (k3 * u) * e + k3 * ut) by (nonlinear_arith)
        requires
            e == s - t,
            ut == u * t,
    ;
    assert((k3 * u) * e <= 4 * (kk * ut) + (j * j * k) * ry + 2 * (k3 * u));
    // times K G
    assert(kg > 0) by {
        assert(8 * u > 0);
    }
    let b: int = 4 * (kk * ut) + (j * j * k) * ry + 2 * (k3 * u);
    assert(((k3 * u) * e) * kg <= b * kg) by (nonlinear_arith)
        requires
            (k3 * u) * e <= b,
            kg > 0,
    ;
    assert(b * kg == (4 * (kk * ut)) * kg + ((j * j * k) * ry) * kg + (2 * (k3 * u)) * kg)
        by (nonlinear_arith)
        requires
            b == 4 * (kk * ut) + (j * j * k) * ry + 2 * (k3 * u),
    ;
    assert(((j * j * k) * ry) * kg <= (j * j * k) * (r * d)) by (nonlinear_arith)
        requires
            ry == r * y,
            y * kg <= d,
            r >= 0,
            j > 0,
            k > 0,
    ;
    // K^2 U - (K+1)^2 R >= K^2 G - 3 K U >= K^2 G / 2
    let m: int = kk * u - (j * j) * r;
    assert(2 * m >= k * kg) by (nonlinear_arith)
        requires
            m == kk * u - (j * j) * r,
            kk == k * k,
            j == k + 1,
            kg == k * (u - r),
            kg >= 8 * u,
            0 <= r <= u,
            u > 0,
            k >= 64,
    ;
    assert((k * d) * (2 * m) >= (k * d) * (k * kg)) by (nonlinear_arith)
        requires
            2 * m >= k * kg,
            k > 0,
            d >= 0,
    ;
    assert((k * d) * (k * kg) == (8 * (kk * ut)) * kg + (4 * (k3 * u)) * kg) by (nonlinear_arith)
        requires
            d == 8 * ut + 4 * (u * k),
            kk == k * k,
            k3 == kk * k,
    ;
    let kd: int = k * d;
    let ku: int = kk * u;
    let jr: int = (j * j) * r;
    assert(kd * (2 * m) == 2 * (kd * ku) - 2 * (kd * jr)) by (nonlinear_arith)
        requires
            m == ku - jr,
    ;
    assert((k * d) * (kk * u) == ((kk * k) * u) * d) by (nonlinear_arith);
    assert((k * d) * ((j * j) * r) == (j * j * k) * (r * d)) by (nonlinear_arith);
    assert((4 * (kk * ut)) * kg * 2 == (8 * (kk * ut)) * kg) by (nonlinear_arith);
    assert((2 * (k3 * u)) * kg * 2 == (4 * (k3 * u)) * kg) by (nonlinear_arith);
    assert(((k3 * u) * e) * kg <= (k3 * u) * d);
    let c: int = k3 * u;
    assert(c > 0) by (nonlinear_arith)
        requires
            c == k3 * u,
            k3 > 0,
            u > 0,
    ;
    assert(e * kg <= d) by (nonlinear_arith)
        requires
            (c * e) * kg <= c * d,
            c > 0,
    ;
}

/// One more smoothing step towards `t` keeps the drift within its bound.
pub proof fn lemma_drift_step(c: Single, x: Single, t: Single)
    requires
        c.bits <= Single::one().bits,
        x.bits <= Single::one().bits,
        t.bits <= Single::one().bits,
        0x100_0000 * (pow2(149) - size(c)) >= 8 * pow2(149),
        hardly_drifted(c, x, t),
    ensures
        hardly_drifted(c, smooth(c, x, t), t),
{
    let one = Single::one();
    let u: int = pow2(149) as int;
    let k: int = 0x100_0000;
    let h: int = 0x80_0000;
    lemma_size_one();
    lemma_size_order(c, one);
    lemma_shares_of_one(c);
    lemma_shares_exceed(c);
    let v = one.minus(c);
    lemma_times(c, x);
    lemma_times(v, t);
    let p = c.times(x);
    let q = v.times(t);
    lemma_times_shrinks(x, c);
    lemma_times_shrinks(t, v);
    lemma_times_commutes(c, x);
    lemma_times_commutes(v, t);
    lemma_plus(p, q);
    lemma_rounded_bound(size(c) * size(x), pow2(149));
    lemma_rounded_bound(size(v) * size(t), pow2(149));
    lemma_rounded_bound(size(p) + size(q), 1);
    lemma_drift_bound(
        h,
        k,
        u,
        size(c) as int,
        size(v) as int,
        size(x) as int,
        size(t) as int,
        size(p) as int,
        size(q) as int,
        size(smooth(c, x, t)) as int,
    );
}

} // verus!
