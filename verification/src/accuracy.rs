//! How far single-precision results may be from the exact ones, as real numbers.
use vstd::arithmetic::power2::{lemma2_to64, lemma2_to64_rest, pow2};
use vstd::prelude::*;

use crate::arith::lemma_pow2_sum;
use crate::nearest::{
    law_rounding_is_monotone, lemma_magnitude_of_parts, lemma_round_parts,
    lemma_round_representable, miss,
};
use crate::rounding::{binade, lemma_magnitude_zero, magnitude, round_magnitude};
use crate::single::Single;

verus! {

/// The amount of a real number.
pub open spec fn norm(x: real) -> real {
    if x >= 0 as real {
        x
    } else {
        -x
    }
}

/// The value of a finite number.
#[verifier::opaque]
pub open spec fn exact(x: Single) -> real {
    x.value() as real / pow2(149) as real
}

/// The largest relative error of one rounding: one part in `2^24`.
#[verifier::opaque]
pub open spec fn eps() -> real {
    1 as real / 0x100_0000 as real
}

/// The largest error of rounding what is too small for a relative one: half the smallest positive
/// number.
#[verifier::opaque]
pub open spec fn tiny() -> real {
    1 as real / (2 as real * pow2(149) as real)
}

/// What no sum or product may exceed here, so that none becomes infinite.
#[verifier::opaque]
pub open spec fn large() -> real {
    pow2(127) as real
}

/// Rounding moves what does not become infinite by at most one part in `2^24`, or by half a unit.
pub proof fn lemma_round_error(n: nat, d: nat)
    requires
        d > 0,
        round_magnitude(23, n, d) < 0x7f80_0000,
    ensures
        0x100_0000 * miss(magnitude(23, round_magnitude(23, n, d)) as int, n, d) <= n || 2 * miss(
            magnitude(23, round_magnitude(23, n, d)) as int,
            n,
            d,
        ) <= d,
{
    lemma2_to64();
    lemma2_to64_rest();
    lemma_round_parts(23, n, d);
    let e: nat = binade(23, n, d);
    let far: int = miss(magnitude(23, round_magnitude(23, n, d)) as int, n, d);
    if e > 0 {
        lemma_pow2_sum(23, e);
        assert(0x100_0000 * far <= n) by (nonlinear_arith)
            requires
                2 * far <= d * pow2(e),
                d * pow2(23 + e) <= n,
                pow2(23 + e) == 0x80_0000 * pow2(e),
        ;
    } else {
        assert(d * 1 == d);
    }
}

/// What is not too large does not become infinite.
proof fn lemma_round_stays_finite(n: nat, d: nat)
    requires
        d > 0,
        n <= pow2(276) * d,
    ensures
        round_magnitude(23, n, d) < 0x7f80_0000,
{
    lemma2_to64();
    lemma2_to64_rest();
    lemma_magnitude_of_parts(23, 253, 0x80_0000);
    lemma_pow2_sum(23, 253);
    lemma_round_representable(23, 0x7f00_0000, pow2(276), 1);
    assert(n * 1 <= pow2(276) * d);
    law_rounding_is_monotone(23, n, d, pow2(276), 1);
}

/// The product of whole numbers, as a real number.
pub proof fn lemma_real_product(x: int, y: int)
    ensures
        (x * y) as real == x as real * y as real,
{
    assert((x * y) as real == x as real * y as real) by (nonlinear_arith);
}

/// Factors may be grouped as one likes.
pub proof fn lemma_group(x: real, y: real, z: real)
    ensures
        x * (y * z) == (x * y) * z,
        x * (y * z) == (x * z) * y,
        (x * y) * z == (x * z) * y,
{
    assert(x * (y * z) == (x * y) * z) by (nonlinear_arith);
    assert(y * z == z * y) by (nonlinear_arith);
    assert(x * (z * y) == (x * z) * y) by (nonlinear_arith);
}

/// A factor may be multiplied in.
pub proof fn lemma_spread(x: real, y: real, z: real)
    ensures
        (x - y) * z == x * z - y * z,
        (x + y) * z == x * z + y * z,
        z * (x - y) == z * x - z * y,
        z * (x + y) == z * x + z * y,
{
    assert((x - y) * z == x * z - y * z) by (nonlinear_arith);
    assert((x + y) * z == x * z + y * z) by (nonlinear_arith);
    assert(z * (x - y) == z * x - z * y) by (nonlinear_arith);
    assert(z * (x + y) == z * x + z * y) by (nonlinear_arith);
}

/// A larger factor gives a larger product.
pub proof fn lemma_factor_grows(x: real, y: real, m: real)
    requires
        x <= y,
        m >= 0 as real,
    ensures
        x * m <= y * m,
        m * x <= m * y,
{
    assert(x * m <= y * m) by (nonlinear_arith)
        requires
            x <= y,
            m >= 0 as real,
    ;
    assert(m * x == x * m && m * y == y * m) by (nonlinear_arith);
}

/// The amount of a product is the product of the amounts.
pub proof fn lemma_norm_product(x: real, y: real)
    ensures
        norm(x * y) == norm(x) * norm(y),
        norm(x) >= 0 as real,
{
    lemma_opposite_factors(x, y);
    let p: real = norm(x);
    let q: real = norm(y);
    assert(p * q >= 0 as real) by (nonlinear_arith)
        requires
            p >= 0 as real,
            q >= 0 as real,
    ;
}

proof fn lemma_opposite_factors(x: real, y: real)
    ensures
        (-x) * y == -(x * y),
        x * (-y) == -(x * y),
        (-x) * (-y) == x * y,
{
    assert((-x) * y == -(x * y)) by (nonlinear_arith);
    assert(x * (-y) == -(x * y)) by (nonlinear_arith);
    assert((-x) * (-y) == x * y) by (nonlinear_arith);
}

proof fn lemma_square_out(x: real, y: real, u: real)
    ensures
        (x * y) * (u * u) == (x * u) * (y * u),
{
    assert((x * y) * (u * u) == (x * u) * (y * u)) by (nonlinear_arith);
}

/// A value is that many units.
pub proof fn lemma_exact(x: Single)
    ensures
        pow2(149) as real > 0x1_0000_0000 as real,
        exact(x) * (pow2(149) as real) == x.value() as real,
{
    reveal(exact);
    crate::numeric::lemma_size_one();
    let u: real = pow2(149) as real;
    let v: real = x.value() as real;
    assert((v / u) * u == v) by (nonlinear_arith)
        requires
            u > 0 as real,
    ;
}

/// From a rounding error counted in units to one counted in values, where `f` is the exact
/// result, `p` the rounded one, and both are counted in `w`-ths.
proof fn lemma_error_in_values(p: real, f: real, w: real, u: real, far: real, n: real)
    requires
        w > 0 as real,
        u > 0 as real,
        norm(f) * w == n,
        norm(p - f) * w == far,
        0x100_0000 as real * far <= n || 2 as real * (far * u) <= w,
    ensures
        norm(p - f) <= eps() * norm(f) || norm(p - f) <= 1 as real / (2 as real * u),
{
    reveal(eps);
    let g: real = norm(p - f);
    let h: real = norm(f);
    let k: real = 0x100_0000 as real;
    if k * far <= n {
        assert(k * g <= h) by (nonlinear_arith)
            requires
                k * far <= n,
                h * w == n,
                g * w == far,
                w > 0 as real,
        ;
        assert(g <= (1 as real / k) * h) by (nonlinear_arith)
            requires
                k * g <= h,
                k == 0x100_0000 as real,
        ;
    } else {
        assert(2 as real * u * g <= 1 as real) by (nonlinear_arith)
            requires
                2 as real * (far * u) <= w,
                g * w == far,
                w > 0 as real,
        ;
        assert(g <= 1 as real / (2 as real * u)) by (nonlinear_arith)
            requires
                2 as real * u * g <= 1 as real,
                u > 0 as real,
        ;
    }
}

/// A product is accurate to one part in `2^24`, or to half a unit.
pub proof fn lemma_times_error(a: Single, b: Single)
    requires
        a.finite(),
        b.finite(),
        norm(exact(a) * exact(b)) <= large(),
    ensures
        a.times(b).finite(),
        norm(exact(a.times(b)) - exact(a) * exact(b)) <= eps() * norm(exact(a) * exact(b)) || norm(
            exact(a.times(b)) - exact(a) * exact(b),
        ) <= tiny(),
{
    reveal(crate::float::multiplied);
    reveal(large);
    reveal(tiny);
    let u: nat = pow2(149);
    let ur: real = u as real;
    let x: nat = magnitude(23, a.word().mag as nat);
    let y: nat = magnitude(23, b.word().mag as nat);
    let n: nat = x * y;
    let p = a.times(b);
    lemma_exact(a);
    lemma_exact(b);
    lemma_exact(p);
    let ea: real = exact(a);
    let eb: real = exact(b);
    let f: real = ea * eb;
    lemma_real_product(x as int, y as int);
    assert(norm(f) * (ur * ur) == n as real) by {
        let av: real = a.value() as real;
        let bv: real = b.value() as real;
        lemma_square_out(ea, eb, ur);
        let xr: real = x as real;
        let yr: real = y as real;
        lemma_opposite_factors(xr, yr);
        assert(xr * yr >= 0 as real) by (nonlinear_arith)
            requires
                xr >= 0 as real,
                yr >= 0 as real,
        ;
        lemma_norm_product(f, ur * ur);
        assert(ur * ur > 0 as real) by (nonlinear_arith)
            requires
                ur > 0 as real,
        ;
    }
    // not too large
    lemma_pow2_sum(127, 149);
    assert(n <= pow2(276) * u) by {
        let t: real = pow2(127) as real;
        lemma_real_product(pow2(127) as int, u as int);
        lemma_real_product(pow2(276) as int, u as int);
        assert(ur * ur > 0 as real) by (nonlinear_arith)
            requires
                ur > 0 as real,
        ;
        lemma_factor_grows(norm(f), t, ur * ur);
        lemma_group(t, ur, ur);
        assert((n as real) <= (pow2(276) * u) as real);
    }
    lemma_round_stays_finite(n, u);
    lemma_round_error(n, u);
    let r: nat = round_magnitude(23, n, u);
    let m: int = magnitude(23, r) as int;
    let far: int = miss(m, n, u);
    assert(p.finite());
    assert(p.value() == m || p.value() == -m);
    lemma_real_product(m, u as int);
    // the signs agree
    assert(norm(exact(p) - f) * (ur * ur) == far as real) by {
        lemma_product_miss(a, b, m, n);
        let pv: real = p.value() as real;
        let fv: real = (a.value() * b.value()) as real;
        lemma_real_product(a.value(), b.value());
        lemma_real_product(p.value(), u as int);
        lemma_spread(exact(p), f, ur * ur);
        lemma_group(exact(p), ur, ur);
        lemma_square_out(ea, eb, ur);
        assert((exact(p) - f) * (ur * ur) == pv * ur - fv);
        lemma_norm_product(exact(p) - f, ur * ur);
        assert(ur * ur > 0 as real) by (nonlinear_arith)
            requires
                ur > 0 as real,
        ;
    }
    let w: real = ur * ur;
    assert(w > 0 as real) by (nonlinear_arith)
        requires
            w == ur * ur,
            ur > 0 as real,
    ;
    if 2 * far <= u {
        lemma_factor_grows(2 as real * far as real, ur, ur);
        lemma_group(2 as real, far as real, ur);
    }
    lemma_error_in_values(exact(p), f, w, ur, far as real, n as real);
}

/// How far a product is from the exact one, in units.
proof fn lemma_product_miss(a: Single, b: Single, m: int, n: nat)
    requires
        a.finite(),
        b.finite(),
        a.times(b).finite(),
        n == magnitude(23, a.word().mag as nat) * magnitude(23, b.word().mag as nat),
        m == magnitude(23, a.times(b).word().mag as nat),
        a.times(b).word().neg == (a.word().neg != b.word().neg),
    ensures
        ({
            let s = a.times(b).value() * pow2(149) - a.value() * b.value();
            miss(m, n, pow2(149)) == s || miss(m, n, pow2(149)) == -s
        }),
{
    let x: int = magnitude(23, a.word().mag as nat) as int;
    let y: int = magnitude(23, b.word().mag as nat) as int;
    let u: int = pow2(149) as int;
    assert((-x) * y == -(x * y) && x * (-y) == -(x * y) && (-x) * (-y) == x * y && (-m) * u == -(m
        * u)) by (nonlinear_arith);
}

/// A sum is accurate to one part in `2^24`.
pub proof fn lemma_plus_error(a: Single, b: Single)
    requires
        a.finite(),
        b.finite(),
        norm(exact(a) + exact(b)) <= large(),
    ensures
        a.plus(b).finite(),
        norm(exact(a.plus(b)) - (exact(a) + exact(b))) <= eps() * norm(exact(a) + exact(b)),
{
    reveal(crate::float::added);
    reveal(large);
    reveal(eps);
    let u: nat = pow2(149);
    let ur: real = u as real;
    let p = a.plus(b);
    let s: int = a.value() + b.value();
    let n: nat = if s >= 0 {
        s as nat
    } else {
        (-s) as nat
    };
    lemma_exact(a);
    lemma_exact(b);
    lemma_exact(p);
    let f: real = exact(a) + exact(b);
    lemma_spread(exact(a), exact(b), ur);
    assert(f * ur == s as real);
    lemma_norm_product(f, ur);
    assert(norm(f) * ur == n as real);
    lemma_pow2_sum(127, 149);
    assert(n <= pow2(276) * 1) by {
        let t: real = pow2(127) as real;
        lemma_real_product(pow2(127) as int, u as int);
        lemma_factor_grows(norm(f), t, ur);
        assert((n as real) <= pow2(276) as real);
    }
    lemma_round_stays_finite(n, 1);
    lemma_round_error(n, 1);
    let m: int = magnitude(23, round_magnitude(23, n, 1)) as int;
    assert(m * 1 == m);
    let far: int = miss(m, n, 1);
    lemma_magnitude_zero(23, 0);
    if s == 0 {
        lemma_round_representable(23, 0, 0, 1);
    }
    assert(p.finite());
    assert(p.value() == if s >= 0 {
        m
    } else {
        -m
    });
    let pv: real = p.value() as real;
    lemma_spread(exact(p), f, ur);
    assert((exact(p) - f) * ur == pv - s as real);
    lemma_norm_product(exact(p) - f, ur);
    assert(norm(exact(p) - f) * ur == far as real);
    let g: real = norm(exact(p) - f);
    let h: real = norm(f);
    let k: real = 0x100_0000 as real;
    assert(0x100_0000 * far <= n);
    assert(k * g <= h) by (nonlinear_arith)
        requires
            k * far as real <= n as real,
            h * ur == n as real,
            g * ur == far as real,
            ur > 0 as real,
    ;
    assert(g <= (1 as real / k) * h) by (nonlinear_arith)
        requires
            k * g <= h,
            k == 0x100_0000 as real,
    ;
}

/// The opposite number has the opposite value.
pub proof fn lemma_negated_exact(a: Single)
    requires
        a.finite(),
    ensures
        a.negated().finite(),
        exact(a.negated()) == -exact(a),
{
    lemma_exact(a);
    lemma_exact(a.negated());
    let u: real = pow2(149) as real;
    assert(a.negated().value() == -a.value());
    assert(exact(a.negated()) == -exact(a)) by (nonlinear_arith)
        requires
            exact(a) * u == a.value() as real,
            exact(a.negated()) * u == -(a.value() as real),
            u > 0 as real,
    ;
}

/// A difference is accurate to one part in `2^24`.
pub proof fn lemma_minus_error(a: Single, b: Single)
    requires
        a.finite(),
        b.finite(),
        norm(exact(a) - exact(b)) <= large(),
    ensures
        a.minus(b).finite(),
        norm(exact(a.minus(b)) - (exact(a) - exact(b))) <= eps() * norm(exact(a) - exact(b)),
{
    lemma_negated_exact(b);
    assert(a.minus(b) == a.plus(b.negated())) by {
        reveal(crate::float::added);
    }
    lemma_plus_error(a, b.negated());
}

/// The relative error, multiplied out.
pub proof fn lemma_eps(x: real)
    ensures
        0x100_0000 as real * (eps() * x) == x,
{
    reveal(eps);
    let k: real = 0x100_0000 as real;
    let e: real = eps();
    assert(k * e == 1 as real);
    assert(k * (e * x) == (k * e) * x) by (nonlinear_arith);
}

/// The share of a coefficient between zero and one.
pub proof fn lemma_share(c: Single)
    requires
        c.bits <= Single::one().bits,
    ensures
        c.finite(),
        0 as real <= exact(c) <= 1 as real,
        exact(Single::one()) == 1 as real,
{
    let one = Single::one();
    crate::numeric::lemma_size_one();
    crate::numeric::lemma_size_order(c, one);
    crate::numeric::lemma_size_order(one, one);
    lemma_exact(c);
    lemma_exact(one);
    let u: real = pow2(149) as real;
    let e: real = exact(c);
    let f: real = exact(one);
    assert(f == 1 as real) by (nonlinear_arith)
        requires
            f * u == u,
            u > 0 as real,
    ;
    let v: real = c.value() as real;
    assert(0 as real <= e <= 1 as real) by (nonlinear_arith)
        requires
            e * u == v,
            0 as real <= v <= u,
            u > 0 as real,
    ;
}

/// Numbers without a minus sign are ordered as their bits are.
pub proof fn lemma_exact_order(a: Single, b: Single)
    requires
        crate::numeric::nonneg(a),
        crate::numeric::nonneg(b),
        a.bits <= b.bits,
    ensures
        0 as real <= exact(a) <= exact(b),
{
    crate::numeric::lemma_size_order(a, b);
    crate::numeric::lemma_size_order(b, a);
    lemma_exact(a);
    lemma_exact(b);
    let u: real = pow2(149) as real;
    let x: real = exact(a);
    let y: real = exact(b);
    assert(x >= 0 as real) by (nonlinear_arith)
        requires
            x * u >= 0 as real,
            u > 0 as real,
    ;
    assert(x <= y) by (nonlinear_arith)
        requires
            x * u <= y * u,
            u > 0 as real,
    ;
}

/// The bounds are in order.
pub proof fn lemma_limits()
    ensures
        large() >= 0x1_0000_0000 as real,
        tiny() > 0 as real,
        tiny() <= 1 as real,
        0x1_0000_0000 as real * tiny() <= 1 as real,
{
    reveal(large);
    reveal(tiny);
    lemma2_to64();
    lemma2_to64_rest();
    crate::arith::lemma_pow2_monotone(63, 127);
    crate::numeric::lemma_size_one();
    let u: real = 2 as real * pow2(149) as real;
    let t: real = 1 as real / u;
    assert(t * u == 1 as real) by (nonlinear_arith)
        requires
            t == 1 as real / u,
            u > 0 as real,
    ;
    let b: real = 0x1_0000_0000 as real;
    assert(t > 0 as real) by (nonlinear_arith)
        requires
            t * u == 1 as real,
            u > 0 as real,
    ;
    assert(b * t < 1 as real) by (nonlinear_arith)
        requires
            t * u == 1 as real,
            u > b,
            t > 0 as real,
    ;
}

/// A quotient times what it was divided by.
pub proof fn lemma_quotient(p: real, q: real)
    requires
        q != 0 as real,
    ensures
        (p / q) * q == p,
{
    let r: real = p / q;
    assert(r * q == p) by (nonlinear_arith)
        requires
            r == p / q,
            q != 0 as real,
    ;
}

/// How far a quotient `p` of whole numbers of units is from the exact one `f`, where the signs are
/// taken off in `m`, `y` and `x`.
proof fn lemma_quotient_miss(
    p: real,
    f: real,
    u: real,
    m: real,
    y: real,
    x: real,
    minus_a: bool,
    minus_b: bool,
)
    requires
        u > 0 as real,
        y > 0 as real,
        p * u == if minus_a != minus_b {
            -m
        } else {
            m
        },
        f * (if minus_b {
            -y
        } else {
            y
        }) == if minus_a {
            -x
        } else {
            x
        },
    ensures
        norm(p - f) * (y * u) == norm(m * y - x * u),
{
    let b: real = if minus_b {
        -y
    } else {
        y
    };
    let a: real = if minus_a {
        -x
    } else {
        x
    };
    let pv: real = p * u;
    let bu: real = b * u;
    lemma_spread(p, f, bu);
    lemma_group(p, b, u);
    lemma_group(f, b, u);
    assert((p - f) * bu == pv * b - a * u);
    lemma_norm_product(p - f, bu);
    lemma_norm_product(b, u);
    assert(norm(bu) == y * u);
    lemma_opposite_factors(m, y);
    lemma_opposite_factors(x, u);
    if minus_a {
        if minus_b {
            assert(pv * b - a * u == -(m * y) + x * u);
        } else {
            assert(pv * b - a * u == -(m * y) + x * u);
        }
    } else {
        if minus_b {
            assert(pv * b - a * u == m * y - x * u);
        } else {
            assert(pv * b - a * u == m * y - x * u);
        }
    }
}

/// A quotient is accurate to one part in `2^24`, or to half a unit.
pub proof fn lemma_over_error(a: Single, b: Single)
    requires
        a.finite(),
        b.finite(),
        exact(b) != 0 as real,
        norm(exact(a) / exact(b)) <= large(),
    ensures
        a.over(b).finite(),
        norm(exact(a.over(b)) - exact(a) / exact(b)) <= eps() * norm(exact(a) / exact(b)) || norm(
            exact(a.over(b)) - exact(a) / exact(b),
        ) <= tiny(),
{
    let u: nat = pow2(149);
    let ur: real = u as real;
    let x: nat = magnitude(23, a.word().mag as nat);
    let y: nat = magnitude(23, b.word().mag as nat);
    let n: nat = x * u;
    let p = a.over(b);
    let ea: real = exact(a);
    let eb: real = exact(b);
    let f: real = ea / eb;
    let xr: real = x as real;
    let yr: real = y as real;
    let w: real = yr * ur;
    let av: real = a.value() as real;
    let bv: real = b.value() as real;
    lemma_exact(a);
    lemma_exact(b);
    lemma_exact(p);
    assert(y > 0) by {
        if y == 0 {
            assert(eb == 0 as real) by (nonlinear_arith)
                requires
                    eb * ur == 0 as real,
                    ur > 0 as real,
            ;
        }
    }
    lemma_magnitude_zero(23, b.word().mag as nat);
    lemma_quotient(ea, eb);
    lemma_group(f, eb, ur);
    assert(f * bv == av);
    lemma_norm_product(f, bv);
    lemma_group(norm(f), yr, ur);
    lemma_real_product(x as int, u as int);
    assert(norm(f) * w == n as real);
    assert(w > 0 as real) by (nonlinear_arith)
        requires
            w == yr * ur,
            yr > 0 as real,
            ur > 0 as real,
    ;
    // not too large
    assert(n <= pow2(276) * y) by {
        reveal(large);
        let t: real = pow2(127) as real;
        lemma_pow2_sum(127, 149);
        lemma_real_product(pow2(127) as int, u as int);
        lemma_real_product(pow2(276) as int, y as int);
        lemma_factor_grows(norm(f), t, w);
        lemma_group(t, yr, ur);
        assert((n as real) <= (pow2(276) * y) as real);
    }
    lemma_round_stays_finite(n, y);
    lemma_round_error(n, y);
    let m: int = magnitude(23, round_magnitude(23, n, y)) as int;
    let far: int = miss(m, n, y);
    lemma_quotient_word(a, b);
    lemma_real_product(m, y as int);
    lemma_quotient_miss(
        exact(p),
        f,
        ur,
        m as real,
        yr,
        xr,
        a.word().neg,
        b.word().neg,
    );
    assert(norm(exact(p) - f) * w == far as real);
    if 2 * far <= y {
        lemma_factor_grows(2 as real * far as real, yr, ur);
        lemma_group(2 as real, far as real, ur);
    }
    lemma_error_in_values(exact(p), f, w, ur, far as real, n as real);
    reveal(tiny);
}

/// Sign and magnitude of a quotient of finite numbers.
proof fn lemma_quotient_word(a: Single, b: Single)
    requires
        a.finite(),
        b.finite(),
        b.word().mag != 0,
    ensures
        ({
            let x = magnitude(23, a.word().mag as nat);
            let y = magnitude(23, b.word().mag as nat);
            let p = a.over(b);
            &&& p.word().neg == (a.word().neg != b.word().neg)
            &&& p.word().mag == round_magnitude(23, x * pow2(149), y)
        }),
{
    reveal(crate::float::divided);
}

} // verus!
