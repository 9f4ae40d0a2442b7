//! Binary floating-point magnitudes and correct rounding.
//!
//! A layout is known by its number `w` of fraction bits: 23 for single and 52 for double
//! precision. Every finite magnitude of a layout is a whole number of its smallest positive
//! magnitude, so exact values are natural numbers here, counted in that unit.
use vstd::arithmetic::div_mod::{lemma_div_pos_is_pos, lemma_fundamental_div_mod};
use vstd::arithmetic::power2::{lemma2_to64, lemma2_to64_rest, lemma_pow2_pos, pow2};
use vstd::prelude::*;

use crate::arith::{
    bit_length, lemma_div_div, lemma_div_scale, lemma_div_unique, lemma_pow2_double,
    lemma_pow2_monotone, lemma_pow2_sum, shl, shr,
};

verus! {

/// The two layouts: single (23 fraction bits) and double precision (52).
pub open spec fn is_layout(w: nat) -> bool {
    w == 23 || w == 52
}

/// The bits of infinity, without the sign; smaller words are finite, larger ones are not
/// numbers.
pub open spec fn inf_bits(w: nat) -> nat {
    if w == 23 {
        0x7f80_0000
    } else {
        0x7ff0_0000_0000_0000
    }
}

/// One is `2^unit_exp(w)` units.
pub open spec fn unit_exp(w: nat) -> nat {
    if w == 23 {
        149
    } else {
        1074
    }
}

/// The magnitude, in units, that the word `b` (exponent field above `w` fraction bits) stands
/// for. Infinity stands where the next larger magnitude would.
pub open spec fn magnitude(w: nat, b: nat) -> nat {
    let field = b / pow2(w);
    let fraction = b % pow2(w);
    if field == 0 {
        fraction
    } else {
        (pow2(w) + fraction) * pow2((field - 1) as nat)
    }
}

/// The whole number nearest to `n / d`, the even one of two that are equally near.
pub open spec fn round_half_even(n: nat, d: nat) -> nat {
    let q = n / d;
    let r = n % d;
    if 2 * r < d {
        q
    } else if 2 * r > d {
        q + 1
    } else {
        q + q % 2
    }
}

/// `n / d` units lie in the binade whose magnitudes are spaced `2^e` units apart.
pub open spec fn in_binade(w: nat, n: nat, d: nat, e: nat) -> bool {
    &&& n < d * pow2(w + 1 + e)
    &&& e == 0 || d * pow2(w + e) <= n
}

/// The spacing exponent around `n / d` units.
pub open spec fn binade(w: nat, n: nat, d: nat) -> nat {
    choose|e: nat| in_binade(w, n, d, e)
}

/// The word of the magnitude nearest to `n / d` units, ties to the even word; infinity from
/// half a spacing above the largest finite magnitude on.
pub open spec fn round_magnitude(w: nat, n: nat, d: nat) -> nat {
    let e = binade(w, n, d);
    let b = e * pow2(w) + round_half_even(n, d * pow2(e));
    if b < inf_bits(w) {
        b
    } else {
        inf_bits(w)
    }
}

/// `n / d` lies in one binade only.
pub proof fn lemma_binade_unique(w: nat, n: nat, d: nat, e: nat)
    requires
        in_binade(w, n, d, e),
    ensures
        binade(w, n, d) == e,
{
    let f = binade(w, n, d);
    assert(in_binade(w, n, d, f));
    if f < e {
        lemma_spacing_monotone(d, w + 1 + f, w + e);
    } else if e < f {
        lemma_spacing_monotone(d, w + 1 + e, w + f);
    }
}

proof fn lemma_spacing_monotone(d: nat, a: nat, b: nat)
    requires
        a <= b,
    ensures
        d * pow2(a) <= d * pow2(b),
{
    lemma_pow2_monotone(a, b);
    let x: int = pow2(a) as int;
    let y: int = pow2(b) as int;
    assert(d * x <= d * y) by (nonlinear_arith)
        requires
            x <= y,
            d >= 0,
    ;
}

/// Rounding a fraction does not depend on how it is written.
pub proof fn lemma_round_scale(n: nat, d: nat, c: nat)
    requires
        d > 0,
        c > 0,
    ensures
        round_half_even(n * c, d * c) == round_half_even(n, d),
{
    lemma_div_scale(n, d, c);
    let r: int = (n % d) as int;
    assert((2 * (r * c) < d * c <==> 2 * r < d) && (2 * (r * c) > d * c <==> 2 * r > d))
        by (nonlinear_arith)
        requires
            c > 0,
    ;
}

/// Rounding `n / (d * 2^s)` needs only the floor of `n / d` and whether anything was cut off
/// below it.
proof fn lemma_round_from_floor(n: nat, d: nat, s: nat)
    requires
        d > 0,
        s > 0,
    ensures
        ({
            let p = n / d;
            let q = p / pow2(s);
            let t = p % pow2(s);
            let half = pow2((s - 1) as nat);
            round_half_even(n, d * pow2(s)) == if t < half {
                q
            } else if t > half || n % d != 0 {
                q + 1
            } else {
                q + q % 2
            }
        }),
{
    let c = pow2(s);
    lemma_pow2_pos(s);
    lemma_div_div(n, d, c);
    lemma_pow2_double((s - 1) as nat);
    let half: int = pow2((s - 1) as nat) as int;
    let t: int = ((n / d) % c) as int;
    let r: int = (n % d) as int;
    lemma_fundamental_div_mod(n as int, d as int);
    let dd: int = d as int;
    if t < half {
        assert(2 * (t * dd + r) < dd * (2 * half)) by (nonlinear_arith)
            requires
                t + 1 <= half,
                0 <= r < dd,
        ;
    } else if t > half {
        assert(2 * (t * dd + r) > dd * (2 * half)) by (nonlinear_arith)
            requires
                t >= half + 1,
                0 <= r < dd,
        ;
    } else {
        assert(2 * (t * dd + r) == dd * (2 * half) + 2 * r) by (nonlinear_arith)
            requires
                t == half,
        ;
    }
}

/// `n / d` units are `p * 2^k` units, and more (but less than `2^k` more) exactly when `sticky`
/// holds. Both sides are scaled by `2^4096`, so that a negative `k` needs no fraction.
spec fn approximates(p: nat, k: int, sticky: bool, n: nat, d: nat) -> bool {
    let num = n * pow2(4096);
    let den = d * pow2((4096 + k) as nat);
    &&& p == num / den
    &&& sticky <==> num % den != 0
}

/// The binade of `n / d` follows from the bit length of its leading part.
proof fn lemma_binade_of_floor(w: nat, p: nat, k: int, l: nat, e: nat, n: nat, d: nat)
    requires
        d > 0,
        -4096 <= k,
        p == (n * pow2(4096)) / (d * pow2((4096 + k) as nat)),
        l > 0,
        pow2((l - 1) as nat) <= p < pow2(l),
        e == if l + k - (w + 1) > 0 {
            l + k - (w + 1)
        } else {
            0
        },
    ensures
        in_binade(w, n, d, e),
{
    let num: nat = n * pow2(4096);
    let ck: nat = (4096 + k) as nat;
    let den: nat = d * pow2(ck);
    lemma_pow2_pos(ck);
    lemma_pow2_pos(4096);
    let dd: int = d as int;
    assert(den > 0) by (nonlinear_arith)
        requires
            den == d * pow2(ck),
            d > 0,
            pow2(ck) > 0,
    ;
    lemma_fundamental_div_mod(num as int, den as int);
    let x: int = pow2(l) as int;
    let y: int = pow2((l - 1) as nat) as int;
    assert(den * y <= num < den * x) by (nonlinear_arith)
        requires
            num == den * p + num % den,
            0 <= num % den < den,
            y <= p < x,
            den > 0,
    ;
    // upper bound
    lemma_pow2_sum(ck, l);
    assert(den * x == d * pow2(ck + l)) by (nonlinear_arith)
        requires
            den == d * pow2(ck),
            pow2(ck + l) == pow2(ck) * x,
    ;
    lemma_spacing_monotone(d, ck + l, (4096 + w + 1 + e) as nat);
    lemma_pow2_sum(4096, w + 1 + e);
    let u: int = pow2(w + 1 + e) as int;
    let big: int = pow2(4096) as int;
    assert(n < d * u) by (nonlinear_arith)
        requires
            n * big < d * (big * u),
            big > 0,
    ;
    if e > 0 {
        lemma_pow2_sum(ck, (l - 1) as nat);
        assert(den * y == d * pow2((ck + l - 1) as nat)) by (nonlinear_arith)
            requires
                den == d * pow2(ck),
                pow2((ck + l - 1) as nat) == pow2(ck) * y,
        ;
        assert((ck + l - 1) as nat == 4096 + (w + e));
        lemma_pow2_sum(4096, w + e);
        let v: int = pow2(w + e) as int;
        assert(d * v <= n) by (nonlinear_arith)
            requires
                d * (big * v) <= n * big,
                big > 0,
        ;
    }
}

/// A fraction whose floor is its value rounds to itself on every finer spacing.
proof fn lemma_round_exact(p: nat, k: int, e: nat, n: nat, d: nat)
    requires
        d > 0,
        -4096 <= k,
        e <= k,
        approximates(p, k, false, n, d),
    ensures
        round_half_even(n, d * pow2(e)) == p * pow2((k - e) as nat),
{
    let num: nat = n * pow2(4096);
    let ck: nat = (4096 + k) as nat;
    let up: nat = (k - e) as nat;
    let den: nat = d * pow2(ck);
    lemma_pow2_pos(ck);
    lemma_pow2_pos(e);
    lemma_pow2_pos(4096);
    lemma_positive_product(d, pow2(ck));
    lemma_positive_product(d, pow2(e));
    lemma_fundamental_div_mod(num as int, den as int);
    let fine: nat = d * pow2(e) * pow2(4096);
    lemma_positive_product(d * pow2(e), pow2(4096));
    lemma_pow2_sum(e + 4096, up);
    lemma_pow2_sum(e, 4096);
    assert(ck == e + 4096 + up);
    assert(num == (p * pow2(up)) * fine) by (nonlinear_arith)
        requires
            num == den * p,
            den == d * pow2(ck),
            pow2(ck) == pow2(e + 4096) * pow2(up),
            pow2(e + 4096) == pow2(e) * pow2(4096),
            fine == d * pow2(e) * pow2(4096),
    ;
    lemma_div_unique(num, fine, p * pow2(up), 0);
    lemma_round_scale(n, d * pow2(e), pow2(4096));
}

proof fn lemma_positive_product(a: nat, b: nat)
    requires
        a > 0,
        b > 0,
    ensures
        a * b > 0,
{
    assert(a * b > 0) by (nonlinear_arith)
        requires
            a > 0,
            b > 0,
    ;
}

/// The scaled fraction of `approximates` rounds as `n / d` does.
proof fn lemma_round_coarse(p: nat, k: int, sticky: bool, e: nat, n: nat, d: nat)
    requires
        d > 0,
        -4096 <= k,
        e > k,
        approximates(p, k, sticky, n, d),
    ensures
        ({
            let s = (e - k) as nat;
            let q = p / pow2(s);
            let t = p % pow2(s);
            let half = pow2((s - 1) as nat);
            round_half_even(n, d * pow2(e)) == if t < half {
                q
            } else if t > half || sticky {
                q + 1
            } else {
                q + q % 2
            }
        }),
{
    let num: nat = n * pow2(4096);
    let ck: nat = (4096 + k) as nat;
    let s: nat = (e - k) as nat;
    let den: nat = d * pow2(ck);
    lemma_pow2_pos(ck);
    lemma_pow2_pos(e);
    lemma_pow2_pos(4096);
    lemma_positive_product(d, pow2(ck));
    lemma_positive_product(d, pow2(e));
    lemma_round_from_floor(num, den, s);
    lemma_pow2_sum(ck, s);
    lemma_pow2_sum(e, 4096);
    assert(ck + s == e + 4096);
    assert(den * pow2(s) == d * pow2(e) * pow2(4096)) by (nonlinear_arith)
        requires
            den == d * pow2(ck),
            pow2(ck) * pow2(s) == pow2(e) * pow2(4096),
    ;
    lemma_round_scale(n, d * pow2(e), pow2(4096));
}

/// The word nearest to `n / d` units, from its leading bits `p * 2^k` and whether anything was
/// cut off below them.
fn round_leading(
    w: u32,
    p: u128,
    k: i32,
    sticky: bool,
    Ghost(n): Ghost<nat>,
    Ghost(d): Ghost<nat>,
) -> (r: u64)
    requires
        is_layout(w as nat),
        d > 0,
        -4096 <= k <= 4096,
        p <= 0x7fff_ffff_ffff_ffff_ffff_ffff_ffff_ffff,
        approximates(p as nat, k as int, sticky, n, d),
        sticky ==> pow2((w + 1) as nat) <= p,
    ensures
        r == round_magnitude(w as nat, n, d),
{
    let ghost wn = w as nat;
    proof {
        lemma2_to64();
        lemma2_to64_rest();
        lemma_pow2_pos(4096);
        lemma_pow2_pos((4096 + k) as nat);
        lemma_positive_product(d, pow2((4096 + k) as nat));
    }
    if p == 0 {
        proof {
            let den: nat = d * pow2((4096 + k) as nat);
            lemma_fundamental_div_mod((n * pow2(4096)) as int, den as int);
            lemma_pow2_pos(wn + 1);
            assert(!sticky);
            assert(n == 0) by (nonlinear_arith)
                requires
                    n * pow2(4096) == den * 0 + 0,
                    pow2(4096) > 0,
            ;
            lemma_positive_product(d, pow2(wn + 1 + 0));
            lemma_binade_unique(wn, n, d, 0);
            lemma_positive_product(d, pow2(0));
            lemma_div_unique(0, d * pow2(0), 0, 0);
        }
        return 0;
    }
    let l: u32 = bit_length(p);
    let raw: i32 = l as i32 + k - (w as i32 + 1);
    let e: i32 = if raw > 0 {
        raw
    } else {
        0
    };
    proof {
        lemma_binade_of_floor(wn, p as nat, k as int, l as nat, e as nat, n, d);
        lemma_binade_unique(wn, n, d, e as nat);
    }
    let top: i32 = if w == 23 {
        255
    } else {
        2047
    };
    let (inf, step): (u64, u64) = if w == 23 {
        (0x7f80_0000, 0x80_0000)
    } else {
        (0x7ff0_0000_0000_0000, 0x10_0000_0000_0000)
    };
    assert(step == pow2(wn));
    if e >= top {
        proof {
            assert(e * step >= inf) by (nonlinear_arith)
                requires
                    e >= top,
                    top * step == inf,
                    step > 0,
            ;
        }
        return inf;
    }
    let s: i32 = e - k;
    let ghost spaced: nat = d * pow2(e as nat);
    let m: u128;
    if s <= 0 {
        proof {
            if sticky {
                lemma_pow2_monotone(l as nat, wn + 1);
            }
            lemma_round_exact(p as nat, k as int, e as nat, n, d);
            lemma_pow2_sum(l as nat, (-s) as nat);
            lemma_pow2_monotone((l - s) as nat, wn + 1);
            let up: int = pow2((-s) as nat) as int;
            let cap: int = pow2(l as nat) as int;
            assert(p * up <= cap * up) by (nonlinear_arith)
                requires
                    p <= cap,
                    up > 0,
            ;
            if -s >= 64 {
                lemma_pow2_monotone(64, (l - s) as nat);
            }
        }
        m = shl(p, (-s) as u128);
        assert(m == round_half_even(n, spaced));
        assert(m <= pow2(wn + 1));
    } else if s >= 128 {
        proof {
            lemma_round_coarse(p as nat, k as int, sticky, e as nat, n, d);
            lemma_pow2_sum(64, 63);
            lemma_pow2_monotone(127, (s - 1) as nat);
            lemma_pow2_monotone((s - 1) as nat, s as nat);
            lemma_div_unique(p as nat, pow2(s as nat), 0, p as nat);
        }
        m = 0;
        assert(m == round_half_even(n, spaced));
    } else {
        let q: u128 = shr(p, s as u128);
        proof {
            lemma_round_coarse(p as nat, k as int, sticky, e as nat, n, d);
            let c: int = pow2(s as nat) as int;
            lemma_pow2_pos(s as nat);
            lemma_fundamental_div_mod(p as int, c);
            assert(c * q == q * c) by (nonlinear_arith);
            lemma_pow2_sum(64, 63);
            lemma_pow2_monotone((s - 1) as nat, 127);
            assert(1 * pow2((s - 1) as nat) == pow2((s - 1) as nat)) by {
                vstd::arithmetic::mul::lemma_mul_basics(pow2((s - 1) as nat) as int);
            }
            // q < 2^(w+1)
            lemma_pow2_monotone(l as nat, (wn + 1 + s) as nat);
            lemma_pow2_sum(wn + 1, s as nat);
            let cap: int = pow2(wn + 1) as int;
            assert(q < cap) by (nonlinear_arith)
                requires
                    p == c * q + p as int % c,
                    0 <= p as int % c,
                    p < cap * c,
                    c > 0,
            ;
        }
        let t: u128 = p - shl(q, s as u128);
        let half: u128 = shl(1, (s - 1) as u128);
        if t < half {
            m = q;
        } else if t > half || sticky {
            m = q + 1;
        } else {
            m = q + q % 2;
        }
        assert(m == round_half_even(n, spaced));
        assert(m <= pow2(wn + 1));
    }
    proof {
        lemma_pow2_pos(wn + 1);
        assert(e * step <= (top - 1) * step) by (nonlinear_arith)
            requires
                e <= top - 1,
                step > 0,
        ;
    }
    let b: u64 = e as u64 * step + m as u64;
    if b < inf {
        b
    } else {
        inf
    }
}

/// A finite word as a whole significand times a power of two.
fn unpack(w: u32, b: u64) -> (r: (u64, u32))
    requires
        is_layout(w as nat),
        b < inf_bits(w as nat),
    ensures
        magnitude(w as nat, b as nat) == r.0 * pow2(r.1 as nat),
        r.0 < pow2((w + 1) as nat),
        r.1 > 0 ==> pow2(w as nat) <= r.0,
        r.1 <= 2045,
        r.1 == if b as nat / pow2(w as nat) == 0 {
            0
        } else {
            b as nat / pow2(w as nat) - 1
        },
{
    proof {
        lemma2_to64();
        lemma2_to64_rest();
        lemma_pow2_double(w as nat);
    }
    let step: u64 = if w == 23 {
        0x80_0000
    } else {
        0x10_0000_0000_0000
    };
    assert(step == pow2(w as nat));
    let field: u64 = b / step;
    let fraction: u64 = b % step;
    if field == 0 {
        proof {
            vstd::arithmetic::mul::lemma_mul_basics(fraction as int);
        }
        (fraction, 0)
    } else {
        (step + fraction, (field - 1) as u32)
    }
}

/// Larger words stand for larger magnitudes.
pub proof fn lemma_magnitude_monotone(w: nat, a: nat, b: nat)
    requires
        a < b,
    ensures
        magnitude(w, a) < magnitude(w, b),
{
    let c: nat = pow2(w);
    lemma_pow2_pos(w);
    lemma_fundamental_div_mod(a as int, c as int);
    lemma_fundamental_div_mod(b as int, c as int);
    lemma_div_pos_is_pos(a as int, c as int);
    lemma_div_pos_is_pos(b as int, c as int);
    let fa: nat = a / c;
    let fb: nat = b / c;
    let ra: nat = a % c;
    let rb: nat = b % c;
    assert(fa <= fb && (fa == fb ==> ra < rb)) by (nonlinear_arith)
        requires
            a == c * fa + ra,
            b == c * fb + rb,
            ra < c,
            rb < c,
            a < b,
    ;
    if fa == fb {
        if fa > 0 {
            let s: int = pow2((fa - 1) as nat) as int;
            lemma_pow2_pos((fa - 1) as nat);
            assert((c + ra) * s < (c + rb) * s) by (nonlinear_arith)
                requires
                    ra < rb,
                    s > 0,
            ;
        }
    } else {
        let t: int = pow2((fb - 1) as nat) as int;
        lemma_pow2_pos((fb - 1) as nat);
        assert(c * t <= (c + rb) * t) by (nonlinear_arith)
            requires
                rb >= 0,
                t > 0,
        ;
        if fa == 0 {
            assert(c <= c * t) by (nonlinear_arith)
                requires
                    t >= 1,
                    c >= 0,
            ;
        } else {
            let s: int = pow2((fa - 1) as nat) as int;
            lemma_pow2_double((fa - 1) as nat);
            lemma_pow2_monotone(fa, (fb - 1) as nat);
            assert((c + ra) * s < c * t) by (nonlinear_arith)
                requires
                    ra < c,
                    2 * s <= t,
                    s > 0,
            ;
        }
    }
}

/// Only the zero word has magnitude zero.
pub proof fn lemma_magnitude_zero(w: nat, b: nat)
    ensures
        magnitude(w, b) == 0 <==> b == 0,
{
    lemma_pow2_pos(w);
    lemma_div_unique(0, pow2(w), 0, 0);
    if b > 0 {
        lemma_magnitude_monotone(w, 0, b);
    }
}

proof fn lemma_approximates_whole(p: nat, k: nat, n: nat)
    requires
        n == p * pow2(k),
    ensures
        approximates(p, k as int, false, n, 1),
{
    lemma_pow2_sum(4096, k);
    let den: nat = 1 * pow2(4096 + k);
    assert(n * pow2(4096) == p * den + 0) by (nonlinear_arith)
        requires
            n == p * pow2(k),
            den == pow2(4096) * pow2(k),
    ;
    lemma_div_unique(n * pow2(4096), den, p, 0);
}

/// The word nearest to the product of two finite magnitudes.
pub fn multiply(w: u32, a: u64, b: u64) -> (r: u64)
    requires
        is_layout(w as nat),
        a < inf_bits(w as nat),
        b < inf_bits(w as nat),
    ensures
        r == round_magnitude(
            w as nat,
            magnitude(w as nat, a as nat) * magnitude(w as nat, b as nat),
            pow2(unit_exp(w as nat)),
        ),
{
    let (m1, e1) = unpack(w, a);
    let (m2, e2) = unpack(w, b);
    let unit: i32 = if w == 23 {
        149
    } else {
        1074
    };
    let ghost n: nat = magnitude(w as nat, a as nat) * magnitude(w as nat, b as nat);
    let ghost d: nat = pow2(unit as nat);
    let k: i32 = e1 as i32 + e2 as i32 - unit;
    proof {
        lemma2_to64();
        lemma2_to64_rest();
        lemma_pow2_double(w as nat);
        lemma_pow2_pos(unit as nat);
        assert(m1 * m2 < 0x20_0000_0000_0000 * 0x20_0000_0000_0000) by (nonlinear_arith)
            requires
                m1 < 0x20_0000_0000_0000,
                m2 < 0x20_0000_0000_0000,
        ;
    }
    let p: u128 = m1 as u128 * m2 as u128;
    proof {
        let x1: nat = pow2(e1 as nat);
        let x2: nat = pow2(e2 as nat);
        lemma_pow2_sum(e1 as nat, e2 as nat);
        lemma_pow2_sum(unit as nat, (4096 + k) as nat);
        lemma_pow2_sum((e1 + e2) as nat, 4096);
        let den: nat = d * pow2((4096 + k) as nat);
        assert((unit + (4096 + k)) as nat == (e1 + e2 + 4096) as nat);
        assert(n * pow2(4096) == p * den + 0) by (nonlinear_arith)
            requires
                n == (m1 * x1) * (m2 * x2),
                p == m1 * m2,
                den == (x1 * x2) * pow2(4096),
        ;
        lemma_div_unique(n * pow2(4096), den, p as nat, 0);
    }
    round_leading(w, p, k, false, Ghost(n), Ghost(d))
}

/// The word nearest to the quotient of two finite magnitudes.
pub fn divide(w: u32, a: u64, b: u64) -> (r: u64)
    requires
        is_layout(w as nat),
        a < inf_bits(w as nat),
        0 < b < inf_bits(w as nat),
    ensures
        r == round_magnitude(
            w as nat,
            magnitude(w as nat, a as nat) * pow2(unit_exp(w as nat)),
            magnitude(w as nat, b as nat),
        ),
{
    let (m1, e1) = unpack(w, a);
    let (m2, e2) = unpack(w, b);
    let unit: i32 = if w == 23 {
        149
    } else {
        1074
    };
    let ghost un: nat = unit as nat;
    let ghost n: nat = magnitude(w as nat, a as nat) * pow2(un);
    let ghost d: nat = magnitude(w as nat, b as nat);
    proof {
        lemma2_to64();
        lemma2_to64_rest();
        lemma_pow2_double(w as nat);
        lemma_pow2_pos(un);
        lemma_pow2_pos(e2 as nat);
        lemma_magnitude_zero(w as nat, b as nat);
        lemma_magnitude_zero(w as nat, a as nat);
        assert(m2 > 0) by (nonlinear_arith)
            requires
                m2 * pow2(e2 as nat) > 0,
        ;
    }
    let l: u32 = bit_length(m1 as u128);
    proof {
        if l > 53 {
            lemma_pow2_monotone(53, (l - 1) as nat);
        }
    }
    let up: u32 = 126 - l;
    let k: i32 = e1 as i32 - up as i32 + unit - e2 as i32;
    proof {
        lemma_pow2_sum(l as nat, up as nat);
        lemma_pow2_sum(64, 62);
        let x: int = pow2(up as nat) as int;
        let y: int = pow2(l as nat) as int;
        assert(m1 * x <= y * x) by (nonlinear_arith)
            requires
                m1 <= y,
                x > 0,
        ;
    }
    let lead: u128 = shl(m1 as u128, up as u128);
    let p: u128 = lead / m2 as u128;
    let sticky: bool = lead % m2 as u128 != 0;
    proof {
        // p * 2^k are the leading bits of n / d
        let c: nat = pow2((4096 + e1 + unit - up) as nat);
        lemma_pow2_pos((4096 + e1 + unit - up) as nat);
        lemma_pow2_sum(e1 as nat, un);
        lemma_pow2_sum((e1 + unit) as nat, 4096);
        lemma_pow2_sum((4096 + e1 + unit - up) as nat, up as nat);
        lemma_pow2_sum(e2 as nat, (4096 + k) as nat);
        assert((4096 + e1 + unit - up) as nat + up as nat == (e1 + unit) as nat + 4096);
        assert((e2 + (4096 + k)) as nat == (4096 + e1 + unit - up) as nat);
        let num: nat = n * pow2(4096);
        let den: nat = d * pow2((4096 + k) as nat);
        assert(num == lead * c) by (nonlinear_arith)
            requires
                num == ((m1 * pow2(e1 as nat)) * pow2(un)) * pow2(4096),
                lead == m1 * pow2(up as nat),
                c * pow2(up as nat) == (pow2(e1 as nat) * pow2(un)) * pow2(4096),
        ;
        assert(den == m2 * c) by (nonlinear_arith)
            requires
                den == (m2 * pow2(e2 as nat)) * pow2((4096 + k) as nat),
                c == pow2(e2 as nat) * pow2((4096 + k) as nat),
        ;
        lemma_div_scale(lead as nat, m2 as nat, c);
        let r: nat = lead as nat % m2 as nat;
        assert(r * c == 0 <==> r == 0) by (nonlinear_arith)
            requires
                c > 0,
        ;
        assert(approximates(p as nat, k as int, sticky, n, d));
        if sticky {
            assert(m1 > 0) by {
                if m1 == 0 {
                    assert(lead == 0) by (nonlinear_arith)
                        requires
                            lead == 0 * pow2(up as nat),
                    ;
                }
            }
            lemma_pow2_sum((l - 1) as nat, up as nat);
            lemma_pow2_sum(64, 61);
            let x: int = pow2(up as nat) as int;
            let y: int = pow2((l - 1) as nat) as int;
            assert(y * x <= m1 * x) by (nonlinear_arith)
                requires
                    y <= m1,
                    x > 0,
            ;
            lemma_fundamental_div_mod(lead as int, m2 as int);
            lemma_pow2_sum(53, 72);
            lemma_pow2_monotone(53, 72);
            let h: int = pow2(72) as int;
            assert(p >= h) by (nonlinear_arith)
                requires
                    lead == m2 * p + lead as int % m2 as int,
                    (lead as int % m2 as int) < m2,
                    lead >= pow2(53) * h,
                    m2 <= pow2(53),
                    m2 > 0,
            ;
        }
        lemma_fundamental_div_mod(lead as int, m2 as int);
        assert(p <= lead) by (nonlinear_arith)
            requires
                lead == m2 * p + lead as int % m2 as int,
                lead as int % m2 as int >= 0,
                m2 >= 1,
                p >= 0,
        ;
    }
    round_leading(w, p, k, sticky, Ghost(n), Ghost(d))
}

/// The word nearest to the sum of two finite magnitudes.
pub fn sum(w: u32, a: u64, b: u64) -> (r: u64)
    requires
        is_layout(w as nat),
        a < inf_bits(w as nat),
        b < inf_bits(w as nat),
    ensures
        r == round_magnitude(
            w as nat,
            magnitude(w as nat, a as nat) + magnitude(w as nat, b as nat),
            1,
        ),
{
    let ghost n: nat = magnitude(w as nat, a as nat) + magnitude(w as nat, b as nat);
    let (hi, lo): (u64, u64) = if a >= b {
        (a, b)
    } else {
        (b, a)
    };
    let (m1, e1) = unpack(w, hi);
    let (m2, e2) = unpack(w, lo);
    proof {
        lemma2_to64();
        lemma2_to64_rest();
        lemma_pow2_double(w as nat);
        lemma_pow2_pos(w as nat);
        vstd::arithmetic::div_mod::lemma_div_is_ordered(lo as int, hi as int, pow2(w as nat) as int);
    }
    let gap: u32 = e1 - e2;
    if gap <= 70 {
        proof {
            lemma_aligned(m1 as nat, e1 as nat, e2 as nat);
            lemma_pow2_monotone(gap as nat, 70);
            lemma_pow2_sum(64, 6);
            assert(m1 * pow2(gap as nat) <= 0x20_0000_0000_0000 * pow2(70)) by (nonlinear_arith)
                requires
                    m1 <= 0x20_0000_0000_0000,
                    pow2(gap as nat) <= pow2(70),
            ;
        }
        let p: u128 = shl(m1 as u128, gap as u128) + m2 as u128;
        proof {
            assert(n == p * pow2(e2 as nat)) by (nonlinear_arith)
                requires
                    n == (m1 * pow2(gap as nat)) * pow2(e2 as nat) + m2 * pow2(e2 as nat),
                    p == m1 * pow2(gap as nat) + m2,
            ;
            lemma_approximates_whole(p as nat, e2 as nat, n);
        }
        round_leading(w, p, e2 as i32, false, Ghost(n), Ghost(1))
    } else {
        let p: u128 = m1 as u128 * 0x8000;
        let k: i32 = e1 as i32 - 15;
        proof {
            lemma_far_apart(m1 as nat, e1 as nat, m2 as nat, e2 as nat);
            let den: nat = 1 * pow2((4096 + k) as nat);
            let tail: nat = m2 as nat * pow2((e2 + 4096) as nat);
            lemma_pow2_sum(e2 as nat, 4096);
            assert(n * pow2(4096) == p * den + tail) by (nonlinear_arith)
                requires
                    n == m1 * pow2(e1 as nat) + m2 * pow2(e2 as nat),
                    (m1 * pow2(e1 as nat)) * pow2(4096) == (m1 * 0x8000) * den,
                    p == m1 * 0x8000,
                    tail == m2 * (pow2(e2 as nat) * pow2(4096)),
            ;
            lemma_div_unique(n * pow2(4096), den, p as nat, tail);
            lemma_pow2_pos((e2 + 4096) as nat);
            assert(tail == 0 <==> m2 == 0) by (nonlinear_arith)
                requires
                    tail == m2 * pow2((e2 + 4096) as nat),
                    pow2((e2 + 4096) as nat) > 0,
            ;
        }
        round_leading(w, p, k, m2 != 0, Ghost(n), Ghost(1))
    }
}

proof fn lemma_aligned(m: nat, e1: nat, e2: nat)
    requires
        e2 <= e1,
    ensures
        m * pow2(e1) == (m * pow2((e1 - e2) as nat)) * pow2(e2),
{
    lemma_pow2_sum((e1 - e2) as nat, e2);
    assert(m * pow2(e1) == (m * pow2((e1 - e2) as nat)) * pow2(e2)) by (nonlinear_arith)
        requires
            pow2(e1) == pow2((e1 - e2) as nat) * pow2(e2),
    ;
}

/// A magnitude more than seventy binary places below another stays below the last of fifteen
/// further places of it.
proof fn lemma_far_apart(m1: nat, e1: nat, m2: nat, e2: nat)
    requires
        e2 + 70 < e1,
        m2 < 0x20_0000_0000_0000,
    ensures
        (m1 * pow2(e1)) * pow2(4096) == (m1 * 0x8000) * (1 * pow2((4096 + e1 - 15) as nat)),
        m2 * pow2(e2 + 4096) < 1 * pow2((4096 + e1 - 15) as nat),
{
    lemma2_to64();
    lemma2_to64_rest();
    let low: nat = (4096 + e1 - 15) as nat;
    lemma_pow2_sum(e1, 4096);
    lemma_pow2_sum(low, 15);
    assert(low + 15 == e1 + 4096);
    assert((m1 * pow2(e1)) * pow2(4096) == (m1 * 0x8000) * (1 * pow2(low))) by (nonlinear_arith)
        requires
            pow2(e1) * pow2(4096) == pow2(low) * 0x8000,
    ;
    lemma_pow2_sum(53, e2 + 4096);
    lemma_pow2_monotone(53 + (e2 + 4096), low);
    let x: int = pow2(e2 + 4096) as int;
    assert(m2 * x < 0x20_0000_0000_0000 * x) by (nonlinear_arith)
        requires
            m2 < 0x20_0000_0000_0000,
            x > 0,
    ;
}

/// The word nearest to the difference of two finite magnitudes, the larger one first.
pub fn difference(w: u32, a: u64, b: u64) -> (r: u64)
    requires
        is_layout(w as nat),
        b <= a < inf_bits(w as nat),
    ensures
        magnitude(w as nat, b as nat) <= magnitude(w as nat, a as nat),
        r == round_magnitude(
            w as nat,
            (magnitude(w as nat, a as nat) - magnitude(w as nat, b as nat)) as nat,
            1,
        ),
{
    proof {
        if b < a {
            lemma_magnitude_monotone(w as nat, b as nat, a as nat);
        }
    }
    let ghost n: nat = (magnitude(w as nat, a as nat) - magnitude(w as nat, b as nat)) as nat;
    let (m1, e1) = unpack(w, a);
    let (m2, e2) = unpack(w, b);
    proof {
        lemma2_to64();
        lemma2_to64_rest();
        lemma_pow2_double(w as nat);
        lemma_pow2_pos(w as nat);
        lemma_pow2_pos(e2 as nat);
        vstd::arithmetic::div_mod::lemma_div_is_ordered(b as int, a as int, pow2(w as nat) as int);
    }
    let gap: u32 = e1 - e2;
    if gap <= 70 {
        proof {
            lemma_aligned(m1 as nat, e1 as nat, e2 as nat);
            lemma_pow2_monotone(gap as nat, 70);
            lemma_pow2_sum(64, 6);
            assert(m1 * pow2(gap as nat) <= 0x20_0000_0000_0000 * pow2(70)) by (nonlinear_arith)
                requires
                    m1 <= 0x20_0000_0000_0000,
                    pow2(gap as nat) <= pow2(70),
            ;
            let x: int = m1 * pow2(gap as nat);
            assert(x >= m2) by (nonlinear_arith)
                requires
                    x * pow2(e2 as nat) >= m2 * pow2(e2 as nat),
                    pow2(e2 as nat) > 0,
            ;
        }
        let p: u128 = shl(m1 as u128, gap as u128) - m2 as u128;
        proof {
            assert(n == p * pow2(e2 as nat)) by (nonlinear_arith)
                requires
                    n == (m1 * pow2(gap as nat)) * pow2(e2 as nat) - m2 * pow2(e2 as nat),
                    p == m1 * pow2(gap as nat) - m2,
            ;
            lemma_approximates_whole(p as nat, e2 as nat, n);
        }
        round_leading(w, p, e2 as i32, false, Ghost(n), Ghost(1))
    } else {
        let full: u128 = m1 as u128 * 0x8000;
        let k: i32 = e1 as i32 - 15;
        let sticky: bool = m2 != 0;
        let p: u128 = if sticky {
            full - 1
        } else {
            full
        };
        proof {
            lemma_far_apart(m1 as nat, e1 as nat, m2 as nat, e2 as nat);
            let den: nat = 1 * pow2((4096 + k) as nat);
            let tail: nat = m2 as nat * pow2((e2 + 4096) as nat);
            lemma_pow2_sum(e2 as nat, 4096);
            lemma_pow2_pos((e2 + 4096) as nat);
            assert(tail == 0 <==> m2 == 0) by (nonlinear_arith)
                requires
                    tail == m2 * pow2((e2 + 4096) as nat),
                    pow2((e2 + 4096) as nat) > 0,
            ;
            assert(n * pow2(4096) == full * den - tail) by (nonlinear_arith)
                requires
                    n == m1 * pow2(e1 as nat) - m2 * pow2(e2 as nat),
                    (m1 * pow2(e1 as nat)) * pow2(4096) == (m1 * 0x8000) * den,
                    full == m1 * 0x8000,
                    tail == m2 * (pow2(e2 as nat) * pow2(4096)),
            ;
            let rest: nat = if sticky {
                (den - tail) as nat
            } else {
                0
            };
            assert(full * den - den == (full - 1) * den) by (nonlinear_arith);
            assert(n * pow2(4096) == p * den + rest);
            lemma_div_unique(n * pow2(4096), den, p as nat, rest);
        }
        round_leading(w, p, k, sticky, Ghost(n), Ghost(1))
    }
}

/// The word nearest to a whole number.
pub fn whole(w: u32, v: u64) -> (r: u64)
    requires
        is_layout(w as nat),
    ensures
        r == round_magnitude(w as nat, v as nat * pow2(unit_exp(w as nat)), 1),
{
    let unit: i32 = if w == 23 {
        149
    } else {
        1074
    };
    let ghost n: nat = v as nat * pow2(unit as nat);
    proof {
        lemma_approximates_whole(v as nat, unit as nat, n);
    }
    round_leading(w, v as u128, unit, false, Ghost(n), Ghost(1))
}

/// The whole part of a finite magnitude, or `max` where that is smaller.
pub fn truncate(w: u32, b: u64, max: u64) -> (r: u64)
    requires
        is_layout(w as nat),
        b < inf_bits(w as nat),
    ensures
        r == if magnitude(w as nat, b as nat) / pow2(unit_exp(w as nat)) < max {
            magnitude(w as nat, b as nat) / pow2(unit_exp(w as nat))
        } else {
            max as nat
        },
{
    let (m, e) = unpack(w, b);
    let unit: u32 = if w == 23 {
        149
    } else {
        1074
    };
    let ghost n: nat = magnitude(w as nat, b as nat);
    let ghost one: nat = pow2(unit as nat);
    proof {
        lemma2_to64();
        lemma2_to64_rest();
        lemma_pow2_double(w as nat);
        lemma_pow2_pos(unit as nat);
    }
    if e >= unit {
        let s: u32 = e - unit;
        proof {
            lemma_aligned(m as nat, e as nat, unit as nat);
            lemma_div_unique(n, one, (m * pow2(s as nat)) as nat, 0);
        }
        if s >= 64 {
            proof {
                lemma_pow2_monotone(64, s as nat);
                assert(m * pow2(s as nat) >= pow2(64)) by (nonlinear_arith)
                    requires
                        m >= 1,
                        pow2(s as nat) >= pow2(64),
                ;
            }
            max
        } else {
            proof {
                lemma_pow2_monotone(s as nat, 64);
                assert(m * pow2(s as nat) <= 0x20_0000_0000_0000 * pow2(64)) by (nonlinear_arith)
                    requires
                        m <= 0x20_0000_0000_0000,
                        pow2(s as nat) <= pow2(64),
                ;
            }
            let v: u128 = shl(m as u128, s as u128);
            if v < max as u128 {
                v as u64
            } else {
                max
            }
        }
    } else {
        let s: u32 = unit - e;
        proof {
            lemma_pow2_sum(s as nat, e as nat);
            lemma_pow2_pos(e as nat);
            lemma_div_scale(m as nat, pow2(s as nat), pow2(e as nat));
        }
        if s >= 64 {
            proof {
                lemma_pow2_monotone(64, s as nat);
                lemma_div_unique(m as nat, pow2(s as nat), 0, m as nat);
            }
            0
        } else {
            let v: u128 = shr(m as u128, s as u128);
            if v < max as u128 {
                v as u64
            } else {
                max
            }
        }
    }
}

} // verus!
