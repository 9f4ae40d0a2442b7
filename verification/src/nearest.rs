//! What rounding promises: the nearest magnitude, and how far it can be.
use vstd::arithmetic::div_mod::{lemma_div_pos_is_pos, lemma_fundamental_div_mod};
use vstd::arithmetic::power2::{lemma2_to64, lemma_pow2_pos, pow2};
use vstd::prelude::*;

use crate::arith::{
    lemma_div_unique, lemma_pow2_double, lemma_pow2_even, lemma_pow2_monotone, lemma_pow2_sum,
};
use crate::rounding::{
    binade, in_binade, inf_bits, is_layout, lemma_binade_unique, lemma_magnitude_monotone,
    lemma_round_scale, magnitude, round_half_even, round_magnitude,
};

verus! {

/// How far `m` is from `n / d`, counted in `d`-ths.
pub open spec fn miss(m: int, n: nat, d: nat) -> int {
    if m * d < n {
        n - m * d
    } else {
        m * d - n
    }
}

/// The word before it is cut at infinity.
pub open spec fn uncut(w: nat, n: nat, d: nat) -> nat {
    binade(w, n, d) * pow2(w) + round_half_even(n, d * pow2(binade(w, n, d)))
}

proof fn lemma_binade_below(w: nat, n: nat, d: nat, e: nat) -> (f: nat)
    requires
        n < d * pow2(w + 1 + e),
    ensures
        in_binade(w, n, d, f),
    decreases e,
{
    if e == 0 || d * pow2(w + e) <= n {
        e
    } else {
        lemma_binade_below(w, n, d, (e - 1) as nat)
    }
}

proof fn lemma_pow2_exceeds(n: nat)
    ensures
        n < pow2(n),
    decreases n,
{
    lemma2_to64();
    if n > 0 {
        lemma_pow2_exceeds((n - 1) as nat);
        lemma_pow2_double((n - 1) as nat);
    }
}

/// Every fraction lies in a binade.
pub proof fn lemma_binade_exists(w: nat, n: nat, d: nat)
    requires
        d > 0,
    ensures
        in_binade(w, n, d, binade(w, n, d)),
{
    lemma_pow2_exceeds(n);
    lemma_pow2_monotone(n, w + 1 + n);
    let x: int = pow2(w + 1 + n) as int;
    assert(n < d * x) by (nonlinear_arith)
        requires
            n < x,
            d >= 1,
    ;
    let f = lemma_binade_below(w, n, d, n);
    lemma_binade_unique(w, n, d, f);
}

/// A significand of one spacing, written as a word, stands for that many spacings.
pub proof fn lemma_magnitude_of_parts(w: nat, e: nat, m: nat)
    requires
        m <= pow2(w + 1),
        e == 0 || pow2(w) <= m,
    ensures
        magnitude(w, e * pow2(w) + m) == m * pow2(e),
{
    let c: nat = pow2(w);
    lemma_pow2_double(w);
    lemma2_to64();
    let b: nat = e * c + m;
    if m < c {
        lemma_div_unique(b, c, e, m);
        vstd::arithmetic::mul::lemma_mul_basics(m as int);
    } else if m < 2 * c {
        assert(b == (e + 1) * c + (m - c)) by (nonlinear_arith)
            requires
                b == e * c + m,
        ;
        lemma_div_unique(b, c, e + 1, (m - c) as nat);
    } else {
        assert(b == (e + 2) * c + 0) by (nonlinear_arith)
            requires
                b == e * c + 2 * c,
        ;
        lemma_div_unique(b, c, e + 2, 0);
        lemma_pow2_double(e);
        assert(c * pow2(e + 1) == (2 * c) * pow2(e)) by (nonlinear_arith)
            requires
                pow2(e + 1) == 2 * pow2(e),
        ;
    }
}

/// The whole number nearest to a fraction is at most half away, and no other is nearer; one
/// equally near leaves an even result.
pub proof fn lemma_half_even_nearest(n: nat, d: nat, j: int)
    requires
        d > 0,
    ensures
        2 * miss(round_half_even(n, d) as int, n, d) <= d,
        miss(round_half_even(n, d) as int, n, d) <= miss(j, n, d),
        j != round_half_even(n, d) && miss(round_half_even(n, d) as int, n, d) == miss(j, n, d) ==> round_half_even(n, d) % 2 == 0,
{
    lemma_fundamental_div_mod(n as int, d as int);
    lemma_div_pos_is_pos(n as int, d as int);
    let q: int = (n / d) as int;
    let r: int = (n % d) as int;
    let m: int = round_half_even(n, d) as int;
    let dd: int = d as int;
    assert(n == dd * q + r);
    assert(m * dd - n == (m - q) * dd - r) by (nonlinear_arith)
        requires
            n == dd * q + r,
    ;
    assert((m - q) * dd == if m == q {
        0
    } else {
        dd
    }) by {
        assert(0 * dd == 0 && 1 * dd == dd) by (nonlinear_arith);
    }
    assert(j * dd - n == (j - q) * dd - r) by (nonlinear_arith)
        requires
            n == dd * q + r,
    ;
    if j <= q {
        assert((j - q) * dd <= 0 && (j < q ==> (j - q) * dd <= -dd)) by (nonlinear_arith)
            requires
                j <= q,
                dd > 0,
        ;
        if j == q {
            assert((j - q) * dd == 0) by (nonlinear_arith)
                requires
                    j == q,
            ;
        }
    } else {
        assert((j - q) * dd >= dd && (j > q + 1 ==> (j - q) * dd >= 2 * dd)) by (nonlinear_arith)
            requires
                j >= q + 1,
                dd > 0,
        ;
        if j == q + 1 {
            assert((j - q) * dd == dd) by (nonlinear_arith)
                requires
                    j == q + 1,
            ;
        }
    }
}

/// How the rounded word comes about: a significand within its binade, at most half a spacing
/// from the exact value.
pub proof fn lemma_round_parts(w: nat, n: nat, d: nat)
    requires
        d > 0,
    ensures
        ({
            let e = binade(w, n, d);
            let m = round_half_even(n, d * pow2(e));
            &&& in_binade(w, n, d, e)
            &&& m <= pow2(w + 1)
            &&& e == 0 || pow2(w) <= m
            &&& magnitude(w, uncut(w, n, d)) == m * pow2(e)
            &&& 2 * miss(magnitude(w, uncut(w, n, d)) as int, n, d) <= d * pow2(e)
        }),
{
    lemma_binade_exists(w, n, d);
    let e: nat = binade(w, n, d);
    lemma_pow2_pos(e);
    let dd: nat = d * pow2(e);
    assert(dd > 0) by (nonlinear_arith)
        requires
            dd == d * pow2(e),
            d > 0,
            pow2(e) > 0,
    ;
    let m: nat = round_half_even(n, dd);
    lemma_pow2_sum(w + 1, e);
    lemma_pow2_sum(w, e);
    let top: int = pow2(w + 1) as int;
    let low: int = pow2(w) as int;
    assert(top * dd == d * pow2(w + 1 + e)) by (nonlinear_arith)
        requires
            dd == d * pow2(e),
            pow2(w + 1 + e) == top * pow2(e),
    ;
    assert(low * dd == d * pow2(w + e)) by (nonlinear_arith)
        requires
            dd == d * pow2(e),
            pow2(w + e) == low * pow2(e),
    ;
    lemma_half_even_nearest(n, dd, top);
    // a larger significand would be farther away than the end of the binade
    assert(m <= top) by {
        if m > top {
            assert(m * dd >= top * dd + dd) by (nonlinear_arith)
                requires
                    m >= top + 1,
                    dd > 0,
            ;
        }
    }
    if e > 0 {
        lemma_half_even_nearest(n, dd, low);
        assert(low <= m) by {
            if m < low {
                assert(m * dd + dd <= low * dd) by (nonlinear_arith)
                    requires
                        m + 1 <= low,
                        dd > 0,
                ;
            }
        }
    }
    lemma_magnitude_of_parts(w, e, m);
    assert((m * pow2(e)) * d == m * dd) by (nonlinear_arith)
        requires
            dd == d * pow2(e),
    ;
}

/// No magnitude is nearer to the exact value than the rounded one; one equally near leaves an
/// even word. (Infinity counts as the magnitude after the largest finite one.)
pub proof fn law_rounding_is_nearest(w: nat, n: nat, d: nat, c: nat)
    requires
        is_layout(w),
        d > 0,
        c <= inf_bits(w),
    ensures
        miss(magnitude(w, round_magnitude(w, n, d)) as int, n, d) <= miss(magnitude(w, c) as int, n, d),
        c != round_magnitude(w, n, d) && miss(magnitude(w, round_magnitude(w, n, d)) as int, n, d) == miss(magnitude(w, c) as int, n, d) ==> round_magnitude(w, n, d) % 2 == 0,
{
    lemma_round_parts(w, n, d);
    lemma_pow2_even(w);
    let e: nat = binade(w, n, d);
    let full: nat = uncut(w, n, d);
    let r: nat = round_magnitude(w, n, d);
    lemma_uncut_is_nearest(w, n, d, c);
    if full > r {
        // cut at infinity: the exact value lies at or beyond the middle of infinity and the
        // uncut word, hence beyond every smaller magnitude's middle
        lemma_uncut_is_nearest(w, n, d, r);
        lemma_magnitude_monotone(w, r, full);
        let mr: int = magnitude(w, r) as int;
        let mf: int = magnitude(w, full) as int;
        let mc: int = magnitude(w, c) as int;
        let dd: int = d as int;
        assert(mr * dd < mf * dd) by (nonlinear_arith)
            requires
                mr < mf,
                dd > 0,
        ;
        if c < r {
            lemma_magnitude_monotone(w, c, r);
            assert(mc * dd < mr * dd) by (nonlinear_arith)
                requires
                    mc < mr,
                    dd > 0,
            ;
        }
    } else {
        if c < r {
            lemma_magnitude_monotone(w, c, r);
        } else if r < c {
            lemma_magnitude_monotone(w, r, c);
        }
        // the word is even exactly when the significand is
        let m: nat = round_half_even(n, d * pow2(e));
        let c2: int = pow2((w - 1) as nat) as int;
        assert((e * pow2(w) + m) % 2 == m % 2) by {
            assert(e * pow2(w) == 2 * (e * c2)) by (nonlinear_arith)
                requires
                    pow2(w) == 2 * c2,
            ;
        }
    }
}

proof fn lemma_uncut_is_nearest(w: nat, n: nat, d: nat, c: nat)
    requires
        d > 0,
    ensures
        miss(magnitude(w, uncut(w, n, d)) as int, n, d) <= miss(magnitude(w, c) as int, n, d),
        magnitude(w, c) != magnitude(w, uncut(w, n, d)) && miss(magnitude(w, uncut(w, n, d)) as int, n, d) == miss(magnitude(w, c) as int, n, d) ==> round_half_even(
            n,
            d * pow2(binade(w, n, d)),
        ) % 2 == 0,
{
    lemma_round_parts(w, n, d);
    let e: nat = binade(w, n, d);
    lemma_pow2_pos(e);
    lemma_pow2_pos(w);
    let dd: nat = d * pow2(e);
    assert(dd > 0) by (nonlinear_arith)
        requires
            dd == d * pow2(e),
            d > 0,
            pow2(e) > 0,
    ;
    let m: nat = round_half_even(n, dd);
    assert((m * pow2(e)) * d == m * dd) by (nonlinear_arith)
        requires
            dd == d * pow2(e),
    ;
    let field: nat = c / pow2(w);
    let mc: nat = magnitude(w, c);
    if e == 0 || field > e {
        // a multiple of the spacing
        let j: nat = if e == 0 {
            mc
        } else {
            (pow2(w) + c % pow2(w)) * pow2((field - 1 - e) as nat)
        };
        lemma2_to64();
        if e > 0 {
            lemma_pow2_sum((field - 1 - e) as nat, e);
            assert(mc == j * pow2(e)) by (nonlinear_arith)
                requires
                    mc == (pow2(w) + c % pow2(w)) * pow2((field - 1) as nat),
                    j == (pow2(w) + c % pow2(w)) * pow2((field - 1 - e) as nat),
                    pow2((field - 1) as nat) == pow2((field - 1 - e) as nat) * pow2(e),
            ;
        } else {
            vstd::arithmetic::mul::lemma_mul_basics(j as int);
        }
        assert(mc * d == j * dd) by (nonlinear_arith)
            requires
                mc == j * pow2(e),
                dd == d * pow2(e),
        ;
        lemma_half_even_nearest(n, dd, j as int);
    } else {
        // below the binade, and farther away than its lower end
        lemma_fundamental_div_mod(c as int, pow2(w) as int);
        lemma_pow2_sum(w, e);
        let low: int = pow2(w) as int;
        let fr: int = (c % pow2(w)) as int;
        assert(mc < low * pow2(e)) by {
            if field == 0 {
                lemma_pow2_monotone(0, e);
                lemma2_to64();
                assert(low <= low * pow2(e)) by (nonlinear_arith)
                    requires
                        pow2(e) >= 1,
                        low > 0,
                ;
            } else {
                lemma_pow2_double((field - 1) as nat);
                lemma_pow2_monotone(field, e);
                let s: int = pow2((field - 1) as nat) as int;
                assert((low + fr) * s < low * pow2(e)) by (nonlinear_arith)
                    requires
                        0 <= fr < low,
                        2 * s <= pow2(e),
                        s > 0,
                ;
            }
        }
        assert(mc * d < low * dd) by (nonlinear_arith)
            requires
                mc < low * pow2(e),
                dd == d * pow2(e),
                d > 0,
        ;
        assert(low * dd == d * pow2(w + e)) by (nonlinear_arith)
            requires
                dd == d * pow2(e),
                pow2(w + e) == low * pow2(e),
        ;
        lemma_half_even_nearest(n, dd, low);
    }
}

/// What can be represented rounds to itself.
pub proof fn lemma_round_representable(w: nat, b: nat, n: nat, d: nat)
    requires
        is_layout(w),
        d > 0,
        b <= inf_bits(w),
        n == magnitude(w, b) * d,
    ensures
        round_magnitude(w, n, d) == b,
{
    law_rounding_is_nearest(w, n, d, b);
    let r: nat = round_magnitude(w, n, d);
    let mr: int = magnitude(w, r) as int;
    let mb: int = magnitude(w, b) as int;
    if r != b {
        if r < b {
            lemma_magnitude_monotone(w, r, b);
        } else {
            lemma_magnitude_monotone(w, b, r);
        }
        assert(mr * d != mb * d) by (nonlinear_arith)
            requires
                mr != mb,
                d > 0,
        ;
    }
}

/// Rounding keeps the order: a smaller fraction does not round to a larger word.
pub proof fn law_rounding_is_monotone(w: nat, n1: nat, d1: nat, n2: nat, d2: nat)
    requires
        is_layout(w),
        d1 > 0,
        d2 > 0,
        n1 * d2 <= n2 * d1,
    ensures
        round_magnitude(w, n1, d1) <= round_magnitude(w, n2, d2),
{
    let r1: nat = round_magnitude(w, n1, d1);
    let r2: nat = round_magnitude(w, n2, d2);
    if r1 > r2 {
        law_rounding_is_nearest(w, n1, d1, r2);
        law_rounding_is_nearest(w, n2, d2, r1);
        lemma_magnitude_monotone(w, r2, r1);
        let hi: int = magnitude(w, r1) as int;
        let lo: int = magnitude(w, r2) as int;
        let a: int = n1 as int;
        let b: int = n2 as int;
        let c: int = d1 as int;
        let d: int = d2 as int;
        assert(lo * c < hi * c && lo * d < hi * d) by (nonlinear_arith)
            requires
                lo < hi,
                c > 0,
                d > 0,
        ;
        // the first fraction lies in the upper half, the second in the lower one
        assert(2 * a >= hi * c + lo * c);
        assert(2 * b <= hi * d + lo * d);
        assert(2 * (a * d) >= (hi * c + lo * c) * d) by (nonlinear_arith)
            requires
                2 * a >= hi * c + lo * c,
                d > 0,
        ;
        assert(2 * (b * c) <= (hi * d + lo * d) * c) by (nonlinear_arith)
            requires
                2 * b <= hi * d + lo * d,
                c > 0,
        ;
        assert((hi * c + lo * c) * d == (hi * d + lo * d) * c) by (nonlinear_arith);
        assert(2 * a == hi * c + lo * c) by (nonlinear_arith)
            requires
                2 * (a * d) == (hi * c + lo * c) * d,
                d > 0,
        ;
        // both lie in the middle, so both words are even, and a word between them is nearer
        assert(r1 % 2 == 0);
        assert(2 * b == hi * d + lo * d) by (nonlinear_arith)
            requires
                2 * (b * c) == (hi * d + lo * d) * c,
                c > 0,
        ;
        assert(r2 % 2 == 0);
        let mid: nat = r2 + 1;
        lemma_magnitude_monotone(w, r2, mid);
        lemma_magnitude_monotone(w, mid, r1);
        law_rounding_is_nearest(w, n1, d1, mid);
        let mm: int = magnitude(w, mid) as int;
        assert(lo * c < mm * c < hi * c) by (nonlinear_arith)
            requires
                lo < mm < hi,
                c > 0,
        ;
    }
}

/// What is a short multiple of a power of two can be represented, if it is not too large.
pub proof fn lemma_round_exact(w: nat, k: nat, e: nat, b: nat)
    requires
        is_layout(w),
        k < pow2(w + 1),
        b < inf_bits(w),
        k * pow2(e) <= magnitude(w, b),
    ensures
        round_magnitude(w, k * pow2(e), 1) <= b,
        magnitude(w, round_magnitude(w, k * pow2(e), 1)) == k * pow2(e),
{
    let n: nat = k * pow2(e);
    let top: nat = magnitude(w, b);
    assert(top * 1 == top);
    law_rounding_is_monotone(w, n, 1, top, 1);
    lemma_round_representable(w, b, top, 1);
    lemma_round_parts(w, n, 1);
    let f: nat = binade(w, n, 1);
    lemma_pow2_pos(e);
    lemma_pow2_pos(f);
    if f > e {
        lemma_pow2_sum(w + 1, e);
        lemma_pow2_monotone(w + 1 + e, w + f);
        assert(n < pow2(w + 1) * pow2(e)) by (nonlinear_arith)
            requires
                n == k * pow2(e),
                k < pow2(w + 1),
                pow2(e) > 0,
        ;
    }
    let g: nat = (e - f) as nat;
    lemma_pow2_sum(g, f);
    let d: nat = 1 * pow2(f);
    let q: nat = k * pow2(g);
    assert(n == q * d + 0) by (nonlinear_arith)
        requires
            n == k * pow2(e),
            pow2(e) == pow2(g) * pow2(f),
            q == k * pow2(g),
            d == pow2(f),
    ;
    lemma_div_unique(n, d, q, 0);
    assert(round_half_even(n, d) == q);
}

/// Twice a fraction rounds to twice what the fraction rounds to, where neither is too small nor
/// too large.
pub proof fn lemma_round_doubles(w: nat, n: nat, d: nat)
    requires
        is_layout(w),
        d > 0,
        d * pow2(w) <= n,
        round_magnitude(w, 2 * n, d) < inf_bits(w),
    ensures
        magnitude(w, round_magnitude(w, 2 * n, d)) == 2 * magnitude(w, round_magnitude(w, n, d)),
{
    let n2: nat = 2 * n;
    lemma_round_parts(w, n, d);
    lemma_round_parts(w, n2, d);
    let e: nat = binade(w, n, d);
    lemma2_to64();
    lemma_pow2_double(e);
    lemma_pow2_double(w + 1 + e);
    lemma_pow2_double(w + e);
    let a: int = pow2(w + 1 + e) as int;
    let b: int = pow2(w + e) as int;
    assert(n2 < d * pow2(w + 1 + (e + 1))) by (nonlinear_arith)
        requires
            n < d * a,
            n2 == 2 * n,
            pow2(w + 1 + (e + 1)) == 2 * a,
    ;
    assert(d * pow2(w + e) <= n);
    assert(d * pow2(w + (e + 1)) <= n2) by (nonlinear_arith)
        requires
            d * b <= n,
            n2 == 2 * n,
            pow2(w + (e + 1)) == 2 * b,
    ;
    lemma_binade_unique(w, n2, d, e + 1);
    let dd: nat = d * pow2(e);
    lemma_pow2_pos(e);
    assert(dd > 0) by (nonlinear_arith)
        requires
            dd == d * pow2(e),
            d > 0,
            pow2(e) > 0,
    ;
    assert(d * pow2(e + 1) == 2 * dd) by (nonlinear_arith)
        requires
            dd == d * pow2(e),
            pow2(e + 1) == 2 * pow2(e),
    ;
    lemma_round_scale(n, dd, 2);
    let m: nat = round_half_even(n, dd);
    assert(m * pow2(e + 1) == 2 * (m * pow2(e))) by (nonlinear_arith)
        requires
            pow2(e + 1) == 2 * pow2(e),
    ;
    // the smaller word is not cut either
    lemma_round_monotone(w, n, n2, d);
}

/// The larger of two fractions with one denominator rounds to no less.
pub proof fn lemma_round_monotone(w: nat, n1: nat, n2: nat, d: nat)
    requires
        is_layout(w),
        d > 0,
        n1 <= n2,
    ensures
        round_magnitude(w, n1, d) <= round_magnitude(w, n2, d),
{
    assert(n1 * d <= n2 * d) by (nonlinear_arith)
        requires
            n1 <= n2,
    ;
    law_rounding_is_monotone(w, n1, d, n2, d);
}

/// `n`, or `2^w` units where that is more, counted in `d`-ths.
pub open spec fn slack(w: nat, n: nat, d: nat) -> nat {
    if n >= d * pow2(w) {
        n
    } else {
        d * pow2(w)
    }
}

/// Rounding up adds at most one part in `2^(w+1)`, or half a unit where that is more.
pub proof fn lemma_round_up_error(w: nat, n: nat, d: nat)
    requires
        is_layout(w),
        d > 0,
    ensures
        pow2(w + 1) * (magnitude(w, round_magnitude(w, n, d)) * d) <= pow2(w + 1) * n + slack(
            w,
            n,
            d,
        ),
{
    lemma_round_parts(w, n, d);
    let e: nat = binade(w, n, d);
    let full: nat = uncut(w, n, d);
    let r: nat = round_magnitude(w, n, d);
    if r < full {
        lemma_magnitude_monotone(w, r, full);
    }
    let mr: int = magnitude(w, r) as int;
    let mf: int = magnitude(w, full) as int;
    let dd: int = d as int;
    assert(mr * dd <= mf * dd) by (nonlinear_arith)
        requires
            mr <= mf,
            dd > 0,
    ;
    let k: int = pow2(w + 1) as int;
    let h: int = pow2(w) as int;
    lemma_pow2_double(w);
    lemma_pow2_sum(w, e);
    lemma2_to64();
    let s: int = (d * pow2(e)) as int;
    // d * 2^e is at most the larger of n / 2^w and d
    let cap: int = slack(w, n, d) as int;
    assert(h * s <= cap) by {
        if e > 0 {
            assert(h * s == d * pow2(w + e)) by (nonlinear_arith)
                requires
                    s == d * pow2(e),
                    pow2(w + e) == h * pow2(e),
            ;
        } else {
            assert(s == d) by {
                vstd::arithmetic::mul::lemma_mul_basics(dd);
            }
            assert(h * s == d * pow2(w)) by (nonlinear_arith)
                requires
                    s == d,
                    h == pow2(w),
            ;
        }
    }
    let excess: int = mf * dd - n;
    assert(2 * excess <= s);
    assert(k * excess <= cap) by (nonlinear_arith)
        requires
            k == 2 * h,
            2 * excess <= s,
            h * s <= cap,
            h > 0,
    ;
    assert(k * (mr * dd) <= k * (n + excess)) by (nonlinear_arith)
        requires
            mr * dd <= n + excess,
            k > 0,
    ;
    assert(k * (n + excess) == k * n + k * excess) by (nonlinear_arith);
}

} // verus!
