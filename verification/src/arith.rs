//! Integer facts shared by the floating-point modules: powers of two, floor
//! division, and shifts of 128-bit words.
use vstd::arithmetic::div_mod::{
    lemma_div_pos_is_pos, lemma_fundamental_div_mod, lemma_fundamental_div_mod_converse,
};
use vstd::arithmetic::power2::{lemma2_to64, lemma_pow2_adds, lemma_pow2_pos, pow2};
use vstd::bits::lemma_u128_shr_is_div;
use vstd::prelude::*;

verus! {

/// `pow2(a + b)` splits, and every power of two is positive.
pub proof fn lemma_pow2_sum(a: nat, b: nat)
    ensures
        pow2(a + b) == pow2(a) * pow2(b),
        pow2(a) > 0,
        pow2(b) > 0,
        pow2(a + b) > 0,
{
    lemma_pow2_adds(a, b);
    lemma_pow2_pos(a);
    lemma_pow2_pos(b);
    lemma_pow2_pos(a + b);
}

/// Powers of two are monotone.
pub proof fn lemma_pow2_monotone(a: nat, b: nat)
    requires
        a <= b,
    ensures
        0 < pow2(a) <= pow2(b),
{
    let c: nat = (b - a) as nat;
    lemma_pow2_sum(a, c);
    let x: int = pow2(a) as int;
    let y: int = pow2(c) as int;
    assert(x <= x * y) by (nonlinear_arith)
        requires
            x > 0,
            y >= 1,
    ;
}

/// Doubling raises the exponent by one.
pub proof fn lemma_pow2_double(a: nat)
    ensures
        pow2(a + 1) == 2 * pow2(a),
        pow2(a) > 0,
{
    lemma2_to64();
    lemma_pow2_sum(a, 1);
}

/// A power of two with a positive exponent is even.
pub proof fn lemma_pow2_even(a: nat)
    requires
        a > 0,
    ensures
        pow2(a) % 2 == 0,
        pow2(a) == 2 * pow2((a - 1) as nat),
{
    lemma_pow2_double((a - 1) as nat);
}

/// Floor division and remainder are the only pair with these bounds.
pub proof fn lemma_div_unique(n: nat, d: nat, q: nat, r: nat)
    requires
        n == q * d + r,
        r < d,
    ensures
        n / d == q,
        n % d == r,
{
    lemma_fundamental_div_mod_converse(n as int, d as int, q as int, r as int);
}

/// A common factor cancels in a quotient and stays in a remainder.
pub proof fn lemma_div_scale(n: nat, d: nat, c: nat)
    requires
        d > 0,
        c > 0,
    ensures
        (n * c) / (d * c) == n / d,
        (n * c) % (d * c) == (n % d) * c,
        d * c > 0,
{
    lemma_fundamental_div_mod(n as int, d as int);
    lemma_div_pos_is_pos(n as int, d as int);
    let q: nat = n / d;
    let r: nat = n % d;
    assert(n * c == q * (d * c) + r * c) by (nonlinear_arith)
        requires
            n == d * q + r,
    ;
    assert(r * c < d * c) by (nonlinear_arith)
        requires
            r < d,
            c > 0,
    ;
    lemma_div_unique(n * c, d * c, q, r * c);
}

/// Dividing by `d` and then by `s` is dividing by `d * s`.
pub proof fn lemma_div_div(n: nat, d: nat, s: nat)
    requires
        d > 0,
        s > 0,
    ensures
        n / (d * s) == (n / d) / s,
        n % (d * s) == ((n / d) % s) * d + n % d,
        d * s > 0,
{
    lemma_fundamental_div_mod(n as int, d as int);
    lemma_div_pos_is_pos(n as int, d as int);
    let p: nat = n / d;
    let r: nat = n % d;
    lemma_fundamental_div_mod(p as int, s as int);
    lemma_div_pos_is_pos(p as int, s as int);
    let q: nat = p / s;
    let t: nat = p % s;
    assert(n == q * (d * s) + (t * d + r)) by (nonlinear_arith)
        requires
            n == d * p + r,
            p == s * q + t,
    ;
    assert(t * d + r < d * s) by (nonlinear_arith)
        requires
            t < s,
            r < d,
    ;
    lemma_div_unique(n, d * s, q, t * d + r);
}

/// Shifting a 128-bit word left multiplies by a power of two when nothing falls off.
pub proof fn lemma_shl_u128(x: u128, s: u128)
    requires
        s < 128,
        x * pow2(s as nat) <= u128::MAX,
    ensures
        x << s == x * pow2(s as nat),
    decreases s,
{
    lemma2_to64();
    if s == 0 {
        assert(x << 0u128 == x) by (bit_vector);
        vstd::arithmetic::mul::lemma_mul_basics(x as int);
    } else {
        let t: u128 = (s - 1) as u128;
        lemma_pow2_double(t as nat);
        let w: int = pow2(t as nat) as int;
        assert(x * w <= x * (2 * w) && x * (2 * w) == 2 * (x * w)) by (nonlinear_arith)
            requires
                x >= 0,
                w > 0,
        ;
        lemma_shl_u128(x, t);
        let y: u128 = x << t;
        assert(x << s == (x << t) << 1u128) by (bit_vector)
            requires
                s == t + 1,
                s < 128,
        ;
        assert(y << 1u128 == 2 * y) by (bit_vector)
            requires
                y <= 0x7fff_ffff_ffff_ffff_ffff_ffff_ffff_ffffu128,
        ;
        assert(x * pow2(s as nat) == x * (2 * w));
    }
}

/// `x * 2^s`, computed by a shift.
pub fn shl(x: u128, s: u128) -> (r: u128)
    requires
        s < 128,
        x * pow2(s as nat) <= u128::MAX,
    ensures
        r == x * pow2(s as nat),
{
    proof {
        lemma_shl_u128(x, s);
    }
    x << s
}

/// `floor(x / 2^s)`, computed by a shift.
pub fn shr(x: u128, s: u128) -> (r: u128)
    requires
        s < 128,
    ensures
        r == x as nat / pow2(s as nat),
        r <= x,
{
    proof {
        lemma_u128_shr_is_div(x, s);
        lemma_pow2_pos(s as nat);
        vstd::arithmetic::div_mod::lemma_div_nonincreasing(x as int, pow2(s as nat) as int);
    }
    x >> s
}

/// One halving step of the bit-length search: moves the top `s` bits of `x` down when the
/// value does not fit in `s` bits.
fn bit_length_step(x: u128, s: u128) -> (r: (u128, u128))
    requires
        0 < s < 128,
    ensures
        r.1 == 0 ==> r.0 == x && x < pow2(s as nat),
        r.1 != 0 ==> r.1 == s && r.0 > 0 && r.0 == x as nat / pow2(s as nat),
{
    let h: u128 = shr(x, s);
    proof {
        lemma_pow2_pos(s as nat);
        let w: int = pow2(s as nat) as int;
        lemma_fundamental_div_mod(x as int, w);
        assert(w * (x as int / w) == 0 || x as int / w != 0) by (nonlinear_arith);
    }
    if h == 0 {
        (x, 0)
    } else {
        (h, s)
    }
}

/// The number of bits needed to write `x`: `0` for zero, otherwise the one `l` with
/// `2^(l-1) <= x < 2^l`.
pub fn bit_length(x: u128) -> (l: u32)
    ensures
        l <= 128,
        x < pow2(l as nat),
        x == 0 <==> l == 0,
        l > 0 ==> pow2((l - 1) as nat) <= x,
{
    if x == 0 {
        proof {
            lemma2_to64();
        }
        return 0;
    }
    let mut v: u128 = x;
    let mut n: u32 = 0;
    let mut s: u128 = 64;
    proof {
        lemma2_to64();
        assert(x < pow2(64) * pow2(64)) by {
            assert(pow2(64) == 0x1_0000_0000_0000_0000);
        }
        lemma_pow2_sum(64, 64);
    }
    while s > 0
        invariant
            s == 64 || s == 32 || s == 16 || s == 8 || s == 4 || s == 2 || s == 1 || s == 0,
            v > 0,
            n + 2 * s <= 128,
            s > 0 ==> v < pow2((2 * s) as nat),
            s == 0 ==> v == 1 && n <= 127,
            v == x as nat / pow2(n as nat),
        decreases s,
    {
        let (u, k) = bit_length_step(v, s);
        proof {
            lemma_pow2_sum(s as nat, s as nat);
            if k != 0 {
                lemma_pow2_sum(n as nat, s as nat);
                lemma_div_div(x as nat, pow2(n as nat), pow2(s as nat));
                assert(u < pow2(s as nat)) by {
                    let w: int = pow2(s as nat) as int;
                    lemma_fundamental_div_mod(v as int, w);
                    assert(u < w) by (nonlinear_arith)
                        requires
                            v == w * u + v as int % w,
                            0 <= v as int % w,
                            v < w * w,
                            w > 0,
                    ;
                }
            }
            lemma2_to64();
        }
        n = n + k as u32;
        v = u;
        s = s / 2;
    }
    proof {
        let w: int = pow2(n as nat) as int;
        lemma_pow2_pos(n as nat);
        lemma_fundamental_div_mod(x as int, w);
        lemma_pow2_double(n as nat);
    }
    n + 1
}

} // verus!
