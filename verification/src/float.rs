//! Floating-point data of either layout: sign, exceptional values, arithmetic and order.
//!
//! Arithmetic is that of IEEE 754 with rounding to nearest, ties to even. Whatever is not a
//! number comes out as one fixed such word.
use vstd::arithmetic::power2::pow2;
use vstd::prelude::*;

use crate::rounding::{
    difference, divide, inf_bits, is_layout, lemma_magnitude_monotone, lemma_magnitude_zero,
    magnitude, multiply, round_magnitude, sum, truncate, unit_exp, whole,
};

verus! {

/// A floating-point datum, the sign apart from the rest of its bits.
#[derive(Clone, Copy, PartialEq, Eq, Structural)]
pub struct Word {
    pub neg: bool,
    pub mag: u64,
}

/// The datum is not a number.
pub open spec fn is_nan(w: nat, a: Word) -> bool {
    a.mag > inf_bits(w)
}

/// The datum is one of the two infinities.
pub open spec fn is_inf(w: nat, a: Word) -> bool {
    a.mag == inf_bits(w)
}

/// The datum is a number, and not infinite.
pub open spec fn is_finite(w: nat, a: Word) -> bool {
    a.mag < inf_bits(w)
}

/// The value of a datum in units of the smallest positive magnitude; an infinity lies beyond
/// every finite value.
pub open spec fn value(w: nat, a: Word) -> int {
    if a.neg {
        -(magnitude(w, a.mag as nat) as int)
    } else {
        magnitude(w, a.mag as nat) as int
    }
}

/// The word that stands for every result that is not a number.
pub open spec fn nan_word(w: nat) -> Word {
    Word { neg: false, mag: (inf_bits(w) + pow2((w - 1) as nat)) as u64 }
}

/// An infinity.
pub open spec fn inf_word(w: nat, neg: bool) -> Word {
    Word { neg, mag: inf_bits(w) as u64 }
}

/// The datum nearest to the signed fraction `n / d` of units.
pub open spec fn nearest(w: nat, neg: bool, n: nat, d: nat) -> Word {
    Word { neg, mag: round_magnitude(w, n, d) as u64 }
}

/// The opposite datum.
pub open spec fn opposite(a: Word) -> Word {
    Word { neg: !a.neg, mag: a.mag }
}

/// The sum: the exact one, rounded. An exact zero is negative only as a sum of negative zeros.
#[verifier::opaque]
pub open spec fn added(w: nat, a: Word, b: Word) -> Word {
    if is_nan(w, a) || is_nan(w, b) {
        nan_word(w)
    } else if is_inf(w, a) {
        if is_inf(w, b) && a.neg != b.neg {
            nan_word(w)
        } else {
            a
        }
    } else if is_inf(w, b) {
        b
    } else {
        let s = value(w, a) + value(w, b);
        if s > 0 {
            nearest(w, false, s as nat, 1)
        } else if s < 0 {
            nearest(w, true, (-s) as nat, 1)
        } else {
            Word { neg: a.neg && b.neg, mag: 0 }
        }
    }
}

/// The product: the exact one, rounded.
#[verifier::opaque]
pub open spec fn multiplied(w: nat, a: Word, b: Word) -> Word {
    let neg = a.neg != b.neg;
    if is_nan(w, a) || is_nan(w, b) {
        nan_word(w)
    } else if is_inf(w, a) || is_inf(w, b) {
        if a.mag == 0 || b.mag == 0 {
            nan_word(w)
        } else {
            inf_word(w, neg)
        }
    } else {
        nearest(
            w,
            neg,
            magnitude(w, a.mag as nat) * magnitude(w, b.mag as nat),
            pow2(unit_exp(w)),
        )
    }
}

/// The quotient: the exact one, rounded.
#[verifier::opaque]
pub open spec fn divided(w: nat, a: Word, b: Word) -> Word {
    let neg = a.neg != b.neg;
    if is_nan(w, a) || is_nan(w, b) {
        nan_word(w)
    } else if is_inf(w, a) {
        if is_inf(w, b) {
            nan_word(w)
        } else {
            inf_word(w, neg)
        }
    } else if is_inf(w, b) {
        Word { neg, mag: 0 }
    } else if b.mag == 0 {
        if a.mag == 0 {
            nan_word(w)
        } else {
            inf_word(w, neg)
        }
    } else {
        nearest(
            w,
            neg,
            magnitude(w, a.mag as nat) * pow2(unit_exp(w)),
            magnitude(w, b.mag as nat),
        )
    }
}

/// `a < b` by value; nothing is smaller or larger than what is not a number.
#[verifier::opaque]
pub open spec fn less(w: nat, a: Word, b: Word) -> bool {
    !is_nan(w, a) && !is_nan(w, b) && value(w, a) < value(w, b)
}

/// `a <= b` by value.
#[verifier::opaque]
pub open spec fn at_most(w: nat, a: Word, b: Word) -> bool {
    !is_nan(w, a) && !is_nan(w, b) && value(w, a) <= value(w, b)
}

/// The whole part of a positive number, cut at `max`; zero for the rest.
pub open spec fn truncated(w: nat, a: Word, max: nat) -> nat {
    if a.neg || is_nan(w, a) {
        0
    } else if is_inf(w, a) {
        max
    } else {
        let v = magnitude(w, a.mag as nat) / pow2(unit_exp(w));
        if v < max {
            v
        } else {
            max
        }
    }
}

fn inf_of(w: u32) -> (r: u64)
    requires
        is_layout(w as nat),
    ensures
        r == inf_bits(w as nat),
{
    if w == 23 {
        0x7f80_0000
    } else {
        0x7ff0_0000_0000_0000
    }
}

fn nan_of(w: u32) -> (r: Word)
    requires
        is_layout(w as nat),
    ensures
        r == nan_word(w as nat),
{
    proof {
        vstd::arithmetic::power2::lemma2_to64();
        vstd::arithmetic::power2::lemma2_to64_rest();
    }
    if w == 23 {
        Word { neg: false, mag: 0x7fc0_0000 }
    } else {
        Word { neg: false, mag: 0x7ff8_0000_0000_0000 }
    }
}

/// The sum of two data.
pub fn add_words(w: u32, a: Word, b: Word) -> (r: Word)
    requires
        is_layout(w as nat),
    ensures
        r == added(w as nat, a, b),
{
    proof {
        reveal(added);
    }
    let inf: u64 = inf_of(w);
    if a.mag > inf || b.mag > inf {
        return nan_of(w);
    }
    if a.mag == inf {
        if b.mag == inf && a.neg != b.neg {
            return nan_of(w);
        }
        return a;
    }
    if b.mag == inf {
        return b;
    }
    proof {
        lemma_magnitude_zero(w as nat, a.mag as nat);
        lemma_magnitude_zero(w as nat, b.mag as nat);
    }
    if a.neg == b.neg {
        if a.mag == 0 && b.mag == 0 {
            return Word { neg: a.neg, mag: 0 };
        }
        return Word { neg: a.neg, mag: sum(w, a.mag, b.mag) };
    }
    if a.mag == b.mag {
        return Word { neg: false, mag: 0 };
    }
    if a.mag > b.mag {
        proof {
            lemma_magnitude_monotone(w as nat, b.mag as nat, a.mag as nat);
        }
        Word { neg: a.neg, mag: difference(w, a.mag, b.mag) }
    } else {
        proof {
            lemma_magnitude_monotone(w as nat, a.mag as nat, b.mag as nat);
        }
        Word { neg: b.neg, mag: difference(w, b.mag, a.mag) }
    }
}

/// The product of two data.
pub fn mul_words(w: u32, a: Word, b: Word) -> (r: Word)
    requires
        is_layout(w as nat),
    ensures
        r == multiplied(w as nat, a, b),
{
    proof {
        reveal(multiplied);
    }
    let inf: u64 = inf_of(w);
    let neg: bool = a.neg != b.neg;
    if a.mag > inf || b.mag > inf {
        return nan_of(w);
    }
    if a.mag == inf || b.mag == inf {
        if a.mag == 0 || b.mag == 0 {
            return nan_of(w);
        }
        return Word { neg, mag: inf };
    }
    Word { neg, mag: multiply(w, a.mag, b.mag) }
}

/// The quotient of two data.
pub fn div_words(w: u32, a: Word, b: Word) -> (r: Word)
    requires
        is_layout(w as nat),
    ensures
        r == divided(w as nat, a, b),
{
    proof {
        reveal(divided);
    }
    let inf: u64 = inf_of(w);
    let neg: bool = a.neg != b.neg;
    if a.mag > inf || b.mag > inf {
        return nan_of(w);
    }
    if a.mag == inf {
        if b.mag == inf {
            return nan_of(w);
        }
        return Word { neg, mag: inf };
    }
    if b.mag == inf {
        return Word { neg, mag: 0 };
    }
    if b.mag == 0 {
        if a.mag == 0 {
            return nan_of(w);
        }
        return Word { neg, mag: inf };
    }
    Word { neg, mag: divide(w, a.mag, b.mag) }
}

/// `a < b`, read off the bits.
pub fn less_words(w: u32, a: Word, b: Word) -> (r: bool)
    requires
        is_layout(w as nat),
    ensures
        r == less(w as nat, a, b),
{
    proof {
        reveal(less);
    }
    let inf: u64 = inf_of(w);
    if a.mag > inf || b.mag > inf {
        return false;
    }
    proof {
        lemma_value_order(w as nat, a, b);
    }
    if a.neg {
        if b.neg {
            a.mag > b.mag
        } else {
            a.mag != 0 || b.mag != 0
        }
    } else {
        !b.neg && a.mag < b.mag
    }
}

/// `a <= b`, read off the bits.
pub fn at_most_words(w: u32, a: Word, b: Word) -> (r: bool)
    requires
        is_layout(w as nat),
    ensures
        r == at_most(w as nat, a, b),
{
    proof {
        reveal(less);
    }
    proof {
        reveal(at_most);
    }
    let inf: u64 = inf_of(w);
    if a.mag > inf || b.mag > inf {
        return false;
    }
    !less_words(w, b, a)
}

/// The order of values is the order of the bits, signs considered.
proof fn lemma_value_order(w: nat, a: Word, b: Word)
    ensures
        a.mag < b.mag ==> magnitude(w, a.mag as nat) < magnitude(w, b.mag as nat),
        b.mag < a.mag ==> magnitude(w, b.mag as nat) < magnitude(w, a.mag as nat),
        magnitude(w, a.mag as nat) == 0 <==> a.mag == 0,
        magnitude(w, b.mag as nat) == 0 <==> b.mag == 0,
{
    if a.mag < b.mag {
        lemma_magnitude_monotone(w, a.mag as nat, b.mag as nat);
    }
    if b.mag < a.mag {
        lemma_magnitude_monotone(w, b.mag as nat, a.mag as nat);
    }
    lemma_magnitude_zero(w, a.mag as nat);
    lemma_magnitude_zero(w, b.mag as nat);
}

/// The datum nearest to a whole number.
pub fn word_of(w: u32, v: u64) -> (r: Word)
    requires
        is_layout(w as nat),
    ensures
        r == nearest(w as nat, false, v as nat * pow2(unit_exp(w as nat)), 1),
{
    Word { neg: false, mag: whole(w, v) }
}

/// The whole part of a datum, as an index.
pub fn truncate_word(w: u32, a: Word, max: u64) -> (r: u64)
    requires
        is_layout(w as nat),
    ensures
        r == truncated(w as nat, a, max as nat),
{
    let inf: u64 = inf_of(w);
    if a.neg || a.mag > inf {
        0
    } else if a.mag == inf {
        max
    } else {
        truncate(w, a.mag, max)
    }
}

} // verus!
