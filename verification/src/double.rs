//! Double-precision numbers.
use vstd::arithmetic::power2::{lemma2_to64, lemma2_to64_rest, pow2};
use vstd::prelude::*;

use crate::float::{
    add_words, added, at_most, at_most_words, div_words, divided, nearest, opposite, value,
    word_of, Word,
};
use crate::rounding::{inf_bits, round_magnitude, unit_exp};

verus! {

/// A double-precision number, held as its bits: sign, eleven exponent bits, 52 fraction bits.
#[derive(Clone, Copy, Debug, PartialEq, Eq, Structural)]
pub struct Double {
    pub bits: u64,
}

impl Double {
    /// The datum that the bits stand for.
    pub open spec fn word(self) -> Word {
        Word { neg: self.bits >= 0x8000_0000_0000_0000, mag: (self.bits % 0x8000_0000_0000_0000) as u64 }
    }

    /// The number with the given datum.
    pub open spec fn of(a: Word) -> Double {
        Double {
            bits: if a.neg {
                (0x8000_0000_0000_0000 + a.mag) as u64
            } else {
                a.mag as u64
            },
        }
    }

    /// The value in units of `2^-1074`, for finite numbers.
    pub open spec fn value(self) -> int {
        value(52, self.word())
    }

    fn split(self) -> (r: Word)
        ensures
            r == self.word(),
    {
        Word { neg: self.bits >= 0x8000_0000_0000_0000, mag: (self.bits % 0x8000_0000_0000_0000) as u64 }
    }

    fn join(a: Word) -> (r: Double)
        requires
            a.mag < 0x8000_0000_0000_0000,
        ensures
            r == Double::of(a),
    {
        Double {
            bits: if a.neg {
                0x8000_0000_0000_0000 + a.mag as u64
            } else {
                a.mag as u64
            },
        }
    }

    /// The number with the given bits.
    pub open spec fn spec_from_bits(bits: u64) -> Double {
        Double { bits }
    }

    /// The number with the given bits.
    #[verifier::when_used_as_spec(spec_from_bits)]
    pub fn from_bits(bits: u64) -> (r: Double)
        ensures
            r == Double::spec_from_bits(bits),
    {
        Double { bits }
    }

    /// The bits of the number.
    pub fn to_bits(self) -> (r: u64)
        ensures
            r == self.bits,
    {
        self.bits
    }

    /// Zero.
    pub open spec fn spec_zero() -> Double {
        Double { bits: 0 }
    }

    /// Zero.
    #[verifier::when_used_as_spec(spec_zero)]
    pub fn zero() -> (r: Double)
        ensures
            r == Double::spec_zero(),
    {
        Double { bits: 0 }
    }

    /// One.
    pub open spec fn spec_one() -> Double {
        Double { bits: 0x3ff0_0000_0000_0000 }
    }

    /// One.
    #[verifier::when_used_as_spec(spec_one)]
    pub fn one() -> (r: Double)
        ensures
            r == Double::spec_one(),
    {
        Double { bits: 0x3ff0_0000_0000_0000 }
    }

    /// The exact sum, rounded to nearest.
    pub open spec fn spec_plus(self, other: Double) -> Double {
        Double::of(added(52, self.word(), other.word()))
    }

    /// The exact sum, rounded to nearest.
    #[verifier::when_used_as_spec(spec_plus)]
    pub fn plus(self, other: Double) -> (r: Double)
        ensures
            r == self.spec_plus(other),
    {
        proof {
            reveal(crate::float::added);
        }
        proof {
            lemma_double_bound(self);
            lemma_double_bound(other);
        }
        Double::join(add_words(52, self.split(), other.split()))
    }

    /// The exact difference, rounded to nearest.
    pub open spec fn spec_minus(self, other: Double) -> Double {
        Double::of(added(52, self.word(), opposite(other.word())))
    }

    /// The exact difference, rounded to nearest.
    #[verifier::when_used_as_spec(spec_minus)]
    pub fn minus(self, other: Double) -> (r: Double)
        ensures
            r == self.spec_minus(other),
    {
        proof {
            reveal(crate::float::added);
        }
        proof {
            lemma_double_bound(self);
            lemma_double_bound(other);
        }
        let b: Word = other.split();
        Double::join(add_words(52, self.split(), Word { neg: !b.neg, mag: b.mag }))
    }

    /// The exact quotient, rounded to nearest.
    pub open spec fn spec_over(self, other: Double) -> Double {
        Double::of(divided(52, self.word(), other.word()))
    }

    /// The exact quotient, rounded to nearest.
    #[verifier::when_used_as_spec(spec_over)]
    pub fn over(self, other: Double) -> (r: Double)
        ensures
            r == self.spec_over(other),
    {
        proof {
            reveal(crate::float::divided);
        }
        proof {
            lemma_double_bound(self);
            lemma_double_bound(other);
        }
        Double::join(div_words(52, self.split(), other.split()))
    }

    /// Larger or equal by value.
    pub open spec fn spec_ge(self, other: Double) -> bool {
        at_most(52, other.word(), self.word())
    }

    /// Larger or equal by value.
    #[verifier::when_used_as_spec(spec_ge)]
    pub fn ge(self, other: Double) -> (r: bool)
        ensures
            r == self.spec_ge(other),
    {
        at_most_words(52, other.split(), self.split())
    }

    /// The number nearest to a whole number.
    pub open spec fn spec_from_u32(v: u32) -> Double {
        Double::of(nearest(52, false, v as nat * pow2(unit_exp(52)), 1))
    }

    /// The number nearest to a whole number.
    #[verifier::when_used_as_spec(spec_from_u32)]
    pub fn from_u32(v: u32) -> (r: Double)
        ensures
            r == Double::spec_from_u32(v),
    {
        proof {
            lemma_double_bound(Double { bits: 0 });
        }
        Double::join(word_of(52, v as u64))
    }
}

/// Every rounded magnitude leaves the sign bit free.
proof fn lemma_double_bound(a: Double)
    ensures
        a.word().mag < 0x8000_0000_0000_0000,
        forall|n: nat, d: nat| #[trigger] round_magnitude(52, n, d) <= inf_bits(52),
        pow2(51) == 0x8_0000_0000_0000,
{
    lemma2_to64();
    lemma2_to64_rest();
}

} // verus!
