//! Single-precision numbers.
use vstd::arithmetic::power2::{lemma2_to64, lemma2_to64_rest, pow2};
use vstd::prelude::*;

use crate::float::{
    add_words, added, at_most, at_most_words, div_words, divided, is_finite, is_nan, less,
    less_words, mul_words, multiplied, nearest, opposite, truncate_word, truncated, value,
    word_of, Word,
};
use crate::rounding::{inf_bits, round_magnitude, unit_exp};

verus! {

/// A single-precision number, held as its bits: sign, eight exponent bits, 23 fraction bits.
///
/// `==` compares bits; the order of the numbers is given by [`Single::lt`] and its companions.
#[derive(Clone, Copy, Debug, PartialEq, Eq, Structural)]
pub struct Single {
    pub bits: u32,
}

impl Single {
    /// The datum that the bits stand for.
    pub open spec fn word(self) -> Word {
        Word { neg: self.bits >= 0x8000_0000, mag: (self.bits % 0x8000_0000) as u64 }
    }

    /// The number with the given datum.
    pub open spec fn of(a: Word) -> Single {
        Single {
            bits: if a.neg {
                (0x8000_0000 + a.mag) as u32
            } else {
                a.mag as u32
            },
        }
    }

    /// The value in units of `2^-149`, for finite numbers.
    pub open spec fn value(self) -> int {
        value(23, self.word())
    }

    /// Neither infinite nor not a number.
    pub open spec fn finite(self) -> bool {
        is_finite(23, self.word())
    }

    /// Not a number.
    pub open spec fn nan(self) -> bool {
        is_nan(23, self.word())
    }

    fn split(self) -> (r: Word)
        ensures
            r == self.word(),
    {
        Word { neg: self.bits >= 0x8000_0000, mag: (self.bits % 0x8000_0000) as u64 }
    }

    fn join(a: Word) -> (r: Single)
        requires
            a.mag < 0x8000_0000,
        ensures
            r == Single::of(a),
    {
        Single {
            bits: if a.neg {
                0x8000_0000 + a.mag as u32
            } else {
                a.mag as u32
            },
        }
    }

    /// The number with the given bits.
    pub open spec fn spec_from_bits(bits: u32) -> Single {
        Single { bits }
    }

    /// The number with the given bits.
    #[verifier::when_used_as_spec(spec_from_bits)]
    pub fn from_bits(bits: u32) -> (r: Single)
        ensures
            r == Single::spec_from_bits(bits),
    {
        Single { bits }
    }

    /// The bits of the number.
    pub fn to_bits(self) -> (r: u32)
        ensures
            r == self.bits,
    {
        self.bits
    }

    /// Zero.
    pub open spec fn spec_zero() -> Single {
        Single { bits: 0 }
    }

    /// Zero.
    #[verifier::when_used_as_spec(spec_zero)]
    pub fn zero() -> (r: Single)
        ensures
            r == Single::spec_zero(),
    {
        Single { bits: 0 }
    }

    /// One.
    pub open spec fn spec_one() -> Single {
        Single { bits: 0x3f80_0000 }
    }

    /// One.
    #[verifier::when_used_as_spec(spec_one)]
    pub fn one() -> (r: Single)
        ensures
            r == Single::spec_one(),
    {
        Single { bits: 0x3f80_0000 }
    }

    /// The exact sum, rounded to nearest.
    pub open spec fn spec_plus(self, other: Single) -> Single {
        Single::of(added(23, self.word(), other.word()))
    }

    /// The exact sum, rounded to nearest.
    #[verifier::when_used_as_spec(spec_plus)]
    pub fn plus(self, other: Single) -> (r: Single)
        ensures
            r == self.spec_plus(other),
    {
        proof {
            reveal(crate::float::added);
        }
        proof {
            lemma_single_bound(self);
            lemma_single_bound(other);
        }
        Single::join(add_words(23, self.split(), other.split()))
    }

    /// The exact difference, rounded to nearest.
    pub open spec fn spec_minus(self, other: Single) -> Single {
        Single::of(added(23, self.word(), opposite(other.word())))
    }

    /// The exact difference, rounded to nearest.
    #[verifier::when_used_as_spec(spec_minus)]
    pub fn minus(self, other: Single) -> (r: Single)
        ensures
            r == self.spec_minus(other),
    {
        proof {
            reveal(crate::float::added);
        }
        proof {
            lemma_single_bound(self);
            lemma_single_bound(other);
        }
        let b: Word = other.split();
        Single::join(add_words(23, self.split(), Word { neg: !b.neg, mag: b.mag }))
    }

    /// The exact product, rounded to nearest.
    pub open spec fn spec_times(self, other: Single) -> Single {
        Single::of(multiplied(23, self.word(), other.word()))
    }

    /// The exact product, rounded to nearest.
    #[verifier::when_used_as_spec(spec_times)]
    pub fn times(self, other: Single) -> (r: Single)
        ensures
            r == self.spec_times(other),
    {
        proof {
            reveal(crate::float::multiplied);
        }
        proof {
            lemma_single_bound(self);
            lemma_single_bound(other);
        }
        Single::join(mul_words(23, self.split(), other.split()))
    }

    /// The exact quotient, rounded to nearest.
    pub open spec fn spec_over(self, other: Single) -> Single {
        Single::of(divided(23, self.word(), other.word()))
    }

    /// The exact quotient, rounded to nearest.
    #[verifier::when_used_as_spec(spec_over)]
    pub fn over(self, other: Single) -> (r: Single)
        ensures
            r == self.spec_over(other),
    {
        proof {
            reveal(crate::float::divided);
        }
        proof {
            lemma_single_bound(self);
            lemma_single_bound(other);
        }
        Single::join(div_words(23, self.split(), other.split()))
    }

    /// The number with the opposite sign.
    pub open spec fn spec_negated(self) -> Single {
        Single::of(opposite(self.word()))
    }

    /// The number with the opposite sign.
    #[verifier::when_used_as_spec(spec_negated)]
    pub fn negated(self) -> (r: Single)
        ensures
            r == self.spec_negated(),
    {
        let a: Word = self.split();
        Single::join(Word { neg: !a.neg, mag: a.mag })
    }

    /// The number without its sign.
    pub open spec fn spec_abs(self) -> Single {
        Single { bits: self.bits % 0x8000_0000 }
    }

    /// The number without its sign.
    #[verifier::when_used_as_spec(spec_abs)]
    pub fn abs(self) -> (r: Single)
        ensures
            r == self.spec_abs(),
    {
        Single { bits: self.bits % 0x8000_0000 }
    }

    /// Smaller by value.
    pub open spec fn spec_lt(self, other: Single) -> bool {
        less(23, self.word(), other.word())
    }

    /// Smaller by value.
    #[verifier::when_used_as_spec(spec_lt)]
    pub fn lt(self, other: Single) -> (r: bool)
        ensures
            r == self.spec_lt(other),
    {
        less_words(23, self.split(), other.split())
    }

    /// Larger by value.
    pub open spec fn spec_gt(self, other: Single) -> bool {
        less(23, other.word(), self.word())
    }

    /// Larger by value.
    #[verifier::when_used_as_spec(spec_gt)]
    pub fn gt(self, other: Single) -> (r: bool)
        ensures
            r == self.spec_gt(other),
    {
        less_words(23, other.split(), self.split())
    }

    /// Smaller or equal by value.
    pub open spec fn spec_le(self, other: Single) -> bool {
        at_most(23, self.word(), other.word())
    }

    /// Smaller or equal by value.
    #[verifier::when_used_as_spec(spec_le)]
    pub fn le(self, other: Single) -> (r: bool)
        ensures
            r == self.spec_le(other),
    {
        at_most_words(23, self.split(), other.split())
    }

    /// Larger or equal by value.
    pub open spec fn spec_ge(self, other: Single) -> bool {
        at_most(23, other.word(), self.word())
    }

    /// Larger or equal by value.
    #[verifier::when_used_as_spec(spec_ge)]
    pub fn ge(self, other: Single) -> (r: bool)
        ensures
            r == self.spec_ge(other),
    {
        at_most_words(23, other.split(), self.split())
    }

    /// The number nearest to a whole number.
    pub open spec fn spec_from_u32(v: u32) -> Single {
        Single::of(nearest(23, false, v as nat * pow2(unit_exp(23)), 1))
    }

    /// The number nearest to a whole number.
    #[verifier::when_used_as_spec(spec_from_u32)]
    pub fn from_u32(v: u32) -> (r: Single)
        ensures
            r == Single::spec_from_u32(v),
    {
        proof {
            lemma_single_bound(Single { bits: 0 });
        }
        Single::join(word_of(23, v as u64))
    }

    /// The whole part as a count: zero for negative numbers and for what is not a number, the
    /// largest count for what is too large.
    pub open spec fn spec_to_usize(self) -> usize {
        truncated(23, self.word(), usize::MAX as nat) as usize
    }

    /// The whole part as a count: zero for negative numbers and for what is not a number, the
    /// largest count for what is too large.
    #[verifier::when_used_as_spec(spec_to_usize)]
    pub fn to_usize(self) -> (r: usize)
        ensures
            r == self.spec_to_usize(),
    {
        truncate_word(23, self.split(), usize::MAX as u64) as usize
    }
}

/// Every rounded magnitude leaves the sign bit free.
proof fn lemma_single_bound(a: Single)
    ensures
        a.word().mag < 0x8000_0000,
        forall|n: nat, d: nat| #[trigger] round_magnitude(23, n, d) <= inf_bits(23),
        pow2(22) == 0x40_0000,
{
    lemma2_to64();
    lemma2_to64_rest();
}

} // verus!
