//! Single-precision values, held by their bit patterns.
use crate::bounds::{lemma_points_order, lemma_rounded_order};
use crate::ieee::{
    lemma_leading, lemma_points_increase, lemma_power_magnitude, lemma_rounded_at_least,
    lemma_rounded_at_most, lemma_rounded_is_nearest, lemma_rounded_points, magnitude_of_whole,
    nearest_whole, nearest_whole_of, one_in_points, points, rounded, whole_part, whole_part_of,
    SINGLE,
};
use crate::parts::{
    add_parts, divide_parts, lemma_zero_points, multiply_parts, product, quotient, root_parts,
    square_root, sum, Parts,
};
use vstd::prelude::*;

verus! {

/// Bits of one half.
pub const HALF: u32 = 0x3f00_0000;

/// Bits of two.
pub const TWO: u32 = 0x4000_0000;

/// Bits of 20.
pub const TWENTY: u32 = 0x41a0_0000;

/// A single-precision floating-point value.
///
/// In contracts `==` compares bit patterns; [`Single::same_value`] compares the values.
#[derive(Clone, Copy, Debug)]
pub struct Single {
    /// The bit pattern: the sign, then eight bits of exponent and 23 of fraction.
    pub bits: u32,
}

/// The value that sign and magnitude stand for.
pub open spec fn joined(parts: Parts) -> Single {
    Single {
        bits: if parts.negative {
            (parts.magnitude + 0x8000_0000) as u32
        } else {
            parts.magnitude as u32
        },
    }
}

/// `n` rounded to single precision.
#[verifier::opaque]
pub open spec fn whole(n: nat) -> Single {
    Single { bits: rounded(n * one_in_points(SINGLE), 1, SINGLE) as u32 }
}

/// `n` rounded to single precision, with its sign.
pub open spec fn signed_whole(n: int) -> Single {
    if n < 0 {
        whole((-n) as nat).negated()
    } else {
        whole(n as nat)
    }
}

/// `n` or the largest word, whichever is smaller.
pub open spec fn saturated(n: nat) -> u64 {
    if n <= u64::MAX {
        n as u64
    } else {
        u64::MAX
    }
}

impl Single {
    /// The value taken apart.
    pub open spec fn parts(self) -> Parts {
        Parts {
            negative: self.bits >= 0x8000_0000,
            magnitude: (self.bits % 0x8000_0000) as u64,
        }
    }

    /// Not a number.
    pub open spec fn spec_is_nan(self) -> bool {
        self.parts().is_nan(SINGLE)
    }

    /// The value in points of the format.
    pub open spec fn value(self) -> int {
        self.parts().value(SINGLE)
    }

    /// Both are numbers, and of one value.
    #[verifier::opaque]
    pub open spec fn spec_same_value(self, other: Single) -> bool {
        !self.spec_is_nan() && !other.spec_is_nan() && self.value() == other.value()
    }

    /// Both are numbers, and this one is the smaller.
    #[verifier::opaque]
    pub open spec fn spec_less(self, other: Single) -> bool {
        !self.spec_is_nan() && !other.spec_is_nan() && self.value() < other.value()
    }

    /// Both are numbers, and this one is not the larger.
    #[verifier::opaque]
    pub open spec fn spec_at_most(self, other: Single) -> bool {
        !self.spec_is_nan() && !other.spec_is_nan() && self.value() <= other.value()
    }

    /// The value with the other sign.
    #[verifier::opaque]
    pub open spec fn spec_negated(self) -> Single {
        if self.bits >= 0x8000_0000 {
            Single { bits: (self.bits - 0x8000_0000) as u32 }
        } else {
            Single { bits: (self.bits + 0x8000_0000) as u32 }
        }
    }

    /// The value without its sign.
    #[verifier::opaque]
    pub open spec fn spec_abs(self) -> Single {
        Single { bits: (self.bits % 0x8000_0000) as u32 }
    }

    /// The sum.
    #[verifier::opaque]
    pub open spec fn spec_plus(self, other: Single) -> Single {
        joined(sum(self.parts(), other.parts(), SINGLE))
    }

    /// The difference.
    #[verifier::opaque]
    pub open spec fn spec_minus(self, other: Single) -> Single {
        self.spec_plus(other.spec_negated())
    }

    /// The product.
    #[verifier::opaque]
    pub open spec fn spec_times(self, other: Single) -> Single {
        joined(product(self.parts(), other.parts(), SINGLE))
    }

    /// The quotient.
    #[verifier::opaque]
    pub open spec fn spec_over(self, other: Single) -> Single {
        joined(quotient(self.parts(), other.parts(), SINGLE))
    }

    /// The square root.
    #[verifier::opaque]
    pub open spec fn spec_sqrt(self) -> Single {
        joined(square_root(self.parts(), SINGLE))
    }

    /// The larger of two; of a number and not-a-number, the number.
    pub open spec fn spec_max(self, other: Single) -> Single {
        if self.spec_is_nan() || self.spec_less(other) {
            other
        } else {
            self
        }
    }

    /// The smaller of two; of a number and not-a-number, the number.
    pub open spec fn spec_min(self, other: Single) -> Single {
        if self.spec_is_nan() || other.spec_less(self) {
            other
        } else {
            self
        }
    }

    /// The value held between two bounds; not-a-number passes through.
    pub open spec fn spec_clamp(self, low: Single, high: Single) -> Single {
        if self.spec_less(low) {
            low
        } else if high.spec_less(self) {
            high
        } else {
            self
        }
    }

    /// The whole part as a word: nothing below zero, and not more than the largest word.
    #[verifier::opaque]
    pub open spec fn spec_to_word(self) -> u64 {
        if self.spec_is_nan() || self.parts().negative {
            0
        } else if self.parts().is_infinite(SINGLE) {
            u64::MAX
        } else {
            saturated(whole_part(self.parts().magnitude as nat, SINGLE))
        }
    }

    /// The nearest whole number as a word, half going up.
    #[verifier::opaque]
    pub open spec fn spec_round_to_word(self) -> u64 {
        if self.spec_is_nan() || self.parts().negative {
            0
        } else if self.parts().is_infinite(SINGLE) {
            u64::MAX
        } else {
            saturated(nearest_whole(self.parts().magnitude as nat, SINGLE))
        }
    }

    /// Positive zero.
    pub open spec fn spec_zero() -> Single {
        Single { bits: 0 }
    }

    /// One.
    pub open spec fn spec_one() -> Single {
        Single { bits: 0x3f80_0000 }
    }

    /// A number that is not below zero, and not the negative zero.
    pub open spec fn is_level(self) -> bool {
        self.bits <= 0x7f80_0000
    }

    /// Positive zero.
    #[verifier::when_used_as_spec(spec_zero)]
    pub fn zero() -> (r: Single)
        ensures
            r == Single::spec_zero(),
    {
        Single { bits: 0 }
    }

    /// One.
    #[verifier::when_used_as_spec(spec_one)]
    pub fn one() -> (r: Single)
        ensures
            r == Single::spec_one(),
    {
        Single { bits: 0x3f80_0000 }
    }

    /// The value of a bit pattern.
    pub fn from_bits(bits: u32) -> (r: Single)
        ensures
            r.bits == bits,
    {
        Single { bits }
    }

    /// The bit pattern of a value.
    pub fn to_bits(self) -> (r: u32)
        ensures
            r == self.bits,
    {
        self.bits
    }

    /// Takes the value apart.
    fn split(self) -> (r: Parts)
        ensures
            r == self.parts(),
    {
        Parts {
            negative: self.bits >= 0x8000_0000,
            magnitude: (self.bits % 0x8000_0000) as u64,
        }
    }

    /// Puts a value together.
    fn join(parts: Parts) -> (r: Single)
        requires
            parts.magnitude < 0x8000_0000,
        ensures
            r == joined(parts),
    {
        if parts.negative {
            Single { bits: parts.magnitude as u32 + 0x8000_0000 }
        } else {
            Single { bits: parts.magnitude as u32 }
        }
    }

    /// Whether this is not a number.
    #[verifier::when_used_as_spec(spec_is_nan)]
    pub fn is_nan(self) -> (r: bool)
        ensures
            r == self.spec_is_nan(),
    {
        self.bits % 0x8000_0000 > 0x7f80_0000
    }

    /// Whether both are numbers and of one value: the two zeros are equal.
    #[verifier::when_used_as_spec(spec_same_value)]
    pub fn same_value(self, other: Single) -> (r: bool)
        ensures
            r == self.spec_same_value(other),
    {
        proof {
            reveal(Single::spec_same_value);
            self.lemma_value_order(other);
            other.lemma_value_order(self);
        }
        let a = self.split();
        let b = other.split();
        !self.is_nan() && !other.is_nan() && a.magnitude == b.magnitude && (a.negative
            == b.negative || a.magnitude == 0)
    }

    /// Whether both are numbers and this is the smaller.
    #[verifier::when_used_as_spec(spec_less)]
    pub fn less(self, other: Single) -> (r: bool)
        ensures
            r == self.spec_less(other),
    {
        proof {
            reveal(Single::spec_less);
            self.lemma_value_order(other);
            other.lemma_value_order(self);
        }
        if self.is_nan() || other.is_nan() {
            return false;
        }
        let a = self.split();
        let b = other.split();
        if a.negative {
            if b.negative {
                a.magnitude > b.magnitude
            } else {
                a.magnitude > 0 || b.magnitude > 0
            }
        } else {
            !b.negative && a.magnitude < b.magnitude
        }
    }

    /// Values are ordered as their magnitudes are, by sign.
    proof fn lemma_value_order(self, other: Single)
        ensures
            self.parts().magnitude < other.parts().magnitude ==> points(
                self.parts().magnitude as nat,
                SINGLE,
            ) < points(other.parts().magnitude as nat, SINGLE),
            points(self.parts().magnitude as nat, SINGLE) == 0 <==> self.parts().magnitude == 0,
    {
        lemma_zero_points(self.parts().magnitude as nat, SINGLE);
        if self.parts().magnitude < other.parts().magnitude {
            lemma_points_increase(
                self.parts().magnitude as nat,
                other.parts().magnitude as nat,
                SINGLE,
            );
        }
    }

    /// Whether both are numbers and this is not the larger.
    #[verifier::when_used_as_spec(spec_at_most)]
    pub fn at_most(self, other: Single) -> (r: bool)
        ensures
            r == self.spec_at_most(other),
    {
        proof {
            reveal(Single::spec_less);
            reveal(Single::spec_at_most);
        }
        !self.is_nan() && !other.is_nan() && !other.less(self)
    }

    /// The value with the other sign.
    #[verifier::when_used_as_spec(spec_negated)]
    pub fn negated(self) -> (r: Single)
        ensures
            r == self.spec_negated(),
    {
        proof {
            reveal(Single::spec_negated);
        }
        if self.bits >= 0x8000_0000 {
            Single { bits: self.bits - 0x8000_0000 }
        } else {
            Single { bits: self.bits + 0x8000_0000 }
        }
    }

    /// The value without its sign.
    #[verifier::when_used_as_spec(spec_abs)]
    pub fn abs(self) -> (r: Single)
        ensures
            r == self.spec_abs(),
    {
        proof {
            reveal(Single::spec_abs);
        }
        Single { bits: self.bits % 0x8000_0000 }
    }

    /// Adds.
    #[verifier::when_used_as_spec(spec_plus)]
    pub fn plus(self, other: Single) -> (r: Single)
        ensures
            r == self.spec_plus(other),
    {
        proof {
            reveal(Single::spec_plus);
        }
        Single::join(add_parts(self.split(), other.split(), SINGLE))
    }

    /// Subtracts.
    #[verifier::when_used_as_spec(spec_minus)]
    pub fn minus(self, other: Single) -> (r: Single)
        ensures
            r == self.spec_minus(other),
    {
        proof {
            reveal(Single::spec_minus);
        }
        self.plus(other.negated())
    }

    /// Multiplies.
    #[verifier::when_used_as_spec(spec_times)]
    pub fn times(self, other: Single) -> (r: Single)
        ensures
            r == self.spec_times(other),
    {
        proof {
            reveal(Single::spec_times);
        }
        Single::join(multiply_parts(self.split(), other.split(), SINGLE))
    }

    /// Divides.
    #[verifier::when_used_as_spec(spec_over)]
    pub fn over(self, other: Single) -> (r: Single)
        ensures
            r == self.spec_over(other),
    {
        proof {
            reveal(Single::spec_over);
        }
        Single::join(divide_parts(self.split(), other.split(), SINGLE))
    }

    /// Takes the square root.
    #[verifier::when_used_as_spec(spec_sqrt)]
    pub fn sqrt(self) -> (r: Single)
        ensures
            r == self.spec_sqrt(),
    {
        proof {
            reveal(Single::spec_sqrt);
        }
        Single::join(root_parts(self.split(), SINGLE))
    }

    /// The larger of two values.
    #[verifier::when_used_as_spec(spec_max)]
    pub fn max(self, other: Single) -> (r: Single)
        ensures
            r == self.spec_max(other),
    {
        if self.is_nan() || self.less(other) {
            other
        } else {
            self
        }
    }

    /// The smaller of two values.
    #[verifier::when_used_as_spec(spec_min)]
    pub fn min(self, other: Single) -> (r: Single)
        ensures
            r == self.spec_min(other),
    {
        if self.is_nan() || other.less(self) {
            other
        } else {
            self
        }
    }

    /// Holds the value between two bounds.
    #[verifier::when_used_as_spec(spec_clamp)]
    pub fn clamp(self, low: Single, high: Single) -> (r: Single)
        requires
            low.spec_at_most(high),
        ensures
            r == self.spec_clamp(low, high),
    {
        if self.less(low) {
            low
        } else if high.less(self) {
            high
        } else {
            self
        }
    }

    /// A word as a value.
    pub fn of_word(n: u64) -> (r: Single)
        ensures
            r == whole(n as nat),
    {
        proof {
            reveal(whole);
        }
        Single { bits: magnitude_of_whole(n, SINGLE) as u32 }
    }

    /// A signed whole number as a value.
    pub fn of_int(n: i32) -> (r: Single)
        ensures
            r == signed_whole(n as int),
    {
        if n < 0 {
            Single::of_word((0 - n as i64) as u64).negated()
        } else {
            Single::of_word(n as u64)
        }
    }

    /// The whole part as a word.
    #[verifier::when_used_as_spec(spec_to_word)]
    pub fn to_word(self) -> (r: u64)
        ensures
            r == self.spec_to_word(),
    {
        proof {
            reveal(Single::spec_to_word);
        }
        let parts = self.split();
        if self.is_nan() || parts.negative {
            0
        } else if parts.magnitude == 0x7f80_0000 {
            u64::MAX
        } else {
            whole_part_of(parts.magnitude, SINGLE)
        }
    }

    /// The nearest whole number as a word.
    #[verifier::when_used_as_spec(spec_round_to_word)]
    pub fn round_to_word(self) -> (r: u64)
        ensures
            r == self.spec_round_to_word(),
    {
        proof {
            reveal(Single::spec_round_to_word);
        }
        let parts = self.split();
        if self.is_nan() || parts.negative {
            0
        } else if parts.magnitude == 0x7f80_0000 {
            u64::MAX
        } else {
            nearest_whole_of(parts.magnitude, SINGLE)
        }
    }
}

/// Levels are ordered as their bit patterns are.
pub proof fn lemma_level_order(a: Single, b: Single)
    requires
        a.is_level(),
        b.is_level(),
    ensures
        a.less(b) <==> a.bits < b.bits,
        a.at_most(b) <==> a.bits <= b.bits,
        a.same_value(b) <==> a.bits == b.bits,
        !a.is_nan(),
        !b.is_nan(),
        a.abs() == a,
{
    reveal(Single::spec_less);
    reveal(Single::spec_at_most);
    reveal(Single::spec_same_value);
    reveal(Single::spec_abs);
    a.lemma_value_order(b);
    b.lemma_value_order(a);
}

/// The value without its sign is a level, unless it is not a number.
pub proof fn lemma_abs_level(a: Single)
    ensures
        a.abs().is_level() <==> !a.is_nan(),
        a.abs().is_nan() <==> a.is_nan(),
{
    reveal(Single::spec_abs);
}

/// A whole number is a level; one and above stay at one and above.
pub proof fn lemma_whole_level(n: nat)
    ensures
        whole(n).is_level(),
        n >= 1 ==> whole(n).bits >= Single::one().bits,
        n <= 0x1_0000_0000_0000_0000 ==> whole(n).bits <= 0x5f80_0000,
{
    reveal(whole);
    let one = one_in_points(SINGLE);
    let unit = 0x3f80_0000nat;
    let top = 0x5f80_0000nat;
    lemma_leading(SINGLE);
    lemma_rounded_is_nearest(n * one, 1, SINGLE);
    lemma_power_magnitude(0, unit, SINGLE);
    lemma_power_magnitude(64, top, SINGLE);
    vstd::arithmetic::power2::lemma2_to64();
    if n >= 1 {
        assert(n * one >= points(unit, SINGLE) * 1) by (nonlinear_arith)
            requires
                n >= 1,
                points(unit, SINGLE) == 1 * one,
        ;
        lemma_rounded_at_least(n * one, 1, unit, SINGLE);
    }
    if n <= 0x1_0000_0000_0000_0000 {
        assert(n * one <= points(top, SINGLE) * 1) by (nonlinear_arith)
            requires
                n <= 0x1_0000_0000_0000_0000,
                points(top, SINGLE) == 0x1_0000_0000_0000_0000 * one,
        ;
        lemma_rounded_at_most(n * one, 1, top, SINGLE);
    }
}

/// Levels add up to a level.
pub proof fn lemma_plus_level(a: Single, b: Single)
    requires
        a.is_level(),
        b.is_level(),
    ensures
        a.plus(b).is_level(),
{
    reveal(Single::spec_plus);
    lemma_zero_points(a.parts().magnitude as nat, SINGLE);
    lemma_zero_points(b.parts().magnitude as nat, SINGLE);
    let exact = points(a.parts().magnitude as nat, SINGLE) + points(
        b.parts().magnitude as nat,
        SINGLE,
    );
    lemma_rounded_is_nearest(exact, 1, SINGLE);
}

/// Finite levels multiply to a level.
pub proof fn lemma_times_level(a: Single, b: Single)
    requires
        a.bits < 0x7f80_0000,
        b.bits < 0x7f80_0000,
    ensures
        a.times(b).is_level(),
{
    reveal(Single::spec_times);
    vstd::arithmetic::power2::lemma_pow2_pos(149);
    let exact = points(a.parts().magnitude as nat, SINGLE) * points(
        b.parts().magnitude as nat,
        SINGLE,
    );
    lemma_rounded_is_nearest(exact, one_in_points(SINGLE), SINGLE);
}

/// A level over a positive finite level is a level.
pub proof fn lemma_over_level(a: Single, b: Single)
    requires
        a.is_level(),
        0 < b.bits < 0x7f80_0000,
    ensures
        a.over(b).is_level(),
{
    reveal(Single::spec_over);
    lemma_zero_points(b.parts().magnitude as nat, SINGLE);
    let num = points(a.parts().magnitude as nat, SINGLE) * one_in_points(SINGLE);
    lemma_rounded_is_nearest(num, points(b.parts().magnitude as nat, SINGLE), SINGLE);
}

/// No number of anything is zero.
pub proof fn lemma_whole_zero()
    ensures
        whole(0) == Single::zero(),
{
    reveal(whole);
    lemma_zero_points(0, SINGLE);
    lemma_rounded_at_most(0, 1, 0, SINGLE);
}

/// Zero times a finite level is zero.
pub proof fn lemma_zero_times(a: Single)
    requires
        a.bits < 0x7f80_0000,
    ensures
        Single::zero().times(a) == Single::zero(),
        a.times(Single::zero()) == Single::zero(),
{
    reveal(Single::spec_times);
    vstd::arithmetic::power2::lemma_pow2_pos(149);
    lemma_zero_points(0, SINGLE);
    let x = points(a.parts().magnitude as nat, SINGLE);
    assert(0 * x == 0 && x * 0 == 0);
    lemma_rounded_at_most(0, one_in_points(SINGLE), 0, SINGLE);
}

/// Zero over a positive finite level is zero.
pub proof fn lemma_zero_over(a: Single)
    requires
        0 < a.bits < 0x7f80_0000,
    ensures
        Single::zero().over(a) == Single::zero(),
{
    reveal(Single::spec_over);
    lemma_zero_points(0, SINGLE);
    lemma_zero_points(a.parts().magnitude as nat, SINGLE);
    let x = points(a.parts().magnitude as nat, SINGLE);
    assert(0 * one_in_points(SINGLE) == 0 && 0 * x == 0);
    lemma_rounded_at_most(0, x, 0, SINGLE);
}

/// Zero is no whole number past zero.
pub proof fn lemma_zero_to_word()
    ensures
        Single::zero().round_to_word() == 0,
        Single::zero().to_word() == 0,
{
    reveal(Single::spec_round_to_word);
    reveal(Single::spec_to_word);
    let one = one_in_points(SINGLE);
    vstd::arithmetic::power2::lemma_pow2_pos(149);
    lemma_zero_points(0, SINGLE);
    assert((2 * 0 + one) / (2 * one) == 0) by (nonlinear_arith)
        requires
            one > 0,
    ;
    assert(0nat / one == 0) by (nonlinear_arith)
        requires
            one > 0,
    ;
}

/// A number held between two bounds lies between them.
pub proof fn lemma_clamp_range(a: Single, low: Single, high: Single)
    requires
        !a.is_nan(),
        low.at_most(high),
    ensures
        low.at_most(a.clamp(low, high)),
        a.clamp(low, high).at_most(high),
        low.at_most(a) && a.at_most(high) ==> a.clamp(low, high) == a,
{
    reveal(Single::spec_less);
    reveal(Single::spec_at_most);
}

/// A number held between levels is a level.
pub proof fn lemma_clamp_level(a: Single, low: Single, high: Single)
    requires
        a.is_level(),
        low.is_level(),
        high.is_level(),
        low.bits <= high.bits,
    ensures
        low.bits <= a.clamp(low, high).bits <= high.bits,
{
    lemma_level_order(a, low);
    lemma_level_order(high, a);
}

/// A finite level does not grow when multiplied by a level of at most one.
pub proof fn lemma_times_at_most(a: Single, b: Single)
    requires
        a.bits < 0x7f80_0000,
        b.bits <= Single::one().bits,
    ensures
        a.times(b).bits <= a.bits,
{
    reveal(Single::spec_times);
    let one = one_in_points(SINGLE);
    vstd::arithmetic::power2::lemma_pow2_pos(149);
    vstd::arithmetic::power2::lemma2_to64();
    lemma_leading(SINGLE);
    lemma_power_magnitude(0, 0x3f80_0000, SINGLE);
    let x = points(a.parts().magnitude as nat, SINGLE);
    let y = points(b.parts().magnitude as nat, SINGLE);
    assert(y <= one) by {
        if b.bits < 0x3f80_0000 {
            lemma_points_increase(b.bits as nat, 0x3f80_0000, SINGLE);
        }
    }
    assert(x * y <= x * one) by (nonlinear_arith)
        requires
            y <= one,
    ;
    lemma_rounded_at_most(x * y, one, a.bits as nat, SINGLE);
}

/// A value lies from zero to one.
pub open spec fn is_share(a: Single) -> bool {
    Single::zero().at_most(a) && a.at_most(Single::one())
}

/// The values from zero to one are the bit patterns up to one's, and the negative zero.
pub proof fn lemma_share_bits(a: Single)
    ensures
        is_share(a) <==> a.bits <= Single::one().bits || a.bits == 0x8000_0000,
{
    lemma_zero_points(0, SINGLE);
    if a.is_level() {
        lemma_level_order(Single::zero(), a);
        lemma_level_order(a, Single::one());
    } else {
        reveal(Single::spec_at_most);
        lemma_zero_points(a.parts().magnitude as nat, SINGLE);
        lemma_level_order(Single::zero(), Single::one());
    }
}

/// Shares multiply to a share, not above the first.
pub proof fn lemma_times_share(a: Single, b: Single)
    requires
        is_share(a),
        b.bits <= Single::one().bits,
    ensures
        is_share(a.times(b)),
        a.times(b).at_most(a),
{
    lemma_share_bits(a);
    if a.is_level() {
        lemma_times_at_most(a, b);
        lemma_level_order(a.times(b), a);
    } else {
        reveal(Single::spec_times);
        vstd::arithmetic::power2::lemma_pow2_pos(149);
        lemma_zero_points(0, SINGLE);
        let x = points(b.parts().magnitude as nat, SINGLE);
        assert(0 * x == 0);
        lemma_rounded_at_most(0, one_in_points(SINGLE), 0, SINGLE);
        assert(a.times(b) == a);
        reveal(Single::spec_at_most);
    }
    lemma_share_bits(a.times(b));
}

/// A number held between zero and one is a share; not-a-number stays what it is.
pub proof fn lemma_clamp_share(a: Single)
    ensures
        !a.is_nan() ==> is_share(a.clamp(Single::zero(), Single::one())),
        a.is_nan() ==> a.clamp(Single::zero(), Single::one()) == a,
        is_share(a) ==> a.clamp(Single::zero(), Single::one()) == a,
{
    lemma_level_order(Single::zero(), Single::one());
    if a.is_nan() {
        reveal(Single::spec_less);
        reveal(Single::spec_at_most);
    } else {
        lemma_clamp_range(a, Single::zero(), Single::one());
    }
}

/// A number does not grow when a level is taken from it.
pub proof fn lemma_minus_at_most(a: Single, b: Single)
    requires
        !a.is_nan(),
        b.is_level(),
    ensures
        !a.minus(b).is_nan() ==> a.minus(b).at_most(a),
{
    reveal(Single::spec_minus);
    reveal(Single::spec_plus);
    reveal(Single::spec_negated);
    reveal(Single::spec_at_most);
    let c = b.negated();
    let r = a.minus(b);
    let top = 0x7f80_0000nat;
    let x = points(a.parts().magnitude as nat, SINGLE);
    let y = points(b.parts().magnitude as nat, SINGLE);
    assert(c.parts().magnitude == b.parts().magnitude);
    lemma_zero_points(b.parts().magnitude as nat, SINGLE);
    lemma_zero_points(a.parts().magnitude as nat, SINGLE);
    lemma_zero_points(top, SINGLE);
    if a.parts().magnitude < top {
        lemma_points_increase(a.parts().magnitude as nat, top, SINGLE);
    }
    if a.parts().magnitude < top && b.parts().magnitude < top {
        let exact = a.value() + c.value();
        if exact > 0 {
            lemma_rounded_at_most(exact as nat, 1, a.parts().magnitude as nat, SINGLE);
            let m = rounded(exact as nat, 1, SINGLE);
            if m < a.parts().magnitude {
                lemma_points_increase(m, a.parts().magnitude as nat, SINGLE);
            }
            assert(r.parts().magnitude == m && !r.parts().negative);
        } else if exact < 0 {
            lemma_rounded_is_nearest((-exact) as nat, 1, SINGLE);
            let m = rounded((-exact) as nat, 1, SINGLE);
            lemma_zero_points(m, SINGLE);
            if a.value() < 0 {
                lemma_rounded_at_least((-exact) as nat, 1, a.parts().magnitude as nat, SINGLE);
                if a.parts().magnitude < m {
                    lemma_points_increase(a.parts().magnitude as nat, m, SINGLE);
                }
            }
            assert(r.bits == m + 0x8000_0000);
            assert(r.parts().magnitude == m && r.parts().negative);
        } else {
            assert(r.parts().magnitude == 0);
            lemma_zero_points(0, SINGLE);
        }
    }
}

/// Nothing taken from not-a-number, nor it from anything, is a number.
pub proof fn lemma_minus_nan(a: Single, b: Single)
    requires
        a.is_nan() || b.is_nan(),
    ensures
        a.minus(b).is_nan(),
{
    reveal(Single::spec_minus);
    reveal(Single::spec_plus);
    reveal(Single::spec_negated);
    assert(b.negated().parts().magnitude == b.parts().magnitude);
}

/// A finite level other than zero times a number is a number.
pub proof fn lemma_product_number(a: Single, b: Single)
    requires
        0 < a.bits < 0x7f80_0000,
        !b.is_nan(),
    ensures
        !a.times(b).is_nan(),
{
    reveal(Single::spec_times);
    vstd::arithmetic::power2::lemma_pow2_pos(149);
    let exact = points(a.parts().magnitude as nat, SINGLE) * points(
        b.parts().magnitude as nat,
        SINGLE,
    );
    lemma_rounded_is_nearest(exact, one_in_points(SINGLE), SINGLE);
    let m = rounded(exact, one_in_points(SINGLE), SINGLE);
    if b.parts().magnitude < 0x7f80_0000 {
        assert(a.times(b).parts().magnitude == m);
    } else {
        assert(a.times(b).parts().magnitude == 0x7f80_0000);
    }
}

/// A number and a finite level add up to a number.
pub proof fn lemma_sum_number(a: Single, b: Single)
    requires
        !a.is_nan(),
        b.bits < 0x7f80_0000,
    ensures
        !a.plus(b).is_nan(),
{
    reveal(Single::spec_plus);
    if a.parts().magnitude < 0x7f80_0000 {
        let exact = a.value() + b.value();
        if exact > 0 {
            lemma_rounded_is_nearest(exact as nat, 1, SINGLE);
            assert(a.plus(b).parts().magnitude == rounded(exact as nat, 1, SINGLE));
        } else if exact < 0 {
            lemma_rounded_is_nearest((-exact) as nat, 1, SINGLE);
            assert(a.plus(b).parts().magnitude == rounded((-exact) as nat, 1, SINGLE));
        } else {
            assert(a.plus(b).parts().magnitude == 0);
        }
    } else {
        assert(a.plus(b) == a);
    }
}

/// A number over a finite level other than zero is a number.
pub proof fn lemma_quotient_number(a: Single, b: Single)
    requires
        !a.is_nan(),
        0 < b.bits < 0x7f80_0000,
    ensures
        !a.over(b).is_nan(),
{
    reveal(Single::spec_over);
    lemma_zero_points(b.parts().magnitude as nat, SINGLE);
    let num = points(a.parts().magnitude as nat, SINGLE) * one_in_points(SINGLE);
    let den = points(b.parts().magnitude as nat, SINGLE);
    lemma_rounded_is_nearest(num, den, SINGLE);
    if a.parts().magnitude < 0x7f80_0000 {
        assert(a.over(b).parts().magnitude == rounded(num, den, SINGLE));
    } else {
        assert(a.over(b).parts().magnitude == 0x7f80_0000);
    }
}

/// A value that is neither infinite nor not-a-number.
pub open spec fn is_finite(a: Single) -> bool {
    a.parts().magnitude < 0x7f80_0000
}

/// A finite value is what its magnitude in points rounds to.
proof fn lemma_rounds_to_itself(c: Single, den: nat)
    requires
        is_finite(c),
        den > 0,
    ensures
        rounded(points(c.parts().magnitude as nat, SINGLE) * den, den, SINGLE)
            == c.parts().magnitude,
        points(c.parts().magnitude as nat, SINGLE) == 0 <==> c.parts().magnitude == 0,
{
    lemma_rounded_points(c.parts().magnitude as nat, den, SINGLE);
    lemma_zero_points(c.parts().magnitude as nat, SINGLE);
}

/// A sum that is a value is not rounded.
pub proof fn law_exact_sum(a: Single, b: Single, c: Single)
    requires
        is_finite(a),
        is_finite(b),
        is_finite(c),
        a.value() + b.value() == c.value(),
    ensures
        a.plus(b).same_value(c),
{
    reveal(Single::spec_plus);
    reveal(Single::spec_same_value);
    lemma_rounds_to_itself(c, 1);
    lemma_zero_points(0, SINGLE);
    let r = a.plus(b);
    let m = points(c.parts().magnitude as nat, SINGLE);
    assert(m * 1 == m);
    assert(r.parts().magnitude == c.parts().magnitude);
}

/// A product that is a value is not rounded.
pub proof fn law_exact_product(a: Single, b: Single, c: Single)
    requires
        is_finite(a),
        is_finite(b),
        is_finite(c),
        a.value() * b.value() == c.value() * one_in_points(SINGLE),
    ensures
        a.times(b).same_value(c),
{
    reveal(Single::spec_times);
    reveal(Single::spec_same_value);
    let one = one_in_points(SINGLE);
    vstd::arithmetic::power2::lemma_pow2_pos(149);
    let x = points(a.parts().magnitude as nat, SINGLE);
    let y = points(b.parts().magnitude as nat, SINGLE);
    let z = points(c.parts().magnitude as nat, SINGLE);
    lemma_magnitudes(a.value(), b.value(), c.value(), x, y, z, one);
    lemma_rounds_to_itself(c, one);
    let r = a.times(b);
    assert(r.parts().magnitude == c.parts().magnitude);
    assert(r.parts().negative == (a.parts().negative != b.parts().negative));
}

/// A quotient that is a value is not rounded.
pub proof fn law_exact_quotient(a: Single, b: Single, c: Single)
    requires
        is_finite(a),
        is_finite(b),
        is_finite(c),
        b.value() != 0,
        a.value() * one_in_points(SINGLE) == c.value() * b.value(),
    ensures
        a.over(b).same_value(c),
{
    reveal(Single::spec_over);
    reveal(Single::spec_same_value);
    let one = one_in_points(SINGLE);
    vstd::arithmetic::power2::lemma_pow2_pos(149);
    let x = points(a.parts().magnitude as nat, SINGLE);
    let y = points(b.parts().magnitude as nat, SINGLE);
    let z = points(c.parts().magnitude as nat, SINGLE);
    lemma_zero_points(b.parts().magnitude as nat, SINGLE);
    assert(b.value() * c.value() == a.value() * one) by (nonlinear_arith)
        requires
            a.value() * one == c.value() * b.value(),
    ;
    lemma_magnitudes(b.value(), c.value(), a.value(), y, z, x, one);
    lemma_rounds_to_itself(c, y);
    assert(x * one == z * y) by (nonlinear_arith)
        requires
            y * z == x * one,
    ;
    let r = a.over(b);
    assert(r.parts().magnitude == c.parts().magnitude);
    assert(r.parts().negative == (a.parts().negative != b.parts().negative));
}

/// Equal products have equal magnitudes, and signs that agree unless they are zero.
proof fn lemma_magnitudes(a: int, b: int, c: int, x: nat, y: nat, z: nat, one: nat)
    requires
        a == x || a == -x,
        b == y || b == -y,
        c == z || c == -z,
        one > 0,
        a * b == c * one,
    ensures
        x * y == z * one,
        z > 0 <==> x > 0 && y > 0,
        z > 0 ==> ((a < 0) != (b < 0) <==> c < 0),
{
    assert(x * y == z * one) by (nonlinear_arith)
        requires
            a == x || a == -x,
            b == y || b == -y,
            c == z || c == -z,
            a * b == c * one,
    ;
    assert(z > 0 <==> x > 0 && y > 0) by (nonlinear_arith)
        requires
            x * y == z * one,
            one > 0,
    ;
    if z > 0 {
        assert((a < 0) != (b < 0) <==> c < 0) by (nonlinear_arith)
            requires
                a * b == c * one,
                one > 0,
                c != 0,
        ;
    }
}

/// Turning the sign of a number turns the sign of its product with a positive finite level.
pub proof fn lemma_negated_times(a: Single, b: Single)
    requires
        !a.is_nan(),
        0 < b.bits < 0x7f80_0000,
    ensures
        !a.times(b).is_nan(),
        a.negated().times(b) == a.times(b).negated(),
{
    reveal(Single::spec_times);
    reveal(Single::spec_negated);
    vstd::arithmetic::power2::lemma_pow2_pos(149);
    let exact = points(a.parts().magnitude as nat, SINGLE) * points(
        b.parts().magnitude as nat,
        SINGLE,
    );
    lemma_rounded_is_nearest(exact, one_in_points(SINGLE), SINGLE);
    let m = rounded(exact, one_in_points(SINGLE), SINGLE);
    assert(a.negated().parts().magnitude == a.parts().magnitude);
    assert(a.negated().parts().negative == !a.parts().negative);
    if a.parts().magnitude < 0x7f80_0000 {
        assert(a.times(b).parts().magnitude == m);
    } else {
        assert(a.times(b).parts().magnitude == 0x7f80_0000);
    }
}

/// Turning the sign of a number turns the sign of its quotient by a positive finite level.
pub proof fn lemma_negated_over(a: Single, b: Single)
    requires
        !a.is_nan(),
        0 < b.bits < 0x7f80_0000,
    ensures
        !a.over(b).is_nan(),
        a.negated().over(b) == a.over(b).negated(),
{
    lemma_quotient_number(a, b);
    reveal(Single::spec_over);
    reveal(Single::spec_negated);
    lemma_zero_points(b.parts().magnitude as nat, SINGLE);
    let num = points(a.parts().magnitude as nat, SINGLE) * one_in_points(SINGLE);
    let den = points(b.parts().magnitude as nat, SINGLE);
    lemma_rounded_is_nearest(num, den, SINGLE);
    assert(a.negated().parts().magnitude == a.parts().magnitude);
    assert(a.negated().parts().negative == !a.parts().negative);
}

impl PartialEq for Single {
    fn eq(&self, other: &Single) -> (r: bool) {
        self.same_value(*other)
    }
}

impl vstd::std_specs::cmp::PartialEqSpecImpl for Single {
    open spec fn obeys_eq_spec() -> bool {
        true
    }

    open spec fn eq_spec(&self, other: &Single) -> bool {
        self.spec_same_value(*other)
    }
}

/// Multiplying by a level keeps the order of levels.
pub proof fn lemma_times_order(a: Single, b: Single, c: Single)
    requires
        a.bits <= b.bits < 0x7f80_0000,
        c.bits < 0x7f80_0000,
    ensures
        a.times(c).bits <= b.times(c).bits <= 0x7f80_0000,
{
    reveal(Single::spec_times);
    let one = one_in_points(SINGLE);
    vstd::arithmetic::power2::lemma_pow2_pos(149);
    let x = points(a.bits as nat, SINGLE);
    let y = points(b.bits as nat, SINGLE);
    let z = points(c.bits as nat, SINGLE);
    lemma_points_order(a.bits as nat, b.bits as nat, SINGLE);
    assert(x * z <= y * z) by (nonlinear_arith)
        requires
            x <= y,
    ;
    lemma_rounded_order(x * z, y * z, one, SINGLE);
    lemma_rounded_is_nearest(x * z, one, SINGLE);
    lemma_rounded_is_nearest(y * z, one, SINGLE);
}

/// Dividing by a level keeps the order of levels.
pub proof fn lemma_over_order(a: Single, b: Single, c: Single)
    requires
        a.bits <= b.bits <= 0x7f80_0000,
        0 < c.bits < 0x7f80_0000,
    ensures
        a.over(c).bits <= b.over(c).bits <= 0x7f80_0000,
{
    reveal(Single::spec_over);
    let one = one_in_points(SINGLE);
    let x = points(a.bits as nat, SINGLE);
    let y = points(b.bits as nat, SINGLE);
    let z = points(c.bits as nat, SINGLE);
    lemma_zero_points(c.bits as nat, SINGLE);
    lemma_points_order(a.bits as nat, b.bits as nat, SINGLE);
    assert(x * one <= y * one) by (nonlinear_arith)
        requires
            x <= y,
    ;
    lemma_rounded_order(x * one, y * one, z, SINGLE);
    lemma_rounded_is_nearest(x * one, z, SINGLE);
    lemma_rounded_is_nearest(y * one, z, SINGLE);
}

/// The whole part keeps the order of levels.
pub proof fn lemma_to_word_order(a: Single, b: Single)
    requires
        a.bits <= b.bits <= 0x7f80_0000,
    ensures
        a.to_word() <= b.to_word(),
{
    reveal(Single::spec_to_word);
    let one = one_in_points(SINGLE);
    vstd::arithmetic::power2::lemma_pow2_pos(149);
    lemma_points_order(a.bits as nat, b.bits as nat, SINGLE);
    vstd::arithmetic::div_mod::lemma_div_is_ordered(
        points(a.bits as nat, SINGLE) as int,
        points(b.bits as nat, SINGLE) as int,
        one as int,
    );
}

/// A number that is not below a positive level is a level.
pub proof fn lemma_at_least_level(a: Single, low: Single)
    requires
        low.at_most(a),
        low.is_level(),
        low.bits > 0,
    ensures
        a.is_level(),
        a.bits >= low.bits,
{
    lemma_zero_points(low.bits as nat, SINGLE);
    assert(a.is_level()) by {
        reveal(Single::spec_at_most);
    }
    lemma_level_order(low, a);
}

/// A finite value less itself is zero.
pub proof fn lemma_minus_itself(a: Single)
    requires
        is_finite(a),
    ensures
        a.minus(a) == Single::zero(),
{
    reveal(Single::spec_minus);
    reveal(Single::spec_plus);
    reveal(Single::spec_negated);
    let b = a.negated();
    assert(b.parts().magnitude == a.parts().magnitude);
    assert(b.parts().negative != a.parts().negative);
}

/// A positive finite level over itself is one.
pub proof fn lemma_over_itself(a: Single)
    requires
        0 < a.bits < 0x7f80_0000,
    ensures
        a.over(a) == Single::one(),
{
    reveal(Single::spec_over);
    let x = points(a.bits as nat, SINGLE);
    lemma_zero_points(a.bits as nat, SINGLE);
    lemma_leading(SINGLE);
    lemma_power_magnitude(0, 0x3f80_0000, SINGLE);
    vstd::arithmetic::power2::lemma2_to64();
    let one = one_in_points(SINGLE);
    assert(x * one == (1 * one) * x) by (nonlinear_arith);
    lemma_rounded_points(0x3f80_0000, x, SINGLE);
}

/// One times a finite level is that level.
pub proof fn lemma_one_times(a: Single)
    requires
        a.bits < 0x7f80_0000,
    ensures
        Single::one().times(a) == a,
{
    reveal(Single::spec_times);
    let x = points(a.bits as nat, SINGLE);
    let one = one_in_points(SINGLE);
    vstd::arithmetic::power2::lemma_pow2_pos(149);
    lemma_leading(SINGLE);
    lemma_power_magnitude(0, 0x3f80_0000, SINGLE);
    vstd::arithmetic::power2::lemma2_to64();
    assert((1 * one) * x == x * one) by (nonlinear_arith);
    lemma_rounded_points(a.bits as nat, one, SINGLE);
}

/// The numbers that are not below zero are the levels and the negative zero.
pub proof fn lemma_not_below_zero(a: Single)
    ensures
        Single::zero().at_most(a) <==> a.is_level() || a.bits == 0x8000_0000,
{
    reveal(Single::spec_at_most);
    lemma_zero_points(0, SINGLE);
    lemma_zero_points(a.parts().magnitude as nat, SINGLE);
}

/// Numbers that are not below zero multiply to such a number, or to none.
pub proof fn lemma_times_not_below(a: Single, b: Single)
    requires
        Single::zero().at_most(a),
        Single::zero().at_most(b),
    ensures
        Single::zero().at_most(a.times(b)) || a.times(b).is_nan(),
        0 < a.bits < 0x7f80_0000 ==> Single::zero().at_most(a.times(b)),
{
    reveal(Single::spec_times);
    lemma_not_below_zero(a);
    lemma_not_below_zero(b);
    lemma_not_below_zero(a.times(b));
    let one = one_in_points(SINGLE);
    vstd::arithmetic::power2::lemma_pow2_pos(149);
    let x = points(a.parts().magnitude as nat, SINGLE);
    let y = points(b.parts().magnitude as nat, SINGLE);
    lemma_zero_points(0, SINGLE);
    assert(0 * y == 0 && x * 0 == 0);
    lemma_rounded_at_most(0, one, 0, SINGLE);
    lemma_rounded_is_nearest(x * y, one, SINGLE);
}

/// Numbers that are not below zero add up to such a number.
pub proof fn lemma_plus_not_below(a: Single, b: Single)
    requires
        Single::zero().at_most(a),
        Single::zero().at_most(b),
    ensures
        Single::zero().at_most(a.plus(b)),
{
    reveal(Single::spec_plus);
    lemma_not_below_zero(a);
    lemma_not_below_zero(b);
    lemma_not_below_zero(a.plus(b));
    lemma_zero_points(a.parts().magnitude as nat, SINGLE);
    lemma_zero_points(b.parts().magnitude as nat, SINGLE);
    let exact = points(a.parts().magnitude as nat, SINGLE) + points(
        b.parts().magnitude as nat,
        SINGLE,
    );
    lemma_rounded_is_nearest(exact, 1, SINGLE);
}

/// A number does not grow when one that is not below zero is taken from it.
pub proof fn lemma_minus_not_above(a: Single, b: Single)
    requires
        !a.is_nan(),
        Single::zero().at_most(b),
    ensures
        !a.minus(b).is_nan() ==> a.minus(b).at_most(a),
{
    lemma_not_below_zero(b);
    if b.is_level() {
        lemma_minus_at_most(a, b);
    } else {
        reveal(Single::spec_minus);
        reveal(Single::spec_plus);
        reveal(Single::spec_negated);
        reveal(Single::spec_at_most);
        assert(b.negated() == Single::zero());
        lemma_zero_points(0, SINGLE);
        lemma_zero_points(a.parts().magnitude as nat, SINGLE);
        if is_finite(a) {
            lemma_rounds_to_itself(a, 1);
            let m = points(a.parts().magnitude as nat, SINGLE);
            assert(m * 1 == m);
            assert(a.minus(b).parts().magnitude == a.parts().magnitude);
        }
    }
}

} // verus!
