//! Sign and magnitude of a floating-point value, and arithmetic on them.
//!
//! One set of rules serves both formats: special values first, then the exact result
//! on points, rounded once.
use crate::ieee::{
    add_magnitudes, divide_magnitudes, infinity, is_format, lemma_points_increase,
    multiply_magnitudes, one_in_points, points, root_magnitude, rounded, rounded_root,
    subtract_magnitudes, SINGLE,
};
use vstd::prelude::*;

verus! {

/// A floating-point value taken apart: the sign bit, and the bits below it.
#[derive(Clone, Copy, Debug)]
pub struct Parts {
    /// The sign bit.
    pub negative: bool,
    /// The bits below the sign.
    pub magnitude: u64,
}

impl Parts {
    /// Not a number.
    pub open spec fn is_nan(self, p: u32) -> bool {
        self.magnitude > infinity(p)
    }

    /// One of the two infinities.
    pub open spec fn is_infinite(self, p: u32) -> bool {
        self.magnitude == infinity(p)
    }

    /// One of the two zeros.
    pub open spec fn is_zero(self) -> bool {
        self.magnitude == 0
    }

    /// The value in points; an infinity counts as the power of two past the largest value.
    pub open spec fn value(self, p: u32) -> int {
        if self.negative {
            -(points(self.magnitude as nat, p) as int)
        } else {
            points(self.magnitude as nat, p) as int
        }
    }
}

/// The quiet not-a-number that every invalid operation gives.
pub open spec fn nan(p: u32) -> Parts {
    Parts { negative: false, magnitude: nan_magnitude(p) }
}

/// The magnitude of [`nan`].
pub open spec fn nan_magnitude(p: u32) -> u64 {
    if p == SINGLE {
        0x7fc0_0000
    } else {
        0x7ff8_0000_0000_0000
    }
}

/// The exact value `num / den` points with a sign, rounded.
pub open spec fn signed(negative: bool, num: nat, den: nat, p: u32) -> Parts {
    Parts { negative, magnitude: rounded(num, den, p) as u64 }
}

/// The sum of two values.
pub open spec fn sum(a: Parts, b: Parts, p: u32) -> Parts {
    if a.is_nan(p) || b.is_nan(p) {
        nan(p)
    } else if a.is_infinite(p) {
        if b.is_infinite(p) && a.negative != b.negative {
            nan(p)
        } else {
            a
        }
    } else if b.is_infinite(p) {
        b
    } else {
        let exact = a.value(p) + b.value(p);
        if exact == 0 {
            Parts { negative: a.negative && b.negative, magnitude: 0 }
        } else if exact > 0 {
            signed(false, exact as nat, 1, p)
        } else {
            signed(true, (-exact) as nat, 1, p)
        }
    }
}

/// The product of two values.
pub open spec fn product(a: Parts, b: Parts, p: u32) -> Parts {
    let negative = a.negative != b.negative;
    if a.is_nan(p) || b.is_nan(p) {
        nan(p)
    } else if a.is_infinite(p) || b.is_infinite(p) {
        if a.is_zero() || b.is_zero() {
            nan(p)
        } else {
            Parts { negative, magnitude: infinity(p) as u64 }
        }
    } else {
        signed(
            negative,
            points(a.magnitude as nat, p) * points(b.magnitude as nat, p),
            one_in_points(p),
            p,
        )
    }
}

/// The quotient of two values.
pub open spec fn quotient(a: Parts, b: Parts, p: u32) -> Parts {
    let negative = a.negative != b.negative;
    if a.is_nan(p) || b.is_nan(p) {
        nan(p)
    } else if a.is_infinite(p) {
        if b.is_infinite(p) {
            nan(p)
        } else {
            Parts { negative, magnitude: infinity(p) as u64 }
        }
    } else if b.is_infinite(p) {
        Parts { negative, magnitude: 0 }
    } else if b.is_zero() {
        if a.is_zero() {
            nan(p)
        } else {
            Parts { negative, magnitude: infinity(p) as u64 }
        }
    } else {
        signed(
            negative,
            points(a.magnitude as nat, p) * one_in_points(p),
            points(b.magnitude as nat, p),
            p,
        )
    }
}

/// The square root of a value.
pub open spec fn square_root(a: Parts, p: u32) -> Parts {
    if a.is_nan(p) {
        nan(p)
    } else if a.is_zero() {
        a
    } else if a.negative {
        nan(p)
    } else if a.is_infinite(p) {
        a
    } else {
        Parts {
            negative: false,
            magnitude: rounded_root(
                points(a.magnitude as nat, p) * one_in_points(p),
                p,
            ) as u64,
        }
    }
}

/// The magnitude of infinity as a word.
fn top(p: u32) -> (r: u64)
    requires
        is_format(p),
    ensures
        r == infinity(p),
{
    if p == SINGLE {
        0x7f80_0000
    } else {
        0x7ff0_0000_0000_0000
    }
}

/// The quiet not-a-number.
fn invalid(p: u32) -> (r: Parts)
    requires
        is_format(p),
    ensures
        r == nan(p),
{
    Parts {
        negative: false,
        magnitude: if p == SINGLE {
            0x7fc0_0000
        } else {
            0x7ff8_0000_0000_0000
        },
    }
}

/// Adds two values.
pub fn add_parts(a: Parts, b: Parts, p: u32) -> (r: Parts)
    requires
        is_format(p),
    ensures
        r == sum(a, b, p),
        r.magnitude <= nan_magnitude(p),
{
    let inf = top(p);
    if a.magnitude > inf || b.magnitude > inf {
        return invalid(p);
    }
    if a.magnitude == inf {
        if b.magnitude == inf && a.negative != b.negative {
            return invalid(p);
        }
        return a;
    }
    if b.magnitude == inf {
        return b;
    }
    proof {
        lemma_zero_points(a.magnitude as nat, p);
        lemma_zero_points(b.magnitude as nat, p);
    }
    if a.negative == b.negative {
        if a.magnitude == 0 && b.magnitude == 0 {
            a
        } else {
            Parts { negative: a.negative, magnitude: add_magnitudes(a.magnitude, b.magnitude, p) }
        }
    } else if a.magnitude == b.magnitude {
        Parts { negative: false, magnitude: 0 }
    } else if a.magnitude > b.magnitude {
        proof {
            lemma_points_increase(b.magnitude as nat, a.magnitude as nat, p);
        }
        Parts { negative: a.negative, magnitude: subtract_magnitudes(a.magnitude, b.magnitude, p) }
    } else {
        proof {
            lemma_points_increase(a.magnitude as nat, b.magnitude as nat, p);
        }
        Parts { negative: b.negative, magnitude: subtract_magnitudes(b.magnitude, a.magnitude, p) }
    }
}

/// Only magnitude zero stands for zero.
pub proof fn lemma_zero_points(mag: nat, p: u32)
    requires
        is_format(p),
    ensures
        points(mag, p) == 0 <==> mag == 0,
{
    vstd::arithmetic::power2::lemma_pow2_pos((p - 1) as nat);
    assert(points(0, p) == 0) by (nonlinear_arith)
        requires
            points(0, p) == 0 * vstd::arithmetic::power2::pow2(0),
    ;
    if mag > 0 {
        lemma_points_increase(0, mag, p);
    }
}

/// Multiplies two values.
pub fn multiply_parts(a: Parts, b: Parts, p: u32) -> (r: Parts)
    requires
        is_format(p),
    ensures
        r == product(a, b, p),
        r.magnitude <= nan_magnitude(p),
{
    let inf = top(p);
    let negative = a.negative != b.negative;
    if a.magnitude > inf || b.magnitude > inf {
        return invalid(p);
    }
    if a.magnitude == inf || b.magnitude == inf {
        if a.magnitude == 0 || b.magnitude == 0 {
            return invalid(p);
        }
        return Parts { negative, magnitude: inf };
    }
    Parts { negative, magnitude: multiply_magnitudes(a.magnitude, b.magnitude, p) }
}

/// Divides two values.
pub fn divide_parts(a: Parts, b: Parts, p: u32) -> (r: Parts)
    requires
        is_format(p),
    ensures
        r == quotient(a, b, p),
        r.magnitude <= nan_magnitude(p),
{
    let inf = top(p);
    let negative = a.negative != b.negative;
    if a.magnitude > inf || b.magnitude > inf {
        return invalid(p);
    }
    if a.magnitude == inf {
        if b.magnitude == inf {
            return invalid(p);
        }
        return Parts { negative, magnitude: inf };
    }
    if b.magnitude == inf {
        return Parts { negative, magnitude: 0 };
    }
    if b.magnitude == 0 {
        if a.magnitude == 0 {
            return invalid(p);
        }
        return Parts { negative, magnitude: inf };
    }
    Parts { negative, magnitude: divide_magnitudes(a.magnitude, b.magnitude, p) }
}

/// Takes the square root of a value.
pub fn root_parts(a: Parts, p: u32) -> (r: Parts)
    requires
        is_format(p),
    ensures
        r == square_root(a, p),
        r.magnitude <= nan_magnitude(p),
{
    let inf = top(p);
    if a.magnitude > inf {
        return invalid(p);
    }
    if a.magnitude == 0 {
        return a;
    }
    if a.negative {
        return invalid(p);
    }
    if a.magnitude == inf {
        return a;
    }
    Parts { negative: false, magnitude: root_magnitude(a.magnitude, p) }
}

} // verus!
