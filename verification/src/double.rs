//! Double-precision values, held by their bit patterns.
use crate::bounds::{lemma_exponent_bound, lemma_representable, lemma_root_at_most};
use crate::ieee::{
    exponent, infinity, lemma_decompose, lemma_leading, lemma_rounded_at_most, lemma_rounded_points,
    magnitude_of_whole, narrow_magnitude, one_in_points, points, rounded, significand,
    widen_magnitude, DOUBLE, SINGLE,
};
use crate::parts::{
    add_parts, divide_parts, lemma_zero_points, nan_magnitude, quotient, root_parts, square_root,
    sum, Parts,
};
use crate::single::Single;
use vstd::arithmetic::power2::{lemma_pow2_adds, pow2};
use vstd::prelude::*;

verus! {

/// A double-precision floating-point value.
#[derive(Clone, Copy, Debug)]
pub struct Double {
    /// The bit pattern: the sign, then eleven bits of exponent and 52 of fraction.
    pub bits: u64,
}

/// The value that sign and magnitude stand for.
pub open spec fn joined(parts: Parts) -> Double {
    Double {
        bits: if parts.negative {
            (parts.magnitude + 0x8000_0000_0000_0000) as u64
        } else {
            parts.magnitude
        },
    }
}

/// `n` rounded to double precision.
#[verifier::opaque]
pub open spec fn whole(n: nat) -> Double {
    Double { bits: rounded(n * one_in_points(DOUBLE), 1, DOUBLE) as u64 }
}

/// A single as a double; nothing is lost.
#[verifier::opaque]
pub open spec fn widened(x: Single) -> Double {
    let parts = x.parts();
    joined(
        Parts {
            negative: parts.negative,
            magnitude: if parts.is_nan(SINGLE) {
                nan_magnitude(DOUBLE)
            } else if parts.is_infinite(SINGLE) {
                infinity(DOUBLE) as u64
            } else {
                rounded(points(parts.magnitude as nat, SINGLE) * pow2(925), 1, DOUBLE) as u64
            },
        },
    )
}

impl Double {
    /// The value taken apart.
    pub open spec fn parts(self) -> Parts {
        Parts {
            negative: self.bits >= 0x8000_0000_0000_0000,
            magnitude: (self.bits % 0x8000_0000_0000_0000) as u64,
        }
    }

    /// The sum.
    #[verifier::opaque]
    pub open spec fn spec_plus(self, other: Double) -> Double {
        joined(sum(self.parts(), other.parts(), DOUBLE))
    }

    /// The quotient.
    #[verifier::opaque]
    pub open spec fn spec_over(self, other: Double) -> Double {
        joined(quotient(self.parts(), other.parts(), DOUBLE))
    }

    /// The square root.
    #[verifier::opaque]
    pub open spec fn spec_sqrt(self) -> Double {
        joined(square_root(self.parts(), DOUBLE))
    }

    /// The value rounded to single precision.
    #[verifier::opaque]
    pub open spec fn spec_to_single(self) -> Single {
        let parts = self.parts();
        crate::single::joined(
            Parts {
                negative: parts.negative,
                magnitude: if parts.is_nan(DOUBLE) {
                    nan_magnitude(SINGLE)
                } else if parts.is_infinite(DOUBLE) {
                    infinity(SINGLE) as u64
                } else {
                    rounded(points(parts.magnitude as nat, DOUBLE), pow2(925), SINGLE) as u64
                },
            },
        )
    }

    /// Takes the value apart.
    pub fn split(self) -> (r: Parts)
        ensures
            r == self.parts(),
    {
        Parts {
            negative: self.bits >= 0x8000_0000_0000_0000,
            magnitude: self.bits % 0x8000_0000_0000_0000,
        }
    }

    /// Puts a value together.
    fn join(parts: Parts) -> (r: Double)
        requires
            parts.magnitude < 0x8000_0000_0000_0000,
        ensures
            r == joined(parts),
    {
        if parts.negative {
            Double { bits: parts.magnitude + 0x8000_0000_0000_0000 }
        } else {
            Double { bits: parts.magnitude }
        }
    }

    /// Adds.
    #[verifier::when_used_as_spec(spec_plus)]
    pub fn plus(self, other: Double) -> (r: Double)
        ensures
            r == self.spec_plus(other),
    {
        proof {
            reveal(Double::spec_plus);
        }
        Double::join(add_parts(self.split(), other.split(), DOUBLE))
    }

    /// Divides.
    #[verifier::when_used_as_spec(spec_over)]
    pub fn over(self, other: Double) -> (r: Double)
        ensures
            r == self.spec_over(other),
    {
        proof {
            reveal(Double::spec_over);
        }
        Double::join(divide_parts(self.split(), other.split(), DOUBLE))
    }

    /// Takes the square root.
    #[verifier::when_used_as_spec(spec_sqrt)]
    pub fn sqrt(self) -> (r: Double)
        ensures
            r == self.spec_sqrt(),
    {
        proof {
            reveal(Double::spec_sqrt);
        }
        Double::join(root_parts(self.split(), DOUBLE))
    }

    /// A word as a value.
    pub fn of_word(n: u64) -> (r: Double)
        ensures
            r == whole(n as nat),
    {
        proof {
            reveal(whole);
        }
        Double { bits: magnitude_of_whole(n, DOUBLE) }
    }

    /// A single as a double.
    pub fn of_single(x: Single) -> (r: Double)
        ensures
            r == widened(x),
    {
        proof {
            reveal(widened);
        }
        let negative = x.bits >= 0x8000_0000;
        let magnitude: u64 = (x.bits % 0x8000_0000) as u64;
        let wide: u64 = if magnitude > 0x7f80_0000 {
            0x7ff8_0000_0000_0000
        } else if magnitude == 0x7f80_0000 {
            0x7ff0_0000_0000_0000
        } else {
            widen_magnitude(magnitude)
        };
        Double::join(Parts { negative, magnitude: wide })
    }

    /// The value rounded to single precision.
    #[verifier::when_used_as_spec(spec_to_single)]
    pub fn to_single(self) -> (r: Single)
        ensures
            r == self.spec_to_single(),
    {
        proof {
            reveal(Double::spec_to_single);
        }
        let parts = self.split();
        let narrow: u64 = if parts.magnitude > 0x7ff0_0000_0000_0000 {
            0x7fc0_0000
        } else if parts.magnitude == 0x7ff0_0000_0000_0000 {
            0x7f80_0000
        } else {
            narrow_magnitude(parts.magnitude)
        };
        if parts.negative {
            Single { bits: narrow as u32 + 0x8000_0000 }
        } else {
            Single { bits: narrow as u32 }
        }
    }
}

/// Nothing is lost when a finite single level is widened.
pub proof fn lemma_widened(x: Single)
    requires
        x.bits < 0x7f80_0000,
    ensures
        widened(x).bits < 0x7ff0_0000_0000_0000,
        points(widened(x).bits as nat, DOUBLE) == points(x.bits as nat, SINGLE) * pow2(925),
{
    reveal(widened);
    let m = x.bits as nat;
    let q = significand(m, SINGLE);
    let e = exponent(m, SINGLE);
    lemma_decompose(m, SINGLE);
    lemma_exponent_bound(m, SINGLE);
    lemma_leading(SINGLE);
    lemma_leading(DOUBLE);
    let mag = lemma_representable(q, e + 925, DOUBLE);
    lemma_pow2_adds(e, 925);
    assert(q * (pow2(e) * pow2(925)) == q * pow2(e) * pow2(925)) by (nonlinear_arith);
    lemma_rounded_points(mag, 1, DOUBLE);
}

/// A whole number that the significand can hold is held as it is.
pub proof fn lemma_whole_exact(n: nat)
    requires
        n < 0x20_0000_0000_0000,
    ensures
        whole(n).bits < 0x7ff0_0000_0000_0000,
        points(whole(n).bits as nat, DOUBLE) == n * one_in_points(DOUBLE),
{
    reveal(whole);
    lemma_leading(DOUBLE);
    let mag = lemma_representable(n, 1074, DOUBLE);
    lemma_rounded_points(mag, 1, DOUBLE);
}

/// A sum of finite levels does not pass a magnitude that the exact sum does not pass.
pub proof fn lemma_plus_at_most(a: Double, b: Double, limit: nat)
    requires
        a.bits < 0x7ff0_0000_0000_0000,
        b.bits < 0x7ff0_0000_0000_0000,
        limit < 0x7ff0_0000_0000_0000,
        points(a.bits as nat, DOUBLE) + points(b.bits as nat, DOUBLE) <= points(limit, DOUBLE),
    ensures
        a.plus(b).bits <= limit,
{
    reveal(Double::spec_plus);
    let exact = points(a.bits as nat, DOUBLE) + points(b.bits as nat, DOUBLE);
    lemma_rounded_at_most(exact, 1, limit, DOUBLE);
    assert(a.parts().magnitude == a.bits && b.parts().magnitude == b.bits);
}

/// A quotient of finite levels does not pass a magnitude that the exact quotient does not pass.
pub proof fn lemma_over_at_most(a: Double, b: Double, limit: nat)
    requires
        a.bits < 0x7ff0_0000_0000_0000,
        0 < b.bits < 0x7ff0_0000_0000_0000,
        limit < 0x7ff0_0000_0000_0000,
        points(a.bits as nat, DOUBLE) * one_in_points(DOUBLE) <= points(limit, DOUBLE) * points(
            b.bits as nat,
            DOUBLE,
        ),
    ensures
        a.over(b).bits <= limit,
{
    reveal(Double::spec_over);
    lemma_zero_points(b.bits as nat, DOUBLE);
    lemma_rounded_at_most(
        points(a.bits as nat, DOUBLE) * one_in_points(DOUBLE),
        points(b.bits as nat, DOUBLE),
        limit,
        DOUBLE,
    );
    assert(a.parts().magnitude == a.bits && b.parts().magnitude == b.bits);
}

/// A root of a finite level does not pass a magnitude that the exact root does not pass.
pub proof fn lemma_sqrt_at_most(a: Double, limit: nat)
    requires
        a.bits < 0x7ff0_0000_0000_0000,
        limit < 0x7ff0_0000_0000_0000,
        points(a.bits as nat, DOUBLE) * one_in_points(DOUBLE) <= points(limit, DOUBLE) * points(
            limit,
            DOUBLE,
        ),
    ensures
        a.sqrt().bits <= limit,
{
    reveal(Double::spec_sqrt);
    assert(a.parts().magnitude == a.bits);
    lemma_root_at_most(points(a.bits as nat, DOUBLE) * one_in_points(DOUBLE), limit, DOUBLE);
}

} // verus!
