//! Lengths of time.
use crate::double::{self, Double};
use crate::ieee::{
    infinity, lemma_leading, lemma_points_increase, lemma_power_magnitude, lemma_rounded_at_least,
    lemma_rounded_at_most, lemma_small_words, one_in_points, points, rounded, saturating_scale,
    shift_out, unpack, DOUBLE,
};
use crate::single::{lemma_over_level, lemma_plus_level, lemma_whole_level, whole, Single};
use vstd::arithmetic::power2::{
    lemma_pow2_adds, lemma_pow2_pos, lemma_pow2_strictly_increases, lemma_pow2_unfold, pow2,
};
use vstd::prelude::*;

verus! {

/// Nanoseconds in a second.
pub const NANOS_PER_SECOND: u32 = 1_000_000_000;

/// A length of time, to the nanosecond.
#[derive(Clone, Copy, Debug, PartialEq, Eq, Structural)]
pub struct Duration {
    /// Whole seconds.
    pub seconds: u64,
    /// Nanoseconds past the last whole second.
    pub nanos: u32,
}

/// `num / den` to the nearest whole number; of two equally near, the even one.
pub open spec fn nearest_even(num: nat, den: nat) -> nat {
    let q = num / den;
    let rest = num % den;
    if 2 * rest > den || (2 * rest == den && q % 2 == 1) {
        q + 1
    } else {
        q
    }
}

/// The duration of a number of nanoseconds.
pub open spec fn of_nanos(total: nat) -> Duration {
    Duration {
        seconds: (total / (NANOS_PER_SECOND as nat)) as u64,
        nanos: (total % (NANOS_PER_SECOND as nat)) as u32,
    }
}

/// A number of seconds to the nearest nanosecond.
pub open spec fn nanoseconds(seconds: Double) -> nat {
    nearest_even(
        points(seconds.parts().magnitude as nat, DOUBLE) * (NANOS_PER_SECOND as nat),
        one_in_points(DOUBLE),
    )
}

/// The value is a number of seconds that a duration can hold.
pub open spec fn is_duration(seconds: Double) -> bool {
    let parts = seconds.parts();
    &&& parts.magnitude < infinity(DOUBLE)
    &&& parts.negative ==> parts.magnitude == 0
    &&& nanoseconds(seconds) / (NANOS_PER_SECOND as nat) <= u64::MAX
}

/// A count of at most `2^63` at a rate of at least one a second is a duration.
pub proof fn lemma_count_over_rate(count: nat, rate: nat)
    requires
        count <= 0x8000_0000_0000_0000,
        1 <= rate <= u64::MAX,
    ensures
        is_duration(double::whole(count).over(double::whole(rate))),
{
    reveal(double::whole);
    reveal(Double::spec_over);
    let one = one_in_points(DOUBLE);
    let limit = 0x43e0_0000_0000_0000nat;
    let unit = 0x3ff0_0000_0000_0000nat;
    lemma_leading(DOUBLE);
    lemma_power_magnitude(63, limit, DOUBLE);
    lemma_power_magnitude(0, unit, DOUBLE);
    vstd::arithmetic::power2::lemma2_to64();
    vstd::arithmetic::power2::lemma2_to64_rest();
    lemma_pow2_pos(1074);
    assert(count * one <= points(limit, DOUBLE) * 1) by (nonlinear_arith)
        requires
            count <= 0x8000_0000_0000_0000,
            points(limit, DOUBLE) == 0x8000_0000_0000_0000 * one,
    ;
    assert(rate * one >= points(unit, DOUBLE) * 1) by (nonlinear_arith)
        requires
            rate >= 1,
            points(unit, DOUBLE) == 1 * one,
    ;
    lemma_rounded_at_most(count * one, 1, limit, DOUBLE);
    lemma_rounded_at_least(rate * one, 1, unit, DOUBLE);
    let top = 0x43f0_0000_0000_0000nat;
    lemma_power_magnitude(64, top, DOUBLE);
    assert(rate * one <= points(top, DOUBLE) * 1) by (nonlinear_arith)
        requires
            rate <= 0x1_0000_0000_0000_0000,
            points(top, DOUBLE) == 0x1_0000_0000_0000_0000 * one,
    ;
    lemma_rounded_at_most(rate * one, 1, top, DOUBLE);
    let a = rounded(count * one, 1, DOUBLE);
    let b = rounded(rate * one, 1, DOUBLE);
    lemma_points_at_most(a, limit);
    lemma_points_at_most(unit, b);
    let num = points(a, DOUBLE) * one;
    let den = points(b, DOUBLE);
    assert(num <= points(limit, DOUBLE) * den) by (nonlinear_arith)
        requires
            num == points(a, DOUBLE) * one,
            points(a, DOUBLE) <= points(limit, DOUBLE),
            den >= one,
            one > 0,
    ;
    lemma_rounded_at_most(num, den, limit, DOUBLE);
    let m = rounded(num, den, DOUBLE);
    lemma_points_at_most(m, limit);
    let billion = NANOS_PER_SECOND as nat;
    let total = (points(m, DOUBLE) * billion) as nat;
    assert(total <= (0x8000_0000_0000_0000 * billion) * one) by (nonlinear_arith)
        requires
            total == points(m, DOUBLE) * billion,
            points(m, DOUBLE) <= 0x8000_0000_0000_0000 * one,
    ;
    vstd::arithmetic::div_mod::lemma_div_is_ordered(
        total as int,
        ((0x8000_0000_0000_0000 * billion) * one) as int,
        one as int,
    );
    vstd::arithmetic::div_mod::lemma_div_by_multiple(
        (0x8000_0000_0000_0000 * billion) as int,
        one as int,
    );
    let x = double::whole(count).over(double::whole(rate));
    assert(x.parts().magnitude == m);
}

proof fn lemma_points_at_most(a: nat, b: nat)
    requires
        a <= b,
    ensures
        points(a, DOUBLE) <= points(b, DOUBLE),
{
    if a < b {
        lemma_points_increase(a, b, DOUBLE);
    }
}

/// Expanding the fraction does not change the nearest whole number.
proof fn lemma_nearest_even_expanded(num: nat, den: nat, t: nat)
    requires
        den > 0,
        t > 0,
    ensures
        nearest_even(num * t, den * t) == nearest_even(num, den),
{
    let q = num / den;
    let rest = num % den;
    vstd::arithmetic::div_mod::lemma_fundamental_div_mod(num as int, den as int);
    assert(num * t == q * (den * t) + rest * t) by (nonlinear_arith)
        requires
            num == den * q + rest,
    ;
    assert(0 <= rest * t < den * t) by (nonlinear_arith)
        requires
            0 <= rest < den,
            t > 0,
    ;
    vstd::arithmetic::div_mod::lemma_fundamental_div_mod_converse(
        (num * t) as int,
        (den * t) as int,
        q as int,
        (rest * t) as int,
    );
    assert(2 * (rest * t) > den * t <==> 2 * rest > den) by (nonlinear_arith)
        requires
            t > 0,
    ;
    assert(2 * (rest * t) == den * t <==> 2 * rest == den) by (nonlinear_arith)
        requires
            t > 0,
    ;
}

impl Duration {
    /// The nanoseconds stay below a second.
    pub open spec fn wf(self) -> bool {
        self.nanos < NANOS_PER_SECOND
    }

    /// The length in seconds, in single precision.
    pub open spec fn spec_as_seconds(self) -> Single {
        whole(self.seconds as nat).plus(
            whole(self.nanos as nat).over(whole(NANOS_PER_SECOND as nat)),
        )
    }

    /// A number of seconds to the nearest nanosecond, if a duration can hold it.
    pub fn from_seconds(seconds: Double) -> (r: Option<Duration>)
        ensures
            r == if is_duration(seconds) {
                Some(of_nanos(nanoseconds(seconds)))
            } else {
                None::<Duration>
            },
    {
        let parts = seconds.split();
        if parts.magnitude >= 0x7ff0_0000_0000_0000 || (parts.negative && parts.magnitude > 0) {
            return None;
        }
        let (m, e) = unpack(parts.magnitude, DOUBLE);
        let ghost value = points(parts.magnitude as nat, DOUBLE);
        let ghost billion = NANOS_PER_SECOND as nat;
        proof {
            lemma_small_words(DOUBLE);
            lemma_pow2_pos(e as nat);
            lemma_pow2_pos(1074);
        }
        if e >= 1074 {
            let shift: u32 = e - 1074;
            let ghost w = (m * pow2(shift as nat)) as nat;
            proof {
                lemma_pow2_adds(1074, shift as nat);
                lemma_pow2_pos(shift as nat);
                assert(w >= 0) by (nonlinear_arith)
                    requires
                        w == m * pow2(shift as nat),
                ;
                assert(value * billion == (w * billion) * pow2(1074)) by (nonlinear_arith)
                    requires
                        value == m * pow2(e as nat),
                        pow2(e as nat) == pow2(1074) * pow2(shift as nat),
                        w == m * pow2(shift as nat),
                ;
                vstd::arithmetic::div_mod::lemma_fundamental_div_mod_converse(
                    (value * billion) as int,
                    pow2(1074) as int,
                    (w * billion) as int,
                    0,
                );
                assert(nanoseconds(seconds) == w * billion);
                vstd::arithmetic::div_mod::lemma_div_by_multiple(w as int, billion as int);
                vstd::arithmetic::power2::lemma2_to64();
                lemma_leading(DOUBLE);
            }
            if shift > 11 {
                proof {
                    lemma_pow2_strictly_increases(11, shift as nat);
                    lemma_pow2_unfold(12);
                    if shift > 12 {
                        lemma_pow2_strictly_increases(12, shift as nat);
                    }
                    assert(w >= 0x10_0000_0000_0000 * 4096) by (nonlinear_arith)
                        requires
                            w == m * pow2(shift as nat),
                            m >= 0x10_0000_0000_0000,
                            pow2(shift as nat) >= 4096,
                    ;
                }
                None
            } else {
                proof {
                    if shift < 11 {
                        lemma_pow2_strictly_increases(shift as nat, 11);
                    }
                    assert(w <= 0x1f_ffff_ffff_ffff * 2048) by (nonlinear_arith)
                        requires
                            w == m * pow2(shift as nat),
                            m <= 0x1f_ffff_ffff_ffff,
                            0 < pow2(shift as nat) <= 2048,
                    ;
                }
                Some(Duration { seconds: saturating_scale(m, shift), nanos: 0 })
            }
        } else {
            let s: u32 = 1074 - e;
            assert(m < 0x20_0000_0000_0000);
            assert(0 <= m * 1_000_000_000 < 0x20_0000_0000_0000 * 1_000_000_000) by (nonlinear_arith)
                requires
                    0 <= m < 0x20_0000_0000_0000,
            ;
            assert(pow2(124) == 0x1000_0000_0000_0000 * 0x1_0000_0000_0000_0000);
            let n: u128 = m as u128 * NANOS_PER_SECOND as u128;
            let ghost w = pow2(s as nat);
            proof {
                lemma_pow2_pos(s as nat);
                lemma_pow2_adds(e as nat, s as nat);
                lemma_pow2_unfold(s as nat);
                lemma_pow2_pos((s - 1) as nat);
                assert(n * 1 == n && (n + 1) * 1 == n + 1);
                assert(value * billion == n * pow2(e as nat)) by (nonlinear_arith)
                    requires
                        value == m * pow2(e as nat),
                        n == m * billion,
                ;
                lemma_nearest_even_expanded(n as nat, w, pow2(e as nat));
                assert(w * pow2(e as nat) == pow2(1074)) by (nonlinear_arith)
                    requires
                        pow2(1074) == pow2(e as nat) * w,
                ;
            }
            let (q, up) = shift_out(n, s, false, Ghost(n as nat), Ghost(1));
            proof {
                let rest = n - q * w;
                assert(q * (1 * w) == q * w && (q + 1) * (1 * w) == (q + 1) * w && (2 * q + 1) * (1 * w)
                    == (2 * q + 1) * w);
                assert(n as int == w * q + rest && 0 <= rest < w) by (nonlinear_arith)
                    requires
                        rest == n - q * w,
                        q * w <= n,
                        n < (q + 1) * w,
                ;
                vstd::arithmetic::div_mod::lemma_fundamental_div_mod_converse(
                    n as int,
                    w as int,
                    q as int,
                    rest,
                );
                assert((2 * q + 1) * w == 2 * (q * w) + w) by (nonlinear_arith);
                assert(q <= n / 2) by (nonlinear_arith)
                    requires
                        q * w <= n,
                        w >= 2,
                        q >= 0,
                ;
            }
            let total: u128 = if up {
                q + 1
            } else {
                q
            };
            let whole_seconds: u128 = total / NANOS_PER_SECOND as u128;
            let nanos: u128 = total % NANOS_PER_SECOND as u128;
            Some(Duration { seconds: whole_seconds as u64, nanos: nanos as u32 })
        }
    }

    /// The length in seconds is a number and not negative.
    pub proof fn lemma_as_seconds_level(self)
        ensures
            self.as_seconds().is_level(),
    {
        let billion = NANOS_PER_SECOND as nat;
        lemma_whole_level(self.seconds as nat);
        lemma_whole_level(self.nanos as nat);
        lemma_whole_level(billion);
        lemma_over_level(whole(self.nanos as nat), whole(billion));
        lemma_plus_level(
            whole(self.seconds as nat),
            whole(self.nanos as nat).over(whole(billion)),
        );
    }

    /// No time at all.
    pub fn zero() -> (r: Duration)
        ensures
            r == of_nanos(0),
            r.wf(),
    {
        Duration { seconds: 0, nanos: 0 }
    }

    /// A number of whole seconds.
    pub fn from_secs(seconds: u64) -> (r: Duration)
        ensures
            r.seconds == seconds,
            r.nanos == 0,
            r.wf(),
    {
        Duration { seconds, nanos: 0 }
    }

    /// Whether this is no time at all.
    pub fn is_zero(self) -> (r: bool)
        ensures
            r <==> self.seconds == 0 && self.nanos == 0,
    {
        self.seconds == 0 && self.nanos == 0
    }

    /// The length in seconds: whole seconds and the fraction, each rounded, added up.
    #[verifier::when_used_as_spec(spec_as_seconds)]
    pub fn as_seconds(self) -> (r: Single)
        ensures
            r == self.spec_as_seconds(),
    {
        Single::of_word(self.seconds).plus(
            Single::of_word(self.nanos as u64).over(Single::of_word(NANOS_PER_SECOND as u64)),
        )
    }
}

} // verus!
