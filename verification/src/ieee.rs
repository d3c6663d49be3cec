//! Rounding to the IEEE 754 binary formats.
//!
//! A finite value of a format is found by its *magnitude*: the bit pattern without
//! the sign. Every magnitude stands for a whole number of the format's smallest
//! positive value, [`points`], and the magnitude of infinity stands for the first
//! power of two past the largest finite value. Rounding to nearest, ties to even,
//! is then one statement about neighbouring magnitudes, [`nearest`].
use vstd::arithmetic::power2::{
    lemma_pow2_adds, lemma_pow2_pos, lemma_pow2_strictly_increases, lemma_pow2_unfold, pow2,
};
use vstd::prelude::*;

verus! {

/// Significand bits of the single format, the leading bit counted.
pub const SINGLE: u32 = 24;

/// Significand bits of the double format, the leading bit counted.
pub const DOUBLE: u32 = 53;

/// The two formats this module rounds to, by their precision.
pub open spec fn is_format(p: u32) -> bool {
    p == SINGLE || p == DOUBLE
}

/// The significand's leading bit: the first magnitude of a normal value.
pub open spec fn leading(p: u32) -> nat {
    pow2((p - 1) as nat)
}

/// The magnitude of infinity.
pub open spec fn infinity(p: u32) -> nat {
    if p == SINGLE {
        0x7f80_0000
    } else {
        0x7ff0_0000_0000_0000
    }
}

/// A point is 2 to the power of minus this: the format's smallest positive value.
pub open spec fn point_exponent(p: u32) -> nat {
    if p == SINGLE {
        149
    } else {
        1074
    }
}

/// The number of points in 1.
pub open spec fn one_in_points(p: u32) -> nat {
    pow2(point_exponent(p))
}

/// The significand of a magnitude as a whole number.
pub open spec fn significand(mag: nat, p: u32) -> nat {
    if mag < leading(p) {
        mag
    } else {
        leading(p) + mag % leading(p)
    }
}

/// The power of two, in points, that the significand is multiplied by.
pub open spec fn exponent(mag: nat, p: u32) -> nat {
    if mag < leading(p) {
        0
    } else {
        (mag / leading(p) - 1) as nat
    }
}

/// The value of a magnitude, in points.
pub open spec fn points(mag: nat, p: u32) -> nat {
    significand(mag, p) * pow2(exponent(mag, p))
}

/// `r` is the magnitude nearest to `num / den` points; of two equally near, the even one.
pub open spec fn nearest(r: nat, num: nat, den: nat, p: u32) -> bool {
    &&& r <= infinity(p)
    &&& r < infinity(p) ==> {
        let sum = (points(r, p) + points(r + 1, p)) * den;
        2 * num < sum || (2 * num == sum && r % 2 == 0)
    }
    &&& r > 0 ==> {
        let sum = (points((r - 1) as nat, p) + points(r, p)) * den;
        2 * num > sum || (2 * num == sum && r % 2 == 0)
    }
}

/// The magnitude that `num / den` points round to.
pub open spec fn rounded(num: nat, den: nat, p: u32) -> nat {
    choose|r: nat| nearest(r, num, den, p)
}

pub(crate) proof fn lemma_leading(p: u32)
    requires
        is_format(p),
    ensures
        leading(p) == if p == SINGLE { 0x80_0000nat } else { 0x10_0000_0000_0000nat },
        leading(p) % 2 == 0,
        2 * leading(p) == pow2(p as nat),
{
    vstd::arithmetic::power2::lemma2_to64();
    vstd::arithmetic::power2::lemma2_to64_rest();
    lemma_pow2_unfold(p as nat);
}

/// A significand and an exponent put together give a magnitude of their product.
pub(crate) proof fn lemma_compose(q: nat, e: nat, p: u32)
    requires
        is_format(p),
        q <= 2 * leading(p),
        q >= leading(p) || e == 0,
    ensures
        points(q + leading(p) * e, p) == q * pow2(e),
{
    let h = leading(p);
    lemma_leading(p);
    let mag = q + h * e;
    if q < h {
        assert(h * e == 0) by (nonlinear_arith)
            requires
                e == 0,
        ;
    } else if q < 2 * h {
        let f = (q - h) as nat;
        assert(mag == h * (e + 1) + f) by (nonlinear_arith)
            requires
                mag == q + h * e,
                f == q - h,
        ;
        vstd::arithmetic::div_mod::lemma_fundamental_div_mod_converse(
            mag as int,
            h as int,
            (e + 1) as int,
            f as int,
        );
        assert(mag >= h) by (nonlinear_arith)
            requires
                mag == h * (e + 1) + f,
                f >= 0,
                e >= 0,
                h > 0,
        ;
    } else {
        assert(mag == h * (e + 2)) by (nonlinear_arith)
            requires
                mag == q + h * e,
                q == 2 * h,
        ;
        vstd::arithmetic::div_mod::lemma_fundamental_div_mod_converse(
            mag as int,
            h as int,
            (e + 2) as int,
            0,
        );
        assert(mag >= h) by (nonlinear_arith)
            requires
                mag == h * (e + 2),
                e >= 0,
                h > 0,
        ;
        lemma_pow2_unfold(e + 1);
        assert(h * (2 * pow2(e)) == 2 * h * pow2(e)) by (nonlinear_arith);
    }
}

/// A magnitude taken apart and put together again.
pub(crate) proof fn lemma_decompose(mag: nat, p: u32)
    requires
        is_format(p),
    ensures
        significand(mag, p) < 2 * leading(p),
        significand(mag, p) >= leading(p) || exponent(mag, p) == 0,
        mag == significand(mag, p) + leading(p) * exponent(mag, p),
{
    let h = leading(p);
    lemma_leading(p);
    if mag >= h {
        vstd::arithmetic::div_mod::lemma_fundamental_div_mod(mag as int, h as int);
        assert(mag / h >= 1) by (nonlinear_arith)
            requires
                mag >= h,
                h > 0,
        ;
        assert(h * (mag / h) == h + h * (mag / h - 1)) by (nonlinear_arith);
    }
}

/// One magnitude up is one step of the exponent up.
pub(crate) proof fn lemma_step(mag: nat, p: u32)
    requires
        is_format(p),
    ensures
        points(mag + 1, p) == points(mag, p) + pow2(exponent(mag, p)),
        points(mag, p) < points(mag + 1, p),
{
    let q = significand(mag, p);
    let e = exponent(mag, p);
    lemma_decompose(mag, p);
    lemma_compose(q + 1, e, p);
    assert((q + 1) * pow2(e) == q * pow2(e) + pow2(e)) by (nonlinear_arith);
    lemma_pow2_pos(e);
}

/// Larger magnitudes stand for larger values.
pub proof fn lemma_points_increase(a: nat, b: nat, p: u32)
    requires
        is_format(p),
        a < b,
    ensures
        points(a, p) < points(b, p),
    decreases b,
{
    lemma_step((b - 1) as nat, p);
    if a < b - 1 {
        lemma_points_increase(a, (b - 1) as nat, p);
    }
}

/// No two magnitudes are nearest to one value.
pub proof fn lemma_nearest_unique(a: nat, b: nat, num: nat, den: nat, p: u32)
    requires
        is_format(p),
        den > 0,
        nearest(a, num, den, p),
        nearest(b, num, den, p),
    ensures
        a == b,
{
    lemma_nearest_not_below(a, b, num, den, p);
    lemma_nearest_not_below(b, a, num, den, p);
}

proof fn lemma_nearest_not_below(a: nat, b: nat, num: nat, den: nat, p: u32)
    requires
        is_format(p),
        den > 0,
        nearest(a, num, den, p),
        nearest(b, num, den, p),
    ensures
        b <= a,
{
    if a < b {
        let c = (b - 1) as nat;
        let low = points(a, p) + points(a + 1, p);
        let high = points(c, p) + points(b, p);
        if a < c {
            lemma_points_increase(a, c, p);
            lemma_points_increase(a + 1, b, p);
            assert(low * den < high * den) by (nonlinear_arith)
                requires
                    low < high,
                    den > 0,
            ;
        }
    }
}

/// A value between two neighbouring magnitudes goes to the nearer of them.
proof fn lemma_round_step(q: nat, e: nat, up: bool, num: nat, den: nat, p: u32)
    requires
        is_format(p),
        den > 0,
        q < 2 * leading(p),
        q >= leading(p) || e == 0,
        q * (pow2(e) * den) <= num < (q + 1) * (pow2(e) * den),
        up <==> {
            ||| 2 * num > (2 * q + 1) * (pow2(e) * den)
            ||| 2 * num == (2 * q + 1) * (pow2(e) * den) && q % 2 == 1
        },
    ensures
        ({
            let r = (q + leading(p) * e + if up { 1nat } else { 0nat }) as nat;
            rounded(num, den, p) == if r < infinity(p) { r } else { infinity(p) }
        }),
{
    let h = leading(p);
    let c = pow2(e) * den;
    let m = q + h * e;
    let top = infinity(p);
    lemma_leading(p);
    lemma_compose(q, e, p);
    lemma_compose(q + 1, e, p);
    lemma_pow2_pos(e);
    assert(points(m, p) * den == q * c) by (nonlinear_arith)
        requires
            points(m, p) == q * pow2(e),
            c == pow2(e) * den,
    ;
    assert(points(m + 1, p) * den == (q + 1) * c) by (nonlinear_arith)
        requires
            points(m + 1, p) == (q + 1) * pow2(e),
            c == pow2(e) * den,
    ;
    assert((points(m, p) + points(m + 1, p)) * den == (2 * q + 1) * c) by (nonlinear_arith)
        requires
            points(m, p) * den == q * c,
            points(m + 1, p) * den == (q + 1) * c,
    ;
    assert((h * e) % 2 == 0) by {
        assert(h * e == 2 * ((h / 2) * e)) by (nonlinear_arith)
            requires
                h % 2 == 0,
        ;
    }
    let r0 = if up { m + 1 } else { m };
    let r = if r0 < top { r0 } else { top };
    if m >= top {
        if m > top {
            lemma_points_increase(top, m, p);
        }
        lemma_points_increase((top - 1) as nat, top, p);
        let a = points((top - 1) as nat, p);
        let b = points(top, p);
        assert((a + b) * den < 2 * num) by (nonlinear_arith)
            requires
                a < b,
                b <= points(m, p),
                points(m, p) * den <= num,
                den > 0,
        ;
    } else if up {
        lemma_points_increase(m + 1, m + 2, p);
        let a = points(m + 1, p);
        let b = points(m + 2, p);
        assert((a + b) * den > 2 * num) by (nonlinear_arith)
            requires
                a < b,
                num < a * den,
                den > 0,
        ;
    } else if m > 0 {
        lemma_points_increase((m - 1) as nat, m, p);
        let a = points((m - 1) as nat, p);
        let b = points(m, p);
        assert((a + b) * den < 2 * num) by (nonlinear_arith)
            requires
                a < b,
                b * den <= num,
                den > 0,
        ;
    }
    assert(nearest(r, num, den, p));
    lemma_nearest_unique(r, rounded(num, den, p), num, den, p);
}

/// The power of two as a machine word.
pub(crate) fn two_to(k: u32) -> (r: u128)
    requires
        k < 128,
    ensures
        r == pow2(k as nat),
{
    proof {
        lemma_shifted_one(k);
    }
    1u128 << k
}

proof fn lemma_shifted_one(k: u32)
    requires
        k < 128,
    ensures
        1u128 << k == pow2(k as nat),
    decreases k,
{
    if k == 0 {
        assert(1u128 << 0u32 == 1) by (bit_vector);
        vstd::arithmetic::power2::lemma2_to64();
    } else {
        let j = (k - 1) as u32;
        lemma_shifted_one(j);
        lemma_pow2_unfold(k as nat);
        assert(1u128 << k == 2 * (1u128 << j)) by (bit_vector)
            requires
                k < 128,
                k == j + 1,
        ;
    }
}

/// The number of bits that `n` takes.
fn bit_length(n: u128) -> (r: u32)
    ensures
        r <= 128,
        n < pow2(r as nat),
        n > 0 ==> r > 0 && pow2((r - 1) as nat) <= n,
        n == 0 ==> r == 0,
{
    let mut rest = n;
    let mut r: u32 = 0;
    let mut step: u32 = 64;
    proof {
        vstd::arithmetic::power2::lemma2_to64();
        lemma_pow2_adds(64, 64);
    }
    while step > 0
        invariant
            step == 64 || step == 32 || step == 16 || step == 8 || step == 4 || step == 2 || step
                == 1 || step == 0,
            r + 2 * step <= 128 || (step == 0 && r <= 127),
            step > 0 ==> rest < pow2((2 * step) as nat),
            step == 0 ==> rest < 2,
            rest == (n as nat) / pow2(r as nat),
            n > 0 ==> rest > 0,
            n == 0 ==> r == 0 && rest == 0,
        decreases step,
    {
        proof {
            vstd::arithmetic::power2::lemma2_to64();
            lemma_pow2_adds(step as nat, step as nat);
            lemma_pow2_pos(step as nat);
            lemma_pow2_pos(r as nat);
        }
        let high = rest >> (step as u128);
        proof {
            vstd::bits::lemma_u128_shr_is_div(rest, step as u128);
        }
        if high > 0 {
            proof {
                assert(high < pow2(step as nat)) by (nonlinear_arith)
                    requires
                        high == rest as nat / pow2(step as nat),
                        rest < pow2(step as nat) * pow2(step as nat),
                        pow2(step as nat) > 0,
                ;
                vstd::arithmetic::div_mod::lemma_div_denominator(
                    n as int,
                    pow2(r as nat) as int,
                    pow2(step as nat) as int,
                );
                lemma_pow2_adds(r as nat, step as nat);
            }
            rest = high;
            r = r + step;
        } else {
            proof {
                assert(rest < pow2(step as nat)) by (nonlinear_arith)
                    requires
                        0 == rest as nat / pow2(step as nat),
                        pow2(step as nat) > 0,
                ;
            }
        }
        step = step / 2;
    }
    proof {
        lemma_pow2_pos(r as nat);
        lemma_pow2_unfold((r + 1) as nat);
        let d = pow2(r as nat);
        vstd::arithmetic::div_mod::lemma_fundamental_div_mod(n as int, d as int);
        assert(rest == 0 ==> n < d) by (nonlinear_arith)
            requires
                n as int == d * (n as int / d as int) + n as int % d as int,
                rest == n as int / d as int,
                0 <= n as int % d as int,
                (n as int % d as int) < d,
        ;
        assert(rest == 1 ==> d <= n && n < 2 * d) by (nonlinear_arith)
            requires
                n as int == d * (n as int / d as int) + n as int % d as int,
                rest == n as int / d as int,
                0 <= n as int % d as int,
                (n as int % d as int) < d,
        ;
    }
    r + rest as u32
}

/// Drops the low `s` bits of `n` and tells whether rounding goes up.
pub(crate) fn shift_out(
    n: u128,
    s: u32,
    inexact: bool,
    Ghost(num): Ghost<nat>,
    Ghost(unit): Ghost<nat>,
) -> (r: (u128, bool))
    requires
        s > 0,
        unit > 0,
        n < pow2(124),
        n * unit <= num < (n + 1) * unit,
        inexact <==> num != n * unit,
    ensures
        r.0 * pow2(s as nat) <= n < (r.0 + 1) * pow2(s as nat),
        r.0 * (unit * pow2(s as nat)) <= num < (r.0 + 1) * (unit * pow2(s as nat)),
        r.1 <==> {
            ||| 2 * num > (2 * r.0 + 1) * (unit * pow2(s as nat))
            ||| 2 * num == (2 * r.0 + 1) * (unit * pow2(s as nat)) && r.0 % 2 == 1
        },
{
    let ghost c = unit * pow2(s as nat);
    if s >= 126 {
        proof {
            lemma_pow2_adds(124, (s - 124) as nat);
            lemma_pow2_unfold((s - 124) as nat);
            lemma_pow2_pos((s - 125) as nat);
            lemma_pow2_pos(124);
            assert(n < pow2(s as nat)) by (nonlinear_arith)
                requires
                    n < pow2(124),
                    pow2(s as nat) == pow2(124) * pow2((s - 124) as nat),
                    pow2((s - 124) as nat) >= 2,
            ;
            assert(2 * num < c) by (nonlinear_arith)
                requires
                    num < (n + 1) * unit,
                    n < pow2(124),
                    c == unit * pow2(s as nat),
                    pow2(s as nat) == pow2(124) * pow2((s - 124) as nat),
                    pow2((s - 124) as nat) >= 2,
                    unit > 0,
            ;
            assert(0 * c == 0 && 1 * c == c && 0 * pow2(s as nat) == 0);
        }
        return (0, false);
    }
    let q = n >> (s as u128);
    let whole = two_to(s);
    let half = two_to((s - 1) as u32);
    proof {
        vstd::bits::lemma_u128_shr_is_div(n, s as u128);
        lemma_pow2_pos(s as nat);
        lemma_pow2_pos((s - 1) as nat);
        vstd::arithmetic::div_mod::lemma_fundamental_div_mod(n as int, whole as int);
        assert(q * whole <= n && n - q * whole == n as int % whole as int) by (nonlinear_arith)
            requires
                n as int == whole * (n as int / whole as int) + n as int % whole as int,
                q == n as int / whole as int,
                0 <= n as int % whole as int,
        ;
        assert(q * whole >= 0) by (nonlinear_arith);
        lemma_pow2_unfold(s as nat);
    }
    let rest = n - q * whole;
    proof {
        lemma_round_bracket(n as nat, q as nat, rest as nat, half as nat, unit, num);
    }
    (q, rest > half || (rest == half && (inexact || q % 2 == 1)))
}

/// What is left after the low bits went fits the significand.
proof fn lemma_kept_range(n: nat, q: nat, len: nat, s: nat, p: u32, filled: bool)
    requires
        is_format(p),
        n < pow2(len),
        n > 0 ==> len > 0 && pow2((len - 1) as nat) <= n,
        q * pow2(s) <= n < (q + 1) * pow2(s),
        len <= s + p,
        filled ==> n > 0 && len == s + p,
    ensures
        q < 2 * leading(p),
        filled ==> q >= leading(p),
{
    let whole = pow2(s);
    lemma_leading(p);
    lemma_pow2_pos(s);
    lemma_pow2_adds(s, p as nat);
    if len < s + p {
        lemma_pow2_strictly_increases(len, (s + p) as nat);
    }
    assert(q < pow2(p as nat)) by (nonlinear_arith)
        requires
            q * whole <= n,
            n < whole * pow2(p as nat),
            whole > 0,
    ;
    if filled {
        lemma_pow2_adds(s, (p - 1) as nat);
        assert(q >= leading(p)) by (nonlinear_arith)
            requires
                n >= whole * leading(p),
                n < (q + 1) * whole,
                whole > 0,
        ;
    }
}

/// Rounds a value that is known to a unit and whether it lies on it.
///
/// The value is `num / den` points. `n` counts the units of `2^k` points in it, `inexact`
/// tells whether anything is left, and `unit` is what one unit adds to `num`.
fn round(
    n: u128,
    k: i32,
    inexact: bool,
    p: u32,
    Ghost(num): Ghost<nat>,
    Ghost(den): Ghost<nat>,
    Ghost(unit): Ghost<nat>,
) -> (r: u64)
    requires
        is_format(p),
        den > 0,
        unit > 0,
        -3400 <= k <= 3400,
        n < pow2(124),
        k >= 0 ==> unit == den * pow2(k as nat),
        k < 0 ==> den == unit * pow2((-k) as nat),
        n * unit <= num < (n + 1) * unit,
        inexact <==> num != n * unit,
        inexact ==> k < 0 || n >= pow2(p as nat),
    ensures
        r == rounded(num, den, p),
        r <= infinity(p),
{
    if n == 0 && !inexact {
        proof {
            lemma_leading(p);
            lemma_pow2_pos(0);
            assert(0 * (pow2(0) * den) == 0) by (nonlinear_arith);
            assert(1 * (pow2(0) * den) > 0) by (nonlinear_arith)
                requires
                    pow2(0) > 0,
                    den > 0,
            ;
            assert(leading(p) * 0 == 0);
            lemma_round_step(0, 0, false, num, den, p);
        }
        return 0;
    }
    let ghost h = leading(p);
    let len: u32 = bit_length(n);
    proof {
        lemma_leading(p);
        lemma_pow2_strictly_increases_converse(len, 124, n as nat);
    }
    let reach: i32 = len as i32 + k;
    let e: i32 = if reach > p as i32 {
        reach - p as i32
    } else {
        0
    };
    let s: i32 = e - k;
    let ghost c = pow2(e as nat) * den;
    proof {
        lemma_pow2_pos(e as nat);
        assert(c > 0) by (nonlinear_arith)
            requires
                c == pow2(e as nat) * den,
                pow2(e as nat) > 0,
                den > 0,
        ;
        lemma_units(k as int, e as int, den, unit);
    }
    let q: u128;
    let up: bool;
    if s <= 0 {
        proof {
            if inexact && k >= 0 {
                if len <= p {
                    if len < p {
                        lemma_pow2_strictly_increases(len as nat, p as nat);
                    }
                    assert(false);
                }
            }
            assert(!inexact);
            lemma_pow2_adds(len as nat, (-s) as nat);
            lemma_pow2_pos((-s) as nat);
            if len - s < p {
                lemma_pow2_strictly_increases((len - s) as nat, p as nat);
            }
            assert(n * pow2((-s) as nat) < pow2((len - s) as nat)) by (nonlinear_arith)
                requires
                    n < pow2(len as nat),
                    pow2((len - s) as nat) == pow2(len as nat) * pow2((-s) as nat),
                    pow2((-s) as nat) > 0,
            ;
        }
        let factor = two_to((-s) as u32);
        proof {
            lemma_pow2_strictly_increases(p as nat, 64);
            vstd::arithmetic::power2::lemma2_to64();
            assert(n * factor < pow2(p as nat));
            assert(n * factor >= 0) by (nonlinear_arith);
        }
        q = n * factor;
        up = false;
        proof {
            if e > 0 {
                lemma_pow2_adds((len - 1) as nat, (-s) as nat);
                assert(q >= h) by (nonlinear_arith)
                    requires
                        q == n * pow2((-s) as nat),
                        pow2((len - 1) as nat) <= n,
                        h == pow2((len - 1) as nat) * pow2((-s) as nat),
                        pow2((-s) as nat) > 0,
                ;
            }
            assert(n * unit == q * c) by (nonlinear_arith)
                requires
                    unit == c * pow2((-s) as nat),
                    q == n * pow2((-s) as nat),
            ;
            assert(q * c < (q + 1) * c && 2 * (q * c) < (2 * q + 1) * c) by (nonlinear_arith)
                requires
                    c > 0,
            ;
        }
    } else {
        let (kept, carry) = shift_out(n, s as u32, inexact, Ghost(num), Ghost(unit));
        q = kept;
        up = carry;
        proof {
            lemma_kept_range(n as nat, q as nat, len as nat, s as nat, p, e > 0);
        }
    }
    proof {
        lemma_round_step(q as nat, e as nat, up, num, den, p);
        assert(h * e <= 0x10_0000_0000_0000 * 3524) by (nonlinear_arith)
            requires
                h <= 0x10_0000_0000_0000,
                0 <= e <= 3524,
        ;
        lemma_pow2_strictly_increases(p as nat, 64);
        vstd::arithmetic::power2::lemma2_to64();
    }
    let lead: u64 = if p == SINGLE {
        0x80_0000
    } else {
        0x10_0000_0000_0000
    };
    let limit: u64 = if p == SINGLE {
        0x7f80_0000
    } else {
        0x7ff0_0000_0000_0000
    };
    let mut r: u64 = q as u64 + lead * (e as u64);
    if up {
        r = r + 1;
    }
    if r < limit {
        r
    } else {
        limit
    }
}

proof fn lemma_pow2_strictly_increases_converse(len: u32, limit: nat, n: nat)
    requires
        n < pow2(limit),
        n > 0 ==> len > 0 && pow2((len - 1) as nat) <= n,
        n == 0 ==> len <= limit,
    ensures
        len <= limit,
{
    if n > 0 && len - 1 >= limit {
        if len - 1 > limit {
            lemma_pow2_strictly_increases(limit, (len - 1) as nat);
        }
    }
}

/// How the unit `2^k` and the unit `2^e` of one scale compare.
proof fn lemma_units(k: int, e: int, den: nat, unit: nat)
    requires
        e >= 0,
        k >= 0 ==> unit == den * pow2(k as nat),
        k < 0 ==> den == unit * pow2((-k) as nat),
    ensures
        e >= k ==> pow2(e as nat) * den == unit * pow2((e - k) as nat),
        e <= k ==> unit == pow2(e as nat) * den * pow2((k - e) as nat),
{
    if e >= k {
        if k >= 0 {
            lemma_pow2_adds(k as nat, (e - k) as nat);
            assert(pow2(e as nat) * den == unit * pow2((e - k) as nat)) by (nonlinear_arith)
                requires
                    pow2(e as nat) == pow2(k as nat) * pow2((e - k) as nat),
                    unit == den * pow2(k as nat),
            ;
        } else {
            lemma_pow2_adds(e as nat, (-k) as nat);
            assert(pow2(e as nat) * den == unit * pow2((e - k) as nat)) by (nonlinear_arith)
                requires
                    pow2((e - k) as nat) == pow2(e as nat) * pow2((-k) as nat),
                    den == unit * pow2((-k) as nat),
            ;
        }
    }
    if e <= k {
        lemma_pow2_adds(e as nat, (k - e) as nat);
        assert(unit == pow2(e as nat) * den * pow2((k - e) as nat)) by (nonlinear_arith)
            requires
                pow2(k as nat) == pow2(e as nat) * pow2((k - e) as nat),
                unit == den * pow2(k as nat),
        ;
    }
}

/// Where a value lies between two steps follows from the units past the lower step.
proof fn lemma_round_bracket(n: nat, q: nat, rest: nat, half: nat, unit: nat, num: nat)
    requires
        unit > 0,
        half > 0,
        n == q * (2 * half) + rest,
        rest < 2 * half,
        n * unit <= num < (n + 1) * unit,
    ensures
        n < (q + 1) * (2 * half),
        q * (unit * (2 * half)) <= num < (q + 1) * (unit * (2 * half)),
        rest < half ==> 2 * num < (2 * q + 1) * (unit * (2 * half)),
        rest > half ==> 2 * num > (2 * q + 1) * (unit * (2 * half)),
        rest == half && num == n * unit ==> 2 * num == (2 * q + 1) * (unit * (2 * half)),
        rest == half && num > n * unit ==> 2 * num > (2 * q + 1) * (unit * (2 * half)),
{
    let w = 2 * half;
    assert(n < (q + 1) * w) by (nonlinear_arith)
        requires
            n == q * w + rest,
            rest < w,
    ;
    assert(q * (unit * w) <= n * unit) by (nonlinear_arith)
        requires
            n == q * w + rest,
            unit > 0,
            rest >= 0,
    ;
    assert((n + 1) * unit <= (q + 1) * (unit * w)) by (nonlinear_arith)
        requires
            n + 1 <= (q + 1) * w,
            unit > 0,
    ;
    let mid = q * w + half;
    assert((2 * q + 1) * (unit * w) == 2 * (mid * unit)) by (nonlinear_arith)
        requires
            mid == q * w + half,
            w == 2 * half,
    ;
    if rest < half {
        assert((n + 1) * unit <= mid * unit) by (nonlinear_arith)
            requires
                n + 1 <= mid,
                unit > 0,
        ;
    } else if rest > half {
        assert(n * unit > mid * unit) by (nonlinear_arith)
            requires
                n > mid,
                unit > 0,
        ;
    }
}

/// Takes a finite magnitude apart.
pub(crate) fn unpack(mag: u64, p: u32) -> (r: (u64, u32))
    requires
        is_format(p),
        mag < infinity(p),
    ensures
        r.0 == significand(mag as nat, p),
        r.1 == exponent(mag as nat, p),
        points(mag as nat, p) == r.0 * pow2(r.1 as nat),
        r.0 < pow2(p as nat),
        r.0 >= leading(p) || r.1 == 0,
        r.1 <= 2045,
        p == SINGLE ==> r.1 <= 253,
{
    proof {
        lemma_leading(p);
        lemma_decompose(mag as nat, p);
    }
    let lead: u64 = if p == SINGLE {
        0x80_0000
    } else {
        0x10_0000_0000_0000
    };
    if mag < lead {
        (mag, 0)
    } else {
        (lead + mag % lead, (mag / lead - 1) as u32)
    }
}

pub(crate) proof fn lemma_small_words(p: u32)
    requires
        is_format(p),
    ensures
        pow2(p as nat) <= 0x20_0000_0000_0000,
        pow2(p as nat) <= pow2(53),
        pow2(53) == 0x20_0000_0000_0000,
        pow2(64) == 0x1_0000_0000_0000_0000,
        pow2(124) == pow2(60) * pow2(64),
        pow2(60) == 0x1000_0000_0000_0000,
{
    vstd::arithmetic::power2::lemma2_to64();
    vstd::arithmetic::power2::lemma2_to64_rest();
    lemma_pow2_adds(60, 64);
}

/// A value that is a whole number of steps of `2^k` points.
fn round_exact(n: u128, k: u32, p: u32) -> (r: u64)
    requires
        is_format(p),
        k <= 3000,
        n < pow2(124),
    ensures
        r == rounded(n as nat * pow2(k as nat), 1, p),
        r <= infinity(p),
{
    proof {
        lemma_pow2_pos(k as nat);
        assert((n + 1) * pow2(k as nat) > n * pow2(k as nat)) by (nonlinear_arith)
            requires
                pow2(k as nat) > 0,
        ;
    }
    round(
        n,
        k as i32,
        false,
        p,
        Ghost((n as nat * pow2(k as nat)) as nat),
        Ghost(1),
        Ghost(pow2(k as nat)),
    )
}

/// A magnitude is what its own value rounds to.
pub proof fn lemma_rounded_points(mag: nat, den: nat, p: u32)
    requires
        is_format(p),
        mag <= infinity(p),
        den > 0,
    ensures
        rounded(points(mag, p) * den, den, p) == mag,
{
    let x = points(mag, p);
    if mag > 0 {
        lemma_points_increase((mag - 1) as nat, mag, p);
        let y = points((mag - 1) as nat, p);
        assert((y + x) * den < 2 * (x * den)) by (nonlinear_arith)
            requires
                y < x,
                den > 0,
        ;
    }
    lemma_points_increase(mag, mag + 1, p);
    let z = points(mag + 1, p);
    assert((x + z) * den > 2 * (x * den)) by (nonlinear_arith)
        requires
            z > x,
            den > 0,
    ;
    assert(nearest(mag, x * den, den, p));
    lemma_nearest_unique(mag, rounded(x * den, den, p), x * den, den, p);
}

/// A value within a quarter step of a normal magnitude rounds to it.
proof fn lemma_rounded_close(mag: nat, num: nat, p: u32)
    requires
        is_format(p),
        mag < infinity(p),
        exponent(mag, p) >= 1,
        num <= points(mag, p) ==> 4 * (points(mag, p) - num) < pow2(exponent(mag, p)),
        num > points(mag, p) ==> 2 * (num - points(mag, p)) < pow2(exponent(mag, p)),
    ensures
        rounded(num, 1, p) == mag,
{
    let e = exponent(mag, p);
    let q = significand(mag, p);
    lemma_leading(p);
    lemma_decompose(mag, p);
    lemma_step(mag, p);
    assert(leading(p) * e >= leading(p)) by (nonlinear_arith)
        requires
            e >= 1,
    ;
    let below = (mag - 1) as nat;
    lemma_step(below, p);
    lemma_decompose(below, p);
    lemma_pow2_unfold(e);
    // The step below is the same or half as wide.
    if q > leading(p) {
        assert(below == (q - 1) + leading(p) * e);
        lemma_exponent_of((q - 1) as nat, e, p);
    } else {
        assert(below == (2 * leading(p) - 1) + leading(p) * (e - 1)) by (nonlinear_arith)
            requires
                below == q + leading(p) * e - 1,
                q == leading(p),
        ;
        lemma_exponent_of((2 * leading(p) - 1) as nat, (e - 1) as nat, p);
    }
    assert(nearest(mag, num, 1, p));
    lemma_nearest_unique(mag, rounded(num, 1, p), num, 1, p);
}

proof fn lemma_exponent_of(q: nat, e: nat, p: u32)
    requires
        is_format(p),
        leading(p) <= q < 2 * leading(p),
    ensures
        exponent(q + leading(p) * e, p) == e,
        significand(q + leading(p) * e, p) == q,
{
    let h = leading(p);
    let mag = q + h * e;
    let f = (q - h) as nat;
    lemma_leading(p);
    assert(mag == h * (e + 1) + f) by (nonlinear_arith)
        requires
            mag == q + h * e,
            f == q - h,
    ;
    vstd::arithmetic::div_mod::lemma_fundamental_div_mod_converse(
        mag as int,
        h as int,
        (e + 1) as int,
        f as int,
    );
    assert(h * e >= 0) by (nonlinear_arith);
}

/// What lies far below a significand is less than a sixteenth of its step.
proof fn lemma_far_below(m: nat, e: nat, high: nat)
    requires
        m < pow2(53),
        high > e + 64,
    ensures
        16 * (m * pow2(e)) < pow2(high),
{
    vstd::arithmetic::power2::lemma2_to64();
    vstd::arithmetic::power2::lemma2_to64_rest();
    lemma_pow2_adds(57, e);
    lemma_pow2_strictly_increases(57 + e, high);
    lemma_pow2_pos(e);
    assert(16 * (m * pow2(e)) < pow2(57) * pow2(e)) by (nonlinear_arith)
        requires
            16 * m < pow2(57),
            pow2(e) > 0,
    ;
}

/// The sum of two finite magnitudes.
pub fn add_magnitudes(a: u64, b: u64, p: u32) -> (r: u64)
    requires
        is_format(p),
        a < infinity(p),
        b < infinity(p),
    ensures
        r == rounded(points(a as nat, p) + points(b as nat, p), 1, p),
        r <= infinity(p),
{
    let (high, low) = if a >= b {
        (a, b)
    } else {
        (b, a)
    };
    let (m1, e1) = unpack(high, p);
    let (m2, e2) = unpack(low, p);
    proof {
        lemma_small_words(p);
        lemma_exponent_order(low as nat, high as nat, p);
    }
    let d: u32 = e1 - e2;
    if d > 64 {
        proof {
            lemma_far_below(m2 as nat, e2 as nat, e1 as nat);
            lemma_rounded_close(
                high as nat,
                points(high as nat, p) + points(low as nat, p),
                p,
            );
        }
        high
    } else {
        let factor = two_to(d);
        proof {
            lemma_aligned(m1 as nat, m2 as nat, e1 as nat, e2 as nat, factor as nat);
        }
        round_exact((m1 as u128) * factor + m2 as u128, e2, p)
    }
}

/// The difference of two finite magnitudes, the larger one first.
pub fn subtract_magnitudes(a: u64, b: u64, p: u32) -> (r: u64)
    requires
        is_format(p),
        b <= a < infinity(p),
    ensures
        points(b as nat, p) <= points(a as nat, p),
        r == rounded((points(a as nat, p) - points(b as nat, p)) as nat, 1, p),
        r <= infinity(p),
{
    let (m1, e1) = unpack(a, p);
    let (m2, e2) = unpack(b, p);
    proof {
        lemma_small_words(p);
        lemma_exponent_order(b as nat, a as nat, p);
        if b < a {
            lemma_points_increase(b as nat, a as nat, p);
        }
    }
    let d: u32 = e1 - e2;
    if d > 64 {
        proof {
            lemma_far_below(m2 as nat, e2 as nat, e1 as nat);
            lemma_rounded_close(
                a as nat,
                (points(a as nat, p) - points(b as nat, p)) as nat,
                p,
            );
        }
        a
    } else {
        let factor = two_to(d);
        proof {
            lemma_aligned(m1 as nat, m2 as nat, e1 as nat, e2 as nat, factor as nat);
        }
        round_exact((m1 as u128) * factor - m2 as u128, e2, p)
    }
}

/// The exponents of two magnitudes are ordered as they are.
proof fn lemma_exponent_order(low: nat, high: nat, p: u32)
    requires
        is_format(p),
        low <= high,
    ensures
        exponent(low, p) <= exponent(high, p),
{
    lemma_leading(p);
    if low >= leading(p) {
        vstd::arithmetic::div_mod::lemma_div_is_ordered(
            low as int,
            high as int,
            leading(p) as int,
        );
    } else if high >= leading(p) {
        lemma_decompose(high, p);
    }
}

/// Two values brought to the smaller exponent.
proof fn lemma_aligned(m1: nat, m2: nat, e1: nat, e2: nat, factor: nat)
    requires
        m1 < pow2(53),
        m2 < pow2(53),
        e2 <= e1 <= e2 + 64,
        factor == pow2((e1 - e2) as nat),
    ensures
        m1 * factor + m2 < pow2(124),
        0 <= m1 * factor,
        (m1 * factor + m2) * pow2(e2) == m1 * pow2(e1) + m2 * pow2(e2),
        m1 * pow2(e1) >= m2 * pow2(e2) ==> m1 * factor >= m2,
        (m1 * factor - m2) * pow2(e2) == m1 * pow2(e1) - m2 * pow2(e2),
{
    lemma_small_words(DOUBLE);
    lemma_pow2_adds((e1 - e2) as nat, e2);
    lemma_pow2_pos(e2);
    if e1 - e2 < 64 {
        lemma_pow2_strictly_increases((e1 - e2) as nat, 64);
    }
    assert(m1 * factor + m2 < pow2(124)) by (nonlinear_arith)
        requires
            m1 < 0x20_0000_0000_0000,
            m2 < 0x20_0000_0000_0000,
            factor <= 0x1_0000_0000_0000_0000,
            pow2(124) == 0x1000_0000_0000_0000 * 0x1_0000_0000_0000_0000,
    ;
    assert(m1 * factor * pow2(e2) == m1 * pow2(e1)) by (nonlinear_arith)
        requires
            pow2(e1) == factor * pow2(e2),
    ;
    assert((m1 * factor + m2) * pow2(e2) == m1 * factor * pow2(e2) + m2 * pow2(e2))
        by (nonlinear_arith);
    assert((m1 * factor - m2) * pow2(e2) == m1 * factor * pow2(e2) - m2 * pow2(e2))
        by (nonlinear_arith);
    if m1 * factor < m2 {
        assert(m1 * factor * pow2(e2) < m2 * pow2(e2)) by (nonlinear_arith)
            requires
                m1 * factor < m2,
                pow2(e2) > 0,
        ;
    }
    assert(0 <= m1 * factor) by (nonlinear_arith);
}

/// A fraction expanded by a common factor rounds to the same magnitude.
proof fn lemma_rounded_expanded(num: nat, den: nat, t: nat, p: u32)
    requires
        is_format(p),
        den > 0,
        t > 0,
        nearest(rounded(num * t, den * t, p), num * t, den * t, p),
    ensures
        rounded(num, den, p) == rounded(num * t, den * t, p),
{
    let r = rounded(num * t, den * t, p);
    if r < infinity(p) {
        lemma_cancel_factor(2 * num, points(r, p) + points(r + 1, p), den, t);
    }
    if r > 0 {
        lemma_cancel_factor(2 * num, points((r - 1) as nat, p) + points(r, p), den, t);
    }
    assert(2 * (num * t) == (2 * num) * t) by (nonlinear_arith);
    assert(nearest(r, num, den, p));
    lemma_nearest_unique(r, rounded(num, den, p), num, den, p);
}

proof fn lemma_cancel_factor(x: nat, y: nat, den: nat, t: nat)
    requires
        t > 0,
    ensures
        x * t < y * (den * t) <==> x < y * den,
        x * t > y * (den * t) <==> x > y * den,
        x * t == y * (den * t) <==> x == y * den,
{
    let z = y * den;
    assert(y * (den * t) == z * t) by (nonlinear_arith)
        requires
            z == y * den,
    ;
    assert(x < z ==> x * t < z * t) by (nonlinear_arith)
        requires
            t > 0,
    ;
    assert(x > z ==> x * t > z * t) by (nonlinear_arith)
        requires
            t > 0,
    ;
}

/// The product of two finite magnitudes.
pub fn multiply_magnitudes(a: u64, b: u64, p: u32) -> (r: u64)
    requires
        is_format(p),
        a < infinity(p),
        b < infinity(p),
    ensures
        r == rounded(points(a as nat, p) * points(b as nat, p), one_in_points(p), p),
        r <= infinity(p),
{
    let (m1, e1) = unpack(a, p);
    let (m2, e2) = unpack(b, p);
    let one: i32 = if p == SINGLE {
        149
    } else {
        1074
    };
    let ghost unit = pow2((e1 + e2) as nat);
    let ghost num = points(a as nat, p) * points(b as nat, p);
    proof {
        lemma_small_words(p);
        lemma_pow2_adds(e1 as nat, e2 as nat);
        lemma_pow2_pos((e1 + e2) as nat);
        lemma_pow2_pos(one as nat);
        assert(m1 * m2 < pow2(124)) by (nonlinear_arith)
            requires
                m1 < 0x20_0000_0000_0000,
                m2 < 0x20_0000_0000_0000,
                pow2(124) == 0x1000_0000_0000_0000 * 0x1_0000_0000_0000_0000,
        ;
        assert(m1 * m2 >= 0) by (nonlinear_arith);
        assert(num == (m1 * m2) * unit) by (nonlinear_arith)
            requires
                num == (m1 * pow2(e1 as nat)) * (m2 * pow2(e2 as nat)),
                unit == pow2(e1 as nat) * pow2(e2 as nat),
        ;
        assert(num < (m1 * m2 + 1) * unit) by (nonlinear_arith)
            requires
                num == (m1 * m2) * unit,
                unit > 0,
        ;
        if e1 + e2 >= one {
            lemma_pow2_adds(one as nat, (e1 + e2 - one) as nat);
        } else {
            lemma_pow2_adds((e1 + e2) as nat, (one - e1 - e2) as nat);
        }
    }
    round(
        (m1 as u128) * (m2 as u128),
        e1 as i32 + e2 as i32 - one,
        false,
        p,
        Ghost(num),
        Ghost(one_in_points(p)),
        Ghost(unit),
    )
}

/// The quotient of two finite magnitudes.
pub fn divide_magnitudes(a: u64, b: u64, p: u32) -> (r: u64)
    requires
        is_format(p),
        a < infinity(p),
        0 < b < infinity(p),
    ensures
        points(b as nat, p) > 0,
        r == rounded(points(a as nat, p) * one_in_points(p), points(b as nat, p), p),
        r <= infinity(p),
{
    let (m1, e1) = unpack(a, p);
    let (m2, e2) = unpack(b, p);
    let one: i32 = if p == SINGLE {
        149
    } else {
        1074
    };
    proof {
        lemma_small_words(p);
        lemma_leading(p);
        lemma_pow2_pos(e1 as nat);
        lemma_pow2_pos(e2 as nat);
        assert(points(b as nat, p) > 0) by (nonlinear_arith)
            requires
                points(b as nat, p) == m2 * pow2(e2 as nat),
                m2 > 0,
                pow2(e2 as nat) > 0,
        ;
    }
    if a == 0 {
        proof {
            assert(points(0, p) == 0) by (nonlinear_arith)
                requires
                    points(0, p) == 0 * pow2(0),
            ;
            let den = points(b as nat, p);
            assert(0 * one_in_points(p) == 0 && 0 * den == 0);
            lemma_rounded_points(0, den, p);
        }
        return 0;
    }
    let len: u32 = bit_length(m1 as u128);
    proof {
        lemma_pow2_strictly_increases_converse(len, 53, m1 as nat);
    }
    let z: u32 = 123 - len;
    let factor = two_to(z);
    proof {
        lemma_pow2_adds(len as nat, z as nat);
        lemma_pow2_adds((len - 1) as nat, z as nat);
        lemma_pow2_strictly_increases(123, 124);
        lemma_pow2_pos(z as nat);
        assert(m1 * factor < pow2(123)) by (nonlinear_arith)
            requires
                m1 < pow2(len as nat),
                pow2(123) == pow2(len as nat) * factor,
                factor > 0,
        ;
        assert(m1 * factor >= pow2(122)) by (nonlinear_arith)
            requires
                m1 >= pow2((len - 1) as nat),
                pow2(122) == pow2((len - 1) as nat) * factor,
                factor > 0,
        ;
        lemma_pow2_adds(60, 64);
    }
    let n: u128 = (m1 as u128) * factor;
    let quotient = n / (m2 as u128);
    let rest = n % (m2 as u128);
    let ghost g = pow2((e1 + one) as nat);
    let ghost unit = (m2 * g) as nat;
    let ghost num = points(a as nat, p) * one_in_points(p);
    let ghost den = points(b as nat, p);
    let ghost t = factor as nat;
    proof {
        lemma_pow2_adds(e1 as nat, one as nat);
        lemma_pow2_pos((e1 + one) as nat);
        lemma_pow2_pos(one as nat);
        vstd::arithmetic::div_mod::lemma_fundamental_div_mod(n as int, m2 as int);
        assert(num * t == n * g) by (nonlinear_arith)
            requires
                num == (m1 * pow2(e1 as nat)) * pow2(one as nat),
                g == pow2(e1 as nat) * pow2(one as nat),
                n == m1 * t,
        ;
        assert(n * g == quotient * unit + rest * g) by (nonlinear_arith)
            requires
                n == m2 * quotient + rest,
                unit == m2 * g,
        ;
        assert(unit > 0 && 0 <= rest * g < unit) by (nonlinear_arith)
            requires
                unit == m2 * g,
                g > 0,
                0 <= rest < m2,
        ;
        assert(num * t < (quotient + 1) * unit) by (nonlinear_arith)
            requires
                num * t == quotient * unit + rest * g,
                rest * g < unit,
        ;
        assert(rest == 0 <==> rest * g == 0) by (nonlinear_arith)
            requires
                g > 0,
        ;
        assert(quotient <= n) by (nonlinear_arith)
            requires
                n == m2 * quotient + rest,
                m2 >= 1,
                rest >= 0,
                quotient >= 0,
        ;
        lemma_pow2_adds(53, 69);
        lemma_pow2_strictly_increases(53, 69);
        assert(quotient >= pow2(69)) by (nonlinear_arith)
            requires
                n == m2 * quotient + rest,
                rest < m2,
                n >= pow2(53) * pow2(69),
                m2 < pow2(53),
                quotient >= 0,
        ;
        // The scale of the unit against the expanded denominator.
        let k = e1 - e2 + one - z;
        assert(den * t == m2 * (pow2(e2 as nat) * t)) by (nonlinear_arith)
            requires
                den == m2 * pow2(e2 as nat),
        ;
        lemma_pow2_adds(e2 as nat, z as nat);
        let w = pow2((e2 + z) as nat);
        if k >= 0 {
            lemma_pow2_adds((e2 + z) as nat, k as nat);
            assert(unit == den * t * pow2(k as nat)) by (nonlinear_arith)
                requires
                    unit == m2 * g,
                    g == w * pow2(k as nat),
                    den * t == m2 * w,
            ;
        } else {
            lemma_pow2_adds((e1 + one) as nat, (-k) as nat);
            assert(den * t == unit * pow2((-k) as nat)) by (nonlinear_arith)
                requires
                    unit == m2 * g,
                    w == g * pow2((-k) as nat),
                    den * t == m2 * w,
            ;
        }
        assert(den * t > 0) by (nonlinear_arith)
            requires
                den > 0,
                t > 0,
        ;
    }
    let r = round(
        quotient,
        e1 as i32 - e2 as i32 + one - z as i32,
        rest != 0,
        p,
        Ghost(num * t),
        Ghost(den * t),
        Ghost(unit),
    );
    proof {
        lemma_rounded_is_nearest(num * t, den * t, p);
        lemma_rounded_expanded(num, den, t, p);
    }
    r
}

/// Every value has a nearest magnitude.
pub proof fn lemma_rounded_is_nearest(num: nat, den: nat, p: u32)
    requires
        is_format(p),
        den > 0,
    ensures
        nearest(rounded(num, den, p), num, den, p),
{
    let r = lemma_nearest_exists(infinity(p), num, den, p);
    assert(nearest(r, num, den, p));
}

/// The search from `limit` down: everything above it lies past the value.
proof fn lemma_nearest_exists(limit: nat, num: nat, den: nat, p: u32) -> (r: nat)
    requires
        is_format(p),
        den > 0,
        limit <= infinity(p),
        limit < infinity(p) ==> {
            let sum = (points(limit, p) + points(limit + 1, p)) * den;
            2 * num < sum || (2 * num == sum && limit % 2 == 0)
        },
    ensures
        nearest(r, num, den, p),
    decreases limit,
{
    if limit == 0 {
        0
    } else {
        let below = (limit - 1) as nat;
        let sum = (points(below, p) + points(limit, p)) * den;
        if 2 * num > sum || (2 * num == sum && limit % 2 == 0) {
            limit
        } else {
            lemma_nearest_exists(below, num, den, p)
        }
    }
}

/// `r` is the magnitude nearest to the square root of `x` square points.
pub open spec fn nearest_root(r: nat, x: nat, p: u32) -> bool {
    &&& r <= infinity(p)
    &&& r < infinity(p) ==> {
        let sum = points(r, p) + points(r + 1, p);
        4 * x < sum * sum || (4 * x == sum * sum && r % 2 == 0)
    }
    &&& r > 0 ==> {
        let sum = points((r - 1) as nat, p) + points(r, p);
        4 * x > sum * sum || (4 * x == sum * sum && r % 2 == 0)
    }
}

/// The magnitude that the square root of `x` square points rounds to.
pub open spec fn rounded_root(x: nat, p: u32) -> nat {
    choose|r: nat| nearest_root(r, x, p)
}

/// No two magnitudes are nearest to one square root.
pub proof fn lemma_nearest_root_unique(a: nat, b: nat, x: nat, p: u32)
    requires
        is_format(p),
        nearest_root(a, x, p),
        nearest_root(b, x, p),
    ensures
        a == b,
{
    lemma_nearest_root_not_below(a, b, x, p);
    lemma_nearest_root_not_below(b, a, x, p);
}

proof fn lemma_nearest_root_not_below(a: nat, b: nat, x: nat, p: u32)
    requires
        is_format(p),
        nearest_root(a, x, p),
        nearest_root(b, x, p),
    ensures
        b <= a,
{
    if a < b {
        let c = (b - 1) as nat;
        let low = points(a, p) + points(a + 1, p);
        let high = points(c, p) + points(b, p);
        if a < c {
            lemma_points_increase(a, c, p);
            lemma_points_increase(a + 1, b, p);
            assert(low * low < high * high) by (nonlinear_arith)
                requires
                    low < high,
            ;
        }
    }
}

/// The largest whole number whose square is not above `x`.
fn whole_root(x: u128) -> (q: u64)
    requires
        x < pow2(106),
    ensures
        q * q <= x < (q + 1) * (q + 1),
{
    proof {
        lemma_small_words(DOUBLE);
        lemma_pow2_adds(53, 53);
        vstd::arithmetic::power2::lemma2_to64();
    }
    let mut q: u64 = 0;
    let mut i: u32 = 53;
    while i > 0
        invariant
            i <= 53,
            q + pow2(i as nat) <= 0x20_0000_0000_0000,
            q * q <= x,
            x < (q + pow2(i as nat)) * (q + pow2(i as nat)),
        decreases i,
    {
        proof {
            lemma_pow2_unfold(i as nat);
            lemma_pow2_pos((i - 1) as nat);
        }
        i = i - 1;
        let next: u64 = q + two_to(i) as u64;
        assert(0 <= next * next <= 0x20_0000_0000_0000 * 0x20_0000_0000_0000) by (nonlinear_arith)
            requires
                0 <= next <= 0x20_0000_0000_0000,
        ;
        if (next as u128) * (next as u128) <= x {
            q = next;
        }
    }
    proof {
        vstd::arithmetic::power2::lemma2_to64();
    }
    q
}

/// The square root of a finite magnitude.
pub fn root_magnitude(a: u64, p: u32) -> (r: u64)
    requires
        is_format(p),
        a < infinity(p),
    ensures
        r == rounded_root(points(a as nat, p) * one_in_points(p), p),
        r <= infinity(p),
{
    let ghost square = points(a as nat, p) * one_in_points(p);
    let (m, e) = unpack(a, p);
    proof {
        lemma_small_words(p);
        lemma_leading(p);
    }
    if a == 0 {
        proof {
            assert(square == 0) by (nonlinear_arith)
                requires
                    square == (0 * pow2(e as nat)) * one_in_points(p),
            ;
            lemma_points_increase(0, 1, p);
            let sum = points(0, p) + points(1, p);
            assert(sum * sum > 0) by (nonlinear_arith)
                requires
                    sum > 0,
            ;
            assert(nearest_root(0, square, p));
            lemma_nearest_root_unique(0, rounded_root(square, p), square, p);
        }
        return 0;
    }
    let one: u32 = if p == SINGLE {
        149
    } else {
        1074
    };
    let len: u32 = bit_length(m as u128);
    proof {
        lemma_pow2_strictly_increases_converse(len, p as nat, m as nat);
    }
    let total: u32 = e + one;
    let full: u32 = 2 * p - len;
    let j: u32 = if full % 2 == total % 2 {
        full
    } else {
        full - 1
    };
    let half: u32 = (total - j) / 2;
    let factor = two_to(j);
    proof {
        lemma_pow2_adds(len as nat, j as nat);
        lemma_pow2_adds((len - 1) as nat, j as nat);
        lemma_pow2_pos(j as nat);
        lemma_pow2_adds(p as nat, p as nat);
        lemma_pow2_adds((p - 1) as nat, (p - 1) as nat);
        if len + j < 2 * p {
            lemma_pow2_strictly_increases((len + j) as nat, (2 * p) as nat);
        }
        if len + j - 1 > 2 * p - 2 {
            lemma_pow2_strictly_increases((2 * p - 2) as nat, (len + j - 1) as nat);
        }
        if 2 * p < 106 {
            lemma_pow2_strictly_increases((2 * p) as nat, 106);
        }
        assert(m * factor < pow2((2 * p) as nat)) by (nonlinear_arith)
            requires
                m < pow2(len as nat),
                pow2(len as nat) * factor <= pow2((2 * p) as nat),
                factor > 0,
        ;
        assert(m * factor >= pow2((2 * p - 2) as nat)) by (nonlinear_arith)
            requires
                m >= pow2((len - 1) as nat),
                pow2((len - 1) as nat) * factor >= pow2((2 * p - 2) as nat),
                factor > 0,
        ;
        lemma_pow2_adds(53, 53);
        assert(pow2(106) <= 0x20_0000_0000_0000 * 0x20_0000_0000_0000);
    }
    let x: u128 = (m as u128) * factor;
    let q = whole_root(x);
    proof {
        let h = leading(p);
        assert(q < 2 * h) by (nonlinear_arith)
            requires
                q * q <= x,
                x < (2 * h) * (2 * h),
                h > 0,
                q >= 0,
        ;
        assert(q >= h) by (nonlinear_arith)
            requires
                x < (q + 1) * (q + 1),
                x >= h * h,
                q >= 0,
                h > 0,
        ;
        assert(0 <= q * q) by (nonlinear_arith);
    }
    let rest = x - (q as u128) * (q as u128);
    proof {
        assert(square == x * (pow2(half as nat) * pow2(half as nat))) by {
            lemma_pow2_adds(half as nat, half as nat);
            lemma_pow2_adds(j as nat, (2 * half) as nat);
            lemma_pow2_adds(e as nat, one as nat);
            assert(j + 2 * half == e + one);
            assert(square == m * (pow2(e as nat) * pow2(one as nat))) by (nonlinear_arith)
                requires
                    square == (m * pow2(e as nat)) * pow2(one as nat),
            ;
            assert(m * (factor * (pow2(half as nat) * pow2(half as nat))) == (m * factor) * (pow2(
                half as nat,
            ) * pow2(half as nat))) by (nonlinear_arith);
        }
        lemma_root_step(q as nat, half as nat, rest as nat, x as nat, square, p);
        assert(leading(p) * half <= 0x10_0000_0000_0000 * 1560) by (nonlinear_arith)
            requires
                leading(p) <= 0x10_0000_0000_0000,
                0 <= half <= 1560,
        ;
    }
    let lead: u64 = if p == SINGLE {
        0x80_0000
    } else {
        0x10_0000_0000_0000
    };
    let low: u64 = q + lead * (half as u64);
    if rest > q as u128 {
        low + 1
    } else {
        low
    }
}

/// The nearest magnitude to a root follows from the remainder of the whole root.
proof fn lemma_root_step(q: nat, e: nat, rest: nat, x: nat, square: nat, p: u32)
    requires
        is_format(p),
        leading(p) <= q < 2 * leading(p),
        p == SINGLE ==> e <= 201,
        p == DOUBLE ==> e <= 1560,
        x == q * q + rest,
        x < (q + 1) * (q + 1),
        square == x * (pow2(e) * pow2(e)),
    ensures
        ({
            let r = (q + leading(p) * e + if rest > q { 1nat } else { 0nat }) as nat;
            r == rounded_root(square, p) && r < infinity(p)
        }),
{
    let h = leading(p);
    let g = pow2(e);
    let m = q + h * e;
    lemma_leading(p);
    lemma_pow2_pos(e);
    lemma_compose(q, e, p);
    lemma_compose(q + 1, e, p);
    assert(h * e + 2 * h + 1 < infinity(p)) by (nonlinear_arith)
        requires
            p == SINGLE ==> h == 0x80_0000 && e <= 201 && infinity(p) == 0x7f80_0000,
            p == DOUBLE ==> h == 0x10_0000_0000_0000 && e <= 1560 && infinity(p)
                == 0x7ff0_0000_0000_0000,
            is_format(p),
    ;
    let mid = points(m, p) + points(m + 1, p);
    let up = rest > q;
    assert(mid == (2 * q + 1) * g) by (nonlinear_arith)
        requires
            mid == q * g + (q + 1) * g,
    ;
    assert(mid * mid == (4 * (q * q) + 4 * q + 1) * (g * g)) by (nonlinear_arith)
        requires
            mid == (2 * q + 1) * g,
    ;
    assert(up ==> 4 * square > mid * mid) by (nonlinear_arith)
        requires
            square == x * (g * g),
            mid * mid == (4 * (q * q) + 4 * q + 1) * (g * g),
            x == q * q + rest,
            up ==> rest >= q + 1,
            g > 0,
    ;
    assert(!up ==> 4 * square < mid * mid) by (nonlinear_arith)
        requires
            square == x * (g * g),
            mid * mid == (4 * (q * q) + 4 * q + 1) * (g * g),
            x == q * q + rest,
            !up ==> rest <= q,
            g > 0,
    ;
    if up {
        lemma_points_increase(m + 1, m + 2, p);
        let sum = points(m + 1, p) + points(m + 2, p);
        assert(4 * square < sum * sum) by (nonlinear_arith)
            requires
                square == x * (g * g),
                x < (q + 1) * (q + 1),
                sum > 2 * ((q + 1) * g),
                g > 0,
        ;
        assert(nearest_root(m + 1, square, p));
        lemma_nearest_root_unique(m + 1, rounded_root(square, p), square, p);
    } else {
        lemma_points_increase((m - 1) as nat, m, p);
        let sum = points((m - 1) as nat, p) + points(m, p);
        assert(4 * square > sum * sum) by (nonlinear_arith)
            requires
                square == x * (g * g),
                x >= q * q,
                0 <= sum < 2 * (q * g),
                g > 0,
        ;
        assert(nearest_root(m, square, p));
        lemma_nearest_root_unique(m, rounded_root(square, p), square, p);
    }
}

/// A whole number as a magnitude.
pub fn magnitude_of_whole(n: u64, p: u32) -> (r: u64)
    requires
        is_format(p),
    ensures
        r == rounded(n as nat * one_in_points(p), 1, p),
        r <= infinity(p),
{
    let one: u32 = if p == SINGLE {
        149
    } else {
        1074
    };
    proof {
        lemma_small_words(p);
    }
    round_exact(n as u128, one, p)
}

/// A finite double magnitude as a single magnitude.
pub fn narrow_magnitude(a: u64) -> (r: u64)
    requires
        a < infinity(DOUBLE),
    ensures
        r == rounded(points(a as nat, DOUBLE), pow2(925), SINGLE),
        r <= infinity(SINGLE),
{
    let (m, e) = unpack(a, DOUBLE);
    proof {
        lemma_small_words(DOUBLE);
        lemma_pow2_pos(e as nat);
        lemma_pow2_pos(925);
        assert((m + 1) * pow2(e as nat) > m * pow2(e as nat)) by (nonlinear_arith)
            requires
                pow2(e as nat) > 0,
        ;
        if e >= 925 {
            lemma_pow2_adds(925, (e - 925) as nat);
        } else {
            lemma_pow2_adds(e as nat, (925 - e) as nat);
        }
    }
    round(
        m as u128,
        e as i32 - 925,
        false,
        SINGLE,
        Ghost(points(a as nat, DOUBLE)),
        Ghost(pow2(925)),
        Ghost(pow2(e as nat)),
    )
}

/// A finite single magnitude as a double magnitude.
pub fn widen_magnitude(a: u64) -> (r: u64)
    requires
        a < infinity(SINGLE),
    ensures
        r == rounded(points(a as nat, SINGLE) * pow2(925), 1, DOUBLE),
        r <= infinity(DOUBLE),
{
    let (m, e) = unpack(a, SINGLE);
    proof {
        lemma_small_words(SINGLE);
        lemma_pow2_adds(e as nat, 925);
        assert(m * (pow2(e as nat) * pow2(925)) == (m * pow2(e as nat)) * pow2(925))
            by (nonlinear_arith);
    }
    round_exact(m as u128, e + 925, DOUBLE)
}

/// The whole part of a magnitude's value.
pub open spec fn whole_part(mag: nat, p: u32) -> nat {
    points(mag, p) / one_in_points(p)
}

/// The whole number nearest to a magnitude's value; of two equally near, the larger.
pub open spec fn nearest_whole(mag: nat, p: u32) -> nat {
    (2 * points(mag, p) + one_in_points(p)) / (2 * one_in_points(p))
}

/// The whole part, or the largest word where it does not fit.
pub fn whole_part_of(a: u64, p: u32) -> (r: u64)
    requires
        is_format(p),
        a < infinity(p),
    ensures
        r == if whole_part(a as nat, p) <= u64::MAX { whole_part(a as nat, p) } else {
            u64::MAX as nat
        },
{
    let (m, e) = unpack(a, p);
    let one: u32 = if p == SINGLE {
        149
    } else {
        1074
    };
    proof {
        lemma_small_words(p);
        lemma_pow2_pos(one as nat);
        lemma_pow2_pos(e as nat);
    }
    if e >= one {
        let s: u32 = e - one;
        proof {
            lemma_pow2_adds(one as nat, s as nat);
            assert(m * pow2(e as nat) == (m * pow2(s as nat)) * pow2(one as nat))
                by (nonlinear_arith)
                requires
                    pow2(e as nat) == pow2(one as nat) * pow2(s as nat),
            ;
            vstd::arithmetic::div_mod::lemma_div_by_multiple(
                m * pow2(s as nat),
                pow2(one as nat) as int,
            );
        }
        saturating_scale(m, s)
    } else {
        let s: u32 = one - e;
        proof {
            lemma_pow2_adds(e as nat, s as nat);
            lemma_pow2_pos(s as nat);
            vstd::arithmetic::div_mod::lemma_div_denominator(
                (m * pow2(e as nat)) as int,
                pow2(e as nat) as int,
                pow2(s as nat) as int,
            );
            vstd::arithmetic::div_mod::lemma_div_by_multiple(m as int, pow2(e as nat) as int);
        }
        if s >= 64 {
            proof {
                if s > 64 {
                    lemma_pow2_strictly_increases(64, s as nat);
                }
                vstd::arithmetic::div_mod::lemma_div_basics_4(m as int, pow2(s as nat) as int);
                assert(m as int / pow2(s as nat) as int == 0) by (nonlinear_arith)
                    requires
                        0 <= m < pow2(s as nat),
                ;
            }
            0
        } else {
            proof {
                vstd::bits::lemma_u64_shr_is_div(m, s as u64);
            }
            m >> (s as u64)
        }
    }
}

/// `m` times a power of two, or the largest word where that does not fit.
pub(crate) fn saturating_scale(m: u64, s: u32) -> (r: u64)
    ensures
        r == if m * pow2(s as nat) <= u64::MAX { m * pow2(s as nat) } else { u64::MAX as int },
{
    proof {
        lemma_small_words(SINGLE);
    }
    if m == 0 {
        assert(0 * pow2(s as nat) == 0);
        0
    } else if s >= 64 {
        proof {
            if s > 64 {
                lemma_pow2_strictly_increases(64, s as nat);
            }
            assert(m * pow2(s as nat) >= pow2(s as nat)) by (nonlinear_arith)
                requires
                    m >= 1,
            ;
        }
        u64::MAX
    } else {
        proof {
            lemma_pow2_strictly_increases(s as nat, 64);
            assert(0 <= m * pow2(s as nat) <= 0xffff_ffff_ffff_ffff * 0x1_0000_0000_0000_0000)
                by (nonlinear_arith)
                requires
                    0 <= m <= 0xffff_ffff_ffff_ffff,
                    pow2(s as nat) <= 0x1_0000_0000_0000_0000,
            ;
        }
        let wide = (m as u128) * two_to(s);
        if wide <= u64::MAX as u128 {
            wide as u64
        } else {
            u64::MAX
        }
    }
}

/// The nearest whole number, or the largest word where it does not fit.
pub fn nearest_whole_of(a: u64, p: u32) -> (r: u64)
    requires
        is_format(p),
        a < infinity(p),
    ensures
        r == if nearest_whole(a as nat, p) <= u64::MAX { nearest_whole(a as nat, p) } else {
            u64::MAX as nat
        },
{
    let (m, e) = unpack(a, p);
    let one: u32 = if p == SINGLE {
        149
    } else {
        1074
    };
    let ghost unit = pow2(one as nat);
    let ghost value = points(a as nat, p);
    proof {
        lemma_small_words(p);
        lemma_pow2_pos(one as nat);
        lemma_pow2_pos(e as nat);
    }
    if e >= one {
        let s: u32 = e - one;
        proof {
            lemma_pow2_adds(one as nat, s as nat);
            let y = m * pow2(s as nat);
            assert(value == y * unit) by (nonlinear_arith)
                requires
                    value == m * pow2(e as nat),
                    pow2(e as nat) == unit * pow2(s as nat),
                    y == m * pow2(s as nat),
            ;
            assert((2 * value + unit) as int == (2 * unit) * y + unit) by (nonlinear_arith)
                requires
                    value == y * unit,
            ;
            vstd::arithmetic::div_mod::lemma_fundamental_div_mod_converse(
                (2 * value + unit) as int,
                (2 * unit) as int,
                y as int,
                unit as int,
            );
        }
        saturating_scale(m, s)
    } else {
        let s: u32 = one - e;
        proof {
            lemma_pow2_adds(e as nat, s as nat);
            lemma_pow2_unfold(s as nat);
            lemma_pow2_pos((s - 1) as nat);
            let w = pow2((s - 1) as nat);
            let g = pow2(e as nat);
            // Both terms are multiples of the step.
            assert(2 * value + unit == (m + w) * (2 * g)) by (nonlinear_arith)
                requires
                    value == m * g,
                    unit == g * (2 * w),
            ;
            assert(2 * unit == (2 * g) * (2 * w)) by (nonlinear_arith)
                requires
                    unit == g * (2 * w),
            ;
            vstd::arithmetic::div_mod::lemma_div_denominator(
                ((m + w) * (2 * g)) as int,
                (2 * g) as int,
                (2 * w) as int,
            );
            vstd::arithmetic::div_mod::lemma_div_by_multiple(m + w, (2 * g) as int);
            assert(nearest_whole(a as nat, p) == (m + w) / (pow2(s as nat) as int));
        }
        if s >= 64 {
            proof {
                if s > 64 {
                    lemma_pow2_strictly_increases(64, s as nat);
                }
                let w = pow2((s - 1) as nat);
                assert((m + w) / (2 * w as int) == 0) by (nonlinear_arith)
                    requires
                        0 <= m < w,
                ;
            }
            0
        } else {
            proof {
                if s < 63 {
                    lemma_pow2_strictly_increases(s as nat, 63);
                }
                vstd::arithmetic::power2::lemma2_to64_rest();
                vstd::arithmetic::power2::lemma2_to64();
                lemma_pow2_strictly_increases((s - 1) as nat, s as nat);
            }
            let half: u64 = two_to((s - 1) as u32) as u64;
            proof {
                vstd::bits::lemma_u64_shr_is_div((m + half) as u64, s as u64);
            }
            (m + half) >> (s as u64)
        }
    }
}

/// Rounding does not pass a magnitude that the value does not pass.
pub proof fn lemma_rounded_at_most(num: nat, den: nat, r: nat, p: u32)
    requires
        is_format(p),
        den > 0,
        num <= points(r, p) * den,
    ensures
        rounded(num, den, p) <= r,
{
    let q = rounded(num, den, p);
    lemma_rounded_is_nearest(num, den, p);
    if q > r {
        let low = points((q - 1) as nat, p);
        let high = points(q, p);
        lemma_points_increase(r, q, p);
        if r < q - 1 {
            lemma_points_increase(r, (q - 1) as nat, p);
        }
        assert((low + high) * den > 2 * (points(r, p) * den)) by (nonlinear_arith)
            requires
                low >= points(r, p),
                high > points(r, p),
                den > 0,
        ;
    }
}

/// Rounding does not fall below a magnitude that the value does not fall below.
pub proof fn lemma_rounded_at_least(num: nat, den: nat, r: nat, p: u32)
    requires
        is_format(p),
        den > 0,
        r <= infinity(p),
        num >= points(r, p) * den,
    ensures
        rounded(num, den, p) >= r,
{
    let q = rounded(num, den, p);
    lemma_rounded_is_nearest(num, den, p);
    if q < r {
        let low = points(q, p);
        let high = points(q + 1, p);
        lemma_points_increase(q, r, p);
        if q + 1 < r {
            lemma_points_increase(q + 1, r, p);
        }
        assert((low + high) * den < 2 * (points(r, p) * den)) by (nonlinear_arith)
            requires
                low < points(r, p),
                high <= points(r, p),
                den > 0,
        ;
    }
}

/// The value of a power of two that the format can hold.
pub proof fn lemma_power_magnitude(k: nat, mag: nat, p: u32)
    requires
        is_format(p),
        mag == leading(p) * (point_exponent(p) + k - p + 2),
    ensures
        points(mag, p) == pow2(k) * one_in_points(p),
{
    let e = (point_exponent(p) + k - p + 1) as nat;
    lemma_leading(p);
    assert(mag == leading(p) + leading(p) * e) by (nonlinear_arith)
        requires
            mag == leading(p) * (e + 1),
    ;
    lemma_compose(leading(p), e, p);
    lemma_pow2_adds((p - 1) as nat, e);
    lemma_pow2_adds(k, point_exponent(p));
}

} // verus!
