//! The level of a run of samples is the root of their mean square.
use crate::bounds::{
    lemma_points_order, lemma_representable, lemma_root_at_most, lemma_rounded_grows,
    lemma_rounded_root_is_nearest, lemma_rounded_shrinks, lemma_step_size,
};
use crate::closeness::{
    about, lemma_about_cancel, lemma_about_chain, lemma_about_itself, lemma_about_scale,
    lemma_about_weaken, lemma_rounded_about,
};
use crate::double::{self, lemma_over_at_most, lemma_whole_exact, lemma_widened, widened, Double};
use crate::ieee::{
    exponent, infinity, is_format, leading, lemma_leading, lemma_points_increase,
    lemma_rounded_at_least, lemma_rounded_is_nearest, one_in_points, points, rounded, rounded_root,
    DOUBLE, SINGLE,
};
use crate::levels::{
    grown, lemma_grown, lemma_level_at_most, lemma_square, run_within, size, ungrown, FAINTEST,
    LONGEST_RUN,
};
use crate::parts::lemma_zero_points;
use crate::single::{is_finite, lemma_level_order, Single};
use crate::waveform::{
    band_levels, bin_end, bin_levels, bin_start, bin_values, lemma_bin_range, level, squares,
};
use vstd::arithmetic::power2::{
    lemma_pow2_adds, lemma_pow2_pos, lemma_pow2_strictly_increases, pow2,
};
use vstd::prelude::*;

verus! {

/// Two runs differ in the signs of their values alone.
pub open spec fn same_sizes(u: Seq<Single>, v: Seq<Single>) -> bool {
    &&& u.len() == v.len()
    &&& forall|i: int| 0 <= i < u.len() ==> (#[trigger] u[i]).abs() == v[i].abs()
}

/// A square does not depend on the sign.
proof fn lemma_square_of_size(a: Single, b: Single)
    requires
        a.abs() == b.abs(),
    ensures
        a.times(a) == b.times(b),
{
    reveal(Single::spec_abs);
    reveal(Single::spec_times);
    assert(a.parts().magnitude == b.parts().magnitude);
}

/// Squares add up alike, whatever the signs.
proof fn lemma_squares_of_sizes(u: Seq<Single>, v: Seq<Single>)
    requires
        same_sizes(u, v),
    ensures
        squares(u) == squares(v),
    decreases u.len(),
{
    if u.len() > 0 {
        let (a, b) = (u.drop_last(), v.drop_last());
        assert forall|i: int| 0 <= i < a.len() implies (#[trigger] a[i]).abs() == b[i].abs() by {
            assert(a[i] == u[i] && b[i] == v[i]);
        }
        lemma_squares_of_sizes(a, b);
        let i = u.len() - 1;
        assert(u[i].abs() == v[i].abs());
        lemma_square_of_size(u.last(), v.last());
    }
}

/// A level does not depend on the signs of the values: negating any of them changes no bin of a
/// signal, and no bin of a band.
pub proof fn law_signs_do_not_count(u: Vec<Single>, v: Vec<Single>, bins: nat)
    requires
        same_sizes(u@, v@),
    ensures
        bin_levels(u@, bins) == bin_levels(v@, bins),
        band_levels(Some(u), bins) == band_levels(Some(v), bins),
{
    let (a, b) = (bin_levels(u@, bins), bin_levels(v@, bins));
    assert forall|bin: int| 0 <= bin < bins implies a[bin] == b[bin] by {
        if u@.len() > 0 {
            lemma_bin_range(bin as nat, u@.len(), bins);
            let (x, y) = (bin_values(u@, bin as nat, bins), bin_values(v@, bin as nat, bins));
            let start = bin_start(bin as nat, u@.len(), bins) as int;
            assert forall|i: int| 0 <= i < x.len() implies (#[trigger] x[i]).abs() == y[i].abs() by {
                assert(x[i] == u@[start + i] && y[i] == v@[start + i]);
                assert(u@[start + i].abs() == v@[start + i].abs());
            }
            lemma_squares_of_sizes(x, y);
        }
    }
    assert(a =~= b);
}

/// A band whose signal is the mono mix itself has the levels of the mono mix.
pub proof fn law_a_band_is_measured_as_the_mix_is(signal: Vec<Single>, bins: nat)
    ensures
        band_levels(Some(signal), bins) == bin_levels(signal@, bins),
{
}

/// The squares of values, added up exactly, in square points.
pub open spec fn square_sum(values: Seq<Single>) -> nat
    decreases values.len(),
{
    if values.len() == 0 {
        0
    } else {
        square_sum(values.drop_last()) + size(values.last()) * size(values.last())
    }
}

/// No value is above full scale, and none is so faint that its square underflows.
pub open spec fn is_measurable(values: Seq<Single>) -> bool {
    forall|i: int|
        0 <= i < values.len() ==> is_finite(#[trigger] values[i]) && values[i].abs().bits
            <= Single::one().bits && (values[i].abs().bits == 0 || values[i].abs().bits >= FAINTEST)
}

/// Adding up both sides.
pub(crate) proof fn lemma_about_sum(a: int, b: int, c: int, d: int, k: nat)
    requires
        about(a, b, k),
        about(c, d, k),
    ensures
        about(a + c, b + d, k),
{
    let (u, g) = (ungrown(k), grown(k));
    assert((a + c) * u <= (b + d) * g && (b + d) * u <= (a + c) * g) by (nonlinear_arith)
        requires
            a * u <= b * g,
            b * u <= a * g,
            c * u <= d * g,
            d * u <= c * g,
    ;
}

/// A rounding in the wide format is less than one in the narrow.
proof fn lemma_wide_rounding(num: nat, den: nat)
    requires
        den > 0,
        num >= leading(DOUBLE) * den,
        rounded(num, den, DOUBLE) < infinity(DOUBLE),
    ensures
        about((points(rounded(num, den, DOUBLE), DOUBLE) * den) as int, num as int, 1),
{
    let h = leading(DOUBLE);
    lemma_leading(DOUBLE);
    crate::bounds::lemma_small_points(h, DOUBLE);
    lemma_rounded_at_least(num, den, h, DOUBLE);
    lemma_rounded_grows(num, den, DOUBLE);
    lemma_rounded_shrinks(num, den, DOUBLE);
    let x = (points(rounded(num, den, DOUBLE), DOUBLE) * den) as int;
    lemma_grown(0);
    assert(ungrown(1) == 0x100_0000 && grown(1) == 0x100_0001);
    let e = (2 * h) as int;
    let n = num as int;
    assert(x * e <= n * (e + 1) && n * e <= x * (e + 1));
    assert(x * 0x100_0000 <= n * 0x100_0001 && n * 0x100_0000 <= x * 0x100_0001)
        by (nonlinear_arith)
        requires
            x * e <= n * (e + 1),
            n * e <= x * (e + 1),
            e == 0x20_0000_0000_0000,
            x >= 0,
            n >= 0,
    ;
}

/// A widened square is about the exact square.
proof fn lemma_wide_square_about(v: Single)
    requires
        is_finite(v),
        v.abs().bits <= Single::one().bits,
        v.abs().bits == 0 || v.abs().bits >= FAINTEST,
    ensures
        widened(v.times(v)).bits < 0x7ff0_0000_0000_0000,
        about(
            (points(widened(v.times(v)).bits as nat, DOUBLE) * one_in_points(SINGLE)) as int,
            (size(v) * size(v) * pow2(925)) as int,
            1,
        ),
        v.abs().bits != 0 ==> points(widened(v.times(v)).bits as nat, DOUBLE) >= pow2(948),
        v.abs().bits == 0 ==> widened(v.times(v)).bits == 0,
{
    let top = v.abs();
    reveal(Single::spec_abs);
    assert(top.abs() == top);
    lemma_square(v, top);
    lemma_square_of_size(v, top);
    let q = v.times(v);
    lemma_widened(q);
    let one = one_in_points(SINGLE);
    let c = pow2(925);
    let x = points(top.bits as nat, SINGLE);
    let t = points(q.bits as nat, SINGLE);
    lemma_pow2_pos(149);
    lemma_pow2_pos(925);
    lemma_zero_points(0, SINGLE);
    if top.bits == 0 {
        assert(0 * 0 == 0nat);
        crate::ieee::lemma_rounded_at_most(0, one, 0, SINGLE);
        assert(0 * c == 0);
        lemma_zero_points(widened(q).bits as nat, DOUBLE);
        assert(0 * one == 0);
        lemma_about_itself(0, 1);
        assert(x * x * c == 0) by (nonlinear_arith)
            requires
                x == 0,
        ;
    } else {
        lemma_leading(SINGLE);
        crate::ieee::lemma_compose(leading(SINGLE), 63, SINGLE);
        assert(leading(SINGLE) + leading(SINGLE) * 63 == 0x2000_0000);
        lemma_points_order(0x2000_0000, top.bits as nat, SINGLE);
        lemma_pow2_adds(23, 63);
        lemma_pow2_adds(86, 86);
        lemma_pow2_adds(23, 149);
        lemma_pow2_adds(23, 925);
        let f = pow2(86);
        assert(x * x >= f * f) by (nonlinear_arith)
            requires
                x >= f,
        ;
        lemma_rounded_about(x * x, one);
        lemma_about_scale((t * one) as int, (x * x) as int, c as int, 1);
        assert((t * one) * c == (t * c) * one) by (nonlinear_arith);
        crate::bounds::lemma_small_points(leading(SINGLE), SINGLE);
        lemma_rounded_at_least(x * x, one, leading(SINGLE), SINGLE);
        lemma_points_order(leading(SINGLE), q.bits as nat, SINGLE);
        assert(t * c >= leading(SINGLE) * c) by (nonlinear_arith)
            requires
                t >= leading(SINGLE),
        ;
    }
}

/// The sum of the squares, as it is added up, is about the exact sum.
proof fn lemma_squares_about(values: Seq<Single>)
    requires
        is_measurable(values),
        values.len() <= LONGEST_RUN,
    ensures
        squares(values).bits < 0x7ff0_0000_0000_0000,
        about(
            (points(squares(values).bits as nat, DOUBLE) * one_in_points(SINGLE)) as int,
            (square_sum(values) * pow2(925)) as int,
            values.len() + 1,
        ),
        square_sum(values) > 0 ==> points(squares(values).bits as nat, DOUBLE) >= pow2(948),
        square_sum(values) == 0 ==> squares(values).bits == 0,
    decreases values.len(),
{
    let one = one_in_points(SINGLE);
    let c = pow2(925);
    let n = values.len();
    lemma_pow2_pos(149);
    lemma_pow2_pos(925);
    lemma_zero_points(0, DOUBLE);
    if n == 0 {
        lemma_whole_exact(0);
        assert(0 * one_in_points(DOUBLE) == 0);
        lemma_zero_points(double::whole(0).bits as nat, DOUBLE);
        assert(0 * one == 0 && 0 * c == 0);
        lemma_about_itself(0, 1);
    } else {
        let rest = values.drop_last();
        let v = values.last();
        assert(v == values[n - 1]);
        assert(is_measurable(rest)) by {
            assert forall|i: int| 0 <= i < rest.len() implies is_finite(#[trigger] rest[i])
                && rest[i].abs().bits <= Single::one().bits && (rest[i].abs().bits == 0
                || rest[i].abs().bits >= FAINTEST) by {
                assert(rest[i] == values[i]);
            }
        }
        lemma_squares_about(rest);
        lemma_wide_square_about(v);
        let a = squares(rest);
        let b = widened(v.times(v));
        let pa = points(a.bits as nat, DOUBLE);
        let pb = points(b.bits as nat, DOUBLE);
        let s = squares(values);
        assert(run_within(values, Single::one()));
        crate::levels::lemma_squares_within(values, Single::one());
        assert(s.bits == if pa + pb == 0 { 0 } else { rounded(pa + pb, 1, DOUBLE) }) by {
            reveal(Double::spec_plus);
            assert(a.parts().magnitude == a.bits && b.parts().magnitude == b.bits);
            lemma_rounded_is_nearest(pa + pb, 1, DOUBLE);
        }
        let ps = points(s.bits as nat, DOUBLE);
        let (x, y) = (square_sum(rest), size(v) * size(v));
        let k = n;
        assert(y == 0 <==> v.abs().bits == 0) by {
            lemma_zero_points(v.abs().bits as nat, SINGLE);
            let z = size(v);
            assert(z * z == 0 <==> z == 0) by (nonlinear_arith);
        }
        // The exact sum of the two.
        lemma_about_weaken((pb * one) as int, (y * c) as int, 1, k);
        lemma_about_sum(
            (pa * one) as int,
            (x * c) as int,
            (pb * one) as int,
            (y * c) as int,
            k,
        );
        assert(pa * one + pb * one == (pa + pb) * one) by (nonlinear_arith);
        assert(x * c + y * c == (x + y) * c) by (nonlinear_arith);
        if x + y == 0 {
            lemma_zero_points(b.bits as nat, DOUBLE);
            assert(pa == 0 && pb == 0);
            assert(0 * c == 0 && 0 * one == 0);
            lemma_about_itself(0, n + 1);
        } else {
            lemma_leading(DOUBLE);
            lemma_pow2_strictly_increases(52, 948);
            assert(pa + pb >= pow2(948));
            lemma_wide_rounding(pa + pb, 1);
            assert(points(rounded(pa + pb, 1, DOUBLE), DOUBLE) * 1 == ps);
            lemma_about_scale(ps as int, (pa + pb) as int, one as int, 1);
            lemma_about_chain(
                (ps * one) as int,
                ((pa + pb) * one) as int,
                ((x + y) * c) as int,
                1,
                k,
            );
            // It does not fall below either.
            if pa >= pow2(948) {
                lemma_rounded_at_least(pa + pb, 1, a.bits as nat, DOUBLE);
                lemma_points_order(a.bits as nat, s.bits as nat, DOUBLE);
            } else {
                lemma_rounded_at_least(pa + pb, 1, b.bits as nat, DOUBLE);
                lemma_points_order(b.bits as nat, s.bits as nat, DOUBLE);
            }
        }
    }
}

/// A root does not fall below a magnitude whose square the value does not fall below.
pub(crate) proof fn lemma_root_at_least(x: nat, r: nat, p: u32)
    requires
        is_format(p),
        r <= infinity(p),
        x >= points(r, p) * points(r, p),
    ensures
        rounded_root(x, p) >= r,
{
    let q = rounded_root(x, p);
    lemma_rounded_root_is_nearest(x, p);
    if q < r {
        lemma_points_increase(q, r, p);
        lemma_points_order(q + 1, r, p);
        let y = points(r, p);
        let sum = points(q, p) + points(q + 1, p);
        assert(sum * sum < 4 * (y * y)) by (nonlinear_arith)
            requires
                0 <= sum < 2 * y,
        ;
    }
}

/// A root, squared, is about the value.
pub(crate) proof fn lemma_root_about(x: nat, p: u32)
    requires
        is_format(p),
        leading(p) < rounded_root(x, p) < infinity(p),
    ensures
        about(
            (points(rounded_root(x, p), p) * points(rounded_root(x, p), p)) as int,
            x as int,
            2,
        ),
{
    let r = rounded_root(x, p);
    lemma_rounded_root_is_nearest(x, p);
    lemma_leading(p);
    let c = (r - 1) as nat;
    lemma_step_size(r, p);
    lemma_step_size(c, p);
    let g = pow2(exponent(r, p)) as int;
    let f = pow2(exponent(c, p)) as int;
    let y = points(r, p) as int;
    let l = leading(p) as int;
    let z = x as int;
    let up = points(r, p) + points(r + 1, p);
    let down = points(c, p) + points(r, p);
    assert(up == 2 * y + g && down == 2 * y - f);
    assert(4 * z <= (2 * y + g) * (2 * y + g));
    assert((2 * y - f) * (2 * y - f) <= 4 * z);
    lemma_root_arithmetic(y, z, g, f, l);
    lemma_grown(0);
    lemma_grown(1);
}

/// The arithmetic behind [`lemma_root_about`].
proof fn lemma_root_arithmetic(y: int, z: int, g: int, f: int, l: int)
    requires
        l == 0x10_0000_0000_0000 || l == 0x80_0000,
        y >= l * g,
        y - f >= l * f,
        g > 0,
        f > 0,
        z >= 0,
        4 * z <= (2 * y + g) * (2 * y + g),
        (2 * y - f) * (2 * y - f) <= 4 * z,
    ensures
        y * y * (0x100_0000 * 0x100_0000) <= z * (0x100_0001 * 0x100_0001),
        z * (0x100_0000 * 0x100_0000) <= y * y * (0x100_0001 * 0x100_0001),
{
    // 2 y + g <= y (2 l + 1) / l, so 4 z l l <= y y (2 l + 1)^2
    let e = 2 * l;
    assert((2 * y + g) * l <= y * (e + 1)) by (nonlinear_arith)
        requires
            y >= l * g,
            e == 2 * l,
    ;
    let p = (2 * y + g) * l;
    let q = y * (e + 1);
    assert(p * p <= q * q) by (nonlinear_arith)
        requires
            0 <= p <= q,
    ;
    assert(p * p == (2 * y + g) * (2 * y + g) * (l * l)) by (nonlinear_arith)
        requires
            p == (2 * y + g) * l,
    ;
    assert((4 * z) * (l * l) <= (2 * y + g) * (2 * y + g) * (l * l)) by (nonlinear_arith)
        requires
            4 * z <= (2 * y + g) * (2 * y + g),
            l > 0,
    ;
    assert((4 * z) * (l * l) == z * (e * e)) by (nonlinear_arith)
        requires
            e == 2 * l,
    ;
    assert(q * q == y * y * ((e + 1) * (e + 1))) by (nonlinear_arith)
        requires
            q == y * (e + 1),
    ;
    let yy = y * y;
    assert(z * (e * e) <= yy * ((e + 1) * (e + 1)));
    assert(yy >= 0) by (nonlinear_arith)
        requires
            yy == y * y,
    ;
    assert(z * (0x100_0000 * 0x100_0000) <= yy * (0x100_0001 * 0x100_0001)) by (nonlinear_arith)
        requires
            z * (e * e) <= yy * ((e + 1) * (e + 1)),
            e == 0x20_0000_0000_0000 || e == 0x100_0000,
            yy >= 0,
            z >= 0,
    ;
    // (2 y - f) (l + 1) >= y (2 l + 1)
    assert((2 * y - f) * (l + 1) >= y * (e + 1)) by (nonlinear_arith)
        requires
            y - f >= l * f,
            e == 2 * l,
    ;
    let s = (2 * y - f) * (l + 1);
    assert(q >= 0) by (nonlinear_arith)
        requires
            q == y * (e + 1),
            y >= 0,
            e > 0,
    ;
    assert(q * q <= s * s) by (nonlinear_arith)
        requires
            0 <= q <= s,
    ;
    assert(s * s == (2 * y - f) * (2 * y - f) * ((l + 1) * (l + 1))) by (nonlinear_arith)
        requires
            s == (2 * y - f) * (l + 1),
    ;
    assert((2 * y - f) * (2 * y - f) * ((l + 1) * (l + 1)) <= (4 * z) * ((l + 1) * (l + 1)))
        by (nonlinear_arith)
        requires
            (2 * y - f) * (2 * y - f) <= 4 * z,
            l > 0,
    ;
    assert((4 * z) * ((l + 1) * (l + 1)) == z * ((e + 2) * (e + 2))) by (nonlinear_arith)
        requires
            e == 2 * l,
    ;
    assert(yy * ((e + 1) * (e + 1)) <= z * ((e + 2) * (e + 2)));
    assert(yy * (0x100_0000 * 0x100_0000) <= z * (0x100_0001 * 0x100_0001)) by (nonlinear_arith)
        requires
            yy * ((e + 1) * (e + 1)) <= z * ((e + 2) * (e + 2)),
            e == 0x20_0000_0000_0000 || e == 0x100_0000,
            yy >= 0,
            z >= 0,
    ;
}

/// A level, squared and times the number of values, is the sum of their squares, up to a rounding
/// for each value and seven more.
pub open spec fn is_root_mean_square(a: Single, values: Seq<Single>) -> bool {
    about(
        (values.len() * (size(a) * size(a))) as int,
        square_sum(values) as int,
        values.len() + 7,
    )
}

/// The level of a run is the root of its mean square.
pub proof fn law_level_is_the_root_of_the_mean_square(values: Seq<Single>)
    requires
        0 < values.len() <= LONGEST_RUN,
        is_measurable(values),
    ensures
        is_root_mean_square(level(values), values),
{
    let n = values.len();
    let total = squares(values);
    let count = double::whole(n);
    let mean = total.over(count);
    let root = mean.sqrt();
    let narrow = root.to_single();
    let one = one_in_points(DOUBLE);
    let small = one_in_points(SINGLE);
    let c = pow2(925);
    let sum = square_sum(values);
    let t = points(total.bits as nat, DOUBLE);
    lemma_squares_about(values);
    lemma_whole_exact(n);
    lemma_pow2_pos(1074);
    lemma_pow2_pos(149);
    lemma_pow2_pos(925);
    lemma_zero_points(0, DOUBLE);
    lemma_zero_points(0, SINGLE);
    assert(n * one > 0) by (nonlinear_arith)
        requires
            n > 0,
            one > 0,
    ;
    lemma_zero_points(count.bits as nat, DOUBLE);
    reveal(Single::spec_abs);
    if sum == 0 {
        lemma_silent_level(total, count);
        lemma_level_order(Single::zero(), Single::zero());
        lemma_level_order(Single::one(), Single::zero());
        assert(level(values) == Single::zero());
        assert(n * (0 * 0) == 0) by (nonlinear_arith);
        lemma_about_itself(0, n + 7);
    } else {
        let full = Single::one();
        assert(run_within(values, full));
        let (m, r) = lemma_wide_root(total, n);
        // The narrow result is not above one, and so not held.
        lemma_level_at_most(values, full);
        lemma_level_raw(values);
        let l = size(level(values));
        assert(level(values) == narrow);
        lemma_narrow_about(root);
        // l c ~ r (1), r r ~ m one (2), m n ~ t (1), t small ~ sum c (n + 1)
        let q = points(root.bits as nat, DOUBLE);
        lemma_about_product_square((l * c) as int, q as int);
        lemma_about_chain(
            ((l * c) * (l * c)) as int,
            (q * q) as int,
            (m * one) as int,
            2,
            2,
        );
        lemma_about_scale(((l * c) * (l * c)) as int, (m * one) as int, n as int, 4);
        lemma_about_scale((m * n) as int, t as int, one as int, 1);
        assert((m * one) * n == (m * n) * one) by (nonlinear_arith);
        lemma_about_chain(
            (((l * c) * (l * c)) * n) as int,
            ((m * n) * one) as int,
            (t * one) as int,
            4,
            1,
        );
        lemma_about_scale((((l * c) * (l * c)) * n) as int, (t * one) as int, small as int, 5);
        lemma_about_scale((t * small) as int, (sum * c) as int, one as int, n + 1);
        assert((t * one) * small == (t * small) * one) by (nonlinear_arith);
        lemma_about_chain(
            ((((l * c) * (l * c)) * n) * small) as int,
            ((t * small) * one) as int,
            ((sum * c) * one) as int,
            5,
            n + 1,
        );
        // One of the wide format is one of the narrow, widened.
        lemma_pow2_adds(149, 925);
        assert((((l * c) * (l * c)) * n) * small == (n * (l * l)) * ((c * c) * small))
            by (nonlinear_arith);
        assert((sum * c) * one == sum * ((c * c) * small)) by (nonlinear_arith)
            requires
                one == small * c,
        ;
        let unit_size = (c * c) * small;
        assert(unit_size > 0) by (nonlinear_arith)
            requires
                unit_size == (c * c) * small,
                c > 0,
                small > 0,
        ;
        lemma_about_cancel(
            (n * (l * l)) as int,
            sum as int,
            unit_size as int,
            n + 6,
        );
        lemma_about_weaken((n * (l * l)) as int, sum as int, n + 6, n + 7);
    }
}

/// Squaring both sides.
proof fn lemma_about_product_square(a: int, b: int)
    requires
        about(a, b, 1),
        a >= 0,
        b >= 0,
    ensures
        about(a * a, b * b, 2),
{
    lemma_about_scale(a, b, a, 1);
    lemma_about_scale(a, b, b, 1);
    assert(b * a == a * b) by (nonlinear_arith);
    lemma_about_chain(a * a, a * b, b * b, 1, 1);
}

/// Nothing has no level.
proof fn lemma_silent_level(total: Double, count: Double)
    requires
        total.bits == 0,
        0 < count.bits < 0x7ff0_0000_0000_0000,
    ensures
        total.over(count).sqrt().to_single() == Single::zero(),
{
    lemma_zero_points(0, DOUBLE);
    let one = one_in_points(DOUBLE);
    let d = points(count.bits as nat, DOUBLE);
    assert(0 * one == 0 && 0 * d == 0);
    lemma_over_at_most(total, count, 0);
    reveal(Double::spec_sqrt);
    reveal(Double::spec_to_single);
    lemma_pow2_pos(925);
    lemma_zero_points(0, SINGLE);
    assert(0 * pow2(925) == 0);
    crate::ieee::lemma_rounded_at_most(0, pow2(925), 0, SINGLE);
}

/// The mean and its root, each up to its roundings.
proof fn lemma_wide_root(total: Double, n: nat) -> (r: (nat, nat))
    requires
        0 < n <= LONGEST_RUN,
        total.bits < 0x7ff0_0000_0000_0000,
        points(total.bits as nat, DOUBLE) >= pow2(948),
    ensures
        ({
            let mean = total.over(double::whole(n));
            let root = mean.sqrt();
            &&& r.0 == points(mean.bits as nat, DOUBLE)
            &&& r.1 == points(root.bits as nat, DOUBLE)
            &&& mean.bits < 0x7ff0_0000_0000_0000
            &&& root.bits < 0x7ff0_0000_0000_0000
            &&& about((r.0 * n) as int, points(total.bits as nat, DOUBLE) as int, 1)
            &&& about((r.1 * r.1) as int, (r.0 * one_in_points(DOUBLE)) as int, 2)
            &&& r.1 >= pow2(990)
        }),
{
    let count = double::whole(n);
    let mean = total.over(count);
    let root = mean.sqrt();
    let one = one_in_points(DOUBLE);
    let t = points(total.bits as nat, DOUBLE);
    lemma_whole_exact(n);
    lemma_pow2_pos(1074);
    lemma_leading(DOUBLE);
    assert(n * one > 0 && n * one >= one) by (nonlinear_arith)
        requires
            n > 0,
            one > 0,
    ;
    lemma_zero_points(count.bits as nat, DOUBLE);
    let d = points(count.bits as nat, DOUBLE);
    assert(t * one <= t * d) by (nonlinear_arith)
        requires
            one <= d,
    ;
    lemma_over_at_most(total, count, total.bits as nat);
    reveal(Double::spec_over);
    assert(total.parts().magnitude == total.bits && count.parts().magnitude == count.bits);
    lemma_rounded_is_nearest(t * one, d, DOUBLE);
    assert(mean.bits == rounded(t * one, d, DOUBLE));
    // The mean is not small.
    let low = lemma_representable(1, 918, DOUBLE);
    lemma_pow2_adds(918, 30);
    vstd::arithmetic::power2::lemma2_to64();
    lemma_pow2_pos(918);
    assert(t * one >= points(low, DOUBLE) * d) by (nonlinear_arith)
        requires
            t >= pow2(948),
            pow2(948) == pow2(918) * 0x4000_0000,
            points(low, DOUBLE) == pow2(918),
            d == n * one,
            n <= 0x2000_0000,
    ;
    lemma_rounded_at_least(t * one, d, low, DOUBLE);
    lemma_points_order(low, mean.bits as nat, DOUBLE);
    lemma_pow2_strictly_increases(52, 918);
    let h = leading(DOUBLE);
    assert(t * one >= h * d) by (nonlinear_arith)
        requires
            t * one >= pow2(918) * d,
            pow2(918) >= h,
            points(low, DOUBLE) == pow2(918),
    ;
    lemma_wide_rounding(t * one, d);
    let m = points(mean.bits as nat, DOUBLE);
    assert(m * d == (m * n) * one) by (nonlinear_arith)
        requires
            d == n * one,
    ;
    lemma_about_cancel((m * n) as int, t as int, one as int, 1);
    // The root.
    reveal(Double::spec_sqrt);
    assert(mean.parts().magnitude == mean.bits);
    lemma_zero_points(mean.bits as nat, DOUBLE);
    let x = m * one;
    let start = lemma_representable(1, 990, DOUBLE);
    lemma_pow2_adds(918, 1074);
    lemma_pow2_adds(990, 990);
    lemma_pow2_strictly_increases(1980, 1992);
    assert(x >= points(start, DOUBLE) * points(start, DOUBLE)) by (nonlinear_arith)
        requires
            x == m * one,
            m >= pow2(918),
            one == pow2(1074),
            points(start, DOUBLE) == pow2(990),
            pow2(1980) == pow2(990) * pow2(990),
            pow2(1992) == pow2(918) * pow2(1074),
            pow2(1980) < pow2(1992),
    ;
    lemma_root_at_least(x, start, DOUBLE);
    lemma_points_order(start, rounded_root(x, DOUBLE), DOUBLE);
    crate::bounds::lemma_small_points(h, DOUBLE);
    lemma_pow2_strictly_increases(52, 990);
    lemma_points_order(rounded_root(x, DOUBLE), h, DOUBLE);
    // And not large.
    lemma_root_bound(mean);
    lemma_root_about(x, DOUBLE);
    assert(root.bits == rounded_root(x, DOUBLE));
    (m, points(root.bits as nat, DOUBLE))
}

/// The root of a finite level is finite.
proof fn lemma_root_bound(mean: Double)
    requires
        0 < mean.bits < 0x7ff0_0000_0000_0000,
    ensures
        rounded_root(points(mean.bits as nat, DOUBLE) * one_in_points(DOUBLE), DOUBLE)
            < 0x7ff0_0000_0000_0000,
{
    let m = points(mean.bits as nat, DOUBLE);
    let one = one_in_points(DOUBLE);
    let unit_mag = 0x3ff0_0000_0000_0000nat;
    lemma_leading(DOUBLE);
    vstd::arithmetic::power2::lemma2_to64();
    crate::ieee::lemma_power_magnitude(0, unit_mag, DOUBLE);
    let limit: nat = if mean.bits < unit_mag {
        unit_mag
    } else {
        mean.bits as nat
    };
    lemma_points_order(mean.bits as nat, limit, DOUBLE);
    lemma_points_order(unit_mag, limit, DOUBLE);
    let y = points(limit, DOUBLE);
    assert(m * one <= y * y) by (nonlinear_arith)
        requires
            m <= y,
            one <= y,
    ;
    lemma_root_at_most(m * one, limit, DOUBLE);
}

/// The narrow result is about the wide one.
proof fn lemma_narrow_about(root: Double)
    requires
        root.bits < 0x7ff0_0000_0000_0000,
        points(root.bits as nat, DOUBLE) >= pow2(990),
        root.to_single().bits < 0x7f80_0000,
    ensures
        about(
            (size(root.to_single()) * pow2(925)) as int,
            points(root.bits as nat, DOUBLE) as int,
            1,
        ),
{
    reveal(Double::spec_to_single);
    reveal(Single::spec_abs);
    let q = points(root.bits as nat, DOUBLE);
    lemma_pow2_pos(925);
    lemma_leading(SINGLE);
    lemma_pow2_adds(23, 925);
    lemma_pow2_strictly_increases(948, 990);
    assert(root.parts().magnitude == root.bits);
    lemma_rounded_is_nearest(q, pow2(925), SINGLE);
    lemma_rounded_about(q, pow2(925));
}

/// A level that is not above one is not held.
proof fn lemma_level_raw(values: Seq<Single>)
    requires
        0 < values.len() <= LONGEST_RUN,
        run_within(values, Single::one()),
    ensures
        level(values) == squares(values).over(double::whole(values.len())).sqrt().to_single(),
        level(values).bits <= Single::one().bits,
{
    crate::levels::lemma_raw_at_most(values, Single::one());
    let narrow = squares(values).over(double::whole(values.len())).sqrt().to_single();
    lemma_level_order(narrow, Single::zero());
    lemma_level_order(Single::one(), narrow);
}

/// The level of every bin of a signal, and of every band, is the root of the mean square of the
/// values of that bin's frames: those from its share of the frames on, up to the next bin's.
pub proof fn law_bins_show_root_mean_squares(signal: Vec<Single>, bins: nat, bin: nat)
    requires
        bin < bins,
        signal@.len() > 0,
        is_measurable(signal@),
        bin_end(bin, signal@.len(), bins) - bin_start(bin, signal@.len(), bins) <= LONGEST_RUN,
    ensures
        ({
            let frames = signal@.len();
            let start = bin * frames / bins;
            let next = (bin + 1) * frames / bins;
            let end = if next > start {
                next
            } else {
                start + 1
            };
            let run = signal@.subrange(start as int, end as int);
            &&& 0 <= start < end <= frames
            &&& is_root_mean_square(bin_levels(signal@, bins)[bin as int], run)
            &&& is_root_mean_square(band_levels(Some(signal), bins)[bin as int], run)
        }),
{
    lemma_bin_range(bin, signal@.len(), bins);
    let run = bin_values(signal@, bin, bins);
    let start = bin_start(bin, signal@.len(), bins) as int;
    assert(is_measurable(run)) by {
        assert forall|i: int| 0 <= i < run.len() implies is_finite(#[trigger] run[i])
            && run[i].abs().bits <= Single::one().bits && (run[i].abs().bits == 0
            || run[i].abs().bits >= FAINTEST) by {
            assert(run[i] == signal@[start + i]);
        }
    }
    law_level_is_the_root_of_the_mean_square(run);
}

} // verus!
