//! Where seeks land, and how long tracks play.
use crate::audio::{within_track, PlaybackBuffer, PlaybackState};
use crate::bounds::lemma_points_order;
use crate::closeness::{
    about, at_most_about, lemma_about_cancel, lemma_about_chain, lemma_about_itself,
    lemma_about_scale, lemma_at_most_chain, lemma_at_most_exact, lemma_one_is_normal,
    lemma_quotient_about, lemma_whole_about,
};
use crate::ieee::{
    leading, lemma_leading, lemma_power_magnitude, lemma_rounded_at_most, lemma_rounded_is_nearest,
    nearest_whole, one_in_points, points, SINGLE,
};
use crate::laws::law_position_is_held;
use crate::levels::size;
use crate::parts::lemma_zero_points;
use crate::single::{lemma_level_order, lemma_not_below_zero, lemma_whole_level, whole, Single};
use crate::time::{Duration, NANOS_PER_SECOND};
use vstd::arithmetic::power2::{lemma_pow2_adds, lemma_pow2_pos, pow2};
use vstd::prelude::*;

verus! {

/// A whole number that a level is rounded to is the nearest, half going up.
pub proof fn lemma_round_to_word(p: Single)
    requires
        p.bits < 0x7f80_0000,
    ensures
        (2 * p.round_to_word() - 1) * one_in_points(SINGLE) <= 2 * points(p.bits as nat, SINGLE),
        p.round_to_word() < u64::MAX ==> 2 * points(p.bits as nat, SINGLE) < (2 * p.round_to_word()
            + 1) * one_in_points(SINGLE),
{
    reveal(Single::spec_round_to_word);
    let one = one_in_points(SINGLE);
    let x = points(p.bits as nat, SINGLE);
    let n = nearest_whole(p.bits as nat, SINGLE);
    let t = p.round_to_word();
    lemma_pow2_pos(149);
    vstd::arithmetic::div_mod::lemma_fundamental_div_mod((2 * x + one) as int, (2 * one) as int);
    assert((2 * n - 1) * one <= 2 * x && 2 * x < (2 * n + 1) * one) by (nonlinear_arith)
        requires
            (2 * x + one) as int == (2 * one) * n + (2 * x + one) % (2 * one),
            0 <= (2 * x + one) % (2 * one) < 2 * one,
    ;
    assert(t <= n);
    assert((2 * t - 1) * one <= (2 * n - 1) * one) by (nonlinear_arith)
        requires
            t <= n,
            one > 0,
    ;
}

/// A length in seconds is finite.
pub proof fn lemma_seconds_bound(d: Duration)
    ensures
        d.as_seconds().bits <= 0x6000_0000,
{
    let billion = NANOS_PER_SECOND as nat;
    let a = whole(d.seconds as nat);
    let n = whole(d.nanos as nat);
    let b = n.over(whole(billion));
    let one = one_in_points(SINGLE);
    lemma_leading(SINGLE);
    lemma_whole_level(d.seconds as nat);
    lemma_whole_level(d.nanos as nat);
    lemma_whole_level(billion);
    lemma_power_magnitude(0, 0x3f80_0000, SINGLE);
    lemma_power_magnitude(64, 0x5f80_0000, SINGLE);
    lemma_power_magnitude(65, 0x6000_0000, SINGLE);
    lemma_pow2_adds(1, 64);
    vstd::arithmetic::power2::lemma2_to64();
    lemma_points_order(0x3f80_0000, whole(billion).bits as nat, SINGLE);
    lemma_points_order(a.bits as nat, 0x5f80_0000, SINGLE);
    lemma_points_order(n.bits as nat, 0x5f80_0000, SINGLE);
    assert(b.bits <= 0x5f80_0000) by {
        reveal(Single::spec_over);
        lemma_zero_points(whole(billion).bits as nat, SINGLE);
        let x = points(n.bits as nat, SINGLE);
        let y = points(0x5f80_0000, SINGLE);
        let den = points(whole(billion).bits as nat, SINGLE);
        assert(x * one <= y * den) by (nonlinear_arith)
            requires
                x <= y,
                one <= den,
        ;
        lemma_rounded_at_most(x * one, den, 0x5f80_0000, SINGLE);
    }
    lemma_points_order(b.bits as nat, 0x5f80_0000, SINGLE);
    reveal(Single::spec_plus);
    lemma_zero_points(0, SINGLE);
    let exact = points(a.bits as nat, SINGLE) + points(b.bits as nat, SINGLE);
    let z = pow2(64);
    assert(z * one + z * one == pow2(65) * one) by (nonlinear_arith)
        requires
            pow2(65) == 2 * z,
    ;
    lemma_rounded_at_most(exact, 1, 0x6000_0000, SINGLE);
}

/// Where a seek lands does not depend on where the cursor was, nor on what the transport does.
pub proof fn law_seek_forgets_the_cursor(a: PlaybackState, b: PlaybackState, seconds: Single)
    requires
        a.spec_track() is Some,
        a.spec_track() == b.spec_track(),
    ensures
        a.sought(seconds) == b.sought(seconds),
{
}

/// A frame of a track is the nearest to a number of seconds times the sample rate, up to the
/// rounding of the rate and of the product: not past it by more than half a frame, and not short
/// of it by more unless the track ends there.
pub open spec fn is_nearest_frame(frame: int, seconds: Single, track: PlaybackBuffer) -> bool {
    let one = one_in_points(SINGLE) as int;
    let exact = (size(seconds) * track.sample_rate) as int;
    &&& at_most_about((2 * frame - 1) * one, 2 * exact, 2)
    &&& frame < track.frames() ==> at_most_about(2 * exact, (2 * frame + 1) * one, 2)
}

/// A position lies within a track.
pub open spec fn lies_within(seconds: Single, track: PlaybackBuffer) -> bool {
    Single::zero().at_most(seconds) && seconds.at_most(track.length().as_seconds())
}

/// A seek to seconds within the track lands on the frame nearest to seconds times the sample
/// rate, wherever the cursor was.
pub proof fn law_seek_lands_on_the_nearest_frame(state: PlaybackState, seconds: Single)
    requires
        state.spec_track() is Some,
        lies_within(seconds, state.spec_track()->0),
    ensures
        is_nearest_frame(state.sought(seconds) as int, seconds, state.spec_track()->0),
{
    let track = state.spec_track()->0;
    let length = track.length();
    let limit = length.as_seconds();
    let one = one_in_points(SINGLE);
    let rate = track.sample_rate as nat;
    lemma_seconds_bound(length);
    lemma_not_below_zero(seconds);
    lemma_level_order(Single::zero(), limit);
    assert(!seconds.is_nan()) by {
        reveal(Single::spec_at_most);
    }
    law_position_is_held(seconds, length);
    assert(within_track(seconds, length) == seconds);
    lemma_pow2_pos(149);
    lemma_zero_points(0, SINGLE);
    reveal(Single::spec_abs);
    let w = whole(rate);
    let product = seconds.times(w);
    let t = product.round_to_word();
    lemma_whole_level(rate);
    lemma_rate_bound(rate);
    let s = size(seconds);
    if seconds.is_level() {
        lemma_level_order(seconds, limit);
    }
    assert(seconds.abs().bits <= 0x6000_0000);
    lemma_product_size(seconds, w);
    let x = size(product);
    assert(product.is_level() || product.bits == 0x8000_0000) by {
        lemma_not_below_zero(w);
        crate::single::lemma_times_not_below(seconds, w);
        lemma_not_below_zero(product);
    }
    let frame = state.sought(seconds);
    assert(frame as int <= t as int && (frame < track.frames() ==> frame == t as nat));
    assert((2 * t - 1) * one <= 2 * x && (t < u64::MAX ==> 2 * x < (2 * t + 1) * one)) by {
        if product.is_level() {
            lemma_round_to_word(product);
        } else {
            reveal(Single::spec_round_to_word);
            assert(x == 0);
            assert(t == 0);
            assert((2 * 0 - 1) * one <= 0 && 0 < (2 * 0 + 1) * one) by (nonlinear_arith)
                requires
                    one > 0,
            ;
        }
    }
    assert((2 * frame - 1) * one <= (2 * t - 1) * one) by (nonlinear_arith)
        requires
            frame <= t,
            one > 0,
    ;
    lemma_frames_bound(track);
    let exact = s * rate;
    let low = (2 * frame - 1) * one;
    let high = ((2 * frame + 1) * one) as int;
    if rate == 0 {
        crate::single::lemma_whole_zero();
        assert(s * 0 == 0);
        lemma_times_zero(seconds);
        assert(t == 0) by {
            reveal(Single::spec_round_to_word);
            crate::single::lemma_zero_to_word();
        }
        assert((2 * 0 - 1) * one <= 0) by (nonlinear_arith)
            requires
                one > 0,
        ;
        lemma_at_most_exact(low, 0, 2);
        lemma_at_most_exact(0, high, 2);
    } else if s * points(w.bits as nat, SINGLE) >= leading(SINGLE) * one {
        lemma_about_product(seconds, w, rate);
        lemma_at_most_exact(low, (2 * x) as int, 0);
        lemma_about_scale(x as int, exact as int, 2, 2);
        lemma_at_most_chain(low, (2 * x) as int, (2 * exact) as int, 0, 2);
        if frame < track.frames() {
            lemma_at_most_exact((2 * x) as int, high, 0);
            lemma_at_most_chain((2 * exact) as int, (2 * x) as int, high, 2, 0);
        }
    } else {
        // Less than any frame.
        lemma_tiny_product(seconds, w, rate);
        assert((2 * 0 - 1) * one <= 0) by (nonlinear_arith)
            requires
                one > 0,
        ;
        lemma_at_most_exact(low, (2 * exact) as int, 2);
        assert((2 * frame + 1) * one >= one) by (nonlinear_arith)
            requires
                frame >= 0,
                one > 0,
        ;
        lemma_at_most_exact((2 * exact) as int, high, 2);
    }
}

/// A buffer has no more frames than a word can count.
proof fn lemma_frames_bound(track: PlaybackBuffer)
    ensures
        track.frames() <= u64::MAX,
{
    let len = track.samples@.len();
    assert(len == track.samples.len());
    let channels = track.channels;
    if channels > 0 {
        assert(len / (channels as nat) <= len) by (nonlinear_arith)
            requires
                channels > 0,
        ;
    }
}

/// A sample rate as a single stays below two to the power of 32.
pub(crate) proof fn lemma_rate_bound(rate: nat)
    requires
        rate <= u32::MAX,
    ensures
        whole(rate).bits <= 0x4f80_0000,
{
    reveal(whole);
    let one = one_in_points(SINGLE);
    lemma_leading(SINGLE);
    lemma_power_magnitude(32, 0x4f80_0000, SINGLE);
    vstd::arithmetic::power2::lemma2_to64();
    assert(rate * one <= points(0x4f80_0000, SINGLE) * 1) by (nonlinear_arith)
        requires
            rate <= 0x1_0000_0000,
            points(0x4f80_0000, SINGLE) == 0x1_0000_0000 * one,
    ;
    lemma_rounded_at_most(rate * one, 1, 0x4f80_0000, SINGLE);
    lemma_rounded_is_nearest(rate * one, 1, SINGLE);
}

/// A position times a rate is finite.
proof fn lemma_product_size(a: Single, b: Single)
    requires
        a.abs().bits <= 0x6000_0000,
        b.bits <= 0x4f80_0000,
    ensures
        a.times(b).abs().bits <= 0x7000_0000,
        a.times(b).abs().bits == crate::ieee::rounded(
            size(a) * points(b.bits as nat, SINGLE),
            one_in_points(SINGLE),
            SINGLE,
        ),
{
    reveal(Single::spec_times);
    reveal(Single::spec_abs);
    let one = one_in_points(SINGLE);
    lemma_pow2_pos(149);
    lemma_leading(SINGLE);
    lemma_power_magnitude(65, 0x6000_0000, SINGLE);
    lemma_power_magnitude(32, 0x4f80_0000, SINGLE);
    lemma_power_magnitude(97, 0x7000_0000, SINGLE);
    lemma_pow2_adds(65, 32);
    lemma_points_order(a.abs().bits as nat, 0x6000_0000, SINGLE);
    lemma_points_order(b.bits as nat, 0x4f80_0000, SINGLE);
    let (x, y, p, q) = (size(a), points(b.bits as nat, SINGLE), pow2(65), pow2(32));
    assert(x * y <= p * q * one * one) by (nonlinear_arith)
        requires
            x <= p * one,
            y <= q * one,
    ;
    lemma_rounded_at_most(x * y, one, 0x7000_0000, SINGLE);
    assert(a.parts().magnitude == a.abs().bits && b.parts().magnitude == b.bits);
    let m = crate::ieee::rounded(x * y, one, SINGLE);
    assert(a.times(b).parts().magnitude == m);
}

/// A finite value times zero is a zero.
proof fn lemma_times_zero(a: Single)
    requires
        a.abs().bits < 0x7f80_0000,
    ensures
        a.times(Single::zero()).abs().bits == 0,
{
    reveal(Single::spec_times);
    reveal(Single::spec_abs);
    lemma_pow2_pos(149);
    lemma_zero_points(0, SINGLE);
    let x = points(a.parts().magnitude as nat, SINGLE);
    assert(x * 0 == 0);
    lemma_rounded_at_most(0, one_in_points(SINGLE), 0, SINGLE);
}

/// A position times a rate, up to two roundings.
proof fn lemma_about_product(a: Single, w: Single, rate: nat)
    requires
        a.abs().bits <= 0x6000_0000,
        0 < rate <= u32::MAX,
        w == whole(rate),
        size(a) * points(w.bits as nat, SINGLE) >= leading(SINGLE) * one_in_points(SINGLE),
    ensures
        about(size(a.times(w)) as int, (size(a) * rate) as int, 2),
{
    let one = one_in_points(SINGLE);
    lemma_pow2_pos(149);
    lemma_rate_bound(rate);
    lemma_product_size(a, w);
    let s = size(a);
    let y = points(w.bits as nat, SINGLE);
    let x = size(a.times(w));
    crate::closeness::lemma_rounded_about(s * y, one);
    lemma_whole_about(rate);
    lemma_about_scale(y as int, (rate * one) as int, s as int, 1);
    assert(y * s == s * y && (rate * one) * s == (s * rate) * one) by (nonlinear_arith);
    lemma_about_chain((x * one) as int, (s * y) as int, ((s * rate) * one) as int, 1, 1);
    lemma_about_cancel(x as int, (s * rate) as int, one as int, 2);
}

/// A product below the first normal value is far less than half of one.
proof fn lemma_tiny_product(a: Single, w: Single, rate: nat)
    requires
        a.abs().bits <= 0x6000_0000,
        0 < rate <= u32::MAX,
        w == whole(rate),
        size(a) * points(w.bits as nat, SINGLE) < leading(SINGLE) * one_in_points(SINGLE),
    ensures
        a.times(w).round_to_word() == 0,
        2 * (size(a) * rate) <= one_in_points(SINGLE),
{
    let one = one_in_points(SINGLE);
    lemma_pow2_pos(149);
    lemma_one_is_normal();
    lemma_rate_bound(rate);
    lemma_product_size(a, w);
    lemma_whole_about(rate);
    let s = size(a);
    let y = points(w.bits as nat, SINGLE);
    let h = leading(SINGLE);
    crate::levels::lemma_grown(0);
    // The rate is at most twice what it is rounded to.
    assert(crate::levels::ungrown(1) == 0x100_0000 && crate::levels::grown(1) == 0x100_0001);
    assert(rate * one <= 2 * y);
    assert(s * (rate * one) <= s * (2 * y)) by (nonlinear_arith)
        requires
            rate * one <= 2 * y,
    ;
    assert(s * (rate * one) == (s * rate) * one && s * (2 * y) == 2 * (s * y)) by (nonlinear_arith);
    assert(s * rate <= 2 * h) by (nonlinear_arith)
        requires
            (s * rate) * one <= 2 * (h * one),
            one > 0,
    ;
    crate::bounds::lemma_small_points(h, SINGLE);
    lemma_rounded_at_most(s * y, one, h, SINGLE);
    let p = a.times(w);
    lemma_points_order(p.abs().bits as nat, h, SINGLE);
    assert(h * h >= 4 * h) by (nonlinear_arith)
        requires
            h == 0x80_0000,
    ;
    reveal(Single::spec_round_to_word);
    reveal(Single::spec_abs);
    let x = points(p.parts().magnitude as nat, SINGLE);
    assert(p.parts().magnitude == p.abs().bits);
    assert(x <= h);
    assert((2 * x + one) / (2 * one) == 0) by (nonlinear_arith)
        requires
            2 * x < one,
            one > 0,
    ;
}

/// A later position is not sought at an earlier frame.
pub proof fn law_seek_keeps_the_order(state: PlaybackState, earlier: Single, later: Single)
    requires
        earlier.at_most(later),
    ensures
        state.sought(earlier) <= state.sought(later),
{
    if let Some(track) = state.spec_track() {
        let limit = track.length().as_seconds();
        let a = within_track(earlier, track.length());
        let b = within_track(later, track.length());
        lemma_seconds_bound(track.length());
        lemma_level_order(Single::zero(), limit);
        assert(!earlier.is_nan() && !later.is_nan()) by {
            reveal(Single::spec_at_most);
        }
        law_position_is_held(earlier, track.length());
        law_position_is_held(later, track.length());
        assert(a.at_most(b)) by {
            reveal(Single::spec_at_most);
            reveal(Single::spec_less);
        }
        let rate = track.sample_rate as nat;
        let w = whole(rate);
        lemma_rate_bound(rate);
        lemma_not_below_zero(a);
        lemma_not_below_zero(b);
        lemma_round_of_product(a, w);
        lemma_round_of_product(b, w);
        let (x, y) = (plain(a), plain(b));
        assert(x.bits <= y.bits) by {
            if a.is_level() && b.is_level() {
                lemma_level_order(a, b);
            } else if a.is_level() {
                reveal(Single::spec_at_most);
                lemma_zero_points(0, SINGLE);
                lemma_zero_points(a.bits as nat, SINGLE);
            }
        }
        assert(y.bits <= limit.bits) by {
            if b.is_level() {
                lemma_level_order(b, limit);
            }
        }
        crate::single::lemma_times_order(x, y, w);
        lemma_round_order(x.times(w), y.times(w));
    }
}

/// A number that is not below zero, without the sign of a negative zero.
spec fn plain(a: Single) -> Single {
    if a.is_level() {
        a
    } else {
        Single::zero()
    }
}

/// A negative zero is rounded as zero is.
proof fn lemma_round_of_product(a: Single, w: Single)
    requires
        a.is_level() || a.bits == 0x8000_0000,
        w.bits < 0x7f80_0000,
    ensures
        a.times(w).round_to_word() == plain(a).times(w).round_to_word(),
{
    if !a.is_level() {
        reveal(Single::spec_times);
        reveal(Single::spec_round_to_word);
        lemma_pow2_pos(149);
        lemma_zero_points(0, SINGLE);
        let y = points(w.bits as nat, SINGLE);
        assert(0 * y == 0);
        lemma_rounded_at_most(0, one_in_points(SINGLE), 0, SINGLE);
        crate::single::lemma_zero_to_word();
    }
}

/// Rounding to whole numbers keeps the order of levels.
pub proof fn lemma_round_order(a: Single, b: Single)
    requires
        a.bits <= b.bits <= 0x7f80_0000,
    ensures
        a.round_to_word() <= b.round_to_word(),
{
    reveal(Single::spec_round_to_word);
    let one = one_in_points(SINGLE);
    lemma_pow2_pos(149);
    lemma_points_order(a.bits as nat, b.bits as nat, SINGLE);
    vstd::arithmetic::div_mod::lemma_div_is_ordered(
        (2 * points(a.bits as nat, SINGLE) + one) as int,
        (2 * points(b.bits as nat, SINGLE) + one) as int,
        (2 * one) as int,
    );
}

/// A position is the cursor's frame over the sample rate, up to three roundings.
pub proof fn law_position_is_the_cursor_over_the_rate(state: PlaybackState)
    requires
        state.spec_track() is Some,
        (state.spec_track()->0).sample_rate > 0,
    ensures
        state.position().is_level(),
        about(
            (size(state.position()) * (state.spec_track()->0).sample_rate) as int,
            (state.spec_cursor() * one_in_points(SINGLE)) as int,
            3,
        ),
{
    let track = state.spec_track()->0;
    let cursor = state.spec_cursor() as nat;
    lemma_count_over_rate_about(cursor, track.sample_rate as nat);
}

/// A count over a rate, up to three roundings.
pub(crate) proof fn lemma_count_over_rate_about(count: nat, rate: nat)
    requires
        count <= u64::MAX,
        0 < rate <= u32::MAX,
    ensures
        whole(count).over(whole(rate)).bits <= 0x5f80_0000,
        about(
            (size(whole(count).over(whole(rate))) * rate) as int,
            (count * one_in_points(SINGLE)) as int,
            3,
        ),
{
    let one = one_in_points(SINGLE);
    let c = whole(count);
    let w = whole(rate);
    let p = c.over(w);
    reveal(Single::spec_abs);
    lemma_one_is_normal();
    lemma_whole_level(count);
    lemma_whole_level(rate);
    lemma_rate_bound(rate);
    lemma_leading(SINGLE);
    lemma_power_magnitude(0, 0x3f80_0000, SINGLE);
    lemma_power_magnitude(32, 0x4f80_0000, SINGLE);
    vstd::arithmetic::power2::lemma2_to64();
    lemma_points_order(0x3f80_0000, w.bits as nat, SINGLE);
    lemma_points_order(w.bits as nat, 0x4f80_0000, SINGLE);
    let x = points(c.bits as nat, SINGLE);
    let y = points(w.bits as nat, SINGLE);
    assert(p.bits <= c.bits) by {
        reveal(Single::spec_over);
        lemma_zero_points(w.bits as nat, SINGLE);
        assert(x * one <= x * y) by (nonlinear_arith)
            requires
                one <= y,
        ;
        lemma_rounded_at_most(x * one, y, c.bits as nat, SINGLE);
    }
    if count == 0 {
        crate::single::lemma_whole_zero();
        crate::single::lemma_zero_over(w);
        lemma_zero_points(0, SINGLE);
        assert(0 * rate == 0 && 0 * one == 0);
        lemma_about_itself(0, 3);
    } else {
        lemma_whole_about(count);
        lemma_whole_about(rate);
        lemma_points_order(0x3f80_0000, c.bits as nat, SINGLE);
        let h = leading(SINGLE);
        lemma_pow2_adds(46, 32);
        assert(one >= h * 0x1_0000_0000) by {
            vstd::arithmetic::power2::lemma_pow2_adds(23, 32);
            vstd::arithmetic::power2::lemma_pow2_strictly_increases(55, 149);
        }
        assert(x * one >= h * y) by (nonlinear_arith)
            requires
                x >= one,
                one >= h * 0x1_0000_0000,
                y <= 0x1_0000_0000 * one,
        ;
        lemma_quotient_about(c, w);
        let q = points(p.bits as nat, SINGLE);
        // q y ~ x one, y ~ rate one, x ~ count one
        lemma_about_scale(y as int, (rate * one) as int, q as int, 1);
        lemma_about_scale(x as int, (count * one) as int, one as int, 1);
        assert(y * q == q * y && (rate * one) * q == (q * rate) * one) by (nonlinear_arith);
        lemma_about_chain(
            ((q * rate) * one) as int,
            (q * y) as int,
            (x * one) as int,
            1,
            1,
        );
        lemma_about_chain(
            ((q * rate) * one) as int,
            (x * one) as int,
            ((count * one) * one) as int,
            2,
            1,
        );
        lemma_about_cancel((q * rate) as int, (count * one) as int, one as int, 3);
    }
}

/// Skipping ahead never lands before where the position itself is sought, and skipping back never
/// behind it.
pub proof fn law_skip_keeps_its_direction(state: PlaybackState, delta: Single)
    ensures
        Single::zero().at_most(delta) ==> state.sought(state.position()) <= state.sought(
            state.position().plus(delta),
        ),
        delta.at_most(Single::zero()) ==> state.sought(state.position().plus(delta))
            <= state.sought(state.position()),
{
    let p = state.position();
    assert(p.bits <= 0x5f80_0000) by {
        if let Some(track) = state.spec_track() {
            if track.sample_rate > 0 {
                lemma_count_over_rate_about(state.spec_cursor() as nat, track.sample_rate as nat);
            }
        }
    }
    lemma_level_order(p, p);
    let q = p.plus(delta);
    if Single::zero().at_most(delta) {
        lemma_plus_not_below_first(p, delta);
        law_seek_keeps_the_order(state, p, q);
    }
    if delta.at_most(Single::zero()) {
        let back = delta.negated();
        assert(Single::zero().at_most(back) && back.negated() == delta) by {
            reveal(Single::spec_negated);
            reveal(Single::spec_at_most);
            lemma_zero_points(0, SINGLE);
            assert(back.parts().magnitude == delta.parts().magnitude);
        }
        crate::single::lemma_minus_not_above(p, back);
        assert(p.minus(back) == q) by {
            reveal(Single::spec_minus);
        }
        assert(!q.is_nan()) by {
            reveal(Single::spec_at_most);
            lemma_finite_plus(p, delta);
        }
        law_seek_keeps_the_order(state, q, p);
    }
}

/// A finite level and a number add up to a number.
proof fn lemma_finite_plus(a: Single, b: Single)
    requires
        a.bits < 0x7f80_0000,
        !b.is_nan(),
    ensures
        !a.plus(b).is_nan(),
{
    reveal(Single::spec_plus);
    if b.parts().magnitude < 0x7f80_0000 {
        let exact = a.value() + b.value();
        let m: nat = if exact >= 0 {
            exact as nat
        } else {
            (-exact) as nat
        };
        lemma_rounded_is_nearest(m, 1, SINGLE);
        let r = crate::ieee::rounded(m, 1, SINGLE);
        assert(a.plus(b).parts().magnitude == if exact == 0 { 0 } else { r });
    } else {
        assert(a.plus(b) == b);
    }
}

/// A finite level does not shrink when a number that is not below zero is added.
pub(crate) proof fn lemma_plus_not_below_first(a: Single, b: Single)
    requires
        a.bits < 0x7f80_0000,
        Single::zero().at_most(b),
    ensures
        a.at_most(a.plus(b)),
{
    lemma_not_below_zero(b);
    lemma_not_below_zero(a);
    crate::single::lemma_plus_not_below(a, b);
    lemma_not_below_zero(a.plus(b));
    reveal(Single::spec_plus);
    lemma_zero_points(0, SINGLE);
    lemma_zero_points(a.parts().magnitude as nat, SINGLE);
    lemma_zero_points(b.parts().magnitude as nat, SINGLE);
    let r = a.plus(b);
    if b.parts().magnitude < 0x7f80_0000 {
        let exact = points(a.parts().magnitude as nat, SINGLE) + points(
            b.parts().magnitude as nat,
            SINGLE,
        );
        crate::ieee::lemma_rounded_at_least(exact, 1, a.parts().magnitude as nat, SINGLE);
        lemma_rounded_is_nearest(exact, 1, SINGLE);
        if exact > 0 {
            assert(r.bits == crate::ieee::rounded(exact, 1, SINGLE));
            lemma_level_order(a, r);
        } else {
            reveal(Single::spec_at_most);
            assert(r.parts().magnitude == 0);
        }
    } else {
        assert(r == b);
        lemma_level_order(a, r);
    }
}

} // verus!
