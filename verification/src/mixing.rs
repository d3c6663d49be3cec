//! What mixing channels gives, and what a call for output takes off a track.
use crate::audio::{
    frames_for, frames_in, frames_to_play, lemma_frame_in, mono_of, remixed, PlaybackState,
};
use crate::bounds::{
    lemma_points_order, lemma_rounded_grows, lemma_rounded_shrinks, lemma_small_points,
};
use crate::ieee::{
    infinity, leading, lemma_leading, lemma_power_magnitude, lemma_rounded_at_most,
    lemma_rounded_is_nearest, one_in_points, points, rounded, SINGLE,
};
use crate::levels::{
    lemma_added_reach, lemma_mono_finite, lemma_quotient_size, lemma_sum_size, run_within, size,
};
use crate::parts::lemma_zero_points;
use crate::signal::{added, sum_start};
use crate::single::{is_finite, lemma_whole_level, whole, Single};
use crate::waveform::mono_frames;
use vstd::arithmetic::power2::lemma_pow2_pos;
use vstd::prelude::*;

verus! {

/// The exact sum of values, in points.
pub open spec fn exact_sum(values: Seq<Single>) -> int
    decreases values.len(),
{
    if values.len() == 0 {
        0
    } else {
        exact_sum(values.drop_last()) + values.last().value()
    }
}

/// The distance of two values.
pub open spec fn distance(a: int, b: int) -> int {
    if a < b {
        b - a
    } else {
        a - b
    }
}

/// Rounding takes a value no farther than one part in two to the power of 23, or half a step of
/// the smallest values.
pub(crate) proof fn lemma_rounding_distance(num: nat, den: nat)
    requires
        den > 0,
        rounded(num, den, SINGLE) < infinity(SINGLE),
    ensures
        distance((points(rounded(num, den, SINGLE), SINGLE) * den) as int, num as int) * 0x100_0000
            <= 2 * num + 0x100_0000 * den,
        den == 1 ==> distance(points(rounded(num, den, SINGLE), SINGLE) as int, num as int)
            * 0x100_0000 <= 2 * num,
{
    let q = rounded(num, den, SINGLE);
    let h = leading(SINGLE);
    lemma_leading(SINGLE);
    lemma_rounded_is_nearest(num, den, SINGLE);
    lemma_small_points(h, SINGLE);
    let x = points(q, SINGLE) * den;
    assert(2 * h == 0x100_0000);
    if q < h {
        lemma_small_points(q, SINGLE);
        lemma_small_points(q + 1, SINGLE);
        assert((q + (q + 1)) * den == 2 * (q * den) + den) by (nonlinear_arith);
        assert(x == q * den);
        if q == 0 {
            assert(0 * den == 0);
        }
        if q > 0 {
            lemma_small_points((q - 1) as nat, SINGLE);
            assert(((q - 1) + q) * den == 2 * (q * den) - den) by (nonlinear_arith);
        }
        if den == 1 {
            assert(q * den == q) by (nonlinear_arith)
                requires
                    den == 1,
            ;
            assert(q == num);
        }
    } else {
        lemma_rounded_shrinks(num, den, SINGLE);
        if num >= h * den || den == 1 {
            lemma_rounded_grows(num, den, SINGLE);
            assert(x * 0x100_0000 <= num * 0x100_0001);
            assert(num * 0x100_0000 <= x * 0x100_0001);
            assert(0x100_0000 * den >= 0) by (nonlinear_arith);
        } else {
            lemma_rounded_at_most(num, den, h, SINGLE);
            assert(q == h);
            assert(x == h * den);
            lemma_small_points((h - 1) as nat, SINGLE);
            assert(((h - 1) + h) * den == 2 * (h * den) - den) by (nonlinear_arith);
        }
        if den == 1 {
            assert(points(q, SINGLE) * den == points(q, SINGLE)) by (nonlinear_arith)
                requires
                    den == 1,
            ;
        }
    }
}

/// A sum's value is the exact sum, up to its rounding.
proof fn lemma_sum_distance(a: Single, b: Single)
    requires
        is_finite(a),
        is_finite(b),
        is_finite(a.plus(b)),
    ensures
        distance(a.plus(b).value(), a.value() + b.value()) * 0x100_0000 <= 2 * (size(a) + size(b)),
{
    reveal(Single::spec_plus);
    reveal(Single::spec_abs);
    let sum = a.value() + b.value();
    let exact: nat = if sum >= 0 {
        sum as nat
    } else {
        (-sum) as nat
    };
    let found = lemma_sum_size(a, b);
    lemma_zero_points(0, SINGLE);
    assert(a.parts().magnitude == a.abs().bits && b.parts().magnitude == b.abs().bits);
    assert(exact <= size(a) + size(b));
    lemma_rounded_is_nearest(exact, 1, SINGLE);
    let r = a.plus(b);
    if sum != 0 {
        let m = rounded(exact, 1, SINGLE);
        assert(r.parts().magnitude == m);
        lemma_rounding_distance(exact, 1);
        assert(r.value() == if sum > 0 { points(m, SINGLE) as int } else { -(points(m, SINGLE) as int) });
    } else {
        assert(r.parts().magnitude == 0);
    }
}

/// A run added up from a zero of either sign.
proof fn lemma_added_distance(values: Seq<Single>)
    requires
        values.len() <= 0x1_0000_0000_0000_0000,
        run_within(values, Single::one()),
    ensures
        is_finite(added(Single::zero(), values)),
        is_finite(added(sum_start(), values)),
        added(sum_start(), values).value() == added(Single::zero(), values).value(),
        distance(added(Single::zero(), values).value(), exact_sum(values)) * 0x100_0000 <= 4
            * values.len() * values.len() * one_in_points(SINGLE),
    decreases values.len(),
{
    let n = values.len() as int;
    let one = one_in_points(SINGLE) as int;
    lemma_zero_points(0, SINGLE);
    lemma_pow2_pos(149);
    if n == 0 {
        assert(4 * 0 * 0 * one == 0) by (nonlinear_arith);
    } else {
        let rest = values.drop_last();
        let v = values.last();
        assert(v == values[n - 1]);
        assert(run_within(rest, Single::one())) by {
            assert forall|i: int| 0 <= i < rest.len() implies is_finite(#[trigger] rest[i])
                && rest[i].abs().bits <= Single::one().bits by {
                assert(rest[i] == values[i]);
            }
        }
        lemma_added_distance(rest);
        lemma_added_reach(rest, Single::one());
        lemma_added_reach(values, Single::one());
        let a = added(Single::zero(), rest);
        let b = added(sum_start(), rest);
        lemma_sum_distance(a, v);
        lemma_sum_of_equals(a, b, v);
        lemma_leading(SINGLE);
        lemma_power_magnitude(0, 0x3f80_0000, SINGLE);
        vstd::arithmetic::power2::lemma2_to64();
        lemma_points_order(v.abs().bits as nat, 0x3f80_0000, SINGLE);
        let k = n - 1;
        let e = exact_sum(rest);
        let t = points(Single::one().bits as nat, SINGLE) as int;
        assert(size(a) <= 2 * k * t);
        assert(2 * (2 * k * t + one) + 4 * k * k * one <= 4 * n * n * one) by (nonlinear_arith)
            requires
                n == k + 1,
                k >= 0,
                t == one,
                one > 0,
        ;
        assert(distance(a.plus(v).value(), e + v.value()) <= distance(
            a.plus(v).value(),
            a.value() + v.value(),
        ) + distance(a.value(), e));
    }
}

/// Sums of values that are equal are equal, whatever the sign of a zero.
proof fn lemma_sum_of_equals(a: Single, b: Single, v: Single)
    requires
        is_finite(a),
        is_finite(b),
        a.value() == b.value(),
        is_finite(v),
        is_finite(a.plus(v)),
    ensures
        is_finite(b.plus(v)),
        a.plus(v).value() == b.plus(v).value(),
{
    reveal(Single::spec_plus);
    lemma_zero_points(0, SINGLE);
    let sum = a.value() + v.value();
    let exact: nat = if sum >= 0 {
        sum as nat
    } else {
        (-sum) as nat
    };
    lemma_rounded_is_nearest(exact, 1, SINGLE);
    let m = rounded(exact, 1, SINGLE);
    if sum == 0 {
        assert(a.plus(v).parts().magnitude == 0);
        assert(b.plus(v).parts().magnitude == 0);
    } else {
        assert(a.plus(v).parts().magnitude == m);
        assert(b.plus(v).parts().magnitude == m);
    }
}

/// A value is the average of others, up to the rounding of the sum and of the quotient: times
/// their number it lies within a few parts in two to the power of 24 of their sum.
pub open spec fn is_average(mean: Single, values: Seq<Single>) -> bool {
    let n = values.len() as int;
    &&& is_finite(mean)
    &&& distance(n * mean.value(), exact_sum(values)) * 0x100_0000 <= 18 * n * n * one_in_points(
        SINGLE,
    )
}

/// The mono mix of a frame is the average of its channels, whatever their signs and their number.
pub proof fn law_mono_is_the_average(frame: Seq<Single>)
    requires
        0 < frame.len() <= 0x1_0000_0000_0000_0000,
        run_within(frame, Single::one()),
    ensures
        is_average(added(Single::zero(), frame).over(whole(frame.len())), frame),
        is_average(added(sum_start(), frame).over(whole(frame.len())), frame),
{
    let s = added(Single::zero(), frame);
    let t = added(sum_start(), frame);
    let w = whole(frame.len());
    lemma_added_distance(frame);
    lemma_quotient_of_equals(s, t, w, frame.len());
    lemma_average(frame);
}

/// Quotients of values that are equal are equal, whatever the sign of a zero.
proof fn lemma_quotient_of_equals(a: Single, b: Single, w: Single, n: nat)
    requires
        is_finite(a),
        is_finite(b),
        a.value() == b.value(),
        0 < n <= 0x1_0000_0000_0000_0000,
        w == whole(n),
    ensures
        a.over(w).value() == b.over(w).value(),
        is_finite(a.over(w)) ==> is_finite(b.over(w)),
{
    reveal(Single::spec_over);
    lemma_whole_level(n);
    lemma_zero_points(0, SINGLE);
    lemma_zero_points(w.bits as nat, SINGLE);
    lemma_zero_points(a.parts().magnitude as nat, SINGLE);
    lemma_zero_points(b.parts().magnitude as nat, SINGLE);
    let x = points(a.parts().magnitude as nat, SINGLE);
    let one = one_in_points(SINGLE);
    let den = points(w.bits as nat, SINGLE);
    assert(points(b.parts().magnitude as nat, SINGLE) == x);
    lemma_rounded_is_nearest(x * one, den, SINGLE);
    let m = rounded(x * one, den, SINGLE);
    assert(a.over(w).parts().magnitude == m && b.over(w).parts().magnitude == m);
    if x == 0 {
        assert(0 * one == 0 && 0 * den == 0);
        lemma_rounded_at_most(0, den, 0, SINGLE);
    }
}

/// The distance of the mono mix, times the number of channels, from their sum.
proof fn lemma_average(frame: Seq<Single>)
    requires
        0 < frame.len() <= 0x1_0000_0000_0000_0000,
        run_within(frame, Single::one()),
    ensures
        is_average(added(Single::zero(), frame).over(whole(frame.len())), frame),
{
    let n = frame.len();
    let one = one_in_points(SINGLE);
    let s = added(Single::zero(), frame);
    let w = whole(n);
    let m = s.over(w);
    let d = 0x100_0000int;
    lemma_added_distance(frame);
    lemma_added_reach(frame, Single::one());
    lemma_mono_finite(frame, Single::one());
    lemma_quotient_size(s, n);
    lemma_pow2_pos(149);
    lemma_leading(SINGLE);
    lemma_power_magnitude(0, 0x3f80_0000, SINGLE);
    lemma_power_magnitude(2, 0x4080_0000, SINGLE);
    vstd::arithmetic::power2::lemma2_to64();
    lemma_points_order(m.abs().bits as nat, 0x4080_0000, SINGLE);
    crate::closeness::lemma_one_is_normal();
    let den = points(w.bits as nat, SINGLE);
    let x = size(s);
    let q = size(m);
    lemma_rounding_distance(x * one, den);
    // The number of channels as a single.
    assert(distance(den as int, (n * one) as int) * d <= 2 * (n * one)) by {
        reveal(whole);
        lemma_whole_level(n);
        lemma_rounded_is_nearest(n * one, 1, SINGLE);
        lemma_rounding_distance(n * one, 1);
    }
    assert(den <= 2 * (n * one));
    lemma_average_arithmetic(
        n as int,
        one as int,
        x as int,
        q as int,
        den as int,
    );
    // With the sign.
    assert(m.value() == if s.parts().negative { -(q as int) } else { q as int } && s.value()
        == if s.parts().negative { -(x as int) } else { x as int }) by {
        reveal(Single::spec_over);
        reveal(Single::spec_abs);
        lemma_whole_level(n);
        lemma_zero_points(w.bits as nat, SINGLE);
        assert(s.parts().magnitude == s.abs().bits && m.parts().magnitude == m.abs().bits);
        lemma_rounded_is_nearest(x * one, den, SINGLE);
    }
    let k = n as int;
    assert(distance(k * m.value(), s.value()) == distance(k * q, x as int)) by {
        if s.parts().negative {
            assert(k * (-(q as int)) == -(k * q)) by (nonlinear_arith);
        }
    }
    assert(distance(k * m.value(), exact_sum(frame)) <= distance(k * m.value(), s.value())
        + distance(s.value(), exact_sum(frame)));
    assert(4 * k * k * one + 14 * k * one <= 18 * k * k * one) by (nonlinear_arith)
        requires
            k >= 1,
            one > 0,
    ;
}

/// The arithmetic behind [`lemma_average`].
proof fn lemma_average_arithmetic(n: int, one: int, x: int, q: int, den: int)
    requires
        n >= 1,
        one >= 0x100_0000,
        0 <= x <= 2 * n * one,
        0 <= q <= 4 * one,
        0 < den <= 2 * (n * one),
        distance(q * den, x * one) * 0x100_0000 <= 2 * (x * one) + 0x100_0000 * den,
        distance(den, n * one) * 0x100_0000 <= 2 * (n * one),
    ensures
        distance(n * q, x) * 0x100_0000 <= 14 * n * one,
{
    let d = 0x100_0000int;
    let a = distance(q * den, x * one);
    let b = distance(den, n * one);
    let c = distance((n * q) * one, x * one);
    assert((n * q) * one == q * (n * one)) by (nonlinear_arith);
    assert(distance(q * (n * one), q * den) == q * b) by (nonlinear_arith)
        requires
            b == if den < n * one { n * one - den } else { den - n * one },
            q >= 0,
    ;
    assert(c <= q * b + a);
    let y = n * one;
    assert(q * b * d <= (4 * one) * (2 * y)) by (nonlinear_arith)
        requires
            b * d <= 2 * y,
            0 <= q <= 4 * one,
            b >= 0,
            y >= 0,
    ;
    assert(2 * (x * one) <= 4 * (y * one)) by (nonlinear_arith)
        requires
            x <= 2 * n * one,
            y == n * one,
            one > 0,
    ;
    assert(d * den <= 2 * (y * one)) by (nonlinear_arith)
        requires
            0 < den <= 2 * y,
            0 < d <= one,
    ;
    assert((q * b + a) * d == q * b * d + a * d) by (nonlinear_arith);
    assert((4 * one) * (2 * y) == 8 * (y * one)) by (nonlinear_arith);
    assert(c * d <= 14 * (y * one)) by (nonlinear_arith)
        requires
            c <= q * b + a,
            (q * b + a) * d == q * b * d + a * d,
            q * b * d <= 8 * (y * one),
            a * d <= 4 * (y * one) + 2 * (y * one),
            d > 0,
    ;
    let z = distance(n * q, x);
    assert(c == z * one) by (nonlinear_arith)
        requires
            c == if (n * q) * one < x * one { x * one - (n * q) * one } else { (n * q) * one - x * one },
            z == if n * q < x { x - n * q } else { n * q - x },
            one > 0,
    ;
    assert(z * d <= 14 * n * one) by (nonlinear_arith)
        requires
            (z * one) * d <= 14 * ((n * one) * one),
            one > 0,
    ;
}

/// The mono mix of each frame of a track is the average of that frame's channels.
pub proof fn law_mix_averages_each_frame(samples: Seq<Single>, channels: usize, frame: int)
    requires
        channels > 0,
        run_within(samples, Single::one()),
        0 <= frame < frames_in(samples.len(), channels),
    ensures
        mono_frames(samples, channels).len() == frames_in(samples.len(), channels),
        is_average(
            mono_frames(samples, channels)[frame],
            samples.subrange(frame * channels, frame * channels + channels),
        ),
        is_average(
            mono_of(samples.subrange(frame * channels, frame * channels + channels), channels),
            samples.subrange(frame * channels, frame * channels + channels),
        ),
{
    lemma_frame_in(frame, samples.len() as int, channels as int);
    let run = samples.subrange(frame * channels, frame * channels + channels);
    assert(run_within(run, Single::one())) by {
        assert forall|i: int| 0 <= i < run.len() implies is_finite(#[trigger] run[i])
            && run[i].abs().bits <= Single::one().bits by {
            assert(run[i] == samples[frame * channels + i]);
        }
    }
    law_mono_is_the_average(run);
}

/// Remixing to one channel averages each frame.
pub proof fn law_remix_to_mono_averages(samples: Seq<Single>, channels: usize, frame: int)
    requires
        channels > 1,
        run_within(samples, Single::one()),
        0 <= frame < frames_in(samples.len(), channels),
    ensures
        remixed(samples, channels, 1).len() == frames_in(samples.len(), channels),
        is_average(
            remixed(samples, channels, 1)[frame],
            samples.subrange(frame * channels, frame * channels + channels),
        ),
{
    law_mix_averages_each_frame(samples, channels, frame);
    lemma_frame_in(frame, samples.len() as int, channels as int);
    let run = samples.subrange(frame * channels, frame * channels + channels);
    assert forall|i: int| 0 <= i < run.len() implies is_finite(#[trigger] run[i])
        && run[i].abs().bits <= Single::one().bits by {
        assert(run[i] == samples[frame * channels + i]);
    }
    law_mono_is_the_average(run);
    let count = frames_in(samples.len(), channels);
    assert(count * 1 == count);
    assert(frame / 1 == frame && frame % 1 == 0);
}

/// Remixing to several channels keeps every channel that there is a place for, in its frame and
/// in its place, and repeats the last one where there are more places.
pub proof fn law_remix_keeps_every_channel(
    samples: Seq<Single>,
    input_channels: usize,
    output_channels: usize,
    frame: int,
    channel: int,
)
    requires
        input_channels > 0,
        output_channels > 1 || input_channels == output_channels,
        0 <= frame < frames_in(samples.len(), input_channels),
        0 <= channel < output_channels,
    ensures
        remixed(samples, input_channels, output_channels)[frame * output_channels + channel]
            == samples[frame * input_channels + if channel < input_channels {
            channel
        } else {
            input_channels - 1
        }],
        0 <= frame * output_channels + channel < remixed(
            samples,
            input_channels,
            output_channels,
        ).len(),
{
    let frames = frames_in(samples.len(), input_channels) as int;
    let i = frame * output_channels + channel;
    lemma_frame_in(frame, samples.len() as int, input_channels as int);
    if input_channels != output_channels {
        vstd::arithmetic::div_mod::lemma_fundamental_div_mod_converse(
            i,
            output_channels as int,
            frame,
            channel,
        );
        assert(0 <= i < frames * output_channels) by (nonlinear_arith)
            requires
                i == frame * output_channels + channel,
                0 <= frame,
                frame + 1 <= frames,
                0 <= channel < output_channels,
        ;
    }
}

/// A call for output takes as many frames as cover it, and not one more; fewer only where the
/// track ends.
pub proof fn law_output_is_covered(playback: PlaybackState, output_len: nat, channels: usize)
    requires
        channels > 0,
        playback.spec_track() is Some,
        playback.spec_cursor() <= (playback.spec_track()->0).frames(),
    ensures
        ({
            let count = frames_to_play(playback, output_len, channels);
            let left = (playback.spec_track()->0).frames() - playback.spec_cursor();
            &&& count <= left
            &&& count < left ==> output_len <= count * channels
            &&& count > 0 ==> (count - 1) * channels < output_len
            &&& output_len <= frames_for(output_len, channels) * channels
        }),
{
    let wanted = frames_for(output_len, channels) as int;
    if output_len > 0 {
        vstd::arithmetic::div_mod::lemma_fundamental_div_mod(output_len - 1, channels as int);
        let q = (output_len - 1) / (channels as int);
        assert(q * channels <= output_len - 1 && output_len <= (q + 1) * channels)
            by (nonlinear_arith)
            requires
                output_len - 1 == channels * q + (output_len - 1) % (channels as int),
                0 <= (output_len - 1) % (channels as int) < channels,
        ;
        let count = frames_to_play(playback, output_len, channels) as int;
        if count > 0 {
            assert((count - 1) * channels <= q * channels) by (nonlinear_arith)
                requires
                    count - 1 <= q,
                    channels > 0,
            ;
        }
    } else {
        assert(0 * channels == 0);
    }
}

} // verus!
