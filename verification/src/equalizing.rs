//! What the equalizer's sliders do.
use crate::audio::{
    band_plan, law_least_eq_rate, top_frequency, EqProcessor, EqSettings, BAND_SHARE, EQ_BANDS_HZ,
};
use crate::bounds::lemma_points_order;
use crate::closeness::{
    about, lemma_about_cancel, lemma_about_chain, lemma_about_scale, lemma_one_is_normal,
    lemma_product_about, lemma_whole_about,
};
use crate::ieee::{leading, lemma_leading, lemma_power_magnitude, one_in_points, points, SINGLE};
use crate::levels::{grown, lemma_grown, size, ungrown};
use crate::seeking::lemma_rate_bound;
use crate::single::{lemma_level_order, lemma_times_at_most, lemma_whole_level, whole, Single};
use vstd::arithmetic::power2::{lemma_pow2_adds, lemma_pow2_pos, pow2};
use vstd::prelude::*;

verus! {

/// Settings are those that were asked for: the same switch, and in every band the same gain, or
/// one of the same value.
pub open spec fn as_asked(settings: EqSettings, asked: EqSettings) -> bool {
    &&& settings.spec_enabled() == asked.spec_enabled()
    &&& forall|i: int|
        0 <= i < EQ_BANDS_HZ@.len() ==> (#[trigger] settings.gains()[i] == asked.gains()[i]
            || settings.gains()[i].same_value(asked.gains()[i]))
}

/// Two settings are alike just where the switch agrees and the gains of every band are numbers of
/// equal value: moving any one slider makes them differ.
pub proof fn law_alike_settings_agree(a: EqSettings, b: EqSettings)
    ensures
        a.same_settings(b) <==> a.spec_enabled() == b.spec_enabled() && forall|i: int|
            0 <= i < EQ_BANDS_HZ@.len() ==> !(#[trigger] a.gains()[i]).is_nan()
                && !b.gains()[i].is_nan() && a.gains()[i].value() == b.gains()[i].value(),
        a.same_settings(b) ==> as_asked(a, b),
{
    reveal(Single::spec_same_value);
    assert forall|i: int| 0 <= i < 10 && a.same_settings(b) implies !(#[trigger] a.gains()[i]).is_nan()
        && !b.gains()[i].is_nan() && a.gains()[i].value() == b.gains()[i].value() by {
        assert(a.gains()[i].same_value(b.gains()[i]));
    }
}

/// Moving one slider alone, to a gain of another value, makes settings differ.
pub proof fn law_every_slider_counts(a: EqSettings, b: EqSettings, band: int)
    requires
        0 <= band < EQ_BANDS_HZ@.len(),
        a.gains()[band].value() != b.gains()[band].value(),
    ensures
        !a.same_settings(b),
{
    law_alike_settings_agree(a, b);
}

/// Every band is planned: with the gain of its own slider, at its own center or, where the sample
/// rate leaves no room for that, at the highest frequency it allows.
pub proof fn law_every_band_is_planned(sample_rate: u32, gains: Seq<Single>, i: int)
    requires
        sample_rate >= 3,
        0 <= i < EQ_BANDS_HZ@.len(),
    ensures
        band_plan(sample_rate, gains).len() == EQ_BANDS_HZ@.len(),
        band_plan(sample_rate, gains)[i].gain_db == gains[i],
        band_plan(sample_rate, gains)[i].frequency == if whole(EQ_BANDS_HZ@[i] as nat).at_most(
            top_frequency(sample_rate),
        ) {
            whole(EQ_BANDS_HZ@[i] as nat)
        } else {
            top_frequency(sample_rate)
        },
{
    law_least_eq_rate(sample_rate);
    let center = whole(EQ_BANDS_HZ@[i] as nat);
    let top = top_frequency(sample_rate);
    lemma_whole_level(EQ_BANDS_HZ@[i] as nat);
    lemma_level_order(Single::one(), top);
    lemma_level_order(center, Single::one());
    lemma_level_order(top, center);
    lemma_level_order(center, top);
}

/// The highest frequency that a sample rate allows is 0.45 of the rate, up to three roundings.
pub proof fn law_top_frequency_is_a_share(sample_rate: u32)
    requires
        sample_rate > 0,
    ensures
        about(
            (20 * size(top_frequency(sample_rate))) as int,
            (9 * sample_rate * one_in_points(SINGLE)) as int,
            3,
        ),
{
    let rate = sample_rate as nat;
    let one = one_in_points(SINGLE);
    let w = whole(rate);
    let share = Single { bits: BAND_SHARE };
    let p = w.times(share);
    reveal(Single::spec_abs);
    lemma_one_is_normal();
    lemma_whole_level(rate);
    lemma_rate_bound(rate);
    lemma_whole_about(rate);
    lemma_level_order(Single::zero(), share);
    lemma_times_at_most(w, share);
    lemma_leading(SINGLE);
    lemma_power_magnitude(0, 0x3f80_0000, SINGLE);
    vstd::arithmetic::power2::lemma2_to64();
    lemma_points_order(0x3f80_0000, w.bits as nat, SINGLE);
    lemma_share_points();
    let b = points(BAND_SHARE as nat, SINGLE);
    let y = points(w.bits as nat, SINGLE);
    let x = points(p.bits as nat, SINGLE);
    let h = leading(SINGLE);
    assert(y * b >= h * one) by (nonlinear_arith)
        requires
            y >= one,
            b >= h,
    ;
    lemma_product_about(w, share);
    // x one ~ y b, y ~ rate one, 20 b ~ 9 one
    lemma_about_scale(y as int, (rate * one) as int, b as int, 1);
    lemma_about_chain((x * one) as int, (y * b) as int, ((rate * one) * b) as int, 1, 1);
    assert((rate * one) * b == (rate * b) * one) by (nonlinear_arith);
    lemma_about_cancel(x as int, (rate * b) as int, one as int, 2);
    lemma_about_scale(x as int, (rate * b) as int, 20, 2);
    lemma_about_scale((20 * b) as int, (9 * one) as int, rate as int, 1);
    assert((rate * b) * 20 == (20 * b) * rate) by (nonlinear_arith);
    lemma_about_chain((x * 20) as int, ((20 * b) * rate) as int, ((9 * one) * rate) as int, 2, 1);
    assert((9 * one) * rate == 9 * sample_rate * one) by (nonlinear_arith)
        requires
            rate == sample_rate,
    ;
}

/// The share is 0.45, up to one rounding.
proof fn lemma_share_points()
    ensures
        about(
            (20 * points(BAND_SHARE as nat, SINGLE)) as int,
            (9 * one_in_points(SINGLE)) as int,
            1,
        ),
        points(BAND_SHARE as nat, SINGLE) >= leading(SINGLE),
{
    lemma_leading(SINGLE);
    let unit = pow2(124);
    lemma_pow2_pos(124);
    lemma_pow2_adds(124, 25);
    lemma_pow2_adds(124, 0);
    vstd::arithmetic::power2::lemma2_to64();
    assert(points(BAND_SHARE as nat, SINGLE) == 0xe6_6666 * unit);
    assert(one_in_points(SINGLE) == 0x200_0000 * unit);
    lemma_grown(0);
    assert(ungrown(1) == 0x100_0000 && grown(1) == 0x100_0001);
    let (a, b) = ((20 * (0xe6_6666 * unit)) as int, (9 * (0x200_0000 * unit)) as int);
    assert(a * 0x100_0000 <= b * 0x100_0001 && b * 0x100_0000 <= a * 0x100_0001)
        by (nonlinear_arith)
        requires
            a == 20 * (0xe6_6666 * unit),
            b == 9 * (0x200_0000 * unit),
            unit > 0,
    ;
}

/// Switched on, every channel that both the frame and the equalizer have goes through the
/// filters, and no other; switched off, none does.
pub proof fn law_every_channel_is_filtered(processor: EqProcessor, frame_len: usize, channel: int)
    requires
        0 <= channel,
    ensures
        channel < processor.spec_channels_to_filter(frame_len) <==> processor.spec_settings()
            .spec_enabled() && channel < frame_len && channel < processor.spec_channels(),
{
}

} // verus!
