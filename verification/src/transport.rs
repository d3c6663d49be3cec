//! The transport's controls: seeking by the waveform, jumps, and what is enabled.
use crate::audio::TransportState;
use crate::bounds::{lemma_points_order, lemma_representable, lemma_small_points};
use crate::closeness::{
    about, lemma_about_cancel, lemma_about_chain, lemma_about_scale, lemma_one_is_normal,
    lemma_product_about, lemma_quotient_about,
};
use crate::columns::is_spectral;
use crate::frequencies::lemma_small_whole;
use crate::ieee::{
    leading, lemma_leading, lemma_power_magnitude, lemma_rounded_at_least, lemma_rounded_at_most,
    lemma_rounded_is_nearest, lemma_rounded_points, one_in_points, points, rounded, SINGLE,
};
use crate::levels::size;
use crate::metadata::{text_of, TrackInfo};
use crate::output::{lemma_difference_reversed, lemma_grown_once, lemma_one_is_large};
use crate::parts::lemma_zero_points;
use crate::seeking::lemma_seconds_bound;
use crate::shares::{is_share_of, lemma_difference, lemma_share_about, lemma_times_one};
use crate::single::{
    is_finite, lemma_level_order, lemma_negated_over, lemma_negated_times, lemma_times_at_most,
    lemma_whole_level, signed_whole, whole, Single, HALF,
};
use crate::text::{
    append_decimal, decimal, is_core_of, law_decimal_spells_the_number,
    law_trimming_takes_white_space_only, spelled, trim, trimmed,
};
use crate::time::Duration;
use crate::waveform::{to_unit, unit, WaveformParams};
use vstd::arithmetic::power2::{
    lemma_pow2_adds, lemma_pow2_pos, lemma_pow2_strictly_increases, pow2,
};
use vstd::prelude::*;

verus! {

/// Where a click on the waveform seeks to.
pub open spec fn seek_position(x: Single, left: Single, width: Single, duration: Duration) -> Single {
    duration.as_seconds().times(unit(x.minus(left).over(width)))
}

/// Where a click on the waveform seeks to; nowhere while there is no length.
pub fn seek_target(x: Single, left: Single, width: Single, duration: Duration) -> (r: Option<
    Single,
>)
    ensures
        r == if duration.seconds == 0 && duration.nanos == 0 {
            None::<Single>
        } else {
            Some(seek_position(x, left, width, duration))
        },
{
    if duration.is_zero() {
        None
    } else {
        Some(duration.as_seconds().times(to_unit(x.minus(left).over(width))))
    }
}

/// What is left free before the controls so that they stand in the middle.
pub fn controls_offset(available: Single, content: Single) -> (r: Single)
    ensures
        r == available.minus(content).times(Single { bits: HALF }).max(Single::zero()),
        stands_in_the_middle(r, available, content),
{
    proof {
        lemma_stands_in_the_middle(available, content);
    }
    available.minus(content).times(Single::from_bits(HALF)).max(Single::zero())
}

/// A margin leaves as much free on one side of some content as on the other, up to two roundings,
/// and nothing where the content leaves no room. Of widths that are not those of a screen nothing
/// is said.
pub open spec fn stands_in_the_middle(margin: Single, available: Single, content: Single) -> bool {
    let room = available.value() - content.value();
    available.bits <= 0x5f80_0000 && content.bits <= 0x5f80_0000 ==> {
        &&& room <= 0 ==> margin.value() == 0
        &&& room * 0x1_0000_0000 >= one_in_points(SINGLE) ==> about(
            (2 * size(margin)) as int,
            room,
            2,
        )
    }
}

proof fn lemma_stands_in_the_middle(available: Single, content: Single)
    ensures
        stands_in_the_middle(
            available.minus(content).times(Single { bits: HALF }).max(Single::zero()),
            available,
            content,
        ),
{
    let half = Single { bits: HALF };
    let way = available.minus(content);
    let part = way.times(half);
    let margin = part.max(Single::zero());
    let room = available.value() - content.value();
    let one = one_in_points(SINGLE);
    reveal(Single::spec_abs);
    lemma_leading(SINGLE);
    lemma_pow2_pos(149);
    lemma_zero_points(0, SINGLE);
    lemma_power_magnitude(64, 0x5f80_0000, SINGLE);
    vstd::arithmetic::power2::lemma2_to64();
    if available.bits <= 0x5f80_0000 && content.bits <= 0x5f80_0000 {
        lemma_points_order(available.bits as nat, 0x5f80_0000, SINGLE);
        if room == 0 {
            assert(way.parts().magnitude == 0) by {
                reveal(Single::spec_minus);
                reveal(Single::spec_plus);
                reveal(Single::spec_negated);
            }
            reveal(Single::spec_times);
            let y = points(HALF as nat, SINGLE);
            assert(0 * y == 0);
            lemma_rounded_at_most(0, one, 0, SINGLE);
            assert(part.parts().magnitude == 0);
        } else if room < 0 {
            lemma_difference_reversed(available, content);
            let back = content.minus(available);
            lemma_difference(content, available);
            lemma_points_order(content.bits as nat, 0x5f80_0000, SINGLE);
            lemma_rounded_at_most((-room) as nat, 1, 0x5f80_0000, SINGLE);
            lemma_negated_times(back, half);
            lemma_times_at_most(back, half);
            reveal(Single::spec_negated);
            reveal(Single::spec_less);
            let size = back.times(half);
            assert(part == size.negated());
            assert(part.parts().magnitude == size.bits && part.parts().negative);
            lemma_zero_points(size.bits as nat, SINGLE);
        } else if room * 0x1_0000_0000 >= one {
            lemma_difference(available, content);
            lemma_rounded_at_most(room as nat, 1, 0x5f80_0000, SINGLE);
            let p = points(way.bits as nat, SINGLE);
            lemma_grown_once(p as int, room);
            lemma_one_is_large();
            let h = leading(SINGLE);
            lemma_pow2_adds(1, 148);
            lemma_pow2_adds(23, 125);
            let y = points(HALF as nat, SINGLE);
            assert(y == 0x80_0000 * pow2(125));
            assert(2 * y == one);
            assert(p * y >= h * one) by (nonlinear_arith)
                requires
                    2 * p >= room,
                    room * 0x1_0000_0000 >= one,
                    2 * y == one,
                    one >= h * 0x4_0000_0000_0000,
            ;
            lemma_times_at_most(way, half);
            lemma_product_about(way, half);
            let q = points(part.bits as nat, SINGLE);
            lemma_about_scale((q * one) as int, (p * y) as int, 2, 1);
            assert((q * one) * 2 == (2 * q) * one && (p * y) * 2 == p * one) by (nonlinear_arith)
                requires
                    2 * y == one,
            ;
            lemma_about_cancel((2 * q) as int, p as int, one as int, 1);
            lemma_about_chain((2 * q) as int, p as int, room, 1, 1);
            lemma_level_order(part, Single::zero());
            assert(margin == part);
        }
    }
}

/// A finite value above one, in bits.
proof fn lemma_above_one(a: Single)
    ensures
        is_tempo(a) <==> is_finite(a) && a.value() > one_in_points(SINGLE),
{
    reveal(Single::spec_less);
    lemma_leading(SINGLE);
    lemma_power_magnitude(0, 0x3f80_0000, SINGLE);
    vstd::arithmetic::power2::lemma2_to64();
    lemma_pow2_pos(149);
}

/// The tempo to read for bar jumps: only that of a track that Traktor has analyzed.
pub open spec fn tempo_text(info: TrackInfo) -> Option<Seq<char>> {
    if info.traktor_analyzed {
        match text_of(info.bpm) {
            Some(bpm) => Some(trimmed(bpm)),
            None => None,
        }
    } else {
        None
    }
}

/// The tempo to read for bar jumps, without white space around it.
pub fn tempo_to_parse(info: &TrackInfo) -> (r: Option<String>)
    ensures
        text_of(r) == tempo_text(*info),
        r is Some <==> info.traktor_analyzed && info.bpm is Some,
        r matches Some(tempo) ==> is_core_of(tempo@, (info.bpm->0)@),
{
    proof {
        if info.bpm is Some {
            law_trimming_takes_white_space_only((info.bpm->0)@);
        }
    }
    if info.traktor_analyzed {
        match &info.bpm {
            Some(bpm) => Some(trim(bpm.as_str())),
            None => None,
        }
    } else {
        None
    }
}

/// A tempo that bars can be counted by: finite, and above one beat a minute.
pub open spec fn is_tempo(bpm: Single) -> bool {
    Single::one().less(bpm) && bpm.bits < 0x7f80_0000
}

/// The tempo that was read, if bars can be counted by it.
pub fn parse_bpm(parsed: Option<Single>) -> (r: Option<Single>)
    ensures
        r == match parsed {
            Some(bpm) => if is_tempo(bpm) {
                Some(bpm)
            } else {
                None
            },
            None => None,
        },
        r matches Some(bpm) ==> parsed == Some(bpm) && is_finite(bpm) && bpm.value() > one_in_points(
            SINGLE,
        ),
        parsed matches Some(bpm) ==> (is_finite(bpm) && bpm.value() > one_in_points(SINGLE)
            ==> r == Some(bpm)),
{
    proof {
        if let Some(bpm) = parsed {
            lemma_above_one(bpm);
        }
    }
    match parsed {
        Some(bpm) => {
            if Single::one().less(bpm) && bpm.bits < 0x7f80_0000 {
                Some(bpm)
            } else {
                None
            }
        },
        None => None,
    }
}

/// Bits of 4: beats in a bar.
pub const BEATS_IN_BAR: u32 = 0x4080_0000;

/// Bits of 60: seconds in a minute.
pub const SECONDS_IN_MINUTE: u32 = 0x4270_0000;

/// Bits of 10: the seconds of a plain jump.
pub const PLAIN_JUMP: u32 = 0x4120_0000;

/// How long a number of bars lasts; negative for bars to go back.
pub open spec fn bars_long(bars: int, bpm: Single) -> Single {
    signed_whole(bars).times(Single { bits: BEATS_IN_BAR }).times(
        Single { bits: SECONDS_IN_MINUTE },
    ).over(bpm)
}

/// How long a number of bars lasts.
pub fn bars_to_seconds(bars: i32, bpm: Single) -> (r: Single)
    ensures
        r == bars_long(bars as int, bpm),
{
    Single::of_int(bars).times(Single::from_bits(BEATS_IN_BAR)).times(
        Single::from_bits(SECONDS_IN_MINUTE),
    ).over(bpm)
}

/// A jump button.
#[derive(Debug)]
pub struct Jump {
    /// What stands on it.
    pub label: String,
    /// The seconds it jumps by.
    pub seconds: Single,
    /// The bars it jumps by, either way; none for a plain jump.
    pub bars: Option<u32>,
}

/// The bars that the buttons jump by, from left to right: back before the play button, and
/// forward after it.
pub open spec fn bar_set(leading: bool) -> Seq<int> {
    if leading {
        seq![-32int, -16, -8, -4]
    } else {
        seq![4int, 8, 16, 32]
    }
}

/// A number of bars with its sign.
pub open spec fn bar_label(bars: int) -> Seq<char> {
    if bars > 0 {
        "+"@ + decimal(bars as nat)
    } else {
        "-"@ + decimal((-bars) as nat)
    }
}

/// A button jumps by a number of bars at a tempo.
pub open spec fn is_bar_jump(jump: Jump, bars: int, bpm: Single) -> bool {
    &&& jump.label@ == bar_label(bars)
    &&& jump.seconds == bars_long(bars, bpm)
    &&& jump.bars == Some(
        (if bars > 0 {
            bars
        } else {
            -bars
        }) as u32,
    )
}

/// A button jumps by ten seconds.
pub open spec fn is_plain_jump(jump: Jump, leading: bool) -> bool {
    let ten = Single { bits: PLAIN_JUMP };
    &&& jump.label@ == if leading {
        "-10"@
    } else {
        "+10"@
    }
    &&& jump.seconds == if leading {
        ten.negated()
    } else {
        ten
    }
    &&& jump.bars is None
}

/// A button that jumps by a number of bars.
fn bar_jump(bars: i32, bpm: Single) -> (r: Jump)
    requires
        -1000 < bars < 1000,
        bars != 0,
    ensures
        is_bar_jump(r, bars as int, bpm),
{
    let (mut label, count) = if bars > 0 {
        ("+".to_owned(), bars as u32)
    } else {
        ("-".to_owned(), (0 - bars) as u32)
    };
    append_decimal(&mut label, count as u64);
    Jump { label, seconds: bars_to_seconds(bars, bpm), bars: Some(count) }
}

/// A plain jump does what stands on it.
proof fn lemma_plain_jump(jump: Jump, leading: bool)
    requires
        is_plain_jump(jump, leading),
    ensures
        spelled(jump.label@.skip(1)) * one_in_points(SINGLE) == size(jump.seconds),
        leading ==> jump.label@[0] == '-' && jump.seconds.less(Single::zero()),
        !leading ==> jump.label@[0] == '+' && Single::zero().less(jump.seconds),
{
    reveal_strlit("-10");
    reveal_strlit("+10");
    let digits = jump.label@.skip(1);
    assert(digits =~= seq!['1', '0']);
    assert(digits.drop_last() =~= seq!['1']);
    assert(digits.drop_last().drop_last() =~= Seq::<char>::empty());
    assert(spelled(Seq::<char>::empty()) == 0);
    assert(spelled(digits.drop_last()) == 1);
    assert(spelled(digits) == 10);
    reveal(Single::spec_abs);
    reveal(Single::spec_negated);
    reveal(Single::spec_less);
    lemma_leading(SINGLE);
    lemma_zero_points(0, SINGLE);
    lemma_pow2_pos(129);
    lemma_pow2_adds(129, 20);
    vstd::arithmetic::power2::lemma2_to64();
    let u = pow2(129);
    let ten = points(PLAIN_JUMP as nat, SINGLE);
    assert(ten == 0xa0_0000 * u);
    assert(one_in_points(SINGLE) == u * 0x10_0000);
    assert(0xa0_0000 * u == 10 * (u * 0x10_0000)) by (nonlinear_arith);
    assert(jump.seconds.parts().magnitude == PLAIN_JUMP);
}

/// The jump buttons before the play button, or those after it: by bars where there is a tempo,
/// and else by ten seconds.
pub fn jump_buttons(tempo: Option<Single>, leading: bool) -> (r: Vec<Jump>)
    ensures
        match tempo {
            Some(bpm) => r@.len() == 4 && forall|i: int|
                0 <= i < 4 ==> is_bar_jump(#[trigger] r@[i], bar_set(leading)[i], bpm),
            None => r@.len() == 1 && is_plain_jump(r@[0], leading),
        },
        tempo matches Some(bpm) ==> (leading ==> does_what_it_says(r@[0], 32, true, bpm)
            && does_what_it_says(r@[1], 16, true, bpm) && does_what_it_says(r@[2], 8, true, bpm)
            && does_what_it_says(r@[3], 4, true, bpm)),
        tempo matches Some(bpm) ==> (!leading ==> does_what_it_says(r@[0], 4, false, bpm)
            && does_what_it_says(r@[1], 8, false, bpm) && does_what_it_says(r@[2], 16, false, bpm)
            && does_what_it_says(r@[3], 32, false, bpm)),
        tempo is None ==> spelled(r@[0].label@.skip(1)) * one_in_points(SINGLE) == size(
            r@[0].seconds,
        ) && (leading ==> r@[0].label@[0] == '-' && r@[0].seconds.less(Single::zero())) && (
        !leading ==> r@[0].label@[0] == '+' && Single::zero().less(r@[0].seconds)),
{
    let mut jumps: Vec<Jump> = Vec::new();
    match tempo {
        Some(bpm) => {
            if leading {
                jumps.push(bar_jump(-32, bpm));
                jumps.push(bar_jump(-16, bpm));
                jumps.push(bar_jump(-8, bpm));
                jumps.push(bar_jump(-4, bpm));
            } else {
                jumps.push(bar_jump(4, bpm));
                jumps.push(bar_jump(8, bpm));
                jumps.push(bar_jump(16, bpm));
                jumps.push(bar_jump(32, bpm));
            }
        },
        None => {
            let ten = Single::from_bits(PLAIN_JUMP);
            if leading {
                jumps.push(Jump { label: "-10".to_owned(), seconds: ten.negated(), bars: None });
            } else {
                jumps.push(Jump { label: "+10".to_owned(), seconds: ten, bars: None });
            }
        },
    }
    proof {
        if tempo is None {
            lemma_plain_jump(jumps@[0], leading);
        }
        if let Some(bpm) = tempo {
            let bars = bar_set(leading);
            lemma_jump_does_what_it_says(jumps@[0], bars[0], bpm);
            lemma_jump_does_what_it_says(jumps@[1], bars[1], bpm);
            lemma_jump_does_what_it_says(jumps@[2], bars[2], bpm);
            lemma_jump_does_what_it_says(jumps@[3], bars[3], bpm);
        }
    }
    jumps
}

/// Bars are only jumped, and bands only colored, in a track that Traktor has analyzed.
pub proof fn law_extras_need_traktor(info: TrackInfo, params: WaveformParams)
    requires
        !info.traktor_analyzed,
    ensures
        tempo_text(info) is None,
        !is_spectral(params, info.traktor_analyzed),
{
}

/// The same number of bars back and forth at a tempo are the same length of time.
pub proof fn law_jumps_are_even(bars: nat, bpm: Single)
    requires
        bars > 0,
        is_tempo(bpm),
    ensures
        bars_long(-(bars as int), bpm) == bars_long(bars as int, bpm).negated(),
{
    let plus = whole(bars);
    let four = Single { bits: BEATS_IN_BAR };
    let sixty = Single { bits: SECONDS_IN_MINUTE };
    lemma_whole_level(bars);
    lemma_level_order(Single::one(), bpm);
    lemma_negated_times(plus, four);
    lemma_negated_times(plus.times(four), sixty);
    lemma_negated_over(plus.times(four).times(sixty), bpm);
}

/// A product of whole numbers that the significand can hold is not rounded.
pub(crate) proof fn lemma_whole_product(a: Single, b: Single, m: nat, n: nat)
    requires
        a.bits < 0x7f80_0000,
        b.bits < 0x7f80_0000,
        points(a.bits as nat, SINGLE) == m * one_in_points(SINGLE),
        points(b.bits as nat, SINGLE) == n * one_in_points(SINGLE),
        m * n < 0x100_0000,
    ensures
        points(a.times(b).bits as nat, SINGLE) == (m * n) * one_in_points(SINGLE),
        a.times(b).bits < 0x7f80_0000,
{
    reveal(Single::spec_times);
    let one = one_in_points(SINGLE);
    lemma_pow2_pos(149);
    lemma_leading(SINGLE);
    let mag = lemma_representable(m * n, 149, SINGLE);
    lemma_rounded_points(mag, one, SINGLE);
    assert((m * one) * (n * one) == ((m * n) * one) * one) by (nonlinear_arith);
}

/// Beats and seconds in points.
proof fn lemma_time_units()
    ensures
        points(BEATS_IN_BAR as nat, SINGLE) == 4 * one_in_points(SINGLE),
        points(SECONDS_IN_MINUTE as nat, SINGLE) == 60 * one_in_points(SINGLE),
{
    lemma_leading(SINGLE);
    let unit = pow2(128);
    lemma_pow2_adds(128, 21);
    lemma_pow2_adds(128, 3);
    vstd::arithmetic::power2::lemma2_to64();
    assert(points(BEATS_IN_BAR as nat, SINGLE) == 0x80_0000 * unit);
    assert(points(SECONDS_IN_MINUTE as nat, SINGLE) == 0xf0_0000 * (unit * 8));
    assert(one_in_points(SINGLE) == unit * 0x20_0000);
    assert(0x80_0000 * unit == 4 * (unit * 0x20_0000)) by (nonlinear_arith);
    assert(0xf0_0000 * (unit * 8) == 60 * (unit * 0x20_0000)) by (nonlinear_arith);
}

/// A number of bars lasts four beats each, and a beat a minute over the tempo, up to one rounding:
/// the length times the tempo is 240 seconds for each bar.
pub open spec fn lasts_bars(seconds: Single, bars: int, bpm: Single) -> bool {
    let count = if bars < 0 {
        -bars
    } else {
        bars
    };
    &&& bars > 0 ==> Single::zero().less(seconds)
    &&& bars < 0 ==> seconds.less(Single::zero())
    &&& about(
        (size(seconds) * size(bpm)) as int,
        (240 * count * one_in_points(SINGLE)) * one_in_points(SINGLE),
        1,
    )
}

/// A tempo of any music.
pub open spec fn is_common_tempo(bpm: Single) -> bool {
    is_tempo(bpm) && bpm.bits <= 0x4f80_0000
}

/// A jump by bars lasts as long as they do, and goes back where they are negative.
pub proof fn law_jump_lasts_its_bars(bars: int, bpm: Single)
    requires
        -1000 < bars < 1000,
        bars != 0,
        is_common_tempo(bpm),
    ensures
        lasts_bars(bars_long(bars, bpm), bars, bpm),
{
    let count = (if bars < 0 {
        -bars
    } else {
        bars
    }) as nat;
    let one = one_in_points(SINGLE);
    let four = Single { bits: BEATS_IN_BAR };
    let sixty = Single { bits: SECONDS_IN_MINUTE };
    let b = whole(count);
    lemma_small_whole(count);
    lemma_time_units();
    lemma_one_is_normal();
    lemma_pow2_pos(149);
    lemma_whole_product(b, four, count, 4);
    let x = b.times(four);
    lemma_whole_product(x, sixty, count * 4, 60);
    let y = x.times(sixty);
    let p = points(y.bits as nat, SINGLE);
    assert(p == (240 * count) * one);
    let r = y.over(bpm);
    assert(r == bars_long(count as int, bpm));
    // The tempo lies between one and two to the power of 32.
    assert(Single::one().bits < bpm.bits) by {
        lemma_level_order(Single::one(), bpm);
    }
    lemma_leading(SINGLE);
    lemma_power_magnitude(0, 0x3f80_0000, SINGLE);
    lemma_power_magnitude(32, 0x4f80_0000, SINGLE);
    vstd::arithmetic::power2::lemma2_to64();
    lemma_points_order(0x3f80_0000, bpm.bits as nat, SINGLE);
    lemma_points_order(bpm.bits as nat, 0x4f80_0000, SINGLE);
    let d = points(bpm.bits as nat, SINGLE);
    let h = leading(SINGLE);
    assert(one >= h * 0x1_0000_0000) by {
        lemma_pow2_adds(23, 32);
        lemma_pow2_strictly_increases(55, 149);
    }
    assert(p >= one) by (nonlinear_arith)
        requires
            p == (240 * count) * one,
            count >= 1,
    ;
    assert(p * one >= h * d) by (nonlinear_arith)
        requires
            p >= one,
            one >= h * 0x1_0000_0000,
            d <= 0x1_0000_0000 * one,
    ;
    reveal(Single::spec_abs);
    assert(r.bits <= y.bits && r.bits > 0) by {
        reveal(Single::spec_over);
        lemma_zero_points(bpm.bits as nat, SINGLE);
        lemma_rounded_is_nearest(p * one, d, SINGLE);
        assert(p * one <= p * d) by (nonlinear_arith)
            requires
                one <= d,
        ;
        lemma_rounded_at_most(p * one, d, y.bits as nat, SINGLE);
        lemma_small_points(h, SINGLE);
        lemma_rounded_at_least(p * one, d, h, SINGLE);
    }
    lemma_quotient_about(y, bpm);
    assert(p * one == (240 * count * one) * one) by (nonlinear_arith)
        requires
            p == (240 * count) * one,
    ;
    lemma_level_order(Single::zero(), r);
    if bars < 0 {
        law_jumps_are_even(count, bpm);
        reveal(Single::spec_negated);
        reveal(Single::spec_less);
        let back = bars_long(bars, bpm);
        assert(back.abs() == r);
        lemma_zero_points(0, SINGLE);
        lemma_zero_points(r.bits as nat, SINGLE);
        assert(back.value() < 0);
    }
}

/// A button does what stands on it: the label is the direction and the number of bars, the jump
/// lasts as long as they do, and it goes where the sign says.
pub open spec fn does_what_it_says(jump: Jump, count: nat, back: bool, bpm: Single) -> bool {
    &&& jump.bars == Some(count as u32)
    &&& jump.label@.len() > 1
    &&& jump.label@[0] == if back {
        '-'
    } else {
        '+'
    }
    &&& spelled(jump.label@.skip(1)) == count
    &&& is_common_tempo(bpm) ==> lasts_bars(
        jump.seconds,
        if back {
            -(count as int)
        } else {
            count as int
        },
        bpm,
    )
}

/// A button that jumps by bars does what stands on it.
proof fn lemma_jump_does_what_it_says(jump: Jump, bars: int, bpm: Single)
    requires
        is_bar_jump(jump, bars, bpm),
        -1000 < bars < 1000,
        bars != 0,
    ensures
        bars > 0 ==> does_what_it_says(jump, bars as nat, false, bpm),
        bars < 0 ==> does_what_it_says(jump, (-bars) as nat, true, bpm),
{
    reveal_strlit("+");
    reveal_strlit("-");
    let count = (if bars < 0 {
        -bars
    } else {
        bars
    }) as nat;
    law_decimal_spells_the_number(count);
    assert(jump.label@.skip(1) =~= decimal(count));
    if is_common_tempo(bpm) {
        law_jump_lasts_its_bars(bars, bpm);
    }
}

/// A click on the waveform seeks to its share of the length, up to three roundings: the target
/// times the width is the length times the way from the left edge.
pub proof fn law_click_seeks_to_its_share(x: Single, left: Single, width: Single, duration: Duration)
    requires
        is_share_of(x, left, width),
        size(duration.as_seconds()) * 0x80_0000 >= one_in_points(SINGLE),
    ensures
        about(
            (size(seek_position(x, left, width, duration)) * size(width)) as int,
            size(duration.as_seconds()) * (x.value() - left.value()),
            3,
        ),
{
    let one = one_in_points(SINGLE);
    let length = duration.as_seconds();
    let share = x.minus(left).over(width);
    let target = length.times(share);
    let exact = x.value() - left.value();
    reveal(Single::spec_abs);
    lemma_pow2_pos(149);
    lemma_one_is_normal();
    lemma_leading(SINGLE);
    lemma_seconds_bound(duration);
    lemma_share_about(x, left, width);
    lemma_times_at_most(length, share);
    let l = points(length.bits as nat, SINGLE);
    let q = points(share.bits as nat, SINGLE);
    let w = points(width.bits as nat, SINGLE);
    let h = leading(SINGLE);
    vstd::arithmetic::power2::lemma2_to64_rest();
    lemma_pow2_adds(23, 50);
    lemma_pow2_strictly_increases(73, 149);
    assert(one >= h * 0x4_0000_0000_0000);
    assert(l * q >= h * one) by (nonlinear_arith)
        requires
            l * 0x80_0000 >= one,
            q * 0x800_0000 >= one,
            one >= h * 0x4_0000_0000_0000,
    ;
    lemma_product_about(length, share);
    let t = points(target.bits as nat, SINGLE);
    // t one ~ l q, q w ~ exact one
    lemma_about_scale((t * one) as int, (l * q) as int, w as int, 1);
    lemma_about_scale((q * w) as int, exact * one, l as int, 2);
    assert((t * one) * w == (t * w) * one && (l * q) * w == (q * w) * l && (exact * one) * l == (l
        * exact) * one) by (nonlinear_arith);
    lemma_about_chain(((t * w) * one) as int, ((q * w) * l) as int, (l * exact) * one, 1, 2);
    lemma_about_cancel((t * w) as int, l * exact, one as int, 3);
}

/// A click left of the waveform seeks to the start, and one right of it to the end.
pub proof fn law_click_beyond_the_edges(x: Single, left: Single, width: Single, duration: Duration)
    requires
        is_finite(x),
        is_finite(left),
        0 < width.bits < 0x7f80_0000,
    ensures
        x.value() <= left.value() ==> size(seek_position(x, left, width, duration)) == 0,
        x.value() - left.value() >= width.value() && x.minus(left).bits < 0x7f80_0000
            ==> seek_position(x, left, width, duration) == duration.as_seconds(),
{
    let length = duration.as_seconds();
    let way = x.minus(left);
    let share = way.over(width);
    let w = points(width.bits as nat, SINGLE);
    let one = one_in_points(SINGLE);
    lemma_seconds_bound(duration);
    lemma_pow2_pos(149);
    lemma_zero_points(0, SINGLE);
    lemma_zero_points(width.bits as nat, SINGLE);
    lemma_level_order(Single::zero(), Single::one());
    if x.value() - left.value() >= width.value() && way.bits < 0x7f80_0000 {
        let exact = (x.value() - left.value()) as nat;
        lemma_difference(x, left);
        lemma_rounded_at_least(exact, 1, width.bits as nat, SINGLE);
        lemma_points_order(width.bits as nat, way.bits as nat, SINGLE);
        let p = points(way.bits as nat, SINGLE);
        lemma_leading(SINGLE);
        lemma_power_magnitude(0, 0x3f80_0000, SINGLE);
        vstd::arithmetic::power2::lemma2_to64();
        assert(share.is_level() && share.bits >= Single::one().bits) by {
            reveal(Single::spec_over);
            lemma_rounded_is_nearest(p * one, w, SINGLE);
            assert(p * one >= points(0x3f80_0000, SINGLE) * w) by (nonlinear_arith)
                requires
                    p >= w,
                    points(0x3f80_0000, SINGLE) == 1 * one,
            ;
            lemma_rounded_at_least(p * one, w, 0x3f80_0000, SINGLE);
        }
        lemma_level_order(share, Single::zero());
        lemma_level_order(Single::one(), share);
        assert(unit(share) == Single::one());
        lemma_times_one(length);
    }
    if x.value() <= left.value() {
        lemma_not_ahead(x, left, width);
        let held = unit(share);
        reveal(Single::spec_times);
        reveal(Single::spec_abs);
        assert(held.parts().magnitude == 0);
        let l = points(length.parts().magnitude as nat, SINGLE);
        assert(l * 0 == 0);
        lemma_rounded_at_most(0, one, 0, SINGLE);
        assert(length.times(held).parts().magnitude == 0);
    }
}

/// What lies behind has no share.
proof fn lemma_not_ahead(x: Single, left: Single, width: Single)
    requires
        is_finite(x),
        is_finite(left),
        0 < width.bits < 0x7f80_0000,
        x.value() <= left.value(),
    ensures
        unit(x.minus(left).over(width)).parts().magnitude == 0,
{
    let way = x.minus(left);
    let share = way.over(width);
    reveal(Single::spec_minus);
    reveal(Single::spec_plus);
    reveal(Single::spec_negated);
    reveal(Single::spec_over);
    reveal(Single::spec_less);
    let b = left.negated();
    lemma_pow2_pos(149);
    lemma_zero_points(0, SINGLE);
    assert(b.parts().magnitude == left.parts().magnitude);
    assert(b.parts().negative != left.parts().negative);
    let exact = (left.value() - x.value()) as nat;
    assert(x.value() + b.value() == -(exact as int));
    lemma_rounded_is_nearest(exact, 1, SINGLE);
    let m = rounded(exact, 1, SINGLE);
    let one = one_in_points(SINGLE);
    let w = points(width.bits as nat, SINGLE);
    lemma_zero_points(width.bits as nat, SINGLE);
    if exact == 0 {
        assert(way.parts().magnitude == 0);
        assert(0 * one == 0 && 0 * w == 0);
        lemma_rounded_at_most(0, w, 0, SINGLE);
        assert(share.parts().magnitude == 0);
        lemma_level_order(Single::zero(), Single::one());
    } else {
        assert(way.parts().negative && way.parts().magnitude == m);
        let p = points(m, SINGLE);
        lemma_rounded_is_nearest(p * one, w, SINGLE);
        assert(share.parts().negative && !share.is_nan());
        lemma_zero_points(share.parts().magnitude as nat, SINGLE);
        lemma_level_order(Single::zero(), Single::one());
    }
}

/// What the spectrum and the meter do before a picture is drawn.
#[derive(Clone, Copy, Debug, PartialEq, Eq, Structural)]
pub enum VisualizerStep {
    /// They stay as they are.
    Rest,
    /// They follow what has been heard.
    Follow,
    /// They sink.
    Sink,
}

/// Decides what the spectrum and the meter do: they follow what plays, sink while nothing does,
/// and rest where there is no device.
pub fn visualizer_step(has_device: bool, transport: TransportState) -> (r: VisualizerStep)
    ensures
        r == if !has_device {
            VisualizerStep::Rest
        } else if transport == TransportState::Playing {
            VisualizerStep::Follow
        } else {
            VisualizerStep::Sink
        },
{
    if !has_device {
        VisualizerStep::Rest
    } else if transport == TransportState::Playing {
        VisualizerStep::Follow
    } else {
        VisualizerStep::Sink
    }
}

} // verus!
