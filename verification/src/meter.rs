//! The output level meter.
use crate::color::{color_of_level, level_color, Color};
use crate::single::{
    is_share, lemma_clamp_share, lemma_level_order, lemma_minus_nan, lemma_minus_not_above,
    lemma_plus_not_below, lemma_product_number, lemma_quotient_number, lemma_sum_number,
    lemma_times_not_below, Single, HALF, TWENTY,
};
use crate::waveform::{to_unit, unit};
use vstd::prelude::*;

verus! {

/// Bits of 48: the decibels that the meter shows.
pub const METER_RANGE: u32 = 0x4240_0000;

/// Bits of one millionth: the quietest peak that is told from silence.
pub const QUIETEST_PEAK: u32 = 0x3586_37bd;

/// Bits of 1.4: how fast the level falls, in heights a second.
pub const LEVEL_FALL: u32 = 0x3fb3_3333;

/// Bits of 0.9: how fast the cap's fall quickens.
pub const METER_GRAVITY: u32 = 0x3f66_6666;

/// Bits of 0.9: the seconds that the clip light stays on.
pub const LATCH_SECS: u32 = 0x3f66_6666;

/// The meter of the output level.
#[derive(Clone, Copy, Debug)]
pub struct ClipMeter {
    /// The height of the bar, from 0 to 1.
    pub level: Single,
    /// The height of the cap.
    pub cap: Single,
    /// The cap's speed.
    pub cap_vel: Single,
    /// The seconds that the clip light stays on.
    pub clip_latch: Single,
}

impl Default for ClipMeter {
    /// Everything at rest.
    fn default() -> (r: ClipMeter)
        ensures
            r == ClipMeter::resting(),
    {
        ClipMeter {
            level: Single::zero(),
            cap: Single::zero(),
            cap_vel: Single::zero(),
            clip_latch: Single::zero(),
        }
    }
}

/// What the meter takes the logarithm of: a peak, kept off zero.
pub open spec fn measured(peak: Single) -> Single {
    peak.max(Single { bits: QUIETEST_PEAK })
}

/// The height of a level, given its decimal logarithm: from 48 decibels below full scale up.
pub open spec fn meter_height(log: Single) -> Single {
    let range = Single { bits: METER_RANGE };
    unit((Single { bits: TWENTY }).times(log).plus(range).over(range))
}

/// What the meter takes the logarithm of.
pub fn measure(peak: Single) -> (r: Single)
    ensures
        r == measured(peak),
{
    peak.max(Single::from_bits(QUIETEST_PEAK))
}

impl ClipMeter {
    /// Everything at rest.
    pub open spec fn resting() -> ClipMeter {
        ClipMeter {
            level: Single::zero(),
            cap: Single::zero(),
            cap_vel: Single::zero(),
            clip_latch: Single::zero(),
        }
    }

    /// The level after `dt` seconds: up at once, down steadily.
    pub open spec fn next_level(self, target: Single, dt: Single) -> Single {
        if self.level.at_most(target) {
            target
        } else {
            self.level.minus((Single { bits: LEVEL_FALL }).times(dt)).max(target)
        }
    }

    /// The clip light after `dt` seconds: on with every clip and with every peak past full
    /// scale, then running out.
    pub open spec fn next_latch(self, peak: Single, clipped: bool, dt: Single) -> Single {
        if clipped || Single::one().less(peak) {
            Single { bits: LATCH_SECS }
        } else {
            self.clip_latch.minus(dt).max(Single::zero())
        }
    }

    /// The meter after `dt` seconds with a peak.
    pub open spec fn next(
        self,
        peak: Single,
        log: Single,
        clipped: bool,
        dt: Single,
    ) -> ClipMeter {
        let level = self.next_level(meter_height(log), dt);
        let velocity = self.cap_vel.plus((Single { bits: METER_GRAVITY }).times(dt));
        let reached = self.cap.at_most(level);
        ClipMeter {
            level,
            cap: if reached {
                level
            } else {
                self.cap.minus(velocity.times(dt)).max(level)
            },
            cap_vel: if reached {
                Single::zero()
            } else {
                velocity
            },
            clip_latch: self.next_latch(peak, clipped, dt),
        }
    }

    /// Follows the output for `dt` seconds. `log` is the decimal logarithm of what [`measure`]
    /// makes of the peak.
    pub fn update(&mut self, peak: Single, log: Single, clipped: bool, dt: Single)
        ensures
            *final(self) == old(self).next(peak, log, clipped, dt),
            old(self).in_height() && !log.is_nan() && Single::zero().at_most(dt)
                ==> final(self).in_height(),
    {
        proof {
            if self.in_height() && !log.is_nan() && Single::zero().at_most(dt) {
                law_meter_stays_in_height(*self, peak, log, clipped, dt);
            }
        }
        let range = Single::from_bits(METER_RANGE);
        let db = Single::from_bits(TWENTY).times(log);
        let target = to_unit(db.plus(range).over(range));
        self.level = if self.level.at_most(target) {
            target
        } else {
            self.level.minus(Single::from_bits(LEVEL_FALL).times(dt)).max(target)
        };
        if self.cap.at_most(self.level) {
            self.cap = self.level;
            self.cap_vel = Single::zero();
        } else {
            self.cap_vel = self.cap_vel.plus(Single::from_bits(METER_GRAVITY).times(dt));
            self.cap = self.cap.minus(self.cap_vel.times(dt)).max(self.level);
        }
        self.clip_latch = if clipped || Single::one().less(peak) {
            Single::from_bits(LATCH_SECS)
        } else {
            self.clip_latch.minus(dt).max(Single::zero())
        };
    }

    /// Falls for `dt` seconds while nothing plays. `log` is the decimal logarithm of what
    /// [`measure`] makes of silence.
    pub fn decay(&mut self, log: Single, dt: Single)
        ensures
            *final(self) == old(self).next(Single::zero(), log, false, dt),
            old(self).in_height() && !log.is_nan() && Single::zero().at_most(dt)
                ==> final(self).in_height(),
    {
        self.update(Single::zero(), log, false, dt);
    }
}

/// What is drawn of the meter.
#[derive(Clone, Copy, Debug)]
pub struct MeterPicture {
    /// The upper edge of the bar, if it is high enough to be drawn.
    pub bar_top: Option<Single>,
    /// The color of the bar's upper edge.
    pub bar_color: Color,
    /// Where the cap floats.
    pub cap_y: Single,
    /// The lower edge of the clip light, if it is on.
    pub clip_bottom: Option<Single>,
}

/// Bits of 0.14: the share of the height that the clip light takes.
pub const CLIP_SHARE: u32 = 0x3e0f_5c29;

/// Bits of 3: the least height of the clip light.
pub const LEAST_CLIP: u32 = 0x4040_0000;

/// What is drawn of the meter between a top and a bottom edge.
pub open spec fn meter_drawn(meter: ClipMeter, top: Single, bottom: Single, height: Single) ->
    MeterPicture {
    let usable = height.max(Single::one());
    let bar = unit(meter.level).times(usable);
    MeterPicture {
        bar_top: if (Single { bits: HALF }).less(bar) {
            Some(bottom.minus(bar))
        } else {
            None
        },
        bar_color: color_of_level(meter.level),
        cap_y: bottom.minus(unit(meter.cap).times(usable)),
        clip_bottom: if Single::zero().less(meter.clip_latch) {
            Some(
                top.plus(
                    usable.times(Single { bits: CLIP_SHARE }).max(Single { bits: LEAST_CLIP }),
                ),
            )
        } else {
            None
        },
    }
}

/// What is drawn of the meter between a top and a bottom edge.
pub fn paint_clip_meter(meter: &ClipMeter, top: Single, bottom: Single, height: Single) -> (r:
    MeterPicture)
    ensures
        r == meter_drawn(*meter, top, bottom, height),
{
    let usable = height.max(Single::one());
    let bar = to_unit(meter.level).times(usable);
    MeterPicture {
        bar_top: if Single::from_bits(HALF).less(bar) {
            Some(bottom.minus(bar))
        } else {
            None
        },
        bar_color: level_color(meter.level),
        cap_y: bottom.minus(to_unit(meter.cap).times(usable)),
        clip_bottom: if Single::zero().less(meter.clip_latch) {
            let share = usable.times(Single::from_bits(CLIP_SHARE));
            Some(top.plus(share.max(Single::from_bits(LEAST_CLIP))))
        } else {
            None
        },
    }
}

/// A time that the clip light can have left.
pub open spec fn in_latch(latch: Single) -> bool {
    Single::zero().at_most(latch) && latch.at_most(Single { bits: LATCH_SECS })
}

impl ClipMeter {
    /// The level lies between nothing and full height, the cap between the level and full
    /// height, and the clip light between off and its full time; the cap does not rise by itself.
    pub open spec fn in_height(self) -> bool {
        &&& is_share(self.level)
        &&& is_share(self.cap)
        &&& self.level.at_most(self.cap)
        &&& Single::zero().at_most(self.cap_vel)
        &&& in_latch(self.clip_latch)
    }
}

/// Everything at rest is in height.
pub proof fn law_meter_starts_in_height()
    ensures
        ClipMeter::resting().in_height(),
{
    lemma_level_order(Single::zero(), Single::zero());
    lemma_level_order(Single::zero(), Single::one());
    lemma_level_order(Single::zero(), Single { bits: LATCH_SECS });
}

/// While time does not run back, the level stays between nothing and full height, the cap between
/// the level and full height, and the clip light between off and its full time.
pub proof fn law_meter_stays_in_height(
    meter: ClipMeter,
    peak: Single,
    log: Single,
    clipped: bool,
    dt: Single,
)
    requires
        meter.in_height(),
        !log.is_nan(),
        Single::zero().at_most(dt),
    ensures
        meter.next(peak, log, clipped, dt).in_height(),
{
    reveal(Single::spec_at_most);
    reveal(Single::spec_less);
    let target = meter_height(log);
    let range = Single { bits: METER_RANGE };
    let db = (Single { bits: TWENTY }).times(log);
    lemma_numbers(log);
    lemma_clamp_share(db.plus(range).over(range));
    assert(is_share(target));
    let fall_rate = Single { bits: LEVEL_FALL };
    let gravity = Single { bits: METER_GRAVITY };
    lemma_level_order(Single::zero(), fall_rate);
    lemma_level_order(Single::zero(), gravity);
    lemma_times_not_below(fall_rate, dt);
    lemma_minus_not_above(meter.level, fall_rate.times(dt));
    lemma_times_not_below(gravity, dt);
    let velocity = meter.cap_vel.plus(gravity.times(dt));
    lemma_plus_not_below(meter.cap_vel, gravity.times(dt));
    let drop = velocity.times(dt);
    lemma_times_not_below(velocity, dt);
    if drop.is_nan() {
        lemma_minus_nan(meter.cap, drop);
    } else {
        lemma_minus_not_above(meter.cap, drop);
    }
    lemma_minus_not_above(meter.clip_latch, dt);
    lemma_level_order(Single::zero(), Single { bits: LATCH_SECS });
    lemma_level_order(Single::zero(), Single::zero());
}

/// A number stays a number when it is scaled and shifted for the meter.
proof fn lemma_numbers(log: Single)
    requires
        !log.is_nan(),
    ensures
        !(Single { bits: TWENTY }).times(log).plus(Single { bits: METER_RANGE }).over(
            Single { bits: METER_RANGE },
        ).is_nan(),
{
    let twenty = Single { bits: TWENTY };
    let range = Single { bits: METER_RANGE };
    let db = twenty.times(log);
    lemma_product_number(twenty, log);
    lemma_sum_number(db, range);
    lemma_quotient_number(db.plus(range), range);
}

/// A clip or a peak past full scale turns the light on; a peak at full scale or below leaves a
/// dark light dark.
pub proof fn law_clip_lights(meter: ClipMeter, peak: Single, clipped: bool, dt: Single)
    ensures
        clipped || Single::one().less(peak) ==> Single::zero().less(
            meter.next_latch(peak, clipped, dt),
        ),
        !clipped && !Single::one().less(peak) && meter.clip_latch.at_most(Single::zero())
            && Single::zero().at_most(dt) ==> !Single::zero().less(
            meter.next_latch(peak, clipped, dt),
        ),
{
    lemma_level_order(Single::zero(), Single { bits: LATCH_SECS });
    reveal(Single::spec_at_most);
    reveal(Single::spec_less);
    if Single::zero().at_most(dt) && !meter.clip_latch.is_nan() {
        lemma_minus_not_above(meter.clip_latch, dt);
    }
}

} // verus!
