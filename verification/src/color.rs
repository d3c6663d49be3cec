//! Colors of levels and of the waveform.
use crate::single::{whole, Single};
use crate::waveform::{to_unit, unit};
use vstd::prelude::*;

verus! {

/// A color.
#[derive(Clone, Copy, Debug, PartialEq, Eq, Structural)]
pub struct Color {
    /// Red.
    pub r: u8,
    /// Green.
    pub g: u8,
    /// Blue.
    pub b: u8,
}

/// A number held to a byte.
pub open spec fn byte(n: u64) -> u8 {
    if n < 255 {
        n as u8
    } else {
        255
    }
}

/// A value between two bytes, as far from the first as `t` says.
pub open spec fn mixed(x: u8, y: u8, t: Single) -> u8 {
    let from = whole(x as nat);
    byte(from.plus(whole(y as nat).minus(from).times(t)).round_to_word())
}

/// A color between two.
pub open spec fn between(a: Color, b: Color, t: Single) -> Color {
    let share = unit(t);
    Color { r: mixed(a.r, b.r, share), g: mixed(a.g, b.g, share), b: mixed(a.b, b.b, share) }
}

/// The color of quiet.
pub open spec fn green() -> Color {
    Color { r: 54, g: 200, b: 88 }
}

/// The color of a good level.
pub open spec fn yellow() -> Color {
    Color { r: 232, g: 197, b: 58 }
}

/// The color of too much.
pub open spec fn red() -> Color {
    Color { r: 229, g: 72, b: 58 }
}

/// Bits of 0.6: where yellow is reached.
pub const YELLOW_AT: u32 = 0x3f19_999a;

/// Bits of 0.4: from yellow to red.
pub const YELLOW_TO_RED: u32 = 0x3ecc_cccd;

/// The color of a level: from green over yellow to red.
pub open spec fn color_of_level(t: Single) -> Color {
    let share = unit(t);
    let turn = Single { bits: YELLOW_AT };
    if share.less(turn) {
        between(green(), yellow(), share.over(turn))
    } else {
        between(yellow(), red(), share.minus(turn).over(Single { bits: YELLOW_TO_RED }))
    }
}

/// Holds a number to a byte.
fn to_byte(n: u64) -> (r: u8)
    ensures
        r == byte(n),
{
    if n < 255 {
        n as u8
    } else {
        255
    }
}

/// A value between two bytes.
fn mix(x: u8, y: u8, t: Single) -> (r: u8)
    ensures
        r == mixed(x, y, t),
{
    let from = Single::of_word(x as u64);
    let way = Single::of_word(y as u64).minus(from);
    to_byte(from.plus(way.times(t)).round_to_word())
}

/// A color between two.
pub fn lerp_color(a: Color, b: Color, t: Single) -> (r: Color)
    ensures
        r == between(a, b, t),
{
    let share = to_unit(t);
    Color { r: mix(a.r, b.r, share), g: mix(a.g, b.g, share), b: mix(a.b, b.b, share) }
}

/// The color of a level, as a share of the full height.
pub fn level_color(t: Single) -> (r: Color)
    ensures
        r == color_of_level(t),
{
    let green = Color { r: 54, g: 200, b: 88 };
    let yellow = Color { r: 232, g: 197, b: 58 };
    let red = Color { r: 229, g: 72, b: 58 };
    let turn = Single::from_bits(YELLOW_AT);
    let share = to_unit(t);
    if share.less(turn) {
        lerp_color(green, yellow, share.over(turn))
    } else {
        lerp_color(yellow, red, share.minus(turn).over(Single::from_bits(YELLOW_TO_RED)))
    }
}

/// Bits of one ten-thousandth: the least that band levels are divided by.
pub const LEAST_DOMINANT: u32 = 0x38d1_b717;

/// Bits of 0.35: the brightness of silence.
pub const LEAST_BRIGHTNESS: u32 = 0x3eb3_3333;

/// Bits of 0.65: what loudness adds to the brightness.
pub const ADDED_BRIGHTNESS: u32 = 0x3f26_6666;

/// Bits of 0.45: how bright what has not played is.
pub const UNPLAYED_SHARE: u32 = 0x3ee6_6666;

/// Bits of 255: the brightest value.
pub const BRIGHTEST: u32 = 0x437f_0000;

/// The levels of the three bands of a column.
#[derive(Clone, Copy, Debug)]
pub struct BandLevels {
    /// The low band.
    pub low: Single,
    /// The middle band.
    pub mid: Single,
    /// The high band.
    pub high: Single,
}

impl BandLevels {
    /// The level of the loudest band, kept off zero.
    pub open spec fn spec_dominant(self) -> Single {
        self.low.max(self.mid).max(self.high).max(Single { bits: LEAST_DOMINANT })
    }

    /// The level of the loudest band, kept off zero.
    #[verifier::when_used_as_spec(spec_dominant)]
    pub fn dominant(self) -> (r: Single)
        ensures
            r == self.spec_dominant(),
    {
        self.low.max(self.mid).max(self.high).max(Single::from_bits(LEAST_DOMINANT))
    }

    /// Each band over the loudest.
    pub open spec fn spec_balance(self) -> BandLevels {
        BandLevels {
            low: self.low.over(self.dominant()),
            mid: self.mid.over(self.dominant()),
            high: self.high.over(self.dominant()),
        }
    }

    /// Each band over the loudest: the power 0.7 of each gives the shades of a column.
    #[verifier::when_used_as_spec(spec_balance)]
    pub fn balance(self) -> (r: BandLevels)
        ensures
            r == self.spec_balance(),
    {
        let dominant = self.dominant();
        BandLevels {
            low: self.low.over(dominant),
            mid: self.mid.over(dominant),
            high: self.high.over(dominant),
        }
    }
}

/// What the shades of a column are multiplied by: the loudest band makes it bright, and what
/// has not played is dim.
pub open spec fn brightness(levels: BandLevels, played: bool) -> Single {
    let energy = unit(levels.dominant()).sqrt();
    let lit = (Single { bits: LEAST_BRIGHTNESS }).plus(
        (Single { bits: ADDED_BRIGHTNESS }).times(energy),
    );
    let share = if played {
        Single::one()
    } else {
        Single { bits: UNPLAYED_SHARE }
    };
    (Single { bits: BRIGHTEST }).times(lit.times(share))
}

/// The color of a column: red from the low band's shade, green from the middle one's, blue from
/// the high one's.
pub open spec fn color_of_bands(levels: BandLevels, shades: BandLevels, played: bool) -> Color {
    let scale = brightness(levels, played);
    Color {
        r: byte(shades.low.times(scale).to_word()),
        g: byte(shades.mid.times(scale).to_word()),
        b: byte(shades.high.times(scale).to_word()),
    }
}

/// The color of a column. The shades are the power 0.7 of the levels' [`BandLevels::balance`].
pub fn spectral_color(levels: BandLevels, shades: BandLevels, played: bool) -> (r: Color)
    ensures
        r == color_of_bands(levels, shades, played),
{
    let energy = to_unit(levels.dominant()).sqrt();
    let lit = Single::from_bits(LEAST_BRIGHTNESS).plus(
        Single::from_bits(ADDED_BRIGHTNESS).times(energy),
    );
    let share = if played {
        Single::one()
    } else {
        Single::from_bits(UNPLAYED_SHARE)
    };
    let scale = Single::from_bits(BRIGHTEST).times(lit.times(share));
    Color {
        r: to_byte(shades.low.times(scale).to_word()),
        g: to_byte(shades.mid.times(scale).to_word()),
        b: to_byte(shades.high.times(scale).to_word()),
    }
}

} // verus!
