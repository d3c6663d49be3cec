//! The core of a music player for one track at a time.
//!
//! - [`audio`], [`loading`], [`transport`] and [`laws`]: what plays, and how it is controlled.
//! - [`decoder`], [`metadata`], [`id3`], [`picture`] and [`icon`]: what a file holds.
//! - [`waveform`], [`levels`], [`columns`], [`spectrum`], [`strip`], [`meter`], [`color`] and
//!   [`display`]: what is shown.
//! - [`single_instance`], [`path`] and [`text`]: how the program is asked for a file.
//! - [`single`], [`double`], [`parts`], [`ieee`], [`bounds`], [`signal`] and [`time`]: the numbers
//!   that all of it is counted in, as exact as their formats allow.
//! - What holds of them for every input: [`seeking`], [`equalizing`], [`mixing`] and [`output`] of
//!   what plays; [`tags`] and [`names`] of what a file holds; [`rms`], [`reduction`],
//!   [`frequencies`], [`bars`], [`layout`], [`shading`] and [`metering`] of what is shown;
//!   [`closeness`] and [`shares`] of what rounding leaves of an equation.
pub mod audio;
pub mod bars;
pub mod bounds;
pub mod closeness;
pub mod color;
pub mod columns;
pub mod decoder;
pub mod display;
pub mod double;
pub mod equalizing;
pub mod frequencies;
pub mod icon;
pub mod id3;
pub mod ieee;
pub mod laws;
pub mod layout;
pub mod levels;
pub mod loading;
pub mod metadata;
pub mod meter;
pub mod metering;
pub mod mixing;
pub mod names;
pub mod output;
pub mod parts;
pub mod path;
pub mod picture;
pub mod reduction;
pub mod rms;
pub mod seeking;
pub mod shading;
pub mod shares;
pub mod signal;
pub mod single;
pub mod single_instance;
pub mod spectrum;
pub mod strip;
pub mod tags;
pub mod text;
pub mod time;
pub mod transport;
pub mod waveform;
