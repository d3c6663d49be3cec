//! The window's icon.
use crate::picture::{pixels, shows, CoverArt};
use vstd::prelude::*;

verus! {

/// The icon as it comes with the program: a PNG image of a light note on a dark square, 64 pixels
/// to a side.
pub const ICON: [u8; 154] = [
    0x89, 0x50, 0x4e, 0x47, 0x0d, 0x0a, 0x1a, 0x0a, 0x00, 0x00, 0x00, 0x0d, 0x49, 0x48, 0x44,
    0x52, 0x00, 0x00, 0x00, 0x40, 0x00, 0x00, 0x00, 0x40, 0x01, 0x00, 0x00, 0x00, 0x00, 0x82,
    0x12, 0x4c, 0x73, 0x00, 0x00, 0x00, 0x61, 0x49, 0x44, 0x41, 0x54, 0x78, 0xda, 0x63, 0x60,
    0xa0, 0x37, 0xf8, 0x01, 0x63, 0xfc, 0x81, 0x31, 0xfe, 0xc1, 0x18, 0xff, 0xe1, 0x8c, 0x06,
    0x18, 0xe3, 0x00, 0x8c, 0xf1, 0x00, 0xc6, 0xf8, 0x00, 0x63, 0xc0, 0x0c, 0xfa, 0x0f, 0xd3,
    0xff, 0x1b, 0xc6, 0xf8, 0x09, 0x63, 0xfc, 0x80, 0x33, 0xea, 0x60, 0x0c, 0x3b, 0x18, 0x43,
    0x0e, 0xc6, 0xe0, 0x83, 0x31, 0xd8, 0x60, 0x0c, 0x26, 0x74, 0xa7, 0x52, 0x89, 0x51, 0x0f,
    0x65, 0x30, 0xc2, 0xdc, 0xce, 0x8e, 0xc1, 0xe0, 0xc7, 0x60, 0xc8, 0xff, 0xff, 0x83, 0x4b,
    0x8a, 0x1d, 0x16, 0x18, 0x70, 0x06, 0x23, 0x3c, 0xc0, 0xea, 0xe9, 0x13, 0x9b, 0x00, 0x92,
    0xfe, 0x3c, 0x18, 0xfa, 0x34, 0x42, 0xe8, 0x00, 0x00, 0x00, 0x00, 0x49, 0x45, 0x4e, 0x44,
    0xae, 0x42, 0x60, 0x82,
];

/// The window's icon; nothing where the bytes that come with the program do not decode.
pub fn app_icon() -> (r: Option<CoverArt>)
    ensures
        shows(r, pixels(ICON@)),
{
    CoverArt::decode(&ICON)
}

} // verus!
