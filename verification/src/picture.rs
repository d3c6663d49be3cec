//! Pictures: what encoded image bytes show.
use vstd::prelude::*;

verus! {

/// A picture: four bytes for each pixel, row by row, and its size.
#[derive(Clone, Debug, PartialEq)]
pub struct CoverArt {
    /// Red, green, blue and opacity of each pixel.
    pub rgba: Vec<u8>,
    /// Pixels in a row.
    pub width: u32,
    /// Rows.
    pub height: u32,
}

/// The pixels that encoded image bytes show, with width and height; nothing where they do not
/// decode.
pub uninterp spec fn pixels(encoded: Seq<u8>) -> Option<(Seq<u8>, u32, u32)>;

/// `image::load_from_memory`, its result as RGBA: the decoders that the crate comes with read
/// the bytes, or fail. Of the pixels it is said that there are four bytes for each.
#[verifier::external_body]
fn load_from_memory(encoded: &[u8]) -> (r: Option<(Vec<u8>, u32, u32)>)
    ensures
        r is Some <==> pixels(encoded@) is Some,
        r matches Some((rgba, width, height)) ==> pixels(encoded@) == Some(
            (rgba@, width, height),
        ) && rgba@.len() == 4 * width * height,
{
    let rgba = image::load_from_memory(encoded).ok()?.into_rgba8();
    let (width, height) = rgba.dimensions();
    Some((rgba.into_raw(), width, height))
}

/// A picture and what it shows.
pub open spec fn shows(cover: Option<CoverArt>, shown: Option<(Seq<u8>, u32, u32)>) -> bool {
    match cover {
        Some(art) => art.wf() && shown == Some((art.rgba@, art.width, art.height)),
        None => shown is None,
    }
}

impl CoverArt {
    /// There are four bytes for each pixel.
    pub open spec fn wf(self) -> bool {
        self.rgba@.len() == 4 * self.width * self.height
    }

    /// Decodes a picture.
    pub fn decode(encoded: &[u8]) -> (r: Option<CoverArt>)
        ensures
            shows(r, pixels(encoded@)),
    {
        match load_from_memory(encoded) {
            Some((rgba, width, height)) => Some(CoverArt { rgba, width, height }),
            None => None,
        }
    }

    /// Whether there is anything to see.
    pub fn is_visible(&self) -> (r: bool)
        ensures
            r <==> self.rgba@.len() > 0 && self.width > 0 && self.height > 0,
    {
        self.rgba.len() != 0 && self.width != 0 && self.height != 0
    }
}

} // verus!
