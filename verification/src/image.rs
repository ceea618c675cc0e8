//! The decisions behind the image transform: which rotation an EXIF
//! orientation tag calls for, and what each quality tier means. The pixel
//! work itself is done by an outside image codec around the library; these
//! functions fix the inputs it must be driven with.
use vstd::prelude::*;

use crate::settings::{ImageQuality, Settings};

verus! {

/// The rotation or flip that undoes a camera orientation, named after what
/// has to be applied to the decoded pixels before resizing.
#[derive(Debug, Clone, Copy, PartialEq, Eq, Structural)]
pub enum Rotation {
    Identity,
    FlipHorizontal,
    Rotate180,
    Rotate180FlipHorizontal,
    Rotate90FlipHorizontal,
    Rotate90,
    Rotate270FlipHorizontal,
    Rotate270,
}

/// Maps the eight standard EXIF orientation values to the rotation that
/// undoes them; any other value is unsupported and the file is skipped.
pub fn rotation_from_orientation(orientation: u16) -> (r: Option<Rotation>)
    ensures
        orientation == 1 ==> r == Some(Rotation::Identity),
        orientation == 2 ==> r == Some(Rotation::FlipHorizontal),
        orientation == 3 ==> r == Some(Rotation::Rotate180),
        orientation == 4 ==> r == Some(Rotation::Rotate180FlipHorizontal),
        orientation == 5 ==> r == Some(Rotation::Rotate90FlipHorizontal),
        orientation == 6 ==> r == Some(Rotation::Rotate90),
        orientation == 7 ==> r == Some(Rotation::Rotate270FlipHorizontal),
        orientation == 8 ==> r == Some(Rotation::Rotate270),
        !(1 <= orientation <= 8) ==> r is None,
{
    match orientation {
        1 => Some(Rotation::Identity),
        2 => Some(Rotation::FlipHorizontal),
        3 => Some(Rotation::Rotate180),
        4 => Some(Rotation::Rotate180FlipHorizontal),
        5 => Some(Rotation::Rotate90FlipHorizontal),
        6 => Some(Rotation::Rotate90),
        7 => Some(Rotation::Rotate270FlipHorizontal),
        8 => Some(Rotation::Rotate270),
        _ => None,
    }
}

/// The bounding box of each quality tier, as (maximum width, maximum height).
pub fn dimensions_from_settings(settings: &Settings) -> (r: (u32, u32))
    ensures
        settings.image_quality == ImageQuality::Thumbnail ==> r == (300u32, 300u32),
        settings.image_quality == ImageQuality::Mobile ==> r == (1024u32, 1024u32),
        settings.image_quality == ImageQuality::Television ==> r == (1920u32, 1080u32),
{
    match settings.image_quality {
        ImageQuality::Thumbnail => (300, 300),
        ImageQuality::Mobile => (1024, 1024),
        ImageQuality::Television => (1920, 1080),
    }
}

/// The compression factor of each quality tier.
pub fn compression_factor_from_settings(settings: &Settings) -> (r: u8)
    ensures
        settings.image_quality == ImageQuality::Thumbnail ==> r == 30,
        settings.image_quality == ImageQuality::Mobile ==> r == 30,
        settings.image_quality == ImageQuality::Television ==> r == 70,
{
    match settings.image_quality {
        ImageQuality::Thumbnail => 30,
        ImageQuality::Mobile => 30,
        ImageQuality::Television => 70,
    }
}

} // verus!
