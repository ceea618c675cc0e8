//! The configuration of one reconciliation run.
use vstd::prelude::*;

verus! {

/// The quality tier a run converts images to: a bounding box and a
/// compression factor, applied consistently per tier.
#[derive(Debug, Clone, Copy, PartialEq, Eq, Structural)]
pub enum ImageQuality {
    Thumbnail,
    Mobile,
    Television,
}

/// The immutable configuration of one run.
#[derive(Debug, Clone, Copy, PartialEq, Eq, Structural)]
pub struct Settings {
    pub image_quality: ImageQuality,
    pub verbose_print: bool,
    pub include_videos: bool,
}

} // verus!
