//! User-facing choices that the verified core reads.
use vstd::prelude::*;

verus! {

/// What kind of image we are tracing. Drives tracer parameters and how
/// aggressively the pre-stage collapses color.
#[derive(Debug, Clone, Copy, PartialEq, Eq, Structural)]
pub enum Class {
    Logo,
    Illustration,
    Photo,
}

/// How to handle a photo, which cannot be losslessly vectorized.
#[derive(Debug, Clone, Copy, PartialEq, Eq, Structural)]
pub enum PhotoMode {
    /// Reduce to a flat palette and trace the posterized result.
    Posterize,
    /// Embed the original raster (reserved for the photo path).
    EmbedRaster,
}

} // verus!
