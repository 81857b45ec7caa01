use vstd::prelude::*;

verus! {

/// Why a trace run could not produce an SVG.
#[derive(Debug)]
pub enum Error {
    /// The pixel buffer length does not match `width * height * 4`.
    Dimensions { width: u32, height: u32, len: usize },
    /// The image has zero width or height.
    EmptyImage,
    /// The tracer reported a failure.
    Trace(String),
}

} // verus!
