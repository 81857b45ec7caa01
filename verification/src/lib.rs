//! img2svg-core: turn RGBA pixels into a layered color SVG.
//!
//! This crate holds the verified integer core of the pipeline: connected
//! components on the pixel grid, speckle removal, color segmentation over
//! given links, pre-cleaning, the image classifier, region outline tracing,
//! layer ordering, the VTracer calls, and the SVG string assembly and
//! statistics around them. The color math in OKLab (quantization, gradient
//! fitting, the links between similar neighbours) is floating point and is
//! done by the caller, which hands the results in as plain values.

pub mod classify;
pub mod components;
pub mod contour;
pub mod emit;
pub mod error;
pub mod layering;
pub mod options;
pub mod pipeline;
pub mod preclean;
pub mod regions;
pub mod segment;
pub mod trace;

pub use emit::Stats;
pub use error::Error;
pub use options::{Class, PhotoMode};
pub use pipeline::TraceResult;
