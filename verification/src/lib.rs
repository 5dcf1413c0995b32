//! Blob tracking for video frames.
//!
//! A frame is keyed into a mask, the mask is split into blobs, and each blob
//! gets a bounding box that an overlay decorates with strokes, fills, markers,
//! connection lines and labels.
//!
//! The library works on whole numbers. Brightness, distances and angles that
//! were measured with floating point reach it as ranks: whole numbers in the
//! same order as the measured values.

pub mod config;
pub mod grid;
pub mod keyer;
pub mod motion;
pub mod order;
pub mod overlay;
pub mod pixel;
pub mod preset;
pub mod rng;
pub mod text;
pub mod wildcard;

pub use config::{
    AlignH, AlignV, BoxShape, CornerMode, FillMode, FilterConfig, FontName, GradType, KeyingMode,
    LineOrder, LineType, LumaTarget, MarkerType, OverlapMode, StrokePosition, TextReference,
};
pub use motion::BloboxUserdata;
pub use pixel::RgbaPixel;
