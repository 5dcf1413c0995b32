//! What is drawn over a frame.
pub mod dash;
pub mod fill;
pub mod geometry;
pub mod laws;
pub mod lines;
pub mod path;
pub mod plan;
pub mod tree;
pub mod weight;
