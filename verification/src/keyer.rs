//! Keying masks, blob detection and bounding boxes.
pub mod blobs;
pub mod keying;
pub mod laws;
pub mod mask;
pub mod select;

pub use blobs::{find_boxes, Box};
pub use keying::{compute_key_mask, detect_boxes};
pub use mask::{dilate_mask, window};
pub use select::{
    area, boxes_overlap, filter_boxes, long_side, sample_box_colors, SizeRange,
};
