//! Rectification of a photographed board and isolation of the glyph in each
//! of its cells: corner ordering, projective estimation, resampling, grid
//! partition, border clearing and thresholding, each with its contract.
pub mod geometry;
pub mod homography;
pub mod image;
pub mod warp;
pub mod border;
pub mod grid;
pub mod digit;
pub mod pipeline;
