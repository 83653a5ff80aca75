//! Block-partition peak detection with greedy non-maximum suppression.
//!
//! A rectangular grid of unsigned samples is partitioned into square blocks;
//! each block in a valid interior region contributes its maximum sample (with
//! the first-occurring position of that maximum), and peaks are then selected
//! greedily, highest value first, while suppressing a Chebyshev neighbourhood
//! of blocks around every accepted peak. Per-frame statistics (the sum and
//! sum of squares of the block maxima) are returned alongside the peaks so a
//! caller can normalise each peak into a peak-to-sidelobe score.

pub mod grid;
pub mod scan;
pub mod order;
pub mod nms;
pub mod engine;
pub mod laws;
