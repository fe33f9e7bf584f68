//! A gradient-boosted regression tree engine in fixed-point arithmetic:
//! datasets, histogram-based split finding, depth-wise tree building, boosting
//! with squared-error loss, prediction, and a versioned model format.
pub mod booster;
pub mod codec;
pub mod dmatrix;
pub mod fixed;
pub mod settings;
pub mod tree;
