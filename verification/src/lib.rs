//! Nearest-neighbor classification of labeled integer feature vectors.
//!
//! A training set and a validation set of labeled pixel vectors are read
//! from comma-separated text, each validation sample is classified by the
//! label of the training sample at minimum squared Euclidean distance, and
//! the fraction of correctly classified samples is reported.

pub mod data;
pub mod dist;
pub mod eval;
pub mod knn;
pub mod parse;
pub mod render;
