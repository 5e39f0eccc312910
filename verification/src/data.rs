//! The data model: labeled feature vectors and the error taxonomy.

use vstd::prelude::*;

verus! {

/// One sample: a class label and its pixel-intensity feature vector.
///
/// All samples of a well-formed pair of datasets share one feature length
/// (the pixel-vector dimensionality); the loader does not enforce this, and
/// the distance function pairs positions only up to the shorter vector.
#[derive(Debug, Clone, PartialEq, Eq)]
pub struct LabelPixel {
    pub label: i32,
    pub pixels: Vec<i32>,
}

/// What can go wrong in a run. Every variant is fatal for the whole run:
/// there is no per-row recovery.
#[derive(Debug, Clone, Copy, PartialEq, Eq)]
pub enum KnnError {
    /// A file could not be opened or read (raised by the surrounding program,
    /// never by the library itself).
    IOError,
    /// A field of the given 1-based file line is not a valid `i32`.
    ParseError { line: usize },
    /// The training or the validation set has no rows.
    EmptyDatasetError,
}

} // verus!
