//! Nearest-neighbor classification: the label of the training sample at
//! minimum squared Euclidean distance, first one on ties.

use vstd::prelude::*;
use crate::data::{KnnError, LabelPixel};
use crate::dist::{dist_sqr, distance_sqr};

verus! {

/// The index, among the first `n` training samples, of the first sample at
/// minimum distance from the query: a strict improvement is needed to move
/// the best index forward, so ties keep the earlier sample.
pub open spec fn best_upto(t: Seq<LabelPixel>, q: Seq<i32>, n: int) -> int
    decreases n,
{
    if n <= 1 {
        0
    } else {
        let b = best_upto(t, q, n - 1);
        if dist_sqr(t[n - 1].pixels@, q) < dist_sqr(t[b].pixels@, q) {
            n - 1
        } else {
            b
        }
    }
}

/// The label a non-empty training set assigns to a query.
pub open spec fn classify_spec(t: Seq<LabelPixel>, q: Seq<i32>) -> i32 {
    t[best_upto(t, q, t.len() as int)].label
}

/// Whether every training sample is within `u64` distance range of the query.
pub open spec fn sample_fits(t: Seq<LabelPixel>, q: Seq<i32>) -> bool {
    forall|i: int| 0 <= i < t.len() ==> dist_sqr(#[trigger] t[i].pixels@, q) <= u64::MAX
}

/// `best_upto` stays in range.
pub proof fn lemma_best_upto_bounds(t: Seq<LabelPixel>, q: Seq<i32>, n: int)
    requires
        1 <= n,
    ensures
        0 <= best_upto(t, q, n) < n,
    decreases n,
{
    if n > 1 {
        lemma_best_upto_bounds(t, q, n - 1);
    }
}

/// The tie-break law: among the first `n` training samples, the selected
/// index achieves the minimum distance, and every strictly earlier sample is
/// strictly farther away — so of several samples at the minimum distance the
/// first one in training order wins.
pub proof fn lemma_best_upto_first_min(t: Seq<LabelPixel>, q: Seq<i32>, n: int)
    requires
        1 <= n <= t.len(),
    ensures
        0 <= best_upto(t, q, n) < n,
        forall|j: int|
            0 <= j < n ==> dist_sqr(t[best_upto(t, q, n)].pixels@, q) <= dist_sqr(
                #[trigger] t[j].pixels@,
                q,
            ),
        forall|j: int|
            0 <= j < best_upto(t, q, n) ==> dist_sqr(#[trigger] t[j].pixels@, q) > dist_sqr(
                t[best_upto(t, q, n)].pixels@,
                q,
            ),
    decreases n,
{
    lemma_best_upto_bounds(t, q, n);
    if n > 1 {
        lemma_best_upto_first_min(t, q, n - 1);
    }
}

/// Determinism of classification: the assigned label is a function of the
/// training set and the query alone, so two results of classifying the same
/// query against the same training set are equal.
pub proof fn lemma_classify_deterministic(t: Seq<LabelPixel>, q: Seq<i32>, r1: i32, r2: i32)
    requires
        r1 == classify_spec(t, q),
        r2 == classify_spec(t, q),
    ensures
        r1 == r2,
{
}

/// A training set of one sample assigns that sample's label to every query,
/// whatever the distance.
pub proof fn lemma_classify_singleton(t: Seq<LabelPixel>, q: Seq<i32>)
    requires
        t.len() == 1,
    ensures
        classify_spec(t, q) == t[0].label,
{
}

/// Scans the whole training set and returns the label of the first sample at
/// minimum squared Euclidean distance from the query; an empty training set
/// has no minimum and is rejected.
pub fn classify(training: &Vec<LabelPixel>, pixels: &Vec<i32>) -> (r: Result<i32, KnnError>)
    requires
        sample_fits(training@, pixels@),
    ensures
        training@.len() == 0 ==> r == Err::<i32, KnnError>(KnnError::EmptyDatasetError),
        training@.len() > 0 ==> r == Ok::<i32, KnnError>(classify_spec(training@, pixels@)),
{
    if training.len() == 0 {
        return Err(KnnError::EmptyDatasetError);
    }
    let mut best: usize = 0;
    let mut best_d: u64 = distance_sqr(&training[0].pixels, pixels);
    let mut i: usize = 1;
    while i < training.len()
        invariant
            1 <= i <= training@.len(),
            sample_fits(training@, pixels@),
            best == best_upto(training@, pixels@, i as int),
            best < i,
            best_d == dist_sqr(training@[best as int].pixels@, pixels@),
        decreases training@.len() - i,
    {
        let d = distance_sqr(&training[i].pixels, pixels);
        if d < best_d {
            best = i;
            best_d = d;
        }
        i = i + 1;
    }
    Ok(training[best].label)
}

} // verus!
