//! The evaluation driver: classify every validation sample against the full
//! training set, in parallel, and report the fraction that matches the
//! ground-truth label.

use vstd::prelude::*;
use vstd::arithmetic::div_mod::{lemma_div_is_ordered, lemma_div_multiples_vanish};
use rayon::iter::IntoParallelRefIterator;
use rayon::iter::ParallelIterator;
use crate::data::{KnnError, LabelPixel};
use crate::dist::distance_sqr_checked;
use crate::knn::{classify, classify_spec, sample_fits};

verus! {

/// How many of the first `n` validation samples the training set classifies
/// as their own ground-truth label.
pub open spec fn correct_upto(t: Seq<LabelPixel>, v: Seq<LabelPixel>, n: int) -> int
    decreases n,
{
    if n <= 0 {
        0
    } else {
        correct_upto(t, v, n - 1) + if classify_spec(t, v[n - 1].pixels@) == v[n - 1].label {
            1int
        } else {
            0int
        }
    }
}

/// Whether every training/validation pair is within `u64` distance range.
pub open spec fn all_fit(t: Seq<LabelPixel>, v: Seq<LabelPixel>) -> bool {
    forall|k: int| 0 <= k < v.len() ==> sample_fits(t, (#[trigger] v[k]).pixels@)
}

/// The tally never leaves `0 ..= n`.
pub proof fn lemma_correct_upto_bounds(t: Seq<LabelPixel>, v: Seq<LabelPixel>, n: int)
    requires
        0 <= n,
    ensures
        0 <= correct_upto(t, v, n) <= n,
    decreases n,
{
    if n > 0 {
        lemma_correct_upto_bounds(t, v, n - 1);
    }
}

/// Whether a non-empty training set classifies one validation sample as its
/// own ground-truth label.
pub fn is_correct(training: &Vec<LabelPixel>, sample: &LabelPixel) -> (r: bool)
    requires
        training@.len() > 0,
        sample_fits(training@, sample.pixels@),
    ensures
        r == (classify_spec(training@, sample.pixels@) == sample.label),
{
    match classify(training, &sample.pixels) {
        Ok(label) => label == sample.label,
        Err(_) => false,
    }
}

/// Relies on rayon's `par_iter().filter(..).count()`: the parallel filter
/// keeps exactly the items for which the predicate returned true, and the
/// count is the number of such items, independent of how the work was split
/// across threads. The predicate is one call of the verified `is_correct`,
/// whose contract ties each answer to `classify_spec`.
#[verifier::external_body]
fn par_count_correct(training: &Vec<LabelPixel>, validation: &Vec<LabelPixel>) -> (r: usize)
    requires
        training@.len() > 0,
        all_fit(training@, validation@),
    ensures
        r == correct_upto(training@, validation@, validation@.len() as int),
{
    validation.par_iter().filter(|s| is_correct(training, s)).count()
}

/// The outcome of one evaluation run.
#[derive(Debug, Clone, Copy, PartialEq, Eq)]
pub struct Evaluation {
    /// How many validation samples were classified as their own label.
    pub correct: usize,
    /// How many validation samples there were.
    pub total: usize,
    /// The accuracy `correct / total` as a percentage in hundredths of a
    /// percent, rounded toward zero: `10000` means every sample was correct.
    pub percent_hundredths: u64,
}

/// Classifies every validation sample against the full training set, in
/// parallel, and tallies how many received their ground-truth label. Either
/// dataset being empty is an error: with no training sample no nearest
/// neighbor exists, and with no validation sample the accuracy would divide
/// by zero.
pub fn evaluate(training: &Vec<LabelPixel>, validation: &Vec<LabelPixel>) -> (r: Result<
    Evaluation,
    KnnError,
>)
    requires
        all_fit(training@, validation@),
    ensures
        (training@.len() == 0 || validation@.len() == 0) <==> r is Err,
        r is Err ==> r == Err::<Evaluation, KnnError>(KnnError::EmptyDatasetError),
        r is Ok ==> {
            let e = r->Ok_0;
            &&& e.total == validation@.len()
            &&& e.correct == correct_upto(training@, validation@, validation@.len() as int)
            &&& e.percent_hundredths as int == (e.correct as int * 10000) / (e.total as int)
        },
{
    if training.len() == 0 || validation.len() == 0 {
        return Err(KnnError::EmptyDatasetError);
    }
    let correct = par_count_correct(training, validation);
    let total = validation.len();
    proof {
        lemma_correct_upto_bounds(training@, validation@, validation@.len() as int);
        lemma_div_is_ordered(
            correct as int * 10000,
            total as int * 10000,
            total as int,
        );
        lemma_div_multiples_vanish(10000, total as int);
        assert(correct as int * 10000 <= total as int * 10000);
    }
    let p: u128 = (correct as u128) * 10000 / (total as u128);
    Ok(Evaluation { correct, total, percent_hundredths: p as u64 })
}

/// Whether every training sample is within `u64` distance range of one
/// query, decided by running every pair through the overflow-checked
/// distance. A caller that cannot establish `classify`'s precondition any
/// other way tests it with this function first.
pub fn sample_fits_check(training: &Vec<LabelPixel>, q: &Vec<i32>) -> (r: bool)
    ensures
        r == sample_fits(training@, q@),
{
    let mut i: usize = 0;
    while i < training.len()
        invariant
            i <= training@.len(),
            forall|j: int|
                0 <= j < i ==> crate::dist::dist_sqr((#[trigger] training@[j]).pixels@, q@)
                    <= u64::MAX,
        decreases training@.len() - i,
    {
        if distance_sqr_checked(&training[i].pixels, q).is_none() {
            return false;
        }
        i = i + 1;
    }
    true
}

/// Whether every training/validation distance is representable. A caller
/// that cannot establish `evaluate`'s precondition any other way tests it
/// with this function first.
pub fn datasets_fit(training: &Vec<LabelPixel>, validation: &Vec<LabelPixel>) -> (r: bool)
    ensures
        r == all_fit(training@, validation@),
{
    let mut k: usize = 0;
    while k < validation.len()
        invariant
            k <= validation@.len(),
            forall|j: int|
                0 <= j < k ==> sample_fits(training@, (#[trigger] validation@[j]).pixels@),
        decreases validation@.len() - k,
    {
        if !sample_fits_check(training, &validation[k].pixels) {
            return false;
        }
        k = k + 1;
    }
    true
}

} // verus!
