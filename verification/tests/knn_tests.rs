use knnrs::data::{KnnError, LabelPixel};
use knnrs::knn::classify;

fn lp(label: i32, pixels: Vec<i32>) -> LabelPixel {
    LabelPixel { label, pixels }
}

#[test]
fn classify_tie_break_first() {
    let training = vec![lp(1, vec![0, 0]), lp(2, vec![0, 0])];
    assert_eq!(classify(&training, &vec![0, 0]), Ok(1));
}

#[test]
fn classify_single_row() {
    let training = vec![lp(7, vec![1, 2, 3])];
    assert_eq!(classify(&training, &vec![1, 2, 3]), Ok(7));
    assert_eq!(classify(&training, &vec![1000, -1000, 0]), Ok(7));
    assert_eq!(classify(&training, &vec![0, 0, 0]), Ok(7));
}

#[test]
fn classify_empty_training() {
    let training: Vec<LabelPixel> = vec![];
    assert_eq!(classify(&training, &vec![0, 0]), Err(KnnError::EmptyDatasetError));
}

#[test]
fn classify_picks_nearest() {
    let training = vec![lp(1, vec![0, 0]), lp(2, vec![10, 10]), lp(3, vec![-5, 4])];
    assert_eq!(classify(&training, &vec![9, 9]), Ok(2));
    assert_eq!(classify(&training, &vec![1, 0]), Ok(1));
    assert_eq!(classify(&training, &vec![-5, 5]), Ok(3));
}

#[test]
fn classify_is_deterministic() {
    let training = vec![lp(1, vec![0, 0]), lp(2, vec![3, 4]), lp(2, vec![-1, 2])];
    let query = vec![1, 3];
    let first = classify(&training, &query);
    assert_eq!(classify(&training, &query), first);
    assert_eq!(classify(&training, &query), first);
    assert_eq!(classify(&training, &query), first);
}

#[test]
fn classify_tie_not_at_front() {
    // rows 2 and 3 tie at distance 1; the earlier of the two wins
    let training = vec![lp(9, vec![50, 50]), lp(4, vec![0, 1]), lp(5, vec![1, 0])];
    assert_eq!(classify(&training, &vec![0, 0]), Ok(4));
}
