use knnrs::data::{KnnError, LabelPixel};
use knnrs::eval::{datasets_fit, evaluate};
use knnrs::parse::parse_dataset;

fn bytes(s: &str) -> Vec<u8> {
    s.as_bytes().to_vec()
}

fn lp(label: i32, pixels: Vec<i32>) -> LabelPixel {
    LabelPixel { label, pixels }
}

#[test]
fn end_to_end_all_correct() {
    let training = parse_dataset(&bytes("label,p0,p1\n1,0,0\n2,10,10\n")).unwrap();
    let validation = parse_dataset(&bytes("label,p0,p1\n1,0,1\n2,9,9\n")).unwrap();
    assert!(datasets_fit(&training, &validation));
    let e = evaluate(&training, &validation).unwrap();
    assert_eq!(e.correct, 2);
    assert_eq!(e.total, 2);
    assert_eq!(e.percent_hundredths, 10000);
    let text = String::from_utf8(knnrs::render::percent_bytes(e.percent_hundredths)).unwrap();
    assert_eq!(format!("Percentage correct: {text}%"), "Percentage correct: 100.00%");
}

#[test]
fn end_to_end_none_correct() {
    let training = parse_dataset(&bytes("label,p0,p1\n1,0,0\n2,10,10\n")).unwrap();
    // nearest to (0,0) is label 1 at distance 0, but the ground truth says 2
    let validation = parse_dataset(&bytes("label,p0,p1\n2,0,0\n")).unwrap();
    let e = evaluate(&training, &validation).unwrap();
    assert_eq!(e.correct, 0);
    assert_eq!(e.total, 1);
    assert_eq!(e.percent_hundredths, 0);
    let text = String::from_utf8(knnrs::render::percent_bytes(e.percent_hundredths)).unwrap();
    assert_eq!(format!("Percentage correct: {text}%"), "Percentage correct: 0.00%");
}

#[test]
fn evaluate_half_correct() {
    let training = vec![lp(1, vec![0, 0]), lp(2, vec![10, 10])];
    let validation = vec![lp(1, vec![1, 1]), lp(2, vec![2, 2])];
    let e = evaluate(&training, &validation).unwrap();
    assert_eq!(e.correct, 1);
    assert_eq!(e.total, 2);
    assert_eq!(e.percent_hundredths, 5000);
}

#[test]
fn evaluate_empty_training() {
    let training = parse_dataset(&bytes("header\n")).unwrap();
    let validation = vec![lp(1, vec![0, 0])];
    assert_eq!(evaluate(&training, &validation), Err(KnnError::EmptyDatasetError));
}

#[test]
fn evaluate_empty_validation() {
    let training = vec![lp(1, vec![0, 0])];
    let validation = parse_dataset(&bytes("header\n")).unwrap();
    assert_eq!(evaluate(&training, &validation), Err(KnnError::EmptyDatasetError));
}

#[test]
fn datasets_fit_detects_overflow() {
    let training = vec![lp(1, vec![i32::MAX, i32::MAX])];
    let validation = vec![lp(1, vec![i32::MIN, i32::MIN])];
    assert!(!datasets_fit(&training, &validation));
    let training = vec![lp(1, vec![0, 0])];
    let validation = vec![lp(1, vec![255, 255])];
    assert!(datasets_fit(&training, &validation));
}
