use knnrs::render::percent_bytes;

fn text(p: u64) -> String {
    String::from_utf8(percent_bytes(p)).unwrap()
}

#[test]
fn percent_two_fraction_digits() {
    assert_eq!(text(10000), "100.00");
    assert_eq!(text(0), "0.00");
    assert_eq!(text(5000), "50.00");
    assert_eq!(text(33), "0.33");
    assert_eq!(text(9999), "99.99");
    assert_eq!(text(10), "0.10");
    assert_eq!(text(1), "0.01");
}

#[test]
fn percent_beyond_one_hundred_still_renders() {
    // the evaluator never produces more than 10000, but the rendering is
    // total and keeps every integer digit
    assert_eq!(text(12345), "123.45");
}
