use knnrs::data::KnnError;
use knnrs::parse::{parse_dataset, parse_i32, parse_row, split_lines, trim_bytes};

fn bytes(s: &str) -> Vec<u8> {
    s.as_bytes().to_vec()
}

#[test]
fn parse_i32_accepts_what_from_str_accepts() {
    assert_eq!(parse_i32(&bytes("42")), Some(42));
    assert_eq!(parse_i32(&bytes("0")), Some(0));
    assert_eq!(parse_i32(&bytes("-7")), Some(-7));
    assert_eq!(parse_i32(&bytes("+5")), Some(5));
    assert_eq!(parse_i32(&bytes("007")), Some(7));
    assert_eq!(parse_i32(&bytes("2147483647")), Some(i32::MAX));
    assert_eq!(parse_i32(&bytes("-2147483648")), Some(i32::MIN));
}

#[test]
fn parse_i32_rejects_what_from_str_rejects() {
    assert_eq!(parse_i32(&bytes("")), None);
    assert_eq!(parse_i32(&bytes("-")), None);
    assert_eq!(parse_i32(&bytes("+")), None);
    assert_eq!(parse_i32(&bytes("12a")), None);
    assert_eq!(parse_i32(&bytes(" 1")), None);
    assert_eq!(parse_i32(&bytes("1 ")), None);
    assert_eq!(parse_i32(&bytes("--1")), None);
    assert_eq!(parse_i32(&bytes("2147483648")), None);
    assert_eq!(parse_i32(&bytes("-2147483649")), None);
    assert_eq!(parse_i32(&bytes("99999999999999999999")), None);
}

#[test]
fn split_lines_like_bufread() {
    let ls = split_lines(&bytes("header\n1,2\n3,4\n"));
    assert_eq!(ls, vec![bytes("header"), bytes("1,2"), bytes("3,4")]);
    // no trailing newline: the last line still counts
    let ls = split_lines(&bytes("h\n1,2"));
    assert_eq!(ls, vec![bytes("h"), bytes("1,2")]);
    // an empty text has no lines
    let ls = split_lines(&bytes(""));
    assert_eq!(ls, Vec::<Vec<u8>>::new());
    // an empty line in the middle is kept
    let ls = split_lines(&bytes("a\n\nb"));
    assert_eq!(ls, vec![bytes("a"), bytes(""), bytes("b")]);
}

#[test]
fn trim_bytes_strips_ascii_whitespace() {
    assert_eq!(trim_bytes(&bytes("  1,2 \r")), bytes("1,2"));
    assert_eq!(trim_bytes(&bytes("\t")), bytes(""));
    assert_eq!(trim_bytes(&bytes("x")), bytes("x"));
}

#[test]
fn parse_row_reads_label_then_pixels() {
    let row = parse_row(&bytes("5,0,255,-3")).unwrap();
    assert_eq!(row.label, 5);
    assert_eq!(row.pixels, vec![0, 255, -3]);
    // a row of one field has a label and no pixels
    let row = parse_row(&bytes("9")).unwrap();
    assert_eq!(row.label, 9);
    assert_eq!(row.pixels, Vec::<i32>::new());
    // surrounding whitespace is trimmed, inner whitespace is not
    assert!(parse_row(&bytes(" 1,2 \r")).is_some());
    assert!(parse_row(&bytes("1, 2")).is_none());
    assert!(parse_row(&bytes("")).is_none());
    assert!(parse_row(&bytes("1,,2")).is_none());
}

#[test]
fn parse_dataset_reads_rows_after_header() {
    let ds = parse_dataset(&bytes("label,p0,p1\n1,0,0\n2,10,10\n")).unwrap();
    assert_eq!(ds.len(), 2);
    assert_eq!(ds[0].label, 1);
    assert_eq!(ds[0].pixels, vec![0, 0]);
    assert_eq!(ds[1].label, 2);
    assert_eq!(ds[1].pixels, vec![10, 10]);
}

#[test]
fn parse_dataset_empty_inputs() {
    assert_eq!(parse_dataset(&bytes("")).unwrap().len(), 0);
    assert_eq!(parse_dataset(&bytes("header only\n")).unwrap().len(), 0);
}

#[test]
fn parse_dataset_reports_first_bad_line() {
    assert_eq!(
        parse_dataset(&bytes("h\n1,x,3\n")),
        Err(KnnError::ParseError { line: 2 })
    );
    assert_eq!(
        parse_dataset(&bytes("h\n1,2\nbad\n4,5\n")),
        Err(KnnError::ParseError { line: 3 })
    );
    // a blank line is a malformed row, not a skipped one
    assert_eq!(
        parse_dataset(&bytes("h\n1,2\n\n3,4\n")),
        Err(KnnError::ParseError { line: 3 })
    );
    // an out-of-range field is malformed
    assert_eq!(
        parse_dataset(&bytes("h\n1,2147483648\n")),
        Err(KnnError::ParseError { line: 2 })
    );
}
