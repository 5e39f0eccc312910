//! The loader: comma-separated integer rows, one header line, into labeled
//! feature vectors.

use vstd::prelude::*;
use crate::data::{KnnError, LabelPixel};

verus! {

/// The position of the first occurrence of `t` in `s`, or `s.len()` if `t`
/// does not occur.
pub open spec fn find_byte(s: Seq<u8>, t: u8) -> nat
    decreases s.len(),
{
    if s.len() == 0 {
        0
    } else if s[0] == t {
        0
    } else {
        1 + find_byte(s.drop_first(), t)
    }
}

/// Any position with nothing matching before it, and matching unless it is
/// the length, is `find_byte`.
pub proof fn lemma_find_byte_is_first(s: Seq<u8>, t: u8, k: int)
    requires
        0 <= k <= s.len(),
        forall|j: int| 0 <= j < k ==> s[j] != t,
        k < s.len() ==> s[k] == t,
    ensures
        find_byte(s, t) == k,
    decreases s.len(),
{
    if k == 0 {
    } else {
        assert(s[0] != t);
        assert forall|j: int| 0 <= j < k - 1 implies s.drop_first()[j] != t by {
            assert(s.drop_first()[j] == s[j + 1]);
        }
        assert(k - 1 < s.drop_first().len() ==> s.drop_first()[k - 1] == s[k]);
        lemma_find_byte_is_first(s.drop_first(), t, k - 1);
    }
}

/// The lines of a text, as `BufRead::lines` yields them: pieces between
/// newline bytes, the newline consumed, and no empty final line when the
/// text ends with a newline.
pub open spec fn lines_of(s: Seq<u8>) -> Seq<Seq<u8>>
    decreases s.len(),
{
    if s.len() == 0 {
        seq![]
    } else {
        let k = find_byte(s, 10);
        if k >= s.len() {
            seq![s]
        } else {
            seq![s.take(k as int)] + lines_of(s.skip(k as int + 1))
        }
    }
}

/// The fields of a line, split on commas, as `str::split(',')` yields them:
/// an empty line is one empty field, and a trailing comma yields a trailing
/// empty field.
pub open spec fn fields_of(s: Seq<u8>) -> Seq<Seq<u8>>
    decreases s.len(),
{
    let k = find_byte(s, 44);
    if k >= s.len() {
        seq![s]
    } else {
        seq![s.take(k as int)] + fields_of(s.skip(k as int + 1))
    }
}

/// ASCII whitespace: space, tab, line feed, form feed, carriage return.
pub open spec fn is_ws(b: u8) -> bool {
    b == 32 || b == 9 || b == 10 || b == 12 || b == 13
}

/// `s` with leading ASCII whitespace removed.
pub open spec fn trim_front(s: Seq<u8>) -> Seq<u8>
    decreases s.len(),
{
    if s.len() > 0 && is_ws(s[0]) {
        trim_front(s.drop_first())
    } else {
        s
    }
}

/// `s` with trailing ASCII whitespace removed.
pub open spec fn trim_back(s: Seq<u8>) -> Seq<u8>
    decreases s.len(),
{
    if s.len() > 0 && is_ws(s.last()) {
        trim_back(s.drop_last())
    } else {
        s
    }
}

/// `s` with leading and trailing ASCII whitespace removed.
pub open spec fn trim_of(s: Seq<u8>) -> Seq<u8> {
    trim_back(trim_front(s))
}

proof fn lemma_trim_front_skip(s: Seq<u8>, i: int)
    requires
        0 <= i <= s.len(),
        forall|j: int| 0 <= j < i ==> is_ws(s[j]),
        i < s.len() ==> !is_ws(s[i]),
    ensures
        trim_front(s) == s.skip(i),
    decreases i,
{
    if i == 0 {
        assert(s.skip(0) =~= s);
    } else {
        assert(is_ws(s[0]));
        assert forall|j: int| 0 <= j < i - 1 implies is_ws(s.drop_first()[j]) by {
            assert(s.drop_first()[j] == s[j + 1]);
        }
        assert(i - 1 < s.drop_first().len() ==> !is_ws(s.drop_first()[i - 1]));
        lemma_trim_front_skip(s.drop_first(), i - 1);
        assert(s.drop_first().skip(i - 1) =~= s.skip(i));
    }
}

proof fn lemma_trim_back_take(s: Seq<u8>, i: int)
    requires
        0 <= i <= s.len(),
        forall|j: int| i <= j < s.len() ==> is_ws(s[j]),
        i > 0 ==> !is_ws(s[i - 1]),
    ensures
        trim_back(s) == s.take(i),
    decreases s.len() - i,
{
    if i == s.len() {
        assert(s.take(i) =~= s);
    } else {
        assert(is_ws(s.last()));
        assert forall|j: int| i <= j < s.drop_last().len() implies is_ws(s.drop_last()[j]) by {
            assert(s.drop_last()[j] == s[j]);
        }
        lemma_trim_back_take(s.drop_last(), i);
        assert(s.drop_last().take(i) =~= s.take(i));
    }
}

/// The views of a sequence of byte vectors.
pub open spec fn views(vs: Seq<Vec<u8>>) -> Seq<Seq<u8>> {
    vs.map_values(|v: Vec<u8>| v@)
}

/// A copy of `s[a..b]`.
fn subvec(s: &Vec<u8>, a: usize, b: usize) -> (r: Vec<u8>)
    requires
        a <= b <= s@.len(),
    ensures
        r@ == s@.subrange(a as int, b as int),
{
    let mut r: Vec<u8> = Vec::new();
    let mut i: usize = a;
    while i < b
        invariant
            a <= i <= b <= s@.len(),
            r@ == s@.subrange(a as int, i as int),
        decreases b - i,
    {
        r.push(s[i]);
        proof {
            assert(s@.subrange(a as int, i + 1) =~= s@.subrange(a as int, i as int).push(
                s@[i as int],
            ));
        }
        i = i + 1;
    }
    r
}

/// The position of the first occurrence of `t` in `s` at or after `from`,
/// or the length if there is none.
fn find_byte_from(s: &Vec<u8>, t: u8, from: usize) -> (r: usize)
    requires
        from <= s@.len(),
    ensures
        from <= r <= s@.len(),
        r - from == find_byte(s@.skip(from as int), t),
        forall|j: int| from <= j < r ==> s@[j] != t,
        r < s@.len() ==> s@[r as int] == t,
{
    let mut i: usize = from;
    while i < s.len() && s[i] != t
        invariant
            from <= i <= s@.len(),
            forall|j: int| from <= j < i ==> s@[j] != t,
        decreases s@.len() - i,
    {
        i = i + 1;
    }
    proof {
        let sub = s@.skip(from as int);
        assert forall|j: int| 0 <= j < i - from implies sub[j] != t by {
            assert(sub[j] == s@[from + j]);
        }
        assert(i - from < sub.len() ==> sub[i - from] == s@[i as int]);
        lemma_find_byte_is_first(sub, t, i - from);
    }
    i
}

/// Splits a text into its lines, newline bytes consumed, with no empty
/// final line when the text ends with a newline.
pub fn split_lines(content: &Vec<u8>) -> (r: Vec<Vec<u8>>)
    ensures
        views(r@) == lines_of(content@),
{
    let mut out: Vec<Vec<u8>> = Vec::new();
    let mut pos: usize = 0;
    proof {
        assert(content@.skip(0) =~= content@);
        assert(views(out@) =~= Seq::<Seq<u8>>::empty());
    }
    while pos < content.len()
        invariant
            pos <= content@.len(),
            lines_of(content@) == views(out@) + lines_of(content@.skip(pos as int)),
        decreases content@.len() - pos,
    {
        let k = find_byte_from(content, 10, pos);
        let piece = subvec(content, pos, k);
        proof {
            let rest = content@.skip(pos as int);
            assert(rest.len() > 0);
            assert(piece@ =~= rest.take(k - pos));
            if k < content@.len() {
                assert(rest.skip(k - pos + 1) =~= content@.skip(k + 1));
                assert(lines_of(rest) == seq![piece@] + lines_of(content@.skip(k + 1)));
            } else {
                assert(piece@ =~= rest);
                assert(lines_of(rest) == seq![rest]);
            }
            assert(views(out@.push(piece)) =~= views(out@) + seq![piece@]);
        }
        out.push(piece);
        if k < content.len() {
            pos = k + 1;
        } else {
            pos = k;
            proof {
                assert(lines_of(content@.skip(pos as int)) =~= Seq::<Seq<u8>>::empty());
                assert(lines_of(content@) =~= views(out@));
            }
            return out;
        }
        proof {
            assert(lines_of(content@) =~= views(out@) + lines_of(content@.skip(pos as int)));
        }
    }
    proof {
        assert(content@.skip(pos as int).len() == 0);
        assert(lines_of(content@) =~= views(out@));
    }
    out
}

/// Splits a line into its comma-separated fields: always at least one
/// field, an empty line giving one empty field.
pub fn split_fields(s: &Vec<u8>) -> (r: Vec<Vec<u8>>)
    ensures
        views(r@) == fields_of(s@),
        r@.len() >= 1,
{
    let mut out: Vec<Vec<u8>> = Vec::new();
    let mut pos: usize = 0;
    let mut done = false;
    proof {
        assert(s@.skip(0) =~= s@);
        assert(views(out@) =~= Seq::<Seq<u8>>::empty());
    }
    while !done
        invariant
            pos <= s@.len(),
            !done ==> fields_of(s@) == views(out@) + fields_of(s@.skip(pos as int)),
            done ==> fields_of(s@) == views(out@),
            done ==> out@.len() >= 1,
        decreases s@.len() - pos + (if done { 0int } else { 1int }),
    {
        let k = find_byte_from(s, 44, pos);
        let piece = subvec(s, pos, k);
        proof {
            let rest = s@.skip(pos as int);
            assert(piece@ =~= rest.take(k - pos));
            if k < s@.len() {
                assert(rest.skip(k - pos + 1) =~= s@.skip(k + 1));
                assert(fields_of(rest) == seq![piece@] + fields_of(s@.skip(k + 1)));
            } else {
                assert(piece@ =~= rest);
                assert(fields_of(rest) == seq![rest]);
            }
            assert(views(out@.push(piece)) =~= views(out@) + seq![piece@]);
        }
        out.push(piece);
        if k < s.len() {
            pos = k + 1;
        } else {
            pos = k;
            done = true;
        }
        proof {
            if !done {
                assert(fields_of(s@) =~= views(out@) + fields_of(s@.skip(pos as int)));
            } else {
                assert(fields_of(s@) =~= views(out@));
            }
        }
    }
    out
}

/// A copy of `s` with leading and trailing ASCII whitespace removed.
pub fn trim_bytes(s: &Vec<u8>) -> (r: Vec<u8>)
    ensures
        r@ == trim_of(s@),
{
    let mut a: usize = 0;
    while a < s.len() && (s[a] == 32 || s[a] == 9 || s[a] == 10 || s[a] == 12 || s[a] == 13)
        invariant
            a <= s@.len(),
            forall|j: int| 0 <= j < a ==> is_ws(s@[j]),
        decreases s@.len() - a,
    {
        a = a + 1;
    }
    let mut b: usize = s.len();
    while b > a && (s[b - 1] == 32 || s[b - 1] == 9 || s[b - 1] == 10 || s[b - 1] == 12 || s[b - 1]
        == 13)
        invariant
            a <= b <= s@.len(),
            forall|j: int| b <= j < s@.len() ==> is_ws(s@[j]),
        decreases b,
    {
        b = b - 1;
    }
    let r = subvec(s, a, b);
    proof {
        lemma_trim_front_skip(s@, a as int);
        let front = s@.skip(a as int);
        assert forall|j: int| b - a <= j < front.len() implies is_ws(front[j]) by {
            assert(front[j] == s@[a + j]);
        }
        assert(b - a > 0 ==> front[b - a - 1] == s@[b - 1]);
        lemma_trim_back_take(front, b - a);
        assert(front.take(b - a) =~= s@.subrange(a as int, b as int));
    }
    r
}

/// An ASCII decimal digit.
pub open spec fn is_digit(b: u8) -> bool {
    48 <= b <= 57
}

/// Every byte of `s` is a decimal digit.
pub open spec fn all_digits(s: Seq<u8>) -> bool {
    forall|i: int| 0 <= i < s.len() ==> is_digit(#[trigger] s[i])
}

/// The value of a digit string read in base ten.
pub open spec fn digits_val(s: Seq<u8>) -> int
    decreases s.len(),
{
    if s.len() == 0 {
        0
    } else {
        digits_val(s.drop_last()) * 10 + (s.last() - 48)
    }
}

/// The digits of an integer literal: everything after an optional single
/// leading `+` or `-`.
pub open spec fn int_body(s: Seq<u8>) -> Seq<u8> {
    if s.len() > 0 && (s[0] == 43 || s[0] == 45) {
        s.drop_first()
    } else {
        s
    }
}

/// A signed decimal integer literal, as `i32::from_str` accepts it, apart
/// from the range: an optional sign and at least one digit.
pub open spec fn is_int_literal(s: Seq<u8>) -> bool {
    int_body(s).len() > 0 && all_digits(int_body(s))
}

/// The value of an integer literal.
pub open spec fn int_literal_val(s: Seq<u8>) -> int {
    if s.len() > 0 && s[0] == 45 {
        -digits_val(int_body(s))
    } else {
        digits_val(int_body(s))
    }
}

/// A decimal integer literal whose value fits in an `i32`: exactly the
/// strings `i32::from_str` accepts.
pub open spec fn is_i32_literal(s: Seq<u8>) -> bool {
    is_int_literal(s) && i32::MIN <= int_literal_val(s) <= i32::MAX
}

proof fn lemma_digits_val_nonneg(s: Seq<u8>)
    requires
        all_digits(s),
    ensures
        digits_val(s) >= 0,
    decreases s.len(),
{
    if s.len() > 0 {
        assert forall|i: int| 0 <= i < s.drop_last().len() implies is_digit(
            #[trigger] s.drop_last()[i],
        ) by {
            assert(s.drop_last()[i] == s[i]);
        }
        lemma_digits_val_nonneg(s.drop_last());
    }
}

/// Reading more digits never shrinks the value.
proof fn lemma_digits_val_monotone(s: Seq<u8>, i: int, j: int)
    requires
        all_digits(s),
        0 <= i <= j <= s.len(),
    ensures
        digits_val(s.take(i)) <= digits_val(s.take(j)),
    decreases j - i,
{
    if i < j {
        lemma_digits_val_monotone(s, i, j - 1);
        let tj = s.take(j);
        assert forall|l: int| 0 <= l < tj.len() implies is_digit(#[trigger] tj[l]) by {
            assert(tj[l] == s[l]);
        }
        assert(tj.drop_last() =~= s.take(j - 1));
        assert forall|l: int| 0 <= l < j - 1 implies is_digit(#[trigger] s.take(j - 1)[l]) by {
            assert(s.take(j - 1)[l] == s[l]);
        }
        lemma_digits_val_nonneg(s.take(j - 1));
        assert(digits_val(tj) == digits_val(s.take(j - 1)) * 10 + (tj.last() - 48));
    }
}

/// Parses a signed decimal `i32`, accepting exactly the strings that
/// `i32::from_str` accepts: an optional `+` or `-` sign, then one or more
/// digits, the value in `i32` range.
pub fn parse_i32(s: &Vec<u8>) -> (r: Option<i32>)
    ensures
        r is Some <==> is_i32_literal(s@),
        r is Some ==> r->Some_0 == int_literal_val(s@),
{
    let ghost body = int_body(s@);
    let mut i: usize = 0;
    let mut neg = false;
    if s.len() > 0 && (s[0] == 43 || s[0] == 45) {
        neg = s[0] == 45;
        i = 1;
    }
    proof {
        assert(body =~= s@.skip(i as int));
    }
    if i >= s.len() {
        // no digits at all
        return None;
    }
    let mut mag: u64 = 0;
    let mut j: usize = i;
    while j < s.len()
        invariant
            i <= j <= s@.len(),
            body == int_body(s@),
            body == s@.skip(i as int),
            body.len() == s@.len() - i,
            all_digits(body.take(j - i)),
            mag == digits_val(body.take(j - i)),
            mag <= 0x8000_0000u64,
        decreases s@.len() - j,
    {
        let b = s[j];
        if b < 48 || b > 57 {
            proof {
                assert(body[j - i] == s@[j as int]);
                assert(!all_digits(body));
            }
            return None;
        }
        mag = mag * 10 + ((b - 48) as u64);
        proof {
            let t = body.take(j - i + 1);
            assert(t.drop_last() =~= body.take(j - i));
            assert(t.last() == s@[j as int]);
            assert forall|l: int| 0 <= l < t.len() implies is_digit(#[trigger] t[l]) by {
                assert(t[l] == body.take(j - i)[l] || l == j - i);
            }
        }
        if mag > 0x8000_0000 {
            proof {
                if is_int_literal(s@) {
                    lemma_digits_val_monotone(body, j - i + 1, body.len() as int);
                    assert(body.take(body.len() as int) =~= body);
                }
            }
            return None;
        }
        j = j + 1;
    }
    proof {
        assert(body.take(body.len() as int) =~= body);
        assert(is_int_literal(s@));
    }
    if neg {
        let v: i64 = -(mag as i64);
        proof {
            assert(s@[0] == 45);
        }
        Some(v as i32)
    } else {
        if mag > 0x7FFF_FFFF {
            return None;
        }
        Some(mag as i32)
    }
}

/// The fields of a data row: the row trimmed of surrounding whitespace,
/// then split on commas.
pub open spec fn row_fields(s: Seq<u8>) -> Seq<Seq<u8>> {
    fields_of(trim_of(s))
}

/// A well-formed data row: every comma-separated field an `i32` literal.
/// The first field is the label, the rest are the pixels, so a well-formed
/// row has at least the label (a row with no comma is one field).
pub open spec fn row_ok(s: Seq<u8>) -> bool {
    forall|i: int| 0 <= i < row_fields(s).len() ==> is_i32_literal(#[trigger] row_fields(s)[i])
}

/// The label of a well-formed row: its first field.
pub open spec fn row_label(s: Seq<u8>) -> int {
    int_literal_val(row_fields(s)[0])
}

/// The pixels of a well-formed row: every field after the first, in order.
pub open spec fn row_pixels(s: Seq<u8>) -> Seq<int> {
    row_fields(s).skip(1).map_values(|f: Seq<u8>| int_literal_val(f))
}

/// The parsed sample agrees with the row, field for field.
pub open spec fn lp_matches_row(lp: LabelPixel, row: Seq<u8>) -> bool {
    &&& lp.label == row_label(row)
    &&& lp.pixels@.len() == row_pixels(row).len()
    &&& forall|i: int| 0 <= i < lp.pixels@.len() ==> lp.pixels@[i] == row_pixels(row)[i]
}

/// Parses one data row: trims it, splits it on commas, and reads every
/// field as an `i32`; the first field is the label, the rest the pixels.
pub fn parse_row(line: &Vec<u8>) -> (r: Option<LabelPixel>)
    ensures
        r is Some <==> row_ok(line@),
        r is Some ==> lp_matches_row(r->Some_0, line@),
{
    let t = trim_bytes(line);
    let fields = split_fields(&t);
    proof {
        assert(views(fields@) == row_fields(line@));
        assert(views(fields@)[0] == fields@[0]@);
    }
    let label: i32 = match parse_i32(&fields[0]) {
        Some(v) => v,
        None => {
            proof {
                assert(!is_i32_literal(row_fields(line@)[0]));
            }
            return None;
        },
    };
    let mut pixels: Vec<i32> = Vec::new();
    let mut i: usize = 1;
    while i < fields.len()
        invariant
            1 <= i <= fields@.len(),
            views(fields@) == row_fields(line@),
            forall|j: int| 0 <= j < i ==> is_i32_literal(#[trigger] row_fields(line@)[j]),
            pixels@.len() == i - 1,
            forall|j: int|
                0 <= j < i - 1 ==> pixels@[j] == int_literal_val(
                    #[trigger] row_fields(line@)[j + 1],
                ),
        decreases fields@.len() - i,
    {
        proof {
            assert(views(fields@)[i as int] == fields@[i as int]@);
        }
        match parse_i32(&fields[i]) {
            Some(v) => pixels.push(v),
            None => {
                proof {
                    assert(!is_i32_literal(row_fields(line@)[i as int]));
                }
                return None;
            },
        }
        i = i + 1;
    }
    proof {
        let rp = row_pixels(line@);
        assert(rp.len() == row_fields(line@).len() - 1);
        assert forall|j: int| 0 <= j < pixels@.len() implies pixels@[j] == rp[j] by {
            assert(rp[j] == int_literal_val(row_fields(line@).skip(1)[j]));
            assert(row_fields(line@).skip(1)[j] == row_fields(line@)[j + 1]);
        }
    }
    Some(LabelPixel { label, pixels })
}

/// The data rows of a file: every line after the header.
pub open spec fn data_rows(content: Seq<u8>) -> Seq<Seq<u8>> {
    if lines_of(content).len() == 0 {
        seq![]
    } else {
        lines_of(content).skip(1)
    }
}

/// Every data row of the file is well formed.
pub open spec fn rows_ok(content: Seq<u8>) -> bool {
    forall|k: int| 0 <= k < data_rows(content).len() ==> row_ok(#[trigger] data_rows(content)[k])
}

/// Parses a whole file: the first line is a header and is discarded, every
/// later line is a comma-separated row of integers, the first the label and
/// the rest the pixels. The first malformed row fails the whole load with
/// its 1-based file line number; no row is skipped silently. A file with no
/// data rows gives an empty dataset.
pub fn parse_dataset(content: &Vec<u8>) -> (r: Result<Vec<LabelPixel>, KnnError>)
    ensures
        r is Ok <==> rows_ok(content@),
        r is Ok ==> {
            let ds = r->Ok_0@;
            &&& ds.len() == data_rows(content@).len()
            &&& forall|k: int|
                0 <= k < ds.len() ==> lp_matches_row(#[trigger] ds[k], data_rows(content@)[k])
        },
        r is Err ==> (r->Err_0 matches KnnError::ParseError { line } && {
            let idx = line - 2;
            &&& 2 <= line
            &&& idx < data_rows(content@).len()
            &&& !row_ok(data_rows(content@)[idx])
            &&& forall|j: int| 0 <= j < idx ==> row_ok(#[trigger] data_rows(content@)[j])
        }),
{
    let lines = split_lines(content);
    let mut ds: Vec<LabelPixel> = Vec::new();
    let mut i: usize = 1;
    while i < lines.len()
        invariant
            1 <= i,
            i - 1 <= data_rows(content@).len(),
            views(lines@) == lines_of(content@),
            lines@.len() > 0 ==> data_rows(content@) == lines_of(content@).skip(1),
            lines@.len() > 0 ==> i <= lines@.len(),
            lines@.len() == 0 ==> i == 1,
            ds@.len() == i - 1,
            forall|j: int| 0 <= j < i - 1 ==> row_ok(#[trigger] data_rows(content@)[j]),
            forall|j: int|
                0 <= j < i - 1 ==> lp_matches_row(#[trigger] ds@[j], data_rows(content@)[j]),
        decreases lines@.len() - i,
    {
        proof {
            assert(views(lines@)[i as int] == lines@[i as int]@);
            assert(data_rows(content@)[i - 1] == lines_of(content@)[i as int]);
        }
        match parse_row(&lines[i]) {
            Some(lp) => {
                ds.push(lp);
            },
            None => {
                return Err(KnnError::ParseError { line: i + 1 });
            },
        }
        i = i + 1;
    }
    proof {
        if lines@.len() == 0 {
            assert(data_rows(content@).len() == 0);
        } else {
            assert(data_rows(content@).len() == lines@.len() - 1);
        }
    }
    Ok(ds)
}

} // verus!
