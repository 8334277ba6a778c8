use vstd::prelude::*;
use vstd::string::*;
use crate::descriptor::{DescKey, ElementDescriptor, SequenceDescriptor};

verus! {

/// The records that the csv crate reads from `text` with `;` as delimiter, no
/// header row and records of any length (each record a sequence of fields),
/// or `None` when it reports an error for some record.
pub uninterp spec fn semicolon_records(text: Seq<u8>) -> Option<Seq<Seq<Seq<char>>>>;

/// Relies on csv's `ReaderBuilder` (delimiter `;`, no header row, flexible
/// record lengths) and on its `records` iterator: the fields of every record, in order, or `None` at the
/// first record it reports as an error.
#[verifier::external_body]
fn read_records(text: &[u8]) -> (r: Option<Vec<Vec<String>>>)
    ensures
        match r {
            Some(rows) => semicolon_records(text@) == Some(rows.deep_view()),
            None => semicolon_records(text@) is None,
        },
{
    let mut reader = csv::ReaderBuilder::new().delimiter(b';').has_headers(false).flexible(true).from_reader(text);
    let mut rows: Vec<Vec<String>> = Vec::new();
    for record in reader.records() {
        let record = record.ok()?;
        rows.push(record.iter().map(String::from).collect());
    }
    Some(rows)
}

/// Largest magnitude that a numeric table field may have.
pub const FIELD_LIMIT: i64 = 100_000_000_000_000_000;

pub open spec fn is_digit(c: char) -> bool {
    '0' <= c <= '9'
}

pub open spec fn digit_value(c: char) -> int {
    (c as u32) as int - ('0' as u32) as int
}

/// The value of a string of decimal digits.
pub open spec fn digits_value(s: Seq<char>) -> int
    decreases s.len(),
{
    if s.len() == 0 {
        0
    } else {
        10 * digits_value(s.drop_last()) + digit_value(s.last())
    }
}

pub open spec fn all_digits(s: Seq<char>) -> bool {
    s.len() > 0 && forall|i: int| 0 <= i < s.len() ==> is_digit(#[trigger] s[i])
}

/// A decimal integer with an optional sign, and no magnitude above
/// `FIELD_LIMIT`.
pub open spec fn decimal_of(s: Seq<char>) -> Option<int> {
    let signed = s.len() > 0 && (s[0] == '-' || s[0] == '+');
    let d = if signed { s.drop_first() } else { s };
    if all_digits(d) && digits_value(d) <= FIELD_LIMIT {
        Some(if s[0] == '-' { -digits_value(d) } else { digits_value(d) })
    } else {
        None
    }
}

proof fn lemma_digits_grow(s: Seq<char>, k: int)
    requires
        0 <= k <= s.len(),
        forall|i: int| 0 <= i < s.len() ==> is_digit(#[trigger] s[i]),
    ensures
        0 <= digits_value(s.subrange(0, k)) <= digits_value(s),
    decreases s.len() - k,
{
    if k < s.len() {
        lemma_digits_grow(s.drop_last(), k);
        assert(s.drop_last().subrange(0, k) == s.subrange(0, k));
        lemma_digits_grow(s.drop_last(), s.len() - 1);
        assert(s.drop_last().subrange(0, s.len() - 1) == s.drop_last());
    } else {
        assert(s.subrange(0, k) == s);
        lemma_digits_nonneg(s);
    }
}

proof fn lemma_digits_nonneg(s: Seq<char>)
    requires
        forall|i: int| 0 <= i < s.len() ==> is_digit(#[trigger] s[i]),
    ensures
        digits_value(s) >= 0,
    decreases s.len(),
{
    if s.len() > 0 {
        lemma_digits_nonneg(s.drop_last());
    }
}

/// Reads a table field as a decimal integer.
pub fn parse_decimal(s: &String) -> (r: Option<i64>)
    ensures
        match decimal_of(s@) {
            Some(v) => r is Some && r.unwrap() == v,
            None => r is None,
        },
{
    let n = s.as_str().unicode_len();
    if n == 0 {
        return None;
    }
    let first = s.as_str().get_char(0);
    let signed = first == '-' || first == '+';
    let ghost d = if signed { s@.drop_first() } else { s@ };
    let mut i: usize = if signed { 1 } else { 0 };
    if i == n {
        return None;
    }
    let mut acc: i64 = 0;
    while i < n
        invariant
            n == s@.len(),
            (if signed { 1usize } else { 0usize }) <= i <= n,
            d == s@.subrange(if signed { 1 } else { 0 }, n as int),
            d == (if signed { s@.drop_first() } else { s@ }),
            n > 0,
            first == s@[0],
            signed == (first == '-' || first == '+'),
            forall|j: int| 0 <= j < i - (if signed { 1int } else { 0int }) ==> is_digit(#[trigger] d[j]),
            acc == digits_value(d.subrange(0, i - (if signed { 1int } else { 0int }))),
            0 <= acc <= FIELD_LIMIT,
        decreases n - i,
    {
        let c = s.as_str().get_char(i);
        let ghost k = i - (if signed { 1int } else { 0int });
        if !('0' <= c && c <= '9') {
            proof {
                assert(d[k] == c);
                assert(!is_digit(d[k]));
                assert(!all_digits(d));
            }
            return None;
        }
        let v = (c as u32 - '0' as u32) as i64;
        assert(d.subrange(0, k + 1).drop_last() == d.subrange(0, k));
        let next = acc * 10 + v;
        proof {
            assert(d[k] == c);
            assert(digit_value(c) == v);
            assert(digits_value(d.subrange(0, k + 1)) == next);
        }
        if next > FIELD_LIMIT {
            proof {
                assert(forall|j: int| 0 <= j < k + 1 ==> is_digit(#[trigger] d.subrange(0, k + 1)[j]));
                if all_digits(d) {
                    lemma_digits_grow(d, k + 1);
                }
            }
            return None;
        }
        acc = next;
        i = i + 1;
    }
    assert(d.subrange(0, d.len() as int) == d);
    if first == '-' {
        Some(-acc)
    } else {
        Some(acc)
    }
}

/// The key written in three fields `F`, `X`, `Y`.
pub open spec fn key_of_fields(f: Seq<char>, x: Seq<char>, y: Seq<char>) -> Option<DescKey> {
    match (decimal_of(f), decimal_of(x), decimal_of(y)) {
        (Some(a), Some(b), Some(c)) => if 0 <= a <= 3 && 0 <= b <= 63 && 0 <= c <= 255 {
            Some(DescKey { f: a as u8, x: b as u8, y: c as u8 })
        } else {
            None
        },
        _ => None,
    }
}

/// Reads three fields as a key.
pub fn parse_key(f: &String, x: &String, y: &String) -> (r: Option<DescKey>)
    ensures
        r == key_of_fields(f@, x@, y@),
{
    let a = parse_decimal(f);
    let b = parse_decimal(x);
    let c = parse_decimal(y);
    match (a, b, c) {
        (Some(a), Some(b), Some(c)) => if 0 <= a && a <= 3 && 0 <= b && b <= 63 && 0 <= c && c <= 255 {
            Some(DescKey { f: a as u8, x: b as u8, y: c as u8 })
        } else {
            None
        },
        _ => None,
    }
}

/// A Table B row that is well formed: eight fields, a valid key and numeric
/// scale, reference value and (non-negative, 32-bit) width.
pub open spec fn row_b_ok(row: Seq<Seq<char>>) -> bool {
    &&& row.len() == 8
    &&& key_of_fields(row[0], row[1], row[2]) is Some
    &&& decimal_of(row[5]) is Some
    &&& decimal_of(row[6]) is Some
    &&& decimal_of(row[7]) matches Some(w) && 0 <= w <= u32::MAX
}

/// `e` is the element that the well-formed Table B row `row` describes.
pub open spec fn element_from_row(e: ElementDescriptor, row: Seq<Seq<char>>) -> bool {
    &&& Some(e.key) == key_of_fields(row[0], row[1], row[2])
    &&& e.description@ == row[3]
    &&& e.unit@ == row[4]
    &&& Some(e.scale as int) == decimal_of(row[5])
    &&& Some(e.reference as int) == decimal_of(row[6])
    &&& Some(e.width as int) == decimal_of(row[7])
}

/// The well-formed Table B rows of `rows`, in order; the others are skipped.
pub open spec fn table_b_rows(rows: Seq<Seq<Seq<char>>>) -> Seq<Seq<Seq<char>>>
    decreases rows.len(),
{
    if rows.len() == 0 {
        seq![]
    } else if row_b_ok(rows.last()) {
        table_b_rows(rows.drop_last()).push(rows.last())
    } else {
        table_b_rows(rows.drop_last())
    }
}

/// `t` holds the elements of `rows`, one per row, in order.
pub open spec fn elements_from_rows(t: Seq<ElementDescriptor>, rows: Seq<Seq<Seq<char>>>) -> bool {
    &&& t.len() == rows.len()
    &&& forall|i: int| 0 <= i < t.len() ==> element_from_row(#[trigger] t[i], rows[i])
}

/// Builds Table B from parsed rows: one element per well-formed row, in
/// order; malformed rows are skipped.
pub fn dico_descriptor_b(rows: &Vec<Vec<String>>) -> (r: Vec<ElementDescriptor>)
    ensures
        elements_from_rows(r@, table_b_rows(rows.deep_view())),
{
    let ghost all = rows.deep_view();
    let mut out: Vec<ElementDescriptor> = Vec::new();
    let mut i: usize = 0;
    while i < rows.len()
        invariant
            i <= rows@.len(),
            all == rows.deep_view(),
            elements_from_rows(out@, table_b_rows(all.subrange(0, i as int))),
        decreases rows@.len() - i,
    {
        let row = &rows[i];
        assert(all.subrange(0, i + 1).drop_last() == all.subrange(0, i as int));
        assert(all[i as int] == row.deep_view());
        if row.len() == 8 {
            assert(forall|j: int| 0 <= j < 8 ==> row.deep_view()[j] == row@[j]@);
            let key = parse_key(&row[0], &row[1], &row[2]);
            let scale = parse_decimal(&row[5]);
            let reference = parse_decimal(&row[6]);
            let width = parse_decimal(&row[7]);
            match (key, scale, reference, width) {
                (Some(key), Some(scale), Some(reference), Some(width)) => {
                    if 0 <= width && width <= 0xffff_ffff {
                        let e = ElementDescriptor {
                            key,
                            description: row[3].clone(),
                            unit: row[4].clone(),
                            scale,
                            reference,
                            width: width as u32,
                        };
                        out.push(e);
                    }
                },
                _ => {},
            }
        }
        i = i + 1;
    }
    assert(all.subrange(0, i as int) == all);
    out
}

/// Reads a Table B text (`F; X; Y; description; unit; scale; reference;
/// width`, one row per element). `None` when the text is not readable as
/// semicolon-separated records.
pub fn tables_b(text: &[u8]) -> (r: Option<Vec<ElementDescriptor>>)
    ensures
        match semicolon_records(text@) {
            None => r is None,
            Some(rows) => r is Some && elements_from_rows(r.unwrap()@, table_b_rows(rows)),
        },
{
    match read_records(text) {
        None => None,
        Some(rows) => Some(dico_descriptor_b(&rows)),
    }
}

/// A Table D row whose first field ends in `3` opens a new sequence.
pub open spec fn starts_sequence(row: Seq<Seq<char>>) -> bool {
    row[0].len() > 0 && row[0].last() == '3'
}

/// The child that a Table D row names, if its last three fields form a key.
pub open spec fn child_of_row(row: Seq<Seq<char>>) -> Seq<DescKey> {
    match key_of_fields(row[3], row[4], row[5]) {
        Some(c) => seq![c],
        None => seq![],
    }
}

/// The sequences that `rows` close, and the one still open (if any), after
/// reading every row: a row of six fields that starts a sequence closes the
/// open one and opens its own (none when its key is malformed) with its
/// child; any other row of six fields with a non-empty child field adds its
/// child to the open sequence. Rows of another length are skipped.
pub open spec fn table_d_fold(rows: Seq<Seq<Seq<char>>>) -> (Seq<(DescKey, Seq<DescKey>)>, Option<(DescKey, Seq<DescKey>)>)
    decreases rows.len(),
{
    if rows.len() == 0 {
        (seq![], None)
    } else {
        let (done, open) = table_d_fold(rows.drop_last());
        let row = rows.last();
        if row.len() != 6 {
            (done, open)
        } else if starts_sequence(row) {
            let closed = match open {
                Some(c) => done.push(c),
                None => done,
            };
            match key_of_fields(row[0], row[1], row[2]) {
                Some(k) => (closed, Some((k, child_of_row(row)))),
                None => (closed, None),
            }
        } else if row[3].len() > 0 {
            match open {
                Some(c) => (done, Some((c.0, c.1 + child_of_row(row)))),
                None => (done, None),
            }
        } else {
            (done, open)
        }
    }
}

/// The sequences of a Table D, in the order in which they were written.
pub open spec fn table_d_model(rows: Seq<Seq<Seq<char>>>) -> Seq<(DescKey, Seq<DescKey>)> {
    let (done, open) = table_d_fold(rows);
    match open {
        Some(c) => done.push(c),
        None => done,
    }
}

/// `t` holds the sequences `m`, in order.
pub open spec fn sequences_match(t: Seq<SequenceDescriptor>, m: Seq<(DescKey, Seq<DescKey>)>) -> bool {
    &&& t.len() == m.len()
    &&& forall|i: int| 0 <= i < t.len() ==> (#[trigger] t[i]).key == m[i].0 && t[i].children@ == m[i].1
}

/// Builds Table D from parsed rows (see `table_d_fold`).
pub fn dico_descriptor_d(rows: &Vec<Vec<String>>) -> (r: Vec<SequenceDescriptor>)
    ensures
        sequences_match(r@, table_d_model(rows.deep_view())),
{
    let ghost all = rows.deep_view();
    let mut done: Vec<SequenceDescriptor> = Vec::new();
    let mut open_key: Option<DescKey> = None;
    let mut children: Vec<DescKey> = Vec::new();
    let mut i: usize = 0;
    while i < rows.len()
        invariant
            i <= rows@.len(),
            all == rows.deep_view(),
            sequences_match(done@, table_d_fold(all.subrange(0, i as int)).0),
            match table_d_fold(all.subrange(0, i as int)).1 {
                Some(c) => open_key == Some(c.0) && children@ == c.1,
                None => open_key is None,
            },
        decreases rows@.len() - i,
    {
        let row = &rows[i];
        assert(all.subrange(0, i + 1).drop_last() == all.subrange(0, i as int));
        assert(all[i as int] == row.deep_view());
        if row.len() == 6 {
            assert(forall|j: int| 0 <= j < 6 ==> row.deep_view()[j] == row@[j]@);
            let f = &row[0];
            let n = f.as_str().unicode_len();
            let starts = n > 0 && f.as_str().get_char(n - 1) == '3';
            let child = parse_key(&row[3], &row[4], &row[5]);
            if starts {
                match open_key {
                    Some(k) => {
                        let seq_done = SequenceDescriptor { key: k, children };
                        done.push(seq_done);
                    },
                    None => {},
                }
                children = Vec::new();
                open_key = parse_key(&row[0], &row[1], &row[2]);
                match child {
                    Some(c) => children.push(c),
                    None => {},
                }
                assert(children@ == child_of_row(all[i as int]));
            } else if row[3].as_str().unicode_len() > 0 {
                match open_key {
                    Some(_) => match child {
                        Some(c) => children.push(c),
                        None => {},
                    },
                    None => {},
                }
            }
        }
        i = i + 1;
    }
    assert(all.subrange(0, i as int) == all);
    match open_key {
        Some(k) => {
            let last = SequenceDescriptor { key: k, children };
            done.push(last);
        },
        None => {},
    }
    done
}

/// Reads a Table D text (`F; X; Y; childF; childX; childY`, see
/// `table_d_fold`). `None` when the text is not readable as
/// semicolon-separated records.
pub fn tables_d(text: &[u8]) -> (r: Option<Vec<SequenceDescriptor>>)
    ensures
        match semicolon_records(text@) {
            None => r is None,
            Some(rows) => r is Some && sequences_match(r.unwrap()@, table_d_model(rows)),
        },
{
    match read_records(text) {
        None => None,
        Some(rows) => Some(dico_descriptor_d(&rows)),
    }
}

} // verus!
