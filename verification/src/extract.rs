//! Input extraction from a delimited tabular file: the first column's value
//! of every row after the header row, skipping values that are blank after
//! trimming and rows the reader cannot parse.

use vstd::prelude::*;
use crate::cloud::is_unicode_space;
use crate::cloud::unicode_space_char;

verus! {

/// The first field of every row after the header row, as the csv reader
/// parses the bytes: `None` for a row that is malformed or has no field.
pub uninterp spec fn first_fields(data: Seq<u8>) -> Seq<Option<Seq<char>>>;

/// Relies on `csv::Reader` over a byte slice: `records` yields each row
/// after the header row, skipping rows the parser rejects only by marking
/// them errors; a row's first field is taken as parsed. The result depends
/// on the bytes alone.
#[verifier::external_body]
fn read_first_fields(data: &Vec<u8>) -> (r: Vec<Option<String>>)
    ensures
        r.deep_view() == first_fields(data@),
{
    let mut reader = csv::ReaderBuilder::new().has_headers(true).from_reader(data.as_slice());
    reader
        .records()
        .map(|rec| match rec {
            Ok(rec) => rec.get(0).map(|f| f.to_string()),
            Err(_) => None,
        })
        .collect()
}

/// True when the value is empty or all whitespace: what trimming surrounding
/// whitespace leaves empty.
pub open spec fn is_blank(s: Seq<char>) -> bool {
    forall|i: int| 0 <= i < s.len() ==> is_unicode_space(s[i])
}

fn blank(s: &str) -> (r: bool)
    ensures
        r == is_blank(s@),
{
    let n = s.unicode_len();
    let mut i: usize = 0;
    while i < n
        invariant
            n == s@.len(),
            i <= n,
            forall|m: int| 0 <= m < i ==> is_unicode_space(s@[m]),
        decreases n - i,
    {
        if !unicode_space_char(s.get_char(i)) {
            return false;
        }
        i = i + 1;
    }
    true
}

/// The values the extraction keeps: each present first field that is not
/// blank after trimming, in row order.
pub open spec fn kept_values(rows: Seq<Option<Seq<char>>>) -> Seq<Seq<char>>
    decreases rows.len(),
{
    if rows.len() == 0 {
        Seq::empty()
    } else {
        let rest = kept_values(rows.drop_last());
        if rows.last() is Some && !is_blank(rows.last()->0) {
            rest.push(rows.last()->0)
        } else {
            rest
        }
    }
}

/// Reads the tabular input and keeps the first column's value of every row
/// after the header row, in order, skipping malformed rows and values that
/// are blank after trimming.
pub fn extract_non_empty_first_column(data: &Vec<u8>) -> (values: Vec<String>)
    ensures
        values.deep_view() == kept_values(first_fields(data@)),
{
    let rows = read_first_fields(data);
    let ghost parsed = first_fields(data@);
    let mut values: Vec<String> = Vec::new();
    let mut i: usize = 0;
    proof {
        assert(parsed.take(0) =~= Seq::<Option<Seq<char>>>::empty());
    }
    while i < rows.len()
        invariant
            i <= rows@.len(),
            rows.deep_view() == parsed,
            parsed.len() == rows@.len(),
            values.deep_view() == kept_values(parsed.take(i as int)),
        decreases rows@.len() - i,
    {
        proof {
            assert(parsed.take(i + 1 as int).drop_last() =~= parsed.take(i as int));
            assert(parsed.take(i + 1 as int).last() == parsed[i as int]);
            assert(parsed[i as int] == rows@[i as int].deep_view());
        }
        match &rows[i] {
            Some(value) => {
                if !blank(value.as_str()) {
                    values.push(value.clone());
                    proof {
                        assert(values.deep_view() =~= kept_values(parsed.take(i + 1 as int)));
                    }
                }
            },
            None => {},
        }
        i = i + 1;
    }
    proof {
        assert(parsed.take(rows@.len() as int) =~= parsed);
    }
    values
}

} // verus!
