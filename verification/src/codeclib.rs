//! The plain-value codecs: raw parsing is an external collaborator; the
//! header-to-field pairing of delimited records is the library's own, and
//! the JSON surface round-trips documents through their canonical
//! rendering.

use vstd::prelude::*;
use crate::LibError;

verus! {

/// Whether the delimited input parses without a record fault, headerless
/// and flexible (rows may differ in width), with doubled-quote escapes.
pub uninterp spec fn csv_ok(text: Seq<u8>) -> bool;

/// The parsed records: one sequence of fields per row.
pub uninterp spec fn csv_records_of(text: Seq<u8>) -> Seq<Seq<Seq<char>>>;

/// Relies on `csv::ReaderBuilder` (no headers, flexible, doubled quotes)
/// and `Reader::records`: success and the parsed rows are functions of the
/// input bytes alone.
#[verifier::external_body]
pub fn csv_records(text: &[u8]) -> (r: Result<Vec<Vec<String>>, LibError>)
    ensures
        r is Ok <==> csv_ok(text@),
        r matches Ok(v) ==> v.deep_view() == csv_records_of(text@),
{
    let mut rd = csv::ReaderBuilder::new()
        .has_headers(false)
        .double_quote(true)
        .flexible(true)
        .from_reader(std::io::Cursor::new(text));
    let mut out: Vec<Vec<String>> = Vec::new();
    for rec in rd.records() {
        match rec {
            Ok(rec) => out.push(rec.iter().map(|f| f.to_string()).collect()),
            Err(_) => {
                return Err(LibError::ParseFailed);
            },
        }
    }
    Ok(out)
}

/// Whether every row after the first is as wide as the header row.
pub open spec fn spec_rows_match_header(records: Seq<Seq<Seq<char>>>) -> bool {
    forall|i: int| 1 <= i < records.len() ==> (#[trigger] records[i]).len() == records[0].len()
}

/// The rows of the input paired with the first row's fields: row `i`,
/// column `j` becomes the pair `(headers[j], fields[j])`.
pub open spec fn spec_paired_rows(records: Seq<Seq<Seq<char>>>) -> Seq<
    Seq<(Seq<char>, Seq<char>)>,
> {
    if records.len() == 0 {
        Seq::empty()
    } else {
        let headers = records[0];
        records.skip(1).map(
            |i: int, row: Seq<Seq<char>>|
                Seq::new(headers.len(), |j: int| (headers[j], row[j])),
        )
    }
}

/// Parses delimited text and pairs each later row's fields with the first
/// row's header names, column by column. A row whose width differs from
/// the header row's is a fault, never a silently shortened pairing.
#[verifier::loop_isolation(false)]
pub fn csv_to_named_rows(text: &[u8]) -> (r: Result<
    Vec<Vec<(String, String)>>,
    LibError,
>)
    ensures
        r is Ok <==> (csv_ok(text@) && spec_rows_match_header(csv_records_of(text@))),
        r is Err ==> r == Err::<Vec<Vec<(String, String)>>, LibError>(LibError::ParseFailed),
        r matches Ok(v) ==> v.deep_view() == spec_paired_rows(csv_records_of(text@)),
{
    let records = match csv_records(text) {
        Ok(v) => v,
        Err(_) => {
            return Err(LibError::ParseFailed);
        },
    };
    let ghost recv = records.deep_view();
    let mut out: Vec<Vec<(String, String)>> = Vec::new();
    if records.len() == 0 {
        proof {
            assert(out.deep_view() =~= spec_paired_rows(recv));
        }
        return Ok(out);
    }
    let hlen = records[0].len();
    let mut i: usize = 1;
    while i < records.len()
        invariant
            1 <= i <= records@.len(),
            recv == records.deep_view(),
            recv.len() == records@.len(),
            hlen as int == recv[0].len(),
            out.deep_view().len() == i - 1,
            forall|m: int| 1 <= m < i ==> (#[trigger] recv[m]).len() == recv[0].len(),
            forall|m: int|
                0 <= m < i - 1 ==> (#[trigger] out.deep_view()[m]) == spec_paired_rows(recv)[m],
        decreases records@.len() - i,
    {
        let rlen = records[i].len();
        proof {
            assert(recv[i as int] == records@[i as int].deep_view());
            assert(recv[i as int].len() == rlen as int);
        }
        if rlen != hlen {
            proof {
                assert(!spec_rows_match_header(recv)) by {
                    assert(recv[i as int].len() != recv[0].len());
                }
            }
            return Err(LibError::ParseFailed);
        }
        let w = hlen;
        let mut row: Vec<(String, String)> = Vec::new();
        let mut j: usize = 0;
        while j < w
            invariant
                j <= w,
                1 <= i < records@.len(),
                w as int == recv[0].len(),
                recv[i as int].len() == recv[0].len(),
                row@.len() == j as int,
                forall|m: int|
                    0 <= m < j ==> ((#[trigger] row@[m]).0@ == recv[0][m]
                        && row@[m].1@ == recv[i as int][m]),
            decreases w - j,
        {
            let h = clone_str(&records[0][j]);
            let f = clone_str(&records[i][j]);
            proof {
                assert(records@[0].deep_view() == recv[0]);
                assert(records@[i as int].deep_view() == recv[i as int]);
                assert(records@[0].deep_view()[j as int] == records@[0]@[j as int].deep_view());
                assert(records@[i as int].deep_view()[j as int] == records@[i as int]@[
                    j as int].deep_view());
                assert(h@ == recv[0][j as int]);
                assert(f@ == recv[i as int][j as int]);
            }
            row.push((h, f));
            j = j + 1;
        }
        proof {
            assert(row.deep_view() =~= spec_paired_rows(recv)[i - 1]) by {
                assert forall|m: int| 0 <= m < row@.len() implies #[trigger] row.deep_view()[m]
                    == (recv[0][m], recv[i as int][m]) by {
                    assert(row.deep_view()[m] == row@[m].deep_view());
                    assert(row@[m].deep_view() == (row@[m].0.deep_view(), row@[m].1.deep_view()));
                }
            }
        }
        let ghost rowdv = row.deep_view();
        let ghost outpre = out@;
        let ghost outdvpre = out.deep_view();
        out.push(row);
        proof {
            assert forall|m: int| 0 <= m < i implies (#[trigger] out.deep_view()[m])
                == spec_paired_rows(recv)[m] by {
                assert(out.deep_view()[m] == out@[m].deep_view());
                if m == i - 1 {
                    assert(out@[m].deep_view() == rowdv);
                } else {
                    assert(out@[m] == outpre[m]);
                    assert(outdvpre[m] == outpre[m].deep_view());
                    assert(outdvpre[m] == spec_paired_rows(recv)[m]);
                }
            }
        }
        i = i + 1;
    }
    proof {
        assert(out.deep_view() =~= spec_paired_rows(recv));
    }
    Ok(out)
}

/// Whether the text parses as a JSON document.
pub uninterp spec fn json_ok(text: Seq<char>) -> bool;

/// The canonical compact rendering of the parsed JSON document: objects
/// carry their keys in sorted order, with no extra whitespace.
pub uninterp spec fn json_normalized(text: Seq<char>) -> Seq<char>;

/// The canonical pretty rendering of the parsed JSON document.
pub uninterp spec fn json_pretty_of(text: Seq<char>) -> Seq<char>;

/// Relies on `serde_json::from_str` into `serde_json::Value` and
/// `serde_json::to_string`: parsing succeeds or fails on the text alone;
/// the value's rendering is deterministic (object keys sorted) and cannot
/// fail for a `Value`; and the rendering is itself valid JSON.
#[verifier::external_body]
pub fn json_reformat(text: &str) -> (r: Result<String, LibError>)
    ensures
        r is Ok <==> json_ok(text@),
        r matches Ok(s) ==> s@ == json_normalized(text@) && json_ok(s@),
{
    let v: serde_json::Value = match serde_json::from_str(text) {
        Ok(v) => v,
        Err(_) => {
            return Err(LibError::ParseFailed);
        },
    };
    match serde_json::to_string(&v) {
        Ok(s) => Ok(s),
        Err(_) => Err(LibError::ParseFailed),
    }
}

/// Relies on `serde_json::from_str` into `serde_json::Value` and
/// `serde_json::to_string_pretty`: as `json_reformat`, with the indented
/// rendering.
#[verifier::external_body]
pub fn json_reformat_pretty(text: &str) -> (r: Result<String, LibError>)
    ensures
        r is Ok <==> json_ok(text@),
        r matches Ok(s) ==> s@ == json_pretty_of(text@) && json_ok(s@),
{
    let v: serde_json::Value = match serde_json::from_str(text) {
        Ok(v) => v,
        Err(_) => {
            return Err(LibError::ParseFailed);
        },
    };
    match serde_json::to_string_pretty(&v) {
        Ok(s) => Ok(s),
        Err(_) => Err(LibError::ParseFailed),
    }
}

/// Whether the text is a JSON document the codec accepts.
pub fn json_is_valid(text: &str) -> (r: bool)
    ensures
        r == json_ok(text@),
{
    json_reformat(text).is_ok()
}

/// A copy of a string, with the same characters.
fn clone_str(s: &String) -> (r: String)
    ensures
        r@ == s@,
{
    s.clone()
}

} // verus!
