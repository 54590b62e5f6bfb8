//! Turning file contents into streams of strings for indexing: plain text
//! (one string per line), a JSON array of strings, or one CSV column.
//!
//! Reading the bytes from disk is the caller's business; these functions
//! work on the decoded contents.

use crate::text::strip_last_cr;
use crate::word_ngrams::split_by;
use crate::word_ngrams::split_text;
use vstd::prelude::*;
use vstd::string::*;

verus! {

/// Why a content could not be turned into strings.
#[derive(Debug)]
pub enum FileLoadError {
    /// The content is not a JSON array of strings.
    Json(String),
    /// A CSV line has too few columns: `line` is 1-based, `column` the
    /// requested 0-based column, `width` the number of columns found.
    Csv { line: usize, column: usize, width: usize },
}

/// The lines of a text, as a line-based reader yields them: split at line
/// feeds, a trailing carriage return stripped, and no final empty line for
/// a trailing line feed.
pub open spec fn lines_of(text: Seq<char>) -> Seq<Seq<char>> {
    let parts = split_by(text, seq!['\n']);
    let n = if parts.len() > 0 && parts.last().len() == 0 {
        parts.len() - 1
    } else {
        parts.len() as int
    };
    Seq::new(n as nat, |i: int| crate::text::strip_cr(parts[i]))
}

/// The nonempty lines of a plain text, in order.
pub fn strings_from_text(content: &str) -> (r: Vec<String>)
    ensures
        r.deep_view() == lines_of(content@).filter(|l: Seq<char>| l.len() > 0),
{
    broadcast use vstd::seq_lib::group_filter_ensures;

    let parts = split_text(content, "\n");
    proof {
        reveal_strlit("\n");
        assert("\n"@ =~= seq!['\n']);
    }
    let np = parts.len();
    let n = if np > 0 && parts[np - 1].as_str().unicode_len() == 0 {
        np - 1
    } else {
        np
    };
    let ghost lns = lines_of(content@);
    proof {
        assert(parts.deep_view().len() == parts@.len());
        assert(forall|i: int| 0 <= i < parts@.len() ==> parts.deep_view()[i] == parts@[i]@);
        assert(lns.len() == n);
        assert(forall|i: int|
            0 <= i < n ==> lns[i] == crate::text::strip_cr(#[trigger] parts@[i]@));
    }
    let mut r: Vec<String> = Vec::new();
    let mut i: usize = 0;
    while i < n
        invariant
            n <= parts@.len(),
            lns == lines_of(content@),
            lns.len() == n,
            forall|k: int| 0 <= k < n ==> lns[k] == crate::text::strip_cr(#[trigger] parts@[k]@),
            0 <= i <= n,
            r.deep_view() == lns.take(i as int).filter(|l: Seq<char>| l.len() > 0),
        decreases n - i,
    {
        let line = strip_last_cr(&parts[i]);
        let ghost pre = r.deep_view();
        let keep = line.as_str().unicode_len() > 0;
        if keep {
            r.push(line);
        }
        proof {
            assert(lns.take(i as int + 1) =~= lns.take(i as int).push(lns[i as int]));
            lns.take(i as int).lemma_filter_len_push(|l: Seq<char>| l.len() > 0, lns[i as int]);
            assert(line@ == lns[i as int]);
            if keep {
                assert(r.deep_view() =~= pre.push(line@));
                assert(r.deep_view() =~= lns.take(i as int + 1).filter(
                    |l: Seq<char>| l.len() > 0,
                )) by {
                    lns.take(i as int).lemma_filter_push(lns[i as int], |l: Seq<char>| l.len() > 0);
                }
            } else {
                assert(r.deep_view() =~= lns.take(i as int + 1).filter(
                    |l: Seq<char>| l.len() > 0,
                )) by {
                    lns.take(i as int).lemma_filter_push(lns[i as int], |l: Seq<char>| l.len() > 0);
                }
            }
        }
        i = i + 1;
    }
    proof {
        assert(lns.take(n as int) =~= lns);
    }
    r
}

/// The value a CSV line holds in the requested column.
pub open spec fn csv_cell(line: Seq<char>, column: int) -> Seq<char> {
    split_by(line, seq![','])[column]
}

/// The number of comma-separated columns of a CSV line.
pub open spec fn csv_width(line: Seq<char>) -> nat {
    split_by(line, seq![',']).len()
}

/// The nonempty cells of the requested column, line by line; or the first
/// line, 1-based, whose column count does not reach the requested column.
pub fn strings_from_csv(content: &str, column: usize) -> (r: Result<Vec<String>, FileLoadError>)
    ensures
        match r {
            Ok(v) => (forall|k: int|
                0 <= k < lines_of(content@).len() ==> csv_width(#[trigger] lines_of(content@)[k])
                    > column) && v.deep_view() == Seq::new(
                lines_of(content@).len(),
                |k: int| csv_cell(lines_of(content@)[k], column as int),
            ).filter(|c: Seq<char>| c.len() > 0),
            Err(e) => e matches FileLoadError::Csv { line, column: got, width } && {
                &&& 1 <= line <= lines_of(content@).len()
                &&& got == column
                &&& width == csv_width(lines_of(content@)[line - 1])
                &&& width <= column
                &&& forall|k: int| 0 <= k < line - 1 ==> csv_width(
                    #[trigger] lines_of(content@)[k],
                ) > column
            },
        },
{
    broadcast use vstd::seq_lib::group_filter_ensures;

    let parts = split_text(content, "\n");
    proof {
        reveal_strlit("\n");
        assert("\n"@ =~= seq!['\n']);
    }
    let np = parts.len();
    let n = if np > 0 && parts[np - 1].as_str().unicode_len() == 0 {
        np - 1
    } else {
        np
    };
    let ghost lns = lines_of(content@);
    let ghost cells = Seq::new(lns.len(), |k: int| csv_cell(lns[k], column as int));
    proof {
        assert(parts.deep_view().len() == parts@.len());
        assert(forall|i: int| 0 <= i < parts@.len() ==> parts.deep_view()[i] == parts@[i]@);
        assert(lns.len() == n);
        assert(forall|i: int|
            0 <= i < n ==> lns[i] == crate::text::strip_cr(#[trigger] parts@[i]@));
    }
    let mut r: Vec<String> = Vec::new();
    let mut i: usize = 0;
    while i < n
        invariant
            n <= parts@.len(),
            lns == lines_of(content@),
            cells == Seq::new(lns.len(), |k: int| csv_cell(lns[k], column as int)),
            lns.len() == n,
            forall|k: int| 0 <= k < n ==> lns[k] == crate::text::strip_cr(#[trigger] parts@[k]@),
            0 <= i <= n,
            forall|k: int| 0 <= k < i ==> csv_width(#[trigger] lns[k]) > column,
            r.deep_view() == cells.take(i as int).filter(|c: Seq<char>| c.len() > 0),
        decreases n - i,
    {
        let line = strip_last_cr(&parts[i]);
        let cols = split_text(line.as_str(), ",");
        proof {
            reveal_strlit(",");
            assert(","@ =~= seq![',']);
            assert(cols.deep_view() == split_by(lns[i as int], seq![',']));
            assert(cols.deep_view().len() == cols@.len());
            assert(forall|k: int| 0 <= k < cols@.len() ==> cols.deep_view()[k] == cols@[k]@);
        }
        if column >= cols.len() {
            return Result::Err(
                FileLoadError::Csv { line: i + 1, column, width: cols.len() },
            );
        }
        let cell: String = cols[column].clone();
        let ghost pre = r.deep_view();
        let keep = cell.as_str().unicode_len() > 0;
        if keep {
            r.push(cell);
        }
        proof {
            assert(cells.take(i as int + 1) =~= cells.take(i as int).push(cells[i as int]));
            assert(cell@ == cells[i as int]);
            cells.take(i as int).lemma_filter_len_push(|c: Seq<char>| c.len() > 0, cells[i as int]);
            cells.take(i as int).lemma_filter_push(cells[i as int], |c: Seq<char>| c.len() > 0);
            if keep {
                assert(r.deep_view() =~= pre.push(cell@));
            }
            assert(r.deep_view() =~= cells.take(i as int + 1).filter(|c: Seq<char>| c.len() > 0));
        }
        i = i + 1;
    }
    proof {
        assert(cells.take(n as int) =~= cells);
    }
    Result::Ok(r)
}

#[verifier::external_type_specification]
#[verifier::external_body]
pub struct ExSerdeError(serde_json::Error);

/// What a JSON text holds, when it is an array of strings.
pub uninterp spec fn json_string_list(s: Seq<char>) -> Option<Seq<Seq<char>>>;

/// Relies on `serde_json::from_str::<Vec<String>>`: parses the text as a
/// JSON array of strings; the outcome depends on the text alone.
#[verifier::external_body]
fn parse_json_strings(content: &str) -> (r: Result<Vec<String>, serde_json::Error>)
    ensures
        match r {
            Ok(v) => json_string_list(content@) == Some(v.deep_view()),
            Err(_) => json_string_list(content@) is None,
        },
{
    serde_json::from_str(content)
}

/// Relies on the `Display` rendering of `serde_json::Error` for a readable
/// parse-failure message.
#[verifier::external_body]
fn json_error_text(e: &serde_json::Error) -> String {
    e.to_string()
}

/// The strings of a JSON array of strings, or a parse error.
pub fn strings_from_json(content: &str) -> (r: Result<Vec<String>, FileLoadError>)
    ensures
        match r {
            Ok(v) => json_string_list(content@) == Some(v.deep_view()),
            Err(e) => json_string_list(content@) is None && e is Json,
        },
{
    match parse_json_strings(content) {
        Ok(v) => Result::Ok(v),
        Err(e) => Result::Err(FileLoadError::Json(json_error_text(&e))),
    }
}

} // verus!
