//! The input of a build: which files are read, in which format, and which
//! lines of a line-delimited file hold a record.

use vstd::prelude::*;
use vstd::string::*;
use crate::strings::{blank, is_blank, lines, lines_of, opt_str_text, str_eq, texts};

verus! {

/// How the records of an input file are laid out.
#[derive(Debug, Clone, Copy, PartialEq, Eq)]
pub enum InputFormat {
    /// One JSON value: a record, or an array of records.
    Json,
    /// One record on each line that is not blank.
    JsonLines,
}

/// The format of an input file by its extension. A file found by walking a
/// directory is read only with the extension `json` or `jsonl`; a file that
/// was named as the input is read whatever its extension, as line-delimited
/// with the extension `jsonl` and as one JSON value without it.
pub open spec fn format_for(extension: Option<Seq<char>>, walked: bool) -> Option<InputFormat> {
    if extension == Some("jsonl"@) {
        Some(InputFormat::JsonLines)
    } else if !walked || extension == Some("json"@) {
        Some(InputFormat::Json)
    } else {
        None
    }
}

/// Chooses the format of an input file, or `None` for a file to pass over.
pub fn input_format(extension: Option<&str>, walked: bool) -> (r: Option<InputFormat>)
    ensures
        r == format_for(opt_str_text(extension), walked),
{
    let is_jsonl = match extension {
        Some(e) => str_eq(e, "jsonl"),
        None => false,
    };
    let is_json = match extension {
        Some(e) => str_eq(e, "json"),
        None => false,
    };
    if is_jsonl {
        Some(InputFormat::JsonLines)
    } else if !walked || is_json {
        Some(InputFormat::Json)
    } else {
        None
    }
}

/// The lines that are not blank, in order.
pub open spec fn record_lines(lines: Seq<Seq<char>>) -> Seq<Seq<char>>
    decreases lines.len(),
{
    if lines.len() == 0 {
        Seq::empty()
    } else if blank(lines.last()) {
        record_lines(lines.drop_last())
    } else {
        record_lines(lines.drop_last()).push(lines.last())
    }
}

/// Keeps the lines that hold a record: those that are not blank.
pub fn keep_record_lines(lines: Vec<String>) -> (r: Vec<String>)
    ensures
        texts(r@) == record_lines(texts(lines@)),
{
    let ghost all = texts(lines@);
    let mut out: Vec<String> = Vec::new();
    let mut i: usize = 0;
    assert(all.take(0) =~= Seq::<Seq<char>>::empty());
    assert(texts(out@) =~= Seq::<Seq<char>>::empty());
    while i < lines.len()
        invariant
            i <= lines.len(),
            all == texts(lines@),
            texts(out@) == record_lines(all.take(i as int)),
        decreases lines.len() - i,
    {
        proof {
            assert(all.take(i + 1).drop_last() =~= all.take(i as int));
            assert(all.take(i + 1).last() == lines@[i as int]@);
        }
        if !is_blank(lines[i].as_str()) {
            let ghost before = out@;
            out.push(lines[i].clone());
            assert(texts(out@) =~= texts(before).push(lines@[i as int]@));
        }
        i += 1;
    }
    assert(all.take(i as int) =~= all);
    out
}

/// The records of a line-delimited input: its lines that are not blank.
pub fn jsonl_records(text: &str) -> (r: Vec<String>)
    ensures
        texts(r@) == record_lines(lines_of(text@)),
{
    keep_record_lines(lines(text))
}

} // verus!
