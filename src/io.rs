//! Decisions about input and output files that do not touch the files:
//! whether a path names gzip-compressed data, and which outputs remain.
use vstd::prelude::*;
use crate::text::{chars_of, parse_read, record_complete, substring, Source};

verus! {

/// A path names gzip data when its file name has the extension `gz`: it
/// ends in `.gz` after at least one character of its own.
pub open spec fn gz_path(p: Seq<char>) -> bool {
    p.len() >= 4 && p[p.len() - 3] == '.' && p[p.len() - 2] == 'g' && p[p.len() - 1] == 'z' && p[p.len()
        - 4] != '/'
}

/// Whether `input` names gzip-compressed data.
pub fn is_gzipped(input: &str) -> (r: bool)
    ensures
        r == gz_path(input@),
{
    let p = chars_of(input);
    let n = p.len();
    n >= 4 && p[n - 3] == '.' && p[n - 2] == 'g' && p[n - 1] == 'z' && p[n - 4] != '/'
}

/// Checks an input path: for gzip data, the path that decompressing it in
/// place leaves (the same path without `.gz`); otherwise the path itself.
pub fn convert_to_fastq(input: &str) -> (r: String)
    ensures
        gz_path(input@) ==> r@ == input@.subrange(0, input@.len() - 3),
        !gz_path(input@) ==> r@ == input@,
{
    let p = chars_of(input);
    let n = p.len();
    if n >= 4 && p[n - 3] == '.' && p[n - 2] == 'g' && p[n - 1] == 'z' && p[n - 4] != '/' {
        substring(&p, 0, n - 3)
    } else {
        substring(&p, 0, n)
    }
}

/// Where the outputs of a pairing are.
#[derive(Debug)]
pub struct Output {
    pub r1_out_path: String,
    pub r2_out_path: String,
    /// Absent when no unpaired record was written.
    pub singleton_path: Option<String>,
}

/// Whether a text starts with a complete record.
pub fn has_record(text: &str) -> (r: bool)
    ensures
        r == record_complete(text@, 0),
{
    let mut src = Source::new(text);
    parse_read(&mut src).is_some()
}

/// The outputs of a pairing once it is done: the singleton output is kept
/// only if its text holds a record.
pub fn finalize(r1_out_path: String, r2_out_path: String, singleton_path: String, singletons: &str) -> (r: Output)
    ensures
        r.r1_out_path == r1_out_path,
        r.r2_out_path == r2_out_path,
        record_complete(singletons@, 0) ==> r.singleton_path == Some(singleton_path),
        !record_complete(singletons@, 0) ==> r.singleton_path is None,
{
    let keep = has_record(singletons);
    Output { r1_out_path, r2_out_path, singleton_path: if keep { Some(singleton_path) } else { None } }
}

} // verus!
