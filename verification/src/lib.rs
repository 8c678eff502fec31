//! Sorting the members of JSON objects while keeping the text around them.
//!
//! The text may hold `//` and `/* */` comments. Every object has its members
//! reordered by the strings their keys denote, stably; arrays keep their
//! order; numbers, strings, whitespace and comments stay as written, the
//! trivia around each member staying at its position in the object.

pub mod decode;
pub mod fault;
pub mod grammar;
pub mod inputs;
pub mod laws;
pub mod lexing;
pub mod order;
pub mod parser;
pub mod preserve;
pub mod reparse;
pub mod run;
pub mod text;
pub mod tree;

use vstd::prelude::*;
use crate::fault::SortError;
use crate::grammar::document;
use crate::parser::{Parser, reports};

verus! {

/// The text with the members of every object sorted by key, or the first
/// fault that keeps it from being read as a document.
pub fn sort_json_string(original: &str) -> (res: Result<String, SortError>)
    ensures
        match document(original@) {
            Ok(t) => res matches Ok(sorted) && sorted@ == t,
            Err(f) => res matches Err(e) && reports(e, f),
        },
{
    let mut parser = Parser::new(original);
    let document = match parser.parse_document() {
        Ok(d) => d,
        Err(e) => {
            return Err(e);
        },
    };
    Ok(document.render())
}

/// Sorts the text and tells whether sorting changed it: the sorted text, and
/// `true` exactly when it differs from `original`. A file is rewritten, or
/// reported as not sorted, on that answer.
pub fn sort_and_compare(original: &str) -> (res: Result<(String, bool), SortError>)
    ensures
        match document(original@) {
            Ok(t) => res matches Ok((sorted, changed)) && sorted@ == t && changed == (t
                != original@),
            Err(f) => res matches Err(e) && reports(e, f),
        },
{
    let sorted = match sort_json_string(original) {
        Ok(s) => s,
        Err(e) => {
            return Err(e);
        },
    };
    let source = original.to_owned();
    let same = sorted == source;
    Ok((sorted, !same))
}

} // verus!
