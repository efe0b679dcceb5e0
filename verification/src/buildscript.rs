//! Compiling the text of a source document, as a build script does it.

use crate::compiler::{compile, compiled, ParseError};
use crate::document::{
    digit_run_at, digit_runs_bounded, json_parsed, parse_text, MAX_DIGIT_RUN,
};
use crate::util::is_digit;
use vstd::prelude::*;

verus! {

/// Why a source text could not be built into a record.
#[derive(Debug, PartialEq, Eq)]
pub enum BuildError {
    /// The text holds more decimal digits in a row than a text may that goes
    /// to the parser.
    DigitRun,
    /// The text is not JSON.
    Syntax(json::Error),
    /// The text is JSON, and the document cannot be compiled.
    Table(ParseError),
}

/// How building a source text ends: a text with more than `MAX_DIGIT_RUN`
/// digits in a row is a `DigitRun`; otherwise a text that does not parse is
/// a `Syntax` error with what the parser said, and one that parses ends as
/// compiling its document does.
pub open spec fn built(source: Seq<char>, r: Result<Vec<u8>, BuildError>) -> bool {
    if !digit_runs_bounded(source) {
        r == Err::<Vec<u8>, BuildError>(BuildError::DigitRun)
    } else {
        match json_parsed(source) {
            Err(e) => r == Err::<Vec<u8>, BuildError>(BuildError::Syntax(e)),
            Ok(doc) => match r {
                Ok(bytes) => compiled(doc, Ok(bytes)),
                Err(BuildError::Table(e)) => compiled(doc, Err(e)),
                Err(_) => false,
            },
        }
    }
}

/// Whether nowhere in `source` more than `MAX_DIGIT_RUN` decimal digits
/// stand in a row.
pub fn has_bounded_digit_runs(source: &str) -> (r: bool)
    ensures
        r == digit_runs_bounded(source@),
{
    let mut run: usize = 0;
    for c in it: source.chars()
        invariant
            it.seq() == source@,
            run <= MAX_DIGIT_RUN,
            run <= it.index(),
            digit_run_at(source@, it.index() - run, run as int),
            run < it.index() ==> !is_digit(source@[it.index() - run - 1]),
            forall|i: int|
                i + MAX_DIGIT_RUN + 1 <= it.index() ==> !#[trigger] digit_run_at(
                    source@,
                    i,
                    MAX_DIGIT_RUN + 1,
                ),
    {
        let ghost at = it.index();
        if '0' <= c && c <= '9' {
            if run == MAX_DIGIT_RUN {
                proof {
                    assert(digit_run_at(source@, at - run, MAX_DIGIT_RUN + 1));
                }
                return false;
            }
            run += 1;
            proof {
                let i = at - MAX_DIGIT_RUN;
                if i >= 0 {
                    assert(!is_digit(source@[at + 1 - run - 1]));
                    assert(!digit_run_at(source@, i, MAX_DIGIT_RUN + 1));
                }
            }
        } else {
            run = 0;
            proof {
                let i = at - MAX_DIGIT_RUN;
                if i >= 0 {
                    assert(!is_digit(source@[at]));
                    assert(!digit_run_at(source@, i, MAX_DIGIT_RUN + 1));
                }
            }
        }
    }
    true
}

/// Parses the JSON text of a source document and compiles the document into
/// the bytes of its record. A text with more than `MAX_DIGIT_RUN` digits in
/// a row is refused unread.
pub fn build_source(source: &str) -> (r: Result<Vec<u8>, BuildError>)
    ensures
        built(source@, r),
{
    if !has_bounded_digit_runs(source) {
        return Err(BuildError::DigitRun);
    }
    match parse_text(source) {
        Err(e) => Err(BuildError::Syntax(e)),
        Ok(doc) => match compile(&doc) {
            Ok(bytes) => Ok(bytes),
            Err(e) => Err(BuildError::Table(e)),
        },
    }
}

} // verus!
