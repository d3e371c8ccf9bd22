//! A source text paired with its origin label for diagnostics, and the runner
//! that drives the scan/parse pipeline over it.

use vstd::prelude::*;
use crate::error::{Error, ErrorV};
use crate::lexer::{scan_spec, Lexer};
use crate::parser::{parse_spec, Parser};

verus! {

/// A whole source text and the label (for example a file path) that
/// diagnostics report it under.
#[derive(Debug)]
pub struct Source {
    pub code: String,
    pub file: String,
}

/// Mathematical model of a `Source`: both texts as character sequences.
pub struct SourceV {
    pub code: Seq<char>,
    pub file: Seq<char>,
}

impl View for Source {
    type V = SourceV;

    open spec fn view(&self) -> SourceV {
        SourceV { code: self.code@, file: self.file@ }
    }
}

/// What running the scan/parse pipeline over a source text yields: the first
/// lexical or syntax error, or none.
pub open spec fn pipeline_spec(code: Seq<char>) -> Option<ErrorV> {
    match scan_spec(code) {
        Err(e) => Some(e),
        Ok(toks) => match parse_spec(toks) {
            Err(e) => Some(e),
            Ok(_) => None,
        },
    }
}

/// Drives the scan/parse pipeline over one source.
#[derive(Debug)]
pub struct Runner {}

impl Default for Runner {
    fn default() -> (r: Runner)
        ensures
            r == (Runner {  }),
    {
        Runner {  }
    }
}

impl Runner {
    /// Scan and parse the source, reporting the first error if one arises.
    pub fn try_run(&mut self, source: &Source) -> (r: Result<(), Error>)
        ensures
            *final(self) == *old(self),
            match r {
                Ok(()) => pipeline_spec(source.code@) is None,
                Err(e) => pipeline_spec(source.code@) == Some(e@),
            },
    {
        let lexer = match Lexer::parse(source.code.as_str()) {
            Ok(lexer) => lexer,
            Err(e) => {
                return Err(e);
            },
        };
        match Parser::parse(&lexer) {
            Ok(_) => Ok(()),
            Err(e) => Err(e),
        }
    }
}

} // verus!

