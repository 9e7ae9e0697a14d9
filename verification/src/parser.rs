//! What all parsers have in common.

use vstd::prelude::*;

use crate::types;
use crate::types::{ParseError, ParseErrorView, ParseResult, ParseView};

verus! {

/// A parser. Parsers are pure functions of the path and the content: no I/O, no state.
pub trait Parser: Send + Sync {
    /// Whether this parser handles a path.
    spec fn handles(&self, path: Seq<char>) -> bool;

    /// What parsing gives.
    spec fn outcome(&self, path: Seq<char>, content: Seq<u8>) -> Result<ParseView, ParseErrorView>;

    /// Whether this parser handles a path.
    fn can_parse(&self, path: &str) -> (r: bool)
        ensures
            r == self.handles(path@),
    ;

    /// Parses the content of a file. There is at least one chunk: the whole file.
    fn parse(&self, path: &str, content: &[u8]) -> (r: Result<ParseResult, ParseError>)
        ensures
            types::parse_outcome(r) == self.outcome(path@, content@),
            r matches Ok(p) ==> p.frontmatter.wf() && p.chunks@.len() >= 1,
    ;
}

} // verus!
