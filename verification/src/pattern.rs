//! From the text of a pattern to the description of its automaton: parse,
//! compile, number the states, describe.

use vstd::prelude::*;
use regex_syntax::hir::Hir;
use crate::builder::{built, compile, two_states};
use crate::hir::{hir_syntax, regex_of_hir};
use crate::render::{dot_text, render_dot};
use crate::renumber::{numbering, renumber_states};
use crate::syntax::{first_unsupported, Regex, Syntax, Unsupported};

verus! {

/// The error with which the `regex_syntax` parser refuses a pattern.
#[verifier::external_type_specification]
#[verifier::external_body]
pub struct ExParseError(regex_syntax::Error);

/// The tree that the parser reads from a pattern; `None` for a pattern that
/// the parser refuses.
pub uninterp spec fn parsed(pattern: Seq<char>) -> Option<Syntax>;

/// `Parser::parse` on a parser that `Parser::new` made: the expression that
/// the pattern denotes, or the parser's error. Which of the two, and what the
/// expression holds, depends on the pattern alone.
#[verifier::external_body]
fn parse_hir(pattern: &str) -> (res: Result<Hir, regex_syntax::Error>)
    ensures
        match res {
            Ok(hir) => parsed(pattern@) == Some(hir_syntax(hir)),
            Err(_) => parsed(pattern@) is None,
        },
{
    regex_syntax::Parser::new().parse(pattern)
}

/// Why a pattern has no automaton.
#[derive(Debug)]
pub enum CompileError {
    /// The parser refused the pattern.
    Parse(regex_syntax::Error),
    /// The pattern holds a construct that the compiler does not handle.
    Unsupported(Unsupported),
}

/// Parses a pattern into its syntax tree.
pub fn parse(pattern: &str) -> (res: Result<Regex, regex_syntax::Error>)
    ensures
        match res {
            Ok(r) => parsed(pattern@) == Some(r@),
            Err(_) => parsed(pattern@) is None,
        },
{
    match parse_hir(pattern) {
        Ok(hir) => Ok(regex_of_hir(&hir)),
        Err(e) => Err(e),
    }
}

/// The description, as a directed graph, of the automaton compiled from `s`,
/// with its states numbered breadth-first from the start state.
pub open spec fn dot_of(s: Syntax) -> Seq<char> {
    let g = built(two_states(), s, 0, 1);
    dot_text(g, numbering(g, 0), 0, 1)
}

/// Compiles a tree and describes the automaton as a directed graph. A tree
/// with a construct that the compiler does not handle is refused with the
/// first such construct.
pub fn regex_to_dot(r: &Regex) -> (res: Result<String, Unsupported>)
    ensures
        match first_unsupported(r@) {
            Some(u) => res == Err::<String, Unsupported>(u),
            None => res matches Ok(text) && text@ == dot_of(r@),
        },
{
    match compile(r) {
        Ok(a) => {
            let mapping = renumber_states(&a.nfa, a.start);
            Ok(render_dot(&a.nfa, &mapping, a.start, a.accept))
        },
        Err(u) => Err(u),
    }
}

/// Parses a pattern, compiles it and describes the automaton as a directed
/// graph.
pub fn pattern_to_dot(pattern: &str) -> (res: Result<String, CompileError>)
    ensures
        match parsed(pattern@) {
            None => res matches Err(CompileError::Parse(_)),
            Some(s) => match first_unsupported(s) {
                Some(u) => res == Err::<String, CompileError>(CompileError::Unsupported(u)),
                None => res matches Ok(text) && text@ == dot_of(s),
            },
        },
{
    match parse(pattern) {
        Ok(r) => match regex_to_dot(&r) {
            Ok(text) => Ok(text),
            Err(u) => Err(CompileError::Unsupported(u)),
        },
        Err(e) => Err(CompileError::Parse(e)),
    }
}

} // verus!
