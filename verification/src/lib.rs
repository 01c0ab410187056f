//! A small INI configuration reader.
//!
//! The library parses INI-formatted text (bracketed section headers,
//! `key = value` property lines, comments, blank lines) into a two-level
//! mapping: section name -> property name -> property value. Properties
//! that appear before the first section header land in a default section
//! named `untagged`. Parsing is all-or-nothing: a single malformed line
//! fails the whole document with a syntax error.

use vstd::prelude::*;

pub mod grammar;
pub mod inimap;
pub mod laws;
pub mod reducer;
pub mod text;

pub use grammar::{Ini, Node, NodeKind};
pub use inimap::IniMap;
pub use reducer::reduce_nodes;

use grammar::doc_ok;
use reducer::{lemma_parse_result_ok, parse_result};

verus! {

/// The ways a parse can fail.
///
/// `FileReadError` is reserved for callers that load a document from disk
/// and could not read it; the in-memory parser never produces it.
/// `UnsuccessfulParse` reports text that does not conform to the grammar.
/// `Finished` reports a matched node that lacks an expected capture, and
/// `Unreachable` a node kind the tokenizer never emits; both signal a
/// defect in the tree handed to the reducer, never a malformed document.
#[derive(Debug)]
pub enum InIParseError {
    FileReadError(String),
    UnsuccessfulParse(String),
    Finished,
    Unreachable,
}

/// Result type used throughout the library.
pub type INIParserResult<T> = Result<T, InIParseError>;

/// The parser: parses an INI document held in memory and stores the
/// resulting two-level mapping in `output`.
#[derive(Debug)]
pub struct INIParser {
    pub output: IniMap,
}

impl INIParser {
    /// Parse an INI document from a string. A conforming document
    /// yields exactly the mapping it denotes; a document with any
    /// malformed line yields a syntax error and no partial mapping.
    pub fn from_string(content: &str) -> (r: INIParserResult<INIParser>)
        ensures
            match r {
                Ok(p) => doc_ok(content@) && p.output@ == parse_result(content@),
                Err(e) => !doc_ok(content@) && e is UnsuccessfulParse,
            },
    {
        Self::parse(content)
    }

    /// Hand out the owned output mapping.
    pub fn into_inner(self) -> (r: IniMap)
        ensures
            r == self.output,
    {
        self.output
    }

    /// Tokenize the document, then reduce the parse tree.
    fn parse(content: &str) -> (r: INIParserResult<INIParser>)
        ensures
            match r {
                Ok(p) => doc_ok(content@) && p.output@ == parse_result(content@),
                Err(e) => !doc_ok(content@) && e is UnsuccessfulParse,
            },
    {
        let nodes = match Ini::tokenize(content) {
            Ok(ns) => ns,
            Err(e) => {
                return Err(e);
            },
        };
        proof {
            lemma_parse_result_ok(content@);
        }
        match reduce_nodes(&nodes) {
            Ok(output) => Ok(INIParser { output }),
            Err(e) => Err(e),
        }
    }
}

} // verus!
