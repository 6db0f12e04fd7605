//! A Pratt parser for an extensible expression language, with the source
//! bookkeeping (files, macro expansions, line maps) that maps its errors back
//! to lines of text.
use vstd::prelude::*;

pub mod text;
pub mod input;
pub mod types;
pub mod parse;
pub mod lexer;
pub mod parser;
pub mod cffi;

verus! {

pub type SourceId = usize;

/// A span of bytes in a numbered source.
#[derive(Debug, PartialEq, Eq, Hash, Structural)]
pub struct Loc {
    pub src: SourceId,
    pub start: usize,
    pub end: usize,
}

/// What a source is: a macro expanded at a location, a file (by its name), or
/// input typed at a prompt.
#[derive(Debug, PartialEq, Eq, Hash)]
pub enum SourceType {
    Macro(Loc),
    File(String),
    Repl,
}

} // verus!
