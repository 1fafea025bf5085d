//! Parses arithmetic expressions (integers, decimals, constants, bracketed functions,
//! calls, parentheses, negation and the four binary operators) into an owned syntax tree.
//!
//! `ast` holds the tree and its builders, `grammar` states the grammar as spec functions
//! over the input's bytes, `parser` holds the parser proved to follow it, `laws` states
//! facts about the grammar, and `text` the byte-level helpers.
use vstd::prelude::*;

verus! {

pub mod ast;
pub mod grammar;
pub mod laws;
pub mod parser;
pub mod text;

} // verus!
