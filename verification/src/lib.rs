//! An LL(1) parser generator and driver: symbol and grammar loading,
//! left-recursion removal, nullable/FIRST/FOLLOW computation, the parse
//! table, a lexer for C-like source text and the table-driven parser that
//! builds a parse tree.
use vstd::prelude::*;

pub mod construct;
pub mod driver;
pub mod first;
pub mod follow;
pub mod grammar;
pub mod leaves;
pub mod lexer;
pub mod names;
pub mod parse_tree;
pub mod sets;
pub mod table;
pub mod text;

verus! {

} // verus!
