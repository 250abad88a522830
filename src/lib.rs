use vstd::prelude::*;

pub mod span;
pub mod word;
pub mod token;
pub mod lexer;
pub mod diagnostic;
pub mod syntax;
pub mod parser;
pub mod query;
pub mod repl;

verus! {

} // verus!
