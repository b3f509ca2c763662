use vstd::prelude::*;

pub mod builtin;
pub mod decimal;
pub mod deps;
pub mod document;
mod cursor;
pub mod error;
pub mod eval;
pub mod expr;
pub mod lexer;
pub mod lint;
pub mod names;
pub mod navigate;
pub mod number;
pub mod parser;
pub mod position;
pub mod printer;
pub mod resolve;
pub mod span;
pub mod surface;
pub mod text;
pub mod specifier;
pub mod utf;
pub mod value;

verus! {

/// The deepest a value may nest before a reader refuses it.
pub const MAX_DEPTH: usize = 128;

} // verus!

pub use parser::parse;
