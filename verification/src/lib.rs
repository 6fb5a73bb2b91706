//! Analysis core of a language server for a small matrix-oriented numeric
//! language: an incrementally synchronized text buffer with a line index,
//! a span-tracked syntax tree, an error-tolerant parser, a structural type
//! inferencer, and a store of open documents.

pub mod ast;
pub mod model;
pub mod node;
pub mod parser;
pub mod text;
pub mod typesystem;
pub mod value;

use vstd::prelude::*;

verus! {

} // verus!
