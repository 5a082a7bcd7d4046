//! A lightweight, self-contained s-expression parser and data format.
//! Use `parse` to get an s-expression from its string representation, and
//! `Sexp::to_string` to serialize it.
use vstd::prelude::*;

pub mod text;
pub mod sexp;
pub mod error;
pub mod grammar;
pub mod parser;
pub mod printer;
pub mod laws;
pub mod map;

pub use crate::sexp::Atom;
pub use crate::sexp::Sexp;
pub use crate::sexp::atom_s;
pub use crate::sexp::atom_i;
pub use crate::sexp::list;
pub use crate::error::Error;
pub use crate::error::get_line_and_column;
pub use crate::parser::parse;
pub use crate::map::SexpMap;

verus! {

} // verus!
