//! AsciiDoc line scanning, preprocessing and renderer-agnostic document
//! semantics, with the text logic verified against specifications over
//! sequences of Unicode scalar values.

use vstd::prelude::*;

pub mod text;
pub mod scanner;
pub mod table;
pub mod fields;
pub mod header;
pub mod ident;
pub mod pass;
pub mod attrs;
pub mod cond;
pub mod counters;
pub mod lines;
pub mod preprocessor;
pub mod inclusion;
pub mod render;
pub mod xref;
pub mod toc;
pub mod numbering;
pub mod registry;
pub mod subst;
pub mod tokens;
pub mod escape;
pub mod passes;

verus! {

} // verus!
