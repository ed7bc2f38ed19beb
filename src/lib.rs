//! Fixed-width two's-complement words, a small arithmetic and bitwise term language with a
//! row-by-row evaluator over concrete vectors, cost-layered enumeration of new terms, and
//! rewrite rules between canonically generalized patterns with their text forms.
use vstd::prelude::*;

pub mod bv;
pub mod equality;
pub mod lang;
pub mod layer;
pub mod lexer;
pub mod output;
pub mod parse;
pub mod syntax;

verus! {

} // verus!
