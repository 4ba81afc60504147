//! Schema-independent STEP physical-file (ISO 10303-21) syntax, generic entity
//! storage with reference analysis, and static EXPRESS schema reflection.
use vstd::prelude::*;

pub mod binary;
pub mod chars;
pub mod decode;
pub mod signature;
pub mod source;
pub mod strings;
pub mod text;
pub mod topology;
pub mod diagnostic;
pub mod lexer;
pub mod limits;
pub mod mesh;
pub mod model;
pub mod numbers;
pub mod parser;
pub mod product;
pub mod schema;
pub mod pages;
pub mod value;

verus! {

} // verus!
