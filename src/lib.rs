use vstd::prelude::*;

pub mod value;
pub mod vm;
pub mod machine;
pub mod text;
pub mod lexer;
pub mod parser;

verus! {

} // verus!
