use vstd::prelude::*;

pub mod chunk;
pub mod compile;
pub mod gc;
pub mod interner;
pub mod lexer;
pub mod opcode;
pub mod token;
pub mod vm;

verus! {

} // verus!
