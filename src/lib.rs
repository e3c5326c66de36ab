use vstd::prelude::*;

pub mod chars;
pub mod grammar;
pub mod scanner;
pub mod theorems;
pub mod token;

pub use scanner::{scan, Scanner};
pub use token::{Diagnostic, Literal, Token, TokenType};

verus! {

} // verus!
