//! Front end of a small interpreted scripting language: a scanner from source
//! text to tokens, a recursive-descent parser producing assignment statements,
//! a position-tracking diagnostic facility, and a minimal evaluator for
//! variable bindings.

pub mod error;
pub mod interpreter;
pub mod lexer;
pub mod parser;
pub mod runner;

pub use error::{Error, ErrorKind, ErrorWithSource, Position};
pub use interpreter::{Intepreter, Value};
pub use lexer::{Lexer, Token};
pub use parser::Parser;
pub use runner::{Runner, Source};
