//! A scanner that turns a line of text into identifiers and unsigned integer literals.

pub mod classify;
pub mod encoding;
pub mod grammar;
pub mod laws;
pub mod number;
pub mod parser;
pub mod runs;

pub use number::NumberError;
pub use parser::{Expr, ParseError, ParseResult, Parser};
