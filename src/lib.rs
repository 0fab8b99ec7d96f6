//! A single-pass scanner that turns the source text of a small imperative
//! language into a stream of classified tokens.

pub mod error;
pub mod laws;
pub mod scanner;
pub mod token;

pub use error::{LexError, SpecLexError};
pub use scanner::{lex, scan};
pub use token::{create_identifier, SpecToken, Token};
