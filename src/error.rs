//! The ways a scan can fail, and their messages.

use vstd::prelude::*;

verus! {

/// Why a scan failed.
#[derive(Debug, PartialEq)]
pub enum LexError {
    /// A digit run glued to a letter; holds the text from the start of the
    /// digit run to the end of the input.
    InvalidIdentifier(String),
    /// A character that starts no token (a lone `!` included).
    UnrecognizedSymbol(char),
    /// A digit run whose value does not fit in an `i32`; holds the digits.
    NumeralOverflow(String),
}

/// The model of a `LexError`: texts as character sequences.
pub enum SpecLexError {
    InvalidIdentifier(Seq<char>),
    UnrecognizedSymbol(char),
    NumeralOverflow(Seq<char>),
}

impl View for LexError {
    type V = SpecLexError;

    open spec fn view(&self) -> SpecLexError {
        match self {
            LexError::InvalidIdentifier(s) => SpecLexError::InvalidIdentifier(s@),
            LexError::UnrecognizedSymbol(c) => SpecLexError::UnrecognizedSymbol(*c),
            LexError::NumeralOverflow(s) => SpecLexError::NumeralOverflow(s@),
        }
    }
}

/// The message that describes an error.
pub open spec fn error_message(e: SpecLexError) -> Seq<char> {
    match e {
        SpecLexError::InvalidIdentifier(s) => "Invalid variable name starting with a number at: "@
            + s,
        SpecLexError::UnrecognizedSymbol(c) => "Unrecognized symbol '"@ + seq![c] + "'"@,
        SpecLexError::NumeralOverflow(s) => "Numeral out of range: "@ + s,
    }
}

/// Relies on `String::from(char)`: a string that holds the one character.
#[verifier::external_body]
fn char_string(c: char) -> (r: String)
    ensures
        r@ == seq![c],
{
    String::from(c)
}

impl LexError {
    /// The human-readable description of this error.
    pub fn message(&self) -> (r: String)
        ensures
            r@ == error_message(self@),
    {
        match self {
            LexError::InvalidIdentifier(s) => {
                let head = "Invalid variable name starting with a number at: ".to_owned();
                head.concat(s.as_str())
            },
            LexError::UnrecognizedSymbol(c) => {
                let head = "Unrecognized symbol '".to_owned();
                let sym = char_string(*c);
                head.concat(sym.as_str()).concat("'")
            },
            LexError::NumeralOverflow(s) => {
                let head = "Numeral out of range: ".to_owned();
                head.concat(s.as_str())
            },
        }
    }
}

} // verus!
