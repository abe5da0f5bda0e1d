//! Errors of the lexer.
use vstd::prelude::*;
use crate::text::{decimal, push_char, push_decimal};

verus! {

/// Errors that the lexer reports.
#[derive(Debug, Clone, Copy, PartialEq, Eq, Structural)]
pub enum LexerError {
    /// A token could not be read: the character and the line where it happened.
    UnsupportedToken(char, usize),
    /// The input ended where more was expected.
    UnexpectedEOF,
}

/// The message that describes `e`.
pub open spec fn error_message(e: LexerError) -> Seq<char> {
    match e {
        LexerError::UnsupportedToken(c, line) =>
            "Lexer Error: Token '"@ + seq![c] + "' is not supported at line "@ + decimal(line as nat),
        LexerError::UnexpectedEOF => "Lexer Error: Unexpected end of file"@,
    }
}

impl LexerError {
    /// The human-readable message of this error.
    pub fn message(&self) -> (s: String)
        ensures
            s@ == error_message(*self),
    {
        match self {
            LexerError::UnsupportedToken(c, line) => {
                let mut s = String::from_str("Lexer Error: Token '");
                push_char(&mut s, *c);
                s.append("' is not supported at line ");
                push_decimal(&mut s, *line);
                s
            },
            LexerError::UnexpectedEOF => String::from_str("Lexer Error: Unexpected end of file"),
        }
    }
}

} // verus!
