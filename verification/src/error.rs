//! The parse-error taxonomy: every way an input can be malformed.

use vstd::prelude::*;

verus! {

broadcast use vstd::string::group_string_axioms;

/// A structural violation found while parsing. The first violation aborts
/// the parse; no partial tree is ever returned.
#[derive(Debug, Clone, Copy, PartialEq, Eq)]
pub enum ParseError {
    /// The input has no characters at all.
    EmptyInput,
    /// The first character is neither `<` nor `{`.
    UnexpectedLeadingCharacter(char),
    /// The input ended inside a group, before its closing `}`.
    UnterminatedGroup,
    /// The input ended inside a garbage span, before its closing `>`.
    UnterminatedGarbage,
    /// An escape marker `!` stood at the very end of the input,
    /// with nothing left to escape.
    DanglingEscape,
}

impl ParseError {
    /// The descriptive message for this error, as a sequence of characters.
    pub open spec fn message_spec(self) -> Seq<char> {
        match self {
            ParseError::EmptyInput => "expected non-empty string"@,
            ParseError::UnexpectedLeadingCharacter(_) => "expected '<' or '{'"@,
            ParseError::UnterminatedGroup => "unterminated '{'"@,
            ParseError::UnterminatedGarbage => "unterminated '<'"@,
            ParseError::DanglingEscape => "unexpected end of string after '!'"@,
        }
    }

    /// Wraps this error as the `Err` case of a parse result.
    pub fn result<T>(self) -> (r: Result<T, ParseError>)
        ensures
            r matches Err(e) && e == self,
    {
        Err(self)
    }

    /// Renders the descriptive message for this error.
    pub fn format(&self) -> (r: String)
        ensures
            r@ == self.message_spec(),
    {
        match self {
            ParseError::EmptyInput => "expected non-empty string".to_string(),
            ParseError::UnexpectedLeadingCharacter(_) => "expected '<' or '{'".to_string(),
            ParseError::UnterminatedGroup => "unterminated '{'".to_string(),
            ParseError::UnterminatedGarbage => "unterminated '<'".to_string(),
            ParseError::DanglingEscape => "unexpected end of string after '!'".to_string(),
        }
    }
}

} // verus!
