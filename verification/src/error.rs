//! The ways in which parsing fails.

use vstd::prelude::*;

verus! {

/// What is wrong where a structural token is missing or misplaced.
#[derive(Debug, Clone, Copy, PartialEq, Eq)]
pub enum Syntax {
    /// A `]` stands where a value should start.
    UnexpectedBracket,
    /// A `}` stands where a value should start.
    UnexpectedBrace,
    /// A `:` is missing.
    ExpectedColon,
}

/// Why a text could not be parsed.
#[derive(Debug, Clone, PartialEq, Eq)]
pub enum ParseError {
    /// A structural token is missing, or stands where no value can start.
    SyntaxError(Syntax),
    /// An object key is not a string literal.
    KeyTypeError,
    /// A lexeme that is no token stands where a value should start.
    UnexpectedToken {
        /// The lexeme.
        text: String,
        /// Whether a `}` follows it.
        before_brace: bool,
    },
    /// The input ends where a value should start, or a `,` stands there with
    /// nothing behind it that it could separate.
    UnexpectedEndOfInput {
        /// Whether it is such a `,`.
        after_comma: bool,
    },
    /// The arena has no free slot left for another value.
    CapacityExceeded,
}

/// What a [`ParseError`] stands for.
pub enum ErrorView {
    SyntaxError(Syntax),
    KeyTypeError,
    UnexpectedToken { text: Seq<char>, before_brace: bool },
    UnexpectedEndOfInput { after_comma: bool },
    CapacityExceeded,
}

impl View for ParseError {
    type V = ErrorView;

    open spec fn view(&self) -> ErrorView {
        match self {
            ParseError::SyntaxError(what) => ErrorView::SyntaxError(*what),
            ParseError::KeyTypeError => ErrorView::KeyTypeError,
            ParseError::UnexpectedToken { text, before_brace } => ErrorView::UnexpectedToken {
                text: text@,
                before_brace: *before_brace,
            },
            ParseError::UnexpectedEndOfInput { after_comma } => ErrorView::UnexpectedEndOfInput {
                after_comma: *after_comma,
            },
            ParseError::CapacityExceeded => ErrorView::CapacityExceeded,
        }
    }
}

impl ErrorView {
    /// The words that describe the error.
    pub open spec fn message(self) -> Seq<char> {
        match self {
            ErrorView::SyntaxError(Syntax::UnexpectedBracket) => "Unexpected ']'."@,
            ErrorView::SyntaxError(Syntax::UnexpectedBrace) => "Unexpected '}}'."@,
            ErrorView::SyntaxError(Syntax::ExpectedColon) => "Expected ':'."@,
            ErrorView::KeyTypeError => "Key is not a String"@,
            ErrorView::UnexpectedToken { text, before_brace } => if before_brace {
                "Unexpected '"@ + text + "' after '}'."@
            } else {
                "Unexpected '"@ + text + "'."@
            },
            ErrorView::UnexpectedEndOfInput { after_comma } => if after_comma {
                "Unexpected end of input after ','."@
            } else {
                "Reached EOF."@
            },
            ErrorView::CapacityExceeded => "Arena capacity exceeded."@,
        }
    }
}

impl ParseError {
    /// Describes the error in words.
    pub fn message(&self) -> (words: String)
        ensures
            words@ == self@.message(),
    {
        match self {
            ParseError::SyntaxError(Syntax::UnexpectedBracket) => String::from_str(
                "Unexpected ']'.",
            ),
            ParseError::SyntaxError(Syntax::UnexpectedBrace) => String::from_str(
                "Unexpected '}}'.",
            ),
            ParseError::SyntaxError(Syntax::ExpectedColon) => String::from_str("Expected ':'."),
            ParseError::KeyTypeError => String::from_str("Key is not a String"),
            ParseError::UnexpectedToken { text, before_brace } => {
                let mut words = String::from_str("Unexpected '");
                words.append(text.as_str());
                if *before_brace {
                    words.append("' after '}'.");
                } else {
                    words.append("'.");
                }
                words
            },
            ParseError::UnexpectedEndOfInput { after_comma } => if *after_comma {
                String::from_str("Unexpected end of input after ','.")
            } else {
                String::from_str("Reached EOF.")
            },
            ParseError::CapacityExceeded => String::from_str("Arena capacity exceeded."),
        }
    }
}

} // verus!
