//! The lexical atoms of the grammar.

use vstd::prelude::*;

use crate::number::{Number, NumberView};

verus! {

/// One lexical atom.
#[derive(Debug)]
pub enum Token {
    /// A string literal, without its quotes.
    Str(String),
    /// A numeric literal.
    Num(Number),
    False,
    True,
    Null,
    LBrace,
    RBrace,
    LBracket,
    RBracket,
    Comma,
    Colon,
    /// The end of the input.
    Eof,
    /// Text that is no token of the grammar, as written.
    IllegalIdent(String),
}

/// What a [`Token`] stands for.
pub enum TokenView {
    Str(Seq<char>),
    Num(NumberView),
    False,
    True,
    Null,
    LBrace,
    RBrace,
    LBracket,
    RBracket,
    Comma,
    Colon,
    Eof,
    IllegalIdent(Seq<char>),
}

impl View for Token {
    type V = TokenView;

    open spec fn view(&self) -> TokenView {
        match self {
            Token::Str(s) => TokenView::Str(s@),
            Token::Num(n) => TokenView::Num(n@),
            Token::False => TokenView::False,
            Token::True => TokenView::True,
            Token::Null => TokenView::Null,
            Token::LBrace => TokenView::LBrace,
            Token::RBrace => TokenView::RBrace,
            Token::LBracket => TokenView::LBracket,
            Token::RBracket => TokenView::RBracket,
            Token::Comma => TokenView::Comma,
            Token::Colon => TokenView::Colon,
            Token::Eof => TokenView::Eof,
            Token::IllegalIdent(s) => TokenView::IllegalIdent(s@),
        }
    }
}

impl TokenView {
    /// A token after which the lexer yields nothing new: the end of the
    /// input, or the empty lexeme it reports at a character that starts no
    /// token.
    pub open spec fn is_last(self) -> bool {
        self == TokenView::Eof || self == TokenView::IllegalIdent(Seq::<char>::empty())
    }
}

/// Whether a stream of tokens ends as the lexer's streams do: with a last
/// token.
pub open spec fn ends(ts: Seq<TokenView>) -> bool {
    ts.len() > 0 && ts.last().is_last()
}

} // verus!
