//! The lexer: from characters to tokens, one token at a time.

use vstd::prelude::*;

use crate::chars::{digit, is_digit, is_whitespace, is_word_char, whitespace, word_char};
use crate::number::{
    all_digits, decimal_value, has_point_at, integer_literal, is_decimal, parse_digits, Number,
    NumberView,
};
use crate::text::{chars_of, collect};
use crate::token::{ends, Token, TokenView};

verus! {

/// The kinds of character run that the lexer scans over.
#[derive(Clone, Copy, Debug)]
pub enum Run {
    /// Whitespace between tokens.
    Blank,
    /// The digits of a numeric literal.
    Digits,
    /// The characters of a bareword.
    Word,
    /// What stands between the quotes of a string literal.
    Quoted,
}

impl Run {
    /// Whether a run of this kind goes on over `c`.
    pub open spec fn holds(self, c: char) -> bool {
        match self {
            Run::Blank => is_whitespace(c),
            Run::Digits => is_digit(c),
            Run::Word => is_word_char(c),
            Run::Quoted => c != '"',
        }
    }

    /// Whether a run of this kind goes on over `c`.
    fn takes(self, c: char) -> (b: bool)
        ensures
            b == self.holds(c),
    {
        match self {
            Run::Blank => whitespace(c),
            Run::Digits => digit(c),
            Run::Word => word_char(c),
            Run::Quoted => c != '"',
        }
    }
}

/// Where the run that starts at `from` ends: the first position at or after
/// `from` whose character the run does not go on over, or the end of `src`.
pub open spec fn run_end(src: Seq<char>, from: int, run: Run) -> int
    decreases src.len() - from,
{
    if 0 <= from < src.len() && run.holds(src[from]) {
        run_end(src, from + 1, run)
    } else {
        from
    }
}

/// A run ends within the text, holds of every character it covers, and stops
/// only where it must.
pub proof fn lemma_run_end(src: Seq<char>, from: int, run: Run)
    requires
        0 <= from <= src.len(),
    ensures
        from <= run_end(src, from, run) <= src.len(),
        forall|i: int| from <= i < run_end(src, from, run) ==> run.holds(#[trigger] src[i]),
        run_end(src, from, run) < src.len() ==> !run.holds(src[run_end(src, from, run)]),
    decreases src.len() - from,
{
    if from < src.len() && run.holds(src[from]) {
        lemma_run_end(src, from + 1, run);
    }
}

/// The token of a string literal whose opening quote stands at `start`, and
/// the position after it. The literal runs to the next quote, or to the end
/// of the text where there is none; nothing in it is an escape.
pub open spec fn string_token(src: Seq<char>, start: int) -> (TokenView, int) {
    let close = run_end(src, start + 1, Run::Quoted);
    (
        TokenView::Str(src.subrange(start + 1, close)),
        if close < src.len() {
            close + 1
        } else {
            close
        },
    )
}

/// The token of a numeric literal that starts at `start`, and the position
/// after it. The literal is a run of digits, then at most one decimal point
/// with a run of digits behind it. Without a point it must fit in 64 bits,
/// sign included.
pub open spec fn number_token(src: Seq<char>, start: int) -> (TokenView, int) {
    let point = run_end(src, start, Run::Digits);
    if point < src.len() && src[point] == '.' {
        let end = run_end(src, point + 1, Run::Digits);
        (TokenView::Num(NumberView::Decimal(src.subrange(start, end))), end)
    } else {
        let text = src.subrange(start, point);
        match integer_literal(text) {
            Some(n) => (TokenView::Num(NumberView::Integer(n)), point),
            None => (TokenView::IllegalIdent(text), point),
        }
    }
}

/// A numeric literal is an integer that fits, a literal with a decimal
/// point, or, as a lexeme that is no token, an integer that does not fit.
pub proof fn lemma_number_token(src: Seq<char>, start: int)
    requires
        0 <= start < src.len(),
        is_digit(src[start]),
    ensures
        match number_token(src, start).0 {
            TokenView::Num(NumberView::Integer(n)) => 0 <= n <= i64::MAX,
            TokenView::Num(NumberView::Decimal(text)) => is_decimal(text),
            TokenView::IllegalIdent(text) => all_digits(text) && decimal_value(text) > i64::MAX,
            _ => false,
        },
{
    let point = run_end(src, start, Run::Digits);
    lemma_run_end(src, start, Run::Digits);
    if point < src.len() && src[point] == '.' {
        let end = run_end(src, point + 1, Run::Digits);
        lemma_run_end(src, point + 1, Run::Digits);
        let text = src.subrange(start, end);
        assert(has_point_at(text, point - start)) by {
            let whole = text.subrange(0, point - start);
            assert forall|i: int| 0 <= i < whole.len() implies is_digit(#[trigger] whole[i]) by {
                assert(Run::Digits.holds(src[start + i]));
            }
            let part = text.subrange(point - start + 1, text.len() as int);
            assert forall|i: int| 0 <= i < part.len() implies is_digit(#[trigger] part[i]) by {
                assert(Run::Digits.holds(src[point + 1 + i]));
            }
        }
    } else {
        let text = src.subrange(start, point);
        assert forall|i: int| 0 <= i < text.len() implies is_digit(#[trigger] text[i]) by {
            assert(Run::Digits.holds(src[start + i]));
        }
    }
}

/// The token that a bareword spells.
pub open spec fn word(text: Seq<char>) -> TokenView {
    if text == seq!['f', 'a', 'l', 's', 'e'] {
        TokenView::False
    } else if text == seq!['t', 'r', 'u', 'e'] {
        TokenView::True
    } else if text == seq!['n', 'u', 'l', 'l'] {
        TokenView::Null
    } else {
        TokenView::IllegalIdent(text)
    }
}

/// The token of the bareword that starts at `start`, and the position after
/// it. Where no bareword starts, the lexeme is empty and the position stays.
pub open spec fn word_token(src: Seq<char>, start: int) -> (TokenView, int) {
    let end = run_end(src, start, Run::Word);
    (word(src.subrange(start, end)), end)
}

/// The token that starts at `start`, where a character other than
/// whitespace stands, and the position after it.
pub open spec fn token_at(src: Seq<char>, start: int) -> (TokenView, int) {
    let c = src[start];
    if c == '"' {
        string_token(src, start)
    } else if c == ':' {
        (TokenView::Colon, start + 1)
    } else if c == ',' {
        (TokenView::Comma, start + 1)
    } else if c == '[' {
        (TokenView::LBracket, start + 1)
    } else if c == ']' {
        (TokenView::RBracket, start + 1)
    } else if c == '{' {
        (TokenView::LBrace, start + 1)
    } else if c == '}' {
        (TokenView::RBrace, start + 1)
    } else if is_digit(c) {
        number_token(src, start)
    } else {
        word_token(src, start)
    }
}

/// The next token at or after `pos`, and the position after it.
pub open spec fn next_token(src: Seq<char>, pos: int) -> (TokenView, int) {
    let start = run_end(src, pos, Run::Blank);
    if start >= src.len() {
        (TokenView::Eof, start)
    } else {
        token_at(src, start)
    }
}

/// A token that is not the last one takes up at least one character, and
/// after the last one the lexer stays where it is and repeats it.
pub proof fn lemma_next_token(src: Seq<char>, pos: int)
    requires
        0 <= pos <= src.len(),
    ensures
        pos <= next_token(src, pos).1 <= src.len(),
        !next_token(src, pos).0.is_last() ==> pos < next_token(src, pos).1,
        next_token(src, pos).0.is_last() ==> next_token(src, next_token(src, pos).1) == next_token(
            src,
            pos,
        ),
{
    let start = run_end(src, pos, Run::Blank);
    lemma_run_end(src, pos, Run::Blank);
    if start < src.len() {
        let c = src[start];
        lemma_run_end(src, start + 1, Run::Quoted);
        lemma_run_end(src, start, Run::Digits);
        lemma_run_end(src, start, Run::Word);
        let (token, next) = token_at(src, start);
        if is_digit(c) {
            let point = run_end(src, start, Run::Digits);
            assert(point > start);
            if point < src.len() && src[point] == '.' {
                lemma_run_end(src, point + 1, Run::Digits);
            } else {
                assert(src.subrange(start, point).len() > 0);
            }
        }
        if !token.is_last() && run_end(src, start, Run::Word) == start {
            let text = src.subrange(start, start);
            assert(text =~= Seq::<char>::empty());
            assert(seq!['f', 'a', 'l', 's', 'e'].len() == 5);
            assert(seq!['t', 'r', 'u', 'e'].len() == 4);
            assert(seq!['n', 'u', 'l', 'l'].len() == 4);
        }
        if token.is_last() {
            assert(next == start) by {
                let end = run_end(src, start, Run::Word);
                if end > start {
                    assert(src.subrange(start, end).len() > 0);
                    assert(seq!['f', 'a', 'l', 's', 'e'].len() == 5);
                }
            }
            assert(run_end(src, start, Run::Blank) == start);
        }
    } else {
        assert(run_end(src, start, Run::Blank) == start);
    }
}

/// The tokens that the lexer yields from `pos` on, up to and including the
/// last one.
pub open spec fn tokens_from(src: Seq<char>, pos: int) -> Seq<TokenView>
    decreases src.len() - pos,
    when 0 <= pos <= src.len()
{
    let (token, next) = next_token(src, pos);
    if token.is_last() {
        seq![token]
    } else {
        proof {
            lemma_next_token(src, pos);
        }
        seq![token] + tokens_from(src, next)
    }
}

/// The tokens of `src`.
pub open spec fn tokens(src: Seq<char>) -> Seq<TokenView> {
    tokens_from(src, 0)
}

/// What the lexer yields ends with a last token.
pub proof fn lemma_tokens_end(src: Seq<char>, pos: int)
    requires
        0 <= pos <= src.len(),
    ensures
        ends(tokens_from(src, pos)),
    decreases src.len() - pos,
{
    let (token, next) = next_token(src, pos);
    lemma_next_token(src, pos);
    if !token.is_last() {
        lemma_tokens_end(src, next);
    }
}

/// A lexer over one text.
pub struct Lex {
    code: Vec<char>,
    pos: usize,
}

impl Lex {
    /// The position lies within the text.
    pub closed spec fn wf(&self) -> bool {
        self.pos <= self.code@.len()
    }

    /// The text.
    pub closed spec fn source(&self) -> Seq<char> {
        self.code@
    }

    /// How many characters have been consumed.
    pub closed spec fn position(&self) -> int {
        self.pos as int
    }

    /// The position never leaves the text.
    pub proof fn lemma_position(&self)
        requires
            self.wf(),
        ensures
            0 <= self.position() <= self.source().len(),
    {
    }

    /// Makes a lexer that stands at the start of `code`.
    pub fn new(code: &str) -> (lex: Self)
        ensures
            lex.wf(),
            lex.source() == code@,
            lex.position() == 0,
    {
        Lex { code: chars_of(code), pos: 0 }
    }

    /// Consumes the run that starts at the current position.
    fn scan(&mut self, run: Run)
        requires
            old(self).wf(),
        ensures
            final(self).wf(),
            final(self).source() == old(self).source(),
            final(self).position() == run_end(old(self).source(), old(self).position(), run),
            old(self).position() <= final(self).position(),
    {
        proof {
            lemma_run_end(self.code@, self.pos as int, run);
        }
        while self.pos < self.code.len() && run.takes(self.code[self.pos])
            invariant
                self.wf(),
                self.code == old(self).code,
                run_end(self.code@, self.pos as int, run) == run_end(
                    old(self).code@,
                    old(self).pos as int,
                    run,
                ),
            decreases self.code.len() - self.pos,
        {
            self.pos += 1;
        }
    }

    /// Consumes the next token and returns it. At the end of the text that
    /// is [`Token::Eof`], however often it is asked for.
    pub fn next_token(&mut self) -> (token: Token)
        requires
            old(self).wf(),
        ensures
            final(self).wf(),
            final(self).source() == old(self).source(),
            (token@, final(self).position()) == next_token(
                old(self).source(),
                old(self).position(),
            ),
    {
        self.scan(Run::Blank);
        if self.pos >= self.code.len() {
            return Token::Eof;
        }
        let c = self.code[self.pos];
        if c == '"' {
            self.str()
        } else if c == ':' {
            self.just(Token::Colon)
        } else if c == ',' {
            self.just(Token::Comma)
        } else if c == '[' {
            self.just(Token::LBracket)
        } else if c == ']' {
            self.just(Token::RBracket)
        } else if c == '{' {
            self.just(Token::LBrace)
        } else if c == '}' {
            self.just(Token::RBrace)
        } else if digit(c) {
            self.num()
        } else {
            self.ident()
        }
    }

    /// Consumes the string literal whose opening quote is the next character.
    fn str(&mut self) -> (token: Token)
        requires
            old(self).wf(),
            old(self).position() < old(self).source().len(),
        ensures
            final(self).wf(),
            final(self).source() == old(self).source(),
            (token@, final(self).position()) == string_token(
                old(self).source(),
                old(self).position(),
            ),
    {
        assert(self.code.len() == self.code@.len());
        self.pos += 1;
        let start = self.pos;
        self.scan(Run::Quoted);
        let text = collect(&self.code, start, self.pos);
        if self.pos < self.code.len() {
            self.pos += 1;
        }
        Token::Str(text)
    }

    /// Consumes the numeric literal that the next character starts.
    fn num(&mut self) -> (token: Token)
        requires
            old(self).wf(),
        ensures
            final(self).wf(),
            final(self).source() == old(self).source(),
            (token@, final(self).position()) == number_token(
                old(self).source(),
                old(self).position(),
            ),
    {
        let start = self.pos;
        self.scan(Run::Digits);
        if self.pos < self.code.len() && self.code[self.pos] == '.' {
            self.pos += 1;
            self.scan(Run::Digits);
            Token::Num(Number::Decimal(collect(&self.code, start, self.pos)))
        } else {
            match parse_digits(&self.code, start, self.pos) {
                Some(n) => Token::Num(Number::Integer(n)),
                None => Token::IllegalIdent(collect(&self.code, start, self.pos)),
            }
        }
    }

    /// Consumes one character and returns `token`.
    fn just(&mut self, token: Token) -> (same: Token)
        requires
            old(self).wf(),
            old(self).position() < old(self).source().len(),
        ensures
            final(self).wf(),
            final(self).source() == old(self).source(),
            final(self).position() == old(self).position() + 1,
            same == token,
    {
        assert(self.code.len() == self.code@.len());
        self.pos += 1;
        token
    }

    /// Consumes the bareword that the next character starts, if any.
    fn ident(&mut self) -> (token: Token)
        requires
            old(self).wf(),
        ensures
            final(self).wf(),
            final(self).source() == old(self).source(),
            (token@, final(self).position()) == word_token(
                old(self).source(),
                old(self).position(),
            ),
    {
        let start = self.pos;
        self.scan(Run::Word);
        let end = self.pos;
        proof {
            lemma_run_end(self.code@, start as int, Run::Word);
        }
        let ghost text = self.code@.subrange(start as int, end as int);
        if end - start == 5 && self.code[start] == 'f' && self.code[start + 1] == 'a'
            && self.code[start + 2] == 'l' && self.code[start + 3] == 's' && self.code[start + 4]
            == 'e' {
            assert(text =~= seq!['f', 'a', 'l', 's', 'e']);
            Token::False
        } else if end - start == 4 && self.code[start] == 't' && self.code[start + 1] == 'r'
            && self.code[start + 2] == 'u' && self.code[start + 3] == 'e' {
            assert(text =~= seq!['t', 'r', 'u', 'e']);
            Token::True
        } else if end - start == 4 && self.code[start] == 'n' && self.code[start + 1] == 'u'
            && self.code[start + 2] == 'l' && self.code[start + 3] == 'l' {
            assert(text =~= seq!['n', 'u', 'l', 'l']);
            Token::Null
        } else {
            proof {
                if text.len() == 5 {
                    assert(text[0] == self.code@[start as int]);
                    assert(text[1] == self.code@[start + 1]);
                    assert(text[2] == self.code@[start + 2]);
                    assert(text[3] == self.code@[start + 3]);
                    assert(text[4] == self.code@[start + 4]);
                }
                if text.len() == 4 {
                    assert(text[0] == self.code@[start as int]);
                    assert(text[1] == self.code@[start + 1]);
                    assert(text[2] == self.code@[start + 2]);
                    assert(text[3] == self.code@[start + 3]);
                }
            }
            Token::IllegalIdent(collect(&self.code, start, end))
        }
    }
}

} // verus!
