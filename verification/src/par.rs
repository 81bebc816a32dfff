//! The parser: from tokens to values in an arena.

use vstd::pervasive::unreached;
use vstd::prelude::*;

use crate::arena::{Allocator, Id};
use crate::error::{ErrorView, ParseError, Syntax};
use crate::grammar::{
    advance, first, parse_documents, parse_entries, parse_items, parse_value, second, Doc,
};
use crate::layout::{lemma_store_extends, store, store_entries, store_items, views};
use crate::lexer::{lemma_next_token, next_token, tokens, tokens_from, Lex};
use crate::token::{Token, TokenView};
use crate::notation::{all_fit, list_tokens};
use crate::spelling::{joined, lemma_reads_text, spell, surround};
use crate::tree::{doc_tree, lemma_store_tree, tree_of};
use crate::value::{all_wf, slots_of, JsonValue, Object, ValueView};

verus! {

/// A recursive-descent parser with one token of lookahead.
pub struct Par {
    cur: Token,
    nxt: Token,
    lex: Lex,
    mem: Allocator<JsonValue>,
    size: usize,
}

impl Par {
    /// The lookahead agrees with the lexer, and the arena is the one that was
    /// asked for.
    pub closed spec fn wf(&self) -> bool {
        &&& self.lex.wf()
        &&& self.mem.wf()
        &&& all_wf(self.mem@)
        &&& self.size > 0
        &&& self.mem.capacity() == self.size - 1
        &&& (self.cur@.is_last() ==> self.nxt@ == self.cur@)
        &&& (self.nxt@.is_last() ==> next_token(self.lex.source(), self.lex.position()) == (
            self.nxt@,
            self.lex.position(),
        ))
    }

    /// The text that is parsed.
    pub closed spec fn source(&self) -> Seq<char> {
        self.lex.source()
    }

    /// The tokens that are still to be parsed, the current one first.
    pub closed spec fn remaining(&self) -> Seq<TokenView> {
        if self.cur@.is_last() {
            seq![self.cur@]
        } else if self.nxt@.is_last() {
            seq![self.cur@, self.nxt@]
        } else {
            seq![self.cur@, self.nxt@] + tokens_from(self.lex.source(), self.lex.position())
        }
    }

    /// What the arena holds.
    pub closed spec fn arena(&self) -> Seq<ValueView> {
        views(self.mem@)
    }

    /// How many slots of the arena are free.
    pub closed spec fn room(&self) -> nat {
        (self.mem.capacity() - self.mem@.len()) as nat
    }

    /// The capacity that each document's arena is made with.
    pub closed spec fn requested(&self) -> usize {
        self.size
    }

    /// The lookahead is the head of what remains, and the free slots are
    /// those that hold nothing yet.
    proof fn lemma_head(&self)
        requires
            self.wf(),
        ensures
            first(self.remaining()) == self.cur@,
            second(self.remaining()) == self.nxt@,
            self.remaining().len() > 0,
            !self.cur@.is_last() ==> self.remaining().len() > 1,
            self.room() + self.arena().len() == self.requested() - 1,
    {
        self.mem.lemma_bounded();
    }

    /// Makes a parser that reads what `lex` has not yet consumed, into
    /// arenas that are made with capacity `mem`.
    fn init(lex: Lex, mem: usize) -> (parser: Self)
        requires
            lex.wf(),
            mem > 0,
        ensures
            parser.wf(),
            parser.source() == lex.source(),
            parser.remaining() == tokens_from(lex.source(), lex.position()),
            parser.arena() == Seq::<ValueView>::empty(),
            parser.room() == mem - 1,
            parser.requested() == mem,
    {
        let mut lex = lex;
        let ghost src = lex.source();
        let ghost start = lex.position();
        proof {
            lex.lemma_position();
            lemma_next_token(src, start);
        }
        let cur = lex.next_token();
        proof {
            lex.lemma_position();
            lemma_next_token(src, lex.position());
        }
        let ghost mid = lex.position();
        let nxt = lex.next_token();
        let parser = Par { cur, nxt, lex, mem: Allocator::make(mem), size: mem };
        proof {
            assert(parser.remaining() =~= tokens_from(src, start)) by {
                if !cur@.is_last() {
                    assert(tokens_from(src, start) == seq![cur@] + tokens_from(src, mid));
                }
            }
        }
        parser
    }

    /// Moves on by one token and returns the one that was current.
    fn advance(&mut self) -> (passed: Token)
        requires
            old(self).wf(),
        ensures
            final(self).wf(),
            final(self).source() == old(self).source(),
            final(self).requested() == old(self).requested(),
            final(self).arena() == old(self).arena(),
            final(self).room() == old(self).room(),
            final(self).remaining() == advance(old(self).remaining()),
            final(self).remaining().len() <= old(self).remaining().len(),
            !first(old(self).remaining()).is_last() ==> final(self).remaining().len() < old(
                self,
            ).remaining().len(),
            passed@ == first(old(self).remaining()),
    {
        let ghost src = self.lex.source();
        let ghost pos = self.lex.position();
        proof {
            self.lex.lemma_position();
            lemma_next_token(src, pos);
        }
        let mut passed = self.lex.next_token();
        std::mem::swap(&mut self.nxt, &mut self.cur);
        std::mem::swap(&mut self.nxt, &mut passed);
        passed
    }

    /// Swaps the arena for an empty one of the same capacity and returns it.
    fn take_arena(&mut self) -> (arena: Allocator<JsonValue>)
        requires
            old(self).wf(),
        ensures
            final(self).wf(),
            final(self).source() == old(self).source(),
            final(self).requested() == old(self).requested(),
            final(self).remaining() == old(self).remaining(),
            final(self).arena() == Seq::<ValueView>::empty(),
            final(self).room() == old(self).requested() - 1,
            arena.wf(),
            all_wf(arena@),
            arena.capacity() == old(self).requested() - 1,
            views(arena@) == old(self).arena(),
    {
        let mut arena = Allocator::make(self.size);
        std::mem::swap(&mut self.mem, &mut arena);
        arena
    }

    /// Whether `results` are the layouts of `docs`, each in an arena of its
    /// own with room for `room` values.
    pub open spec fn laid_out(
        results: Seq<(JsonValue, Allocator<JsonValue>)>,
        docs: Seq<Doc>,
        room: nat,
    ) -> bool {
        &&& results.len() == docs.len()
        &&& forall|i: int|
            #![trigger results[i]]
            0 <= i < docs.len() ==> {
                &&& results[i].0.wf()
                &&& results[i].1.wf()
                &&& all_wf(results[i].1@)
                &&& results[i].1.capacity() == room
                &&& store(docs[i], Seq::empty()) == (views(results[i].1@), results[i].0@)
            }
    }

    /// Whether `res` is what parsing `src` gives with arenas of capacity
    /// `mem`: the documents that the grammar reads from the tokens of `src`,
    /// each laid out in an arena of its own, or the grammar's error.
    pub open spec fn outcome(
        src: Seq<char>,
        mem: usize,
        res: Result<Vec<(JsonValue, Allocator<JsonValue>)>, ParseError>,
    ) -> bool {
        match res {
            Ok(results) => {
                &&& parse_documents(tokens(src), (mem - 1) as nat, Seq::empty()) matches Ok(docs)
                &&& Self::laid_out(results@, docs, (mem - 1) as nat)
            },
            Err(e) => parse_documents(tokens(src), (mem - 1) as nat, Seq::empty()) == Err::<
                Seq<Doc>,
                ErrorView,
            >(e@),
        }
    }

    /// Parsing is a function of the text and the capacity: two outcomes for
    /// the same text agree, in the error or in every value and every slot of
    /// every arena, and so in every tree.
    pub proof fn lemma_outcome_unique(
        src: Seq<char>,
        mem: usize,
        a: Result<Vec<(JsonValue, Allocator<JsonValue>)>, ParseError>,
        b: Result<Vec<(JsonValue, Allocator<JsonValue>)>, ParseError>,
    )
        requires
            Self::outcome(src, mem, a),
            Self::outcome(src, mem, b),
        ensures
            a is Ok <==> b is Ok,
            a is Err ==> a->Err_0@ == b->Err_0@,
            a is Ok ==> a->Ok_0@.len() == b->Ok_0@.len(),
            a is Ok ==> forall|i: int|
                #![trigger a->Ok_0@[i]]
                #![trigger b->Ok_0@[i]]
                0 <= i < a->Ok_0@.len() ==> {
                    &&& a->Ok_0@[i].0@ == b->Ok_0@[i].0@
                    &&& views(a->Ok_0@[i].1@) == views(b->Ok_0@[i].1@)
                    &&& tree_of(views(a->Ok_0@[i].1@), a->Ok_0@[i].0@) == tree_of(
                        views(b->Ok_0@[i].1@),
                        b->Ok_0@[i].0@,
                    )
                },
    {
    }

    /// Parsing reads documents back from a text that writes them down.
    /// Whatever the nesting: where one or more documents are written in plain
    /// notation, each token spelled out, with whitespace or nothing between
    /// the tokens, and the arena has room for the parts of each document,
    /// parsing succeeds, and following the handles of each value gives the
    /// tree its document is meant to be.
    pub proof fn lemma_outcome_of_written(
        docs: Seq<Doc>,
        gaps: Seq<Seq<char>>,
        texts: Seq<Seq<char>>,
        mem: usize,
        res: Result<Vec<(JsonValue, Allocator<JsonValue>)>, ParseError>,
    )
        requires
            mem > 0,
            docs.len() > 0,
            all_fit(docs, (mem - 1) as nat),
            spell(texts, list_tokens(docs)),
            surround(gaps, texts),
            Self::outcome(joined(gaps, texts), mem, res),
        ensures
            res is Ok,
            res->Ok_0@.len() == docs.len(),
            forall|i: int|
                #![trigger res->Ok_0@[i]]
                0 <= i < docs.len() ==> tree_of(views(res->Ok_0@[i].1@), res->Ok_0@[i].0@)
                    == doc_tree(docs[i]),
    {
        lemma_reads_text(docs, gaps, texts, (mem - 1) as nat);
        let results = res->Ok_0@;
        assert forall|i: int| #![trigger results[i]] 0 <= i < docs.len() implies tree_of(
            views(results[i].1@),
            results[i].0@,
        ) == doc_tree(docs[i]) by {
            lemma_store_tree(docs[i], Seq::empty());
        }
    }

    /// Parses every document of `src`, each into an arena of its own that
    /// was made with capacity `mem`.
    pub fn parse(src: &str, mem: usize) -> (res: Result<
        Vec<(JsonValue, Allocator<JsonValue>)>,
        ParseError,
    >)
        requires
            mem > 0,
        ensures
            Self::outcome(src@, mem, res),
    {
        let mut parser = Self::init(Lex::new(src), mem);
        let mut results: Vec<(JsonValue, Allocator<JsonValue>)> = Vec::new();
        let ghost room = (mem - 1) as nat;
        let ghost whole = parse_documents(tokens(src@), room, Seq::empty());
        let ghost mut docs: Seq<Doc> = Seq::empty();
        loop
            invariant_except_break
                whole == parse_documents(parser.remaining(), room, docs),
            invariant
                parser.wf(),
                mem > 0,
                room == mem - 1,
                whole == parse_documents(tokens(src@), room, Seq::empty()),
                parser.requested() == mem,
                parser.arena() == Seq::<ValueView>::empty(),
                parser.room() == room,
                Self::laid_out(results@, docs, room),
            ensures
                whole == Ok::<Seq<Doc>, ErrorView>(docs),
            decreases parser.remaining().len(),
        {
            let ghost ts = parser.remaining();
            let value = parser.go_parse()?;
            let ghost doc = parse_value(ts, room)->Ok_0.0;
            let arena = parser.take_arena();
            let ghost before = results@;
            results.push((value, arena));
            proof {
                docs = docs.push(doc);
                parser.lemma_head();
                assert forall|i: int|
                    #![trigger results@[i]]
                    0 <= i < docs.len() implies {
                    &&& results@[i].0.wf()
                    &&& results@[i].1.wf()
                    &&& all_wf(results@[i].1@)
                    &&& results@[i].1.capacity() == room
                    &&& store(docs[i], Seq::empty()) == (views(results@[i].1@), results@[i].0@)
                } by {
                    if i < before.len() {
                        assert(results@[i] == before[i]);
                    }
                }
            }
            if matches!(parser.cur, Token::Eof) {
                break ;
            }
            if matches!(parser.cur, Token::Comma) {
                parser.advance();
            }
        }
        Ok(results)
    }

    /// Parses the value that starts at the current token and moves past it.
    pub fn go_parse(&mut self) -> (res: Result<JsonValue, ParseError>)
        requires
            old(self).wf(),
        ensures
            final(self).wf(),
            final(self).source() == old(self).source(),
            final(self).requested() == old(self).requested(),
            match res {
                Ok(value) => {
                    &&& parse_value(old(self).remaining(), old(self).room()) matches Ok(
                        (doc, rest),
                    )
                    &&& final(self).remaining() == rest
                    &&& final(self).remaining().len() < old(self).remaining().len()
                    &&& store(doc, old(self).arena()) == (final(self).arena(), value@)
                    &&& value.wf()
                },
                Err(e) => parse_value(old(self).remaining(), old(self).room()) == Err::<
                    (Doc, Seq<TokenView>),
                    ErrorView,
                >(e@),
            },
        decreases old(self).remaining().len(), 0nat,
    {
        proof {
            self.lemma_head();
        }
        match self.cur {
            Token::False => {
                self.advance();
                Ok(JsonValue::Bool(false))
            },
            Token::True => {
                self.advance();
                Ok(JsonValue::Bool(true))
            },
            Token::Null => {
                self.advance();
                Ok(JsonValue::Null)
            },
            Token::Str(_) => {
                match self.advance() {
                    Token::Str(s) => Ok(JsonValue::String(s)),
                    _ => unreached(),
                }
            },
            Token::Num(_) => {
                match self.advance() {
                    Token::Num(n) => Ok(JsonValue::Number(n)),
                    _ => unreached(),
                }
            },
            Token::LBracket => {
                self.advance();
                let list = self.items()?;
                self.advance();
                Ok(JsonValue::List(list))
            },
            Token::RBracket => {
                self.advance();
                proof {
                    self.lemma_head();
                }
                if matches!(
                    self.cur,
                    Token::Eof | Token::RBracket | Token::RBrace | Token::Comma | Token::Colon
                        | Token::LBrace
                ) {
                    self.advance();
                    let list: Vec<Id<JsonValue>> = Vec::new();
                    assert(slots_of(list@) =~= Seq::<nat>::empty());
                    Ok(JsonValue::List(list))
                } else {
                    Err(ParseError::SyntaxError(Syntax::UnexpectedBracket))
                }
            },
            Token::LBrace => {
                self.advance();
                let object = self.entries()?;
                self.advance();
                Ok(JsonValue::Object(object))
            },
            Token::RBrace => {
                self.advance();
                proof {
                    self.lemma_head();
                }
                if matches!(
                    self.cur,
                    Token::Eof | Token::Comma | Token::RBracket | Token::RBrace
                ) {
                    self.advance();
                    Ok(JsonValue::Object(Object::new()))
                } else {
                    Err(ParseError::SyntaxError(Syntax::UnexpectedBrace))
                }
            },
            Token::Comma => {
                self.advance();
                proof {
                    self.lemma_head();
                }
                if matches!(self.cur, Token::Eof | Token::RBracket | Token::RBrace) {
                    Err(ParseError::UnexpectedEndOfInput { after_comma: true })
                } else {
                    self.advance();
                    Ok(JsonValue::Null)
                }
            },
            Token::Colon => {
                self.advance();
                proof {
                    self.lemma_head();
                }
                if matches!(self.cur, Token::Colon) {
                    self.advance();
                    self.advance();
                    Ok(JsonValue::Null)
                } else {
                    Err(ParseError::SyntaxError(Syntax::ExpectedColon))
                }
            },
            Token::Eof => Err(ParseError::UnexpectedEndOfInput { after_comma: false }),
            Token::IllegalIdent(_) => {
                let before_brace = matches!(self.nxt, Token::RBrace);
                match &self.cur {
                    Token::IllegalIdent(text) => Err(
                        ParseError::UnexpectedToken { text: text.clone(), before_brace },
                    ),
                    _ => unreached(),
                }
            },
        }
    }

    /// Parses the items of a list up to the `]` that closes it, and stores
    /// each in the arena.
    fn items(&mut self) -> (res: Result<Vec<Id<JsonValue>>, ParseError>)
        requires
            old(self).wf(),
        ensures
            final(self).wf(),
            final(self).source() == old(self).source(),
            final(self).requested() == old(self).requested(),
            match res {
                Ok(list) => {
                    &&& parse_items(old(self).remaining(), old(self).room(), Seq::empty())
                        matches Ok((items, rest))
                    &&& final(self).remaining() == rest
                    &&& final(self).remaining().len() <= old(self).remaining().len()
                    &&& store_items(items, old(self).arena()) == (
                        final(self).arena(),
                        slots_of(list@),
                    )
                },
                Err(e) => parse_items(old(self).remaining(), old(self).room(), Seq::empty())
                    == Err::<(Seq<Doc>, Seq<TokenView>), ErrorView>(e@),
            },
        decreases old(self).remaining().len(), 1nat,
    {
        let mut list: Vec<Id<JsonValue>> = Vec::new();
        let ghost whole = parse_items(self.remaining(), self.room(), Seq::empty());
        let ghost mut items: Seq<Doc> = Seq::empty();
        loop
            invariant
                self.wf(),
                self.source() == old(self).source(),
                self.requested() == old(self).requested(),
                self.remaining().len() <= old(self).remaining().len(),
                whole == parse_items(old(self).remaining(), old(self).room(), Seq::empty()),
                whole == parse_items(self.remaining(), self.room(), items),
                store_items(items, old(self).arena()) == (self.arena(), slots_of(list@)),
            ensures
                whole == Ok::<(Seq<Doc>, Seq<TokenView>), ErrorView>((items, self.remaining())),
            decreases self.remaining().len(),
        {
            proof {
                self.lemma_head();
            }
            let ghost room = self.room();
            if matches!(self.cur, Token::RBracket) {
                break ;
            }
            if matches!(self.cur, Token::Comma) {
                self.advance();
            } else {
                let ghost at = self.remaining();
                let ghost before = self.arena();
                let value = self.go_parse()?;
                let ghost doc = parse_value(at, room)->Ok_0.0;
                let ghost filled = self.arena();
                let ghost stored_view = value@;
                proof {
                    lemma_store_extends(doc, before);
                    self.lemma_head();
                }
                let id = self.mem.allocate(value)?;
                let ghost read = items;
                list.push(id);
                proof {
                    items = read.push(doc);
                    assert(items.drop_last() =~= read);
                    assert(self.arena() =~= filled.push(stored_view));
                }
            }
        }
        Ok(list)
    }

    /// Parses the entries of an object up to the `}` that closes it, and
    /// stores each value in the arena.
    fn entries(&mut self) -> (res: Result<Object, ParseError>)
        requires
            old(self).wf(),
        ensures
            final(self).wf(),
            final(self).source() == old(self).source(),
            final(self).requested() == old(self).requested(),
            match res {
                Ok(object) => {
                    &&& parse_entries(old(self).remaining(), old(self).room(), Seq::empty())
                        matches Ok((entries, rest))
                    &&& final(self).remaining() == rest
                    &&& final(self).remaining().len() <= old(self).remaining().len()
                    &&& store_entries(entries, old(self).arena()) == (final(self).arena(), object@)
                    &&& object.wf()
                },
                Err(e) => parse_entries(old(self).remaining(), old(self).room(), Seq::empty())
                    == Err::<(Seq<(Seq<char>, Doc)>, Seq<TokenView>), ErrorView>(e@),
            },
        decreases old(self).remaining().len(), 1nat,
    {
        let mut object = Object::new();
        let ghost whole = parse_entries(self.remaining(), self.room(), Seq::empty());
        let ghost mut entries: Seq<(Seq<char>, Doc)> = Seq::empty();
        loop
            invariant
                self.wf(),
                object.wf(),
                self.source() == old(self).source(),
                self.requested() == old(self).requested(),
                self.remaining().len() <= old(self).remaining().len(),
                whole == parse_entries(old(self).remaining(), old(self).room(), Seq::empty()),
                whole == parse_entries(self.remaining(), self.room(), entries),
                store_entries(entries, old(self).arena()) == (self.arena(), object@),
            ensures
                whole == Ok::<(Seq<(Seq<char>, Doc)>, Seq<TokenView>), ErrorView>(
                    (entries, self.remaining()),
                ),
            decreases self.remaining().len(),
        {
            proof {
                self.lemma_head();
            }
            let ghost room = self.room();
            if matches!(self.cur, Token::RBrace) {
                break ;
            }
            if matches!(self.cur, Token::Comma) {
                self.advance();
            } else {
                let key = self.expect_str()?;
                proof {
                    self.lemma_head();
                }
                if matches!(self.cur, Token::Colon) {
                    self.advance();
                } else {
                    return Err(ParseError::SyntaxError(Syntax::ExpectedColon));
                }
                let ghost at = self.remaining();
                let ghost before = self.arena();
                let value = self.go_parse()?;
                let ghost doc = parse_value(at, room)->Ok_0.0;
                let ghost filled = self.arena();
                let ghost stored_view = value@;
                proof {
                    lemma_store_extends(doc, before);
                    self.lemma_head();
                }
                let id = self.mem.allocate(value)?;
                let ghost name = key@;
                let ghost read = entries;
                object.insert(key, id);
                proof {
                    entries = read.push((name, doc));
                    assert(entries.drop_last() =~= read);
                    assert(self.arena() =~= filled.push(stored_view));
                }
            }
        }
        Ok(object)
    }

    /// Takes the string literal at the current token as a key and moves past
    /// it.
    fn expect_str(&mut self) -> (res: Result<String, ParseError>)
        requires
            old(self).wf(),
        ensures
            final(self).wf(),
            final(self).source() == old(self).source(),
            final(self).requested() == old(self).requested(),
            final(self).arena() == old(self).arena(),
            final(self).room() == old(self).room(),
            match res {
                Ok(key) => {
                    &&& first(old(self).remaining()) == TokenView::Str(key@)
                    &&& final(self).remaining() == advance(old(self).remaining())
                    &&& final(self).remaining().len() < old(self).remaining().len()
                },
                Err(e) => {
                    &&& !(first(old(self).remaining()) is Str)
                    &&& e@ == ErrorView::KeyTypeError
                    &&& final(self).remaining() == old(self).remaining()
                },
            },
    {
        proof {
            self.lemma_head();
        }
        match self.cur {
            Token::Str(_) => {
                match self.advance() {
                    Token::Str(key) => Ok(key),
                    _ => unreached(),
                }
            },
            _ => Err(ParseError::KeyTypeError),
        }
    }
}

} // verus!
