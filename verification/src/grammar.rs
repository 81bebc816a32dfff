//! The grammar: which documents a token stream denotes.
//!
//! A stream is a sequence of tokens whose last token stays at the head once
//! it is reached, as the lexer repeats its last token. The functions below
//! take the stream that is left to read and give the stream behind what they
//! read. Each step shortens a stream that ends with a last token
//! ([`lemma_value_consumes`]); so that the definitions are total, they give
//! up with an error where a step would not.

use vstd::prelude::*;

use crate::error::{ErrorView, Syntax};
use crate::number::NumberView;
use crate::token::{ends, TokenView};

verus! {

/// A document as it is written: a scalar, or a composite with its parts in
/// the order of the text.
pub enum Doc {
    String(Seq<char>),
    Number(NumberView),
    Bool(bool),
    Object(Seq<(Seq<char>, Doc)>),
    List(Seq<Doc>),
    Null,
}

/// The token at the head of the stream. A stream never runs out: its last
/// token stays at the head.
pub open spec fn first(ts: Seq<TokenView>) -> TokenView {
    if ts.len() > 0 {
        ts[0]
    } else {
        TokenView::Eof
    }
}

/// The token behind the head of the stream.
pub open spec fn second(ts: Seq<TokenView>) -> TokenView {
    if ts.len() > 1 {
        ts[1]
    } else {
        first(ts)
    }
}

/// The stream without its head, unless the head is all that is left.
pub open spec fn advance(ts: Seq<TokenView>) -> Seq<TokenView> {
    if ts.len() > 1 {
        ts.skip(1)
    } else {
        ts
    }
}

/// How many arena slots the parts of `doc` take up, the parts of its parts
/// included.
pub open spec fn slots(doc: Doc) -> nat
    decreases doc,
{
    match doc {
        Doc::List(items) => list_slots(items),
        Doc::Object(entries) => object_slots(entries),
        _ => 0,
    }
}

/// How many arena slots `items` take up: one each, and those of their parts.
pub open spec fn list_slots(items: Seq<Doc>) -> nat
    decreases items,
{
    if items.len() == 0 {
        0
    } else {
        list_slots(items.drop_last()) + slots(items.last()) + 1
    }
}

/// How many arena slots the values of `entries` take up: one each, and those
/// of their parts.
pub open spec fn object_slots(entries: Seq<(Seq<char>, Doc)>) -> nat
    decreases entries,
{
    if entries.len() == 0 {
        0
    } else {
        object_slots(entries.drop_last()) + slots(entries.last().1) + 1
    }
}

/// Whether `token` may follow a `]` that stands where a value should start.
pub open spec fn closes_list(token: TokenView) -> bool {
    token is Eof || token is RBracket || token is RBrace || token is Comma || token is Colon
        || token is LBrace
}

/// Whether `token` may follow a `}` that stands where a value should start.
pub open spec fn closes_object(token: TokenView) -> bool {
    token is Eof || token is Comma || token is RBracket || token is RBrace
}

/// Whether `token` ends what a `,` that stands where a value should start
/// could separate: the input, or a composite.
pub open spec fn ends_input(token: TokenView) -> bool {
    token is Eof || token is RBracket || token is RBrace
}

/// The value at the head of `ts` and the stream behind it, where `room`
/// arena slots are free for its parts.
///
/// A scalar token is its value. `[` and `{` open a composite, which runs to
/// the `]` or `}` that closes it.
///
/// The grammar is lenient with a structural token where a value should start,
/// and then consumes the token behind it as well:
/// - `]` is an empty list if the token behind it [`closes_list`],
/// - `}` is an empty object if the token behind it [`closes_object`],
/// - `,` is `null` unless the token behind it [`ends_input`],
/// - `:` is `null` if another `:` follows, and takes that one and the token
///   behind it.
///
/// The end of the input and a lexeme that is no token are errors.
pub open spec fn parse_value(ts: Seq<TokenView>, room: nat) -> Result<
    (Doc, Seq<TokenView>),
    ErrorView,
>
    decreases ts.len(), 0nat,
{
    match first(ts) {
        TokenView::False => Ok((Doc::Bool(false), advance(ts))),
        TokenView::True => Ok((Doc::Bool(true), advance(ts))),
        TokenView::Null => Ok((Doc::Null, advance(ts))),
        TokenView::Str(s) => Ok((Doc::String(s), advance(ts))),
        TokenView::Num(n) => Ok((Doc::Number(n), advance(ts))),
        TokenView::LBracket => if ts.len() > 1 {
            match parse_items(advance(ts), room, Seq::empty()) {
                Ok((items, rest)) => Ok((Doc::List(items), advance(rest))),
                Err(e) => Err(e),
            }
        } else {
            Err(ErrorView::UnexpectedEndOfInput { after_comma: false })
        },
        TokenView::RBracket => if closes_list(first(advance(ts))) {
            Ok((Doc::List(Seq::empty()), advance(advance(ts))))
        } else {
            Err(ErrorView::SyntaxError(Syntax::UnexpectedBracket))
        },
        TokenView::LBrace => if ts.len() > 1 {
            match parse_entries(advance(ts), room, Seq::empty()) {
                Ok((entries, rest)) => Ok((Doc::Object(entries), advance(rest))),
                Err(e) => Err(e),
            }
        } else {
            Err(ErrorView::UnexpectedEndOfInput { after_comma: false })
        },
        TokenView::RBrace => if closes_object(first(advance(ts))) {
            Ok((Doc::Object(Seq::empty()), advance(advance(ts))))
        } else {
            Err(ErrorView::SyntaxError(Syntax::UnexpectedBrace))
        },
        TokenView::Comma => if ends_input(first(advance(ts))) {
            Err(ErrorView::UnexpectedEndOfInput { after_comma: true })
        } else {
            Ok((Doc::Null, advance(advance(ts))))
        },
        TokenView::Colon => if first(advance(ts)) is Colon {
            Ok((Doc::Null, advance(advance(advance(ts)))))
        } else {
            Err(ErrorView::SyntaxError(Syntax::ExpectedColon))
        },
        TokenView::Eof => Err(ErrorView::UnexpectedEndOfInput { after_comma: false }),
        TokenView::IllegalIdent(text) => Err(
            ErrorView::UnexpectedToken { text, before_brace: second(ts) is RBrace },
        ),
    }
}

/// The items of a list from the head of `ts` up to the `]` that closes it,
/// behind the `items` that were read before, and the stream from that `]` on.
///
/// A `,` at the head is passed over, wherever it stands; anything else but
/// the `]` starts an item. Each item takes one of the `room` free arena
/// slots, besides those of its parts.
pub open spec fn parse_items(ts: Seq<TokenView>, room: nat, items: Seq<Doc>) -> Result<
    (Seq<Doc>, Seq<TokenView>),
    ErrorView,
>
    decreases ts.len(), 1nat,
{
    if first(ts) is RBracket {
        Ok((items, ts))
    } else if first(ts) is Comma {
        if ts.len() > 1 {
            parse_items(advance(ts), room, items)
        } else {
            Err(ErrorView::UnexpectedEndOfInput { after_comma: true })
        }
    } else {
        match parse_value(ts, room) {
            Err(e) => Err(e),
            Ok((doc, rest)) => if room <= slots(doc) {
                Err(ErrorView::CapacityExceeded)
            } else if rest.len() < ts.len() {
                parse_items(rest, (room - slots(doc) - 1) as nat, items.push(doc))
            } else {
                Err(ErrorView::UnexpectedEndOfInput { after_comma: false })
            },
        }
    }
}

/// The entries of an object from the head of `ts` up to the `}` that closes
/// it, behind the `entries` that were read before, and the stream from that
/// `}` on.
///
/// A `,` at the head is passed over, wherever it stands; anything else but
/// the `}` starts an entry: a string literal, a `:` and a value. Each value
/// takes one of the `room` free arena slots, besides those of its parts.
pub open spec fn parse_entries(
    ts: Seq<TokenView>,
    room: nat,
    entries: Seq<(Seq<char>, Doc)>,
) -> Result<(Seq<(Seq<char>, Doc)>, Seq<TokenView>), ErrorView>
    decreases ts.len(), 1nat,
{
    if first(ts) is RBrace {
        Ok((entries, ts))
    } else if first(ts) is Comma {
        if ts.len() > 1 {
            parse_entries(advance(ts), room, entries)
        } else {
            Err(ErrorView::UnexpectedEndOfInput { after_comma: true })
        }
    } else {
        match first(ts) {
            TokenView::Str(key) => if first(advance(ts)) is Colon {
                match parse_value(advance(advance(ts)), room) {
                    Err(e) => Err(e),
                    Ok((doc, rest)) => if room <= slots(doc) {
                        Err(ErrorView::CapacityExceeded)
                    } else if rest.len() < ts.len() {
                        parse_entries(
                            rest,
                            (room - slots(doc) - 1) as nat,
                            entries.push((key, doc)),
                        )
                    } else {
                        Err(ErrorView::UnexpectedEndOfInput { after_comma: false })
                    },
                }
            } else {
                Err(ErrorView::SyntaxError(Syntax::ExpectedColon))
            },
            _ => Err(ErrorView::KeyTypeError),
        }
    }
}

/// The documents of `ts`, behind the `docs` that were read before. Each
/// document has `room` arena slots to itself, and one `,` may stand between
/// two of them.
pub open spec fn parse_documents(ts: Seq<TokenView>, room: nat, docs: Seq<Doc>) -> Result<
    Seq<Doc>,
    ErrorView,
>
    decreases ts.len(),
{
    match parse_value(ts, room) {
        Err(e) => Err(e),
        Ok((doc, rest)) => if first(rest) is Eof {
            Ok(docs.push(doc))
        } else {
            let next = if first(rest) is Comma {
                advance(rest)
            } else {
                rest
            };
            if next.len() < ts.len() {
                parse_documents(next, room, docs.push(doc))
            } else {
                Err(ErrorView::UnexpectedEndOfInput { after_comma: false })
            }
        },
    }
}

/// A value takes up at least one token of a stream that ends, and its parts
/// fit into the room it was given. So the grammar never gives up for want of
/// progress: where a value was read, the stream behind it is shorter.
pub proof fn lemma_value_consumes(ts: Seq<TokenView>, room: nat)
    requires
        ends(ts),
    ensures
        parse_value(ts, room) matches Ok((doc, rest)) ==> {
            &&& rest.len() < ts.len()
            &&& ends(rest)
            &&& slots(doc) <= room
        },
    decreases ts.len(), 0nat,
{
    match first(ts) {
        TokenView::LBracket => {
            lemma_items_consume(advance(ts), room, Seq::empty());
        },
        TokenView::LBrace => {
            lemma_entries_consume(advance(ts), room, Seq::empty());
        },
        _ => {},
    }
}

/// The items of a list leave a stream that is no longer than the one they
/// were read from and has the closing `]` at its head, and they fit into the
/// room they were given.
pub proof fn lemma_items_consume(ts: Seq<TokenView>, room: nat, items: Seq<Doc>)
    requires
        ends(ts),
    ensures
        parse_items(ts, room, items) matches Ok((all, rest)) ==> {
            &&& rest.len() <= ts.len()
            &&& ends(rest)
            &&& first(rest) is RBracket
            &&& list_slots(all) <= list_slots(items) + room
        },
    decreases ts.len(), 1nat,
{
    if first(ts) is RBracket {
    } else if first(ts) is Comma {
        if ts.len() > 1 {
            lemma_items_consume(advance(ts), room, items);
        }
    } else {
        lemma_value_consumes(ts, room);
        if let Ok((doc, rest)) = parse_value(ts, room) {
            if room > slots(doc) {
                let read = items.push(doc);
                assert(read.drop_last() =~= items);
                lemma_items_consume(rest, (room - slots(doc) - 1) as nat, read);
            }
        }
    }
}

/// The entries of an object leave a stream that is no longer than the one
/// they were read from and has the closing `}` at its head, and their values
/// fit into the room they were given.
pub proof fn lemma_entries_consume(
    ts: Seq<TokenView>,
    room: nat,
    entries: Seq<(Seq<char>, Doc)>,
)
    requires
        ends(ts),
    ensures
        parse_entries(ts, room, entries) matches Ok((all, rest)) ==> {
            &&& rest.len() <= ts.len()
            &&& ends(rest)
            &&& first(rest) is RBrace
            &&& object_slots(all) <= object_slots(entries) + room
        },
    decreases ts.len(), 1nat,
{
    if first(ts) is RBrace {
    } else if first(ts) is Comma {
        if ts.len() > 1 {
            lemma_entries_consume(advance(ts), room, entries);
        }
    } else if let TokenView::Str(key) = first(ts) {
        if first(advance(ts)) is Colon {
            let from = advance(advance(ts));
            lemma_value_consumes(from, room);
            if let Ok((doc, rest)) = parse_value(from, room) {
                if room > slots(doc) {
                    let read = entries.push((key, doc));
                    assert(read.drop_last() =~= entries);
                    lemma_entries_consume(rest, (room - slots(doc) - 1) as nat, read);
                }
            }
        }
    }
}

} // verus!
