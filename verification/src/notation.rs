//! The plain notation of a document, and the proof that the grammar reads it
//! back.

use vstd::prelude::*;

use crate::error::ErrorView;
use crate::grammar::{
    advance, first, list_slots, object_slots, parse_documents, parse_entries, parse_items,
    parse_value, slots, Doc,
};
use crate::token::TokenView;

verus! {

/// The tokens that write `doc` down: a scalar is its token, a list its items
/// between `[` and `]`, an object its entries between `{` and `}`, each entry
/// a key, a `:` and a value, with a `,` between neighbours.
pub open spec fn doc_tokens(doc: Doc) -> Seq<TokenView>
    decreases doc,
{
    match doc {
        Doc::String(s) => seq![TokenView::Str(s)],
        Doc::Number(n) => seq![TokenView::Num(n)],
        Doc::Bool(b) => if b {
            seq![TokenView::True]
        } else {
            seq![TokenView::False]
        },
        Doc::Null => seq![TokenView::Null],
        Doc::List(items) => seq![TokenView::LBracket] + list_tokens(items) + seq![
            TokenView::RBracket,
        ],
        Doc::Object(entries) => seq![TokenView::LBrace] + object_tokens(entries) + seq![
            TokenView::RBrace,
        ],
    }
}

/// The tokens of `items` with a `,` between neighbours.
pub open spec fn list_tokens(items: Seq<Doc>) -> Seq<TokenView>
    decreases items, 1nat,
{
    if items.len() == 0 {
        Seq::empty()
    } else {
        doc_tokens(items[0]) + more_items_tokens(items.skip(1))
    }
}

/// The tokens of `items` with a `,` before each.
pub open spec fn more_items_tokens(items: Seq<Doc>) -> Seq<TokenView>
    decreases items, 0nat,
{
    if items.len() == 0 {
        Seq::empty()
    } else {
        seq![TokenView::Comma] + doc_tokens(items[0]) + more_items_tokens(items.skip(1))
    }
}

/// The tokens of one entry: its key, a `:` and its value.
pub open spec fn entry_tokens(entry: (Seq<char>, Doc)) -> Seq<TokenView>
    decreases entry,
{
    seq![TokenView::Str(entry.0), TokenView::Colon] + doc_tokens(entry.1)
}

/// The tokens of `entries` with a `,` between neighbours.
pub open spec fn object_tokens(entries: Seq<(Seq<char>, Doc)>) -> Seq<TokenView>
    decreases entries, 1nat,
{
    if entries.len() == 0 {
        Seq::empty()
    } else {
        entry_tokens(entries[0]) + more_entries_tokens(entries.skip(1))
    }
}

/// The tokens of `entries` with a `,` before each.
pub open spec fn more_entries_tokens(entries: Seq<(Seq<char>, Doc)>) -> Seq<TokenView>
    decreases entries, 0nat,
{
    if entries.len() == 0 {
        Seq::empty()
    } else {
        seq![TokenView::Comma] + entry_tokens(entries[0]) + more_entries_tokens(entries.skip(1))
    }
}

/// Whether a value in plain notation may start with `token`.
pub open spec fn starts_value(token: TokenView) -> bool {
    token is Str || token is Num || token is True || token is False || token is Null
        || token is LBracket || token is LBrace
}

/// The notation of a document is not empty and starts as a value does.
pub proof fn lemma_doc_tokens_start(doc: Doc)
    ensures
        doc_tokens(doc).len() > 0,
        starts_value(doc_tokens(doc)[0]),
{
}

/// The slots of a list are those of its first item, one for that item, and
/// those of the items behind it.
pub proof fn lemma_list_slots_front(items: Seq<Doc>)
    requires
        items.len() > 0,
    ensures
        list_slots(items) == slots(items[0]) + 1 + list_slots(items.skip(1)),
    decreases items.len(),
{
    if items.len() == 1 {
        assert(items.drop_last() =~= items.skip(1));
    } else {
        lemma_list_slots_front(items.drop_last());
        assert(items.skip(1).drop_last() =~= items.drop_last().skip(1));
    }
}

/// The slots of an object are those of its first value, one for that value,
/// and those of the entries behind it.
pub proof fn lemma_object_slots_front(entries: Seq<(Seq<char>, Doc)>)
    requires
        entries.len() > 0,
    ensures
        object_slots(entries) == slots(entries[0].1) + 1 + object_slots(entries.skip(1)),
    decreases entries.len(),
{
    if entries.len() == 1 {
        assert(entries.drop_last() =~= entries.skip(1));
    } else {
        lemma_object_slots_front(entries.drop_last());
        assert(entries.skip(1).drop_last() =~= entries.drop_last().skip(1));
    }
}

/// Parsing reads a document back from its notation: whatever the nesting,
/// where the notation of `doc` stands before `rest` and the arena has room
/// for the parts of `doc`, the grammar yields `doc` and leaves `rest`.
pub proof fn lemma_reads_back(doc: Doc, rest: Seq<TokenView>, room: nat)
    requires
        rest.len() > 0,
        slots(doc) <= room,
    ensures
        parse_value(doc_tokens(doc) + rest, room) == Ok::<(Doc, Seq<TokenView>), ErrorView>(
            (doc, rest),
        ),
    decreases doc, 0nat,
{
    let ts = doc_tokens(doc) + rest;
    match doc {
        Doc::List(items) => {
            let close = seq![TokenView::RBracket] + rest;
            assert(advance(ts) =~= list_tokens(items) + close);
            lemma_reads_items(items, close, room, Seq::empty());
            assert(Seq::<Doc>::empty() + items =~= items);
            assert(advance(close) =~= rest);
        },
        Doc::Object(entries) => {
            let close = seq![TokenView::RBrace] + rest;
            assert(advance(ts) =~= object_tokens(entries) + close);
            lemma_reads_entries(entries, close, room, Seq::empty());
            assert(Seq::<(Seq<char>, Doc)>::empty() + entries =~= entries);
            assert(advance(close) =~= rest);
        },
        _ => {
            assert(advance(ts) =~= rest);
        },
    }
}

/// Parsing reads the items of a list back from their notation.
pub proof fn lemma_reads_items(items: Seq<Doc>, close: Seq<TokenView>, room: nat, read: Seq<Doc>)
    requires
        first(close) is RBracket,
        close.len() > 0,
        list_slots(items) <= room,
    ensures
        parse_items(list_tokens(items) + close, room, read) == Ok::<
            (Seq<Doc>, Seq<TokenView>),
            ErrorView,
        >((read + items, close)),
    decreases items, 1nat,
{
    let ts = list_tokens(items) + close;
    if items.len() == 0 {
        assert(ts =~= close);
        assert(read + items =~= read);
    } else {
        let item = items[0];
        let behind = more_items_tokens(items.skip(1)) + close;
        lemma_doc_tokens_start(item);
        lemma_list_slots_front(items);
        assert(ts =~= doc_tokens(item) + behind);
        lemma_reads_back(item, behind, room);
        lemma_reads_more_items(
            items.skip(1),
            close,
            (room - slots(item) - 1) as nat,
            read.push(item),
        );
        assert(read.push(item) + items.skip(1) =~= read + items);
    }
}

/// Parsing reads back the items of a list that stand behind the first.
pub proof fn lemma_reads_more_items(
    items: Seq<Doc>,
    close: Seq<TokenView>,
    room: nat,
    read: Seq<Doc>,
)
    requires
        first(close) is RBracket,
        close.len() > 0,
        list_slots(items) <= room,
    ensures
        parse_items(more_items_tokens(items) + close, room, read) == Ok::<
            (Seq<Doc>, Seq<TokenView>),
            ErrorView,
        >((read + items, close)),
    decreases items, 2nat,
{
    let ts = more_items_tokens(items) + close;
    if items.len() == 0 {
        assert(ts =~= close);
        assert(read + items =~= read);
    } else {
        assert(ts[0] == TokenView::Comma);
        assert(advance(ts) =~= list_tokens(items) + close);
        lemma_reads_items(items, close, room, read);
    }
}

/// Parsing reads the entries of an object back from their notation.
pub proof fn lemma_reads_entries(
    entries: Seq<(Seq<char>, Doc)>,
    close: Seq<TokenView>,
    room: nat,
    read: Seq<(Seq<char>, Doc)>,
)
    requires
        first(close) is RBrace,
        close.len() > 0,
        object_slots(entries) <= room,
    ensures
        parse_entries(object_tokens(entries) + close, room, read) == Ok::<
            (Seq<(Seq<char>, Doc)>, Seq<TokenView>),
            ErrorView,
        >((read + entries, close)),
    decreases entries, 1nat,
{
    let ts = object_tokens(entries) + close;
    if entries.len() == 0 {
        assert(ts =~= close);
        assert(read + entries =~= read);
    } else {
        let entry = entries[0];
        let behind = more_entries_tokens(entries.skip(1)) + close;
        lemma_doc_tokens_start(entry.1);
        lemma_object_slots_front(entries);
        assert(ts[0] == TokenView::Str(entry.0));
        assert(ts[1] == TokenView::Colon);
        assert(advance(ts)[0] == TokenView::Colon);
        assert(advance(advance(ts)) =~= doc_tokens(entry.1) + behind);
        lemma_reads_back(entry.1, behind, room);
        lemma_reads_more_entries(
            entries.skip(1),
            close,
            (room - slots(entry.1) - 1) as nat,
            read.push(entry),
        );
        assert(read.push(entry) + entries.skip(1) =~= read + entries);
    }
}

/// Parsing reads back the entries of an object that stand behind the first.
pub proof fn lemma_reads_more_entries(
    entries: Seq<(Seq<char>, Doc)>,
    close: Seq<TokenView>,
    room: nat,
    read: Seq<(Seq<char>, Doc)>,
)
    requires
        first(close) is RBrace,
        close.len() > 0,
        object_slots(entries) <= room,
    ensures
        parse_entries(more_entries_tokens(entries) + close, room, read) == Ok::<
            (Seq<(Seq<char>, Doc)>, Seq<TokenView>),
            ErrorView,
        >((read + entries, close)),
    decreases entries, 2nat,
{
    let ts = more_entries_tokens(entries) + close;
    if entries.len() == 0 {
        assert(ts =~= close);
        assert(read + entries =~= read);
    } else {
        assert(ts[0] == TokenView::Comma);
        assert(advance(ts) =~= object_tokens(entries) + close);
        lemma_reads_entries(entries, close, room, read);
    }
}

/// Whether each of `docs` has room for its parts in an arena with `room`
/// slots.
pub open spec fn all_fit(docs: Seq<Doc>, room: nat) -> bool {
    forall|i: int| 0 <= i < docs.len() ==> slots(#[trigger] docs[i]) <= room
}

/// Parsing reads documents back from their notation: where one or more
/// documents are written one behind the other with a `,` between neighbours,
/// and each has room for its parts, the grammar yields them in order.
pub proof fn lemma_reads_documents(docs: Seq<Doc>, room: nat, read: Seq<Doc>)
    requires
        docs.len() > 0,
        all_fit(docs, room),
    ensures
        parse_documents(list_tokens(docs) + seq![TokenView::Eof], room, read) == Ok::<
            Seq<Doc>,
            ErrorView,
        >(read + docs),
    decreases docs.len(),
{
    let end = seq![TokenView::Eof];
    let ts = list_tokens(docs) + end;
    let doc = docs[0];
    let more = docs.skip(1);
    let behind = more_items_tokens(more) + end;
    assert(ts =~= doc_tokens(doc) + behind);
    lemma_reads_back(doc, behind, room);
    lemma_doc_tokens_start(doc);
    if more.len() == 0 {
        assert(behind =~= end);
        assert(read.push(doc) =~= read + docs);
    } else {
        lemma_doc_tokens_start(more[0]);
        assert(behind[0] == TokenView::Comma);
        assert(advance(behind) =~= list_tokens(more) + end);
        assert(all_fit(more, room)) by {
            assert forall|i: int| 0 <= i < more.len() implies slots(#[trigger] more[i])
                <= room by {
                assert(more[i] == docs[i + 1]);
            }
        }
        lemma_reads_documents(more, room, read.push(doc));
        assert(read.push(doc) + more =~= read + docs);
    }
}

} // verus!
