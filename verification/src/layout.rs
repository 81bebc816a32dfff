//! How a document lies in an arena.

use vstd::prelude::*;

use crate::grammar::{list_slots, object_slots, slots, Doc};
use crate::value::{JsonValue, ValueView};

verus! {

/// The views of the values of an arena, slot by slot.
pub open spec fn views(values: Seq<JsonValue>) -> Seq<ValueView> {
    values.map_values(|v: JsonValue| v@)
}

/// The arena after the parts of `doc` were stored behind what `arena` holds,
/// and the value that then stands for `doc`.
///
/// A scalar takes no slot. The parts of a composite are stored in the order
/// of the text, each behind its own parts, and the composite holds their
/// slots.
pub open spec fn store(doc: Doc, arena: Seq<ValueView>) -> (Seq<ValueView>, ValueView)
    decreases doc,
{
    match doc {
        Doc::String(s) => (arena, ValueView::String(s)),
        Doc::Number(n) => (arena, ValueView::Number(n)),
        Doc::Bool(b) => (arena, ValueView::Bool(b)),
        Doc::Null => (arena, ValueView::Null),
        Doc::List(items) => {
            let (filled, handles) = store_items(items, arena);
            (filled, ValueView::List(handles))
        },
        Doc::Object(entries) => {
            let (filled, handles) = store_entries(entries, arena);
            (filled, ValueView::Object(handles))
        },
    }
}

/// The arena after `items` were stored behind what `arena` holds, and their
/// slots in order.
pub open spec fn store_items(items: Seq<Doc>, arena: Seq<ValueView>) -> (Seq<ValueView>, Seq<nat>)
    decreases items,
{
    if items.len() == 0 {
        (arena, Seq::empty())
    } else {
        let (before, handles) = store_items(items.drop_last(), arena);
        let (filled, value) = store(items.last(), before);
        (filled.push(value), handles.push(filled.len()))
    }
}

/// The arena after the values of `entries` were stored behind what `arena`
/// holds, and the slot of each key, a later entry replacing an earlier one
/// with the same key.
pub open spec fn store_entries(entries: Seq<(Seq<char>, Doc)>, arena: Seq<ValueView>) -> (
    Seq<ValueView>,
    Map<Seq<char>, nat>,
)
    decreases entries,
{
    if entries.len() == 0 {
        (arena, Map::empty())
    } else {
        let (before, handles) = store_entries(entries.drop_last(), arena);
        let (filled, value) = store(entries.last().1, before);
        (filled.push(value), handles.insert(entries.last().0, filled.len()))
    }
}

/// Storing a document keeps what the arena held and adds one slot for each
/// part of it.
pub proof fn lemma_store_extends(doc: Doc, arena: Seq<ValueView>)
    ensures
        store(doc, arena).0.len() == arena.len() + slots(doc),
        arena.is_prefix_of(store(doc, arena).0),
    decreases doc,
{
    match doc {
        Doc::List(items) => lemma_store_items_extends(items, arena),
        Doc::Object(entries) => lemma_store_entries_extends(entries, arena),
        _ => {},
    }
}

/// Storing items keeps what the arena held and adds one slot for each of
/// them and of their parts.
pub proof fn lemma_store_items_extends(items: Seq<Doc>, arena: Seq<ValueView>)
    ensures
        store_items(items, arena).0.len() == arena.len() + list_slots(items),
        store_items(items, arena).1.len() == items.len(),
        arena.is_prefix_of(store_items(items, arena).0),
    decreases items,
{
    if items.len() > 0 {
        lemma_store_items_extends(items.drop_last(), arena);
        lemma_store_extends(items.last(), store_items(items.drop_last(), arena).0);
    }
}

/// Storing entries keeps what the arena held and adds one slot for each of
/// their values and of the parts of these.
pub proof fn lemma_store_entries_extends(entries: Seq<(Seq<char>, Doc)>, arena: Seq<ValueView>)
    ensures
        store_entries(entries, arena).0.len() == arena.len() + object_slots(entries),
        arena.is_prefix_of(store_entries(entries, arena).0),
    decreases entries,
{
    if entries.len() > 0 {
        lemma_store_entries_extends(entries.drop_last(), arena);
        lemma_store_extends(entries.last().1, store_entries(entries.drop_last(), arena).0);
    }
}

} // verus!
