//! The tree that a value stands for once its handles are followed.

use vstd::prelude::*;

use crate::grammar::Doc;
use crate::layout::{lemma_store_extends, store, store_entries, store_items};
use crate::number::NumberView;
use crate::value::ValueView;

verus! {

/// A value with its parts in place of their handles. A list keeps the order
/// of its items; an object is a mapping, with no order among its keys.
pub enum Tree {
    String(Seq<char>),
    Number(NumberView),
    Bool(bool),
    Object(Map<Seq<char>, Tree>),
    List(Seq<Tree>),
    Null,
}

/// The tree that `doc` is meant to be: its items in order, and for each key
/// of an object the value that was written last.
pub open spec fn doc_tree(doc: Doc) -> Tree
    decreases doc,
{
    match doc {
        Doc::String(s) => Tree::String(s),
        Doc::Number(n) => Tree::Number(n),
        Doc::Bool(b) => Tree::Bool(b),
        Doc::Null => Tree::Null,
        Doc::List(items) => Tree::List(
            Seq::new(
                items.len(),
                |k: int|
                    if 0 <= k < items.len() {
                        doc_tree(items[k])
                    } else {
                        Tree::Null
                    },
            ),
        ),
        Doc::Object(entries) => Tree::Object(entries_tree(entries)),
    }
}

/// The mapping that `entries` build up, a later entry replacing an earlier
/// one with the same key.
pub open spec fn entries_tree(entries: Seq<(Seq<char>, Doc)>) -> Map<Seq<char>, Tree>
    decreases entries,
{
    if entries.len() == 0 {
        Map::empty()
    } else {
        entries_tree(entries.drop_last()).insert(entries.last().0, doc_tree(entries.last().1))
    }
}

/// The tree of `value`, whose handles point below `bound` into `arena`. A
/// handle that points elsewhere stands for `null`.
pub open spec fn resolve(arena: Seq<ValueView>, value: ValueView, bound: nat) -> Tree
    decreases bound, 1nat,
{
    match value {
        ValueView::String(s) => Tree::String(s),
        ValueView::Number(n) => Tree::Number(n),
        ValueView::Bool(b) => Tree::Bool(b),
        ValueView::Null => Tree::Null,
        ValueView::List(handles) => Tree::List(
            Seq::new(handles.len(), |k: int| resolve_slot(arena, handles[k], bound)),
        ),
        ValueView::Object(handles) => Tree::Object(
            Map::new(
                |key: Seq<char>| handles.dom().contains(key),
                |key: Seq<char>| resolve_slot(arena, handles[key], bound),
            ),
        ),
    }
}

/// The tree of the value in `slot` of `arena`, where `slot` lies below
/// `bound`. The handles of a stored value point below its own slot.
pub open spec fn resolve_slot(arena: Seq<ValueView>, slot: nat, bound: nat) -> Tree
    decreases bound, 0nat,
{
    if slot < bound && slot < arena.len() {
        resolve(arena, arena[slot as int], slot)
    } else {
        Tree::Null
    }
}

/// The tree of a value that was parsed into `arena`.
pub open spec fn tree_of(arena: Seq<ValueView>, value: ValueView) -> Tree {
    resolve(arena, value, arena.len())
}

/// What is stored behind a value does not change its tree.
pub proof fn lemma_resolve_extended(
    arena: Seq<ValueView>,
    longer: Seq<ValueView>,
    value: ValueView,
    bound: nat,
)
    requires
        arena.is_prefix_of(longer),
        bound <= arena.len(),
    ensures
        resolve(longer, value, bound) == resolve(arena, value, bound),
    decreases bound, 1nat,
{
    match value {
        ValueView::List(handles) => {
            assert forall|k: int| 0 <= k < handles.len() implies resolve_slot(
                longer,
                handles[k],
                bound,
            ) == resolve_slot(arena, handles[k], bound) by {
                lemma_resolve_slot_extended(arena, longer, handles[k], bound);
            }
            assert(resolve(longer, value, bound)->List_0 =~= resolve(arena, value, bound)->List_0);
        },
        ValueView::Object(handles) => {
            assert forall|key: Seq<char>| handles.dom().contains(key) implies resolve_slot(
                longer,
                handles[key],
                bound,
            ) == resolve_slot(arena, handles[key], bound) by {
                lemma_resolve_slot_extended(arena, longer, handles[key], bound);
            }
            assert(resolve(longer, value, bound)->Object_0 =~= resolve(
                arena,
                value,
                bound,
            )->Object_0);
        },
        _ => {},
    }
}

/// What is stored behind a slot does not change the tree of its value.
pub proof fn lemma_resolve_slot_extended(
    arena: Seq<ValueView>,
    longer: Seq<ValueView>,
    slot: nat,
    bound: nat,
)
    requires
        arena.is_prefix_of(longer),
        bound <= arena.len(),
    ensures
        resolve_slot(longer, slot, bound) == resolve_slot(arena, slot, bound),
    decreases bound, 0nat,
{
    if slot < bound {
        assert(longer[slot as int] == arena[slot as int]);
        lemma_resolve_extended(arena, longer, arena[slot as int], slot);
    }
}

/// Following the handles of a parsed value gives the tree that the document
/// is meant to be: the items of a list in order, and for each key of an
/// object the value that was written last.
pub proof fn lemma_store_tree(doc: Doc, arena: Seq<ValueView>)
    ensures
        tree_of(store(doc, arena).0, store(doc, arena).1) == doc_tree(doc),
    decreases doc, 1nat,
{
    let (filled, value) = store(doc, arena);
    match doc {
        Doc::List(items) => {
            lemma_store_items_trees(items, arena);
            assert(tree_of(filled, value)->List_0 =~= doc_tree(doc)->List_0);
        },
        Doc::Object(entries) => {
            lemma_store_entries_trees(entries, arena);
            assert(tree_of(filled, value)->Object_0 =~= doc_tree(doc)->Object_0);
        },
        _ => {},
    }
}

/// Each handle of stored items points into the arena, at a value whose tree
/// is that of its item.
pub proof fn lemma_store_items_trees(items: Seq<Doc>, arena: Seq<ValueView>)
    ensures
        store_items(items, arena).1.len() == items.len(),
        forall|k: int|
            0 <= k < items.len() ==> {
                &&& (#[trigger] store_items(items, arena).1[k]) < store_items(items, arena).0.len()
                &&& resolve_slot(
                    store_items(items, arena).0,
                    store_items(items, arena).1[k],
                    store_items(items, arena).0.len(),
                ) == doc_tree(items[k])
            },
    decreases items, 0nat,
{
    if items.len() > 0 {
        let init = items.drop_last();
        let last = items.last();
        let (before, earlier) = store_items(init, arena);
        let (inner, value) = store(last, before);
        let (filled, handles) = store_items(items, arena);
        lemma_store_items_trees(init, arena);
        lemma_store_tree(last, before);
        lemma_store_extends(last, before);
        assert(inner.is_prefix_of(filled));
        assert(before.is_prefix_of(filled));
        assert forall|k: int| 0 <= k < items.len() implies {
            &&& (#[trigger] handles[k]) < filled.len()
            &&& resolve_slot(filled, handles[k], filled.len()) == doc_tree(items[k])
        } by {
            if k < init.len() {
                let slot = earlier[k];
                assert(handles[k] == slot);
                assert(init[k] == items[k]);
                assert(filled[slot as int] == before[slot as int]);
                lemma_resolve_extended(before, filled, before[slot as int], slot);
            } else {
                assert(handles[k] == inner.len());
                assert(filled[inner.len() as int] == value);
                lemma_resolve_extended(inner, filled, value, inner.len());
            }
        }
    }
}

/// Each key of stored entries has a handle that points into the arena, at a
/// value whose tree is that of the entry that was written last for the key.
pub proof fn lemma_store_entries_trees(entries: Seq<(Seq<char>, Doc)>, arena: Seq<ValueView>)
    ensures
        store_entries(entries, arena).1.dom() == entries_tree(entries).dom(),
        forall|key: Seq<char>| #[trigger]
            store_entries(entries, arena).1.dom().contains(key) ==> {
                &&& store_entries(entries, arena).1[key] < store_entries(entries, arena).0.len()
                &&& resolve_slot(
                    store_entries(entries, arena).0,
                    store_entries(entries, arena).1[key],
                    store_entries(entries, arena).0.len(),
                ) == entries_tree(entries)[key]
            },
    decreases entries, 0nat,
{
    if entries.len() > 0 {
        let init = entries.drop_last();
        let last = entries.last();
        let (before, earlier) = store_entries(init, arena);
        let (inner, value) = store(last.1, before);
        let (filled, handles) = store_entries(entries, arena);
        lemma_store_entries_trees(init, arena);
        lemma_store_tree(last.1, before);
        lemma_store_extends(last.1, before);
        assert(inner.is_prefix_of(filled));
        assert(before.is_prefix_of(filled));
        assert(handles.dom() =~= entries_tree(entries).dom());
        assert forall|key: Seq<char>| #[trigger] handles.dom().contains(key) implies {
            &&& handles[key] < filled.len()
            &&& resolve_slot(filled, handles[key], filled.len()) == entries_tree(entries)[key]
        } by {
            if key == last.0 {
                assert(handles[key] == inner.len());
                assert(filled[inner.len() as int] == value);
                lemma_resolve_extended(inner, filled, value, inner.len());
            } else {
                let slot = earlier[key];
                assert(earlier.dom().contains(key));
                assert(handles[key] == slot);
                assert(filled[slot as int] == before[slot as int]);
                lemma_resolve_extended(before, filled, before[slot as int], slot);
            }
        }
    } else {
        assert(store_entries(entries, arena).1.dom() =~= entries_tree(entries).dom());
    }
}

} // verus!
