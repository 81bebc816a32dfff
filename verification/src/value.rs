//! The value model: scalars, and composites that hold handles.

use vstd::prelude::*;

use crate::arena::Id;
use crate::number::{Number, NumberView};

verus! {

/// One parsed value. A composite does not own its children: it holds handles
/// into the arena that was filled while it was parsed.
#[derive(Debug, Clone)]
pub enum JsonValue {
    String(String),
    Number(Number),
    Bool(bool),
    Object(Object),
    List(Vec<Id<JsonValue>>),
    Null,
}

/// What a [`JsonValue`] stands for, handles taken as slot numbers.
pub enum ValueView {
    String(Seq<char>),
    Number(NumberView),
    Bool(bool),
    Object(Map<Seq<char>, nat>),
    List(Seq<nat>),
    Null,
}

/// The slot numbers of a sequence of handles.
pub open spec fn slots_of(handles: Seq<Id<JsonValue>>) -> Seq<nat> {
    handles.map_values(|h: Id<JsonValue>| h.index())
}

impl View for JsonValue {
    type V = ValueView;

    open spec fn view(&self) -> ValueView {
        match self {
            JsonValue::String(s) => ValueView::String(s@),
            JsonValue::Number(n) => ValueView::Number(n@),
            JsonValue::Bool(b) => ValueView::Bool(*b),
            JsonValue::Object(o) => ValueView::Object(o@),
            JsonValue::List(l) => ValueView::List(slots_of(l@)),
            JsonValue::Null => ValueView::Null,
        }
    }
}

impl JsonValue {
    /// An object among the variants holds each of its keys once.
    pub open spec fn wf(&self) -> bool {
        match self {
            JsonValue::Object(o) => o.wf(),
            _ => true,
        }
    }
}

/// Whether every one of `values` is well formed.
pub open spec fn all_wf(values: Seq<JsonValue>) -> bool {
    forall|i: int| 0 <= i < values.len() ==> (#[trigger] values[i]).wf()
}

impl Default for JsonValue {
    fn default() -> (value: Self)
        ensures
            value@ == ValueView::Null,
    {
        JsonValue::Null
    }
}

/// The mapping that a sequence of entries builds up, a later entry replacing
/// an earlier one with the same key.
spec fn entries_map(entries: Seq<(String, Id<JsonValue>)>) -> Map<Seq<char>, nat>
    decreases entries.len(),
{
    if entries.len() == 0 {
        Map::empty()
    } else {
        entries_map(entries.drop_last()).insert(entries.last().0@, entries.last().1.index())
    }
}

/// Whether no key occurs twice among `entries`.
spec fn distinct_keys(entries: Seq<(String, Id<JsonValue>)>) -> bool {
    forall|i: int, j: int|
        0 <= i < j < entries.len() ==> (#[trigger] entries[i]).0@ != (#[trigger] entries[j]).0@
}

/// A mapping from keys to handles, each key held once.
#[derive(Debug, Clone)]
pub struct Object {
    entries: Vec<(String, Id<JsonValue>)>,
}

impl View for Object {
    type V = Map<Seq<char>, nat>;

    closed spec fn view(&self) -> Map<Seq<char>, nat> {
        entries_map(self.entries@)
    }
}

proof fn lemma_entries_map_dom(entries: Seq<(String, Id<JsonValue>)>, key: Seq<char>)
    ensures
        entries_map(entries).dom().contains(key) <==> exists|i: int|
            0 <= i < entries.len() && (#[trigger] entries[i]).0@ == key,
    decreases entries.len(),
{
    if entries.len() > 0 {
        let init = entries.drop_last();
        lemma_entries_map_dom(init, key);
        if entries_map(entries).dom().contains(key) {
            if entries.last().0@ == key {
                assert(entries[entries.len() - 1].0@ == key);
            } else {
                let i = choose|i: int| 0 <= i < init.len() && (#[trigger] init[i]).0@ == key;
                assert(entries[i].0@ == key);
            }
        }
        if exists|i: int| 0 <= i < entries.len() && (#[trigger] entries[i]).0@ == key {
            let i = choose|i: int| 0 <= i < entries.len() && (#[trigger] entries[i]).0@ == key;
            if i < init.len() {
                assert(init[i].0@ == key);
            }
        }
    }
}

proof fn lemma_entries_map_at(entries: Seq<(String, Id<JsonValue>)>, i: int)
    requires
        distinct_keys(entries),
        0 <= i < entries.len(),
    ensures
        entries_map(entries).dom().contains(entries[i].0@),
        entries_map(entries)[entries[i].0@] == entries[i].1.index(),
    decreases entries.len(),
{
    let init = entries.drop_last();
    if i < entries.len() - 1 {
        assert(distinct_keys(init)) by {
            assert forall|a: int, b: int| 0 <= a < b < init.len() implies (#[trigger] init[a]).0@
                != (#[trigger] init[b]).0@ by {
                assert(init[a] == entries[a] && init[b] == entries[b]);
            }
        }
        lemma_entries_map_at(init, i);
        assert(init[i] == entries[i]);
        assert(entries[i].0@ != entries[entries.len() - 1].0@);
    }
}

proof fn lemma_entries_map_update(
    entries: Seq<(String, Id<JsonValue>)>,
    i: int,
    entry: (String, Id<JsonValue>),
)
    requires
        distinct_keys(entries),
        0 <= i < entries.len(),
        entries[i].0@ == entry.0@,
    ensures
        distinct_keys(entries.update(i, entry)),
        entries_map(entries.update(i, entry)) == entries_map(entries).insert(
            entry.0@,
            entry.1.index(),
        ),
    decreases entries.len(),
{
    let updated = entries.update(i, entry);
    assert(distinct_keys(updated)) by {
        assert forall|a: int, b: int| 0 <= a < b < updated.len() implies (#[trigger] updated[a]).0@
            != (#[trigger] updated[b]).0@ by {
            assert(updated[a].0@ == entries[a].0@ && updated[b].0@ == entries[b].0@);
        }
    }
    let init = entries.drop_last();
    let last = entries.last();
    if i == entries.len() - 1 {
        assert(updated.drop_last() =~= init);
        assert(entries_map(updated) =~= entries_map(entries).insert(entry.0@, entry.1.index()));
    } else {
        assert(distinct_keys(init)) by {
            assert forall|a: int, b: int| 0 <= a < b < init.len() implies (#[trigger] init[a]).0@
                != (#[trigger] init[b]).0@ by {
                assert(init[a] == entries[a] && init[b] == entries[b]);
            }
        }
        lemma_entries_map_update(init, i, entry);
        assert(updated.drop_last() =~= init.update(i, entry));
        assert(updated.last() == last);
        assert(entries[i].0@ != entries[entries.len() - 1].0@);
        assert(entries_map(updated) =~= entries_map(entries).insert(entry.0@, entry.1.index()));
    }
}

impl Object {
    /// No key is held twice.
    pub closed spec fn wf(&self) -> bool {
        distinct_keys(self.entries@)
    }

    /// The keys in the order in which they first came.
    pub closed spec fn keys(&self) -> Seq<Seq<char>> {
        self.entries@.map_values(|entry: (String, Id<JsonValue>)| entry.0@)
    }

    /// The keys are those of the mapping, each once.
    pub proof fn lemma_keys(&self)
        requires
            self.wf(),
        ensures
            self.keys().no_duplicates(),
            self.keys().len() == self@.dom().len(),
            self@.dom().finite(),
            forall|key: Seq<char>| self.keys().contains(key) <==> self@.dom().contains(key),
    {
        lemma_entries_map_len(self.entries@);
        assert forall|key: Seq<char>| self.keys().contains(key) <==> self@.dom().contains(
            key,
        ) by {
            lemma_entries_map_dom(self.entries@, key);
            if self.keys().contains(key) {
                let i = choose|i: int| 0 <= i < self.keys().len() && self.keys()[i] == key;
                assert(self.entries@[i].0@ == key);
            }
            if self@.dom().contains(key) {
                let i = choose|i: int|
                    0 <= i < self.entries@.len() && (#[trigger] self.entries@[i]).0@ == key;
                assert(self.keys()[i] == key);
            }
        }
    }

    /// Makes an object without entries.
    pub fn new() -> (object: Self)
        ensures
            object.wf(),
            object@ == Map::<Seq<char>, nat>::empty(),
    {
        Object { entries: Vec::new() }
    }

    /// The number of keys.
    pub fn len(&self) -> (n: usize)
        requires
            self.wf(),
        ensures
            n == self.keys().len(),
            n == self@.dom().len(),
    {
        proof {
            lemma_entries_map_len(self.entries@);
        }
        self.entries.len()
    }

    /// The key that came `i`-th, and the handle it is mapped to.
    pub fn entry(&self, i: usize) -> (entry: (&String, Id<JsonValue>))
        requires
            self.wf(),
            i < self.keys().len(),
        ensures
            entry.0@ == self.keys()[i as int],
            self@.dom().contains(entry.0@),
            self@[entry.0@] == entry.1.index(),
    {
        proof {
            lemma_entries_map_at(self.entries@, i as int);
        }
        (&self.entries[i].0, self.entries[i].1)
    }

    /// Maps `key` to `id`, replacing what `key` was mapped to before.
    pub fn insert(&mut self, key: String, id: Id<JsonValue>)
        requires
            old(self).wf(),
        ensures
            final(self).wf(),
            final(self)@ == old(self)@.insert(key@, id.index()),
            final(self).keys() == if old(self)@.dom().contains(key@) {
                old(self).keys()
            } else {
                old(self).keys().push(key@)
            },
    {
        let ghost before = self.entries@;
        let mut i: usize = 0;
        while i < self.entries.len()
            invariant
                i <= self.entries.len(),
                self.entries@ == before,
                before == old(self).entries@,
                distinct_keys(before),
                forall|j: int| 0 <= j < i ==> (#[trigger] before[j]).0@ != key@,
            decreases self.entries.len() - i,
        {
            if self.entries[i].0 == key {
                let ghost entry = (key, id);
                proof {
                    lemma_entries_map_update(before, i as int, entry);
                    lemma_entries_map_at(before, i as int);
                }
                self.entries.set(i, (key, id));
                assert(self.keys() =~= old(self).keys());
                return ;
            }
            i += 1;
        }
        self.entries.push((key, id));
        proof {
            lemma_entries_map_dom(before, key@);
            assert(self.keys() =~= old(self).keys().push(key@));
            assert(self.entries@.drop_last() =~= before);
            assert forall|a: int, b: int| 0 <= a < b < self.entries@.len() implies (
            #[trigger] self.entries@[a]).0@ != (#[trigger] self.entries@[b]).0@ by {
                if b < before.len() {
                    assert(before[a] == self.entries@[a] && before[b] == self.entries@[b]);
                } else {
                    assert(before[a] == self.entries@[a]);
                }
            }
        }
    }

    /// The handle that `key` is mapped to, if any.
    pub fn get(&self, key: &str) -> (found: Option<Id<JsonValue>>)
        requires
            self.wf(),
        ensures
            match found {
                Some(id) => self@.dom().contains(key@) && self@[key@] == id.index(),
                None => !self@.dom().contains(key@),
            },
    {
        let wanted = String::from_str(key);
        let mut i: usize = 0;
        while i < self.entries.len()
            invariant
                i <= self.entries.len(),
                wanted@ == key@,
                self.wf(),
                forall|j: int| 0 <= j < i ==> (#[trigger] self.entries@[j]).0@ != key@,
            decreases self.entries.len() - i,
        {
            if self.entries[i].0 == wanted {
                proof {
                    lemma_entries_map_at(self.entries@, i as int);
                }
                return Some(self.entries[i].1);
            }
            i += 1;
        }
        proof {
            lemma_entries_map_dom(self.entries@, key@);
        }
        None
    }
}

proof fn lemma_entries_map_len(entries: Seq<(String, Id<JsonValue>)>)
    requires
        distinct_keys(entries),
    ensures
        entries_map(entries).dom().finite(),
        entries_map(entries).dom().len() == entries.len(),
    decreases entries.len(),
{
    if entries.len() > 0 {
        let init = entries.drop_last();
        assert(distinct_keys(init)) by {
            assert forall|a: int, b: int| 0 <= a < b < init.len() implies (#[trigger] init[a]).0@
                != (#[trigger] init[b]).0@ by {
                assert(init[a] == entries[a] && init[b] == entries[b]);
            }
        }
        lemma_entries_map_len(init);
        lemma_entries_map_dom(init, entries.last().0@);
        if entries_map(init).dom().contains(entries.last().0@) {
            let i = choose|i: int| 0 <= i < init.len() && (#[trigger] init[i]).0@ == entries.last().0@;
            assert(entries[i].0@ == entries[entries.len() - 1].0@);
        }
    }
}

} // verus!
