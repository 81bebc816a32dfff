//! The arena: an append-only store of fixed capacity that hands out handles.

use std::marker::PhantomData;
use vstd::prelude::*;

use crate::error::{ErrorView, ParseError};

verus! {

/// A handle to a value stored in an [`Allocator`]: the number of its slot.
///
/// A handle means something only against the arena that minted it. Nothing
/// guards against its use with another arena: that is for the caller to
/// avoid.
#[derive(Debug)]
pub struct Id<T>(usize, PhantomData<T>);

impl<T> Id<T> {
    /// The slot this handle points at.
    pub closed spec fn index(&self) -> nat {
        self.0 as nat
    }

    /// Makes the handle for slot `id`.
    pub fn id(id: usize) -> (handle: Self)
        ensures
            handle.index() == id,
    {
        Id(id, PhantomData)
    }
}

impl<T> Clone for Id<T> {
    fn clone(&self) -> (copy: Self)
        ensures
            copy == *self,
    {
        Id(self.0, PhantomData)
    }
}

impl<T> Copy for Id<T> {

}

/// An append-only store with a capacity fixed at construction. Handles are
/// minted in order from slot 0 and stay valid as long as the arena lives.
pub struct Allocator<T> {
    curr: usize,
    size: usize,
    vec: Vec<T>,
}

impl<T> View for Allocator<T> {
    type V = Seq<T>;

    closed spec fn view(&self) -> Seq<T> {
        self.vec@
    }
}

impl<T: Clone> Clone for Allocator<T> {
    /// Copies the arena slot by slot, each value by its own `clone`.
    fn clone(&self) -> (copy: Self)
        ensures
            self.wf() ==> copy.wf(),
            copy.capacity() == self.capacity(),
            copy@.len() == self@.len(),
            forall|i: int| 0 <= i < self@.len() ==> cloned(#[trigger] self@[i], copy@[i]),
    {
        Allocator { curr: self.curr, size: self.size, vec: self.vec.clone() }
    }
}

impl<T> Allocator<T> {
    /// The arena counts the values it stores and keeps within its capacity.
    pub closed spec fn wf(&self) -> bool {
        &&& self.curr == self.vec@.len()
        &&& self.curr <= self.size
    }

    /// The stored values never outnumber the capacity.
    pub proof fn lemma_bounded(&self)
        requires
            self.wf(),
        ensures
            self@.len() <= self.capacity(),
    {
    }

    /// The number of values the arena can hold.
    pub closed spec fn capacity(&self) -> nat {
        self.size as nat
    }

    /// A stored value stays what it was, whatever is stored after it: if
    /// `el` went into slot `id` of `before`, every later state `after` of the
    /// arena holds `el` in that slot.
    pub proof fn lemma_fetch_stored(before: Seq<T>, el: T, id: Id<T>, after: Seq<T>)
        requires
            id.index() == before.len(),
            before.push(el).is_prefix_of(after),
        ensures
            id.index() < after.len(),
            after[id.index() as int] == el,
    {
        assert(before.push(el)[before.len() as int] == el);
    }

    /// Makes an empty arena with room for `size - 1` values: one less than
    /// `size` names.
    pub fn make(size: usize) -> (arena: Self)
        requires
            size > 0,
        ensures
            arena.wf(),
            arena@ == Seq::<T>::empty(),
            arena.capacity() == size - 1,
    {
        let vec = Vec::with_capacity(size - 1);
        Allocator { curr: 0, size: size - 1, vec }
    }

    /// The number of values that are stored.
    pub fn len(&self) -> (n: usize)
        requires
            self.wf(),
        ensures
            n == self@.len(),
    {
        self.curr
    }

    /// Stores `el` in the next free slot and returns its handle, the number
    /// of values that were stored before. Where no slot is free the arena
    /// stays as it is and `el` is dropped.
    pub fn allocate(&mut self, el: T) -> (res: Result<Id<T>, ParseError>)
        requires
            old(self).wf(),
        ensures
            final(self).wf(),
            final(self).capacity() == old(self).capacity(),
            old(self)@.is_prefix_of(final(self)@),
            match res {
                Ok(id) => {
                    &&& old(self)@.len() < old(self).capacity()
                    &&& id.index() == old(self)@.len()
                    &&& final(self)@ == old(self)@.push(el)
                },
                Err(e) => {
                    &&& old(self)@.len() >= old(self).capacity()
                    &&& e@ == ErrorView::CapacityExceeded
                    &&& final(self)@ == old(self)@
                },
            },
    {
        let id = self.curr;
        if id >= self.size {
            return Err(ParseError::CapacityExceeded);
        }
        self.vec.push(el);
        self.curr += 1;
        Ok(Id(id, PhantomData))
    }

    /// Borrows the value that `id` points at. The handle must point into the
    /// arena, as every handle does that this arena minted.
    pub fn fetch(&self, id: Id<T>) -> (el: &T)
        requires
            self.wf(),
            id.index() < self@.len(),
        ensures
            *el == self@[id.index() as int],
    {
        &self.vec[id.0]
    }
}

} // verus!
