//! An append-only arena whose indices carry the element type: allocation
//! hands out an `Id` for the element's position, and reads go through it.

use vstd::prelude::*;

use crate::ids::ArenaId;

verus! {

/// An arena of `T` indexed by `Id`.
pub struct TypedArena<T, Id> {
    items: Vec<T>,
    _id: std::marker::PhantomData<Id>,
}

impl<T, Id: ArenaId> View for TypedArena<T, Id> {
    type V = Seq<T>;

    /// The elements, in allocation order.
    closed spec fn view(&self) -> Seq<T> {
        self.items@
    }
}

impl<T, Id: ArenaId> TypedArena<T, Id> {
    pub fn new() -> (a: Self)
        ensures
            a@ == Seq::<T>::empty(),
    {
        TypedArena { items: Vec::new(), _id: std::marker::PhantomData }
    }

    pub fn with_capacity(capacity: usize) -> (a: Self)
        ensures
            a@ == Seq::<T>::empty(),
    {
        TypedArena { items: Vec::with_capacity(capacity), _id: std::marker::PhantomData }
    }

    /// Appends `value` and returns its index.
    pub fn allocate(&mut self, value: T) -> (id: Id)
        requires
            old(self)@.len() <= u32::MAX,
        ensures
            final(self)@ == old(self)@.push(value),
            id.spec_index() == old(self)@.len(),
    {
        let i = self.items.len() as u32;
        self.items.push(value);
        Id::from_index(i)
    }

    /// The element at `id`.
    pub fn get(&self, id: Id) -> (r: &T)
        requires
            id.spec_index() < self@.len(),
        ensures
            *r == self@[id.spec_index() as int],
    {
        &self.items[id.index() as usize]
    }

    /// Replaces the element at `id`.
    pub fn set(&mut self, id: Id, value: T)
        requires
            id.spec_index() < old(self)@.len(),
        ensures
            final(self)@ == old(self)@.update(id.spec_index() as int, value),
    {
        self.items.set(id.index() as usize, value);
    }

    /// The number of elements.
    pub fn len(&self) -> (n: usize)
        ensures
            n == self@.len(),
    {
        self.items.len()
    }

    pub fn is_empty(&self) -> (b: bool)
        ensures
            b == (self@.len() == 0),
    {
        self.items.len() == 0
    }

    /// The elements, in allocation order (the element at position `i` has
    /// the index `Id::from_index(i)`).
    pub fn as_slice(&self) -> (s: &[T])
        ensures
            s@ == self@,
    {
        self.items.as_slice()
    }
}

/// A map from the handles of an arena to values, stored by position.
pub struct ArenaMap<Id, V> {
    slots: Vec<Option<V>>,
    _id: std::marker::PhantomData<Id>,
}

impl<Id: ArenaId, V> View for ArenaMap<Id, V> {
    type V = Map<nat, V>;

    /// Each handle position holding a value, to the value.
    closed spec fn view(&self) -> Map<nat, V> {
        Map::new(
            |i: nat| i < self.slots@.len() && self.slots@[i as int] is Some,
            |i: nat| self.slots@[i as int]->0,
        )
    }
}

impl<Id: ArenaId, V: Copy> ArenaMap<Id, V> {
    pub fn new() -> (m: Self)
        ensures
            m@ == Map::<nat, V>::empty(),
    {
        let m = ArenaMap { slots: Vec::new(), _id: std::marker::PhantomData };
        assert(m@ =~= Map::<nat, V>::empty());
        m
    }

    /// The value stored for `id`, if any.
    pub fn get(&self, id: Id) -> (r: Option<V>)
        ensures
            self@.contains_key(id.spec_index()) ==> r == Some(self@[id.spec_index()]),
            !self@.contains_key(id.spec_index()) ==> r is None,
    {
        let i = id.index() as usize;
        if i < self.slots.len() {
            self.slots[i]
        } else {
            None
        }
    }

    /// Stores `v` for `id`, replacing any earlier value.
    pub fn insert(&mut self, id: Id, v: V)
        ensures
            final(self)@ == old(self)@.insert(id.spec_index(), v),
    {
        let i = id.index() as usize;
        while self.slots.len() <= i
            invariant
                self@ == old(self)@,
            decreases i + 1 - self.slots@.len(),
        {
            let ghost before = self@;
            self.slots.push(None);
            assert(self@ =~= before);
        }
        self.slots.set(i, Some(v));
        assert(self@ =~= old(self)@.insert(id.spec_index(), v));
    }
}

} // verus!
