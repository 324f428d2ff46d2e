//! A growable arena whose slots are named by stable addresses.
use vstd::prelude::*;

verus! {

/// The position of an item in an [`Arena`].
#[derive(Debug, Copy, Clone, PartialEq, Eq, Structural, PartialOrd, Ord)]
pub struct Address(usize);

impl Address {
    /// The slot that the address names.
    pub closed spec fn pos(self) -> int {
        self.0 as int
    }
}

/// Items stored one after the other; adding never moves an item, so an
/// address stays valid until the arena is reset.
pub struct Arena<T> {
    data: Vec<T>,
}

impl<T> View for Arena<T> {
    type V = Seq<T>;

    closed spec fn view(&self) -> Seq<T> {
        self.data@
    }
}

impl<T> Arena<T> {
    /// An empty arena.
    pub fn new() -> (r: Self)
        ensures
            r@ == Seq::<T>::empty(),
    {
        Self { data: Vec::new() }
    }

    /// Removes every item.
    pub fn reset(&mut self)
        ensures
            final(self)@ == Seq::<T>::empty(),
    {
        self.data.clear();
    }

    /// Appends an item and returns its address.
    pub fn add(&mut self, entry: T) -> (r: Address)
        ensures
            final(self)@ == old(self)@.push(entry),
            r.pos() == old(self)@.len(),
    {
        self.data.push(entry);
        Address(self.data.len() - 1)
    }

    /// The item at an address.
    pub fn deref(&self, address: Address) -> (r: &T)
        requires
            0 <= address.pos() < self@.len(),
        ensures
            *r == self@[address.pos()],
    {
        &self.data[address.0]
    }

    /// The item at an address, to be changed in place.
    pub fn deref_mut(&mut self, address: Address) -> (r: &mut T)
        requires
            0 <= address.pos() < old(self)@.len(),
        ensures
            *r == old(self)@[address.pos()],
            final(self)@ == old(self)@.update(address.pos(), *final(r)),
    {
        &mut self.data[address.0]
    }
}

} // verus!
