//! A table from node or judge ids to the addresses that serve them.
use std::collections::HashMap;
use vstd::prelude::*;

verus! {

/// The address serving each id. Looking up an id that is not there is a
/// fault of the caller.
pub struct AddressBook<A> {
    entries: HashMap<u128, A>,
}

impl<A> View for AddressBook<A> {
    type V = Map<u128, A>;

    closed spec fn view(&self) -> Map<u128, A> {
        self.entries@
    }
}

impl<A> AddressBook<A> {
    /// An empty table.
    pub fn new() -> (b: AddressBook<A>)
        ensures
            b@ == Map::<u128, A>::empty(),
    {
        AddressBook { entries: HashMap::new() }
    }

    /// Records that `addr` serves `id`, replacing any earlier address.
    pub fn insert(&mut self, id: u128, addr: A)
        ensures
            final(self)@ == old(self)@.insert(id, addr),
    {
        self.entries.insert(id, addr);
    }

    /// Whether some address serves `id`.
    pub fn contains(&self, id: u128) -> (b: bool)
        ensures
            b == self@.contains_key(id),
    {
        self.entries.contains_key(&id)
    }

    /// The address serving `id`.
    pub fn get(&self, id: u128) -> (a: &A)
        requires
            self@.contains_key(id),
        ensures
            *a == self@[id],
    {
        self.entries.get(&id).unwrap()
    }

    /// Forgets `id`, giving the address that served it.
    pub fn remove(&mut self, id: u128) -> (a: A)
        requires
            old(self)@.contains_key(id),
        ensures
            a == old(self)@[id],
            final(self)@ == old(self)@.remove(id),
    {
        self.entries.remove(&id).unwrap()
    }
}

} // verus!
