//! Entity ids.

use vstd::prelude::*;

verus! {

/// Hands out entity ids in strictly increasing order, each at most once.
#[derive(Debug)]
pub struct IdAllocator {
    next: u32,
}

impl IdAllocator {
    /// The id that the next allocation returns. At `u32::MAX` the allocator
    /// is exhausted.
    pub closed spec fn next_id(&self) -> u32 {
        self.next
    }

    /// An allocator whose first id is 0.
    pub fn new() -> (ids: IdAllocator)
        ensures
            ids.next_id() == 0,
    {
        IdAllocator { next: 0 }
    }

    /// An allocator whose first id is `first`.
    pub fn starting_at(first: u32) -> (ids: IdAllocator)
        ensures
            ids.next_id() == first,
    {
        IdAllocator { next: first }
    }

    /// The id that the next allocation returns.
    pub fn peek(&self) -> (id: u32)
        ensures
            id == self.next_id(),
    {
        self.next
    }

    /// Returns a fresh id, larger than every id returned before, or `None`
    /// once the ids below `u32::MAX` are used up.
    pub fn allocate(&mut self) -> (id: Option<u32>)
        ensures
            old(self).next_id() < u32::MAX ==> id == Some(old(self).next_id())
                && final(self).next_id() == old(self).next_id() + 1,
            old(self).next_id() == u32::MAX ==> id.is_none() && final(self).next_id() == u32::MAX,
    {
        if self.next < u32::MAX {
            let id: u32 = self.next;
            self.next = id + 1;
            Some(id)
        } else {
            None
        }
    }
}

} // verus!
