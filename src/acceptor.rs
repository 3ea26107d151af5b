//! Allocation of client ids at accept time.
use vstd::prelude::*;

verus! {

/// Hands out client ids in increasing order, starting at zero; an id is
/// never handed out twice.
pub struct IdAllocator {
    next: u64,
}

impl View for IdAllocator {
    type V = u64;

    /// The id that the next allocation hands out.
    closed spec fn view(&self) -> u64 {
        self.next
    }
}

impl IdAllocator {
    /// An allocator whose first id is zero.
    pub fn new() -> (r: Self)
        ensures
            r@ == 0,
    {
        IdAllocator { next: 0 }
    }

    /// The id that the next allocation hands out.
    pub fn peek(&self) -> (r: u64)
        ensures
            r == self@,
    {
        self.next
    }

    /// Takes the next id, or `None` once every `u64` has been handed out.
    pub fn allocate(&mut self) -> (r: Option<u64>)
        ensures
            old(self)@ < u64::MAX ==> r == Some(old(self)@) && final(self)@ == old(self)@ + 1,
            old(self)@ == u64::MAX ==> r.is_none() && final(self)@ == old(self)@,
    {
        if self.next == u64::MAX {
            None
        } else {
            let id = self.next;
            self.next = self.next + 1;
            Some(id)
        }
    }
}

} // verus!
