//! The two identifier allocators: independent monotonic counters for
//! row-group and delete-vector identifiers, shared across all tables. Each
//! tracks the highest identifier ever issued — not the highest live — so a
//! deleted-then-recreated identifier is never reused.

use vstd::prelude::*;

verus! {

#[derive(Clone, Copy, PartialEq, Eq, Structural, Debug)]
pub struct IdAllocators {
    /// The next row-group identifier to issue.
    pub next_rowset_id: u32,
    /// The next delete-vector identifier to issue.
    pub next_dv_id: u64,
}

impl IdAllocators {
    pub fn new(next_rowset_id: u32, next_dv_id: u64) -> (r: Self)
        ensures
            r.next_rowset_id == next_rowset_id,
            r.next_dv_id == next_dv_id,
    {
        IdAllocators { next_rowset_id, next_dv_id }
    }

    /// Issues a fresh row-group identifier: the counter's value, which is
    /// never issued again.
    pub fn allocate_rowset_id(&mut self) -> (r: u32)
        requires
            old(self).next_rowset_id < u32::MAX,
        ensures
            r == old(self).next_rowset_id,
            final(self).next_rowset_id == old(self).next_rowset_id + 1,
            final(self).next_dv_id == old(self).next_dv_id,
    {
        let r = self.next_rowset_id;
        self.next_rowset_id = self.next_rowset_id + 1;
        r
    }

    /// Issues a fresh delete-vector identifier.
    pub fn allocate_dv_id(&mut self) -> (r: u64)
        requires
            old(self).next_dv_id < u64::MAX,
        ensures
            r == old(self).next_dv_id,
            final(self).next_dv_id == old(self).next_dv_id + 1,
            final(self).next_rowset_id == old(self).next_rowset_id,
    {
        let r = self.next_dv_id;
        self.next_dv_id = self.next_dv_id + 1;
        r
    }
}

} // verus!
