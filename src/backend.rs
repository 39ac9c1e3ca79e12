use vstd::prelude::*;

verus! {

/// Location of one slot across all backends.
#[derive(Clone, Copy, Debug, PartialEq, Eq, Structural)]
pub struct FarmerCacheOffset {
    /// Dense index of the backend, in `[0, number_of_backends)`.
    pub cache_index: usize,
    /// Slot inside that backend.
    pub piece_offset: u32,
}

impl FarmerCacheOffset {
    pub fn new(cache_index: usize, piece_offset: u32) -> (r: Self)
        ensures
            r.cache_index == cache_index,
            r.piece_offset == piece_offset,
    {
        FarmerCacheOffset { cache_index, piece_offset }
    }
}

/// Metadata of one backend: its identifier, how many slots it has and how far
/// into it any slot has been handed out.
#[derive(Clone, Copy, Debug, PartialEq, Eq, Structural)]
pub struct CacheBackend {
    pub id: u128,
    pub used_capacity: u32,
    pub total_capacity: u32,
}

impl CacheBackend {
    pub open spec fn wf(self) -> bool {
        self.used_capacity <= self.total_capacity
    }

    pub open spec fn spec_free_size(self) -> int {
        self.total_capacity - self.used_capacity
    }

    pub fn new(id: u128, total_capacity: u32) -> (r: Self)
        ensures
            r.id == id,
            r.used_capacity == 0,
            r.total_capacity == total_capacity,
            r.wf(),
    {
        CacheBackend { id, used_capacity: 0, total_capacity }
    }

    /// Hands out the next slot that was never used, if there is one.
    pub fn next_free(&mut self) -> (r: Option<u32>)
        requires
            old(self).wf(),
        ensures
            final(self).wf(),
            final(self).id == old(self).id,
            final(self).total_capacity == old(self).total_capacity,
            old(self).used_capacity < old(self).total_capacity ==> {
                &&& r == Some(old(self).used_capacity)
                &&& final(self).used_capacity == old(self).used_capacity + 1
            },
            old(self).used_capacity >= old(self).total_capacity ==> {
                &&& r.is_none()
                &&& final(self).used_capacity == old(self).used_capacity
            },
    {
        let offset = self.used_capacity;
        if offset < self.total_capacity {
            self.used_capacity = offset + 1;
            Some(offset)
        } else {
            None
        }
    }

    pub fn free_size(&self) -> (r: u32)
        requires
            self.wf(),
        ensures
            r == self.spec_free_size(),
    {
        self.total_capacity - self.used_capacity
    }
}

} // verus!
