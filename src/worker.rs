use crate::backend::FarmerCacheOffset;
use crate::state::{PieceCachesState, offset_valid, popped, slot_of_dropped, sum_used};
use vstd::prelude::*;

verus! {

/// `after` is `before` with `key` forgotten and its slot released.
pub open spec fn forgot(before: PieceCachesState, after: PieceCachesState, key: u64) -> bool {
    &&& after.stored_map() == before.stored_map().remove(key)
    &&& after.backends_view() == before.backends_view()
    &&& before.stored_map().contains_key(key) ==> after.dangling() == before.dangling().push(
        before.stored_map()[key],
    )
    &&& !before.stored_map().contains_key(key) ==> after.dangling() == before.dangling()
}

/// `after` is `before` with `key` recorded in slot `offset`; the slot that
/// `key` had before, if any, is released.
pub open spec fn committed(
    before: PieceCachesState,
    after: PieceCachesState,
    key: u64,
    offset: FarmerCacheOffset,
) -> bool {
    &&& after.stored_map() == before.stored_map().insert(key, offset)
    &&& after.backends_view() == before.backends_view()
    &&& before.stored_map().contains_key(key) ==> after.dangling() == before.dangling().push(
        before.stored_map()[key],
    )
    &&& !before.stored_map().contains_key(key) ==> after.dangling() == before.dangling()
}

/// `after` is `before` with `offset` handed out for a new piece: the index is
/// unchanged, the slot is free, and if a backend's high-water mark had to move
/// for it, that accounts for the slot.
pub open spec fn allocated(before: PieceCachesState, after: PieceCachesState, offset: FarmerCacheOffset) -> bool {
    &&& after.stored() == before.stored()
    &&& before.dangling().len() > 0 ==> after.dangling() == before.dangling().drop_first()
    &&& before.dangling().len() == 0 ==> after.dangling() == before.dangling()
    &&& slot_free(after, offset)
    &&& after.all_offsets().len() + 1 == before.all_offsets().len() + sum_used(after.backends_view())
        - sum_used(before.backends_view())
}

/// `offset` may take a piece: it lies below a high-water mark and is neither
/// occupied nor dangling.
pub open spec fn slot_free(state: PieceCachesState, offset: FarmerCacheOffset) -> bool {
    &&& offset_valid(offset, state.backends_view())
    &&& !state.all_offsets().contains(offset)
}

/// Whether `offset` may take a piece.
pub fn is_slot_free(state: &PieceCachesState, offset: FarmerCacheOffset) -> (r: bool)
    requires
        state.wf(),
    ensures
        r == slot_free(*state, offset),
{
    let backends = state.backends();
    if offset.cache_index >= backends.len() {
        return false;
    }
    if offset.piece_offset >= backends[offset.cache_index].used_capacity {
        return false;
    }
    !state.holds_offset(offset)
}

/// Forgets `key` after a reader failed to read its slot: the entry goes and
/// its slot becomes dangling. Hands back the slot, so that the caller can read
/// which piece it held.
pub fn forget_key(state: &mut PieceCachesState, key: u64) -> (r: Option<FarmerCacheOffset>)
    requires
        old(state).wf(),
    ensures
        final(state).wf(),
        forgot(*old(state), *final(state), key),
        r.is_some() <==> old(state).stored_map().contains_key(key),
        r matches Some(o) ==> o == old(state).stored_map()[key],
        final(state).all_offsets().len() == old(state).all_offsets().len(),
{
    match state.remove_stored_piece(key) {
        Some(offset) => {
            state.push_dangling_free_offset(offset);
            Some(offset)
        },
        None => None,
    }
}

/// Picks the slot for a piece that the proximity set has just taken in.
/// `evicted` is the piece that the set dropped to make room, if it dropped one:
/// then the piece takes that piece's slot, which must be indexed (else nothing
/// is written). Otherwise it takes a free slot, if one is left.
pub fn begin_persist(state: &mut PieceCachesState, evicted: Option<u64>) -> (r: Option<
    FarmerCacheOffset,
>)
    requires
        old(state).wf(),
    ensures
        final(state).wf(),
        final(state).stored() == old(state).stored() || evicted.is_some(),
        match evicted {
            Some(old_key) => {
                &&& r.is_some() <==> old(state).stored_map().contains_key(old_key)
                &&& final(state).stored_map() == old(state).stored_map().remove(old_key)
                &&& final(state).dangling() == old(state).dangling()
                &&& final(state).backends_view() == old(state).backends_view()
                &&& r matches Some(o) ==> o == old(state).stored_map()[old_key]
            },
            None => popped(*old(state), *final(state), r),
        },
        r matches Some(o) ==> evicted.is_none() ==> allocated(*old(state), *final(state), o),
        r matches Some(o) ==> slot_free(*final(state), o),
        r.is_none() ==> final(state).all_offsets() == old(state).all_offsets()
            && final(state).backends_view() == old(state).backends_view(),
{
    match evicted {
        Some(old_key) => state.remove_stored_piece(old_key),
        None => state.pop_free_offset(),
    }
}

/// Records `key` in `offset` once the piece is written there. When the write
/// failed nothing is recorded, and the slot stays unused until the backends
/// are read again.
pub fn finish_persist(state: &mut PieceCachesState, key: u64, offset: FarmerCacheOffset, written: bool)
    requires
        old(state).wf(),
        slot_free(*old(state), offset),
    ensures
        final(state).wf(),
        written ==> committed(*old(state), *final(state), key, offset),
        written ==> final(state).all_offsets().len() == old(state).all_offsets().len() + 1,
        !written ==> *final(state) == *old(state),
{
    if written {
        match state.push_stored_piece(key, offset) {
            Some(previous) => {
                state.push_dangling_free_offset(previous);
            },
            None => {},
        }
    }
}

/// Where the piece `piece_index` is kept: the identifier of its backend and
/// its slot there.
pub fn find_piece(state: &PieceCachesState, piece_index: u64) -> (r: Option<(u128, u32)>)
    requires
        state.wf(),
    ensures
        r.is_some() <==> state.stored_map().contains_key(piece_index),
        r matches Some((id, piece_offset)) ==> {
            let o = state.stored_map()[piece_index];
            &&& piece_offset == o.piece_offset
            &&& id == state.backends_view()[o.cache_index as int].id
        },
{
    match state.get_stored_piece(piece_index) {
        Some(offset) => {
            proof {
                state.lemma_stored_valid(piece_index);
            }
            match state.get_backend(offset.cache_index) {
                Some(backend) => Some((backend.id, offset.piece_offset)),
                None => None,
            }
        },
        None => None,
    }
}

} // verus!
