use crate::backend::{CacheBackend, FarmerCacheOffset};
use crate::state::{
    PieceCachesState, StoredPiece, backends_wf, slot_of_dropped, entries_map, keys_unique, lemma_sum_used_take_step,
    offset_valid, sum_total, sum_used,
};
use rayon::slice::ParallelSliceMut;
use vstd::prelude::*;

verus! {

/// One element of a backend's contents: a slot, and the piece in it if any.
#[derive(Clone, Copy, Debug, PartialEq, Eq, Structural)]
pub struct ContentsItem {
    pub piece_offset: u32,
    pub piece_index: Option<u64>,
}

/// What was read from one backend while initializing: its identifier, its
/// capacity and its contents in ascending slot order.
#[derive(Clone, Debug)]
pub struct BackendScan {
    pub id: u128,
    pub total_capacity: u32,
    pub contents: Vec<ContentsItem>,
}

/// Slots come in strictly ascending order and lie inside the backend.
pub open spec fn contents_ordered(c: Seq<ContentsItem>, total_capacity: u32) -> bool {
    &&& forall|i: int, j: int| 0 <= i < j < c.len() ==> c[i].piece_offset < c[j].piece_offset
    &&& forall|i: int| 0 <= i < c.len() ==> (#[trigger] c[i]).piece_offset < total_capacity
}

/// One past the last occupied slot of a backend's contents, 0 if none is.
pub open spec fn high_water_mark(c: Seq<ContentsItem>) -> nat
    decreases c.len(),
{
    if c.len() == 0 {
        0
    } else if c.last().piece_index.is_some() {
        c.last().piece_offset as nat + 1
    } else {
        high_water_mark(c.drop_last())
    }
}

proof fn lemma_high_water_mark_bound(c: Seq<ContentsItem>, total_capacity: u32)
    requires
        contents_ordered(c, total_capacity),
    ensures
        high_water_mark(c) <= total_capacity,
        forall|i: int|
            0 <= i < c.len() && (#[trigger] c[i]).piece_index.is_some() ==> c[i].piece_offset
                < high_water_mark(c),
    decreases c.len(),
{
    if c.len() > 0 {
        let p = c.drop_last();
        assert(contents_ordered(p, total_capacity));
        lemma_high_water_mark_bound(p, total_capacity);
        assert forall|i: int|
            0 <= i < c.len() && (#[trigger] c[i]).piece_index.is_some() implies c[i].piece_offset
                < high_water_mark(c) by {
            if i < c.len() - 1 {
                assert(c[i] == p[i]);
                if c.last().piece_index.is_some() {
                    assert(c[i].piece_offset < c.last().piece_offset);
                }
            }
        }
    }
}

proof fn lemma_sum_total_bound(b: Seq<CacheBackend>)
    ensures
        sum_total(b) <= b.len() * 0xffff_ffff,
    decreases b.len(),
{
    if b.len() > 0 {
        lemma_sum_total_bound(b.drop_last());
    }
}

/// The high-water mark of one backend's contents.
pub fn scan_high_water_mark(contents: &Vec<ContentsItem>, total_capacity: u32) -> (r: u32)
    requires
        contents_ordered(contents@, total_capacity),
    ensures
        r == high_water_mark(contents@),
{
    proof {
        lemma_high_water_mark_bound(contents@, total_capacity);
        assert(contents@.take(contents@.len() as int) =~= contents@);
    }
    let mut i: usize = contents.len();
    while i > 0
        invariant
            i <= contents@.len(),
            contents_ordered(contents@, total_capacity),
            high_water_mark(contents@) == high_water_mark(contents@.take(i as int)),
        decreases i,
    {
        let item = contents[i - 1];
        proof {
            assert(contents@.take(i as int).drop_last() =~= contents@.take(i - 1));
            assert(contents@.take(i as int).last() == item);
        }
        if item.piece_index.is_some() {
            return item.piece_offset + 1;
        }
        i = i - 1;
    }
    0
}

/// The entries that the occupied slots of one backend's contents describe.
pub open spec fn occupied_entries(c: Seq<ContentsItem>, cache_index: int) -> Seq<StoredPiece>
    decreases c.len(),
{
    if c.len() == 0 {
        Seq::empty()
    } else {
        let p = occupied_entries(c.drop_last(), cache_index);
        match c.last().piece_index {
            Some(piece_index) => p.push(
                StoredPiece {
                    piece_index,
                    offset: FarmerCacheOffset {
                        cache_index: cache_index as usize,
                        piece_offset: c.last().piece_offset,
                    },
                },
            ),
            None => p,
        }
    }
}

/// The entries of all backends, in backend order; a later one for the same
/// piece takes the place of an earlier one.
pub open spec fn scan_entries(s: Seq<BackendScan>) -> Seq<StoredPiece>
    decreases s.len(),
{
    if s.len() == 0 {
        Seq::empty()
    } else {
        scan_entries(s.drop_last()) + occupied_entries(s.last().contents@, s.len() - 1)
    }
}

/// The backend handle that a scan describes.
pub open spec fn scanned_backend(s: BackendScan) -> CacheBackend {
    CacheBackend {
        id: s.id,
        used_capacity: high_water_mark(s.contents@) as u32,
        total_capacity: s.total_capacity,
    }
}

/// The contents list every slot of the backend, the k-th item being slot k,
/// up to some point.
pub open spec fn contents_complete(c: Seq<ContentsItem>) -> bool {
    forall|k: int| 0 <= k < c.len() ==> (#[trigger] c[k]).piece_offset == k
}

pub open spec fn scans_complete(s: Seq<BackendScan>) -> bool {
    forall|i: int| 0 <= i < s.len() ==> contents_complete(#[trigger] s[i].contents@)
}

proof fn lemma_high_water_mark_within_len(c: Seq<ContentsItem>)
    requires
        contents_complete(c),
    ensures
        high_water_mark(c) <= c.len(),
    decreases c.len(),
{
    if c.len() > 0 {
        let p = c.drop_last();
        assert(contents_complete(p)) by {
            assert forall|k: int| 0 <= k < p.len() implies (#[trigger] p[k]).piece_offset == k by {
                assert(p[k] == c[k]);
            }
        }
        lemma_high_water_mark_within_len(p);
        assert(c.last() == c[c.len() - 1]);
    }
}

pub open spec fn scans_ordered(s: Seq<BackendScan>) -> bool {
    forall|i: int| 0 <= i < s.len() ==> contents_ordered(#[trigger] s[i].contents@, s[i].total_capacity)
}

/// Builds the cache state from what was read from each backend: each backend's
/// high-water mark is one past its last occupied slot, every occupied slot is
/// indexed, and every free slot below the high-water mark is dangling.
pub fn build_state(scans: &Vec<BackendScan>) -> (r: PieceCachesState)
    requires
        scans_ordered(scans@),
        scans@.len() <= 0xffff_ffff,
    ensures
        r.wf(),
        r.backends_view() == scans@.map_values(|s: BackendScan| scanned_backend(s)),
        r.stored_map() == entries_map(scan_entries(scans@)),
        scans_complete(scans@) ==> r.accounted(),
{
    let mut backends: Vec<CacheBackend> = Vec::new();
    let mut i: usize = 0;
    while i < scans.len()
        invariant
            i <= scans@.len(),
            scans_ordered(scans@),
            backends@ == scans@.take(i as int).map_values(|s: BackendScan| scanned_backend(s)),
        decreases scans@.len() - i,
    {
        let scan = &scans[i];
        assert(contents_ordered(scans@[i as int].contents@, scans@[i as int].total_capacity));
        let used = scan_high_water_mark(&scan.contents, scan.total_capacity);
        proof {
            lemma_high_water_mark_bound(scan.contents@, scan.total_capacity);
        }
        backends.push(
            CacheBackend { id: scan.id, used_capacity: used, total_capacity: scan.total_capacity },
        );
        proof {
            assert(scans@.take(i + 1) =~= scans@.take(i as int).push(scans@[i as int]));
            assert(backends@ =~= scans@.take(i + 1).map_values(
                |s: BackendScan| scanned_backend(s),
            ));
        }
        i = i + 1;
    }
    let ghost b = backends@;
    proof {
        assert(scans@.take(i as int) =~= scans@);
        assert forall|k: int| 0 <= k < b.len() implies (#[trigger] b[k]).wf() by {
            lemma_high_water_mark_bound(scans@[k].contents@, scans@[k].total_capacity);
        }
        lemma_sum_total_bound(b);
        assert(b.len() * 0xffff_ffff <= 0xffff_ffff * 0xffff_ffff) by (nonlinear_arith)
            requires
                b.len() <= 0xffff_ffff,
        ;
    }
    let mut state = PieceCachesState::new(Vec::new(), Vec::new(), backends);
    proof {
        assert(state.all_offsets() =~= Seq::empty());
        assert(entries_map(state.stored()) =~= entries_map(scan_entries(scans@.take(0))));
    }
    let mut ci: usize = 0;
    while ci < scans.len()
        invariant
            ci <= scans@.len(),
            scans_ordered(scans@),
            b.len() == scans@.len(),
            forall|k: int| 0 <= k < b.len() ==> #[trigger] b[k] == scanned_backend(scans@[k]),
            state.wf(),
            state.backends_view() == b,
            state.stored_map() == entries_map(scan_entries(scans@.take(ci as int))),
            forall|x: FarmerCacheOffset|
                #[trigger] state.all_offsets().contains(x) ==> x.cache_index < ci,
            scans_complete(scans@) ==> state.all_offsets().len() == sum_used(b.take(ci as int)),
        decreases scans@.len() - ci,
    {
        let scan = &scans[ci];
        let ghost c = scan.contents@;
        let ghost prefix = scan_entries(scans@.take(ci as int));
        let used = state.backends()[ci].used_capacity;
        proof {
            if scans_complete(scans@) {
                assert(contents_complete(scans@[ci as int].contents@));
            }
            assert(contents_ordered(c, scans@[ci as int].total_capacity));
            lemma_high_water_mark_bound(c, scan.total_capacity);
            assert(used == high_water_mark(c));
            assert(scans@.take(ci as int) + seq![scans@[ci as int]] =~= scans@.take(ci + 1));
            assert(scans@.take(ci + 1).drop_last() =~= scans@.take(ci as int));
            assert(prefix + occupied_entries(c.take(0), ci as int) =~= prefix);
        }
        let mut j: usize = 0;
        while j < scan.contents.len()
            invariant
                c == scan.contents@,
                j <= c.len(),
                ci < scans@.len(),
                contents_ordered(c, scan.total_capacity),
                used == high_water_mark(c),
                forall|k: int|
                    0 <= k < c.len() && (#[trigger] c[k]).piece_index.is_some() ==> c[k].piece_offset
                        < used,
                b.len() == scans@.len(),
                b[ci as int].used_capacity == used,
                state.wf(),
                state.backends_view() == b,
                state.stored_map() == entries_map(prefix + occupied_entries(c.take(j as int), ci as int)),
                forall|x: FarmerCacheOffset|
                    #[trigger] state.all_offsets().contains(x) ==> x.cache_index < ci || (
                    x.cache_index == ci && j > 0 && x.piece_offset <= c[j - 1].piece_offset),
                scans_complete(scans@) ==> contents_complete(c),
                scans_complete(scans@) ==> state.all_offsets().len() == sum_used(b.take(ci as int))
                    + if j <= used { j as int } else { used as int },
            decreases c.len() - j,
        {
            let item = scan.contents[j];
            let offset = FarmerCacheOffset::new(ci, item.piece_offset);
            let ghost before = state.all_offsets();
            let ghost e = prefix + occupied_entries(c.take(j as int), ci as int);
            proof {
                assert(c.take(j + 1).drop_last() =~= c.take(j as int));
                assert(c.take(j + 1).last() == item);
                if before.contains(offset) {
                    assert(j > 0 && offset.piece_offset <= c[j - 1].piece_offset);
                    assert(c[j - 1].piece_offset < c[j as int].piece_offset);
                }
            }
            match item.piece_index {
                Some(piece_index) => {
                    assert(offset_valid(offset, b));
                    let previous = state.push_stored_piece(piece_index, offset);
                    proof {
                        let e2 = e.push(StoredPiece { piece_index, offset });
                        assert(e2.drop_last() =~= e);
                        assert(prefix + occupied_entries(c.take(j + 1), ci as int) =~= e2);
                    }
                    match previous {
                        Some(previous) => {
                            let ghost mid = state.all_offsets();
                            state.push_dangling_free_offset(previous);
                            proof {
                                assert forall|x: FarmerCacheOffset|
                                    #[trigger] state.all_offsets().contains(x) implies x == offset
                                        || before.contains(x) by {
                                    let k = choose|k: int|
                                        0 <= k < state.all_offsets().len()
                                            && state.all_offsets()[k] == x;
                                    if k < mid.len() {
                                        assert(mid[k] == x);
                                        assert(mid.contains(x));
                                    }
                                }
                            }
                        },
                        None => {},
                    }
                },
                None => {
                    proof {
                        assert(prefix + occupied_entries(c.take(j + 1), ci as int) =~= e);
                    }
                    if item.piece_offset < used {
                        state.push_dangling_free_offset(offset);
                        proof {
                            assert forall|x: FarmerCacheOffset|
                                #[trigger] state.all_offsets().contains(x) implies x == offset
                                    || before.contains(x) by {
                                let k = choose|k: int|
                                    0 <= k < state.all_offsets().len() && state.all_offsets()[k]
                                        == x;
                                if k < before.len() {
                                    assert(before[k] == x);
                                }
                            }
                        }
                    }
                },
            }
            proof {
                assert forall|x: FarmerCacheOffset|
                    #[trigger] state.all_offsets().contains(x) implies x.cache_index < ci || (
                    x.cache_index == ci && x.piece_offset <= c[j as int].piece_offset) by {
                    assert(x == offset || before.contains(x));
                    if x != offset {
                        assert(before.contains(x));
                        if x.cache_index == ci {
                            assert(c[j - 1].piece_offset < c[j as int].piece_offset);
                        }
                    }
                }
            }
            j = j + 1;
        }
        proof {
            assert(c.take(j as int) =~= c);
            assert(scans@.take(ci + 1).last() == scans@[ci as int]);
            lemma_sum_used_take_step(b, ci as int);
            if scans_complete(scans@) {
                lemma_high_water_mark_within_len(c);
            }
        }
        ci = ci + 1;
    }
    proof {
        assert(scans@.take(ci as int) =~= scans@);
        assert(b.take(ci as int) =~= b);
        assert(b =~= scans@.map_values(|s: BackendScan| scanned_backend(s)));
    }
    state
}

pub open spec fn sorted_ascending(s: Seq<u64>) -> bool {
    forall|i: int, j: int| 0 <= i < j < s.len() ==> s[i] <= s[j]
}

/// Relies on rayon's `ParallelSliceMut::par_sort_unstable`: sorts the slice in
/// place, in ascending order, keeping its elements.
#[verifier::external_body]
fn par_sort_unstable(v: &mut Vec<u64>)
    ensures
        final(v)@.to_multiset() == old(v)@.to_multiset(),
        sorted_ascending(final(v)@),
{
    v.par_sort_unstable();
}

/// Drops from `state` every piece that is not wanted, and returns the wanted
/// pieces that are not stored yet, in ascending order: the order in which
/// they are downloaded.
pub fn plan_downloads(state: &mut PieceCachesState, wanted: Vec<u64>) -> (r: Vec<u64>)
    requires
        old(state).wf(),
    ensures
        final(state).wf(),
        final(state).backends_view() == old(state).backends_view(),
        final(state).stored_map() == old(state).stored_map().restrict(wanted@.to_set()),
        final(state).all_offsets().len() == old(state).all_offsets().len(),
        final(state).dangling().len() >= old(state).dangling().len(),
        final(state).dangling().subrange(0, old(state).dangling().len() as int)
            == old(state).dangling(),
        forall|k: u64|
            old(state).stored_map().contains_key(k) && !wanted@.contains(k)
                ==> final(state).dangling().contains(#[trigger] old(state).stored_map()[k]),
        forall|j: int|
            old(state).dangling().len() <= j < final(state).dangling().len() ==> slot_of_dropped(
                old(state).stored_map(),
                wanted@,
                #[trigger] final(state).dangling()[j],
            ),
        r@.to_multiset() == wanted@.filter(|k: u64| !old(state).stored_map().contains_key(k)).to_multiset(),
        sorted_ascending(r@),
{
    let mut to_download = wanted;
    state.free_unneeded_stored_pieces(&mut to_download);
    par_sort_unstable(&mut to_download);
    to_download
}

} // verus!
