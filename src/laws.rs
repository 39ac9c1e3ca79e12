use crate::backend::FarmerCacheOffset;
use crate::state::{PieceCachesState, entries_map, lemma_entries_map_len, offset_valid, sum_total, sum_used};
use crate::init::{BackendScan, scan_entries, scanned_backend};
use crate::worker::{allocated, committed, forgot};
use crate::backend::CacheBackend;
use crate::state::{backends_wf, lemma_sum_used_take_step};
use vstd::prelude::*;
use vstd::set_lib::{lemma_int_range, lemma_len_subset, set_int_range};

verus! {

/// The number of pieces that the index holds.
pub open spec fn stored_count(s: PieceCachesState) -> nat {
    s.stored_map().dom().len()
}

proof fn lemma_counts(s: PieceCachesState)
    requires
        s.wf(),
    ensures
        s.stored_map().dom().finite(),
        s.all_offsets().len() == stored_count(s) + s.dangling().len(),
{
    lemma_entries_map_len(s.stored());
}

/// A piece is found, in the slot it was recorded in, from the moment it is
/// recorded until it is forgotten; no other piece is found or lost meanwhile.
pub proof fn law_lookup_follows_writes(
    s1: PieceCachesState,
    s2: PieceCachesState,
    s3: PieceCachesState,
    key: u64,
    offset: FarmerCacheOffset,
    other: u64,
)
    requires
        committed(s1, s2, key, offset),
        forgot(s2, s3, key),
        other != key,
    ensures
        s2.stored_map().contains_key(key),
        s2.stored_map()[key] == offset,
        !s3.stored_map().contains_key(key),
        s2.stored_map().contains_key(other) == s1.stored_map().contains_key(other),
        s3.stored_map().contains_key(other) == s1.stored_map().contains_key(other),
        s1.stored_map().contains_key(other) ==> s3.stored_map()[other] == s1.stored_map()[other],
{
}

/// Handing out a slot and then recording a piece in it keeps every slot below
/// the high-water marks accounted for, as occupied or as dangling.
pub proof fn law_allocate_then_record_keeps_accounting(
    s1: PieceCachesState,
    s2: PieceCachesState,
    s3: PieceCachesState,
    key: u64,
    offset: FarmerCacheOffset,
)
    requires
        s1.wf(),
        s2.wf(),
        s3.wf(),
        s1.accounted(),
        allocated(s1, s2, offset),
        committed(s2, s3, key, offset),
    ensures
        s3.accounted(),
        s1.dangling().len() == 0 && !s2.stored_map().contains_key(key) ==> stored_count(s3)
            == sum_used(s3.backends_view()),
{
    lemma_counts(s2);
    lemma_counts(s3);
    if s2.stored_map().contains_key(key) {
        assert(s3.stored_map().dom() =~= s2.stored_map().dom());
    } else {
        assert(s3.stored_map().dom() =~= s2.stored_map().dom().insert(key));
    }
}

/// Recording a new piece and then forgetting it leaves the index and the
/// backends as they were; only the slot it had joins the dangling ones.
pub proof fn law_record_then_forget(
    s1: PieceCachesState,
    s2: PieceCachesState,
    s3: PieceCachesState,
    key: u64,
    offset: FarmerCacheOffset,
)
    requires
        !s1.stored_map().contains_key(key),
        committed(s1, s2, key, offset),
        forgot(s2, s3, key),
    ensures
        s3.stored_map() == s1.stored_map(),
        s3.backends_view() == s1.backends_view(),
        s3.dangling() == s1.dangling().push(offset),
{
    assert(s3.stored_map() =~= s1.stored_map());
}

/// Recording a piece that is already in the index moves it to its new slot
/// and holds no more pieces than before; its old slot becomes dangling.
pub proof fn law_record_existing_in_place(
    s1: PieceCachesState,
    s2: PieceCachesState,
    key: u64,
    offset: FarmerCacheOffset,
)
    requires
        s1.wf(),
        s1.stored_map().contains_key(key),
        committed(s1, s2, key, offset),
    ensures
        s2.stored_map()[key] == offset,
        s2.stored_map().dom() == s1.stored_map().dom(),
        s2.dangling() == s1.dangling().push(s1.stored_map()[key]),
{
    assert(s2.stored_map().dom() =~= s1.stored_map().dom());
}

proof fn lemma_zero_total(b: Seq<crate::backend::CacheBackend>, i: int)
    requires
        sum_total(b) == 0,
        0 <= i < b.len(),
    ensures
        b[i].total_capacity == 0,
    decreases b.len(),
{
    if i < b.len() - 1 {
        assert(b.drop_last()[i] == b[i]);
        lemma_zero_total(b.drop_last(), i);
    }
}

/// Without capacity nothing is indexed, no slot is dangling, and no backend
/// has a slot to give, so every lookup misses and nothing can be stored.
pub proof fn law_zero_capacity(s: PieceCachesState)
    requires
        s.wf(),
        sum_total(s.backends_view()) == 0,
    ensures
        s.stored_map() == Map::<u64, FarmerCacheOffset>::empty(),
        s.dangling().len() == 0,
        forall|j: int|
            0 <= j < s.backends_view().len() ==> (#[trigger] s.backends_view()[j]).spec_free_size()
                == 0,
{
    assert forall|j: int| 0 <= j < s.backends_view().len() implies (
    #[trigger] s.backends_view()[j]).spec_free_size() == 0 by {
        lemma_zero_total(s.backends_view(), j);
    }
    if s.all_offsets().len() > 0 {
        let o = s.all_offsets()[0];
        assert(offset_valid(o, s.backends_view()));
        lemma_zero_total(s.backends_view(), o.cache_index as int);
    }
    lemma_counts(s);
    assert(s.stored_map().dom() =~= Set::empty());
    assert(s.stored_map() =~= Map::<u64, FarmerCacheOffset>::empty());
}

/// When the index already holds exactly the wanted pieces, planning keeps it
/// as it is and leaves nothing to download.
pub proof fn law_nothing_to_download_when_complete(s: PieceCachesState, wanted: Seq<u64>)
    requires
        s.stored_map().dom() == wanted.to_set(),
    ensures
        s.stored_map().restrict(wanted.to_set()) == s.stored_map(),
        wanted.filter(|k: u64| !s.stored_map().contains_key(k)).len() == 0,
{
    assert(s.stored_map().restrict(wanted.to_set()) =~= s.stored_map());
    let f = wanted.filter(|k: u64| !s.stored_map().contains_key(k));
    if f.len() > 0 {
        wanted.filter_lemma(|k: u64| !s.stored_map().contains_key(k));
        assert(f.contains(f[0]));
        wanted.lemma_filter_contains_rev(|k: u64| !s.stored_map().contains_key(k), f[0]);
        assert(wanted.contains(f[0]));
        assert(wanted.to_set().contains(f[0]));
    }
}

/// Position of a slot when the slots of all backends are laid end to end,
/// each backend up to its high-water mark.
spec fn rank(o: FarmerCacheOffset, b: Seq<CacheBackend>) -> int {
    sum_used(b.take(o.cache_index as int)) + o.piece_offset
}

proof fn lemma_sum_used_take_mono(b: Seq<CacheBackend>, m: int, n: int)
    requires
        0 <= m <= n <= b.len(),
    ensures
        sum_used(b.take(m)) <= sum_used(b.take(n)),
    decreases n - m,
{
    if m < n {
        lemma_sum_used_take_step(b, n - 1);
        lemma_sum_used_take_mono(b, m, n - 1);
    }
}

proof fn lemma_rank_bounds(o: FarmerCacheOffset, b: Seq<CacheBackend>)
    requires
        offset_valid(o, b),
    ensures
        sum_used(b.take(o.cache_index as int)) <= rank(o, b) < sum_used(b.take(o.cache_index + 1)),
        sum_used(b.take(o.cache_index + 1)) <= sum_used(b),
{
    lemma_sum_used_take_step(b, o.cache_index as int);
    lemma_sum_used_take_mono(b, o.cache_index + 1, b.len() as int);
    assert(b.take(b.len() as int) =~= b);
}

proof fn lemma_sum_used_within_total(b: Seq<CacheBackend>)
    requires
        backends_wf(b),
    ensures
        sum_used(b) <= sum_total(b),
        sum_used(b) == sum_total(b) <==> forall|j: int|
            0 <= j < b.len() ==> (#[trigger] b[j]).spec_free_size() == 0,
    decreases b.len(),
{
    if b.len() > 0 {
        let p = b.drop_last();
        assert(backends_wf(p)) by {
            assert forall|j: int| 0 <= j < p.len() implies (#[trigger] p[j]).wf() by {
                assert(p[j] == b[j]);
            }
        }
        lemma_sum_used_within_total(p);
        assert(b.last().wf());
        if sum_used(b) == sum_total(b) {
            assert forall|j: int| 0 <= j < b.len() implies (#[trigger] b[j]).spec_free_size() == 0 by {
                if j < b.len() - 1 {
                    assert(p[j] == b[j]);
                }
            }
        }
        if forall|j: int| 0 <= j < b.len() ==> (#[trigger] b[j]).spec_free_size() == 0 {
            assert forall|j: int| 0 <= j < p.len() implies (#[trigger] p[j]).spec_free_size() == 0 by {
                assert(p[j] == b[j]);
            }
            assert(b[b.len() - 1].spec_free_size() == 0);
        }
    }
}

/// Distinct valid slots cannot outnumber the slots below the high-water marks.
proof fn lemma_offsets_within_used(s: PieceCachesState)
    requires
        s.wf(),
    ensures
        s.all_offsets().len() <= sum_used(s.backends_view()),
{
    let b = s.backends_view();
    let all = s.all_offsets();
    let ranks = all.map_values(|o: FarmerCacheOffset| rank(o, b));
    assert forall|x: int, y: int| 0 <= x < ranks.len() && 0 <= y < ranks.len() && x != y implies ranks[x]
        != ranks[y] by {
        let ox = all[x];
        let oy = all[y];
        assert(offset_valid(ox, b));
        assert(offset_valid(oy, b));
        lemma_rank_bounds(ox, b);
        lemma_rank_bounds(oy, b);
        if ox.cache_index < oy.cache_index {
            lemma_sum_used_take_mono(b, ox.cache_index + 1, oy.cache_index as int);
        } else if oy.cache_index < ox.cache_index {
            lemma_sum_used_take_mono(b, oy.cache_index + 1, ox.cache_index as int);
        }
    }
    assert(ranks.no_duplicates());
    ranks.unique_seq_to_set();
    let m = sum_used(b) as int;
    lemma_int_range(0, m);
    assert forall|r: int| ranks.to_set().contains(r) implies set_int_range(0, m).contains(r) by {
        let x = choose|x: int| 0 <= x < ranks.len() && ranks[x] == r;
        assert(offset_valid(all[x], b));
        lemma_rank_bounds(all[x], b);
    }
    lemma_len_subset(ranks.to_set(), set_int_range(0, m));
}

/// An index whose pieces all come from a wanted set holds at most as many
/// pieces as that set has, and at most as many as the backends have slots.
pub proof fn law_stored_within_capacity(s: PieceCachesState, wanted: Seq<u64>)
    requires
        s.wf(),
        s.stored_map().dom().subset_of(wanted.to_set()),
    ensures
        stored_count(s) <= wanted.len(),
        stored_count(s) <= sum_total(s.backends_view()),
{
    lemma_counts(s);
    lemma_offsets_within_used(s);
    lemma_sum_used_within_total(s.backends_view());
    wanted.lemma_cardinality_of_set();
    lemma_len_subset(s.stored_map().dom(), wanted.to_set());
}

/// When every slot is accounted for, none is dangling and no backend has a
/// slot left to give, the index holds exactly as many pieces as there are
/// slots.
pub proof fn law_full_cache_holds_capacity(s: PieceCachesState)
    requires
        s.wf(),
        s.accounted(),
        s.dangling().len() == 0,
        forall|j: int|
            0 <= j < s.backends_view().len() ==> (#[trigger] s.backends_view()[j]).spec_free_size()
                == 0,
    ensures
        stored_count(s) == sum_total(s.backends_view()),
{
    lemma_counts(s);
    lemma_sum_used_within_total(s.backends_view());
}

/// The state that replacing the backends builds depends on what the backends
/// hold and nothing else: replacing them twice with the same, unchanged
/// backends gives the same index and handles as replacing them once.
pub proof fn law_rebuild_depends_on_contents_only(
    first: PieceCachesState,
    second: PieceCachesState,
    scans: Seq<BackendScan>,
)
    requires
        first.backends_view() == scans.map_values(|s: BackendScan| scanned_backend(s)),
        first.stored_map() == entries_map(scan_entries(scans)),
        second.backends_view() == scans.map_values(|s: BackendScan| scanned_backend(s)),
        second.stored_map() == entries_map(scan_entries(scans)),
    ensures
        first.stored_map() == second.stored_map(),
        first.backends_view() == second.backends_view(),
{
}

} // verus!
