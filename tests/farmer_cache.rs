use farmer_cache::backend::{CacheBackend, FarmerCacheOffset};
use farmer_cache::init::{build_state, plan_downloads, BackendScan, ContentsItem};
use farmer_cache::plot::{plot_cache_order, should_store, MaybePieceStoredResult};
use MaybePieceStoredResult::{No, Vacant, Yes};
use farmer_cache::state::PieceCachesState;
use farmer_cache::worker::{begin_persist, find_piece, finish_persist, forget_key, is_slot_free};

fn empty_backend(id: u128, total_capacity: u32) -> BackendScan {
    BackendScan {
        id,
        total_capacity,
        contents: Vec::new(),
    }
}

fn item(piece_offset: u32, piece_index: Option<u64>) -> ContentsItem {
    ContentsItem {
        piece_offset,
        piece_index,
    }
}

fn off(cache_index: usize, piece_offset: u32) -> FarmerCacheOffset {
    FarmerCacheOffset::new(cache_index, piece_offset)
}

fn used_sum(state: &PieceCachesState) -> u32 {
    state.backends().iter().map(|b| b.used_capacity).sum()
}

/// Stores a downloaded piece the way the worker does: take a slot, write,
/// then record.
fn store(state: &mut PieceCachesState, piece_index: u64) -> Option<FarmerCacheOffset> {
    let offset = begin_persist(state, None)?;
    assert!(is_slot_free(state, offset));
    finish_persist(state, piece_index, offset, true);
    Some(offset)
}

#[test]
fn next_free_hands_out_slots_until_full() {
    let mut backend = CacheBackend::new(7, 2);
    assert_eq!(backend.free_size(), 2);
    assert_eq!(backend.next_free(), Some(0));
    assert_eq!(backend.next_free(), Some(1));
    assert_eq!(backend.next_free(), None);
    assert_eq!(backend.used_capacity, 2);
    assert_eq!(backend.free_size(), 0);
}

#[test]
fn total_capacity_sums_backends() {
    let state = build_state(&vec![empty_backend(1, 4), empty_backend(2, 6)]);
    assert_eq!(state.total_capacity(), 10);
    assert_eq!(used_sum(&state), 0);
}

#[test]
fn cold_start_two_backends() {
    let mut state = build_state(&vec![empty_backend(1, 4), empty_backend(2, 4)]);
    let to_download = plan_downloads(&mut state, vec![3, 1, 0, 2]);
    assert_eq!(to_download, vec![0, 1, 2, 3]);

    let mut offsets = Vec::new();
    for piece_index in to_download {
        offsets.push(store(&mut state, piece_index).unwrap());
    }
    // The emptiest backend is filled first, the later one among equals.
    assert_eq!(offsets, vec![off(1, 0), off(0, 0), off(1, 1), off(0, 1)]);
    assert_eq!(state.stored_pieces_offests().len(), 4);
    assert_eq!(used_sum(&state), 4);
    assert!(state.dangling_free_offsets().is_empty());
    for piece_index in 0..4 {
        assert!(state.contains_stored_piece(piece_index));
    }
}

#[test]
fn warm_start_recycles_unwanted_slot() {
    let scans = vec![
        BackendScan {
            id: 1,
            total_capacity: 4,
            contents: vec![item(0, Some(0)), item(1, Some(7))],
        },
        empty_backend(2, 4),
    ];
    let mut state = build_state(&scans);
    assert_eq!(state.get_stored_piece(0), Some(off(0, 0)));
    assert_eq!(state.get_stored_piece(7), Some(off(0, 1)));
    assert_eq!(state.backends()[0].used_capacity, 2);

    let to_download = plan_downloads(&mut state, vec![0, 1, 2, 3]);
    assert_eq!(to_download, vec![1, 2, 3]);
    assert!(!state.contains_stored_piece(7));
    assert_eq!(state.get_stored_piece(0), Some(off(0, 0)));
    assert_eq!(state.dangling_free_offsets(), &vec![off(0, 1)]);

    let first = store(&mut state, 1).unwrap();
    assert_eq!(first, off(0, 1));
    assert_eq!(store(&mut state, 2), Some(off(1, 0)));
    assert_eq!(store(&mut state, 3), Some(off(1, 1)));
    assert_eq!(state.stored_pieces_offests().len(), 4);
    assert!(state.dangling_free_offsets().is_empty());
}

#[test]
fn new_segment_piece_takes_evicted_slot() {
    let scans = vec![BackendScan {
        id: 1,
        total_capacity: 2,
        contents: vec![item(0, Some(0)), item(1, Some(1))],
    }];
    let mut state = build_state(&scans);
    // The cache is full: a new piece only gets a slot by evicting another.
    assert_eq!(begin_persist(&mut state, None), None);

    let offset = begin_persist(&mut state, Some(1)).unwrap();
    assert_eq!(offset, off(0, 1));
    assert!(!state.contains_stored_piece(1));
    finish_persist(&mut state, 5, offset, true);
    assert_eq!(state.get_stored_piece(5), Some(off(0, 1)));
    assert_eq!(state.get_stored_piece(0), Some(off(0, 0)));
    assert!(state.dangling_free_offsets().is_empty());
}

#[test]
fn eviction_of_unknown_piece_writes_nothing() {
    let scans = vec![BackendScan {
        id: 1,
        total_capacity: 1,
        contents: vec![item(0, Some(0))],
    }];
    let mut state = build_state(&scans);
    assert_eq!(begin_persist(&mut state, Some(9)), None);
    assert_eq!(state.get_stored_piece(0), Some(off(0, 0)));
    assert!(state.dangling_free_offsets().is_empty());
}

#[test]
fn forget_key_after_read_failure() {
    let scans = vec![BackendScan {
        id: 1,
        total_capacity: 2,
        contents: vec![item(0, Some(3)), item(1, Some(4))],
    }];
    let mut state = build_state(&scans);
    assert_eq!(forget_key(&mut state, 3), Some(off(0, 0)));
    assert!(!state.contains_stored_piece(3));
    assert!(state.contains_stored_piece(4));
    assert_eq!(state.dangling_free_offsets(), &vec![off(0, 0)]);
    assert_eq!(forget_key(&mut state, 3), None);
    assert_eq!(state.dangling_free_offsets(), &vec![off(0, 0)]);
}

#[test]
fn old_offset_is_not_free_in_new_state() {
    let mut old_state = build_state(&vec![empty_backend(1, 4), empty_backend(2, 4)]);
    let in_flight = begin_persist(&mut old_state, None).unwrap();
    assert_eq!(in_flight, off(1, 0));

    let new_state = build_state(&vec![empty_backend(3, 4)]);
    assert!(!is_slot_free(&new_state, in_flight));
    assert!(!is_slot_free(&new_state, off(0, 0)));
}

#[test]
fn zero_capacity_stores_nothing() {
    let mut state = build_state(&vec![empty_backend(1, 0), empty_backend(2, 0)]);
    assert_eq!(state.total_capacity(), 0);
    let to_download = plan_downloads(&mut state, vec![0, 1]);
    assert_eq!(to_download, vec![0, 1]);
    assert_eq!(begin_persist(&mut state, None), None);
    assert_eq!(state.get_stored_piece(0), None);
    assert_eq!(find_piece(&state, 1), None);
}

#[test]
fn persisting_stored_piece_replaces_in_place() {
    let scans = vec![BackendScan {
        id: 1,
        total_capacity: 4,
        contents: vec![item(0, Some(0))],
    }];
    let mut state = build_state(&scans);
    let offset = begin_persist(&mut state, None).unwrap();
    assert_eq!(offset, off(0, 1));
    finish_persist(&mut state, 0, offset, true);
    assert_eq!(state.get_stored_piece(0), Some(off(0, 1)));
    assert_eq!(state.stored_pieces_offests().len(), 1);
    assert_eq!(state.dangling_free_offsets(), &vec![off(0, 0)]);
}

#[test]
fn record_then_forget_round_trip() {
    let mut state = build_state(&vec![empty_backend(1, 3)]);
    let before = state.stored_pieces_offests();
    let offset = store(&mut state, 5).unwrap();
    assert_eq!(forget_key(&mut state, 5), Some(offset));
    assert_eq!(state.stored_pieces_offests(), before);
    assert_eq!(state.dangling_free_offsets(), &vec![offset]);
}

#[test]
fn allocate_then_record_keeps_accounting() {
    let scans = vec![BackendScan {
        id: 1,
        total_capacity: 4,
        contents: vec![item(0, Some(1)), item(1, None), item(2, Some(2))],
    }];
    let mut state = build_state(&scans);
    let accounted = |s: &PieceCachesState| {
        s.stored_pieces_offests().len() + s.dangling_free_offsets().len() == used_sum(s) as usize
    };
    assert!(accounted(&state));
    store(&mut state, 8).unwrap();
    assert!(accounted(&state));
    store(&mut state, 9).unwrap();
    assert!(accounted(&state));
    assert_eq!(state.stored_pieces_offests().len(), used_sum(&state) as usize);
}

#[test]
fn pop_drains_dangling_before_new_slots() {
    let scans = vec![BackendScan {
        id: 1,
        total_capacity: 8,
        contents: vec![item(0, None), item(1, None), item(2, Some(6))],
    }];
    let mut state = build_state(&scans);
    assert_eq!(state.dangling_free_offsets(), &vec![off(0, 0), off(0, 1)]);
    assert_eq!(state.pop_free_offset(), Some(off(0, 0)));
    assert_eq!(state.pop_free_offset(), Some(off(0, 1)));
    assert_eq!(state.backends()[0].used_capacity, 3);
    assert_eq!(state.pop_free_offset(), Some(off(0, 3)));
    assert_eq!(state.backends()[0].used_capacity, 4);
}

#[test]
fn failed_write_records_nothing() {
    let mut state = build_state(&vec![empty_backend(1, 2)]);
    let offset = begin_persist(&mut state, None).unwrap();
    finish_persist(&mut state, 4, offset, false);
    assert!(!state.contains_stored_piece(4));
    assert!(state.dangling_free_offsets().is_empty());
    assert_eq!(used_sum(&state), 1);
}

#[test]
fn duplicate_piece_across_backends_keeps_later_slot() {
    let scans = vec![
        BackendScan {
            id: 1,
            total_capacity: 2,
            contents: vec![item(0, Some(4))],
        },
        BackendScan {
            id: 2,
            total_capacity: 2,
            contents: vec![item(0, Some(4))],
        },
    ];
    let state = build_state(&scans);
    assert_eq!(state.get_stored_piece(4), Some(off(1, 0)));
    assert_eq!(state.dangling_free_offsets(), &vec![off(0, 0)]);
}

#[test]
fn free_slots_above_high_water_mark_are_not_dangling() {
    let scans = vec![BackendScan {
        id: 1,
        total_capacity: 5,
        contents: vec![item(0, None), item(1, Some(2)), item(2, None), item(3, None)],
    }];
    let state = build_state(&scans);
    assert_eq!(state.backends()[0].used_capacity, 2);
    assert_eq!(state.dangling_free_offsets(), &vec![off(0, 0)]);
}

#[test]
fn find_piece_reports_backend_id() {
    let scans = vec![
        empty_backend(10, 1),
        BackendScan {
            id: 20,
            total_capacity: 3,
            contents: vec![item(0, None), item(1, Some(42))],
        },
    ];
    let state = build_state(&scans);
    assert_eq!(find_piece(&state, 42), Some((20, 1)));
    assert_eq!(find_piece(&state, 43), None);
}

#[test]
fn plan_downloads_sorts_missing_pieces() {
    let scans = vec![BackendScan {
        id: 1,
        total_capacity: 8,
        contents: vec![item(0, Some(3)), item(1, Some(11))],
    }];
    let mut state = build_state(&scans);
    let to_download = plan_downloads(&mut state, vec![9, 3, 7, 1]);
    assert_eq!(to_download, vec![1, 7, 9]);
    assert!(state.contains_stored_piece(3));
    assert!(!state.contains_stored_piece(11));
    assert_eq!(state.dangling_free_offsets(), &vec![off(0, 1)]);
}

#[test]
fn plot_caches_first_decisive_answer_wins() {
    assert!(should_store(&vec![Some(No), None, Some(Vacant)]));
    assert!(!should_store(&vec![Some(No), Some(Yes), Some(Vacant)]));
    assert!(!should_store(&vec![Some(No), None]));
    assert!(!should_store(&vec![]));
}

#[test]
fn plot_cache_order_is_round_robin() {
    assert_eq!(plot_cache_order(5, 3), vec![2, 0, 1]);
    assert_eq!(plot_cache_order(usize::MAX, 2), vec![1, 0]);
    assert_eq!(plot_cache_order(0, 0), Vec::<usize>::new());
}

#[test]
fn next_free_at_largest_capacity() {
    let mut backend = CacheBackend {
        id: 1,
        used_capacity: u32::MAX - 1,
        total_capacity: u32::MAX,
    };
    assert_eq!(backend.free_size(), 1);
    assert_eq!(backend.next_free(), Some(u32::MAX - 1));
    assert_eq!(backend.next_free(), None);
    assert_eq!(backend.used_capacity, u32::MAX);
}

#[test]
fn complete_contents_account_for_every_slot() {
    let scans = vec![
        BackendScan {
            id: 1,
            total_capacity: 6,
            contents: vec![
                item(0, Some(10)),
                item(1, None),
                item(2, Some(11)),
                item(3, None),
                item(4, None),
            ],
        },
        BackendScan {
            id: 2,
            total_capacity: 3,
            contents: vec![item(0, None), item(1, Some(12))],
        },
    ];
    let state = build_state(&scans);
    assert_eq!(state.backends()[0].used_capacity, 3);
    assert_eq!(state.backends()[1].used_capacity, 2);
    assert_eq!(state.stored_pieces_offests().len(), 3);
    assert_eq!(state.dangling_free_offsets(), &vec![off(0, 1), off(1, 0)]);
    assert_eq!(
        state.stored_pieces_offests().len() + state.dangling_free_offsets().len(),
        used_sum(&state) as usize
    );
}
