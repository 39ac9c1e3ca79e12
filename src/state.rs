use crate::backend::{CacheBackend, FarmerCacheOffset};
use vstd::prelude::*;

verus! {

/// One entry of the cache index: which piece lives in which slot.
#[derive(Clone, Copy, Debug, PartialEq, Eq, Structural)]
pub struct StoredPiece {
    pub piece_index: u64,
    pub offset: FarmerCacheOffset,
}

/// Sum of the high-water marks of all backends.
pub open spec fn sum_used(b: Seq<CacheBackend>) -> nat
    decreases b.len(),
{
    if b.len() == 0 {
        0
    } else {
        sum_used(b.drop_last()) + b.last().used_capacity as nat
    }
}

/// Sum of the capacities of all backends.
pub open spec fn sum_total(b: Seq<CacheBackend>) -> nat
    decreases b.len(),
{
    if b.len() == 0 {
        0
    } else {
        sum_total(b.drop_last()) + b.last().total_capacity as nat
    }
}

/// The mapping from piece index to slot that a sequence of entries describes.
pub open spec fn entries_map(s: Seq<StoredPiece>) -> Map<u64, FarmerCacheOffset>
    decreases s.len(),
{
    if s.len() == 0 {
        Map::empty()
    } else {
        entries_map(s.drop_last()).insert(s.last().piece_index, s.last().offset)
    }
}

pub open spec fn keys_unique(s: Seq<StoredPiece>) -> bool {
    forall|i: int, j: int|
        0 <= i < s.len() && 0 <= j < s.len() && i != j ==> s[i].piece_index != s[j].piece_index
}

pub open spec fn offsets_of(s: Seq<StoredPiece>) -> Seq<FarmerCacheOffset> {
    s.map_values(|e: StoredPiece| e.offset)
}

/// The slot lies below the high-water mark of an existing backend.
pub open spec fn offset_valid(o: FarmerCacheOffset, b: Seq<CacheBackend>) -> bool {
    &&& o.cache_index < b.len()
    &&& o.piece_offset < b[o.cache_index as int].used_capacity
}

pub open spec fn backends_wf(b: Seq<CacheBackend>) -> bool {
    forall|i: int| 0 <= i < b.len() ==> (#[trigger] b[i]).wf()
}

pub proof fn lemma_entries_map_domain(s: Seq<StoredPiece>, k: u64)
    ensures
        entries_map(s).contains_key(k) <==> exists|i: int|
            0 <= i < s.len() && (#[trigger] s[i]).piece_index == k,
    decreases s.len(),
{
    if s.len() > 0 {
        lemma_entries_map_domain(s.drop_last(), k);
        if entries_map(s.drop_last()).contains_key(k) {
            let i = choose|i: int| 0 <= i < s.drop_last().len() && s.drop_last()[i].piece_index == k;
            assert(s[i] == s.drop_last()[i]);
        }
        if exists|i: int| 0 <= i < s.len() && (#[trigger] s[i]).piece_index == k {
            let i = choose|i: int| 0 <= i < s.len() && (#[trigger] s[i]).piece_index == k;
            if i < s.len() - 1 {
                assert(s.drop_last()[i] == s[i]);
            }
        }
    }
}

pub proof fn lemma_entries_map_value(s: Seq<StoredPiece>, i: int)
    requires
        keys_unique(s),
        0 <= i < s.len(),
    ensures
        entries_map(s).contains_key(s[i].piece_index),
        entries_map(s)[s[i].piece_index] == s[i].offset,
    decreases s.len(),
{
    if i < s.len() - 1 {
        assert(s.drop_last()[i] == s[i]);
        assert(keys_unique(s.drop_last()));
        lemma_entries_map_value(s.drop_last(), i);
    }
}

/// Entries that form a mapping hold as many slots as the mapping has keys.
pub proof fn lemma_entries_map_len(s: Seq<StoredPiece>)
    requires
        keys_unique(s),
    ensures
        entries_map(s).dom().finite(),
        entries_map(s).dom().len() == s.len(),
    decreases s.len(),
{
    if s.len() > 0 {
        let p = s.drop_last();
        assert(keys_unique(p));
        lemma_entries_map_len(p);
        lemma_entries_map_domain(p, s.last().piece_index);
        if entries_map(p).contains_key(s.last().piece_index) {
            let i = choose|i: int| 0 <= i < p.len() && (#[trigger] p[i]).piece_index == s.last().piece_index;
            assert(s[i] == p[i]);
            assert(false);
        }
    }
}

pub proof fn lemma_entries_map_update(s: Seq<StoredPiece>, i: int, o: FarmerCacheOffset)
    requires
        keys_unique(s),
        0 <= i < s.len(),
    ensures
        entries_map(s.update(i, StoredPiece { piece_index: s[i].piece_index, offset: o }))
            == entries_map(s).insert(s[i].piece_index, o),
    decreases s.len(),
{
    let e = StoredPiece { piece_index: s[i].piece_index, offset: o };
    let s2 = s.update(i, e);
    if i == s.len() - 1 {
        assert(s2.drop_last() =~= s.drop_last());
        assert(entries_map(s2) =~= entries_map(s).insert(s[i].piece_index, o));
    } else {
        assert(s2.drop_last() =~= s.drop_last().update(i, e));
        assert(s.drop_last()[i] == s[i]);
        assert(keys_unique(s.drop_last()));
        lemma_entries_map_update(s.drop_last(), i, o);
        assert(s.last().piece_index != s[i].piece_index);
        assert(entries_map(s2) =~= entries_map(s).insert(s[i].piece_index, o));
    }
}

pub proof fn lemma_entries_map_remove(s: Seq<StoredPiece>, i: int)
    requires
        keys_unique(s),
        0 <= i < s.len(),
    ensures
        entries_map(s.remove(i)) == entries_map(s).remove(s[i].piece_index),
        keys_unique(s.remove(i)),
    decreases s.len(),
{
    let s2 = s.remove(i);
    assert(keys_unique(s2)) by {
        assert forall|a: int, b: int|
            0 <= a < s2.len() && 0 <= b < s2.len() && a != b implies s2[a].piece_index
                != s2[b].piece_index by {
            let pa = if a < i { a } else { a + 1 };
            let pb = if b < i { b } else { b + 1 };
            assert(s2[a] == s[pa]);
            assert(s2[b] == s[pb]);
        }
    }
    if i == s.len() - 1 {
        assert(s2 =~= s.drop_last());
        lemma_entries_map_domain(s.drop_last(), s[i].piece_index);
        if entries_map(s.drop_last()).contains_key(s[i].piece_index) {
            let j = choose|j: int|
                0 <= j < s.drop_last().len() && (#[trigger] s.drop_last()[j]).piece_index
                    == s[i].piece_index;
            assert(s[j] == s.drop_last()[j]);
        }
        assert(entries_map(s2) =~= entries_map(s).remove(s[i].piece_index));
    } else {
        assert(s2.drop_last() =~= s.drop_last().remove(i));
        assert(s2.last() == s.last());
        assert(s.drop_last()[i] == s[i]);
        assert(keys_unique(s.drop_last()));
        lemma_entries_map_remove(s.drop_last(), i);
        assert(s.last().piece_index != s[i].piece_index);
        assert(entries_map(s2) =~= entries_map(s).remove(s[i].piece_index));
    }
}

pub proof fn lemma_sum_used_update(b: Seq<CacheBackend>, i: int, nb: CacheBackend)
    requires
        0 <= i < b.len(),
    ensures
        sum_used(b.update(i, nb)) == sum_used(b) - b[i].used_capacity + nb.used_capacity,
        sum_total(b.update(i, nb)) == sum_total(b) - b[i].total_capacity + nb.total_capacity,
    decreases b.len(),
{
    let b2 = b.update(i, nb);
    if i == b.len() - 1 {
        assert(b2.drop_last() =~= b.drop_last());
    } else {
        assert(b2.drop_last() =~= b.drop_last().update(i, nb));
        lemma_sum_used_update(b.drop_last(), i, nb);
    }
}

/// `o` is the slot of an entry of `m` whose key is not in `keep`.
pub open spec fn slot_of_dropped(m: Map<u64, FarmerCacheOffset>, keep: Seq<u64>, o: FarmerCacheOffset) -> bool {
    exists|k: u64| #![trigger m[k]] m.contains_key(k) && !keep.contains(k) && m[k] == o
}

fn vec_contains(v: &Vec<u64>, k: u64) -> (r: bool)
    ensures
        r == v@.contains(k),
{
    let mut i: usize = 0;
    while i < v.len()
        invariant
            i <= v@.len(),
            forall|j: int| 0 <= j < i ==> v@[j] != k,
        decreases v@.len() - i,
    {
        if v[i] == k {
            assert(v@[i as int] == k);
            return true;
        }
        i = i + 1;
    }
    false
}

pub proof fn lemma_sum_used_take_step(b: Seq<CacheBackend>, n: int)
    requires
        0 <= n < b.len(),
    ensures
        sum_used(b.take(n + 1)) == sum_used(b.take(n)) + b[n].used_capacity,
{
    assert(b.take(n + 1).drop_last() =~= b.take(n));
}

/// What taking a slot for a new piece does: the oldest dangling slot goes
/// first; without one, the backend with the most free room (the later one
/// among equals) hands out its next unused slot; the index is left alone.
pub open spec fn popped(
    before: PieceCachesState,
    after: PieceCachesState,
    r: Option<FarmerCacheOffset>,
) -> bool {
    let b = before.backends_view();
    &&& after.stored() == before.stored()
    &&& before.dangling().len() > 0 ==> {
        &&& r == Some(before.dangling()[0])
        &&& after.dangling() == before.dangling().drop_first()
        &&& after.backends_view() == b
    }
    &&& before.dangling().len() == 0 ==> {
        &&& after.dangling() == before.dangling()
        &&& (r.is_none() <==> forall|j: int|
            0 <= j < b.len() ==> (#[trigger] b[j]).spec_free_size() == 0)
        &&& r.is_none() ==> after.backends_view() == b
        &&& r matches Some(o) ==> {
            let c = o.cache_index as int;
            &&& c < b.len()
            &&& o.piece_offset == b[c].used_capacity
            &&& b[c].spec_free_size() > 0
            &&& forall|j: int|
                0 <= j < b.len() ==> (#[trigger] b[j]).spec_free_size() <= b[c].spec_free_size()
            &&& forall|j: int|
                c < j < b.len() ==> (#[trigger] b[j]).spec_free_size() < b[c].spec_free_size()
            &&& after.backends_view() == b.update(
                c,
                CacheBackend { used_capacity: (b[c].used_capacity + 1) as u32, ..b[c] },
            )
        }
    }
    &&& r matches Some(o) ==> {
        &&& offset_valid(o, after.backends_view())
        &&& !after.all_offsets().contains(o)
        &&& after.all_offsets().len() + 1 == before.all_offsets().len() + sum_used(
            after.backends_view(),
        ) - sum_used(b)
        &&& sum_used(after.backends_view()) <= sum_used(b) + 1
    }
}

/// In-memory index of the slots of all backends.
#[derive(Clone, Debug)]
pub struct PieceCachesState {
    stored_pieces: Vec<StoredPiece>,
    dangling_free_offsets: Vec<FarmerCacheOffset>,
    backends: Vec<CacheBackend>,
}

impl PieceCachesState {
    /// The entries of the index, in the order they are kept.
    pub closed spec fn stored(&self) -> Seq<StoredPiece> {
        self.stored_pieces@
    }

    /// Free slots below a backend's high-water mark, first to be reused first.
    pub closed spec fn dangling(&self) -> Seq<FarmerCacheOffset> {
        self.dangling_free_offsets@
    }

    pub closed spec fn backends_view(&self) -> Seq<CacheBackend> {
        self.backends@
    }

    /// Which piece is in which slot.
    pub open spec fn stored_map(&self) -> Map<u64, FarmerCacheOffset> {
        entries_map(self.stored())
    }

    /// Every slot that is accounted for: occupied ones first, then free ones.
    pub open spec fn all_offsets(&self) -> Seq<FarmerCacheOffset> {
        offsets_of(self.stored()) + self.dangling()
    }

    /// Every slot below a high-water mark is either occupied or known free.
    pub open spec fn accounted(&self) -> bool {
        self.all_offsets().len() == sum_used(self.backends_view())
    }

    pub open spec fn wf(&self) -> bool {
        &&& backends_wf(self.backends_view())
        &&& keys_unique(self.stored())
        &&& self.all_offsets().no_duplicates()
        &&& forall|i: int|
            0 <= i < self.all_offsets().len() ==> offset_valid(
                #[trigger] self.all_offsets()[i],
                self.backends_view(),
            )
        &&& sum_total(self.backends_view()) <= u64::MAX
    }

    pub fn new(
        stored_pieces: Vec<StoredPiece>,
        dangling_free_offsets: Vec<FarmerCacheOffset>,
        backends: Vec<CacheBackend>,
    ) -> (r: Self)
        ensures
            r.stored() == stored_pieces@,
            r.dangling() == dangling_free_offsets@,
            r.backends_view() == backends@,
    {
        PieceCachesState { stored_pieces, dangling_free_offsets, backends }
    }

    pub fn default() -> (r: Self)
        ensures
            r.stored().len() == 0,
            r.dangling().len() == 0,
            r.backends_view().len() == 0,
            r.wf(),
            r.accounted(),
    {
        let r = PieceCachesState {
            stored_pieces: Vec::new(),
            dangling_free_offsets: Vec::new(),
            backends: Vec::new(),
        };
        assert(r.all_offsets() =~= Seq::empty());
        r
    }

    /// Sum of the capacities of all backends.
    pub fn total_capacity(&self) -> (r: u64)
        requires
            self.wf(),
        ensures
            r == sum_total(self.backends_view()),
    {
        let mut acc: u64 = 0;
        let mut i: usize = 0;
        while i < self.backends.len()
            invariant
                i <= self.backends@.len(),
                acc == sum_total(self.backends@.take(i as int)),
                sum_total(self.backends@) <= u64::MAX,
            decreases self.backends@.len() - i,
        {
            proof {
                assert(self.backends@.take(i + 1).drop_last() =~= self.backends@.take(i as int));
                lemma_sum_total_prefix(self.backends@, i + 1);
            }
            acc = acc + self.backends[i].total_capacity as u64;
            i = i + 1;
        }
        assert(self.backends@.take(i as int) =~= self.backends@);
        acc
    }

    /// Position of the entry for `key`, if there is one.
    fn find_key(&self, key: u64) -> (r: Option<usize>)
        requires
            keys_unique(self.stored()),
        ensures
            r matches Some(i) ==> i < self.stored().len() && self.stored()[i as int].piece_index
                == key,
            r.is_none() <==> !self.stored_map().contains_key(key),
    {
        proof {
            lemma_entries_map_domain(self.stored_pieces@, key);
        }
        let mut i: usize = 0;
        while i < self.stored_pieces.len()
            invariant
                i <= self.stored_pieces@.len(),
                keys_unique(self.stored_pieces@),
                forall|j: int| 0 <= j < i ==> (#[trigger] self.stored_pieces@[j]).piece_index != key,
            decreases self.stored_pieces@.len() - i,
        {
            if self.stored_pieces[i].piece_index == key {
                proof {
                    lemma_entries_map_value(self.stored_pieces@, i as int);
                }
                return Some(i);
            }
            i = i + 1;
        }
        None
    }

    /// The slot that holds `key`, if any.
    pub fn get_stored_piece(&self, key: u64) -> (r: Option<FarmerCacheOffset>)
        requires
            self.wf(),
        ensures
            r.is_some() <==> self.stored_map().contains_key(key),
            r matches Some(o) ==> o == self.stored_map()[key],
    {
        match self.find_key(key) {
            Some(i) => {
                proof {
                    lemma_entries_map_value(self.stored_pieces@, i as int);
                }
                Some(self.stored_pieces[i].offset)
            },
            None => None,
        }
    }

    pub fn contains_stored_piece(&self, key: u64) -> (r: bool)
        requires
            self.wf(),
        ensures
            r == self.stored_map().contains_key(key),
    {
        self.find_key(key).is_some()
    }

    /// Records that `key` is in slot `cache_offset`, and hands back the slot it
    /// was in before, which the caller must release.
    pub fn push_stored_piece(&mut self, key: u64, cache_offset: FarmerCacheOffset) -> (r: Option<
        FarmerCacheOffset,
    >)
        requires
            old(self).wf(),
            offset_valid(cache_offset, old(self).backends_view()),
            !old(self).all_offsets().contains(cache_offset),
        ensures
            final(self).wf(),
            final(self).stored_map() == old(self).stored_map().insert(key, cache_offset),
            r.is_some() <==> old(self).stored_map().contains_key(key),
            r matches Some(o) ==> {
                &&& o == old(self).stored_map()[key]
                &&& offset_valid(o, final(self).backends_view())
                &&& !final(self).all_offsets().contains(o)
                &&& old(self).all_offsets().contains(o)
            },
            final(self).dangling() == old(self).dangling(),
            final(self).backends_view() == old(self).backends_view(),
            final(self).all_offsets().len() == old(self).all_offsets().len() + if r.is_some() {
                0int
            } else {
                1int
            },
            forall|x: FarmerCacheOffset|
                #[trigger] final(self).all_offsets().contains(x) ==> x == cache_offset
                    || old(self).all_offsets().contains(x),
    {
        let ghost all = self.all_offsets();
        let ghost s = self.stored_pieces@;
        match self.find_key(key) {
            Some(i) => {
                let previous = self.stored_pieces[i].offset;
                proof {
                    lemma_entries_map_value(s, i as int);
                    lemma_entries_map_update(s, i as int, cache_offset);
                    assert(all[i as int] == previous);
                    assert(all.contains(previous));
                }
                self.stored_pieces.set(i, StoredPiece { piece_index: key, offset: cache_offset });
                proof {
                    let all2 = self.all_offsets();
                    assert(all2 =~= all.update(i as int, cache_offset));
                    assert(keys_unique(self.stored_pieces@));
                    assert forall|a: int, b: int|
                        0 <= a < all2.len() && 0 <= b < all2.len() && a != b implies all2[a]
                            != all2[b] by {
                        if a != i && b != i {
                            assert(all2[a] == all[a] && all2[b] == all[b]);
                        } else if a == i {
                            assert(all.contains(all[b]));
                        } else {
                            assert(all.contains(all[a]));
                        }
                    }
                    assert forall|j: int| 0 <= j < all2.len() implies offset_valid(
                        #[trigger] all2[j],
                        self.backends@,
                    ) by {
                        if j != i {
                            assert(all2[j] == all[j]);
                        }
                    }
                    assert forall|j: int| 0 <= j < all2.len() implies all2[j] != previous by {
                        if j != i {
                            assert(all[j] != all[i as int]);
                        }
                    }
                    assert forall|x: FarmerCacheOffset| #[trigger] all2.contains(x) implies x
                        == cache_offset || all.contains(x) by {
                        let j = choose|j: int| 0 <= j < all2.len() && all2[j] == x;
                        if j != i {
                            assert(all[j] == x);
                        }
                    }
                }
                Some(previous)
            },
            None => {
                self.stored_pieces.push(StoredPiece { piece_index: key, offset: cache_offset });
                proof {
                    let s2 = self.stored_pieces@;
                    assert(s2.drop_last() =~= s);
                    let all2 = self.all_offsets();
                    let n = s.len() as int;
                    assert(all2 =~= all.insert(n, cache_offset));
                    lemma_entries_map_domain(s, key);
                    assert forall|a: int, b: int|
                        0 <= a < s2.len() && 0 <= b < s2.len() && a != b implies s2[a].piece_index
                            != s2[b].piece_index by {
                        if a == n {
                            assert(s[b] == s2[b]);
                        } else if b == n {
                            assert(s[a] == s2[a]);
                        } else {
                            assert(s[a] == s2[a] && s[b] == s2[b]);
                        }
                    }
                    assert forall|a: int, b: int|
                        0 <= a < all2.len() && 0 <= b < all2.len() && a != b implies all2[a]
                            != all2[b] by {
                        let pa = if a < n { a } else { a - 1 };
                        let pb = if b < n { b } else { b - 1 };
                        if a != n && b != n {
                            assert(all2[a] == all[pa] && all2[b] == all[pb]);
                        } else if a == n {
                            assert(all2[b] == all[pb]);
                            assert(all.contains(all[pb]));
                        } else {
                            assert(all2[a] == all[pa]);
                            assert(all.contains(all[pa]));
                        }
                    }
                    assert forall|j: int| 0 <= j < all2.len() implies offset_valid(
                        #[trigger] all2[j],
                        self.backends@,
                    ) by {
                        if j < n {
                            assert(all2[j] == all[j]);
                        } else if j > n {
                            assert(all2[j] == all[j - 1]);
                        }
                    }
                    assert forall|x: FarmerCacheOffset| #[trigger] all2.contains(x) implies x
                        == cache_offset || all.contains(x) by {
                        let j = choose|j: int| 0 <= j < all2.len() && all2[j] == x;
                        if j < n {
                            assert(all[j] == x);
                        } else if j > n {
                            assert(all[j - 1] == x);
                        }
                    }
                }
                None
            },
        }
    }

    /// Forgets where `key` is, and hands back its slot, which the caller must
    /// release.
    pub fn remove_stored_piece(&mut self, key: u64) -> (r: Option<FarmerCacheOffset>)
        requires
            old(self).wf(),
        ensures
            final(self).wf(),
            final(self).stored_map() == old(self).stored_map().remove(key),
            r.is_some() <==> old(self).stored_map().contains_key(key),
            r matches Some(o) ==> {
                &&& o == old(self).stored_map()[key]
                &&& offset_valid(o, final(self).backends_view())
                &&& !final(self).all_offsets().contains(o)
                &&& final(self).all_offsets().len() + 1 == old(self).all_offsets().len()
            },
            r.is_none() ==> final(self).stored() == old(self).stored(),
            final(self).dangling() == old(self).dangling(),
            final(self).backends_view() == old(self).backends_view(),
    {
        let ghost all = self.all_offsets();
        let ghost s = self.stored_pieces@;
        match self.find_key(key) {
            Some(i) => {
                proof {
                    lemma_entries_map_value(s, i as int);
                    lemma_entries_map_remove(s, i as int);
                }
                let removed = self.stored_pieces.remove(i);
                proof {
                    let all2 = self.all_offsets();
                    assert(all2 =~= all.remove(i as int));
                    assert(all[i as int] == removed.offset);
                    assert forall|a: int, b: int|
                        0 <= a < all2.len() && 0 <= b < all2.len() && a != b implies all2[a]
                            != all2[b] by {
                        let pa = if a < i { a } else { a + 1 };
                        let pb = if b < i { b } else { b + 1 };
                        assert(all2[a] == all[pa] && all2[b] == all[pb]);
                    }
                    assert forall|j: int| 0 <= j < all2.len() implies offset_valid(
                        #[trigger] all2[j],
                        self.backends@,
                    ) by {
                        let pj = if j < i { j } else { j + 1 };
                        assert(all2[j] == all[pj]);
                    }
                    assert forall|j: int| 0 <= j < all2.len() implies all2[j] != removed.offset by {
                        let pj = if j < i { j } else { j + 1 };
                        assert(all2[j] == all[pj]);
                    }
                }
                Some(removed.offset)
            },
            None => None,
        }
    }

    /// A slot for a new piece: the oldest dangling free slot if there is one,
    /// else the next unused slot of the backend with the most free room (the
    /// later backend among equals).
    pub fn pop_free_offset(&mut self) -> (r: Option<FarmerCacheOffset>)
        requires
            old(self).wf(),
        ensures
            final(self).wf(),
            popped(*old(self), *final(self), r),
    {
        let ghost all = self.all_offsets();
        let ghost s = self.stored_pieces@;
        if self.dangling_free_offsets.len() > 0 {
            let free_offset = self.dangling_free_offsets.remove(0);
            proof {
                let n = s.len() as int;
                let all2 = self.all_offsets();
                assert(all2 =~= all.remove(n));
                assert(all[n] == free_offset);
                assert forall|a: int, b: int|
                    0 <= a < all2.len() && 0 <= b < all2.len() && a != b implies all2[a]
                        != all2[b] by {
                    let pa = if a < n { a } else { a + 1 };
                    let pb = if b < n { b } else { b + 1 };
                    assert(all2[a] == all[pa] && all2[b] == all[pb]);
                }
                assert forall|j: int| 0 <= j < all2.len() implies offset_valid(
                    #[trigger] all2[j],
                    self.backends@,
                ) by {
                    let pj = if j < n { j } else { j + 1 };
                    assert(all2[j] == all[pj]);
                }
                assert forall|j: int| 0 <= j < all2.len() implies all2[j] != free_offset by {
                    let pj = if j < n { j } else { j + 1 };
                    assert(all2[j] == all[pj]);
                }
                assert(all.contains(free_offset));
            }
            return Some(free_offset);
        }
        let ghost b = self.backends@;
        let n = self.backends.len();
        let mut best: usize = 0;
        let mut best_free: u32 = 0;
        let mut i: usize = 0;
        while i < n
            invariant
                n == b.len(),
                b == self.backends@,
                backends_wf(b),
                i <= n,
                i > 0 ==> best < i && best_free == b[best as int].spec_free_size(),
                i == 0 ==> best_free == 0,
                forall|j: int| 0 <= j < i ==> (#[trigger] b[j]).spec_free_size() <= best_free,
                forall|j: int| best < j < i ==> (#[trigger] b[j]).spec_free_size() < best_free,
            decreases n - i,
        {
            let f = self.backends[i].free_size();
            if f >= best_free {
                best = i;
                best_free = f;
            }
            i = i + 1;
        }
        if best_free == 0 {
            return None;
        }
        let mut backend = self.backends[best];
        let piece_offset = backend.next_free();
        self.backends.set(best, backend);
        match piece_offset {
            Some(piece_offset) => {
                let offset = FarmerCacheOffset::new(best, piece_offset);
                proof {
                    lemma_sum_used_update(b, best as int, backend);
                    let b2 = self.backends@;
                    assert(backends_wf(b2));
                    let all2 = self.all_offsets();
                    assert(all2 == all);
                    assert forall|j: int| 0 <= j < all2.len() implies offset_valid(
                        #[trigger] all2[j],
                        b2,
                    ) by {
                        assert(offset_valid(all[j], b));
                    }
                    assert forall|j: int| 0 <= j < all2.len() implies all2[j] != offset by {
                        assert(offset_valid(all[j], b));
                    }
                }
                Some(offset)
            },
            None => None,
        }
    }

    /// Drops every entry whose key is not in `piece_indices_to_store`, releasing
    /// its slot, and takes out of `piece_indices_to_store` every key that stays,
    /// so that what is left there still has to be downloaded.
    pub fn free_unneeded_stored_pieces(&mut self, piece_indices_to_store: &mut Vec<u64>)
        requires
            old(self).wf(),
        ensures
            final(self).wf(),
            final(self).backends_view() == old(self).backends_view(),
            final(self).stored_map() == old(self).stored_map().restrict(
                old(piece_indices_to_store)@.to_set(),
            ),
            final(piece_indices_to_store)@ == old(piece_indices_to_store)@.filter(
                |k: u64| !old(self).stored_map().contains_key(k),
            ),
            final(self).all_offsets().len() == old(self).all_offsets().len(),
            final(self).dangling().len() >= old(self).dangling().len(),
            final(self).dangling().subrange(0, old(self).dangling().len() as int)
                == old(self).dangling(),
            forall|k: u64|
                old(self).stored_map().contains_key(k) && !old(piece_indices_to_store)@.contains(k)
                    ==> final(self).dangling().contains(#[trigger] old(self).stored_map()[k]),
            forall|j: int|
                old(self).dangling().len() <= j < final(self).dangling().len() ==> slot_of_dropped(
                    old(self).stored_map(),
                    old(piece_indices_to_store)@,
                    #[trigger] final(self).dangling()[j],
                ),
    {
        let ghost old_s = self.stored_pieces@;
        let ghost old_d = self.dangling_free_offsets@;
        let ghost old_b = self.backends@;
        let ghost all = self.all_offsets();
        let ghost d0 = piece_indices_to_store@;
        let ghost ds = d0.to_set();
        let mut kept: Vec<StoredPiece> = Vec::new();
        let ghost mut kpos: Seq<int> = Seq::empty();
        let ghost mut fpos: Seq<int> = Seq::empty();
        let mut i: usize = 0;
        while i < self.stored_pieces.len()
            invariant
                self.stored_pieces@ == old_s,
                self.backends@ == old_b,
                keys_unique(old_s),
                piece_indices_to_store@ == d0,
                ds == d0.to_set(),
                i <= old_s.len(),
                self.dangling_free_offsets@.len() == old_d.len() + fpos.len(),
                self.dangling_free_offsets@.subrange(0, old_d.len() as int) == old_d,
                kept@.len() == kpos.len(),
                kept@.len() + fpos.len() == i,
                forall|a: int|
                    0 <= a < kpos.len() ==> 0 <= #[trigger] kpos[a] < i && kept@[a] == old_s[kpos[a]]
                        && d0.contains(old_s[kpos[a]].piece_index),
                forall|a: int, b: int| 0 <= a < b < kpos.len() ==> kpos[a] < kpos[b],
                forall|a: int|
                    0 <= a < fpos.len() ==> 0 <= #[trigger] fpos[a] < i
                        && self.dangling_free_offsets@[old_d.len() + a] == old_s[fpos[a]].offset
                        && !d0.contains(old_s[fpos[a]].piece_index),
                forall|a: int, b: int| 0 <= a < b < fpos.len() ==> fpos[a] < fpos[b],
                forall|p: int|
                    0 <= p < i && !d0.contains(#[trigger] old_s[p].piece_index) ==> exists|a: int|
                        0 <= a < fpos.len() && fpos[a] == p,
                entries_map(kept@) == entries_map(old_s.take(i as int)).restrict(ds),
            decreases old_s.len() - i,
        {
            let e = self.stored_pieces[i];
            let ghost m = entries_map(old_s.take(i as int));
            proof {
                assert(old_s.take(i + 1).drop_last() =~= old_s.take(i as int));
                assert(entries_map(old_s.take(i + 1)) == m.insert(e.piece_index, e.offset));
            }
            if vec_contains(piece_indices_to_store, e.piece_index) {
                let ghost k0 = kept@;
                kept.push(e);
                proof {
                    assert(kept@.drop_last() =~= k0);
                    assert(m.insert(e.piece_index, e.offset).restrict(ds) =~= m.restrict(ds).insert(
                        e.piece_index,
                        e.offset,
                    ));
                    kpos = kpos.push(i as int);
                    assert forall|p: int|
                        0 <= p < i + 1 && !d0.contains(#[trigger] old_s[p].piece_index) implies exists|a: int|
                            0 <= a < fpos.len() && fpos[a] == p by {
                        if p == i {
                            assert(d0.contains(old_s[p].piece_index));
                        }
                    }
                }
            } else {
                self.dangling_free_offsets.push(e.offset);
                proof {
                    assert(!ds.contains(e.piece_index));
                    assert(m.insert(e.piece_index, e.offset).restrict(ds) =~= m.restrict(ds));
                    let f0 = fpos;
                    fpos = fpos.push(i as int);
                    assert(fpos[fpos.len() - 1] == i);
                    assert forall|p: int|
                        0 <= p < i + 1 && !d0.contains(#[trigger] old_s[p].piece_index) implies exists|a: int|
                            0 <= a < fpos.len() && fpos[a] == p by {
                        if p < i {
                            let a = choose|a: int| 0 <= a < f0.len() && f0[a] == p;
                            assert(fpos[a] == p);
                        } else {
                            assert(fpos[fpos.len() - 1] == p);
                        }
                    }
                }
            }
            i = i + 1;
        }
        proof {
            assert(old_s.take(i as int) =~= old_s);
        }
        let ghost old_map = entries_map(old_s);
        self.stored_pieces = kept;
        proof {
            let s2 = self.stored_pieces@;
            let d2 = self.dangling_free_offsets@;
            let all2 = self.all_offsets();
            let nk = s2.len() as int;
            let nd = old_d.len() as int;
            let ns = old_s.len() as int;
            assert(all2.len() == all.len());
            let pos = |j: int|
                if j < nk {
                    kpos[j]
                } else if j < nk + nd {
                    ns + (j - nk)
                } else {
                    fpos[j - nk - nd]
                };
            assert forall|j: int| 0 <= j < all2.len() implies 0 <= #[trigger] pos(j) < all.len()
                && all2[j] == all[pos(j)] by {
                if j < nk {
                    assert(all2[j] == s2[j].offset);
                } else if j < nk + nd {
                    assert(all2[j] == d2[j - nk]);
                    assert(d2[j - nk] == d2.subrange(0, nd)[j - nk]);
                } else {
                    assert(all2[j] == d2[j - nk]);
                    assert(d2[nd + (j - nk - nd)] == old_s[fpos[j - nk - nd]].offset);
                }
            }
            assert forall|a: int, b: int|
                0 <= a < all2.len() && 0 <= b < all2.len() && a != b implies all2[a] != all2[b] by {
                assert(all2[a] == all[pos(a)] && all2[b] == all[pos(b)]);
                if a < nk && b >= nk + nd {
                    assert(kpos[a] != fpos[b - nk - nd]);
                } else if b < nk && a >= nk + nd {
                    assert(kpos[b] != fpos[a - nk - nd]);
                } else if a < nk && b < nk {
                    if a < b {
                        assert(kpos[a] < kpos[b]);
                    } else {
                        assert(kpos[b] < kpos[a]);
                    }
                } else if a >= nk + nd && b >= nk + nd {
                    if a < b {
                        assert(fpos[a - nk - nd] < fpos[b - nk - nd]);
                    } else {
                        assert(fpos[b - nk - nd] < fpos[a - nk - nd]);
                    }
                }
                assert(pos(a) != pos(b));
            }
            assert forall|j: int| 0 <= j < all2.len() implies offset_valid(
                #[trigger] all2[j],
                self.backends@,
            ) by {
                assert(all2[j] == all[pos(j)]);
            }
            assert forall|a: int, b: int|
                0 <= a < s2.len() && 0 <= b < s2.len() && a != b implies s2[a].piece_index
                    != s2[b].piece_index by {
                if a < b {
                    assert(kpos[a] < kpos[b]);
                } else {
                    assert(kpos[b] < kpos[a]);
                }
            }
            assert(d2.subrange(0, nd) == old_d);
            assert forall|k: u64|
                old_map.contains_key(k) && !d0.contains(k) implies d2.contains(
                #[trigger] old_map[k],
            ) by {
                lemma_entries_map_domain(old_s, k);
                let p = choose|p: int| 0 <= p < old_s.len() && (#[trigger] old_s[p]).piece_index == k;
                lemma_entries_map_value(old_s, p);
                let a = choose|a: int| 0 <= a < fpos.len() && fpos[a] == p;
                assert(d2[nd + a] == old_map[k]);
            }
            assert forall|j: int| nd <= j < d2.len() implies slot_of_dropped(
                old_map,
                d0,
                #[trigger] d2[j],
            ) by {
                let p = fpos[j - nd];
                lemma_entries_map_value(old_s, p);
                assert(old_map[old_s[p].piece_index] == d2[j]);
            }
        }
        let mut remaining: Vec<u64> = Vec::new();
        let mut j: usize = 0;
        while j < piece_indices_to_store.len()
            invariant
                piece_indices_to_store@ == d0,
                self.wf(),
                self.stored_map() == old_map.restrict(ds),
                ds == d0.to_set(),
                j <= d0.len(),
                remaining@ == d0.take(j as int).filter(|k: u64| !old_map.contains_key(k)),
            decreases d0.len() - j,
        {
            let k = piece_indices_to_store[j];
            let stays = self.contains_stored_piece(k);
            proof {
                reveal(Seq::filter);
                assert(d0.take(j + 1).drop_last() =~= d0.take(j as int));
                assert(d0.take(j + 1).last() == k);
                assert(ds.contains(k));
            }
            if !stays {
                remaining.push(k);
            }
            j = j + 1;
        }
        proof {
            assert(d0.take(j as int) =~= d0);
        }
        *piece_indices_to_store = remaining;
    }

    /// Every indexed slot is a valid slot.
    pub proof fn lemma_stored_valid(&self, key: u64)
        requires
            self.wf(),
            self.stored_map().contains_key(key),
        ensures
            offset_valid(self.stored_map()[key], self.backends_view()),
            self.all_offsets().contains(self.stored_map()[key]),
    {
        lemma_entries_map_domain(self.stored_pieces@, key);
        let i = choose|i: int| 0 <= i < self.stored_pieces@.len() && (#[trigger] self.stored_pieces@[i]).piece_index == key;
        lemma_entries_map_value(self.stored_pieces@, i);
        assert(self.all_offsets()[i] == self.stored_pieces@[i].offset);
    }

    /// Whether `offset` is occupied or dangling.
    pub fn holds_offset(&self, offset: FarmerCacheOffset) -> (r: bool)
        ensures
            r == self.all_offsets().contains(offset),
    {
        let mut i: usize = 0;
        while i < self.stored_pieces.len()
            invariant
                i <= self.stored_pieces@.len(),
                forall|j: int| 0 <= j < i ==> self.all_offsets()[j] != offset,
            decreases self.stored_pieces@.len() - i,
        {
            if self.stored_pieces[i].offset == offset {
                assert(self.all_offsets()[i as int] == offset);
                return true;
            }
            i = i + 1;
        }
        let mut j: usize = 0;
        while j < self.dangling_free_offsets.len()
            invariant
                i == self.stored_pieces@.len(),
                j <= self.dangling_free_offsets@.len(),
                forall|k: int| 0 <= k < i + j ==> self.all_offsets()[k] != offset,
            decreases self.dangling_free_offsets@.len() - j,
        {
            if self.dangling_free_offsets[j] == offset {
                assert(self.all_offsets()[i + j] == offset);
                return true;
            }
            j = j + 1;
        }
        proof {
            if self.all_offsets().contains(offset) {
                let k = choose|k: int| 0 <= k < self.all_offsets().len() && self.all_offsets()[k] == offset;
                assert(k < i + j);
            }
        }
        false
    }

    /// The slots of all indexed pieces, in index order.
    pub fn stored_pieces_offests(&self) -> (r: Vec<FarmerCacheOffset>)
        ensures
            r@ == offsets_of(self.stored()),
    {
        let mut r: Vec<FarmerCacheOffset> = Vec::new();
        let mut i: usize = 0;
        while i < self.stored_pieces.len()
            invariant
                i <= self.stored_pieces@.len(),
                r@ == offsets_of(self.stored_pieces@.take(i as int)),
            decreases self.stored_pieces@.len() - i,
        {
            r.push(self.stored_pieces[i].offset);
            proof {
                assert(offsets_of(self.stored_pieces@.take(i + 1)) =~= offsets_of(
                    self.stored_pieces@.take(i as int),
                ).push(self.stored_pieces@[i as int].offset));
            }
            i = i + 1;
        }
        assert(self.stored_pieces@.take(i as int) =~= self.stored_pieces@);
        r
    }

    /// The dangling free slots, first to be reused first.
    pub fn dangling_free_offsets(&self) -> (r: &Vec<FarmerCacheOffset>)
        ensures
            r@ == self.dangling(),
    {
        &self.dangling_free_offsets
    }

    /// Releases a slot for reuse.
    pub fn push_dangling_free_offset(&mut self, offset: FarmerCacheOffset)
        requires
            old(self).wf(),
            offset_valid(offset, old(self).backends_view()),
            !old(self).all_offsets().contains(offset),
        ensures
            final(self).wf(),
            final(self).stored() == old(self).stored(),
            final(self).dangling() == old(self).dangling().push(offset),
            final(self).backends_view() == old(self).backends_view(),
            final(self).all_offsets() == old(self).all_offsets().push(offset),
    {
        let ghost all = self.all_offsets();
        self.dangling_free_offsets.push(offset);
        proof {
            let all2 = self.all_offsets();
            assert(all2 =~= all.push(offset));
            assert forall|a: int, b: int|
                0 <= a < all2.len() && 0 <= b < all2.len() && a != b implies all2[a] != all2[b] by {
                if a < all.len() && b < all.len() {
                    assert(all2[a] == all[a] && all2[b] == all[b]);
                } else if a < all.len() {
                    assert(all.contains(all[a]));
                } else {
                    assert(all.contains(all[b]));
                }
            }
            assert forall|j: int| 0 <= j < all2.len() implies offset_valid(
                #[trigger] all2[j],
                self.backends@,
            ) by {
                if j < all.len() {
                    assert(all2[j] == all[j]);
                }
            }
        }
    }

    pub fn get_backend(&self, cache_index: usize) -> (r: Option<CacheBackend>)
        ensures
            r.is_some() <==> cache_index < self.backends_view().len(),
            r matches Some(b) ==> b == self.backends_view()[cache_index as int],
    {
        if cache_index < self.backends.len() {
            Some(self.backends[cache_index])
        } else {
            None
        }
    }

    pub fn backends(&self) -> (r: &Vec<CacheBackend>)
        ensures
            r@ == self.backends_view(),
    {
        &self.backends
    }

    /// Drops the backends and hands back the two emptied collections, so that
    /// the next state can reuse them.
    pub fn reuse(self) -> (r: (Vec<StoredPiece>, Vec<FarmerCacheOffset>))
        ensures
            r.0@.len() == 0,
            r.1@.len() == 0,
    {
        let PieceCachesState { mut stored_pieces, mut dangling_free_offsets, backends: _ } = self;
        stored_pieces.clear();
        dangling_free_offsets.clear();
        (stored_pieces, dangling_free_offsets)
    }
}

proof fn lemma_sum_total_prefix(b: Seq<CacheBackend>, n: int)
    requires
        0 <= n <= b.len(),
    ensures
        sum_total(b.take(n)) <= sum_total(b),
    decreases b.len(),
{
    if n < b.len() {
        assert(b.drop_last().take(n) =~= b.take(n));
        lemma_sum_total_prefix(b.drop_last(), n);
    } else {
        assert(b.take(n) =~= b);
    }
}

} // verus!
