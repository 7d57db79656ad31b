//! The record store and its searches.

use std::collections::HashMap;
use vstd::prelude::*;

use crate::copying::{copy_opt_bytes, copy_words, opt_bytes_view};
use crate::counter::{bump, bumped, bumped_by};
use crate::ds20code::distance::DistanceMetric;
use crate::float_bits::{distance_key, distance_keys, is_nan, is_nan_bits, keys_of, order_key};
use crate::glm5::error::Error;
use crate::ranking::{min_nat, ranks_first, top_k};

verus! {

broadcast use vstd::std_specs::hash::group_hash_axioms;

/// A stored vector: its id, its components (each `f32` by its bit pattern)
/// and optional metadata bytes.
#[derive(Debug)]
pub struct VectorEntry {
    pub id: u64,
    pub vector: Vec<u32>,
    pub metadata: Option<Vec<u8>>,
}

/// What a stored vector holds.
pub struct EntryView {
    pub id: u64,
    pub vector: Seq<u32>,
    pub metadata: Option<Seq<u8>>,
}

impl View for VectorEntry {
    type V = EntryView;

    open spec fn view(&self) -> EntryView {
        EntryView { id: self.id, vector: self.vector@, metadata: opt_bytes_view(self.metadata) }
    }
}

impl VectorEntry {
    /// A copy of the entry.
    pub fn copy(&self) -> (r: VectorEntry)
        ensures
            r@ == self@,
    {
        VectorEntry {
            id: self.id,
            vector: copy_words(self.vector.as_slice()),
            metadata: copy_opt_bytes(&self.metadata),
        }
    }
}

/// One search hit: the id, the distance (`f32` bit pattern) and the metadata.
#[derive(Debug)]
pub struct SearchResult {
    pub id: u64,
    pub distance: u32,
    pub metadata: Option<Vec<u8>>,
}

/// What a search hit holds.
pub struct SearchResultView {
    pub id: u64,
    pub distance: u32,
    pub metadata: Option<Seq<u8>>,
}

impl View for SearchResult {
    type V = SearchResultView;

    open spec fn view(&self) -> SearchResultView {
        SearchResultView { id: self.id, distance: self.distance, metadata: opt_bytes_view(self.metadata) }
    }
}

/// Operation counters.
#[derive(Debug, Clone, Copy, PartialEq, Eq, Structural)]
pub struct Stats {
    pub insert_count: u64,
    pub delete_count: u64,
    pub search_count: u64,
    pub get_count: u64,
}

impl Stats {
    /// All counters at zero.
    pub open spec fn zero() -> Stats {
        Stats { insert_count: 0, delete_count: 0, search_count: 0, get_count: 0 }
    }
}

impl Default for Stats {
    /// All counters at zero.
    fn default() -> (s: Self)
        ensures
            s == Stats::zero(),
    {
        Stats { insert_count: 0, delete_count: 0, search_count: 0, get_count: 0 }
    }
}

/// Some entry of the sequence has this id.
pub open spec fn contains_id(entries: Seq<EntryView>, id: u64) -> bool {
    exists|i: int| 0 <= i < entries.len() && (#[trigger] entries[i]).id == id
}

/// The position of the entry with this id.
pub open spec fn slot_of(entries: Seq<EntryView>, id: u64) -> int {
    choose|i: int| 0 <= i < entries.len() && (#[trigger] entries[i]).id == id
}

/// The entry with this id, if any.
pub open spec fn lookup(entries: Seq<EntryView>, id: u64) -> Option<EntryView> {
    if contains_id(entries, id) {
        Some(entries[slot_of(entries, id)])
    } else {
        None
    }
}

/// No two entries share an id.
pub open spec fn unique_ids(entries: Seq<EntryView>) -> bool {
    forall|i: int, j: int|
        0 <= i < entries.len() && 0 <= j < entries.len() && i != j ==> (#[trigger] entries[i]).id
            != (#[trigger] entries[j]).id
}

/// The sequence after `Vec::swap_remove` at `i`: the last entry takes the
/// place of entry `i`.
pub open spec fn swap_removed(entries: Seq<EntryView>, i: int) -> Seq<EntryView> {
    entries.update(i, entries.last()).drop_last()
}

/// The hits of a search: the entries at the ranked positions, each with its
/// distance.
pub open spec fn hits_at(
    entries: Seq<EntryView>,
    distances: Seq<u32>,
    slots: Seq<usize>,
    res: Seq<SearchResultView>,
) -> bool {
    &&& res.len() == slots.len()
    &&& forall|i: int|
        0 <= i < res.len() ==> {
            let e = entries[#[trigger] slots[i] as int];
            &&& res[i].id == e.id
            &&& res[i].distance == distances[slots[i] as int]
            &&& res[i].metadata == e.metadata
        }
}

/// `res` is what a search returns: the `k` entries of largest distance,
/// largest first (ties in entry order).
pub open spec fn search_hits(entries: Seq<EntryView>, distances: Seq<u32>, k: nat, res: Seq<SearchResultView>) -> bool {
    exists|slots: Seq<usize>|
        ranks_first(keys_of(distances), true, k, slots) && hits_at(entries, distances, slots, res)
}

/// The views of a sequence of hits.
pub open spec fn hits_view(v: Seq<SearchResult>) -> Seq<SearchResultView> {
    v.map_values(|r: SearchResult| r@)
}

/// The hits that a threshold keeps: those whose distance is not below it
/// as `f32` values (neither a NaN distance nor a NaN threshold keeps any).
pub open spec fn kept_by(threshold: u32, r: SearchResultView) -> bool {
    !is_nan_bits(threshold) && !is_nan_bits(r.distance) && order_key(r.distance) >= order_key(threshold)
}

/// The hits whose distance is at least the threshold, in order.
fn keep_at_least(all: &Vec<SearchResult>, threshold: u32) -> (kept: Vec<SearchResult>)
    ensures
        hits_view(kept@) == hits_view(all@).filter(|h: SearchResultView| kept_by(threshold, h)),
{
    let nan = is_nan(threshold);
    let tkey = distance_key(threshold);
    let mut kept: Vec<SearchResult> = Vec::new();
    let mut i: usize = 0;
    while i < all.len()
        invariant
            i <= all@.len(),
            nan == is_nan_bits(threshold),
            tkey == order_key(threshold),
            hits_view(kept@) == hits_view(all@).subrange(0, i as int).filter(
                |h: SearchResultView| kept_by(threshold, h),
            ),
        decreases all@.len() - i,
    {
        let h = &all[i];
        let dk = distance_key(h.distance);
        let keep = !nan && !is_nan(h.distance) && dk >= tkey;
        proof {
            let s = hits_view(all@);
            assert(s.subrange(0, i + 1).drop_last() == s.subrange(0, i as int));
            assert(s.subrange(0, i + 1).last() == h@);
            reveal_with_fuel(Seq::<_>::filter, 1);
            assert(h@.distance == h.distance);
            assert(keep == kept_by(threshold, h@));
        }
        let ghost before = kept@;
        if keep {
            kept.push(SearchResult { id: h.id, distance: h.distance, metadata: copy_opt_bytes(&h.metadata) });
            proof {
                assert(hits_view(kept@) =~= hits_view(before).push(h@));
            }
        }
        i += 1;
    }
    proof {
        assert(hits_view(all@).subrange(0, all@.len() as int) == hits_view(all@));
    }
    kept
}

/// An in-memory database of vectors of one dimension, keyed by `u64` ids.
pub struct VectorDB {
    entries: Vec<VectorEntry>,
    id_index: HashMap<u64, usize>,
    dimension: usize,
    metric: DistanceMetric,
    stats: Stats,
    enable_stats: bool,
}

impl View for VectorDB {
    type V = Seq<EntryView>;

    /// The stored entries, in storage order.
    closed spec fn view(&self) -> Seq<EntryView> {
        self.entries@.map_values(|e: VectorEntry| e@)
    }
}

impl VectorDB {
    /// The dimension every stored vector has.
    pub closed spec fn spec_dimension(&self) -> usize {
        self.dimension
    }

    /// The metric the distances are measured by.
    pub closed spec fn spec_metric(&self) -> DistanceMetric {
        self.metric
    }

    /// The operation counters.
    pub closed spec fn spec_stats(&self) -> Stats {
        self.stats
    }

    /// Whether operations are counted.
    pub closed spec fn spec_stats_enabled(&self) -> bool {
        self.enable_stats
    }

    /// The index maps each stored id to its entry's position; ids are
    /// unique and every vector has the database's dimension.
    pub closed spec fn wf(&self) -> bool {
        &&& forall|i: int|
            0 <= i < self.entries@.len() ==> {
                &&& self.id_index@.contains_key(#[trigger] self.entries@[i].id)
                &&& self.id_index@[self.entries@[i].id] == i
                &&& self.entries@[i].vector@.len() == self.dimension
            }
        &&& forall|id: u64|
            #[trigger] self.id_index@.contains_key(id) ==> {
                &&& self.id_index@[id] < self.entries@.len()
                &&& self.entries@[self.id_index@[id] as int].id == id
            }
    }

    /// A sound database holds no id twice.
    pub proof fn lemma_unique_ids(&self)
        requires
            self.wf(),
        ensures
            unique_ids(self@),
    {
        self.lemma_wf_facts();
    }

    proof fn lemma_wf_facts(&self)
        requires
            self.wf(),
        ensures
            unique_ids(self@),
            self@.len() == self.entries@.len(),
            forall|i: int| 0 <= i < self@.len() ==> (#[trigger] self@[i]).vector.len() == self.dimension,
            forall|id: u64| #[trigger] contains_id(self@, id) <==> self.id_index@.contains_key(id),
            forall|id: u64|
                #[trigger] self.id_index@.contains_key(id) ==> slot_of(self@, id) == self.id_index@[id] as int,
    {
        assert forall|i: int, j: int|
            0 <= i < self@.len() && 0 <= j < self@.len() && i != j implies (#[trigger] self@[i]).id
            != (#[trigger] self@[j]).id by {
            assert(self.id_index@[self.entries@[i].id] == i);
            assert(self.id_index@[self.entries@[j].id] == j);
        }
        assert forall|id: u64| #[trigger] contains_id(self@, id) <==> self.id_index@.contains_key(id) by {
            if self.id_index@.contains_key(id) {
                let i = self.id_index@[id] as int;
                assert(self@[i].id == id);
            }
            if contains_id(self@, id) {
                let i = choose|i: int| 0 <= i < self@.len() && (#[trigger] self@[i]).id == id;
                assert(self.entries@[i].id == id);
            }
        }
        assert forall|id: u64| #[trigger]
            self.id_index@.contains_key(id) implies slot_of(self@, id) == self.id_index@[id] as int by {
            let i = self.id_index@[id] as int;
            assert(self@[i].id == id);
            assert(contains_id(self@, id));
            let j = slot_of(self@, id);
            assert(self@[j].id == id);
        }
    }

    /// An empty database.
    pub fn new(dimension: usize, metric: DistanceMetric) -> (db: Self)
        ensures
            db.wf(),
            db@ == Seq::<EntryView>::empty(),
            db.spec_dimension() == dimension,
            db.spec_metric() == metric,
            db.spec_stats() == Stats::zero(),
            db.spec_stats_enabled(),
    {
        let db = VectorDB {
            entries: Vec::with_capacity(4096),
            id_index: HashMap::with_capacity(4096),
            dimension,
            metric,
            stats: Stats::default(),
            enable_stats: true,
        };
        proof {
            assert(db@ =~= Seq::<EntryView>::empty());
        }
        db
    }

    /// Stores a vector under a new id.
    ///
    /// Fails with `InvalidDimension` when the vector's length is not the
    /// database's dimension, and then with `DuplicateId` when the id is
    /// already stored; otherwise the entry is appended.
    pub fn insert(&mut self, id: u64, vector: &[u32], metadata: Option<Vec<u8>>) -> (r: Result<(), Error>)
        requires
            old(self).wf(),
        ensures
            final(self).wf(),
            final(self).spec_dimension() == old(self).spec_dimension(),
            final(self).spec_metric() == old(self).spec_metric(),
            final(self).spec_stats_enabled() == old(self).spec_stats_enabled(),
            vector@.len() != old(self).spec_dimension() ==> {
                &&& r == Err::<(), Error>(
                    Error::InvalidDimension { expected: old(self).spec_dimension(), got: vector@.len() as usize },
                )
                &&& final(self)@ == old(self)@
                &&& final(self).spec_stats() == old(self).spec_stats()
            },
            vector@.len() == old(self).spec_dimension() && contains_id(old(self)@, id) ==> {
                &&& r == Err::<(), Error>(Error::DuplicateId(id))
                &&& final(self)@ == old(self)@
                &&& final(self).spec_stats() == old(self).spec_stats()
            },
            vector@.len() == old(self).spec_dimension() && !contains_id(old(self)@, id) ==> {
                &&& r is Ok
                &&& final(self)@ == old(self)@.push(
                    EntryView { id, vector: vector@, metadata: opt_bytes_view(metadata) },
                )
                &&& final(self).spec_stats() == (if old(self).spec_stats_enabled() {
                    Stats { insert_count: bumped(old(self).spec_stats().insert_count), ..old(self).spec_stats() }
                } else {
                    old(self).spec_stats()
                })
            },
    {
        proof {
            self.lemma_wf_facts();
        }
        if vector.len() != self.dimension {
            return Err(Error::InvalidDimension { expected: self.dimension, got: vector.len() });
        }
        if self.id_index.contains_key(&id) {
            return Err(Error::DuplicateId(id));
        }
        let idx = self.entries.len();
        let entry = VectorEntry { id, vector: copy_words(vector), metadata };
        self.entries.push(entry);
        self.id_index.insert(id, idx);
        if self.enable_stats {
            self.stats.insert_count = bump(self.stats.insert_count);
        }
        proof {
            assert(self@ =~= old(self)@.push(EntryView { id, vector: vector@, metadata: opt_bytes_view(metadata) }));
        }
        Ok(())
    }

    /// Removes the entry with this id; the last entry takes its place.
    ///
    /// Fails with `NotFound` when no entry has the id.
    pub fn delete(&mut self, id: u64) -> (r: Result<(), Error>)
        requires
            old(self).wf(),
        ensures
            final(self).wf(),
            final(self).spec_dimension() == old(self).spec_dimension(),
            final(self).spec_metric() == old(self).spec_metric(),
            final(self).spec_stats_enabled() == old(self).spec_stats_enabled(),
            !contains_id(old(self)@, id) ==> {
                &&& r == Err::<(), Error>(Error::NotFound(id))
                &&& final(self)@ == old(self)@
                &&& final(self).spec_stats() == old(self).spec_stats()
            },
            contains_id(old(self)@, id) ==> {
                &&& r is Ok
                &&& final(self)@ == swap_removed(old(self)@, slot_of(old(self)@, id))
                &&& final(self).spec_stats() == (if old(self).spec_stats_enabled() {
                    Stats { delete_count: bumped(old(self).spec_stats().delete_count), ..old(self).spec_stats() }
                } else {
                    old(self).spec_stats()
                })
            },
    {
        proof {
            self.lemma_wf_facts();
        }
        let removed = self.id_index.remove(&id);
        let idx = match removed {
            Some(idx) => idx,
            None => {
                return Err(Error::NotFound(id));
            },
        };
        let ghost old_entries = self.entries@;
        let ghost old_index = old(self).id_index@;
        if idx < self.entries.len() - 1 {
            let _ = self.entries.swap_remove(idx);
            let moved_id = self.entries[idx].id;
            if self.id_index.get(&moved_id).is_some() {
                self.id_index.insert(moved_id, idx);
            }
            proof {
                let last = old_entries.len() - 1;
                assert(self.entries@ == old_entries.update(idx as int, old_entries[last]).drop_last());
                assert(moved_id == old_entries[last].id);
                assert(old_index.contains_key(moved_id));
                assert(moved_id != id);
            }
        } else {
            let _ = self.entries.pop();
        }
        if self.enable_stats {
            self.stats.delete_count = bump(self.stats.delete_count);
        }
        proof {
            let last = old_entries.len() - 1;
            assert(self.entries@ =~= old_entries.update(idx as int, old_entries[last]).drop_last());
            assert forall|i: int|
                0 <= i < self.entries@.len() implies {
                &&& self.id_index@.contains_key(#[trigger] self.entries@[i].id)
                &&& self.id_index@[self.entries@[i].id] == i
                &&& self.entries@[i].vector@.len() == self.dimension
            } by {
                if i != idx {
                    assert(self.entries@[i] == old_entries[i]);
                    assert(old_index[old_entries[i].id] == i);
                    assert(old_entries[i].id != id);
                }
            }
            assert forall|k: u64| #[trigger]
                self.id_index@.contains_key(k) implies {
                &&& self.id_index@[k] < self.entries@.len()
                &&& self.entries@[self.id_index@[k] as int].id == k
            } by {
                assert(old_index.contains_key(k));
                assert(k != id);
                if idx < last && k == old_entries[last].id {
                } else {
                    let j = old_index[k] as int;
                    assert(old_entries[j].id == k);
                    assert(j != idx as int);
                    if j == last {
                        assert(idx == last);
                    }
                }
            }
            assert(self@ =~= swap_removed(old(self)@, slot_of(old(self)@, id)));
        }
        Ok(())
    }

    /// The entry with this id, if any.
    pub fn get(&mut self, id: u64) -> (r: Option<VectorEntry>)
        requires
            old(self).wf(),
        ensures
            final(self).wf(),
            final(self)@ == old(self)@,
            final(self).spec_dimension() == old(self).spec_dimension(),
            final(self).spec_metric() == old(self).spec_metric(),
            final(self).spec_stats_enabled() == old(self).spec_stats_enabled(),
            match r {
                Some(e) => lookup(old(self)@, id) == Some(e@),
                None => lookup(old(self)@, id) is None,
            },
            final(self).spec_stats() == (if old(self).spec_stats_enabled() && contains_id(old(self)@, id) {
                Stats { get_count: bumped(old(self).spec_stats().get_count), ..old(self).spec_stats() }
            } else {
                old(self).spec_stats()
            }),
    {
        proof {
            self.lemma_wf_facts();
        }
        let idx = match self.id_index.get(&id) {
            Some(i) => *i,
            None => {
                return None;
            },
        };
        if self.enable_stats {
            self.stats.get_count = bump(self.stats.get_count);
        }
        Some(self.entries[idx].copy())
    }

    /// The entry at a storage position, for computing distances to it.
    pub fn entry_at(&self, slot: usize) -> (e: &VectorEntry)
        requires
            slot < self@.len(),
        ensures
            e@ == self@[slot as int],
    {
        &self.entries[slot]
    }

    fn hits(&self, distances: &[u32], slots: &Vec<usize>) -> (res: Vec<SearchResult>)
        requires
            self.wf(),
            distances@.len() == self@.len(),
            forall|i: int| 0 <= i < slots@.len() ==> (#[trigger] slots@[i]) < self@.len(),
        ensures
            hits_at(self@, distances@, slots@, hits_view(res@)),
    {
        let mut res: Vec<SearchResult> = Vec::with_capacity(slots.len());
        let mut i: usize = 0;
        while i < slots.len()
            invariant
                self.wf(),
                distances@.len() == self@.len(),
                forall|j: int| 0 <= j < slots@.len() ==> (#[trigger] slots@[j]) < self@.len(),
                i <= slots@.len(),
                res@.len() == i,
                forall|j: int|
                    0 <= j < i ==> {
                        let e = self@[#[trigger] slots@[j] as int];
                        &&& res@[j]@.id == e.id
                        &&& res@[j]@.distance == distances@[slots@[j] as int]
                        &&& res@[j]@.metadata == e.metadata
                    },
            decreases slots@.len() - i,
        {
            let slot = slots[i];
            let e = &self.entries[slot];
            res.push(SearchResult { id: e.id, distance: distances[slot], metadata: copy_opt_bytes(&e.metadata) });
            i += 1;
        }
        proof {
            assert forall|j: int| 0 <= j < res@.len() implies {
                let e = self@[#[trigger] slots@[j] as int];
                &&& hits_view(res@)[j].id == e.id
                &&& hits_view(res@)[j].distance == distances@[slots@[j] as int]
                &&& hits_view(res@)[j].metadata == e.metadata
            } by {
                assert(hits_view(res@)[j] == res@[j]@);
            }
        }
        res
    }

    /// The `k` entries farthest from the query, by the given distances.
    ///
    /// `distances[i]` is the distance (an `f32` bit pattern) from the query
    /// to the entry at position `i`. Fails with `InvalidDimension` when the
    /// query's length is not the database's dimension. Otherwise the hits
    /// are the `min(k, len)` entries of largest distance, largest first.
    pub fn search(&mut self, query: &[u32], distances: &[u32], k: usize) -> (r: Result<Vec<SearchResult>, Error>)
        requires
            old(self).wf(),
            distances@.len() == old(self)@.len(),
        ensures
            final(self).wf(),
            final(self)@ == old(self)@,
            final(self).spec_dimension() == old(self).spec_dimension(),
            final(self).spec_metric() == old(self).spec_metric(),
            final(self).spec_stats_enabled() == old(self).spec_stats_enabled(),
            query@.len() != old(self).spec_dimension() ==> {
                &&& r == Err::<Vec<SearchResult>, Error>(
                    Error::InvalidDimension { expected: old(self).spec_dimension(), got: query@.len() as usize },
                )
                &&& final(self).spec_stats() == old(self).spec_stats()
            },
            query@.len() == old(self).spec_dimension() ==> {
                &&& r matches Ok(res) && search_hits(old(self)@, distances@, k as nat, hits_view(res@))
                &&& final(self).spec_stats() == (if old(self).spec_stats_enabled() && min_nat(
                    k as nat,
                    old(self)@.len(),
                ) > 0 {
                    Stats { search_count: bumped(old(self).spec_stats().search_count), ..old(self).spec_stats() }
                } else {
                    old(self).spec_stats()
                })
            },
    {
        proof {
            self.lemma_wf_facts();
        }
        if query.len() != self.dimension {
            return Err(Error::InvalidDimension { expected: self.dimension, got: query.len() });
        }
        let keys = distance_keys(distances);
        let slots = top_k(keys.as_slice(), k, true);
        if slots.len() == 0 {
            let empty: Vec<SearchResult> = Vec::new();
            proof {
                assert(hits_at(self@, distances@, slots@, hits_view(empty@)));
            }
            return Ok(empty);
        }
        let res = self.hits(distances, &slots);
        if self.enable_stats {
            self.stats.search_count = bump(self.stats.search_count);
        }
        Ok(res)
    }

    /// A search that keeps only the hits whose distance is at least
    /// `threshold` (an `f32` bit pattern); a NaN threshold keeps none.
    pub fn search_with_threshold(
        &mut self,
        query: &[u32],
        distances: &[u32],
        k: usize,
        threshold: u32,
    ) -> (r: Result<Vec<SearchResult>, Error>)
        requires
            old(self).wf(),
            distances@.len() == old(self)@.len(),
        ensures
            final(self).wf(),
            final(self)@ == old(self)@,
            final(self).spec_dimension() == old(self).spec_dimension(),
            final(self).spec_metric() == old(self).spec_metric(),
            final(self).spec_stats_enabled() == old(self).spec_stats_enabled(),
            query@.len() != old(self).spec_dimension() ==> {
                &&& r == Err::<Vec<SearchResult>, Error>(
                    Error::InvalidDimension { expected: old(self).spec_dimension(), got: query@.len() as usize },
                )
                &&& final(self).spec_stats() == old(self).spec_stats()
            },
            query@.len() == old(self).spec_dimension() ==> {
                &&& r matches Ok(res) && exists|all: Seq<SearchResultView>|
                    search_hits(old(self)@, distances@, k as nat, all) && hits_view(res@) == all.filter(
                        |h: SearchResultView| kept_by(threshold, h),
                    )
                &&& final(self).spec_stats() == (if old(self).spec_stats_enabled() && min_nat(
                    k as nat,
                    old(self)@.len(),
                ) > 0 {
                    Stats { search_count: bumped(old(self).spec_stats().search_count), ..old(self).spec_stats() }
                } else {
                    old(self).spec_stats()
                })
            },
    {
        let all = self.search(query, distances, k)?;
        let kept = keep_at_least(&all, threshold);
        Ok(kept)
    }

    /// Searches for each query in turn, stopping at the first that fails.
    ///
    /// `distances[q]` holds the distances from query `q` to the entries.
    /// The result is the searches' hits, one list per query, or the error
    /// of the first query whose length is not the database's dimension.
    pub fn batch_search(&mut self, queries: &[&[u32]], distances: &[Vec<u32>], k: usize) -> (r: Result<
        Vec<Vec<SearchResult>>,
        Error,
    >)
        requires
            old(self).wf(),
            distances@.len() == queries@.len(),
            forall|q: int|
                0 <= q < distances@.len() ==> (#[trigger] distances@[q])@.len() == old(self)@.len(),
        ensures
            final(self).wf(),
            final(self)@ == old(self)@,
            final(self).spec_dimension() == old(self).spec_dimension(),
            final(self).spec_metric() == old(self).spec_metric(),
            final(self).spec_stats_enabled() == old(self).spec_stats_enabled(),
            ({
                let m = first_bad_query(queries@, old(self).spec_dimension());
                let counted: nat = if old(self).spec_stats_enabled() && min_nat(k as nat, old(self)@.len()) > 0 {
                    m as nat
                } else {
                    0
                };
                &&& final(self).spec_stats() == (Stats {
                    search_count: bumped_by(old(self).spec_stats().search_count, counted),
                    ..old(self).spec_stats()
                })
                &&& m < queries@.len() ==> r == Err::<Vec<Vec<SearchResult>>, Error>(
                    Error::InvalidDimension {
                        expected: old(self).spec_dimension(),
                        got: queries@[m]@.len() as usize,
                    },
                )
                &&& m == queries@.len() ==> (r matches Ok(all) && all@.len() == queries@.len() && forall|q: int|
                    0 <= q < all@.len() ==> search_hits(
                        old(self)@,
                        distances@[q]@,
                        k as nat,
                        hits_view(#[trigger] all@[q]@),
                    ))
            }),
    {
        let ghost dim = self.dimension;
        let mut all: Vec<Vec<SearchResult>> = Vec::with_capacity(queries.len());
        let mut q: usize = 0;
        while q < queries.len()
            invariant
                self.wf(),
                self@ == old(self)@,
                self.spec_dimension() == old(self).spec_dimension(),
                self.spec_metric() == old(self).spec_metric(),
                self.spec_stats_enabled() == old(self).spec_stats_enabled(),
                dim == self.spec_dimension(),
                distances@.len() == queries@.len(),
                forall|j: int|
                    0 <= j < distances@.len() ==> (#[trigger] distances@[j])@.len() == old(self)@.len(),
                q <= queries@.len(),
                forall|j: int| 0 <= j < q ==> (#[trigger] queries@[j])@.len() == dim,
                all@.len() == q,
                forall|j: int|
                    0 <= j < q ==> search_hits(old(self)@, distances@[j]@, k as nat, hits_view(#[trigger] all@[j]@)),
                self.spec_stats() == (Stats {
                    search_count: bumped_by(
                        old(self).spec_stats().search_count,
                        if old(self).spec_stats_enabled() && min_nat(k as nat, old(self)@.len()) > 0 {
                            q as nat
                        } else {
                            0
                        },
                    ),
                    ..old(self).spec_stats()
                }),
            decreases queries@.len() - q,
        {
            let res = self.search(queries[q], distances[q].as_slice(), k);
            match res {
                Ok(hits) => {
                    all.push(hits);
                },
                Err(e) => {
                    proof {
                        lemma_first_bad_at(queries@, dim, q as int);
                    }
                    return Err(e);
                },
            }
            q += 1;
        }
        proof {
            lemma_first_bad_none(queries@, dim);
        }
        Ok(all)
    }

    /// The number of stored entries.
    pub fn len(&self) -> (n: usize)
        requires
            self.wf(),
        ensures
            n == self@.len(),
    {
        self.entries.len()
    }

    /// Whether no entry is stored.
    pub fn is_empty(&self) -> (b: bool)
        requires
            self.wf(),
        ensures
            b == (self@.len() == 0),
    {
        self.len() == 0
    }

    /// The dimension every stored vector has.
    pub fn dimension(&self) -> (d: usize)
        ensures
            d == self.spec_dimension(),
    {
        self.dimension
    }

    /// The metric the distances are measured by.
    pub fn metric(&self) -> (m: DistanceMetric)
        ensures
            m == self.spec_metric(),
    {
        self.metric
    }

    /// The operation counters.
    pub fn stats(&self) -> (s: Stats)
        ensures
            s == self.spec_stats(),
    {
        self.stats
    }

    /// Turns counting on or off.
    pub fn enable_stats(&mut self, enable: bool)
        requires
            old(self).wf(),
        ensures
            final(self).wf(),
            final(self)@ == old(self)@,
            final(self).spec_dimension() == old(self).spec_dimension(),
            final(self).spec_metric() == old(self).spec_metric(),
            final(self).spec_stats() == old(self).spec_stats(),
            final(self).spec_stats_enabled() == enable,
    {
        self.enable_stats = enable;
    }

    /// Sets all counters to zero.
    pub fn reset_stats(&mut self)
        requires
            old(self).wf(),
        ensures
            final(self).wf(),
            final(self)@ == old(self)@,
            final(self).spec_dimension() == old(self).spec_dimension(),
            final(self).spec_metric() == old(self).spec_metric(),
            final(self).spec_stats() == Stats::zero(),
            final(self).spec_stats_enabled() == old(self).spec_stats_enabled(),
    {
        self.stats = Stats::default();
    }
}

/// The position of the first query whose length is not `dim`, or the
/// number of queries when there is none.
pub open spec fn first_bad_query(queries: Seq<&[u32]>, dim: usize) -> int
    decreases queries.len(),
{
    if queries.len() == 0 {
        0
    } else if queries[0]@.len() != dim {
        0
    } else {
        1 + first_bad_query(queries.drop_first(), dim)
    }
}

proof fn lemma_first_bad_at(queries: Seq<&[u32]>, dim: usize, q: int)
    requires
        0 <= q < queries.len(),
        forall|j: int| 0 <= j < q ==> (#[trigger] queries[j])@.len() == dim,
        queries[q]@.len() != dim,
    ensures
        first_bad_query(queries, dim) == q,
    decreases q,
{
    if q > 0 {
        let rest = queries.drop_first();
        assert forall|j: int| 0 <= j < q - 1 implies (#[trigger] rest[j])@.len() == dim by {
            assert(rest[j] == queries[j + 1]);
        }
        assert(rest[q - 1] == queries[q]);
        lemma_first_bad_at(rest, dim, q - 1);
        assert(queries[0]@.len() == dim);
    }
}

proof fn lemma_first_bad_none(queries: Seq<&[u32]>, dim: usize)
    requires
        forall|j: int| 0 <= j < queries.len() ==> (#[trigger] queries[j])@.len() == dim,
    ensures
        first_bad_query(queries, dim) == queries.len(),
    decreases queries.len(),
{
    if queries.len() > 0 {
        let rest = queries.drop_first();
        assert forall|j: int| 0 <= j < rest.len() implies (#[trigger] rest[j])@.len() == dim by {
            assert(rest[j] == queries[j + 1]);
        }
        assert(queries[0]@.len() == dim);
        lemma_first_bad_none(rest, dim);
    }
}

/// Reading back what was written: after an entry with a new id is
/// appended, looking its id up gives that entry, every other id gives what
/// it gave before, and ids stay unique.
pub proof fn law_insert_then_get(entries: Seq<EntryView>, e: EntryView)
    requires
        unique_ids(entries),
        !contains_id(entries, e.id),
    ensures
        unique_ids(entries.push(e)),
        lookup(entries.push(e), e.id) == Some(e),
        forall|other: u64| other != e.id ==> #[trigger] lookup(entries.push(e), other) == lookup(entries, other),
{
    let after = entries.push(e);
    assert(after[entries.len() as int] == e);
    assert(contains_id(after, e.id));
    let j = slot_of(after, e.id);
    if j != entries.len() as int {
        assert(after[j] == entries[j]);
    }
    assert forall|other: u64| other != e.id implies #[trigger] lookup(after, other) == lookup(entries, other) by {
        if contains_id(entries, other) {
            let i = slot_of(entries, other);
            assert(after[i] == entries[i]);
            assert(contains_id(after, other));
            let k = slot_of(after, other);
            if k < entries.len() {
                assert(after[k] == entries[k]);
            }
        }
        if contains_id(after, other) {
            let k = slot_of(after, other);
            assert(k < entries.len());
            assert(after[k] == entries[k]);
        }
    }
}

/// After the entry with an id is removed, the id is gone, every other id
/// gives what it gave before, and ids stay unique.
pub proof fn law_delete_then_get(entries: Seq<EntryView>, id: u64)
    requires
        unique_ids(entries),
        contains_id(entries, id),
    ensures
        unique_ids(swap_removed(entries, slot_of(entries, id))),
        lookup(swap_removed(entries, slot_of(entries, id)), id) is None,
        swap_removed(entries, slot_of(entries, id)).len() == entries.len() - 1,
        forall|other: u64|
            other != id ==> #[trigger] lookup(swap_removed(entries, slot_of(entries, id)), other) == lookup(
                entries,
                other,
            ),
{
    let s = slot_of(entries, id);
    let last = entries.len() - 1;
    let after = swap_removed(entries, s);
    // Each entry after the removal is an entry from before, other than the removed one.
    assert forall|i: int| 0 <= i < after.len() implies (#[trigger] after[i]) == entries[if i == s {
        last
    } else {
        i
    }] by {}
    assert forall|i: int, j: int|
        0 <= i < after.len() && 0 <= j < after.len() && i != j implies (#[trigger] after[i]).id
        != (#[trigger] after[j]).id by {
        let oi = if i == s { last } else { i };
        let oj = if j == s { last } else { j };
        assert(after[i] == entries[oi]);
        assert(after[j] == entries[oj]);
    }
    assert(!contains_id(after, id)) by {
        if contains_id(after, id) {
            let i = choose|i: int| 0 <= i < after.len() && (#[trigger] after[i]).id == id;
            let oi = if i == s { last } else { i };
            assert(after[i] == entries[oi]);
            assert(oi != s);
        }
    }
    assert forall|other: u64| other != id implies #[trigger] lookup(after, other) == lookup(entries, other) by {
        if contains_id(entries, other) {
            let i = slot_of(entries, other);
            assert(i != s);
            let ni = if i == last { s } else { i };
            assert(after[ni] == entries[i]);
            assert(contains_id(after, other));
            let k = slot_of(after, other);
            let ok = if k == s { last } else { k };
            assert(after[k] == entries[ok]);
        }
        if contains_id(after, other) {
            let k = slot_of(after, other);
            let ok = if k == s { last } else { k };
            assert(after[k] == entries[ok]);
            assert(contains_id(entries, other));
        }
    }
}

} // verus!
