//! The record store, its searches and its file body.

use std::collections::HashMap;
use vstd::prelude::*;

use crate::copying::{copy_opt_bytes, copy_words, opt_bytes_view};
use crate::counter::{bump_usize, bumped_usize, bumped_usize_by};
use crate::float_bits::{any_nan, distance_keys, keys_of, none_nan};
use crate::le_bytes::{le_bytes, le_value, push_u32_le, read_u32_le};
use crate::qwen35::distance::DistanceMetric;
use crate::qwen35::error::{Error, IoFailure};
use crate::qwen35::format::{
    as_read,
    decode_entry,
    encode_entry,
    encode_pair,
    entries_bytes,
    id_map_bytes,
    meta_len,
    pair_bytes,
    parse_entries,
    parse_section,
    push_section,
    read_section,
    section_bytes,
    storable,
    EntryView,
};
use crate::ranking::{min_nat, ranks_first, top_k};

verus! {

broadcast use vstd::std_specs::hash::group_hash_axioms;

/// A stored vector: its id, its components (each `f32` by its bit pattern)
/// and optional metadata bytes.
#[derive(Debug)]
pub struct VectorEntry {
    pub id: i64,
    pub vector: Vec<u32>,
    pub metadata: Option<Vec<u8>>,
}

impl View for VectorEntry {
    type V = EntryView;

    open spec fn view(&self) -> EntryView {
        EntryView { id: self.id, vector: self.vector@, metadata: opt_bytes_view(self.metadata) }
    }
}

impl VectorEntry {
    /// An entry of the given parts.
    pub fn new(id: i64, vector: Vec<u32>, metadata: Option<Vec<u8>>) -> (e: Self)
        ensures
            e.id == id,
            e.vector == vector,
            e.metadata == metadata,
    {
        VectorEntry { id, vector, metadata }
    }

    /// A copy of the entry.
    pub fn copy(&self) -> (r: VectorEntry)
        ensures
            r@ == self@,
    {
        VectorEntry {
            id: self.id,
            vector: copy_words(self.vector.as_slice()),
            metadata: copy_opt_bytes(&self.metadata),
        }
    }
}

/// One search hit: the id and the distance (`f32` bit pattern).
#[derive(Debug, Clone, Copy, PartialEq, Eq, Structural)]
pub struct SearchResult {
    pub id: i64,
    pub distance: u32,
}

/// Operation counters.
#[derive(Debug, Clone, Copy, PartialEq, Eq, Structural)]
pub struct Stats {
    pub insert_count: usize,
    pub delete_count: usize,
    pub search_count: usize,
    pub get_count: usize,
    pub cache_hits: usize,
    pub cache_misses: usize,
}

impl Stats {
    /// All counters at zero.
    pub open spec fn zero() -> Stats {
        Stats { insert_count: 0, delete_count: 0, search_count: 0, get_count: 0, cache_hits: 0, cache_misses: 0 }
    }
}

impl Default for Stats {
    /// All counters at zero.
    fn default() -> (s: Self)
        ensures
            s == Stats::zero(),
    {
        Stats { insert_count: 0, delete_count: 0, search_count: 0, get_count: 0, cache_hits: 0, cache_misses: 0 }
    }
}

/// Some entry of the sequence has this id.
pub open spec fn contains_id(entries: Seq<EntryView>, id: i64) -> bool {
    exists|i: int| 0 <= i < entries.len() && (#[trigger] entries[i]).id == id
}

/// The position of the entry with this id.
pub open spec fn slot_of(entries: Seq<EntryView>, id: i64) -> int {
    choose|i: int| 0 <= i < entries.len() && (#[trigger] entries[i]).id == id
}

/// The entry with this id, if any.
pub open spec fn lookup(entries: Seq<EntryView>, id: i64) -> Option<EntryView> {
    if contains_id(entries, id) {
        Some(entries[slot_of(entries, id)])
    } else {
        None
    }
}

/// No two entries share an id.
pub open spec fn unique_ids(entries: Seq<EntryView>) -> bool {
    forall|i: int, j: int|
        0 <= i < entries.len() && 0 <= j < entries.len() && i != j ==> (#[trigger] entries[i]).id
            != (#[trigger] entries[j]).id
}

/// The hits of a search: the entries at the ranked positions, each with its
/// distance.
pub open spec fn hits_at(entries: Seq<EntryView>, distances: Seq<u32>, slots: Seq<usize>, res: Seq<SearchResult>) -> bool {
    &&& res.len() == slots.len()
    &&& forall|i: int|
        0 <= i < res.len() ==> res[i] == (SearchResult {
            id: entries[#[trigger] slots[i] as int].id,
            distance: distances[slots[i] as int],
        })
}

/// `res` is what a search returns: the `k` entries nearest by distance,
/// nearest first (ties in entry order).
pub open spec fn search_hits(entries: Seq<EntryView>, distances: Seq<u32>, k: nat, res: Seq<SearchResult>) -> bool {
    exists|slots: Seq<usize>| ranks_first(keys_of(distances), false, k, slots) && hits_at(entries, distances, slots, res)
}

/// Sorting distances compares them all, which fails on a NaN as soon as
/// there are two.
pub open spec fn sortable(distances: Seq<u32>) -> bool {
    distances.len() >= 2 ==> none_nan(distances)
}

/// Tells whether a search can rank these distances (see [`sortable`]).
pub fn sortable_distances(distances: &[u32]) -> (b: bool)
    ensures
        b == sortable(distances@),
{
    distances.len() < 2 || !any_nan(distances)
}

/// The file body of a sequence of entries: the entries, their number (4
/// bytes) and the id-map records.
pub open spec fn body_bytes(es: Seq<EntryView>) -> Seq<u8> {
    entries_bytes(es) + le_bytes(es.len(), 4) + id_map_bytes(es, 0)
}

/// The id-map section that starts at `start` is complete: a 4-byte record
/// count and that many 12-byte records.
pub open spec fn id_section_ok(data: Seq<u8>, start: nat) -> bool {
    &&& start + 4 <= data.len()
    &&& start + 4 + 12 * le_value(data.subrange(start as int, start as int + 4)) <= data.len()
}

/// The entries that a body holds when it declares `size` of them, if it is
/// complete.
pub open spec fn body_entries(body: Seq<u8>, size: nat) -> Option<Seq<EntryView>> {
    match parse_entries(body, size) {
        Some((es, n)) => if id_section_ok(body, n) {
            Some(es)
        } else {
            None
        },
        None => None,
    }
}

/// `r` is what reading a body gives: the database of the `size` entries it
/// declares (fresh counters, counting off), `IoError(UnexpectedEof)` when it
/// is cut short, `DuplicateId` when two entries share an id.
pub open spec fn built_from_body(
    r: Result<VectorDB, Error>,
    dimension: usize,
    metric: DistanceMetric,
    size: nat,
    body: Seq<u8>,
) -> bool {
    match body_entries(body, size) {
        None => r == Err::<VectorDB, Error>(Error::IoError(IoFailure::UnexpectedEof)),
        Some(es) => if unique_ids(es) {
            r matches Ok(db) && {
                &&& db.wf()
                &&& db@ == es
                &&& db.spec_dimension() == dimension
                &&& db.spec_metric() == metric
                &&& db.spec_normalized() == (metric == DistanceMetric::Cosine)
                &&& db.spec_stats() == Stats::zero()
                &&& !db.spec_stats_enabled()
            }
        } else {
            r matches Err(Error::DuplicateId(_))
        },
    }
}

/// The positions that a new entry would be pushed at and the ids read so far
/// are those of the entries.
pub open spec fn index_matches(index: Map<i64, usize>, entries: Seq<EntryView>) -> bool {
    &&& forall|i: int|
        0 <= i < entries.len() ==> index.contains_key(#[trigger] entries[i].id) && index[entries[i].id] == i
    &&& forall|id: i64|
        #[trigger] index.contains_key(id) ==> index[id] < entries.len() && entries[index[id] as int].id == id
}

/// An in-memory database of vectors of one dimension, keyed by `i64` ids.
pub struct VectorDB {
    entries: Vec<VectorEntry>,
    id_map: HashMap<i64, usize>,
    dimension: usize,
    metric: DistanceMetric,
    normalized: bool,
    stats: Stats,
    enable_stats: bool,
}

impl View for VectorDB {
    type V = Seq<EntryView>;

    /// The stored entries, in storage order.
    closed spec fn view(&self) -> Seq<EntryView> {
        self.entries@.map_values(|e: VectorEntry| e@)
    }
}

impl VectorDB {
    /// The dimension every stored vector has.
    pub closed spec fn spec_dimension(&self) -> usize {
        self.dimension
    }

    /// The metric the distances are measured by.
    pub closed spec fn spec_metric(&self) -> DistanceMetric {
        self.metric
    }

    /// Whether vectors are stored (and queries searched) normalized.
    pub closed spec fn spec_normalized(&self) -> bool {
        self.normalized
    }

    /// The operation counters.
    pub closed spec fn spec_stats(&self) -> Stats {
        self.stats
    }

    /// Whether operations are counted.
    pub closed spec fn spec_stats_enabled(&self) -> bool {
        self.enable_stats
    }

    /// The map gives each stored id its entry's position.
    pub closed spec fn wf(&self) -> bool {
        index_matches(self.id_map@, self@)
    }

    /// A sound database holds no id twice.
    pub proof fn lemma_unique_ids(&self)
        requires
            self.wf(),
        ensures
            unique_ids(self@),
    {
        self.lemma_wf_facts();
    }

    proof fn lemma_wf_facts(&self)
        requires
            self.wf(),
        ensures
            unique_ids(self@),
            self@.len() == self.entries@.len(),
            forall|id: i64| #[trigger] contains_id(self@, id) <==> self.id_map@.contains_key(id),
            forall|id: i64|
                #[trigger] self.id_map@.contains_key(id) ==> slot_of(self@, id) == self.id_map@[id] as int,
    {
        lemma_index_facts(self.id_map@, self@);
    }

    fn with_entries(dimension: usize, metric: DistanceMetric) -> (db: Self)
        ensures
            db.wf(),
            db@ == Seq::<EntryView>::empty(),
            db.spec_dimension() == dimension,
            db.spec_metric() == metric,
            db.spec_normalized() == (metric == DistanceMetric::Cosine),
            db.spec_stats() == Stats::zero(),
            !db.spec_stats_enabled(),
    {
        let db = VectorDB {
            entries: Vec::new(),
            id_map: HashMap::new(),
            dimension,
            metric,
            normalized: metric == DistanceMetric::Cosine,
            stats: Stats::default(),
            enable_stats: false,
        };
        proof {
            assert(db@ =~= Seq::<EntryView>::empty());
        }
        db
    }

    /// An empty database; cosine databases store normalized vectors.
    pub fn new(dimension: usize, metric: DistanceMetric) -> (db: Self)
        ensures
            db.wf(),
            db@ == Seq::<EntryView>::empty(),
            db.spec_dimension() == dimension,
            db.spec_metric() == metric,
            db.spec_normalized() == (metric == DistanceMetric::Cosine),
            db.spec_stats() == Stats::zero(),
            !db.spec_stats_enabled(),
    {
        Self::with_entries(dimension, metric)
    }

    /// An empty database with room reserved for `capacity` entries.
    pub fn with_capacity(dimension: usize, metric: DistanceMetric, capacity: usize) -> (db: Self)
        ensures
            db.wf(),
            db@ == Seq::<EntryView>::empty(),
            db.spec_dimension() == dimension,
            db.spec_metric() == metric,
            db.spec_normalized() == (metric == DistanceMetric::Cosine),
            db.spec_stats() == Stats::zero(),
            !db.spec_stats_enabled(),
    {
        let mut db = Self::with_entries(dimension, metric);
        db.entries.reserve(capacity);
        db.id_map.reserve(capacity);
        proof {
            assert(db@ =~= Seq::<EntryView>::empty());
        }
        db
    }

    /// The dimension every stored vector has.
    pub fn dimension(&self) -> (d: usize)
        ensures
            d == self.spec_dimension(),
    {
        self.dimension
    }

    /// The metric the distances are measured by.
    pub fn metric(&self) -> (m: DistanceMetric)
        ensures
            m == self.spec_metric(),
    {
        self.metric
    }

    /// Whether vectors are stored (and queries searched) normalized.
    pub fn normalized(&self) -> (b: bool)
        ensures
            b == self.spec_normalized(),
    {
        self.normalized
    }

    /// The number of stored entries.
    pub fn size(&self) -> (n: usize)
        requires
            self.wf(),
        ensures
            n == self@.len(),
    {
        self.entries.len()
    }

    /// Turns counting on or off.
    pub fn enable_stats(&mut self, enable: bool)
        requires
            old(self).wf(),
        ensures
            final(self).wf(),
            final(self)@ == old(self)@,
            final(self).spec_dimension() == old(self).spec_dimension(),
            final(self).spec_metric() == old(self).spec_metric(),
            final(self).spec_normalized() == old(self).spec_normalized(),
            final(self).spec_stats() == old(self).spec_stats(),
            final(self).spec_stats_enabled() == enable,
    {
        self.enable_stats = enable;
    }

    /// The operation counters.
    pub fn stats(&self) -> (s: Stats)
        ensures
            s == self.spec_stats(),
    {
        self.stats
    }

    /// Sets all counters to zero.
    pub fn reset_stats(&mut self)
        requires
            old(self).wf(),
        ensures
            final(self).wf(),
            final(self)@ == old(self)@,
            final(self).spec_dimension() == old(self).spec_dimension(),
            final(self).spec_metric() == old(self).spec_metric(),
            final(self).spec_normalized() == old(self).spec_normalized(),
            final(self).spec_stats() == Stats::zero(),
            final(self).spec_stats_enabled() == old(self).spec_stats_enabled(),
    {
        self.stats = Stats::default();
    }

    /// Stores a vector (normalized beforehand when the database normalizes)
    /// under a new id.
    ///
    /// Fails with `DimensionMismatch` when the vector's length is not the
    /// database's dimension, and then with `DuplicateId` when the id is
    /// already stored; otherwise the entry is appended.
    pub fn insert(&mut self, id: i64, vector: Vec<u32>, metadata: Option<Vec<u8>>) -> (r: Result<(), Error>)
        requires
            old(self).wf(),
        ensures
            final(self).wf(),
            final(self).spec_dimension() == old(self).spec_dimension(),
            final(self).spec_metric() == old(self).spec_metric(),
            final(self).spec_normalized() == old(self).spec_normalized(),
            final(self).spec_stats_enabled() == old(self).spec_stats_enabled(),
            vector@.len() != old(self).spec_dimension() ==> {
                &&& r == Err::<(), Error>(
                    Error::DimensionMismatch { expected: old(self).spec_dimension(), got: vector@.len() as usize },
                )
                &&& final(self)@ == old(self)@
                &&& final(self).spec_stats() == old(self).spec_stats()
            },
            vector@.len() == old(self).spec_dimension() && contains_id(old(self)@, id) ==> {
                &&& r == Err::<(), Error>(Error::DuplicateId(id))
                &&& final(self)@ == old(self)@
                &&& final(self).spec_stats() == old(self).spec_stats()
            },
            vector@.len() == old(self).spec_dimension() && !contains_id(old(self)@, id) ==> {
                &&& r is Ok
                &&& final(self)@ == old(self)@.push(
                    EntryView { id, vector: vector@, metadata: opt_bytes_view(metadata) },
                )
                &&& final(self).spec_stats() == (if old(self).spec_stats_enabled() {
                    Stats { insert_count: bumped_usize(old(self).spec_stats().insert_count), ..old(self).spec_stats() }
                } else {
                    old(self).spec_stats()
                })
            },
    {
        proof {
            self.lemma_wf_facts();
        }
        if vector.len() != self.dimension {
            return Err(Error::DimensionMismatch { expected: self.dimension, got: vector.len() });
        }
        if self.id_map.contains_key(&id) {
            return Err(Error::DuplicateId(id));
        }
        let ghost new_view = EntryView { id, vector: vector@, metadata: opt_bytes_view(metadata) };
        let index = self.entries.len();
        self.entries.push(VectorEntry::new(id, vector, metadata));
        self.id_map.insert(id, index);
        if self.enable_stats {
            self.stats.insert_count = bump_usize(self.stats.insert_count);
        }
        proof {
            assert(self@ =~= old(self)@.push(new_view));
        }
        Ok(())
    }

    /// Removes the entry with this id; the entries after it move up one
    /// position.
    ///
    /// Fails with `NotFound` when no entry has the id.
    pub fn delete(&mut self, id: i64) -> (r: Result<(), Error>)
        requires
            old(self).wf(),
        ensures
            final(self).wf(),
            final(self).spec_dimension() == old(self).spec_dimension(),
            final(self).spec_metric() == old(self).spec_metric(),
            final(self).spec_normalized() == old(self).spec_normalized(),
            final(self).spec_stats_enabled() == old(self).spec_stats_enabled(),
            !contains_id(old(self)@, id) ==> {
                &&& r == Err::<(), Error>(Error::NotFound(id))
                &&& final(self)@ == old(self)@
                &&& final(self).spec_stats() == old(self).spec_stats()
            },
            contains_id(old(self)@, id) ==> {
                &&& r is Ok
                &&& final(self)@ == old(self)@.remove(slot_of(old(self)@, id))
                &&& final(self).spec_stats() == (if old(self).spec_stats_enabled() {
                    Stats { delete_count: bumped_usize(old(self).spec_stats().delete_count), ..old(self).spec_stats() }
                } else {
                    old(self).spec_stats()
                })
            },
    {
        proof {
            self.lemma_wf_facts();
        }
        let index = match self.id_map.remove(&id) {
            Some(index) => index,
            None => {
                return Err(Error::NotFound(id));
            },
        };
        let ghost old_view = old(self)@;
        let _ = self.entries.remove(index);
        proof {
            assert(self@ =~= old_view.remove(index as int));
        }
        let ghost new_view = self@;
        proof {
            assert forall|k: i64| #[trigger] self.id_map@.contains_key(k) implies contains_id(self@, k) by {
                let j = old(self).id_map@[k] as int;
                assert(old_view[j].id == k);
                assert(j != index as int);
                if j < index {
                    assert(self@[j] == old_view[j]);
                } else {
                    assert(self@[j - 1] == old_view[j]);
                }
            }
            assert forall|j: int| 0 <= j < self@.len() implies #[trigger] self.id_map@.contains_key(self@[j].id) by {
                let oj = if j < index { j } else { j + 1 };
                assert(self@[j] == old_view[oj]);
                assert(old_view[oj].id != id);
            }
        }
        let mut i: usize = 0;
        while i < self.entries.len()
            invariant
                self.dimension == old(self).dimension,
                self.metric == old(self).metric,
                self.normalized == old(self).normalized,
                self.stats == old(self).stats,
                self.enable_stats == old(self).enable_stats,
                new_view == self@,
                new_view == old_view.remove(index as int),
                unique_ids(old_view),
                index < old_view.len(),
                old_view[index as int].id == id,
                i <= self.entries@.len(),
                self@.len() == self.entries@.len(),
                forall|j: int| 0 <= j < i ==> #[trigger] self.id_map@.contains_key(self@[j].id) && self.id_map@[self@[j].id] == j,
                forall|j: int| i <= j < self@.len() ==> #[trigger] self.id_map@.contains_key(self@[j].id),
                forall|k: i64| #[trigger] self.id_map@.contains_key(k) ==> contains_id(self@, k),
            decreases self.entries@.len() - i,
        {
            let eid = self.entries[i].id;
            self.id_map.insert(eid, i);
            proof {
                assert(self@[i as int].id == eid);
                assert forall|j: int| 0 <= j < i + 1 implies #[trigger] self.id_map@.contains_key(self@[j].id) && self.id_map@[self@[j].id] == j by {
                    if j < i {
                        lemma_removed_unique(old_view, index as int, j, i as int);
                    }
                }
                assert forall|k: i64| #[trigger] self.id_map@.contains_key(k) implies contains_id(self@, k) by {
                    if k == eid {
                        assert(self@[i as int].id == k);
                    }
                }
            }
            i += 1;
        }
        if self.enable_stats {
            self.stats.delete_count = bump_usize(self.stats.delete_count);
        }
        proof {
            assert forall|k: i64| #[trigger] self.id_map@.contains_key(k) implies self.id_map@[k] < self@.len()
                && self@[self.id_map@[k] as int].id == k by {
                let j = choose|j: int| 0 <= j < self@.len() && (#[trigger] self@[j]).id == k;
                assert(self.id_map@[self@[j].id] == j);
            }
            assert(slot_of(old_view, id) == index as int);
        }
        Ok(())
    }

    /// The entry with this id.
    ///
    /// Fails with `NotFound` when no entry has the id.
    pub fn get(&mut self, id: i64) -> (r: Result<VectorEntry, Error>)
        requires
            old(self).wf(),
        ensures
            final(self).wf(),
            final(self)@ == old(self)@,
            final(self).spec_dimension() == old(self).spec_dimension(),
            final(self).spec_metric() == old(self).spec_metric(),
            final(self).spec_normalized() == old(self).spec_normalized(),
            final(self).spec_stats_enabled() == old(self).spec_stats_enabled(),
            match r {
                Ok(e) => lookup(old(self)@, id) == Some(e@),
                Err(err) => lookup(old(self)@, id) is None && err == Error::NotFound(id),
            },
            final(self).spec_stats() == (if old(self).spec_stats_enabled() && contains_id(old(self)@, id) {
                Stats { get_count: bumped_usize(old(self).spec_stats().get_count), ..old(self).spec_stats() }
            } else {
                old(self).spec_stats()
            }),
    {
        proof {
            self.lemma_wf_facts();
        }
        let index = match self.id_map.get(&id) {
            Some(i) => *i,
            None => {
                return Err(Error::NotFound(id));
            },
        };
        if self.enable_stats {
            self.stats.get_count = bump_usize(self.stats.get_count);
        }
        Ok(self.entries[index].copy())
    }

    /// The position of the entry with this id, if any.
    pub fn position_of(&self, id: i64) -> (r: Option<usize>)
        requires
            self.wf(),
        ensures
            match r {
                Some(p) => contains_id(self@, id) && p as int == slot_of(self@, id) && p < self@.len(),
                None => !contains_id(self@, id),
            },
    {
        proof {
            self.lemma_wf_facts();
        }
        match self.id_map.get(&id) {
            Some(p) => Some(*p),
            None => None,
        }
    }

    /// Whether the entry at this position has this id.
    pub fn holds_at(&self, id: i64, index: usize) -> (b: bool)
        requires
            self.wf(),
        ensures
            b == (index < self@.len() && self@[index as int].id == id),
    {
        proof {
            self.lemma_wf_facts();
        }
        index < self.entries.len() && self.entries[index].id == id
    }

    /// The entry at a storage position, for computing distances to it.
    pub fn entry_at(&self, slot: usize) -> (e: &VectorEntry)
        requires
            self.wf(),
            slot < self@.len(),
        ensures
            e@ == self@[slot as int],
    {
        &self.entries[slot]
    }

    /// The `k` entries nearest to the query, by the given distances.
    ///
    /// `distances[i]` is the distance (an `f32` bit pattern) from the
    /// (normalized, when the database normalizes) query to the entry at
    /// position `i`. Fails with `DimensionMismatch` when the query's length
    /// is not the database's dimension. Otherwise the hits are the
    /// `min(k, size)` nearest entries, nearest first, ties in storage order.
    pub fn search(&mut self, query: &[u32], distances: &[u32], k: usize) -> (r: Result<Vec<SearchResult>, Error>)
        requires
            old(self).wf(),
            distances@.len() == old(self)@.len(),
            sortable(distances@),
        ensures
            final(self).wf(),
            final(self)@ == old(self)@,
            final(self).spec_dimension() == old(self).spec_dimension(),
            final(self).spec_metric() == old(self).spec_metric(),
            final(self).spec_normalized() == old(self).spec_normalized(),
            final(self).spec_stats_enabled() == old(self).spec_stats_enabled(),
            query@.len() != old(self).spec_dimension() ==> {
                &&& r == Err::<Vec<SearchResult>, Error>(
                    Error::DimensionMismatch { expected: old(self).spec_dimension(), got: query@.len() as usize },
                )
                &&& final(self).spec_stats() == old(self).spec_stats()
            },
            query@.len() == old(self).spec_dimension() ==> {
                &&& r matches Ok(res) && search_hits(old(self)@, distances@, k as nat, res@)
                &&& final(self).spec_stats() == (if old(self).spec_stats_enabled() {
                    Stats { search_count: bumped_usize(old(self).spec_stats().search_count), ..old(self).spec_stats() }
                } else {
                    old(self).spec_stats()
                })
            },
    {
        if query.len() != self.dimension {
            return Err(Error::DimensionMismatch { expected: self.dimension, got: query.len() });
        }
        let keys = distance_keys(distances);
        let slots = top_k(keys.as_slice(), k, false);
        let mut res: Vec<SearchResult> = Vec::with_capacity(slots.len());
        let mut i: usize = 0;
        while i < slots.len()
            invariant
                self.wf(),
                self@ == old(self)@,
                distances@.len() == self@.len(),
                forall|j: int| 0 <= j < slots@.len() ==> (#[trigger] slots@[j]) < self@.len(),
                i <= slots@.len(),
                res@.len() == i,
                forall|j: int|
                    0 <= j < i ==> res@[j] == (SearchResult {
                        id: self@[#[trigger] slots@[j] as int].id,
                        distance: distances@[slots@[j] as int],
                    }),
            decreases slots@.len() - i,
        {
            let slot = slots[i];
            proof {
                self.lemma_wf_facts();
            }
            res.push(SearchResult { id: self.entries[slot].id, distance: distances[slot] });
            i += 1;
        }
        if self.enable_stats {
            self.stats.search_count = bump_usize(self.stats.search_count);
        }
        proof {
            assert(hits_at(self@, distances@, slots@, res@));
        }
        Ok(res)
    }

    /// Searches for each query in turn, stopping at the first that fails.
    ///
    /// `distances[q]` holds the distances from query `q` to the entries.
    pub fn search_batch(&mut self, queries: &[Vec<u32>], distances: &[Vec<u32>], k: usize) -> (r: Result<
        Vec<Vec<SearchResult>>,
        Error,
    >)
        requires
            old(self).wf(),
            distances@.len() == queries@.len(),
            forall|q: int|
                0 <= q < distances@.len() ==> (#[trigger] distances@[q])@.len() == old(self)@.len() && sortable(
                    distances@[q]@,
                ),
        ensures
            final(self).wf(),
            final(self)@ == old(self)@,
            final(self).spec_dimension() == old(self).spec_dimension(),
            final(self).spec_metric() == old(self).spec_metric(),
            final(self).spec_normalized() == old(self).spec_normalized(),
            final(self).spec_stats_enabled() == old(self).spec_stats_enabled(),
            ({
                let m = first_bad_query(queries@, old(self).spec_dimension());
                let counted: nat = if old(self).spec_stats_enabled() {
                    m as nat
                } else {
                    0
                };
                &&& final(self).spec_stats() == (Stats {
                    search_count: bumped_usize_by(old(self).spec_stats().search_count, counted),
                    ..old(self).spec_stats()
                })
                &&& m < queries@.len() ==> r == Err::<Vec<Vec<SearchResult>>, Error>(
                    Error::DimensionMismatch { expected: old(self).spec_dimension(), got: queries@[m]@.len() as usize },
                )
                &&& m == queries@.len() ==> (r matches Ok(all) && all@.len() == queries@.len() && forall|q: int|
                    0 <= q < all@.len() ==> search_hits(old(self)@, distances@[q]@, k as nat, (#[trigger] all@[q])@))
            }),
    {
        let ghost dim = self.dimension;
        let mut all: Vec<Vec<SearchResult>> = Vec::with_capacity(queries.len());
        let mut q: usize = 0;
        while q < queries.len()
            invariant
                self.wf(),
                self@ == old(self)@,
                self.spec_dimension() == old(self).spec_dimension(),
                self.spec_metric() == old(self).spec_metric(),
                self.spec_normalized() == old(self).spec_normalized(),
                self.spec_stats_enabled() == old(self).spec_stats_enabled(),
                dim == self.spec_dimension(),
                distances@.len() == queries@.len(),
                forall|j: int|
                    0 <= j < distances@.len() ==> (#[trigger] distances@[j])@.len() == old(self)@.len() && sortable(
                        distances@[j]@,
                    ),
                q <= queries@.len(),
                forall|j: int| 0 <= j < q ==> (#[trigger] queries@[j])@.len() == dim,
                all@.len() == q,
                forall|j: int| 0 <= j < q ==> search_hits(old(self)@, distances@[j]@, k as nat, (#[trigger] all@[j])@),
                self.spec_stats() == (Stats {
                    search_count: bumped_usize_by(
                        old(self).spec_stats().search_count,
                        if old(self).spec_stats_enabled() {
                            q as nat
                        } else {
                            0
                        },
                    ),
                    ..old(self).spec_stats()
                }),
            decreases queries@.len() - q,
        {
            let res = self.search(queries[q].as_slice(), distances[q].as_slice(), k);
            match res {
                Ok(hits) => {
                    all.push(hits);
                },
                Err(e) => {
                    proof {
                        lemma_first_bad_at(queries@, dim, q as int);
                    }
                    return Err(e);
                },
            }
            q += 1;
        }
        proof {
            lemma_first_bad_none(queries@, dim);
        }
        Ok(all)
    }

    /// The body of the database's file (what follows the JSON description):
    /// the entries, their number and the id-map records, each id with its
    /// position in storage order.
    pub fn encode_body(&self) -> (out: Vec<u8>)
        requires
            self.wf(),
        ensures
            out@ == body_bytes(self@),
    {
        let mut out: Vec<u8> = Vec::new();
        let n = self.entries.len();
        let mut i: usize = 0;
        while i < n
            invariant
                self.wf(),
                n == self@.len(),
                i <= n,
                out@ == entries_bytes(self@.take(i as int)),
            decreases n - i,
        {
            let e = &self.entries[i];
            proof {
                assert(self@[i as int] == e@);
            }
            encode_entry(&mut out, e.id, e.vector.as_slice(), &e.metadata);
            proof {
                lemma_entries_bytes_snoc(self@.take(i as int), e@);
                assert(self@.take(i + 1) =~= self@.take(i as int).push(e@));
            }
            i += 1;
        }
        proof {
            assert(self@.take(n as int) =~= self@);
        }
        let ghost entries_part = out@;
        crate::le_bytes::push_len_le(&mut out, n);
        let ghost counted = out@;
        let mut j: usize = 0;
        while j < n
            invariant
                self.wf(),
                n == self@.len(),
                j <= n,
                out@ == counted + id_map_bytes(self@.take(j as int), 0),
            decreases n - j,
        {
            encode_pair(&mut out, self.entries[j].id, j);
            proof {
                assert(self@[j as int].id == self.entries@[j as int].id);
                lemma_id_map_bytes_snoc(self@.take(j as int), self@[j as int], 0);
                assert(self@.take(j + 1) =~= self@.take(j as int).push(self@[j as int]));
            }
            j += 1;
        }
        proof {
            assert(self@.take(n as int) =~= self@);
        }
        out
    }

    /// The database's file: its description (the JSON that records the
    /// dimension, metric and size) as a length-prefixed section, then the
    /// body.
    pub fn save_bytes(&self, description: &[u8]) -> (out: Vec<u8>)
        requires
            self.wf(),
        ensures
            out@ == section_bytes(description@) + body_bytes(self@),
    {
        let mut out: Vec<u8> = Vec::new();
        push_section(&mut out, description);
        let body = self.encode_body();
        let ghost head = out@;
        let mut i: usize = 0;
        while i < body.len()
            invariant
                i <= body@.len(),
                out@ == head + body@.take(i as int),
            decreases body@.len() - i,
        {
            out.push(body[i]);
            proof {
                assert(body@.take(i + 1) =~= body@.take(i as int).push(body@[i as int]));
            }
            i += 1;
        }
        proof {
            assert(body@.take(body@.len() as int) =~= body@);
            assert(head =~= Seq::<u8>::empty() + section_bytes(description@));
        }
        out
    }

    /// The description at the start of a file and the position where the
    /// body starts.
    ///
    /// Fails with `IoError(UnexpectedEof)` when the file ends before the
    /// description does.
    pub fn read_description(file: &[u8]) -> (r: Result<(Vec<u8>, usize), Error>)
        ensures
            match parse_section(file@, 0) {
                Some((d, end)) => r matches Ok((v, e)) && v@ == d && e == end,
                None => r == Err::<(Vec<u8>, usize), Error>(Error::IoError(IoFailure::UnexpectedEof)),
            },
    {
        match read_section(file, 0) {
            Some((d, end)) => Ok((d, end)),
            None => Err(Error::IoError(IoFailure::UnexpectedEof)),
        }
    }

    /// A database of the given dimension and metric holding the `size`
    /// entries that a file body declares.
    ///
    /// Fails with `IoError(UnexpectedEof)` when the body ends before the
    /// entries or the id-map section do, and with `DuplicateId` when two of
    /// its entries share an id (the id-map records are read past, as the
    /// positions follow from the entries).
    pub fn from_body(dimension: usize, metric: DistanceMetric, size: usize, body: &[u8]) -> (r: Result<VectorDB, Error>)
        ensures
            built_from_body(r, dimension, metric, size as nat, body@),
    {
        let (entries, end) = match read_entries(body, size) {
            Some(x) => x,
            None => {
                return Err(Error::IoError(IoFailure::UnexpectedEof));
            },
        };
        if body.len() - end < 4 {
            return Err(Error::IoError(IoFailure::UnexpectedEof));
        }
        let records = read_u32_le(body, end) as usize;
        let room = body.len() - end - 4;
        if room / 12 < records {
            return Err(Error::IoError(IoFailure::UnexpectedEof));
        }
        Self::from_entries(dimension, metric, entries)
    }

    /// A database of the given dimension and metric over these entries, in
    /// this order.
    ///
    /// Fails with `DuplicateId` when two entries share an id.
    pub fn from_entries(dimension: usize, metric: DistanceMetric, entries: Vec<VectorEntry>) -> (r: Result<
        VectorDB,
        Error,
    >)
        ensures
            ({
                let es = entries@.map_values(|e: VectorEntry| e@);
                if unique_ids(es) {
                    r matches Ok(db) && {
                        &&& db.wf()
                        &&& db@ == es
                        &&& db.spec_dimension() == dimension
                        &&& db.spec_metric() == metric
                        &&& db.spec_normalized() == (metric == DistanceMetric::Cosine)
                        &&& db.spec_stats() == Stats::zero()
                        &&& !db.spec_stats_enabled()
                    }
                } else {
                    r matches Err(Error::DuplicateId(_))
                }
            }),
    {
        let ghost es = entries@.map_values(|e: VectorEntry| e@);
        let mut id_map: HashMap<i64, usize> = HashMap::new();
        let mut i: usize = 0;
        while i < entries.len()
            invariant
                es == entries@.map_values(|e: VectorEntry| e@),
                i <= entries@.len(),
                index_matches(id_map@, es.take(i as int)),
            decreases entries@.len() - i,
        {
            let id = entries[i].id;
            proof {
                assert(es[i as int].id == id);
                lemma_index_facts(id_map@, es.take(i as int));
            }
            if id_map.contains_key(&id) {
                proof {
                    let t = es.take(i as int);
                    let j = slot_of(t, id);
                    assert(t[j] == es[j]);
                    assert(es[j].id == es[i as int].id);
                }
                return Err(Error::DuplicateId(id));
            }
            id_map.insert(id, i);
            proof {
                assert(es.take(i + 1) =~= es.take(i as int).push(es[i as int]));
            }
            i += 1;
        }
        proof {
            assert(es.take(entries@.len() as int) =~= es);
            lemma_index_facts(id_map@, es);
        }
        let db = VectorDB {
            entries,
            id_map,
            dimension,
            metric,
            normalized: metric == DistanceMetric::Cosine,
            stats: Stats::default(),
            enable_stats: false,
        };
        Ok(db)
    }
}

/// Reads `size` entries from the start of the data, and the position after
/// them; `None` when the data ends too soon.
pub fn read_entries(data: &[u8], size: usize) -> (r: Option<(Vec<VectorEntry>, usize)>)
    ensures
        match parse_entries(data@, size as nat) {
            Some((es, n)) => r matches Some((v, e)) && v@.map_values(|x: VectorEntry| x@) == es && e == n,
            None => r is None,
        },
        r matches Some((v, e)) ==> e <= data@.len(),
{
    let mut entries: Vec<VectorEntry> = Vec::new();
    let mut pos: usize = 0;
    let mut count: usize = 0;
    while count < size
        invariant
            count <= size,
            pos <= data@.len(),
            parse_entries(data@, count as nat) == Some((entries@.map_values(|e: VectorEntry| e@), pos as nat)),
        decreases size - count,
    {
        let ghost before = entries@.map_values(|e: VectorEntry| e@);
        proof {
            lemma_parse_entries_snoc(data@, count as nat);
        }
        match decode_entry(data, pos) {
            Some((id, vector, metadata, end)) => {
                let ghost e = EntryView { id, vector: vector@, metadata: opt_bytes_view(metadata) };
                entries.push(VectorEntry::new(id, vector, metadata));
                proof {
                    assert(entries@.map_values(|x: VectorEntry| x@) =~= before.push(e));
                }
                pos = end;
            },
            None => {
                proof {
                    lemma_parse_entries_none_mono(data@, (count + 1) as nat, size as nat);
                }
                return None;
            },
        }
        count += 1;
    }
    Some((entries, pos))
}


proof fn lemma_index_facts(index: Map<i64, usize>, entries: Seq<EntryView>)
    requires
        index_matches(index, entries),
    ensures
        unique_ids(entries),
        forall|id: i64| #[trigger] contains_id(entries, id) <==> index.contains_key(id),
        forall|id: i64| #[trigger] index.contains_key(id) ==> slot_of(entries, id) == index[id] as int,
{
    assert forall|i: int, j: int|
        0 <= i < entries.len() && 0 <= j < entries.len() && i != j implies (#[trigger] entries[i]).id
        != (#[trigger] entries[j]).id by {
        assert(index[entries[i].id] == i);
        assert(index[entries[j].id] == j);
    }
    assert forall|id: i64| #[trigger] contains_id(entries, id) <==> index.contains_key(id) by {
        if index.contains_key(id) {
            let i = index[id] as int;
            assert(entries[i].id == id);
        }
        if contains_id(entries, id) {
            let i = choose|i: int| 0 <= i < entries.len() && (#[trigger] entries[i]).id == id;
            assert(index.contains_key(entries[i].id));
        }
    }
    assert forall|id: i64| #[trigger] index.contains_key(id) implies slot_of(entries, id) == index[id] as int by {
        let i = index[id] as int;
        assert(entries[i].id == id);
        assert(contains_id(entries, id));
        let j = slot_of(entries, id);
        assert(entries[j].id == id);
        assert(index[entries[j].id] == j);
    }
}

proof fn lemma_removed_unique(s: Seq<EntryView>, r: int, j: int, i: int)
    requires
        unique_ids(s),
        0 <= r < s.len(),
        0 <= j < i < s.len() - 1,
    ensures
        s.remove(r)[j].id != s.remove(r)[i].id,
{
    let t = s.remove(r);
    let oj = if j < r { j } else { j + 1 };
    let oi = if i < r { i } else { i + 1 };
    assert(t[j] == s[oj]);
    assert(t[i] == s[oi]);
}

pub proof fn lemma_entries_bytes_snoc(es: Seq<EntryView>, e: EntryView)
    ensures
        entries_bytes(es.push(e)) == entries_bytes(es) + crate::qwen35::format::entry_bytes(e),
    decreases es.len(),
{
    if es.len() == 0 {
        reveal_with_fuel(entries_bytes, 2);
        assert(es.push(e).drop_first() =~= Seq::<EntryView>::empty());
        assert(entries_bytes(es.push(e)) =~= crate::qwen35::format::entry_bytes(e));
        assert(entries_bytes(es) =~= Seq::<u8>::empty());
        assert(entries_bytes(es) + crate::qwen35::format::entry_bytes(e) =~= crate::qwen35::format::entry_bytes(e));
    } else {
        assert(es.push(e).drop_first() =~= es.drop_first().push(e));
        lemma_entries_bytes_snoc(es.drop_first(), e);
        assert(entries_bytes(es.push(e)) =~= entries_bytes(es) + crate::qwen35::format::entry_bytes(e));
    }
}

pub proof fn lemma_id_map_bytes_snoc(es: Seq<EntryView>, e: EntryView, from: nat)
    ensures
        id_map_bytes(es.push(e), from) == id_map_bytes(es, from) + pair_bytes(e.id, from + es.len()),
    decreases es.len(),
{
    if es.len() == 0 {
        reveal_with_fuel(id_map_bytes, 2);
        assert(es.push(e).drop_first() =~= Seq::<EntryView>::empty());
        assert(id_map_bytes(es.push(e), from) =~= pair_bytes(e.id, from));
        assert(id_map_bytes(es, from) =~= Seq::<u8>::empty());
        assert(id_map_bytes(es, from) + pair_bytes(e.id, from) =~= pair_bytes(e.id, from));
    } else {
        assert(es.push(e).drop_first() =~= es.drop_first().push(e));
        lemma_id_map_bytes_snoc(es.drop_first(), e, from + 1);
        assert(id_map_bytes(es.push(e), from) =~= id_map_bytes(es, from) + pair_bytes(e.id, from + es.len()));
    }
}

/// The id-map records take 12 bytes each.
pub proof fn lemma_id_map_bytes_len(es: Seq<EntryView>, from: nat)
    ensures
        id_map_bytes(es, from).len() == 12 * es.len(),
    decreases es.len(),
{
    if es.len() > 0 {
        crate::le_bytes::lemma_le_bytes_len(crate::qwen35::format::id_bits(es[0].id), 8);
        crate::le_bytes::lemma_le_bytes_len(from, 4);
        lemma_id_map_bytes_len(es.drop_first(), from + 1);
    }
}

/// Reading back what was written: the body that `encode_body` writes for
/// some entries holds those entries (metadata of length zero reading as
/// missing), when the file can record their lengths and number.
pub proof fn law_body_roundtrip(es: Seq<EntryView>)
    requires
        es.len() <= u32::MAX,
        forall|i: int| 0 <= i < es.len() ==> storable(#[trigger] es[i]),
    ensures
        body_entries(body_bytes(es), es.len()) == Some(es.map_values(|e: EntryView| as_read(e))),
{
    let eb = entries_bytes(es);
    let cnt = le_bytes(es.len(), 4);
    let ids = id_map_bytes(es, 0);
    let body = body_bytes(es);
    assert(body =~= eb + (cnt + ids));
    crate::qwen35::format::lemma_parse_entries(es, cnt + ids);
    crate::le_bytes::lemma_pow256_4_8();
    crate::le_bytes::lemma_le_roundtrip(es.len(), 4);
    lemma_id_map_bytes_len(es, 0);
    assert(body.subrange(eb.len() as int, eb.len() as int + 4) =~= cnt);
}

/// Once the bytes run out for some entries, they run out for more.
proof fn lemma_parse_entries_none_mono(data: Seq<u8>, c: nat, c2: nat)
    requires
        c <= c2,
        parse_entries(data, c) is None,
    ensures
        parse_entries(data, c2) is None,
    decreases c2 - c,
{
    if c < c2 {
        lemma_parse_entries_snoc(data, c);
        lemma_parse_entries_none_mono(data, c + 1, c2);
    }
}

/// Parsing one more entry extends the parse of the earlier ones.
proof fn lemma_parse_entries_snoc(data: Seq<u8>, count: nat)
    ensures
        match parse_entries(data, count) {
            Some((es, n)) => {
                &&& n <= data.len()
                &&& parse_entries(data, count + 1) == match crate::qwen35::format::parse_entry(data.skip(n as int)) {
                    Some((e, m)) => Some((es.push(e), n + m)),
                    None => None::<(Seq<EntryView>, nat)>,
                }
            },
            None => parse_entries(data, count + 1) is None,
        },
    decreases count,
{
    if count == 0 {
        reveal_with_fuel(parse_entries, 2);
        assert(data.skip(0) =~= data);
        match crate::qwen35::format::parse_entry(data) {
            Some((e, m)) => {
                assert(data.skip(m as int).len() >= 0);
                assert(seq![e] + Seq::<EntryView>::empty() =~= Seq::<EntryView>::empty().push(e));
            },
            None => {},
        }
    } else {
        match crate::qwen35::format::parse_entry(data) {
            Some((e0, n0)) => {
                let rest = data.skip(n0 as int);
                lemma_parse_entries_snoc(rest, (count - 1) as nat);
                match parse_entries(rest, (count - 1) as nat) {
                    Some((es, m)) => {
                        assert(rest.skip(m as int) =~= data.skip((n0 + m) as int));
                        match crate::qwen35::format::parse_entry(data.skip((n0 + m) as int)) {
                            Some((e, k)) => {
                                assert(seq![e0] + es.push(e) =~= (seq![e0] + es).push(e));
                            },
                            None => {},
                        }
                    },
                    None => {},
                }
            },
            None => {},
        }
    }
}

/// The position of the first query whose length is not `dim`, or the
/// number of queries when there is none.
pub open spec fn first_bad_query(queries: Seq<Vec<u32>>, dim: usize) -> int
    decreases queries.len(),
{
    if queries.len() == 0 {
        0
    } else if queries[0]@.len() != dim {
        0
    } else {
        1 + first_bad_query(queries.drop_first(), dim)
    }
}

proof fn lemma_first_bad_at(queries: Seq<Vec<u32>>, dim: usize, q: int)
    requires
        0 <= q < queries.len(),
        forall|j: int| 0 <= j < q ==> (#[trigger] queries[j])@.len() == dim,
        queries[q]@.len() != dim,
    ensures
        first_bad_query(queries, dim) == q,
    decreases q,
{
    if q > 0 {
        let rest = queries.drop_first();
        assert forall|j: int| 0 <= j < q - 1 implies (#[trigger] rest[j])@.len() == dim by {
            assert(rest[j] == queries[j + 1]);
        }
        assert(rest[q - 1] == queries[q]);
        lemma_first_bad_at(rest, dim, q - 1);
        assert(queries[0]@.len() == dim);
    }
}

proof fn lemma_first_bad_none(queries: Seq<Vec<u32>>, dim: usize)
    requires
        forall|j: int| 0 <= j < queries.len() ==> (#[trigger] queries[j])@.len() == dim,
    ensures
        first_bad_query(queries, dim) == queries.len(),
    decreases queries.len(),
{
    if queries.len() > 0 {
        let rest = queries.drop_first();
        assert forall|j: int| 0 <= j < rest.len() implies (#[trigger] rest[j])@.len() == dim by {
            assert(rest[j] == queries[j + 1]);
        }
        assert(queries[0]@.len() == dim);
        lemma_first_bad_none(rest, dim);
    }
}

/// Reading back what was written: after an entry with a new id is
/// appended, looking its id up gives that entry, every other id gives what
/// it gave before, and ids stay unique.
pub proof fn law_insert_then_get(entries: Seq<EntryView>, e: EntryView)
    requires
        unique_ids(entries),
        !contains_id(entries, e.id),
    ensures
        unique_ids(entries.push(e)),
        lookup(entries.push(e), e.id) == Some(e),
        forall|other: i64| other != e.id ==> #[trigger] lookup(entries.push(e), other) == lookup(entries, other),
{
    let after = entries.push(e);
    assert(after[entries.len() as int] == e);
    assert(contains_id(after, e.id));
    let j = slot_of(after, e.id);
    if j != entries.len() as int {
        assert(after[j] == entries[j]);
    }
    assert forall|other: i64| other != e.id implies #[trigger] lookup(after, other) == lookup(entries, other) by {
        if contains_id(entries, other) {
            let i = slot_of(entries, other);
            assert(after[i] == entries[i]);
            assert(contains_id(after, other));
            let k = slot_of(after, other);
            if k < entries.len() {
                assert(after[k] == entries[k]);
            }
        }
        if contains_id(after, other) {
            let k = slot_of(after, other);
            assert(k < entries.len());
            assert(after[k] == entries[k]);
        }
    }
}

/// After the entry with an id is removed (the later ones moving up), the id
/// is gone, every other id gives what it gave before, the others keep
/// their order, and ids stay unique.
pub proof fn law_delete_then_get(entries: Seq<EntryView>, id: i64)
    requires
        unique_ids(entries),
        contains_id(entries, id),
    ensures
        unique_ids(entries.remove(slot_of(entries, id))),
        lookup(entries.remove(slot_of(entries, id)), id) is None,
        entries.remove(slot_of(entries, id)).len() == entries.len() - 1,
        forall|other: i64|
            other != id ==> #[trigger] lookup(entries.remove(slot_of(entries, id)), other) == lookup(entries, other),
{
    let s = slot_of(entries, id);
    let after = entries.remove(s);
    assert forall|i: int| 0 <= i < after.len() implies (#[trigger] after[i]) == entries[if i < s {
        i
    } else {
        i + 1
    }] by {}
    assert forall|i: int, j: int|
        0 <= i < after.len() && 0 <= j < after.len() && i != j implies (#[trigger] after[i]).id
        != (#[trigger] after[j]).id by {
        let oi = if i < s { i } else { i + 1 };
        let oj = if j < s { j } else { j + 1 };
        assert(after[i] == entries[oi]);
        assert(after[j] == entries[oj]);
    }
    assert(!contains_id(after, id)) by {
        if contains_id(after, id) {
            let i = choose|i: int| 0 <= i < after.len() && (#[trigger] after[i]).id == id;
            let oi = if i < s { i } else { i + 1 };
            assert(after[i] == entries[oi]);
            assert(oi != s);
        }
    }
    assert forall|other: i64| other != id implies #[trigger] lookup(after, other) == lookup(entries, other) by {
        if contains_id(entries, other) {
            let i = slot_of(entries, other);
            assert(i != s);
            let ni = if i < s { i } else { i - 1 };
            assert(after[ni] == entries[i]);
            assert(contains_id(after, other));
            let k = slot_of(after, other);
            let ok = if k < s { k } else { k + 1 };
            assert(after[k] == entries[ok]);
        }
        if contains_id(after, other) {
            let k = slot_of(after, other);
            let ok = if k < s { k } else { k + 1 };
            assert(after[k] == entries[ok]);
            assert(contains_id(entries, other));
        }
    }
}

} // verus!
