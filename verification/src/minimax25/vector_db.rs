//! The record store, its flat and IVF searches.

use vstd::prelude::*;

use crate::copying::{copy_opt_bytes, copy_words, opt_bytes_view};
use crate::float_bits::{distance_keys, keys_of, order_key};
use crate::minimax25::distance::DistanceMetric;
use crate::minimax25::error::Error;
use crate::ranking::{precedes, ranks_first};

verus! {

/// `dashmap::DashMap`, the concurrent map from ids to storage positions.
#[verifier::external_type_specification]
#[verifier::external_body]
#[verifier::reject_recursive_types(K)]
#[verifier::reject_recursive_types(V)]
#[verifier::reject_recursive_types(S)]
pub struct ExDashMap<K, V, S>(dashmap::DashMap<K, V, S>);

/// The positions of the entries in one cluster, held in a
/// `smallvec::SmallVec` with room for 64 inline.
#[verifier::external_body]
pub struct ClusterList {
    list: smallvec::SmallVec<[usize; 64]>,
}

/// The pairs that an id map holds.
pub uninterp spec fn dash_contents(m: dashmap::DashMap<u64, usize>) -> Map<u64, usize>;

/// The positions that a cluster list holds, in order.
pub uninterp spec fn small_contents(v: ClusterList) -> Seq<usize>;

/// `DashMap::with_capacity`: an empty map.
#[verifier::external_body]
fn dash_with_capacity(capacity: usize) -> (m: dashmap::DashMap<u64, usize>)
    ensures
        dash_contents(m).is_empty(),
{
    dashmap::DashMap::with_capacity(capacity)
}

/// `DashMap::contains_key`: whether the key is stored.
#[verifier::external_body]
fn dash_contains(m: &dashmap::DashMap<u64, usize>, k: u64) -> (r: bool)
    ensures
        r == dash_contents(*m).contains_key(k),
{
    m.contains_key(&k)
}

/// `DashMap::get`: the value stored under the key, copied out of the
/// returned guard.
#[verifier::external_body]
fn dash_get(m: &dashmap::DashMap<u64, usize>, k: u64) -> (r: Option<usize>)
    ensures
        r == (if dash_contents(*m).contains_key(k) {
            Some(dash_contents(*m)[k])
        } else {
            None
        }),
{
    m.get(&k).map(|e| *e)
}

/// `DashMap::insert`: stores the value under the key and returns the value
/// it replaces.
#[verifier::external_body]
fn dash_insert(m: &mut dashmap::DashMap<u64, usize>, k: u64, v: usize) -> (r: Option<usize>)
    ensures
        dash_contents(*final(m)) == dash_contents(*old(m)).insert(k, v),
        r == (if dash_contents(*old(m)).contains_key(k) {
            Some(dash_contents(*old(m))[k])
        } else {
            None
        }),
{
    m.insert(k, v)
}

/// `DashMap::remove`: removes the key and returns it with its value.
#[verifier::external_body]
fn dash_remove(m: &mut dashmap::DashMap<u64, usize>, k: u64) -> (r: Option<(u64, usize)>)
    ensures
        dash_contents(*final(m)) == dash_contents(*old(m)).remove(k),
        r == (if dash_contents(*old(m)).contains_key(k) {
            Some((k, dash_contents(*old(m))[k]))
        } else {
            None
        }),
{
    m.remove(&k)
}

/// `SmallVec::new`: an empty list.
#[verifier::external_body]
fn small_new() -> (v: ClusterList)
    ensures
        small_contents(v).len() == 0,
{
    ClusterList { list: smallvec::SmallVec::new() }
}

/// `SmallVec::push`: appends a position.
#[verifier::external_body]
fn small_push(v: &mut ClusterList, x: usize)
    requires
        small_contents(*old(v)).len() < usize::MAX,
    ensures
        small_contents(*final(v)) == small_contents(*old(v)).push(x),
{
    v.list.push(x)
}

/// `SmallVec::len`: the number of positions.
#[verifier::external_body]
fn small_len(v: &ClusterList) -> (n: usize)
    ensures
        n == small_contents(*v).len(),
{
    v.list.len()
}

/// Indexing a `SmallVec` (through its slice): the position at `i`.
#[verifier::external_body]
fn small_get(v: &ClusterList, i: usize) -> (x: usize)
    requires
        i < small_contents(*v).len(),
    ensures
        x == small_contents(*v)[i as int],
{
    v.list[i]
}

/// How many clusters an index is built with when none is asked for.
pub const DEFAULT_CLUSTERS: usize = 32usize;

/// How many entries the store makes room for at first.
pub const DEFAULT_CAPACITY: usize = 1024usize;

/// A stored vector: its id, its components (each `f32` by its bit pattern)
/// and optional metadata bytes.
#[derive(Debug)]
pub struct VectorEntry {
    pub id: u64,
    pub vector: Vec<u32>,
    pub metadata: Option<Vec<u8>>,
}

/// What a stored vector holds.
pub struct EntryView {
    pub id: u64,
    pub vector: Seq<u32>,
    pub metadata: Option<Seq<u8>>,
}

impl View for VectorEntry {
    type V = EntryView;

    open spec fn view(&self) -> EntryView {
        EntryView { id: self.id, vector: self.vector@, metadata: opt_bytes_view(self.metadata) }
    }
}

impl VectorEntry {
    /// An entry of these parts.
    pub fn new(id: u64, vector: Vec<u32>, metadata: Option<Vec<u8>>) -> (e: Self)
        ensures
            e@ == (EntryView { id, vector: vector@, metadata: opt_bytes_view(metadata) }),
    {
        VectorEntry { id, vector, metadata }
    }

    /// A copy of the entry.
    pub fn copy(&self) -> (r: VectorEntry)
        ensures
            r@ == self@,
    {
        VectorEntry {
            id: self.id,
            vector: copy_words(self.vector.as_slice()),
            metadata: copy_opt_bytes(&self.metadata),
        }
    }
}

/// One search hit: the id, the distance (`f32` bit pattern) and the metadata.
#[derive(Debug)]
pub struct SearchResult {
    pub id: u64,
    pub distance: u32,
    pub metadata: Option<Vec<u8>>,
}

/// What a search hit holds.
pub struct SearchResultView {
    pub id: u64,
    pub distance: u32,
    pub metadata: Option<Seq<u8>>,
}

impl View for SearchResult {
    type V = SearchResultView;

    open spec fn view(&self) -> SearchResultView {
        SearchResultView { id: self.id, distance: self.distance, metadata: opt_bytes_view(self.metadata) }
    }
}

/// The views of a sequence of hits.
pub open spec fn hits_view(v: Seq<SearchResult>) -> Seq<SearchResultView> {
    v.map_values(|r: SearchResult| r@)
}

/// Operation counters.
#[derive(Debug, Clone, Copy, PartialEq, Eq, Structural)]
pub struct Stats {
    pub insert_count: u64,
    pub delete_count: u64,
    pub search_count: u64,
    pub get_count: u64,
}

impl Stats {
    /// All counters at zero.
    pub open spec fn zero() -> Stats {
        Stats { insert_count: 0, delete_count: 0, search_count: 0, get_count: 0 }
    }
}

impl Default for Stats {
    /// All counters at zero.
    fn default() -> (s: Self)
        ensures
            s == Stats::zero(),
    {
        Stats { insert_count: 0, delete_count: 0, search_count: 0, get_count: 0 }
    }
}

/// The hits at the given positions of the stored entries, each with its
/// distance.
pub open spec fn hits_at(
    entries: Seq<EntryView>,
    distances: Seq<u32>,
    slots: Seq<usize>,
    res: Seq<SearchResultView>,
) -> bool {
    &&& res.len() == slots.len()
    &&& forall|i: int|
        0 <= i < res.len() ==> {
            let e = entries[#[trigger] slots[i] as int];
            &&& res[i].id == e.id
            &&& res[i].distance == distances[slots[i] as int]
            &&& res[i].metadata == e.metadata
        }
}

/// `res` is what a flat search returns: the `k` entries of smallest
/// distance, smallest first (ties in storage order).
pub open spec fn search_hits(entries: Seq<EntryView>, distances: Seq<u32>, k: nat, res: Seq<SearchResultView>) -> bool {
    exists|slots: Seq<usize>| ranks_first(keys_of(distances), false, k, slots) && hits_at(entries, distances, slots, res)
}

/// The positions listed in the probed clusters, cluster by cluster.
pub open spec fn probed(clusters: Seq<Seq<usize>>, order: Seq<usize>) -> Seq<usize>
    decreases order.len(),
{
    if order.len() == 0 {
        Seq::empty()
    } else {
        probed(clusters, order.drop_last()) + clusters[order.last() as int]
    }
}

/// The distances of the listed positions.
pub open spec fn distances_of(distances: Seq<u32>, positions: Seq<usize>) -> Seq<u32> {
    positions.map_values(|p: usize| distances[p as int])
}

/// `res` is what an IVF search returns: the `nprobe` clusters whose centres
/// are nearest are probed (nearest first), and of the entries they list (in
/// that order) the `k` of smallest distance are returned, smallest first.
pub open spec fn ivf_hits(
    entries: Seq<EntryView>,
    clusters: Seq<Seq<usize>>,
    center_distances: Seq<u32>,
    distances: Seq<u32>,
    nprobe: nat,
    k: nat,
    res: Seq<SearchResultView>,
) -> bool {
    exists|order: Seq<usize>, slots: Seq<usize>|
        #![trigger ranks_first(keys_of(center_distances), false, nprobe, order), ranks_first(keys_of(distances_of(distances, probed(clusters, order))), false, k, slots)]
        {
            let cands = probed(clusters, order);
            &&& ranks_first(keys_of(center_distances), false, nprobe, order)
            &&& ranks_first(keys_of(distances_of(distances, cands)), false, k, slots)
            &&& hits_at(entries, distances, slots.map_values(|s: usize| cands[s as int]), res)
        }
}

/// The positions `i < n` whose assignment is `c`, in order.
pub open spec fn members(assignments: Seq<usize>, c: usize, n: nat) -> Seq<usize>
    decreases n,
{
    if n == 0 {
        Seq::empty()
    } else {
        let rest = members(assignments, c, (n - 1) as nat);
        if assignments[n - 1] == c {
            rest.push((n - 1) as usize)
        } else {
            rest
        }
    }
}

/// The number of clusters an index is built with: the number asked for
/// (`DEFAULT_CLUSTERS` for zero), at most the number of entries.
pub open spec fn cluster_count(asked: usize, len: nat) -> nat {
    let k: nat = if asked == 0 {
        DEFAULT_CLUSTERS as nat
    } else {
        asked as nat
    };
    if k <= len {
        k
    } else {
        len
    }
}

/// What a lookup of an id finds: the entry at the position the map gives
/// for it, when the map holds the id and the position is in range.
pub open spec fn lookup(entries: Seq<EntryView>, map: Map<u64, usize>, id: u64) -> Option<EntryView> {
    if map.contains_key(id) && map[id] < entries.len() {
        Some(entries[map[id] as int])
    } else {
        None
    }
}

/// The id map indexes the entries: it maps each stored id to the position
/// of its entry, and nothing else.
pub open spec fn indexes(entries: Seq<EntryView>, map: Map<u64, usize>) -> bool {
    &&& forall|k: u64| #[trigger] map.contains_key(k) ==> map[k] < entries.len() && entries[map[k] as int].id == k
    &&& forall|i: int| 0 <= i < entries.len() ==> map.contains_key((#[trigger] entries[i]).id) && map[entries[i].id] == i
}

/// The id map after the entry of `id` is removed from the store: `id` is
/// gone, and each entry after it has moved down one position.
pub open spec fn map_after_delete(map: Map<u64, usize>, id: u64) -> Map<u64, usize> {
    Map::new(
        |k: u64| map.contains_key(k) && k != id,
        |k: u64|
            if map[k] > map[id] {
                (map[k] - 1) as usize
            } else {
                map[k]
            },
    )
}

/// An in-memory store of vectors of one dimension, with an id map and an
/// optional IVF index.
pub struct VectorDB {
    dimension: u32,
    entries: Vec<VectorEntry>,
    id_map: dashmap::DashMap<u64, usize>,
    metric: DistanceMetric,
    use_index: bool,
    ivf_built: bool,
    num_clusters: usize,
    cluster_centers: Option<Vec<Vec<u32>>>,
    clusters: Option<Vec<ClusterList>>,
    stats: Stats,
}

impl View for VectorDB {
    type V = Seq<EntryView>;

    /// The stored entries, in storage order.
    closed spec fn view(&self) -> Seq<EntryView> {
        self.entries@.map_values(|e: VectorEntry| e@)
    }
}

impl VectorDB {
    /// The map from ids to storage positions.
    pub closed spec fn spec_id_map(&self) -> Map<u64, usize> {
        dash_contents(self.id_map)
    }

    /// The dimension every stored vector has.
    pub closed spec fn spec_dimension(&self) -> u32 {
        self.dimension
    }

    /// The metric the distances are measured by.
    pub closed spec fn spec_metric(&self) -> DistanceMetric {
        self.metric
    }

    /// Whether the index flag is set.
    pub closed spec fn spec_use_index(&self) -> bool {
        self.use_index
    }

    /// Whether an IVF index has been built.
    pub closed spec fn spec_ivf_built(&self) -> bool {
        self.ivf_built
    }

    /// The number of clusters of the IVF index.
    pub closed spec fn spec_num_clusters(&self) -> usize {
        self.num_clusters
    }

    /// The cluster centres, once built.
    pub closed spec fn spec_centers(&self) -> Seq<Seq<u32>> {
        match self.cluster_centers {
            Some(c) => c@.map_values(|v: Vec<u32>| v@),
            None => Seq::empty(),
        }
    }

    /// The clusters' positions, once built.
    pub closed spec fn spec_clusters(&self) -> Seq<Seq<usize>> {
        match self.clusters {
            Some(c) => c@.map_values(|l: ClusterList| small_contents(l)),
            None => Seq::empty(),
        }
    }

    /// The operation counters.
    pub closed spec fn spec_stats(&self) -> Stats {
        self.stats
    }

    /// Every stored vector has the dimension; the id map indexes the
    /// entries; a built index has its centres and one list per cluster.
    pub closed spec fn wf(&self) -> bool {
        &&& forall|i: int| 0 <= i < self.entries@.len() ==> (#[trigger] self.entries@[i]).vector@.len() == self.dimension
        &&& indexes(self@, self.spec_id_map())
        &&& self.ivf_built ==> {
            &&& self.cluster_centers is Some
            &&& self.clusters is Some
            &&& self.spec_centers().len() == self.num_clusters
            &&& self.spec_clusters().len() == self.num_clusters
        }
    }

    /// The probed positions all name stored entries.
    pub open spec fn clusters_fit(&self) -> bool {
        forall|c: int, j: int|
            0 <= c < self.spec_clusters().len() && 0 <= j < self.spec_clusters()[c].len() ==> #[trigger] self.spec_clusters()[c][j]
                < self@.len()
    }

    /// An empty cosine store.
    pub fn new(dimension: u32) -> (db: Self)
        ensures
            db.wf(),
            db@ == Seq::<EntryView>::empty(),
            db.spec_id_map().is_empty(),
            indexes(db@, db.spec_id_map()),
            db.spec_dimension() == dimension,
            db.spec_metric() == DistanceMetric::Cosine,
            !db.spec_use_index(),
            !db.spec_ivf_built(),
            db.spec_num_clusters() == 0,
            db.spec_stats() == Stats::zero(),
    {
        let db = VectorDB {
            dimension,
            entries: Vec::with_capacity(DEFAULT_CAPACITY),
            id_map: dash_with_capacity(DEFAULT_CAPACITY),
            metric: DistanceMetric::Cosine,
            use_index: false,
            ivf_built: false,
            num_clusters: 0,
            cluster_centers: None,
            clusters: None,
            stats: Stats::default(),
        };
        proof {
            assert(db@ =~= Seq::<EntryView>::empty());
        }
        db
    }

    /// An empty store measured by the given metric.
    pub fn with_metric(dimension: u32, metric: DistanceMetric) -> (db: Self)
        ensures
            db.wf(),
            db@ == Seq::<EntryView>::empty(),
            db.spec_id_map().is_empty(),
            indexes(db@, db.spec_id_map()),
            db.spec_dimension() == dimension,
            db.spec_metric() == metric,
            !db.spec_use_index(),
            !db.spec_ivf_built(),
            db.spec_num_clusters() == 0,
            db.spec_stats() == Stats::zero(),
    {
        let mut db = Self::new(dimension);
        db.metric = metric;
        db
    }

    /// The dimension every stored vector has.
    pub fn dimension(&self) -> (d: u32)
        ensures
            d == self.spec_dimension(),
    {
        self.dimension
    }

    /// The metric the distances are measured by.
    pub fn metric(&self) -> (m: DistanceMetric)
        ensures
            m == self.spec_metric(),
    {
        self.metric
    }

    /// Whether vectors are stored (and queries searched) normalized: the
    /// cosine metric normalizes.
    pub fn normalizes(&self) -> (b: bool)
        ensures
            b == (self.spec_metric() == DistanceMetric::Cosine),
    {
        self.metric == DistanceMetric::Cosine
    }

    /// The number of stored entries.
    pub fn len(&self) -> (n: usize)
        ensures
            n == self@.len(),
    {
        self.entries.len()
    }

    /// Whether no entry is stored.
    pub fn is_empty(&self) -> (b: bool)
        ensures
            b == (self@.len() == 0),
    {
        self.len() == 0
    }

    /// The entry at a storage position, for computing distances to it.
    pub fn entry_at(&self, slot: usize) -> (e: &VectorEntry)
        requires
            slot < self@.len(),
        ensures
            e@ == self@[slot as int],
    {
        &self.entries[slot]
    }

    /// Stores a vector under a new id; a cosine store is given the vector
    /// normalized.
    ///
    /// Fails with `InvalidDimension` when the vector's length is not the
    /// dimension, then with `DuplicateId` when the id map holds the id;
    /// otherwise the entry is appended and the id mapped to its position.
    pub fn insert(&mut self, id: u64, vector: Vec<u32>, metadata: Option<Vec<u8>>) -> (r: Result<(), Error>)
        requires
            old(self).wf(),
        ensures
            final(self).wf(),
            final(self).spec_dimension() == old(self).spec_dimension(),
            final(self).spec_metric() == old(self).spec_metric(),
            final(self).spec_use_index() == old(self).spec_use_index(),
            final(self).spec_ivf_built() == old(self).spec_ivf_built(),
            final(self).spec_num_clusters() == old(self).spec_num_clusters(),
            final(self).spec_centers() == old(self).spec_centers(),
            final(self).spec_clusters() == old(self).spec_clusters(),
            final(self).spec_stats() == old(self).spec_stats(),
            vector@.len() != old(self).spec_dimension() ==> {
                &&& r == Err::<(), Error>(Error::InvalidDimension)
                &&& final(self)@ == old(self)@
                &&& final(self).spec_id_map() == old(self).spec_id_map()
            },
            vector@.len() == old(self).spec_dimension() && old(self).spec_id_map().contains_key(id) ==> {
                &&& r == Err::<(), Error>(Error::DuplicateId)
                &&& final(self)@ == old(self)@
                &&& final(self).spec_id_map() == old(self).spec_id_map()
            },
            vector@.len() == old(self).spec_dimension() && !old(self).spec_id_map().contains_key(id) ==> {
                &&& r is Ok
                &&& final(self)@ == old(self)@.push(
                    EntryView { id, vector: vector@, metadata: opt_bytes_view(metadata) },
                )
                &&& final(self).spec_id_map() == old(self).spec_id_map().insert(id, old(self)@.len() as usize)
            },
    {
        if vector.len() as u64 != self.dimension as u64 {
            return Err(Error::InvalidDimension);
        }
        if dash_contains(&self.id_map, id) {
            return Err(Error::DuplicateId);
        }
        let index = self.entries.len();
        let entry = VectorEntry::new(id, vector, metadata);
        let _ = dash_insert(&mut self.id_map, id, index);
        self.entries.push(entry);
        proof {
            let e = EntryView { id, vector: vector@, metadata: opt_bytes_view(metadata) };
            assert(self@ =~= old(self)@.push(e));
            assert forall|i: int| 0 <= i < self@.len() implies self.spec_id_map().contains_key((#[trigger] self@[i]).id)
                && self.spec_id_map()[self@[i].id] == i by {
                if i < old(self)@.len() {
                    assert(old(self)@[i] == self@[i]);
                    assert(old(self).spec_id_map().contains_key(old(self)@[i].id));
                }
            }
            assert(forall|i: int| 0 <= i < self.entries@.len() ==> (#[trigger] self.entries@[i]).vector@.len() == self.dimension);
        }
        Ok(())
    }

    /// Removes an id: its entry is removed from the store, later entries
    /// shift down one position, and the id map follows them.
    ///
    /// Fails with `NotFound` when the id map does not hold the id.
    pub fn delete(&mut self, id: u64) -> (r: Result<(), Error>)
        requires
            old(self).wf(),
        ensures
            final(self).wf(),
            indexes(final(self)@, final(self).spec_id_map()),
            final(self).spec_dimension() == old(self).spec_dimension(),
            final(self).spec_metric() == old(self).spec_metric(),
            final(self).spec_use_index() == old(self).spec_use_index(),
            final(self).spec_ivf_built() == old(self).spec_ivf_built(),
            final(self).spec_num_clusters() == old(self).spec_num_clusters(),
            final(self).spec_centers() == old(self).spec_centers(),
            final(self).spec_clusters() == old(self).spec_clusters(),
            final(self).spec_stats() == old(self).spec_stats(),
            !old(self).spec_id_map().contains_key(id) ==> {
                &&& r == Err::<(), Error>(Error::NotFound)
                &&& final(self)@ == old(self)@
                &&& final(self).spec_id_map() == old(self).spec_id_map()
            },
            old(self).spec_id_map().contains_key(id) ==> {
                &&& r is Ok
                &&& final(self).spec_id_map() == map_after_delete(old(self).spec_id_map(), id)
                &&& final(self)@ == old(self)@.remove(old(self).spec_id_map()[id] as int)
            },
    {
        let ghost old_map = self.spec_id_map();
        let ghost old_entries = self@;
        match dash_remove(&mut self.id_map, id) {
            Some((_, index)) => {
                let _ = self.entries.remove(index);
                proof {
                    assert(self@ =~= old_entries.remove(index as int));
                }
                let ghost target = map_after_delete(old_map, id);
                let mut j: usize = index;
                while j < self.entries.len()
                    invariant
                        index <= j <= self@.len(),
                        self@.len() + 1 == old_entries.len(),
                        index == old_map[id],
                        old_map.contains_key(id),
                        indexes(old_entries, old_map),
                        self@ == old_entries.remove(index as int),
                        forall|i: int| 0 <= i < self.entries@.len() ==> (#[trigger] self.entries@[i]).vector@.len() == self.dimension,
                        self.dimension == old(self).dimension,
                        self.metric == old(self).metric,
                        self.use_index == old(self).use_index,
                        self.ivf_built == old(self).ivf_built,
                        self.num_clusters == old(self).num_clusters,
                        self.cluster_centers == old(self).cluster_centers,
                        self.clusters == old(self).clusters,
                        self.stats == old(self).stats,
                        old(self).wf(),
                        target == map_after_delete(old_map, id),
                        forall|k: u64| #[trigger] self.spec_id_map().contains_key(k) <==> target.contains_key(k),
                        forall|k: u64|
                            #[trigger] target.contains_key(k) ==> self.spec_id_map()[k] == (if old_map[k] > index && old_map[k]
                                - 1 < j {
                                (old_map[k] - 1) as usize
                            } else {
                                old_map[k]
                            }),
                    decreases self@.len() - j,
                {
                    let moved = self.entries[j].id;
                    proof {
                        assert(self@[j as int] == old_entries[j + 1]);
                        assert(old_map.contains_key(old_entries[j + 1].id));
                        assert(old_map[moved] == j + 1);
                        assert(moved != id);
                        assert(target.contains_key(moved));
                    }
                    let _ = dash_insert(&mut self.id_map, moved, j);
                    j += 1;
                }
                proof {
                    assert(self.spec_id_map() =~= target);
                    assert forall|k: u64| #[trigger] target.contains_key(k) implies target[k] < self@.len()
                        && self@[target[k] as int].id == k by {
                        assert(old_map.contains_key(k));
                        if old_map[k] > index {
                            assert(self@[old_map[k] - 1] == old_entries[old_map[k] as int]);
                        } else {
                            assert(old_map[k] != index);
                            assert(self@[old_map[k] as int] == old_entries[old_map[k] as int]);
                        }
                    }
                    assert forall|i: int| 0 <= i < self@.len() implies target.contains_key((#[trigger] self@[i]).id)
                        && target[self@[i].id] == i by {
                        if i < index {
                            assert(self@[i] == old_entries[i]);
                        } else {
                            assert(self@[i] == old_entries[i + 1]);
                        }
                    }
                }
                Ok(())
            },
            None => Err(Error::NotFound),
        }
    }

    /// The entry at the position the id map gives for the id, if the map
    /// holds the id and the position is in range.
    pub fn get(&self, id: u64) -> (r: Option<VectorEntry>)
        ensures
            match r {
                Some(e) => lookup(self@, self.spec_id_map(), id) == Some(e@),
                None => lookup(self@, self.spec_id_map(), id) is None,
            },
    {
        match dash_get(&self.id_map, id) {
            Some(index) => {
                if index < self.entries.len() {
                    Some(self.entries[index].copy())
                } else {
                    None
                }
            },
            None => None,
        }
    }
}

impl VectorDB {
    /// The hits at the given positions, with their distances and metadata.
    fn hits(&self, distances: &[u32], slots: &Vec<usize>) -> (res: Vec<SearchResult>)
        requires
            distances@.len() == self@.len(),
            forall|i: int| 0 <= i < slots@.len() ==> (#[trigger] slots@[i]) < self@.len(),
        ensures
            hits_at(self@, distances@, slots@, hits_view(res@)),
    {
        let mut res: Vec<SearchResult> = Vec::with_capacity(slots.len());
        let mut i: usize = 0;
        while i < slots.len()
            invariant
                distances@.len() == self@.len(),
                forall|j: int| 0 <= j < slots@.len() ==> (#[trigger] slots@[j]) < self@.len(),
                i <= slots@.len(),
                res@.len() == i,
                forall|j: int|
                    0 <= j < i ==> {
                        let e = self@[#[trigger] slots@[j] as int];
                        &&& res@[j]@.id == e.id
                        &&& res@[j]@.distance == distances@[slots@[j] as int]
                        &&& res@[j]@.metadata == e.metadata
                    },
            decreases slots@.len() - i,
        {
            let slot = slots[i];
            let e = &self.entries[slot];
            assert(e@ == self@[slot as int]);
            res.push(SearchResult { id: e.id, distance: distances[slot], metadata: copy_opt_bytes(&e.metadata) });
            i += 1;
        }
        proof {
            assert forall|j: int| 0 <= j < res@.len() implies {
                let e = self@[#[trigger] slots@[j] as int];
                &&& hits_view(res@)[j].id == e.id
                &&& hits_view(res@)[j].distance == distances@[slots@[j] as int]
                &&& hits_view(res@)[j].metadata == e.metadata
            } by {
                assert(hits_view(res@)[j] == res@[j]@);
            }
        }
        res
    }

    /// The `top_k` entries nearest to the query, nearest first (ties in
    /// storage order). `distances[i]` is the distance from the query
    /// (normalized, in a cosine store) to entry `i`. A query of the wrong
    /// length, or an empty store, gives no hit.
    pub fn search(&self, query: &[u32], distances: &[u32], top_k: usize) -> (r: Vec<SearchResult>)
        requires
            query@.len() == self.spec_dimension() && self@.len() > 0 ==> distances@.len() == self@.len(),
        ensures
            query@.len() != self.spec_dimension() || self@.len() == 0 ==> r@.len() == 0,
            query@.len() == self.spec_dimension() && self@.len() > 0 ==> search_hits(
                self@,
                distances@,
                top_k as nat,
                hits_view(r@),
            ),
    {
        if query.len() as u64 != self.dimension as u64 || self.is_empty() {
            return Vec::new();
        }
        let keys = distance_keys(distances);
        let slots = crate::ranking::top_k(keys.as_slice(), top_k, false);
        self.hits(distances, &slots)
    }

    /// The same hits as [`VectorDB::search`].
    pub fn par_search(&self, query: &[u32], distances: &[u32], top_k: usize) -> (r: Vec<SearchResult>)
        requires
            query@.len() == self.spec_dimension() && self@.len() > 0 ==> distances@.len() == self@.len(),
        ensures
            query@.len() != self.spec_dimension() || self@.len() == 0 ==> r@.len() == 0,
            query@.len() == self.spec_dimension() && self@.len() > 0 ==> search_hits(
                self@,
                distances@,
                top_k as nat,
                hits_view(r@),
            ),
    {
        self.search(query, distances, top_k)
    }

    /// Searches for each query in turn; `distances[q]` holds the distances
    /// from query `q` to the entries.
    pub fn batch_search(&self, queries: &[Vec<u32>], distances: &[Vec<u32>], top_k: usize) -> (r: Vec<
        Vec<SearchResult>,
    >)
        requires
            distances@.len() == queries@.len(),
            forall|q: int|
                0 <= q < queries@.len() && (#[trigger] queries@[q])@.len() == self.spec_dimension() && self@.len() > 0
                    ==> distances@[q]@.len() == self@.len(),
        ensures
            r@.len() == queries@.len(),
            forall|q: int|
                0 <= q < queries@.len() ==> {
                    &&& (queries@[q]@.len() != self.spec_dimension() || self@.len() == 0) ==> (#[trigger] r@[q])@.len() == 0
                    &&& (queries@[q]@.len() == self.spec_dimension() && self@.len() > 0) ==> search_hits(
                        self@,
                        distances@[q]@,
                        top_k as nat,
                        hits_view(r@[q]@),
                    )
                },
    {
        let mut r: Vec<Vec<SearchResult>> = Vec::with_capacity(queries.len());
        let mut q: usize = 0;
        while q < queries.len()
            invariant
                distances@.len() == queries@.len(),
                forall|t: int|
                    0 <= t < queries@.len() && (#[trigger] queries@[t])@.len() == self.spec_dimension() && self@.len() > 0
                        ==> distances@[t]@.len() == self@.len(),
                q <= queries@.len(),
                r@.len() == q,
                forall|t: int|
                    0 <= t < q ==> {
                        &&& (queries@[t]@.len() != self.spec_dimension() || self@.len() == 0) ==> (#[trigger] r@[t])@.len() == 0
                        &&& (queries@[t]@.len() == self.spec_dimension() && self@.len() > 0) ==> search_hits(
                            self@,
                            distances@[t]@,
                            top_k as nat,
                            hits_view(r@[t]@),
                        )
                    },
            decreases queries@.len() - q,
        {
            assert(queries@[q as int]@.len() == self.spec_dimension() && self@.len() > 0 ==> distances@[q as int]@.len()
                == self@.len());
            let hits = self.search(queries[q].as_slice(), distances[q].as_slice(), top_k);
            r.push(hits);
            q += 1;
        }
        r
    }

    /// The same hits as [`VectorDB::batch_search`].
    pub fn par_batch_search(&self, queries: &[Vec<u32>], distances: &[Vec<u32>], top_k: usize) -> (r: Vec<
        Vec<SearchResult>,
    >)
        requires
            distances@.len() == queries@.len(),
            forall|q: int|
                0 <= q < queries@.len() && (#[trigger] queries@[q])@.len() == self.spec_dimension() && self@.len() > 0
                    ==> distances@[q]@.len() == self@.len(),
        ensures
            r@.len() == queries@.len(),
            forall|q: int|
                0 <= q < queries@.len() ==> {
                    &&& (queries@[q]@.len() != self.spec_dimension() || self@.len() == 0) ==> (#[trigger] r@[q])@.len() == 0
                    &&& (queries@[q]@.len() == self.spec_dimension() && self@.len() > 0) ==> search_hits(
                        self@,
                        distances@[q]@,
                        top_k as nat,
                        hits_view(r@[q]@),
                    )
                },
    {
        self.batch_search(queries, distances, top_k)
    }

    /// Sets the index flag.
    pub fn set_index(&mut self, enable: bool)
        requires
            old(self).wf(),
        ensures
            final(self).wf(),
            final(self)@ == old(self)@,
            final(self).spec_id_map() == old(self).spec_id_map(),
            final(self).spec_dimension() == old(self).spec_dimension(),
            final(self).spec_metric() == old(self).spec_metric(),
            final(self).spec_use_index() == enable,
            final(self).spec_ivf_built() == old(self).spec_ivf_built(),
            final(self).spec_num_clusters() == old(self).spec_num_clusters(),
            final(self).spec_centers() == old(self).spec_centers(),
            final(self).spec_clusters() == old(self).spec_clusters(),
            final(self).spec_stats() == old(self).spec_stats(),
    {
        self.use_index = enable;
    }

    /// Sets the index flag; always succeeds.
    pub fn build_index(&mut self) -> (r: Result<(), Error>)
        requires
            old(self).wf(),
        ensures
            r is Ok,
            final(self).wf(),
            final(self)@ == old(self)@,
            final(self).spec_id_map() == old(self).spec_id_map(),
            final(self).spec_dimension() == old(self).spec_dimension(),
            final(self).spec_metric() == old(self).spec_metric(),
            final(self).spec_use_index(),
            final(self).spec_ivf_built() == old(self).spec_ivf_built(),
            final(self).spec_num_clusters() == old(self).spec_num_clusters(),
            final(self).spec_centers() == old(self).spec_centers(),
            final(self).spec_clusters() == old(self).spec_clusters(),
            final(self).spec_stats() == old(self).spec_stats(),
    {
        self.use_index = true;
        Ok(())
    }

    /// The operation counters.
    pub fn stats(&self) -> (s: Stats)
        ensures
            s == self.spec_stats(),
    {
        self.stats
    }

    /// Sets all counters to zero.
    pub fn reset_stats(&mut self)
        requires
            old(self).wf(),
        ensures
            final(self).wf(),
            final(self)@ == old(self)@,
            final(self).spec_id_map() == old(self).spec_id_map(),
            final(self).spec_dimension() == old(self).spec_dimension(),
            final(self).spec_metric() == old(self).spec_metric(),
            final(self).spec_use_index() == old(self).spec_use_index(),
            final(self).spec_ivf_built() == old(self).spec_ivf_built(),
            final(self).spec_num_clusters() == old(self).spec_num_clusters(),
            final(self).spec_centers() == old(self).spec_centers(),
            final(self).spec_clusters() == old(self).spec_clusters(),
            final(self).spec_stats() == Stats::zero(),
    {
        self.stats = Stats::default();
    }

    /// Whether an IVF index has been built.
    pub fn ivf_built(&self) -> (b: bool)
        ensures
            b == self.spec_ivf_built(),
    {
        self.ivf_built
    }

    /// A copy of cluster centre `c` of the built index.
    pub fn center_at(&self, c: usize) -> (r: Vec<u32>)
        requires
            self.wf(),
            self.spec_ivf_built(),
            c < self.spec_num_clusters(),
        ensures
            r@ == self.spec_centers()[c as int],
    {
        match &self.cluster_centers {
            Some(centers) => copy_words(centers[c].as_slice()),
            None => Vec::new(),
        }
    }

    /// Whether every position the clusters list names a stored entry.
    pub fn clusters_in_range(&self) -> (b: bool)
        requires
            self.wf(),
        ensures
            b == self.clusters_fit(),
    {
        let clusters = match &self.clusters {
            Some(c) => c,
            None => {
                return true;
            },
        };
        let ghost cl = self.spec_clusters();
        let n = self.entries.len();
        let mut c: usize = 0;
        while c < clusters.len()
            invariant
                cl == self.spec_clusters(),
                cl == clusters@.map_values(|l: ClusterList| small_contents(l)),
                n == self@.len(),
                c <= clusters@.len(),
                forall|t: int, j: int| 0 <= t < c && 0 <= j < cl[t].len() ==> #[trigger] cl[t][j] < n,
            decreases clusters@.len() - c,
        {
            let list = &clusters[c];
            let len = small_len(list);
            let mut j: usize = 0;
            while j < len
                invariant
                    cl == self.spec_clusters(),
                    small_contents(*list) == cl[c as int],
                    0 <= c < cl.len(),
                    n == self@.len(),
                    len == cl[c as int].len(),
                    j <= len,
                    forall|t: int, q: int| 0 <= t < c && 0 <= q < cl[t].len() ==> #[trigger] cl[t][q] < n,
                    forall|q: int| 0 <= q < j ==> #[trigger] cl[c as int][q] < n,
                decreases len - j,
            {
                if small_get(list, j) >= n {
                    return false;
                }
                j += 1;
            }
            c += 1;
        }
        true
    }

    /// The number of clusters of the IVF index (zero before one is built).
    pub fn num_clusters(&self) -> (n: usize)
        ensures
            n == self.spec_num_clusters(),
    {
        self.num_clusters
    }
}

proof fn lemma_members_len(assignments: Seq<usize>, c: usize, n: nat)
    ensures
        members(assignments, c, n).len() <= n,
        forall|j: int| 0 <= j < members(assignments, c, n).len() ==> #[trigger] members(assignments, c, n)[j] < n,
    decreases n,
{
    if n > 0 {
        lemma_members_len(assignments, c, (n - 1) as nat);
    }
}

impl VectorDB {
    /// The number of clusters an index would be built with: the number
    /// asked for (`DEFAULT_CLUSTERS` for zero), at most the number of
    /// entries.
    ///
    /// Fails with `InvalidInput` when the store is empty.
    pub fn ivf_cluster_count(&self, num_clusters: usize) -> (r: Result<usize, Error>)
        ensures
            self@.len() == 0 ==> r == Err::<usize, Error>(Error::InvalidInput),
            self@.len() > 0 ==> r == Ok::<usize, Error>(cluster_count(num_clusters, self@.len()) as usize),
    {
        if self.entries.len() == 0 {
            return Err(Error::InvalidInput);
        }
        let k = if num_clusters == 0 {
            DEFAULT_CLUSTERS
        } else {
            num_clusters
        };
        if k <= self.entries.len() {
            Ok(k)
        } else {
            Ok(self.entries.len())
        }
    }

    /// Installs an IVF index: `centers` are the cluster centres and
    /// `assignments[i]` the cluster of entry `i` (as k-means over the
    /// entries found them); cluster `c` lists, in storage order, the entries
    /// assigned to it.
    ///
    /// Fails with `InvalidInput` when the store is empty.
    pub fn build_ivf_index(&mut self, num_clusters: usize, centers: Vec<Vec<u32>>, assignments: &[usize]) -> (r:
        Result<(), Error>)
        requires
            old(self).wf(),
            old(self)@.len() > 0 ==> {
                &&& centers@.len() == cluster_count(num_clusters, old(self)@.len())
                &&& assignments@.len() == old(self)@.len()
                &&& forall|i: int| 0 <= i < assignments@.len() ==> #[trigger] assignments@[i] < centers@.len()
            },
        ensures
            final(self).wf(),
            final(self)@ == old(self)@,
            final(self).spec_id_map() == old(self).spec_id_map(),
            final(self).spec_dimension() == old(self).spec_dimension(),
            final(self).spec_metric() == old(self).spec_metric(),
            final(self).spec_use_index() == old(self).spec_use_index(),
            final(self).spec_stats() == old(self).spec_stats(),
            old(self)@.len() == 0 ==> {
                &&& r == Err::<(), Error>(Error::InvalidInput)
                &&& final(self).spec_ivf_built() == old(self).spec_ivf_built()
                &&& final(self).spec_num_clusters() == old(self).spec_num_clusters()
                &&& final(self).spec_centers() == old(self).spec_centers()
                &&& final(self).spec_clusters() == old(self).spec_clusters()
            },
            old(self)@.len() > 0 ==> {
                &&& r is Ok
                &&& final(self).spec_ivf_built()
                &&& final(self).spec_num_clusters() == centers@.len()
                &&& final(self).spec_centers() == centers@.map_values(|v: Vec<u32>| v@)
                &&& final(self).spec_clusters().len() == centers@.len()
                &&& forall|c: int|
                    0 <= c < centers@.len() ==> #[trigger] final(self).spec_clusters()[c] == members(
                        assignments@,
                        c as usize,
                        assignments@.len() as nat,
                    )
                &&& final(self).clusters_fit()
            },
    {
        let k = match self.ivf_cluster_count(num_clusters) {
            Ok(k) => k,
            Err(e) => {
                return Err(e);
            },
        };
        let n = self.entries.len();
        let mut clusters: Vec<ClusterList> = Vec::with_capacity(k);
        let mut c: usize = 0;
        while c < k
            invariant
                c <= k,
                clusters@.len() == c,
                forall|t: int| 0 <= t < c ==> small_contents(#[trigger] clusters@[t]).len() == 0,
            decreases k - c,
        {
            clusters.push(small_new());
            c += 1;
        }
        proof {
            assert forall|t: int| 0 <= t < k implies small_contents(#[trigger] clusters@[t]) == members(assignments@, t as usize, 0) by {
                assert(small_contents(clusters@[t]) =~= members(assignments@, t as usize, 0));
            }
        }
        let mut i: usize = 0;
        while i < n
            invariant
                n == assignments@.len(),
                k == centers@.len(),
                forall|j: int| 0 <= j < assignments@.len() ==> #[trigger] assignments@[j] < k,
                i <= n,
                clusters@.len() == k,
                forall|t: int| 0 <= t < k ==> small_contents(#[trigger] clusters@[t]) == members(assignments@, t as usize, i as nat),
            decreases n - i,
        {
            let c = assignments[i];
            proof {
                lemma_members_len(assignments@, c, i as nat);
            }
            let ghost before = clusters@;
            small_push(&mut clusters[c], i);
            proof {
                assert forall|t: int| 0 <= t < k implies small_contents(#[trigger] clusters@[t]) == members(
                    assignments@,
                    t as usize,
                    (i + 1) as nat,
                ) by {
                    if t != c {
                        assert(clusters@[t] == before[t]);
                    }
                }
            }
            i += 1;
        }
        let ghost cvals = centers@.map_values(|v: Vec<u32>| v@);
        self.cluster_centers = Some(centers);
        self.clusters = Some(clusters);
        self.num_clusters = k;
        self.ivf_built = true;
        proof {
            assert(self.spec_centers() == cvals);
            assert forall|t: int| 0 <= t < k implies #[trigger] self.spec_clusters()[t] == members(
                assignments@,
                t as usize,
                n as nat,
            ) by {
                assert(self.spec_clusters()[t] == small_contents(clusters@[t]));
            }
            assert forall|t: int, j: int|
                0 <= t < self.spec_clusters().len() && 0 <= j < self.spec_clusters()[t].len() implies #[trigger] self.spec_clusters()[t][j]
                < self@.len() by {
                lemma_members_len(assignments@, t as usize, n as nat);
                assert(self.spec_clusters()[t] == members(assignments@, t as usize, n as nat));
            }
        }
        Ok(())
    }
}

impl VectorDB {
    /// Search through the IVF index: the `nprobe` clusters whose centres are
    /// nearest to the query are probed, nearest first, and of the entries
    /// they list the `top_k` nearest are returned, nearest first.
    /// `center_distances[c]` is the (Euclidean) distance from the query to
    /// centre `c`, `distances[i]` the distance to entry `i`. Without a
    /// built index this is [`VectorDB::search`]; a query of the wrong length,
    /// or an empty store, gives no hit.
    pub fn search_ivf(
        &self,
        query: &[u32],
        top_k: usize,
        nprobe: usize,
        center_distances: &[u32],
        distances: &[u32],
    ) -> (r: Vec<SearchResult>)
        requires
            self.wf(),
            query@.len() == self.spec_dimension() && self@.len() > 0 ==> distances@.len() == self@.len(),
            query@.len() == self.spec_dimension() && self@.len() > 0 && self.spec_ivf_built() ==> {
                &&& center_distances@.len() == self.spec_num_clusters()
                &&& self.clusters_fit()
            },
        ensures
            query@.len() != self.spec_dimension() || self@.len() == 0 ==> r@.len() == 0,
            query@.len() == self.spec_dimension() && self@.len() > 0 && !self.spec_ivf_built() ==> search_hits(
                self@,
                distances@,
                top_k as nat,
                hits_view(r@),
            ),
            query@.len() == self.spec_dimension() && self@.len() > 0 && self.spec_ivf_built() ==> ivf_hits(
                self@,
                self.spec_clusters(),
                center_distances@,
                distances@,
                nprobe as nat,
                top_k as nat,
                hits_view(r@),
            ),
    {
        if query.len() as u64 != self.dimension as u64 || self.is_empty() {
            return Vec::new();
        }
        if !self.ivf_built {
            return self.search(query, distances, top_k);
        }
        let clusters = match &self.clusters {
            Some(c) => c,
            None => {
                return Vec::new();
            },
        };
        let ghost cl_view = self.spec_clusters();
        assert(cl_view == clusters@.map_values(|l: ClusterList| small_contents(l)));
        let ckeys = distance_keys(center_distances);
        let order = crate::ranking::top_k(ckeys.as_slice(), nprobe, false);
        let mut cands: Vec<usize> = Vec::new();
        let mut t: usize = 0;
        while t < order.len()
            invariant
                cl_view == self.spec_clusters(),
                cl_view == clusters@.map_values(|l: ClusterList| small_contents(l)),
                clusters@.len() == self.spec_num_clusters(),
                center_distances@.len() == self.spec_num_clusters(),
                ranks_first(ckeys@, false, nprobe as nat, order@),
                ckeys@ == keys_of(center_distances@),
                self.clusters_fit(),
                t <= order@.len(),
                cands@ == probed(cl_view, order@.take(t as int)),
                forall|j: int| 0 <= j < cands@.len() ==> #[trigger] cands@[j] < self@.len(),
            decreases order@.len() - t,
        {
            let c = order[t];
            assert(c < ckeys@.len());
            let cl = &clusters[c];
            assert(small_contents(*cl) == cl_view[c as int]);
            let len = small_len(cl);
            let ghost base = cands@;
            let mut j: usize = 0;
            while j < len
                invariant
                    cl_view == self.spec_clusters(),
                    small_contents(*cl) == cl_view[c as int],
                    0 <= c < cl_view.len(),
                    self.clusters_fit(),
                    len == small_contents(*cl).len(),
                    j <= len,
                    cands@ == base + small_contents(*cl).take(j as int),
                    forall|q: int| 0 <= q < cands@.len() ==> #[trigger] cands@[q] < self@.len(),
                decreases len - j,
            {
                let x = small_get(cl, j);
                assert(cl_view[c as int][j as int] < self@.len());
                cands.push(x);
                j += 1;
                assert(cands@ =~= base + small_contents(*cl).take(j as int));
            }
            proof {
                let tk = order@.take(t + 1);
                assert(tk.drop_last() =~= order@.take(t as int));
                assert(tk.last() == c);
                assert(small_contents(*cl).take(len as int) =~= small_contents(*cl));
                assert(cands@ =~= probed(cl_view, tk));
            }
            t += 1;
        }
        assert(order@.take(order@.len() as int) =~= order@);
        let mut cd: Vec<u32> = Vec::with_capacity(cands.len());
        let mut i: usize = 0;
        while i < cands.len()
            invariant
                distances@.len() == self@.len(),
                forall|j: int| 0 <= j < cands@.len() ==> #[trigger] cands@[j] < self@.len(),
                i <= cands@.len(),
                cd@ == distances_of(distances@, cands@.take(i as int)),
            decreases cands@.len() - i,
        {
            cd.push(distances[cands[i]]);
            i += 1;
            assert(cd@ =~= distances_of(distances@, cands@.take(i as int)));
        }
        assert(cands@.take(cands@.len() as int) =~= cands@);
        let keys = distance_keys(cd.as_slice());
        let slots = crate::ranking::top_k(keys.as_slice(), top_k, false);
        let mut pos: Vec<usize> = Vec::with_capacity(slots.len());
        let mut s: usize = 0;
        while s < slots.len()
            invariant
                ranks_first(keys@, false, top_k as nat, slots@),
                keys@.len() == cands@.len(),
                forall|j: int| 0 <= j < cands@.len() ==> #[trigger] cands@[j] < self@.len(),
                s <= slots@.len(),
                pos@.len() == s,
                forall|q: int| 0 <= q < s ==> #[trigger] pos@[q] == cands@[slots@[q] as int],
                forall|q: int| 0 <= q < s ==> #[trigger] pos@[q] < self@.len(),
            decreases slots@.len() - s,
        {
            let at = slots[s];
            pos.push(cands[at]);
            s += 1;
        }
        let r = self.hits(distances, &pos);
        proof {
            let cands_v = probed(cl_view, order@);
            assert(cands@ == cands_v);
            assert(pos@ =~= slots@.map_values(|q: usize| cands_v[q as int]));
            assert(ranks_first(keys_of(center_distances@), false, nprobe as nat, order@));
            assert(ranks_first(keys_of(distances_of(distances@, cands_v)), false, top_k as nat, slots@));
        }
        r
    }
}

/// Reading back what was written: after an entry with a new id is appended
/// and mapped to its position, looking the id up gives the entry.
pub proof fn law_insert_then_get(entries: Seq<EntryView>, map: Map<u64, usize>, e: EntryView)
    requires
        !map.contains_key(e.id),
        entries.len() < usize::MAX,
    ensures
        lookup(entries.push(e), map.insert(e.id, entries.len() as usize), e.id) == Some(e),
{
}

/// After an id is deleted, looking it up finds nothing.
pub proof fn law_delete_then_get(entries: Seq<EntryView>, map: Map<u64, usize>, id: u64)
    requires
        indexes(entries, map),
        map.contains_key(id),
    ensures
        lookup(entries.remove(map[id] as int), map_after_delete(map, id), id) is None,
{
}

/// A deletion leaves every other id's lookup as it was: the entries after
/// the removed one move down one position, and so do their positions in the
/// id map.
pub proof fn law_delete_keeps_others(entries: Seq<EntryView>, map: Map<u64, usize>, id: u64, other: u64)
    requires
        indexes(entries, map),
        map.contains_key(id),
        other != id,
    ensures
        lookup(entries.remove(map[id] as int), map_after_delete(map, id), other) == lookup(entries, map, other),
{
    let after = entries.remove(map[id] as int);
    let m2 = map_after_delete(map, id);
    if map.contains_key(other) {
        assert(m2.contains_key(other));
        if map[other] > map[id] {
            assert(after[map[other] - 1] == entries[map[other] as int]);
        } else {
            assert(map[other] != map[id]);
            assert(after[map[other] as int] == entries[map[other] as int]);
        }
    }
}

/// The members of a cluster: positions below `n` assigned to it, in
/// increasing order, and every such position.
proof fn lemma_members(assignments: Seq<usize>, c: usize, n: nat)
    requires
        n <= assignments.len(),
        n <= usize::MAX,
    ensures
        forall|j: int|
            0 <= j < members(assignments, c, n).len() ==> {
                &&& #[trigger] members(assignments, c, n)[j] < n
                &&& assignments[members(assignments, c, n)[j] as int] == c
            },
        members(assignments, c, n).no_duplicates(),
        forall|p: int| 0 <= p < n && assignments[p] == c ==> members(assignments, c, n).contains(#[trigger] (p as usize)),
    decreases n,
{
    if n > 0 {
        lemma_members(assignments, c, (n - 1) as nat);
        let rest = members(assignments, c, (n - 1) as nat);
        let ms = members(assignments, c, n);
        if assignments[n - 1] == c {
            assert(ms == rest.push((n - 1) as usize));
            assert(!rest.contains((n - 1) as usize)) by {
                if rest.contains((n - 1) as usize) {
                    let j = choose|j: int| 0 <= j < rest.len() && rest[j] == (n - 1) as usize;
                    assert(rest[j] < n - 1);
                }
            }
            assert forall|a: int, b: int| 0 <= a < ms.len() && 0 <= b < ms.len() && a != b implies ms[a] != ms[b] by {
                if a < rest.len() && b < rest.len() {
                    assert(rest[a] != rest[b]);
                } else if a < rest.len() {
                    assert(rest[a] < n - 1);
                } else {
                    assert(rest[b] < n - 1);
                }
            }
            assert forall|p: int| 0 <= p < n && assignments[p] == c implies ms.contains(#[trigger] (p as usize)) by {
                if p < n - 1 {
                    let j = choose|j: int| 0 <= j < rest.len() && rest[j] == p as usize;
                    assert(ms[j] == p as usize);
                } else {
                    assert(ms[rest.len() as int] == p as usize);
                }
            }
        } else {
            assert(ms == rest);
        }
    }
}

/// Probing the clusters of an assignment in an order without repeats lists
/// each position at most once, and lists exactly the positions assigned to
/// the probed clusters.
proof fn lemma_probed(assignments: Seq<usize>, clusters: Seq<Seq<usize>>, n: nat, order: Seq<usize>)
    requires
        assignments.len() == n,
        n <= usize::MAX,
        forall|c: int| 0 <= c < clusters.len() ==> #[trigger] clusters[c] == members(assignments, c as usize, n),
        order.no_duplicates(),
        forall|i: int| 0 <= i < order.len() ==> #[trigger] order[i] < clusters.len(),
    ensures
        probed(clusters, order).no_duplicates(),
        forall|j: int|
            0 <= j < probed(clusters, order).len() ==> {
                &&& #[trigger] probed(clusters, order)[j] < n
                &&& order.contains(assignments[probed(clusters, order)[j] as int])
            },
        forall|p: int| 0 <= p < n && order.contains(assignments[p]) ==> probed(clusters, order).contains(#[trigger] (p as usize)),
    decreases order.len(),
{
    if order.len() > 0 {
        let front = order.drop_last();
        let c = order.last();
        assert(front.no_duplicates()) by {
            assert forall|a: int, b: int| 0 <= a < front.len() && 0 <= b < front.len() && a != b implies front[a] != front[b] by {
                assert(front[a] == order[a] && front[b] == order[b]);
            }
        }
        assert forall|i: int| 0 <= i < front.len() implies #[trigger] front[i] < clusters.len() by {
            assert(front[i] == order[i]);
        }
        lemma_probed(assignments, clusters, n, front);
        lemma_members(assignments, c, n);
        let pf = probed(clusters, front);
        let mc = clusters[c as int];
        assert(mc == members(assignments, c, n));
        let all = probed(clusters, order);
        assert(all == pf + mc);
        assert(!front.contains(c)) by {
            if front.contains(c) {
                let i = choose|i: int| 0 <= i < front.len() && front[i] == c;
                assert(order[i] == order[order.len() - 1]);
            }
        }
        assert forall|a: int, b: int| 0 <= a < all.len() && 0 <= b < all.len() && a != b implies all[a] != all[b] by {
            if a < pf.len() && b < pf.len() {
                assert(all[a] == pf[a] && all[b] == pf[b]);
            } else if a >= pf.len() && b >= pf.len() {
                assert(all[a] == mc[a - pf.len()] && all[b] == mc[b - pf.len()]);
            } else if a < pf.len() {
                assert(all[a] == pf[a] && all[b] == mc[b - pf.len()]);
                assert(assignments[mc[b - pf.len()] as int] == c);
                assert(front.contains(assignments[pf[a] as int]));
            } else {
                assert(all[b] == pf[b] && all[a] == mc[a - pf.len()]);
                assert(assignments[mc[a - pf.len()] as int] == c);
                assert(front.contains(assignments[pf[b] as int]));
            }
        }
        assert forall|j: int| 0 <= j < all.len() implies {
            &&& #[trigger] all[j] < n
            &&& order.contains(assignments[all[j] as int])
        } by {
            if j < pf.len() {
                assert(all[j] == pf[j]);
                let i = choose|i: int| 0 <= i < front.len() && front[i] == assignments[pf[j] as int];
                assert(order[i] == front[i]);
            } else {
                assert(all[j] == mc[j - pf.len()]);
                assert(order[order.len() - 1] == c);
            }
        }
        assert forall|p: int| 0 <= p < n && order.contains(assignments[p]) implies all.contains(#[trigger] (p as usize)) by {
            let i = choose|i: int| 0 <= i < order.len() && order[i] == assignments[p];
            if i < order.len() - 1 {
                assert(front[i] == order[i]);
                assert(pf.contains(p as usize));
                let j = choose|j: int| 0 <= j < pf.len() && pf[j] == p as usize;
                assert(all[j] == p as usize);
            } else {
                assert(mc.contains(p as usize));
                let j = choose|j: int| 0 <= j < mc.len() && mc[j] == p as usize;
                assert(all[pf.len() + j] == p as usize);
            }
        }
    }
}

/// Probing every cluster of a complete clustering lists every entry's
/// position exactly once.
proof fn lemma_probing_all(
    assignments: Seq<usize>,
    clusters: Seq<Seq<usize>>,
    center_distances: Seq<u32>,
    nprobe: nat,
    order: Seq<usize>,
)
    requires
        assignments.len() <= usize::MAX,
        clusters.len() <= usize::MAX,
        center_distances.len() == clusters.len(),
        forall|i: int| 0 <= i < assignments.len() ==> #[trigger] assignments[i] < clusters.len(),
        forall|c: int|
            0 <= c < clusters.len() ==> #[trigger] clusters[c] == members(assignments, c as usize, assignments.len()),
        nprobe >= clusters.len(),
        ranks_first(keys_of(center_distances), false, nprobe, order),
    ensures
        probed(clusters, order).no_duplicates(),
        probed(clusters, order).len() == assignments.len(),
        forall|j: int| 0 <= j < probed(clusters, order).len() ==> #[trigger] probed(clusters, order)[j] < assignments.len(),
        forall|t: int| 0 <= t < assignments.len() ==> probed(clusters, order).contains(#[trigger] (t as usize)),
{
    let n = assignments.len();
    let cands = probed(clusters, order);
    let nc = clusters.len();
    // Every cluster is probed, once.
    assert(order.no_duplicates()) by {
        assert forall|a: int, b: int| 0 <= a < order.len() && 0 <= b < order.len() && a != b implies order[a] != order[b] by {
            if a < b {
                assert(precedes(keys_of(center_distances), false, order[a] as int, order[b] as int));
            } else {
                assert(precedes(keys_of(center_distances), false, order[b] as int, order[a] as int));
            }
        }
    }
    assert(order.len() == nc);
    crate::ranking::lemma_positions_cover(order, nc);
    lemma_probed(assignments, clusters, n, order);
    // So every entry is a candidate, once.
    assert forall|t: int| 0 <= t < n implies cands.contains(#[trigger] (t as usize)) by {
        assert(order.contains(assignments[t] as usize)) by {
            assert(order.contains((assignments[t] as int) as usize));
        }
    }
    crate::ranking::lemma_positions_cover(cands, n);
}

/// Probing every cluster of a complete clustering gives the flat search's
/// distances, place by place, whatever the ties: an IVF search and a flat
/// search return as many hits, and the `i`-th hits are at equal distances
/// (which of several entries at one distance comes first may differ).
pub proof fn law_ivf_probing_all_matches_flat_distances(
    entries: Seq<EntryView>,
    assignments: Seq<usize>,
    clusters: Seq<Seq<usize>>,
    center_distances: Seq<u32>,
    distances: Seq<u32>,
    nprobe: nat,
    k: nat,
    ivf: Seq<SearchResultView>,
    flat: Seq<SearchResultView>,
)
    requires
        entries.len() <= usize::MAX,
        clusters.len() <= usize::MAX,
        assignments.len() == entries.len(),
        distances.len() == entries.len(),
        center_distances.len() == clusters.len(),
        forall|i: int| 0 <= i < assignments.len() ==> #[trigger] assignments[i] < clusters.len(),
        forall|c: int|
            0 <= c < clusters.len() ==> #[trigger] clusters[c] == members(assignments, c as usize, entries.len()),
        nprobe >= clusters.len(),
        ivf_hits(entries, clusters, center_distances, distances, nprobe, k, ivf),
        search_hits(entries, distances, k, flat),
    ensures
        ivf.len() == flat.len(),
        forall|i: int| 0 <= i < ivf.len() ==> order_key((#[trigger] ivf[i]).distance) == order_key(flat[i].distance),
{
    let n = entries.len();
    let (order, slots) = choose|order: Seq<usize>, slots: Seq<usize>|
        #![trigger ranks_first(keys_of(center_distances), false, nprobe, order), ranks_first(keys_of(distances_of(distances, probed(clusters, order))), false, k, slots)]
        {
            let cands = probed(clusters, order);
            &&& ranks_first(keys_of(center_distances), false, nprobe, order)
            &&& ranks_first(keys_of(distances_of(distances, cands)), false, k, slots)
            &&& hits_at(entries, distances, slots.map_values(|s: usize| cands[s as int]), ivf)
        };
    let fs = choose|fs: Seq<usize>| ranks_first(keys_of(distances), false, k, fs) && hits_at(entries, distances, fs, flat);
    let cands = probed(clusters, order);
    lemma_probing_all(assignments, clusters, center_distances, nprobe, order);
    let kd = keys_of(distances_of(distances, cands));
    let keys = keys_of(distances);
    let top = slots.map_values(|s: usize| cands[s as int]);
    assert forall|i: int| 0 <= i < top.len() implies (#[trigger] top[i]) < n by {
        assert(slots[i] < cands.len());
    }
    assert(top.no_duplicates()) by {
        assert forall|a: int, b: int| 0 <= a < top.len() && 0 <= b < top.len() && a != b implies top[a] != top[b] by {
            if a < b {
                assert(precedes(kd, false, slots[a] as int, slots[b] as int));
            } else {
                assert(precedes(kd, false, slots[b] as int, slots[a] as int));
            }
            assert(slots[a] != slots[b]);
        }
    }
    assert(fs.no_duplicates()) by {
        assert forall|a: int, b: int| 0 <= a < fs.len() && 0 <= b < fs.len() && a != b implies fs[a] != fs[b] by {
            if a < b {
                assert(precedes(keys, false, fs[a] as int, fs[b] as int));
            } else {
                assert(precedes(keys, false, fs[b] as int, fs[a] as int));
            }
        }
    }
    assert forall|x: int, y: int| 0 <= x < y < top.len() implies keys[#[trigger] top[x] as int] <= keys[#[trigger] top[y] as int] by {
        assert(precedes(kd, false, slots[x] as int, slots[y] as int));
    }
    assert forall|x: int, y: int| 0 <= x < y < fs.len() implies keys[#[trigger] fs[x] as int] <= keys[#[trigger] fs[y] as int] by {
        assert(precedes(keys, false, fs[x] as int, fs[y] as int));
    }
    assert forall|p: int, j: int|
        0 <= p < keys.len() && !top.contains(p as usize) && 0 <= j < top.len() implies keys[#[trigger] top[j] as int]
            <= #[trigger] keys[p] by {
        assert(cands.contains(p as usize));
        let q = choose|q: int| 0 <= q < cands.len() && cands[q] == p as usize;
        if slots.contains(q as usize) {
            let jj = choose|jj: int| 0 <= jj < slots.len() && slots[jj] == q as usize;
            assert(top[jj] == cands[slots[jj] as int]);
            assert(top[jj] == p as usize);
        }
        assert(precedes(kd, false, slots[j] as int, q));
        assert(kd[slots[j] as int] == keys[top[j] as int]);
        assert(kd[q] == keys[p]);
    }
    assert forall|p: int, j: int|
        0 <= p < keys.len() && !fs.contains(p as usize) && 0 <= j < fs.len() implies keys[#[trigger] fs[j] as int]
            <= #[trigger] keys[p] by {
        assert(precedes(keys, false, fs[j] as int, p));
    }
    crate::ranking::lemma_top_keys_agree(keys, top, fs);
    assert forall|i: int| 0 <= i < ivf.len() implies order_key((#[trigger] ivf[i]).distance) == order_key(flat[i].distance) by {
        assert(ivf[i].distance == distances[top[i] as int]);
        assert(flat[i].distance == distances[fs[i] as int]);
        assert(keys[top[i] as int] == keys[fs[i] as int]);
    }
}

/// Probing every cluster of a complete clustering gives the flat search:
/// when every entry is assigned to one of the clusters (as building the
/// index records), every cluster is probed, and no two entries are at the
/// same distance from the query, an IVF search returns what a flat search
/// returns.
pub proof fn law_ivf_probing_all_is_flat(
    entries: Seq<EntryView>,
    assignments: Seq<usize>,
    clusters: Seq<Seq<usize>>,
    center_distances: Seq<u32>,
    distances: Seq<u32>,
    nprobe: nat,
    k: nat,
    res: Seq<SearchResultView>,
)
    requires
        entries.len() <= usize::MAX,
        clusters.len() <= usize::MAX,
        assignments.len() == entries.len(),
        distances.len() == entries.len(),
        center_distances.len() == clusters.len(),
        forall|i: int| 0 <= i < assignments.len() ==> #[trigger] assignments[i] < clusters.len(),
        forall|c: int|
            0 <= c < clusters.len() ==> #[trigger] clusters[c] == members(assignments, c as usize, entries.len()),
        nprobe >= clusters.len(),
        forall|i: int, j: int|
            0 <= i < distances.len() && 0 <= j < distances.len() && i != j ==> order_key(#[trigger] distances[i])
                != order_key(#[trigger] distances[j]),
        ivf_hits(entries, clusters, center_distances, distances, nprobe, k, res),
    ensures
        search_hits(entries, distances, k, res),
{
    let n = entries.len();
    let (order, slots) = choose|order: Seq<usize>, slots: Seq<usize>|
        #![trigger ranks_first(keys_of(center_distances), false, nprobe, order), ranks_first(keys_of(distances_of(distances, probed(clusters, order))), false, k, slots)]
        {
            let cands = probed(clusters, order);
            &&& ranks_first(keys_of(center_distances), false, nprobe, order)
            &&& ranks_first(keys_of(distances_of(distances, cands)), false, k, slots)
            &&& hits_at(entries, distances, slots.map_values(|s: usize| cands[s as int]), res)
        };
    let cands = probed(clusters, order);
    lemma_probing_all(assignments, clusters, center_distances, nprobe, order);
    lemma_candidates_rank(distances, cands, k, slots);
    assert(ranks_first(keys_of(distances), false, k, slots.map_values(|s: usize| cands[s as int])));
}

/// Ranking a permutation of the positions by their distances, with no two
/// distances alike, ranks the positions themselves the same way.
proof fn lemma_candidates_rank(distances: Seq<u32>, cands: Seq<usize>, k: nat, slots: Seq<usize>)
    requires
        distances.len() <= usize::MAX,
        cands.len() == distances.len(),
        cands.no_duplicates(),
        forall|j: int| 0 <= j < cands.len() ==> #[trigger] cands[j] < distances.len(),
        forall|t: int| 0 <= t < distances.len() ==> cands.contains(#[trigger] (t as usize)),
        forall|i: int, j: int|
            0 <= i < distances.len() && 0 <= j < distances.len() && i != j ==> order_key(#[trigger] distances[i])
                != order_key(#[trigger] distances[j]),
        ranks_first(keys_of(distances_of(distances, cands)), false, k, slots),
    ensures
        ranks_first(keys_of(distances), false, k, slots.map_values(|s: usize| cands[s as int])),
{
    let n = distances.len();
    let kd = keys_of(distances_of(distances, cands));
    let top = slots.map_values(|s: usize| cands[s as int]);
    assert forall|i: int| 0 <= i < top.len() implies (#[trigger] top[i]) < n by {
        assert(slots[i] < cands.len());
    }
    assert forall|i: int, j: int| 0 <= i < j < top.len() implies precedes(
        keys_of(distances),
        false,
        #[trigger] top[i] as int,
        #[trigger] top[j] as int,
    ) by {
        assert(precedes(kd, false, slots[i] as int, slots[j] as int));
        assert(slots[i] != slots[j]);
        assert(cands[slots[i] as int] != cands[slots[j] as int]);
        assert(kd[slots[i] as int] == order_key(distances[top[i] as int]));
        assert(kd[slots[j] as int] == order_key(distances[top[j] as int]));
    }
    assert forall|p: int, i: int|
        0 <= p < n && !top.contains(p as usize) && 0 <= i < top.len() implies #[trigger] precedes(
        keys_of(distances),
        false,
        top[i] as int,
        p,
    ) by {
        assert(cands.contains(p as usize));
        let q = choose|q: int| 0 <= q < cands.len() && cands[q] == p as usize;
        if slots.contains(q as usize) {
            let j = choose|j: int| 0 <= j < slots.len() && slots[j] == q as usize;
            assert(top[j] == cands[slots[j] as int]);
            assert(top[j] == p as usize);
        }
        assert(!slots.contains(q as usize));
        assert(precedes(kd, false, slots[i] as int, q));
        assert(cands[slots[i] as int] != p as usize);
        assert(kd[slots[i] as int] == order_key(distances[top[i] as int]));
        assert(kd[q] == order_key(distances[p]));
    }
}

/// How many clusters an index gets: on a store of `n > 0` entries, never
/// more than `n` nor fewer than one; a request of `a` clusters, `0 < a <=
/// n`, gets exactly `a`; a request of more than `n` gets `n`; a request of
/// zero asks for the default 32 clusters, and gets them when there are at
/// least 32 entries, and one per entry otherwise.
pub proof fn law_cluster_count(asked: usize, n: nat)
    requires
        n > 0,
    ensures
        1 <= cluster_count(asked, n) <= n,
        0 < asked <= n ==> cluster_count(asked, n) == asked,
        asked > n ==> cluster_count(asked, n) == n,
        asked == 0 && n >= 32 ==> cluster_count(asked, n) == 32,
        asked == 0 && n < 32 ==> cluster_count(asked, n) == n,
{
}

} // verus!
