//! The same record store, saved in compressed sections.
//!
//! A file is three length-prefixed sections: the JSON description, the
//! entries and the id-map records; the last two are LZ4-compressed (with
//! their uncompressed length prepended) when the description says so.

use vstd::prelude::*;

use crate::le_bytes::{le_bytes, le_value, read_u32_le, read_u64_le};
use crate::qwen35::distance::DistanceMetric;
use crate::qwen35::error::{Error, IoFailure};
use crate::qwen35::format::{
    entries_bytes,
    id_map_bytes,
    id_of_bits,
    parse_entries,
    parse_section,
    push_section,
    read_section,
    section_bytes,
    EntryView,
};
use crate::qwen35::vector_db::{
    contains_id,
    first_bad_query,
    lookup,
    read_entries,
    search_hits,
    slot_of,
    sortable,
    unique_ids,
    SearchResult,
    Stats,
    VectorEntry,
};
use crate::qwen35::vector_db::VectorDB as Inner;
use crate::counter::{bumped_usize, bumped_usize_by};
use crate::copying::opt_bytes_view;
use crate::ranking::min_nat;

verus! {

/// What `lz4_flex::decompress_size_prepended` returns on some input.
pub uninterp spec fn lz4_flex_decompressed(input: Seq<u8>) -> Option<Seq<u8>>;

/// `lz4_flex::compress_prepend_size`: LZ4 block compression with the
/// uncompressed length prepended as a little-endian `u32`.
///
/// Claimed: the output starts with the 4-byte length (its lowest 32 bits),
/// is at most 4 bytes longer than `get_maximum_output_size` of the input's
/// length (when that computation does not overflow), and, when the length
/// fits the 4 bytes, decompressing the output gives the input back (the
/// roundtrip that the crate's documentation and tests show). The compressed
/// bytes themselves are left unsaid: the crate picks its hash by the
/// target's pointer width, so they differ between builds.
#[verifier::external_body]
fn lz4_flex_compress(input: &[u8]) -> (out: Vec<u8>)
    ensures
        out@.len() >= 4,
        out@.take(4) == le_bytes(input@.len(), 4),
        input@.len() * 110 <= usize::MAX ==> out@.len() <= compressed_bound(input@.len()),
        input@.len() <= u32::MAX ==> lz4_flex_decompressed(out@) == Some(input@),
{
    lz4_flex::compress_prepend_size(input)
}

/// `lz4_flex::decompress_size_prepended`, with its error rendered as the
/// message the database reports.
///
/// Claimed: the result depends on the input alone (named
/// `lz4_flex_decompressed`).
#[verifier::external_body]
fn lz4_flex_decompress(input: &[u8]) -> (r: Result<Vec<u8>, String>)
    ensures
        r matches Ok(out) ==> lz4_flex_decompressed(input@) == Some(out@),
        r is Err ==> lz4_flex_decompressed(input@) is None,
{
    match lz4_flex::decompress_size_prepended(input) {
        Ok(v) => Ok(v),
        Err(e) => Err(format!("LZ4 解压失败：{}", e)),
    }
}

/// The most bytes that `lz4_flex_compress` makes of `n` bytes: the 4-byte
/// length, then at most `get_maximum_output_size(n)` = `16 + 4 + n * 110 /
/// 100`.
pub open spec fn compressed_bound(n: nat) -> nat {
    4 + 16 + 4 + n * 110 / 100
}

/// The most bytes a section's contents take for `n` bytes of data.
pub open spec fn stored_bound(n: nat, compressed: bool) -> nat {
    if compressed {
        compressed_bound(n)
    } else {
        n
    }
}

/// `s` holds `data` as a section's contents: as it is, or, when compressed,
/// as LZ4 bytes that start with the data's 4-byte length, take at most
/// [`compressed_bound`] bytes (when that bound is computed without
/// overflow) and, when the length fits, decompress to the data.
pub open spec fn packs(s: Seq<u8>, data: Seq<u8>, compressed: bool) -> bool {
    if compressed {
        &&& s.len() >= 4
        &&& s.take(4) == le_bytes(data.len(), 4)
        &&& data.len() * 110 <= usize::MAX ==> s.len() <= compressed_bound(data.len())
        &&& data.len() <= u32::MAX ==> lz4_flex_decompressed(s) == Some(data)
    } else {
        s == data
    }
}

/// `file` is what a save of the entries writes: the description, then the
/// entries and the id-map records (each id with its position), each
/// section's contents compressed when asked.
pub open spec fn saved_file(file: Seq<u8>, description: Seq<u8>, es: Seq<EntryView>, compressed: bool) -> bool {
    exists|a: Seq<u8>, b: Seq<u8>|
        #![trigger packs(a, entries_bytes(es), compressed), packs(b, id_map_bytes(es, 0), compressed)]
        {
            &&& file == section_bytes(description) + section_bytes(a) + section_bytes(b)
            &&& packs(a, entries_bytes(es), compressed)
            &&& packs(b, id_map_bytes(es, 0), compressed)
        }
}

/// The entries at the positions of the listed ids that are stored, in the
/// order of the list.
pub open spec fn picked_entries(es: Seq<EntryView>, ids: Seq<i64>) -> Seq<EntryView> {
    modified_positions(es, ids).map_values(|p: usize| es[p as int])
}

/// The id-map records that some bytes hold, read 12 bytes at a time until
/// the bytes end; `None` when the last record is cut short.
pub open spec fn parse_pairs(data: Seq<u8>) -> Option<Seq<(i64, u32)>>
    decreases data.len(),
{
    if data.len() == 0 {
        Some(Seq::empty())
    } else if data.len() < 12 {
        None
    } else {
        match parse_pairs(data.skip(12)) {
            Some(rest) => Some(
                seq![(id_of_bits(le_value(data.take(8))), le_value(data.subrange(8, 12)) as u32)] + rest,
            ),
            None => None,
        }
    }
}

/// Every record names an id at its position among the entries.
pub open spec fn pairs_agree(pairs: Seq<(i64, u32)>, es: Seq<EntryView>) -> bool {
    forall|i: int| 0 <= i < pairs.len() ==> (#[trigger] pairs[i]).1 < es.len() && es[pairs[i].1 as int].id == pairs[i].0
}

/// Why a file does not load.
pub enum LoadFailure {
    /// A section, entry or id-map record is cut short.
    Truncated,
    /// A compressed section does not decompress.
    Undecompressable,
    /// Two entries share an id.
    Duplicate,
    /// An id-map record does not name an id at its position.
    Disagreeing,
}

/// A section's contents: decompressed when the file is compressed.
pub open spec fn unpack(s: Seq<u8>, compressed: bool) -> Option<Seq<u8>> {
    if compressed {
        lz4_flex_decompressed(s)
    } else {
        Some(s)
    }
}

/// What the sections of a file that start at `pos` load to, in the order
/// they are read: the entries section (`size` entries), then the id-map
/// section and its records, then the ids are compared with the records.
pub open spec fn load_result(file: Seq<u8>, pos: nat, size: nat, compressed: bool) -> Result<
    Seq<EntryView>,
    LoadFailure,
> {
    match parse_section(file, pos) {
        None => Err(LoadFailure::Truncated),
        Some((d, end)) => match unpack(d, compressed) {
            None => Err(LoadFailure::Undecompressable),
            Some(data) => match parse_entries(data, size) {
                None => Err(LoadFailure::Truncated),
                Some((es, _)) => match parse_section(file, end) {
                    None => Err(LoadFailure::Truncated),
                    Some((m, _)) => match unpack(m, compressed) {
                        None => Err(LoadFailure::Undecompressable),
                        Some(mb) => match parse_pairs(mb) {
                            None => Err(LoadFailure::Truncated),
                            Some(pairs) => if !unique_ids(es) {
                                Err(LoadFailure::Duplicate)
                            } else if !pairs_agree(pairs, es) {
                                Err(LoadFailure::Disagreeing)
                            } else {
                                Ok(es)
                            },
                        },
                    },
                },
            },
        },
    }
}

/// The positions of the entries whose ids are listed, in the order of the
/// list; absent ids are skipped.
pub open spec fn modified_positions(es: Seq<EntryView>, ids: Seq<i64>) -> Seq<usize>
    decreases ids.len(),
{
    if ids.len() == 0 {
        Seq::empty()
    } else {
        let rest = modified_positions(es, ids.drop_last());
        if contains_id(es, ids.last()) {
            rest.push(slot_of(es, ids.last()) as usize)
        } else {
            rest
        }
    }
}

/// An in-memory database of vectors of one dimension, keyed by `i64` ids,
/// whose files are compressed.
pub struct VectorDB {
    db: Inner,
}

impl View for VectorDB {
    type V = Seq<EntryView>;

    /// The stored entries, in storage order.
    closed spec fn view(&self) -> Seq<EntryView> {
        self.db@
    }
}

impl VectorDB {
    /// The dimension every stored vector has.
    pub closed spec fn spec_dimension(&self) -> usize {
        self.db.spec_dimension()
    }

    /// The metric the distances are measured by.
    pub closed spec fn spec_metric(&self) -> DistanceMetric {
        self.db.spec_metric()
    }

    /// Whether vectors are stored (and queries searched) normalized.
    pub closed spec fn spec_normalized(&self) -> bool {
        self.db.spec_normalized()
    }

    /// The operation counters.
    pub closed spec fn spec_stats(&self) -> Stats {
        self.db.spec_stats()
    }

    /// Whether operations are counted.
    pub closed spec fn spec_stats_enabled(&self) -> bool {
        self.db.spec_stats_enabled()
    }

    /// The map gives each stored id its entry's position.
    pub closed spec fn wf(&self) -> bool {
        self.db.wf()
    }

    /// A sound database holds no id twice.
    pub proof fn lemma_unique_ids(&self)
        requires
            self.wf(),
        ensures
            unique_ids(self@),
    {
        self.db.lemma_unique_ids();
    }

    /// An empty database; cosine databases store normalized vectors.
    pub fn new(dimension: usize, metric: DistanceMetric) -> (db: Self)
        ensures
            db.wf(),
            db@ == Seq::<EntryView>::empty(),
            db.spec_dimension() == dimension,
            db.spec_metric() == metric,
            db.spec_normalized() == (metric == DistanceMetric::Cosine),
            db.spec_stats() == Stats::zero(),
            !db.spec_stats_enabled(),
    {
        Self { db: Inner::new(dimension, metric) }
    }

    /// An empty database with room reserved for `capacity` entries.
    pub fn with_capacity(dimension: usize, metric: DistanceMetric, capacity: usize) -> (db: Self)
        ensures
            db.wf(),
            db@ == Seq::<EntryView>::empty(),
            db.spec_dimension() == dimension,
            db.spec_metric() == metric,
            db.spec_normalized() == (metric == DistanceMetric::Cosine),
            db.spec_stats() == Stats::zero(),
            !db.spec_stats_enabled(),
    {
        Self { db: Inner::with_capacity(dimension, metric, capacity) }
    }

    /// The dimension every stored vector has.
    pub fn dimension(&self) -> (d: usize)
        ensures
            d == self.spec_dimension(),
    {
        self.db.dimension()
    }

    /// The metric the distances are measured by.
    pub fn metric(&self) -> (m: DistanceMetric)
        ensures
            m == self.spec_metric(),
    {
        self.db.metric()
    }

    /// Whether vectors are stored (and queries searched) normalized.
    pub fn normalized(&self) -> (b: bool)
        ensures
            b == self.spec_normalized(),
    {
        self.db.normalized()
    }

    /// The number of stored entries.
    pub fn size(&self) -> (n: usize)
        requires
            self.wf(),
        ensures
            n == self@.len(),
    {
        self.db.size()
    }

    /// Turns counting on or off.
    pub fn enable_stats(&mut self, enable: bool)
        requires
            old(self).wf(),
        ensures
            final(self).wf(),
            final(self)@ == old(self)@,
            final(self).spec_dimension() == old(self).spec_dimension(),
            final(self).spec_metric() == old(self).spec_metric(),
            final(self).spec_normalized() == old(self).spec_normalized(),
            final(self).spec_stats() == old(self).spec_stats(),
            final(self).spec_stats_enabled() == enable,
    {
        self.db.enable_stats(enable)
    }

    /// The operation counters.
    pub fn stats(&self) -> (s: Stats)
        ensures
            s == self.spec_stats(),
    {
        self.db.stats()
    }

    /// Sets all counters to zero.
    pub fn reset_stats(&mut self)
        requires
            old(self).wf(),
        ensures
            final(self).wf(),
            final(self)@ == old(self)@,
            final(self).spec_dimension() == old(self).spec_dimension(),
            final(self).spec_metric() == old(self).spec_metric(),
            final(self).spec_normalized() == old(self).spec_normalized(),
            final(self).spec_stats() == Stats::zero(),
            final(self).spec_stats_enabled() == old(self).spec_stats_enabled(),
    {
        self.db.reset_stats()
    }

    /// Stores a vector (normalized beforehand when the database normalizes)
    /// under a new id.
    ///
    /// Fails with `DimensionMismatch` when the vector's length is not the
    /// database's dimension, and then with `DuplicateId` when the id is
    /// already stored; otherwise the entry is appended.
    pub fn insert(&mut self, id: i64, vector: Vec<u32>, metadata: Option<Vec<u8>>) -> (r: Result<(), Error>)
        requires
            old(self).wf(),
        ensures
            final(self).wf(),
            final(self).spec_dimension() == old(self).spec_dimension(),
            final(self).spec_metric() == old(self).spec_metric(),
            final(self).spec_normalized() == old(self).spec_normalized(),
            final(self).spec_stats_enabled() == old(self).spec_stats_enabled(),
            vector@.len() != old(self).spec_dimension() ==> {
                &&& r == Err::<(), Error>(
                    Error::DimensionMismatch { expected: old(self).spec_dimension(), got: vector@.len() as usize },
                )
                &&& final(self)@ == old(self)@
                &&& final(self).spec_stats() == old(self).spec_stats()
            },
            vector@.len() == old(self).spec_dimension() && contains_id(old(self)@, id) ==> {
                &&& r == Err::<(), Error>(Error::DuplicateId(id))
                &&& final(self)@ == old(self)@
                &&& final(self).spec_stats() == old(self).spec_stats()
            },
            vector@.len() == old(self).spec_dimension() && !contains_id(old(self)@, id) ==> {
                &&& r is Ok
                &&& final(self)@ == old(self)@.push(
                    EntryView { id, vector: vector@, metadata: opt_bytes_view(metadata) },
                )
                &&& final(self).spec_stats() == (if old(self).spec_stats_enabled() {
                    Stats { insert_count: bumped_usize(old(self).spec_stats().insert_count), ..old(self).spec_stats() }
                } else {
                    old(self).spec_stats()
                })
            },
    {
        self.db.insert(id, vector, metadata)
    }

    /// Removes the entry with this id; the entries after it move up one
    /// position.
    ///
    /// Fails with `NotFound` when no entry has the id.
    pub fn delete(&mut self, id: i64) -> (r: Result<(), Error>)
        requires
            old(self).wf(),
        ensures
            final(self).wf(),
            final(self).spec_dimension() == old(self).spec_dimension(),
            final(self).spec_metric() == old(self).spec_metric(),
            final(self).spec_normalized() == old(self).spec_normalized(),
            final(self).spec_stats_enabled() == old(self).spec_stats_enabled(),
            !contains_id(old(self)@, id) ==> {
                &&& r == Err::<(), Error>(Error::NotFound(id))
                &&& final(self)@ == old(self)@
                &&& final(self).spec_stats() == old(self).spec_stats()
            },
            contains_id(old(self)@, id) ==> {
                &&& r is Ok
                &&& final(self)@ == old(self)@.remove(slot_of(old(self)@, id))
                &&& final(self).spec_stats() == (if old(self).spec_stats_enabled() {
                    Stats { delete_count: bumped_usize(old(self).spec_stats().delete_count), ..old(self).spec_stats() }
                } else {
                    old(self).spec_stats()
                })
            },
    {
        self.db.delete(id)
    }

    /// The entry with this id.
    ///
    /// Fails with `NotFound` when no entry has the id.
    pub fn get(&mut self, id: i64) -> (r: Result<VectorEntry, Error>)
        requires
            old(self).wf(),
        ensures
            final(self).wf(),
            final(self)@ == old(self)@,
            final(self).spec_dimension() == old(self).spec_dimension(),
            final(self).spec_metric() == old(self).spec_metric(),
            final(self).spec_normalized() == old(self).spec_normalized(),
            final(self).spec_stats_enabled() == old(self).spec_stats_enabled(),
            match r {
                Ok(e) => lookup(old(self)@, id) == Some(e@),
                Err(err) => lookup(old(self)@, id) is None && err == Error::NotFound(id),
            },
            final(self).spec_stats() == (if old(self).spec_stats_enabled() && contains_id(old(self)@, id) {
                Stats { get_count: bumped_usize(old(self).spec_stats().get_count), ..old(self).spec_stats() }
            } else {
                old(self).spec_stats()
            }),
    {
        self.db.get(id)
    }

    /// The entry at a storage position, for computing distances to it.
    pub fn entry_at(&self, slot: usize) -> (e: &VectorEntry)
        requires
            self.wf(),
            slot < self@.len(),
        ensures
            e@ == self@[slot as int],
    {
        self.db.entry_at(slot)
    }

    /// The `k` entries nearest to the query, by the given distances.
    ///
    /// `distances[i]` is the distance (an `f32` bit pattern) from the
    /// (normalized, when the database normalizes) query to the entry at
    /// position `i`. Fails with `DimensionMismatch` when the query's length
    /// is not the database's dimension. Otherwise the hits are the
    /// `min(k, size)` nearest entries, nearest first, ties in storage order.
    pub fn search(&mut self, query: &[u32], distances: &[u32], k: usize) -> (r: Result<Vec<SearchResult>, Error>)
        requires
            old(self).wf(),
            distances@.len() == old(self)@.len(),
            sortable(distances@),
        ensures
            final(self).wf(),
            final(self)@ == old(self)@,
            final(self).spec_dimension() == old(self).spec_dimension(),
            final(self).spec_metric() == old(self).spec_metric(),
            final(self).spec_normalized() == old(self).spec_normalized(),
            final(self).spec_stats_enabled() == old(self).spec_stats_enabled(),
            query@.len() != old(self).spec_dimension() ==> {
                &&& r == Err::<Vec<SearchResult>, Error>(
                    Error::DimensionMismatch { expected: old(self).spec_dimension(), got: query@.len() as usize },
                )
                &&& final(self).spec_stats() == old(self).spec_stats()
            },
            query@.len() == old(self).spec_dimension() ==> {
                &&& r matches Ok(res) && search_hits(old(self)@, distances@, k as nat, res@)
                &&& final(self).spec_stats() == (if old(self).spec_stats_enabled() {
                    Stats { search_count: bumped_usize(old(self).spec_stats().search_count), ..old(self).spec_stats() }
                } else {
                    old(self).spec_stats()
                })
            },
    {
        self.db.search(query, distances, k)
    }

    /// Searches for each query in turn, stopping at the first that fails.
    ///
    /// `distances[q]` holds the distances from query `q` to the entries.
    pub fn search_batch(&mut self, queries: &[Vec<u32>], distances: &[Vec<u32>], k: usize) -> (r: Result<
        Vec<Vec<SearchResult>>,
        Error,
    >)
        requires
            old(self).wf(),
            distances@.len() == queries@.len(),
            forall|q: int|
                0 <= q < distances@.len() ==> (#[trigger] distances@[q])@.len() == old(self)@.len() && sortable(
                    distances@[q]@,
                ),
        ensures
            final(self).wf(),
            final(self)@ == old(self)@,
            final(self).spec_dimension() == old(self).spec_dimension(),
            final(self).spec_metric() == old(self).spec_metric(),
            final(self).spec_normalized() == old(self).spec_normalized(),
            final(self).spec_stats_enabled() == old(self).spec_stats_enabled(),
            ({
                let m = first_bad_query(queries@, old(self).spec_dimension());
                let counted: nat = if old(self).spec_stats_enabled() {
                    m as nat
                } else {
                    0
                };
                &&& final(self).spec_stats() == (Stats {
                    search_count: bumped_usize_by(old(self).spec_stats().search_count, counted),
                    ..old(self).spec_stats()
                })
                &&& m < queries@.len() ==> r == Err::<Vec<Vec<SearchResult>>, Error>(
                    Error::DimensionMismatch { expected: old(self).spec_dimension(), got: queries@[m]@.len() as usize },
                )
                &&& m == queries@.len() ==> (r matches Ok(all) && all@.len() == queries@.len() && forall|q: int|
                    0 <= q < all@.len() ==> search_hits(old(self)@, distances@[q]@, k as nat, (#[trigger] all@[q])@))
            }),
    {
        self.db.search_batch(queries, distances, k)
    }

    /// The database's file with both sections compressed.
    pub fn save(&self, description: &[u8]) -> (out: Vec<u8>)
        requires
            self.wf(),
        ensures
            saved_file(out@, description@, self@, true),
    {
        self.save_with_compression(description, true)
    }

    /// The database's file: the description (the JSON that records the
    /// version, dimension, metric, size, whether the sections are
    /// compressed, and a timestamp), the entries and the id-map records in
    /// storage order, the last two compressed when asked.
    pub fn save_with_compression(&self, description: &[u8], use_compression: bool) -> (out: Vec<u8>)
        requires
            self.wf(),
        ensures
            saved_file(out@, description@, self@, use_compression),
    {
        let data = self.entries_bytes();
        let id_map = self.serialize_id_map();
        Self::write_sections(description, data.as_slice(), id_map.as_slice(), use_compression)
    }

    /// The three sections of a file: the description, the entries' bytes
    /// and the id-map records, the last two compressed when asked.
    fn write_sections(description: &[u8], data: &[u8], id_map: &[u8], use_compression: bool) -> (out: Vec<u8>)
        ensures
            exists|a: Seq<u8>, b: Seq<u8>|
                #![trigger packs(a, data@, use_compression), packs(b, id_map@, use_compression)]
                {
                    &&& out@ == section_bytes(description@) + section_bytes(a) + section_bytes(b)
                    &&& packs(a, data@, use_compression)
                    &&& packs(b, id_map@, use_compression)
                },
    {
        let mut out: Vec<u8> = Vec::new();
        push_section(&mut out, description);
        if use_compression {
            let c = lz4_flex_compress(data);
            push_section(&mut out, c.as_slice());
            let ci = lz4_flex_compress(id_map);
            push_section(&mut out, ci.as_slice());
            proof {
                assert(packs(c@, data@, true));
                assert(packs(ci@, id_map@, true));
            }
        } else {
            push_section(&mut out, data);
            push_section(&mut out, id_map);
            proof {
                assert(packs(data@, data@, false));
                assert(packs(id_map@, id_map@, false));
            }
        }
        out
    }

    /// The bytes of the stored entries, one after the other.
    pub fn entries_bytes(&self) -> (out: Vec<u8>)
        requires
            self.wf(),
        ensures
            out@ == entries_bytes(self@),
    {
        let mut out: Vec<u8> = Vec::new();
        let n = self.db.size();
        let mut i: usize = 0;
        while i < n
            invariant
                self.wf(),
                n == self@.len(),
                i <= n,
                out@ == entries_bytes(self@.take(i as int)),
            decreases n - i,
        {
            let e = self.db.entry_at(i);
            crate::qwen35::format::encode_entry(&mut out, e.id, e.vector.as_slice(), &e.metadata);
            proof {
                crate::qwen35::vector_db::lemma_entries_bytes_snoc(self@.take(i as int), e@);
                assert(self@.take(i + 1) =~= self@.take(i as int).push(e@));
            }
            i += 1;
        }
        proof {
            assert(self@.take(n as int) =~= self@);
        }
        out
    }

    /// The id-map records: each stored id with its position, in storage
    /// order.
    pub fn serialize_id_map(&self) -> (out: Vec<u8>)
        requires
            self.wf(),
        ensures
            out@ == id_map_bytes(self@, 0),
    {
        let mut out: Vec<u8> = Vec::new();
        let n = self.db.size();
        let mut j: usize = 0;
        while j < n
            invariant
                self.wf(),
                n == self@.len(),
                j <= n,
                out@ == id_map_bytes(self@.take(j as int), 0),
            decreases n - j,
        {
            let e = self.db.entry_at(j);
            crate::qwen35::format::encode_pair(&mut out, e.id, j);
            proof {
                crate::qwen35::vector_db::lemma_id_map_bytes_snoc(self@.take(j as int), self@[j as int], 0);
                assert(self@.take(j + 1) =~= self@.take(j as int).push(self@[j as int]));
            }
            j += 1;
        }
        proof {
            assert(self@.take(n as int) =~= self@);
        }
        out
    }

    /// The id-map records that some bytes hold.
    ///
    /// Fails with `IoError(UnexpectedEof)` when the last record is cut
    /// short.
    pub fn deserialize_id_map(data: &[u8]) -> (r: Result<Vec<(i64, u32)>, Error>)
        ensures
            match parse_pairs(data@) {
                Some(p) => r matches Ok(v) && v@ == p,
                None => r == Err::<Vec<(i64, u32)>, Error>(Error::IoError(IoFailure::UnexpectedEof)),
            },
    {
        let mut pairs: Vec<(i64, u32)> = Vec::new();
        let mut pos: usize = 0;
        let len = data.len();
        proof {
            assert(data@.skip(0) =~= data@);
            match parse_pairs(data@) {
                Some(rest) => {
                    assert(pairs@ + rest =~= rest);
                },
                None => {},
            }
        }
        while pos < len
            invariant
                len == data@.len(),
                pos <= len,
                parse_pairs(data@) == match parse_pairs(data@.skip(pos as int)) {
                    Some(rest) => Some(pairs@ + rest),
                    None => None::<Seq<(i64, u32)>>,
                },
            decreases len - pos,
        {
            if len - pos < 12 {
                proof {
                    assert(parse_pairs(data@.skip(pos as int)) is None);
                }
                return Err(Error::IoError(IoFailure::UnexpectedEof));
            }
            let id = read_u64_le(data, pos) as i64;
            let index = read_u32_le(data, pos + 8);
            proof {
                let s = data@.skip(pos as int);
                assert(s.take(8) =~= data@.subrange(pos as int, pos + 8));
                assert(s.subrange(8, 12) =~= data@.subrange(pos + 8, pos + 12));
                assert(s.skip(12) =~= data@.skip(pos + 12));
                match parse_pairs(s.skip(12)) {
                    Some(rest) => {
                        assert(pairs@ + (seq![(id, index)] + rest) =~= pairs@.push((id, index)) + rest);
                    },
                    None => {},
                }
            }
            pairs.push((id, index));
            pos += 12;
        }
        proof {
            assert(data@.skip(pos as int) =~= Seq::<u8>::empty());
            assert(pairs@ + Seq::<(i64, u32)>::empty() =~= pairs@);
        }
        Ok(pairs)
    }

    /// The positions of the stored entries whose ids are listed, in the
    /// order of the list (an id listed twice counts twice, an absent one not
    /// at all).
    pub fn modified_slots(&self, modified_ids: &[i64]) -> (slots: Vec<usize>)
        requires
            self.wf(),
        ensures
            slots@ == modified_positions(self@, modified_ids@),
            forall|j: int| 0 <= j < slots@.len() ==> (#[trigger] slots@[j]) < self@.len(),
    {
        let mut slots: Vec<usize> = Vec::new();
        let mut i: usize = 0;
        while i < modified_ids.len()
            invariant
                self.wf(),
                i <= modified_ids@.len(),
                slots@ == modified_positions(self@, modified_ids@.take(i as int)),
                forall|j: int| 0 <= j < slots@.len() ==> (#[trigger] slots@[j]) < self@.len(),
            decreases modified_ids@.len() - i,
        {
            let id = modified_ids[i];
            let found = self.db.position_of(id);
            proof {
                let t = modified_ids@.take(i + 1);
                assert(t =~= modified_ids@.take(i as int).push(id));
                assert(t.drop_last() =~= modified_ids@.take(i as int));
            }
            match found {
                Some(p) => {
                    slots.push(p);
                },
                None => {},
            }
            i += 1;
        }
        proof {
            assert(modified_ids@.take(modified_ids@.len() as int) =~= modified_ids@);
        }
        slots
    }

    /// A file holding only the listed entries (all of them when the list is
    /// empty), written as a save of those entries: the description, then
    /// the listed entries and their id-map records (each id with its
    /// position in the file), both compressed.
    pub fn save_incremental(&self, description: &[u8], modified_ids: &[i64]) -> (out: Vec<u8>)
        requires
            self.wf(),
        ensures
            modified_ids@.len() == 0 ==> saved_file(out@, description@, self@, true),
            modified_ids@.len() > 0 ==> saved_file(out@, description@, picked_entries(self@, modified_ids@), true),
    {
        if modified_ids.len() == 0 {
            return self.save(description);
        }
        let slots = self.modified_slots(modified_ids);
        let ghost picked = slots@.map_values(|p: usize| self@[p as int]);
        let mut data: Vec<u8> = Vec::new();
        let mut id_map: Vec<u8> = Vec::new();
        let mut i: usize = 0;
        while i < slots.len()
            invariant
                self.wf(),
                forall|j: int| 0 <= j < slots@.len() ==> (#[trigger] slots@[j]) < self@.len(),
                picked == slots@.map_values(|p: usize| self@[p as int]),
                i <= slots@.len(),
                data@ == entries_bytes(picked.take(i as int)),
                id_map@ == id_map_bytes(picked.take(i as int), 0),
            decreases slots@.len() - i,
        {
            let e = self.db.entry_at(slots[i]);
            crate::qwen35::format::encode_entry(&mut data, e.id, e.vector.as_slice(), &e.metadata);
            crate::qwen35::format::encode_pair(&mut id_map, e.id, i);
            proof {
                crate::qwen35::vector_db::lemma_entries_bytes_snoc(picked.take(i as int), e@);
                crate::qwen35::vector_db::lemma_id_map_bytes_snoc(picked.take(i as int), e@, 0);
                assert(picked.take(i + 1) =~= picked.take(i as int).push(e@));
            }
            i += 1;
        }
        proof {
            assert(picked.take(slots@.len() as int) =~= picked);
        }
        Self::write_sections(description, data.as_slice(), id_map.as_slice(), true)
    }

    /// The description at the start of a file and the position where the
    /// sections that follow it start.
    ///
    /// Fails with `IoError(UnexpectedEof)` when the file ends before the
    /// description does.
    pub fn read_description(file: &[u8]) -> (r: Result<(Vec<u8>, usize), Error>)
        ensures
            match parse_section(file@, 0) {
                Some((d, end)) => r matches Ok((v, e)) && v@ == d && e == end,
                None => r == Err::<(Vec<u8>, usize), Error>(Error::IoError(IoFailure::UnexpectedEof)),
            },
    {
        Inner::read_description(file)
    }

    /// A database of the given dimension and metric from the sections that
    /// follow a file's description at `pos`, holding the `size` entries the
    /// description declares.
    ///
    /// Fails with `IoError(UnexpectedEof)` when a section, an entry or an
    /// id-map record is cut short; with `SerializationError` when a
    /// compressed section does not decompress; with `DuplicateId` when two
    /// entries share an id; and with `SerializationError` when an id-map
    /// record does not name an id at its position.
    pub fn from_sections(
        dimension: usize,
        metric: DistanceMetric,
        size: usize,
        compressed: bool,
        file: &[u8],
        pos: usize,
    ) -> (r: Result<VectorDB, Error>)
        requires
            pos <= file@.len(),
        ensures
            match load_result(file@, pos as nat, size as nat, compressed) {
                Err(LoadFailure::Truncated) => r == Err::<VectorDB, Error>(Error::IoError(IoFailure::UnexpectedEof)),
                Err(LoadFailure::Undecompressable) => r matches Err(Error::SerializationError(_)),
                Err(LoadFailure::Duplicate) => r matches Err(Error::DuplicateId(_)),
                Err(LoadFailure::Disagreeing) => r matches Err(Error::SerializationError(_)),
                Ok(es) => r matches Ok(db) && {
                    &&& db.wf()
                    &&& db@ == es
                    &&& db.spec_dimension() == dimension
                    &&& db.spec_metric() == metric
                    &&& db.spec_normalized() == (metric == DistanceMetric::Cosine)
                    &&& db.spec_stats() == Stats::zero()
                    &&& !db.spec_stats_enabled()
                },
            },
    {
        let (data, after_data) = match read_section(file, pos) {
            Some(x) => x,
            None => {
                return Err(Error::IoError(IoFailure::UnexpectedEof));
            },
        };
        let data = if compressed {
            match lz4_flex_decompress(data.as_slice()) {
                Ok(d) => d,
                Err(msg) => {
                    return Err(Error::SerializationError(msg));
                },
            }
        } else {
            data
        };
        let (entries, _) = match read_entries(data.as_slice(), size) {
            Some(x) => x,
            None => {
                return Err(Error::IoError(IoFailure::UnexpectedEof));
            },
        };
        let (id_map, _) = match read_section(file, after_data) {
            Some(x) => x,
            None => {
                return Err(Error::IoError(IoFailure::UnexpectedEof));
            },
        };
        let id_map = if compressed {
            match lz4_flex_decompress(id_map.as_slice()) {
                Ok(d) => d,
                Err(msg) => {
                    return Err(Error::SerializationError(msg));
                },
            }
        } else {
            id_map
        };
        let pairs = Self::deserialize_id_map(id_map.as_slice())?;
        let ghost parsed = entries@.map_values(|e: VectorEntry| e@);
        let db = Inner::from_entries(dimension, metric, entries)?;
        let ghost es = db@;
        proof {
            assert(unique_ids(es));
            assert(load_result(file@, pos as nat, size as nat, compressed) == if !pairs_agree(pairs@, es) {
                Err::<Seq<EntryView>, LoadFailure>(LoadFailure::Disagreeing)
            } else {
                Ok::<Seq<EntryView>, LoadFailure>(es)
            });
        }
        let mut i: usize = 0;
        while i < pairs.len()
            invariant
                db.wf(),
                es == db@,
                unique_ids(es),
                load_result(file@, pos as nat, size as nat, compressed) == if !pairs_agree(pairs@, es) {
                    Err::<Seq<EntryView>, LoadFailure>(LoadFailure::Disagreeing)
                } else {
                    Ok::<Seq<EntryView>, LoadFailure>(es)
                },
                i <= pairs@.len(),
                pairs_agree(pairs@.take(i as int), db@),
            decreases pairs@.len() - i,
        {
            let (id, index) = pairs[i];
            if !db.holds_at(id, index as usize) {
                proof {
                    assert(pairs@[i as int] == (id, index));
                    assert(!pairs_agree(pairs@, es));
                    assert(unique_ids(es));
                }
                return Err(Error::SerializationError(String::new()));
            }
            proof {
                assert(pairs@.take(i + 1) =~= pairs@.take(i as int).push((id, index)));
            }
            i += 1;
        }
        proof {
            assert(pairs@.take(pairs@.len() as int) =~= pairs@);
        }
        Ok(VectorDB { db })
    }
}

/// The id-map records of entries numbered from `from` read back as each id
/// with its number.
proof fn lemma_parse_id_map(es: Seq<EntryView>, from: nat)
    requires
        from + es.len() <= u32::MAX + 1,
    ensures
        parse_pairs(id_map_bytes(es, from)) == Some(Seq::new(es.len(), |i: int| (es[i].id, (from + i) as u32))),
    decreases es.len(),
{
    let want = Seq::new(es.len(), |i: int| (es[i].id, (from + i) as u32));
    if es.len() == 0 {
        assert(id_map_bytes(es, from) =~= Seq::<u8>::empty());
        assert(want =~= Seq::<(i64, u32)>::empty());
    } else {
        let head = crate::qwen35::format::pair_bytes(es[0].id, from);
        let tail = id_map_bytes(es.drop_first(), from + 1);
        let data = id_map_bytes(es, from);
        assert(data == head + tail);
        crate::le_bytes::lemma_pow256_4_8();
        crate::le_bytes::lemma_le_roundtrip(crate::qwen35::format::id_bits(es[0].id), 8);
        crate::le_bytes::lemma_le_roundtrip(from, 4);
        assert(data.take(8) =~= le_bytes(crate::qwen35::format::id_bits(es[0].id), 8));
        assert(data.subrange(8, 12) =~= le_bytes(from, 4));
        assert(data.skip(12) =~= tail);
        assert(id_of_bits(crate::qwen35::format::id_bits(es[0].id)) == es[0].id) by {
            let x = es[0].id;
            assert(((x as u64) as i64) == x) by (bit_vector);
        }
        lemma_parse_id_map(es.drop_first(), from + 1);
        let rest = Seq::new(es.drop_first().len(), |i: int| (es.drop_first()[i].id, (from + 1 + i) as u32));
        assert(seq![(es[0].id, from as u32)] + rest =~= want);
    }
}

/// Reading back what was written: the sections that a save writes after
/// the description load to the saved entries (metadata of length zero
/// reading as missing), when the file can
/// record every length (the whole file within `u32::MAX` bytes, and so each
/// of its sections) and the entries' bytes fit the 4-byte size that a
/// compressed section starts with.
#[verifier::spinoff_prover]
pub proof fn law_file_roundtrip(file: Seq<u8>, description: Seq<u8>, es: Seq<EntryView>, compressed: bool)
    requires
        unique_ids(es),
        forall|i: int| 0 <= i < es.len() ==> crate::qwen35::format::storable(#[trigger] es[i]),
        description.len() <= u32::MAX,
        entries_bytes(es).len() * 110 <= usize::MAX,
        id_map_bytes(es, 0).len() * 110 <= usize::MAX,
        stored_bound(entries_bytes(es).len(), compressed) <= u32::MAX,
        stored_bound(id_map_bytes(es, 0).len(), compressed) <= u32::MAX,
        saved_file(file, description, es, compressed),
    ensures
        load_result(file, 4 + description.len(), es.len(), compressed) == Ok::<Seq<EntryView>, LoadFailure>(
            es.map_values(|e: EntryView| crate::qwen35::format::as_read(e)),
        ),
{
    let (a, b) = choose|a: Seq<u8>, b: Seq<u8>|
        {
            &&& file == section_bytes(description) + section_bytes(a) + section_bytes(b)
            &&& #[trigger] packs(a, entries_bytes(es), compressed)
            &&& #[trigger] packs(b, id_map_bytes(es, 0), compressed)
        };
    let sd = section_bytes(description);
    crate::le_bytes::lemma_le_bytes_len(description.len(), 4);
    crate::le_bytes::lemma_le_bytes_len(a.len(), 4);
    crate::le_bytes::lemma_le_bytes_len(b.len(), 4);
    assert(sd.len() == 4 + description.len());
    assert(a.len() <= stored_bound(entries_bytes(es).len(), compressed));
    assert(b.len() <= stored_bound(id_map_bytes(es, 0).len(), compressed));
    crate::qwen35::format::law_section_roundtrip(sd, a, section_bytes(b));
    let end = sd.len() + 4 + a.len();
    crate::qwen35::format::law_section_roundtrip(sd + section_bytes(a), b, Seq::<u8>::empty());
    assert(sd + section_bytes(a) + section_bytes(b) + Seq::<u8>::empty() =~= file);
    assert(unpack(a, compressed) == Some(entries_bytes(es)));
    assert(unpack(b, compressed) == Some(id_map_bytes(es, 0)));
    crate::qwen35::format::lemma_parse_entries(es, Seq::<u8>::empty());
    assert(entries_bytes(es) + Seq::<u8>::empty() =~= entries_bytes(es));
    crate::qwen35::vector_db::lemma_id_map_bytes_len(es, 0);
    lemma_parse_id_map(es, 0);
    let read = es.map_values(|e: EntryView| crate::qwen35::format::as_read(e));
    let pairs = Seq::new(es.len(), |i: int| (es[i].id, (0 + i) as u32));
    assert forall|i: int, j: int|
        0 <= i < read.len() && 0 <= j < read.len() && i != j implies (#[trigger] read[i]).id != (#[trigger] read[j]).id by {
        assert(read[i].id == es[i].id && read[j].id == es[j].id);
    }
    assert forall|i: int| 0 <= i < pairs.len() implies (#[trigger] pairs[i]).1 < read.len() && read[pairs[i].1 as int].id
        == pairs[i].0 by {
        assert(pairs[i].1 as int == i);
    }
    assert(unique_ids(read));
    assert(pairs_agree(pairs, read));
    let pos = (4 + description.len()) as nat;
    assert(parse_section(file, pos) == Some((a, end as nat)));
    assert(parse_entries(entries_bytes(es), es.len()) == Some((read, entries_bytes(es).len())));
    assert(parse_section(file, end as nat) == Some((b, (end + 4 + b.len()) as nat)));
    assert(parse_pairs(id_map_bytes(es, 0)) == Some(pairs));
}

/// The listed ids pick positions of stored entries with those ids, each
/// stored listed id's position among them; without repeats in the list, the
/// picked entries have different ids.
proof fn lemma_picked(es: Seq<EntryView>, ids: Seq<i64>)
    requires
        unique_ids(es),
        es.len() <= usize::MAX,
    ensures
        forall|k: int|
            0 <= k < modified_positions(es, ids).len() ==> {
                &&& #[trigger] modified_positions(es, ids)[k] < es.len()
                &&& ids.contains(es[modified_positions(es, ids)[k] as int].id)
            },
        forall|i: int|
            0 <= i < ids.len() && contains_id(es, ids[i]) ==> modified_positions(es, ids).contains(
                slot_of(es, #[trigger] ids[i]) as usize,
            ),
        ids.no_duplicates() ==> unique_ids(picked_entries(es, ids)),
    decreases ids.len(),
{
    if ids.len() > 0 {
        let rest_ids = ids.drop_last();
        let last = ids.last();
        lemma_picked(es, rest_ids);
        let rest = modified_positions(es, rest_ids);
        let mp = modified_positions(es, ids);
        let s = slot_of(es, last);
        assert(mp == if contains_id(es, last) {
            rest.push(s as usize)
        } else {
            rest
        });
        if contains_id(es, last) {
            assert(0 <= s < es.len() && es[s].id == last);
            assert((s as usize) as int == s);
        }
        assert(ids[ids.len() - 1] == last);
        assert forall|k: int| 0 <= k < mp.len() implies {
            &&& #[trigger] mp[k] < es.len()
            &&& ids.contains(es[mp[k] as int].id)
        } by {
            if k < rest.len() {
                assert(mp[k] == rest[k]);
                let j = choose|j: int| 0 <= j < rest_ids.len() && rest_ids[j] == es[rest[k] as int].id;
                assert(ids[j] == rest_ids[j]);
            } else {
                assert(mp[k] == s as usize);
            }
        }
        assert forall|i: int| 0 <= i < ids.len() && contains_id(es, ids[i]) implies mp.contains(
            slot_of(es, #[trigger] ids[i]) as usize,
        ) by {
            if i < ids.len() - 1 {
                assert(ids[i] == rest_ids[i]);
                let k = choose|k: int| 0 <= k < rest.len() && rest[k] == slot_of(es, rest_ids[i]) as usize;
                assert(mp[k] == rest[k]);
            } else {
                assert(mp[mp.len() - 1] == slot_of(es, last) as usize);
            }
        }
        if ids.no_duplicates() {
            assert(rest_ids.no_duplicates()) by {
                assert forall|a: int, b: int| 0 <= a < rest_ids.len() && 0 <= b < rest_ids.len() && a != b implies rest_ids[a]
                    != rest_ids[b] by {
                    assert(rest_ids[a] == ids[a] && rest_ids[b] == ids[b]);
                }
            }
            let p = picked_entries(es, ids);
            let pr = picked_entries(es, rest_ids);
            assert forall|a: int, b: int| 0 <= a < p.len() && 0 <= b < p.len() && a != b implies (#[trigger] p[a]).id
                != (#[trigger] p[b]).id by {
                if a < rest.len() && b < rest.len() {
                    assert(p[a] == pr[a] && p[b] == pr[b]);
                } else {
                    // One of them is the last listed id, which no earlier listed id repeats.
                    let (old_i, new_i) = if a < b { (a, b) } else { (b, a) };
                    assert(new_i == rest.len() && old_i < rest.len());
                    assert(mp[new_i] == s as usize);
                    assert(p[new_i] == es[s]);
                    assert(p[old_i] == pr[old_i]);
                    assert(rest_ids.contains(es[rest[old_i] as int].id));
                    let j = choose|j: int| 0 <= j < rest_ids.len() && rest_ids[j] == es[rest[old_i] as int].id;
                    assert(ids[j] == rest_ids[j]);
                    assert(j != ids.len() - 1);
                }
            }
        }
    }
}

/// Reading back an incremental save: when the listed ids do not repeat,
/// the file loads to exactly the listed entries that are stored, in the
/// order of the list (metadata of length zero reading as missing), and
/// looking up each of those ids among them gives the entry the database
/// holds for it (under the limits of [`law_file_roundtrip`]).
pub proof fn law_incremental_roundtrip(file: Seq<u8>, description: Seq<u8>, es: Seq<EntryView>, ids: Seq<i64>)
    requires
        unique_ids(es),
        es.len() <= usize::MAX,
        forall|i: int| 0 <= i < es.len() ==> crate::qwen35::format::storable(#[trigger] es[i]),
        ids.no_duplicates(),
        description.len() <= u32::MAX,
        entries_bytes(picked_entries(es, ids)).len() * 110 <= usize::MAX,
        id_map_bytes(picked_entries(es, ids), 0).len() * 110 <= usize::MAX,
        compressed_bound(entries_bytes(picked_entries(es, ids)).len()) <= u32::MAX,
        compressed_bound(id_map_bytes(picked_entries(es, ids), 0).len()) <= u32::MAX,
        saved_file(file, description, picked_entries(es, ids), true),
    ensures
        load_result(file, 4 + description.len(), picked_entries(es, ids).len(), true) == Ok::<
            Seq<EntryView>,
            LoadFailure,
        >(picked_entries(es, ids).map_values(|e: EntryView| crate::qwen35::format::as_read(e))),
        forall|i: int|
            0 <= i < ids.len() && contains_id(es, ids[i]) ==> lookup(picked_entries(es, ids), #[trigger] ids[i])
                == lookup(es, ids[i]),
        forall|j: int| 0 <= j < picked_entries(es, ids).len() ==> ids.contains((#[trigger] picked_entries(es, ids)[j]).id),
{
    lemma_picked(es, ids);
    let p = picked_entries(es, ids);
    let mp = modified_positions(es, ids);
    assert forall|i: int| 0 <= i < p.len() implies crate::qwen35::format::storable(#[trigger] p[i]) by {
        assert(p[i] == es[mp[i] as int]);
    }
    law_file_roundtrip(file, description, p, true);
    assert forall|i: int| 0 <= i < ids.len() && contains_id(es, ids[i]) implies lookup(p, #[trigger] ids[i]) == lookup(
        es,
        ids[i],
    ) by {
        let id = ids[i];
        let s = slot_of(es, id);
        assert(0 <= s < es.len() && es[s].id == id);
        assert((s as usize) as int == s);
        let k = choose|k: int| 0 <= k < mp.len() && mp[k] == s as usize;
        assert(p[k] == es[mp[k] as int]);
        assert(p[k] == es[s]);
        assert(contains_id(p, id));
        let k2 = slot_of(p, id);
        assert(0 <= k2 < p.len() && p[k2].id == id);
        assert(k2 == k);
    }
    assert forall|j: int| 0 <= j < p.len() implies ids.contains((#[trigger] p[j]).id) by {
        assert(p[j] == es[mp[j] as int]);
    }
}

} // verus!
