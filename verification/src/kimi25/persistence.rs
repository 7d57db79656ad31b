//! The file format: a header, then the (optionally LZ4-compressed) payload.

use vstd::prelude::*;

use crate::kimi25::distance::DistanceMetric;
use crate::kimi25::error::Error;
use crate::kimi25::hnsw::{NodeId, NodeView};
use crate::le_bytes::{le_bytes, le_value, read_le_upto8};
use crate::text::{decimal_text, list_text, push_decimal, push_list};

verus! {

/// The format version this library writes and reads.
pub const CURRENT_VERSION: u32 = 2u32;

/// The 8 bytes `KIMI25DB` that start every file.
pub const MAGIC_NUMBER: [u8; 8] = [0x4bu8, 0x49u8, 0x4du8, 0x49u8, 0x32u8, 0x35u8, 0x44u8, 0x42u8];

/// The largest input that LZ4 block compression accepts.
pub const LZ4_MAX_INPUT_SIZE: usize = 0x7E00_0000usize;

/// How the payload is stored.
#[derive(Debug, Clone, Copy, PartialEq, Eq, Structural)]
pub enum CompressionType {
    /// The payload is stored as it is.
    NoCompression,
    Lz4,
}

impl Default for CompressionType {
    /// LZ4 compression.
    fn default() -> (c: Self)
        ensures
            c == CompressionType::Lz4,
    {
        CompressionType::Lz4
    }
}

/// The flag byte that records a compression type.
pub open spec fn compression_flag(c: CompressionType) -> u8 {
    match c {
        CompressionType::NoCompression => 0,
        CompressionType::Lz4 => 1,
    }
}

/// The compression type that a flag byte stands for: `0` is none, any
/// other value is LZ4.
pub open spec fn compression_of_flag(flag: u8) -> CompressionType {
    if flag == 0 {
        CompressionType::NoCompression
    } else {
        CompressionType::Lz4
    }
}

/// The magic number as a sequence.
pub open spec fn magic_seq() -> Seq<u8> {
    seq![0x4bu8, 0x49u8, 0x4du8, 0x49u8, 0x32u8, 0x35u8, 0x44u8, 0x42u8]
}

/// What a file records about the database before its payload.
#[derive(Debug, Clone, Copy)]
pub struct Header {
    pub magic: [u8; 8],
    pub version: u32,
    pub dimension: usize,
    pub metric: DistanceMetric,
    pub entry_count: u64,
    pub hnsw_m: usize,
    pub hnsw_ef_construction: usize,
    pub hnsw_ef_search: usize,
    pub compression: u8,
    pub data_offset: u64,
    pub index_offset: u64,
    pub checksum: u64,
}

/// The header is one this version reads: right magic number and version.
pub open spec fn header_valid(h: Header) -> bool {
    h.magic@ == magic_seq() && h.version == CURRENT_VERSION
}

/// The refusal of a header whose magic number is `got`.
pub open spec fn magic_message(got: Seq<u8>) -> Seq<char> {
    "Invalid magic number: expected "@ + list_text(magic_seq()) + ", got "@ + list_text(got)
}

/// The refusal of a header whose version is `got`.
pub open spec fn version_message(got: u32) -> Seq<char> {
    "Unsupported version: expected "@ + decimal_text(CURRENT_VERSION as nat) + ", got "@ + decimal_text(
        got as nat,
    )
}

/// Why a header is refused: a wrong magic number first, else a wrong
/// version.
pub open spec fn validation_message(h: Header) -> Seq<char> {
    if h.magic@ != magic_seq() {
        magic_message(h.magic@)
    } else {
        version_message(h.version)
    }
}

impl Header {
    /// A header of the current version with the magic number, the given
    /// database parameters and compression flag, and zero offsets and
    /// checksum.
    pub fn new(
        dimension: usize,
        metric: DistanceMetric,
        entry_count: u64,
        hnsw_m: usize,
        hnsw_ef_construction: usize,
        hnsw_ef_search: usize,
        compression: CompressionType,
    ) -> (h: Self)
        ensures
            h.magic@ == magic_seq(),
            h.version == CURRENT_VERSION,
            h.dimension == dimension,
            h.metric == metric,
            h.entry_count == entry_count,
            h.hnsw_m == hnsw_m,
            h.hnsw_ef_construction == hnsw_ef_construction,
            h.hnsw_ef_search == hnsw_ef_search,
            h.compression == compression_flag(compression),
            h.data_offset == 0,
            h.index_offset == 0,
            h.checksum == 0,
    {
        let compression_flag: u8 = match compression {
            CompressionType::NoCompression => 0,
            CompressionType::Lz4 => 1,
        };
        let h = Header {
            magic: MAGIC_NUMBER,
            version: CURRENT_VERSION,
            dimension,
            metric,
            entry_count,
            hnsw_m,
            hnsw_ef_construction,
            hnsw_ef_search,
            compression: compression_flag,
            data_offset: 0,
            index_offset: 0,
            checksum: 0,
        };
        proof {
            assert(h.magic@ =~= magic_seq());
        }
        h
    }

    /// Checks the magic number, then the version: see
    /// [`validation_message`] for the text of each refusal.
    pub fn validate(&self) -> (r: Result<(), Error>)
        ensures
            r is Ok <==> header_valid(*self),
            !header_valid(*self) ==> (r matches Err(Error::SerializationError(m)) && m@ == validation_message(
                *self,
            )),
    {
        let expected = MAGIC_NUMBER;
        let mut i: usize = 0;
        while i < 8
            invariant
                i <= 8,
                expected@ == magic_seq(),
                forall|j: int| 0 <= j < i ==> self.magic@[j] == magic_seq()[j],
            decreases 8 - i,
        {
            if self.magic[i] != expected[i] {
                let mut m = String::from_str("Invalid magic number: expected ");
                push_list(&mut m, expected.as_slice());
                m.append(", got ");
                push_list(&mut m, self.magic.as_slice());
                proof {
                    assert(self.magic@ != magic_seq());
                    assert(m@ =~= magic_message(self.magic@));
                }
                return Err(Error::SerializationError(m));
            }
            i += 1;
        }
        proof {
            assert(self.magic@ =~= magic_seq());
        }
        if self.version != CURRENT_VERSION {
            let mut m = String::from_str("Unsupported version: expected ");
            push_decimal(&mut m, CURRENT_VERSION as u64);
            m.append(", got ");
            push_decimal(&mut m, self.version as u64);
            proof {
                assert(m@ =~= version_message(self.version));
            }
            return Err(Error::SerializationError(m));
        }
        Ok(())
    }

    /// The compression type the header's flag records.
    pub fn get_compression(&self) -> (c: CompressionType)
        ensures
            c == compression_of_flag(self.compression),
    {
        match self.compression {
            0 => CompressionType::NoCompression,
            _ => CompressionType::Lz4,
        }
    }
}

/// How a database is written and read.
pub struct PersistenceConfig {
    pub compression: CompressionType,
    pub use_mmap: bool,
    pub verify_checksum: bool,
}

impl Default for PersistenceConfig {
    /// LZ4 compression, memory-mapped reading, no checksum.
    fn default() -> (c: Self)
        ensures
            c.compression == CompressionType::Lz4,
            c.use_mmap,
            !c.verify_checksum,
    {
        PersistenceConfig { compression: CompressionType::Lz4, use_mmap: true, verify_checksum: false }
    }
}

/// A stored entry as the file holds it: its id, its vector (each `f32` by
/// its bit pattern) and optional metadata bytes.
#[derive(Debug)]
pub struct SerializableEntry {
    pub id: u64,
    pub vector: Vec<u32>,
    pub metadata: Option<Vec<u8>>,
}

/// A graph node as the file holds it.
#[derive(Debug)]
pub struct SerializableNode {
    pub id: NodeId,
    pub external_id: u64,
    pub vector: Vec<u32>,
    pub level: usize,
    pub neighbors: Vec<Vec<NodeId>>,
}

impl View for SerializableNode {
    type V = NodeView;

    open spec fn view(&self) -> NodeView {
        NodeView {
            id: self.id,
            external_id: self.external_id,
            vector: self.vector@,
            level: self.level,
            neighbors: self.neighbors@.map_values(|l: Vec<NodeId>| l@),
        }
    }
}

/// The graph as the file holds it: its nodes, the pairs of its id map,
/// its entry point and its top level.
#[derive(Debug)]
pub struct SerializableHnsw {
    pub nodes: Vec<SerializableNode>,
    pub id_to_idx: Vec<(u64, NodeId)>,
    pub entry_point: usize,
    pub max_level: usize,
}

/// What the payload of a file holds: the entries and the graph.
#[derive(Debug)]
pub struct DatabaseData {
    pub entries: Vec<SerializableEntry>,
    pub hnsw: SerializableHnsw,
}

/// What a load reports.
#[derive(Debug)]
pub struct LoadStats {
    pub duration: std::time::Duration,
    pub entries_loaded: usize,
    pub bytes_read: usize,
}

/// Rotation of a 64-bit word 13 bits to the left.
pub open spec fn rotl13(x: u64) -> u64 {
    (x << 13u64) | (x >> 51u64)
}

/// Addition modulo `2^64`.
pub open spec fn add_wrapping(a: u64, b: u64) -> u64 {
    ((a as nat + b as nat) % 0x1_0000_0000_0000_0000) as u64
}

/// The `j`-th 8-byte chunk of the data (the last one may be shorter).
pub open spec fn chunk(data: Seq<u8>, j: nat) -> Seq<u8> {
    let start: int = 8 * (j as int);
    let end: int = if start + 8 <= data.len() {
        start + 8
    } else {
        data.len() as int
    };
    data.subrange(start, end)
}

/// The number of 8-byte chunks the data is cut into.
pub open spec fn num_chunks(len: nat) -> nat {
    (len + 7) / 8
}

/// The checksum after the first `j` chunks: starting from zero, each
/// chunk's little-endian value is added (modulo `2^64`) and the sum rotated
/// 13 bits left.
pub open spec fn checksum_upto(data: Seq<u8>, j: nat) -> u64
    decreases j,
{
    if j == 0 {
        0
    } else {
        rotl13(add_wrapping(checksum_upto(data, (j - 1) as nat), le_value(chunk(data, (j - 1) as nat)) as u64))
    }
}

/// The checksum of the whole data.
pub open spec fn checksum_of(data: Seq<u8>) -> u64 {
    checksum_upto(data, num_chunks(data.len()))
}

/// What `lz4::block::decompress` returns on some input when no size is
/// given (the size is then read from the input's first 4 bytes).
pub uninterp spec fn lz4_decompressed(input: Seq<u8>) -> Option<Seq<u8>>;

/// The text that starts the refusal of a compression.
pub open spec fn compression_failed_prefix() -> Seq<char> {
    "LZ4 compression failed: "@
}

/// The text that starts the refusal of a decompression.
pub open spec fn decompression_failed_prefix() -> Seq<char> {
    "LZ4 decompression failed: "@
}

/// `lz4::block::compress(src, None, true)`: LZ4 block compression with the
/// uncompressed length prepended as 4 little-endian bytes.
///
/// Claimed: on success the output starts with the 4-byte length, and
/// decompressing it gives the input back (the library's round trip, which
/// its documentation and tests rest on); the compressed bytes themselves are
/// left unsaid, since they differ between builds. Compression succeeds on
/// inputs of at most `LZ4_MAX_INPUT_SIZE` bytes (the C library's documented
/// guarantee when the output buffer has `LZ4_compressBound` bytes, which
/// this call allocates). A refusal is reported with the library's error
/// text after [`compression_failed_prefix`].
#[verifier::external_body]
fn lz4_compress(src: &[u8]) -> (r: Result<Vec<u8>, String>)
    ensures
        r matches Ok(out) ==> out@.len() >= 4 && out@.subrange(0, 4) == le_bytes(src@.len(), 4)
            && lz4_decompressed(out@) == Some(src@),
        r matches Err(m) ==> compression_failed_prefix().is_prefix_of(m@),
        src@.len() <= LZ4_MAX_INPUT_SIZE ==> r is Ok,
{
    match lz4::block::compress(src, None, true) {
        Ok(out) => Ok(out),
        Err(e) => Err(format!("LZ4 compression failed: {}", e)),
    }
}

/// `lz4::block::decompress(src, None)`: reads the 4-byte little-endian size
/// prefix, then decompresses the rest.
///
/// Claimed: the result depends on the input alone (named
/// `lz4_decompressed`); a refusal is reported with the library's error text
/// after [`decompression_failed_prefix`].
#[verifier::external_body]
fn lz4_decompress(src: &[u8]) -> (r: Result<Vec<u8>, String>)
    ensures
        r matches Ok(out) ==> lz4_decompressed(src@) == Some(out@),
        r matches Err(m) ==> lz4_decompressed(src@) is None && decompression_failed_prefix().is_prefix_of(m@),
{
    match lz4::block::decompress(src, None) {
        Ok(out) => Ok(out),
        Err(e) => Err(format!("LZ4 decompression failed: {}", e)),
    }
}

/// The reading and writing of database files.
pub struct Persistence;

/// `stored` is how the file holds the payload `data`: as it is, or, when
/// compressed, as LZ4 bytes that start with the payload's 4-byte length and
/// decompress to the payload.
pub open spec fn stores_payload(stored: Seq<u8>, data: Seq<u8>, compression: CompressionType) -> bool {
    match compression {
        CompressionType::NoCompression => stored == data,
        CompressionType::Lz4 => stored.len() >= 4 && stored.subrange(0, 4) == le_bytes(data.len(), 4)
            && lz4_decompressed(stored) == Some(data),
    }
}

/// `x` rotated 13 bits to the left as a 64-bit word, in arithmetic: the
/// low 51 bits move up 13 places and the top 13 bits come round to the
/// bottom.
pub open spec fn rotated_left_13(x: nat) -> nat {
    (x * 8192) % 0x1_0000_0000_0000_0000 + x / 0x8_0000_0000_0000
}

proof fn lemma_rotl13_arith(x: u64)
    ensures
        rotl13(x) as nat == rotated_left_13(x as nat),
{
    assert((x << 13u64) | (x >> 51u64) == ((x as nat * 8192) % 0x1_0000_0000_0000_0000 + x as nat / 0x8_0000_0000_0000))
        by (bit_vector);
}

/// `256^n` is at most `2^64` for up to 8 bytes.
proof fn lemma_pow256_upto8(n: nat)
    requires
        n <= 8,
    ensures
        crate::le_bytes::pow256(n) <= 0x1_0000_0000_0000_0000,
{
    reveal_with_fuel(crate::le_bytes::pow256, 9);
    if n == 0 {
    } else if n == 1 {
    } else if n == 2 {
    } else if n == 3 {
    } else if n == 4 {
    } else if n == 5 {
    } else if n == 6 {
    } else if n == 7 {
    } else {
    }
}

/// The chunks of a whole number of 8-byte chunks are not changed by what
/// follows them.
proof fn lemma_checksum_prefix(data: Seq<u8>, more: Seq<u8>, j: nat)
    requires
        8 * j <= data.len(),
    ensures
        checksum_upto(data + more, j) == checksum_upto(data, j),
    decreases j,
{
    if j > 0 {
        lemma_checksum_prefix(data, more, (j - 1) as nat);
        let k = (j - 1) as nat;
        assert(chunk(data + more, k) =~= chunk(data, k));
    }
}

/// The checksum of no bytes is zero.
pub proof fn law_checksum_empty()
    ensures
        checksum_of(Seq::<u8>::empty()) == 0,
{
}

/// The checksum grows chunk by chunk: after data cut into whole 8-byte
/// chunks, a further chunk `c` (of 1 to 8 bytes) is added to the checksum
/// so far as a little-endian number modulo `2^64`, and the sum is rotated 13
/// bits to the left. So, for instance, chunks worth 1 and then 8192 give
/// `rotl13(rotl13(1) + 8192)`.
pub proof fn law_checksum_append(data: Seq<u8>, c: Seq<u8>)
    requires
        data.len() % 8 == 0,
        1 <= c.len() <= 8,
    ensures
        ({
            let s = (checksum_of(data) as nat + le_value(c)) % 0x1_0000_0000_0000_0000;
            checksum_of(data + c) as nat == rotated_left_13(s)
        }),
{
    let q = data.len() / 8;
    let all = data + c;
    assert(num_chunks(data.len()) == q) by (nonlinear_arith)
        requires
            data.len() % 8 == 0,
            q == data.len() / 8,
    ;
    assert(num_chunks(all.len()) == q + 1) by (nonlinear_arith)
        requires
            data.len() % 8 == 0,
            q == data.len() / 8,
            all.len() == data.len() + c.len(),
            1 <= c.len() <= 8,
    ;
    assert(8 * q == data.len()) by (nonlinear_arith)
        requires
            data.len() % 8 == 0,
            q == data.len() / 8,
    ;
    lemma_checksum_prefix(data, c, q as nat);
    assert(chunk(all, q as nat) =~= c);
    crate::le_bytes::lemma_le_value_bound(c);
    lemma_pow256_upto8(c.len());
    let prev = checksum_upto(data, q as nat);
    let sum = add_wrapping(prev, le_value(c) as u64);
    assert((le_value(c) as u64) as nat == le_value(c));
    lemma_rotl13_arith(sum);
}

impl Persistence {
    /// The checksum of the data: see [`checksum_of`].
    pub fn calculate_checksum(data: &[u8]) -> (c: u64)
        ensures
            c == checksum_of(data@),
    {
        let len = data.len();
        let mut checksum: u64 = 0;
        let mut pos: usize = 0;
        let ghost mut j: nat = 0;
        while pos < len
            invariant
                len == data@.len(),
                pos <= len,
                pos == 8 * j || (pos == len && j == num_chunks(len as nat)),
                checksum == checksum_upto(data@, j),
            decreases len - pos,
        {
            let end = if len - pos < 8 {
                len
            } else {
                pos + 8
            };
            let value = read_le_upto8(data, pos, end);
            proof {
                assert(pos == 8 * j);
                assert(data@.subrange(pos as int, end as int) == chunk(data@, j));
            }
            let sum = checksum.wrapping_add(value);
            checksum = (sum << 13u64) | (sum >> 51u64);
            proof {
                assert(sum == add_wrapping(checksum_upto(data@, j), le_value(chunk(data@, j)) as u64));
                j = j + 1;
            }
            pos = end;
        }
        checksum
    }

    /// The bytes a save writes after the header, and the header: the data
    /// is LZ4-compressed when the configuration asks for it, and the stored
    /// bytes' checksum recorded when the configuration asks for one (zero
    /// otherwise).
    ///
    /// Fails, with LZ4's error text after [`compression_failed_prefix`], when
    /// LZ4 refuses the data.
    pub fn frame_payload(
        data: &[u8],
        config: &PersistenceConfig,
        dimension: usize,
        metric: DistanceMetric,
        entry_count: u64,
        hnsw_m: usize,
        hnsw_ef_construction: usize,
        hnsw_ef_search: usize,
    ) -> (r: Result<(Header, Vec<u8>), Error>)
        ensures
            r matches Ok((h, out)) ==> {
                &&& stores_payload(out@, data@, config.compression)
                &&& h.magic@ == magic_seq()
                &&& h.version == CURRENT_VERSION
                &&& h.dimension == dimension
                &&& h.metric == metric
                &&& h.entry_count == entry_count
                &&& h.hnsw_m == hnsw_m
                &&& h.hnsw_ef_construction == hnsw_ef_construction
                &&& h.hnsw_ef_search == hnsw_ef_search
                &&& h.compression == compression_flag(config.compression)
                &&& h.data_offset == 0
                &&& h.index_offset == 0
                &&& h.checksum == (if config.verify_checksum {
                    checksum_of(out@)
                } else {
                    0
                })
            },
            r matches Err(Error::SerializationError(m)) ==> config.compression == CompressionType::Lz4
                && compression_failed_prefix().is_prefix_of(m@),
            config.compression == CompressionType::NoCompression || data@.len() <= LZ4_MAX_INPUT_SIZE ==> r is Ok,
    {
        let out = match config.compression {
            CompressionType::NoCompression => crate::copying::copy_bytes(data),
            CompressionType::Lz4 => match lz4_compress(data) {
                Ok(c) => c,
                Err(m) => {
                    return Err(Error::SerializationError(m));
                },
            },
        };
        let checksum = if config.verify_checksum {
            Self::calculate_checksum(out.as_slice())
        } else {
            0
        };
        let mut header = Header::new(
            dimension,
            metric,
            entry_count,
            hnsw_m,
            hnsw_ef_construction,
            hnsw_ef_search,
            config.compression,
        );
        header.checksum = checksum;
        Ok((header, out))
    }

    /// The payload a load reads, from the header and the bytes after it:
    /// the header is validated, then the checksum compared when the
    /// configuration asks for it and the header records one (non-zero),
    /// then the bytes decompressed when the header says they are
    /// compressed.
    ///
    /// Each refusal is a `SerializationError`: the header's text (see
    /// [`validation_message`]), `Checksum mismatch`, or LZ4's error text
    /// after [`decompression_failed_prefix`].
    pub fn open_payload(header: &Header, stored: &[u8], config: &PersistenceConfig) -> (r: Result<Vec<u8>, Error>)
        ensures
            !header_valid(*header) ==> (r matches Err(Error::SerializationError(m)) && m@ == validation_message(
                *header,
            )),
            header_valid(*header) && checksum_refused(*header, stored@, config.verify_checksum) ==> (r matches Err(
                Error::SerializationError(m),
            ) && m@ == "Checksum mismatch"@),
            header_valid(*header) && !checksum_refused(*header, stored@, config.verify_checksum) ==> match compression_of_flag(header.compression) {
                CompressionType::NoCompression => (r matches Ok(out) && out@ == stored@),
                CompressionType::Lz4 => match lz4_decompressed(stored@) {
                    Some(d) => (r matches Ok(out) && out@ == d),
                    None => (r matches Err(Error::SerializationError(m))
                        && decompression_failed_prefix().is_prefix_of(m@)),
                },
            },
            // The payload depends on the header, the bytes and whether the
            // checksum is tested, and on no other setting.
            match opened(*header, stored@, config.verify_checksum) {
                Some(d) => (r matches Ok(out) && out@ == d),
                None => r is Err,
            },
            // Reading back what was written: bytes that hold a payload, as the
            // header's compression flag says, open to that payload.
            forall|data: Seq<u8>|
                header_valid(*header) && !checksum_refused(*header, stored@, config.verify_checksum)
                    && #[trigger] stores_payload(stored@, data, compression_of_flag(header.compression)) ==> (r matches Ok(
                    out,
                ) && out@ == data),
    {
        header.validate()?;
        if config.verify_checksum && header.checksum != 0 {
            let checksum = Self::calculate_checksum(stored);
            if checksum != header.checksum {
                return Err(Error::SerializationError(String::from_str("Checksum mismatch")));
            }
        }
        match header.get_compression() {
            CompressionType::NoCompression => Ok(crate::copying::copy_bytes(stored)),
            CompressionType::Lz4 => match lz4_decompress(stored) {
                Ok(d) => Ok(d),
                Err(m) => Err(Error::SerializationError(m)),
            },
        }
    }
}

/// The payload that a load opens from the bytes after a header: `None`
/// when the header is refused, the checksum test (when asked for) refuses
/// the bytes, or compressed bytes do not decompress. Neither the configured
/// compression nor memory mapping plays a part.
pub open spec fn opened(header: Header, stored: Seq<u8>, verify_checksum: bool) -> Option<Seq<u8>> {
    if !header_valid(header) || checksum_refused(header, stored, verify_checksum) {
        None
    } else {
        match compression_of_flag(header.compression) {
            CompressionType::NoCompression => Some(stored),
            CompressionType::Lz4 => lz4_decompressed(stored),
        }
    }
}

/// The checksum test refuses the stored bytes: it is asked for, the header
/// records a checksum (non-zero), and the bytes' checksum differs.
pub open spec fn checksum_refused(header: Header, stored: Seq<u8>, verify_checksum: bool) -> bool {
    verify_checksum && header.checksum != 0 && checksum_of(stored) != header.checksum
}

} // verus!
