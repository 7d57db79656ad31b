//! The JSON description at the start of a database file: the dimension,
//! the metric's name and the number of entries.

use vstd::prelude::*;

use crate::qwen35::distance::DistanceMetric;
use crate::qwen35::error::{Error, IoFailure};
use crate::qwen35::format::{as_read, copy_range, parse_section, section_bytes, storable, EntryView};
use crate::qwen35::vector_db::{body_bytes, built_from_body, unique_ids, VectorDB};

verus! {

/// The JSON text that `serde_json` writes for an object of these three
/// members (number, string, number).
pub uninterp spec fn json_object_text(k1: Seq<char>, v1: u64, k2: Seq<char>, v2: Seq<char>, k3: Seq<char>, v3: u64) -> Seq<u8>;

/// What `serde_json` reads at a key of the JSON that some bytes hold, as an
/// unsigned 64-bit number: `None` when the bytes are not JSON, `Some(None)`
/// when the key is missing or holds no such number.
pub uninterp spec fn json_u64_at(bytes: Seq<u8>, key: Seq<char>) -> Option<Option<u64>>;

/// What `serde_json` reads at a key of the JSON that some bytes hold, as a
/// string: `None` when the bytes are not JSON, `Some(None)` when the key is
/// missing or holds no string.
pub uninterp spec fn json_str_at(bytes: Seq<u8>, key: Seq<char>) -> Option<Option<Seq<char>>>;

/// The text of an optional string.
pub open spec fn opt_text(o: Option<String>) -> Option<Seq<char>> {
    match o {
        Some(s) => Some(s@),
        None => None,
    }
}

/// `serde_json::Value::to_string` of an object built with
/// `serde_json::Map::insert` from three members: the compact JSON text, as
/// bytes (`json_object_text`).
///
/// Claimed besides: `serde_json` reads its own text back, so that when the
/// keys differ, the number at the first and the last key and the string at
/// the middle key are the values written there.
#[verifier::external_body]
fn json_object3(k1: &str, v1: u64, k2: &str, v2: &str, k3: &str, v3: u64) -> (r: Vec<u8>)
    ensures
        r@ == json_object_text(k1@, v1, k2@, v2@, k3@, v3),
        k1@ != k2@ && k1@ != k3@ && k2@ != k3@ ==> {
            &&& json_u64_at(r@, k1@) == Some(Some(v1))
            &&& json_str_at(r@, k2@) == Some(Some(v2@))
            &&& json_u64_at(r@, k3@) == Some(Some(v3))
        },
{
    let mut map = serde_json::Map::new();
    map.insert(k1.to_owned(), serde_json::Value::from(v1));
    map.insert(k2.to_owned(), serde_json::Value::from(v2));
    map.insert(k3.to_owned(), serde_json::Value::from(v3));
    serde_json::Value::Object(map).to_string().into_bytes()
}

/// `serde_json::from_slice` into a `serde_json::Value`, then `as_u64` of
/// the value at the key (`json_u64_at`); a parse error comes back as its
/// message.
#[verifier::external_body]
fn json_u64(bytes: &[u8], key: &str) -> (r: Result<Option<u64>, String>)
    ensures
        r matches Ok(v) ==> json_u64_at(bytes@, key@) == Some(v),
        r is Err ==> json_u64_at(bytes@, key@) is None,
{
    serde_json::from_slice::<serde_json::Value>(bytes).map(|v| v[key].as_u64()).map_err(|e| e.to_string())
}

/// `serde_json::from_slice` into a `serde_json::Value`, then `as_str` of
/// the value at the key (`json_str_at`); a parse error comes back as its
/// message.
#[verifier::external_body]
fn json_str(bytes: &[u8], key: &str) -> (r: Result<Option<String>, String>)
    ensures
        r matches Ok(v) ==> json_str_at(bytes@, key@) == Some(opt_text(v)),
        r is Err ==> json_str_at(bytes@, key@) is None,
{
    serde_json::from_slice::<serde_json::Value>(bytes).map(|v| v[key].as_str().map(|s| s.to_owned())).map_err(
        |e| e.to_string(),
    )
}

/// The name a description gives a metric.
pub open spec fn metric_text(m: DistanceMetric) -> Seq<char> {
    match m {
        DistanceMetric::Cosine => "cosine"@,
        DistanceMetric::Euclidean => "euclidean"@,
        DistanceMetric::DotProduct => "dot_product"@,
        DistanceMetric::Manhattan => "manhattan"@,
    }
}

/// The metric a name stands for.
pub open spec fn metric_named(name: Seq<char>) -> Option<DistanceMetric> {
    if name == "cosine"@ {
        Some(DistanceMetric::Cosine)
    } else if name == "euclidean"@ {
        Some(DistanceMetric::Euclidean)
    } else if name == "dot_product"@ {
        Some(DistanceMetric::DotProduct)
    } else if name == "manhattan"@ {
        Some(DistanceMetric::Manhattan)
    } else {
        None
    }
}

/// The metric a name stands for.
///
/// Fails with `InvalidDistanceMetric` for any other name.
pub fn metric_from_name(name: &String) -> (r: Result<DistanceMetric, Error>)
    ensures
        match metric_named(name@) {
            Some(m) => r == Ok::<DistanceMetric, Error>(m),
            None => r == Err::<DistanceMetric, Error>(Error::InvalidDistanceMetric),
        },
{
    if *name == "cosine".to_owned() {
        Ok(DistanceMetric::Cosine)
    } else if *name == "euclidean".to_owned() {
        Ok(DistanceMetric::Euclidean)
    } else if *name == "dot_product".to_owned() {
        Ok(DistanceMetric::DotProduct)
    } else if *name == "manhattan".to_owned() {
        Ok(DistanceMetric::Manhattan)
    } else {
        Err(Error::InvalidDistanceMetric)
    }
}

/// The description of a database: its dimension, its metric's name and
/// its size.
pub open spec fn description_text(dimension: usize, metric: DistanceMetric, size: nat) -> Seq<u8> {
    json_object_text("dimension"@, dimension as u64, "metric"@, metric_text(metric), "size"@, size as u64)
}

/// `serde_json` reads back the members of a description: its dimension,
/// its metric's name and its size.
pub open spec fn description_reads_back(dimension: usize, metric: DistanceMetric, size: nat) -> bool {
    &&& json_u64_at(description_text(dimension, metric, size), "dimension"@) == Some(Some(dimension as u64))
    &&& json_str_at(description_text(dimension, metric, size), "metric"@) == Some(Some(metric_text(metric)))
    &&& json_u64_at(description_text(dimension, metric, size), "size"@) == Some(Some(size as u64))
}

/// `r` is a serialization error with this message.
pub open spec fn failed_with(r: Result<VectorDB, Error>, message: Seq<char>) -> bool {
    r matches Err(Error::SerializationError(m)) && m@ == message
}

/// `r` is what loading a file gives: the description is read, its
/// dimension, metric name and size are looked up in turn (a description
/// that is not JSON, or a missing value, is a serialization error; an
/// unknown metric name is `InvalidDistanceMetric`), and the body after it
/// is read as [`built_from_body`] says.
pub open spec fn loaded_from(r: Result<VectorDB, Error>, file: Seq<u8>) -> bool {
    match parse_section(file, 0) {
        None => r == Err::<VectorDB, Error>(Error::IoError(IoFailure::UnexpectedEof)),
        Some((d, end)) => match json_u64_at(d, "dimension"@) {
            None => r matches Err(Error::SerializationError(_)),
            Some(None) => failed_with(r, "Invalid dimension"@),
            Some(Some(dimension)) => match json_str_at(d, "metric"@) {
                None => r matches Err(Error::SerializationError(_)),
                Some(None) => failed_with(r, "Invalid metric"@),
                Some(Some(name)) => match metric_named(name) {
                    None => r == Err::<VectorDB, Error>(Error::InvalidDistanceMetric),
                    Some(metric) => match json_u64_at(d, "size"@) {
                        None => r matches Err(Error::SerializationError(_)),
                        Some(None) => failed_with(r, "Invalid size"@),
                        Some(Some(size)) => built_from_body(
                            r,
                            dimension as usize,
                            metric,
                            (size as usize) as nat,
                            file.subrange(end as int, file.len() as int),
                        ),
                    },
                },
            },
        },
    }
}

impl VectorDB {
    /// The database's file: its JSON description (dimension, metric name,
    /// size), then the body.
    pub fn save_file(&self) -> (out: Vec<u8>)
        requires
            self.wf(),
        ensures
            out@ == section_bytes(description_text(self.spec_dimension(), self.spec_metric(), self@.len()))
                + body_bytes(self@),
            description_reads_back(self.spec_dimension(), self.spec_metric(), self@.len()),
    {
        let metric = self.metric();
        let name = metric.name();
        assert(name@ == metric_text(self.spec_metric()));
        proof {
            reveal_strlit("dimension");
            reveal_strlit("metric");
            reveal_strlit("size");
            assert("dimension"@[0] != "metric"@[0]);
            assert("dimension"@[0] != "size"@[0]);
            assert("metric"@[0] != "size"@[0]);
        }
        let desc = json_object3("dimension", self.dimension() as u64, "metric", name, "size", self.size() as u64);
        self.save_bytes(desc.as_slice())
    }

    /// The database a file holds: see [`loaded_from`].
    pub fn load_file(file: &[u8]) -> (r: Result<VectorDB, Error>)
        ensures
            loaded_from(r, file@),
    {
        let (desc, pos) = Self::read_description(file)?;
        let dimension = match json_u64(desc.as_slice(), "dimension") {
            Err(message) => {
                return Err(Error::SerializationError(message));
            },
            Ok(None) => {
                return Err(Error::SerializationError("Invalid dimension".to_owned()));
            },
            Ok(Some(d)) => d,
        };
        let name = match json_str(desc.as_slice(), "metric") {
            Err(message) => {
                return Err(Error::SerializationError(message));
            },
            Ok(None) => {
                return Err(Error::SerializationError("Invalid metric".to_owned()));
            },
            Ok(Some(n)) => n,
        };
        let metric = metric_from_name(&name)?;
        let size = match json_u64(desc.as_slice(), "size") {
            Err(message) => {
                return Err(Error::SerializationError(message));
            },
            Ok(None) => {
                return Err(Error::SerializationError("Invalid size".to_owned()));
            },
            Ok(Some(n)) => n,
        };
        let body = copy_range(file, pos, file.len());
        Self::from_body(#[verifier::truncate] (dimension as usize), metric, #[verifier::truncate] (size as usize), body.as_slice())
    }
}

/// The name of a metric is the name of that metric only.
pub proof fn lemma_metric_name(m: DistanceMetric)
    ensures
        metric_named(metric_text(m)) == Some(m),
{
    reveal_strlit("cosine");
    reveal_strlit("euclidean");
    reveal_strlit("dot_product");
    reveal_strlit("manhattan");
    assert("euclidean"@[0] != "cosine"@[0]);
    assert("dot_product"@[0] != "cosine"@[0]);
    assert("dot_product"@[0] != "euclidean"@[0]);
    assert("manhattan"@[0] != "cosine"@[0]);
    assert("manhattan"@[0] != "euclidean"@[0]);
    assert("manhattan"@[0] != "dot_product"@[0]);
}

/// Reading back what was written: a file made of the description of a
/// database and the body of its entries loads to those entries (metadata of
/// length zero reading as missing), with the described dimension and metric,
/// when `serde_json` reads back the description's members (as
/// `VectorDB::save_file` states of the description it writes) and the file
/// can record every length.
pub proof fn law_save_then_load(dimension: usize, metric: DistanceMetric, es: Seq<EntryView>, r: Result<VectorDB, Error>)
    requires
        es.len() <= u32::MAX,
        unique_ids(es),
        forall|i: int| 0 <= i < es.len() ==> storable(#[trigger] es[i]),
        description_text(dimension, metric, es.len()).len() <= u32::MAX,
        description_reads_back(dimension, metric, es.len()),
        loaded_from(r, section_bytes(description_text(dimension, metric, es.len())) + body_bytes(es)),
    ensures
        r matches Ok(db) && {
            &&& db@ == es.map_values(|e: EntryView| as_read(e))
            &&& db.spec_dimension() == dimension
            &&& db.spec_metric() == metric
        },
{
    let d = description_text(dimension, metric, es.len());
    let body = body_bytes(es);
    let file = section_bytes(d) + body;
    crate::qwen35::format::law_section_roundtrip(Seq::<u8>::empty(), d, body);
    assert(Seq::<u8>::empty() + section_bytes(d) + body =~= file);
    let end = 4 + d.len();
    crate::le_bytes::lemma_le_bytes_len(d.len(), 4);
    assert(parse_section(file, 0) == Some((d, end as nat)));
    lemma_metric_name(metric);
    assert(file.subrange(end as int, file.len() as int) =~= body);
    crate::qwen35::vector_db::law_body_roundtrip(es);
    let read = es.map_values(|e: EntryView| as_read(e));
    assert forall|i: int, j: int|
        0 <= i < read.len() && 0 <= j < read.len() && i != j implies (#[trigger] read[i]).id != (#[trigger] read[j]).id by {
        assert(read[i].id == es[i].id && read[j].id == es[j].id);
    }
    assert(((dimension as u64) as usize) == dimension);
    assert(((es.len() as u64) as usize) as nat == es.len());
}

} // verus!
