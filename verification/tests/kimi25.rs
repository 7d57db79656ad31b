use vectordb::kimi25::distance::DistanceMetric;
use vectordb::kimi25::error::Error;
use vectordb::kimi25::hnsw::{HnswIndex, Node};
use vectordb::kimi25::persistence::{
    CompressionType, Header, Persistence, PersistenceConfig, CURRENT_VERSION, MAGIC_NUMBER,
};

fn bits(v: &[f32]) -> Vec<u32> {
    v.iter().map(|x| x.to_bits()).collect()
}

fn floats(v: &[u32]) -> Vec<f32> {
    v.iter().map(|b| f32::from_bits(*b)).collect()
}

fn euclidean(a: &[f32], b: &[f32]) -> f32 {
    let mut sum = 0.0_f64;
    for i in 0..a.len() {
        let d = (a[i] - b[i]) as f64;
        sum += d * d;
    }
    sum.sqrt() as f32
}

fn cosine(a: &[f32], b: &[f32]) -> f32 {
    let mut dot = 0.0_f64;
    let mut na = 0.0_f64;
    let mut nb = 0.0_f64;
    for i in 0..a.len() {
        dot += a[i] as f64 * b[i] as f64;
        na += a[i] as f64 * a[i] as f64;
        nb += b[i] as f64 * b[i] as f64;
    }
    let na = na.sqrt();
    let nb = nb.sqrt();
    if na == 0.0 || nb == 0.0 {
        return 0.0;
    }
    (dot / (na * nb)) as f32
}

#[test]
fn test_hnsw_insert_and_search() {
    let mut index = HnswIndex::new(3, DistanceMetric::Euclidean, 16, 200, 50);
    let dist = |a: &[u32], b: &[u32]| euclidean(&floats(a), &floats(b)).to_bits();

    index.insert(0, bits(&[0.0, 0.0, 0.0]), 0, &dist);
    index.insert(1, bits(&[1.0, 0.0, 0.0]), 1, &dist);
    index.insert(2, bits(&[0.0, 1.0, 0.0]), 0, &dist);
    index.insert(3, bits(&[0.0, 0.0, 1.0]), 2, &dist);
    index.insert(4, bits(&[0.5, 0.5, 0.0]), 0, &dist);
    index.insert(5, bits(&[0.5, 0.0, 0.5]), 1, &dist);

    let results = index.search(&bits(&[0.0, 0.0, 0.0]), 3, &dist);
    assert_eq!(results.len(), 3);
    for (id, d) in &results {
        assert!(*id <= 5);
        assert!(f32::from_bits(*d) >= 0.0);
    }
}

#[test]
fn test_hnsw_search_accuracy() {
    let mut index = HnswIndex::new(128, DistanceMetric::Cosine, 16, 200, 50);
    let dist = |a: &[u32], b: &[u32]| cosine(&floats(a), &floats(b)).to_bits();
    let mut vectors = Vec::new();

    for i in 0..100usize {
        let v: Vec<f32> = (0..128usize).map(|j| ((i * 128 + j) % 100) as f32 / 100.0).collect();
        vectors.push(v.clone());
        index.insert(i as u64, bits(&v), i % 3, &dist);
    }

    let query = bits(&vectors[0]);
    let results = index.search(&query, 5, &dist);

    assert!(!results.is_empty());
    assert!(f32::from_bits(results[0].1) >= 0.0);
}

#[test]
fn kimi25_hnsw_nearest_first_and_lookup() {
    let mut index = HnswIndex::new(1, DistanceMetric::Euclidean, 4, 16, 8);
    let dist = |a: &[u32], b: &[u32]| euclidean(&floats(a), &floats(b)).to_bits();
    assert!(index.search(&bits(&[0.0]), 3, &dist).is_empty());
    for i in 0..20u64 {
        index.insert(i, bits(&[i as f32]), (i % 4) as usize, &dist);
    }
    index.insert(7, bits(&[100.0]), 0, &dist);
    assert_eq!(index.len(), 21);
    assert_eq!(index.get_id_by_external(7), Some(20));
    assert_eq!(index.get_id_by_external(3), Some(3));
    assert_eq!(index.get_id_by_external(99), None);
    assert_eq!(index.get_vector(20), Some(bits(&[100.0])));
    assert_eq!(index.get_vector(21), None);
    let r = index.search(&bits(&[10.2]), 3, &dist);
    assert_eq!(r.len(), 3);
    for w in r.windows(2) {
        assert!(f32::from_bits(w[0].1) <= f32::from_bits(w[1].1));
    }
    assert_eq!(r[0].0, 10);
    let g = index.serialize();
    assert_eq!(g.nodes.len(), 21);
    for node in &g.nodes {
        assert_eq!(node.neighbors.len(), node.level + 1);
        for list in &node.neighbors {
            assert!(list.len() <= 4);
            assert!(!list.contains(&node.id));
        }
    }
    assert_eq!(g.id_to_idx.len(), 20);
    assert!(g.id_to_idx.contains(&(7, 20)));
    assert_eq!(g.max_level, 3);
    assert_eq!(g.nodes[g.entry_point].level, 3);
    let batch = index.batch_search(&[bits(&[0.0]), bits(&[19.0])], 1, &dist);
    assert_eq!(batch[0][0].0, 0);
    assert_eq!(batch[1][0].0, 19);
    assert_eq!((index.m(), index.ef_construction(), index.ef_search()), (4, 16, 8));
}

#[test]
fn kimi25_node_new_has_empty_layers() {
    let n = Node::new(3, 42, bits(&[1.0, 2.0]), 2, 8);
    assert_eq!(n.neighbors.len(), 3);
    assert!(n.neighbors.iter().all(|l| l.is_empty()));
    assert_eq!((n.id, n.external_id, n.level), (3, 42, 2));
}

#[test]
fn kimi25_checksum_values() {
    assert_eq!(Persistence::calculate_checksum(&[]), 0);
    assert_eq!(Persistence::calculate_checksum(&[1, 0, 0, 0, 0, 0, 0, 0]), 8192);
    assert_eq!(Persistence::calculate_checksum(&[1, 0, 0, 0, 0, 0, 0, 0, 2]), 8194 * 8192);
    assert_eq!(Persistence::calculate_checksum(&[0, 1]), 256 << 13);
}

#[test]
fn kimi25_header_checks() {
    let h = Header::new(256, DistanceMetric::Euclidean, 0, 16, 200, 50, CompressionType::Lz4);
    assert_eq!(h.magic, MAGIC_NUMBER);
    assert_eq!(&h.magic, b"KIMI25DB");
    assert_eq!(h.version, CURRENT_VERSION);
    assert_eq!(h.compression, 1);
    assert_eq!(h.get_compression(), CompressionType::Lz4);
    assert!(h.validate().is_ok());
    let mut bad = h;
    bad.magic[0] = b'X';
    match bad.validate() {
        Err(Error::SerializationError(m)) => assert_eq!(
            m,
            "Invalid magic number: expected [75, 73, 77, 73, 50, 53, 68, 66], got [88, 73, 77, 73, 50, 53, 68, 66]"
        ),
        other => panic!("unexpected {:?}", other),
    }
    let mut old = h;
    old.version = 1;
    match old.validate() {
        Err(Error::SerializationError(m)) => assert_eq!(m, "Unsupported version: expected 2, got 1"),
        other => panic!("unexpected {:?}", other),
    }
    let mut newer = h;
    newer.version = 1234567;
    match newer.validate() {
        Err(Error::SerializationError(m)) => assert_eq!(m, "Unsupported version: expected 2, got 1234567"),
        other => panic!("unexpected {:?}", other),
    }
    let mut none = h;
    none.compression = 0;
    assert_eq!(none.get_compression(), CompressionType::NoCompression);
    none.compression = 9;
    assert_eq!(none.get_compression(), CompressionType::Lz4);
    assert_eq!(CompressionType::default(), CompressionType::Lz4);
    let c = PersistenceConfig::default();
    assert_eq!(c.compression, CompressionType::Lz4);
    assert!(c.use_mmap && !c.verify_checksum);
}

#[test]
fn kimi25_frame_and_open_round_trip() {
    let data: Vec<u8> = (0..5000u32).map(|i| (i % 7) as u8).collect();
    for compression in [CompressionType::NoCompression, CompressionType::Lz4] {
        for verify_checksum in [false, true] {
            let config = PersistenceConfig { compression, use_mmap: false, verify_checksum };
            let (h, stored) =
                Persistence::frame_payload(&data, &config, 4, DistanceMetric::Cosine, 9, 16, 200, 50).unwrap();
            assert_eq!(h.entry_count, 9);
            assert_eq!(h.dimension, 4);
            if compression == CompressionType::NoCompression {
                assert_eq!(stored, data);
            } else {
                assert_eq!(&stored[0..4], &5000u32.to_le_bytes());
                assert!(stored.len() < data.len());
            }
            if verify_checksum {
                assert_eq!(h.checksum, Persistence::calculate_checksum(&stored));
            } else {
                assert_eq!(h.checksum, 0);
            }
            let back = Persistence::open_payload(&h, &stored, &config).unwrap();
            assert_eq!(back, data);
        }
    }
}

#[test]
fn kimi25_open_rejects_bad_payloads() {
    let data = vec![1u8, 2, 3, 4, 5, 6, 7, 8, 9];
    let config = PersistenceConfig { compression: CompressionType::Lz4, use_mmap: true, verify_checksum: true };
    let (h, mut stored) =
        Persistence::frame_payload(&data, &config, 1, DistanceMetric::Manhattan, 1, 4, 4, 4).unwrap();
    let last = stored.len() - 1;
    stored[last] ^= 0xff;
    match Persistence::open_payload(&h, &stored, &config) {
        Err(Error::SerializationError(m)) => assert_eq!(m, "Checksum mismatch"),
        other => panic!("unexpected {:?}", other),
    }
    let lax = PersistenceConfig { compression: CompressionType::Lz4, use_mmap: true, verify_checksum: false };
    let garbage = vec![0xffu8, 0xff, 0xff, 0xff, 1, 2, 3];
    let mut h2 = h;
    h2.checksum = 0;
    match Persistence::open_payload(&h2, &garbage, &lax) {
        Err(Error::SerializationError(m)) => assert!(m.starts_with("LZ4 decompression failed: ")),
        other => panic!("unexpected {:?}", other),
    }
    let mut h3 = h;
    h3.version = 3;
    match Persistence::open_payload(&h3, &data, &lax) {
        Err(Error::SerializationError(m)) => assert_eq!(m, "Unsupported version: expected 2, got 3"),
        other => panic!("unexpected {:?}", other),
    }
}

fn entries_payload(count: usize, metadata_len: Option<usize>) -> Vec<u8> {
    let mut out = Vec::new();
    for i in 0..count {
        out.extend_from_slice(&(i as u64).to_le_bytes());
        for j in 0..128usize {
            out.extend_from_slice(&(((i * 128 + j) as f32) / 10000.0).to_bits().to_le_bytes());
        }
        match metadata_len {
            Some(n) => {
                out.push(1);
                out.extend(std::iter::repeat(0u8).take(n));
            }
            None => out.push(0),
        }
    }
    out
}

#[test]
fn kimi25_framing_save_and_load() {
    let data = entries_payload(100, Some(1));
    let config = PersistenceConfig { compression: CompressionType::NoCompression, use_mmap: false, verify_checksum: false };
    let (h, stored) = Persistence::frame_payload(&data, &config, 128, DistanceMetric::Cosine, 100, 16, 200, 50).unwrap();
    assert_eq!(h.entry_count, 100);
    assert_eq!(h.dimension, 128);
    assert_eq!(h.compression, 0);
    assert_eq!(stored, data);
    assert_eq!(Persistence::open_payload(&h, &stored, &config).unwrap(), data);
}

#[test]
fn kimi25_framing_lz4_compression() {
    let data = entries_payload(1000, Some(100));
    let config = PersistenceConfig { compression: CompressionType::Lz4, use_mmap: false, verify_checksum: false };
    let (h, stored) = Persistence::frame_payload(&data, &config, 128, DistanceMetric::Cosine, 1000, 16, 200, 50).unwrap();
    assert_eq!(h.compression, 1);
    assert_eq!(&stored[0..4], &(data.len() as u32).to_le_bytes());
    assert!(stored.len() < data.len());
    assert_eq!(Persistence::open_payload(&h, &stored, &config).unwrap(), data);
}

#[test]
fn kimi25_framing_mmap_loading() {
    let data = entries_payload(100, None);
    let (h, stored) = Persistence::frame_payload(
        &data,
        &PersistenceConfig::default(),
        128,
        DistanceMetric::Cosine,
        100,
        16,
        200,
        50,
    )
    .unwrap();
    let load_config = PersistenceConfig { compression: CompressionType::Lz4, use_mmap: true, verify_checksum: false };
    assert_eq!(Persistence::open_payload(&h, &stored, &load_config).unwrap(), data);
    let other = PersistenceConfig { compression: CompressionType::NoCompression, use_mmap: false, verify_checksum: false };
    assert_eq!(Persistence::open_payload(&h, &stored, &other).unwrap(), data);
}

#[test]
fn kimi25_framing_file_info() {
    let (h, _) = Persistence::frame_payload(
        &[],
        &PersistenceConfig::default(),
        256,
        DistanceMetric::Euclidean,
        0,
        16,
        200,
        50,
    )
    .unwrap();
    assert!(h.validate().is_ok());
    assert_eq!(h.dimension, 256);
    assert_eq!(h.metric, DistanceMetric::Euclidean);
    assert_eq!(h.entry_count, 0);
}

#[test]
fn kimi25_framing_checksum_recorded_and_checked() {
    let data = entries_payload(10, Some(3));
    let config = PersistenceConfig { compression: CompressionType::Lz4, use_mmap: false, verify_checksum: true };
    let (h, mut stored) = Persistence::frame_payload(&data, &config, 128, DistanceMetric::Cosine, 10, 16, 200, 50).unwrap();
    assert_eq!(h.checksum, Persistence::calculate_checksum(&stored));
    assert_eq!(Persistence::open_payload(&h, &stored, &config).unwrap(), data);
    stored[5] ^= 1;
    match Persistence::open_payload(&h, &stored, &config) {
        Err(Error::SerializationError(m)) => assert_eq!(m, "Checksum mismatch"),
        other => panic!("unexpected {:?}", other),
    }
}

#[test]
fn kimi25_insert_links_each_new_node() {
    let mut index = HnswIndex::new(2, DistanceMetric::Euclidean, 16, 10, 10);
    let dist = |a: &[u32], b: &[u32]| euclidean(&floats(a), &floats(b)).to_bits();
    for i in 0..8u64 {
        index.insert(i, bits(&[i as f32, (i % 3) as f32]), (i % 2) as usize, &dist);
    }
    let g = index.serialize();
    for (i, node) in g.nodes.iter().enumerate() {
        if i > 0 {
            assert!(!node.neighbors[0].is_empty());
        }
        for list in &node.neighbors {
            assert!(list.len() <= 16);
        }
    }
    let hits = index.search(&bits(&[3.0, 0.0]), 8, &dist);
    assert_eq!(hits.len(), 8);
    for w in hits.windows(2) {
        assert!(f32::from_bits(w[0].1) <= f32::from_bits(w[1].1));
    }
    assert_eq!(hits[0].0, 3);
}
