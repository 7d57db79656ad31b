use vectordb::qwen35::distance::DistanceMetric;
use vectordb::qwen35::error::{Error, IoFailure};
use vectordb::qwen35::vector_db_optimized::VectorDB;

fn bits(v: &[f32]) -> Vec<u32> {
    v.iter().map(|x| x.to_bits()).collect()
}

fn filled(n: usize, dim: usize) -> VectorDB {
    let mut db = VectorDB::new(dim, DistanceMetric::Euclidean);
    for i in 0..n {
        let v: Vec<f32> = (0..dim).map(|j| ((i * dim + j) % 10) as f32).collect();
        db.insert(i as i64, bits(&v), Some(vec![0u8; 16])).unwrap();
    }
    db
}

#[test]
fn qwen35_optimized_round_trip_with_and_without_compression() {
    let db = filled(40, 8);
    let desc = b"{\"size\":40}".to_vec();
    for compressed in [true, false] {
        let file = db.save_with_compression(&desc, compressed);
        let (d, pos) = VectorDB::read_description(&file).unwrap();
        assert_eq!(d, desc);
        let back = VectorDB::from_sections(8, DistanceMetric::Euclidean, 40, compressed, &file, pos).unwrap();
        assert_eq!(back.size(), 40);
        for i in 0..40 {
            assert_eq!(back.entry_at(i).id, i as i64);
            assert_eq!(back.entry_at(i).vector, db.entry_at(i).vector);
            assert_eq!(back.entry_at(i).metadata, Some(vec![0u8; 16]));
        }
    }
    let plain = db.save_with_compression(&desc, false);
    let packed = db.save(&desc);
    assert!(packed.len() < plain.len());
}

#[test]
fn qwen35_optimized_id_map_and_incremental() {
    let db = filled(3, 2);
    let map = db.serialize_id_map();
    assert_eq!(map.len(), 36);
    assert_eq!(&map[0..8], &0i64.to_le_bytes());
    assert_eq!(&map[20..24], &1u32.to_le_bytes());
    let pairs = VectorDB::deserialize_id_map(&map).unwrap();
    assert_eq!(pairs, vec![(0, 0), (1, 1), (2, 2)]);
    assert_eq!(VectorDB::deserialize_id_map(&map[0..30]), Err(Error::IoError(IoFailure::UnexpectedEof)));
    assert_eq!(db.modified_slots(&[2, 9, 0, 2]), vec![2, 0, 2]);
    let desc = b"x".to_vec();
    let file = db.save_incremental(&desc, &[2]);
    let (_, pos) = VectorDB::read_description(&file).unwrap();
    // The file holds entry 2 only, with its id-map record, and loads back.
    let back = VectorDB::from_sections(2, DistanceMetric::Euclidean, 1, true, &file, pos).unwrap();
    assert_eq!(back.size(), 1);
    assert_eq!(back.entry_at(0).id, 2);
    assert_eq!(back.entry_at(0).vector, db.entry_at(2).vector);
    assert_eq!(back.entry_at(0).metadata, db.entry_at(2).metadata);
    let two = db.save_incremental(&desc, &[0, 2]);
    let (_, pos) = VectorDB::read_description(&two).unwrap();
    let back = VectorDB::from_sections(2, DistanceMetric::Euclidean, 2, true, &two, pos).unwrap();
    assert_eq!(back.size(), 2);
    assert_eq!(back.entry_at(0).id, 0);
    assert_eq!(back.entry_at(1).id, 2);
    let all = db.save_incremental(&desc, &[]);
    let (_, pos) = VectorDB::read_description(&all).unwrap();
    assert_eq!(VectorDB::from_sections(2, DistanceMetric::Euclidean, 3, true, &all, pos).unwrap().size(), 3);
}

#[test]
fn qwen35_optimized_rejects_damaged_files() {
    let db = filled(2, 2);
    let file = db.save_with_compression(b"d", false);
    let (_, pos) = VectorDB::read_description(&file).unwrap();
    assert!(matches!(
        VectorDB::from_sections(2, DistanceMetric::Euclidean, 2, false, &file[..file.len() - 1], pos),
        Err(Error::IoError(IoFailure::UnexpectedEof))
    ));
    assert!(VectorDB::from_sections(2, DistanceMetric::Euclidean, 2, true, &file, pos).is_err());
    assert!(matches!(VectorDB::read_description(&[9, 0, 0, 0, 1]), Err(Error::IoError(IoFailure::UnexpectedEof))));
}
