use vectordb::qwen35::description::metric_from_name;
use vectordb::qwen35::distance::DistanceMetric;
use vectordb::qwen35::error::Error;
use vectordb::qwen35::vector_db::VectorDB;

fn bits(v: &[f32]) -> Vec<u32> {
    v.iter().map(|x| x.to_bits()).collect()
}

fn floats(v: &[u32]) -> Vec<f32> {
    v.iter().map(|b| f32::from_bits(*b)).collect()
}

fn cosine_distance(a: &[f32], b: &[f32]) -> f32 {
    let dot: f32 = a.iter().zip(b).map(|(x, y)| x * y).sum();
    let na = a.iter().map(|x| x * x).sum::<f32>().sqrt();
    let nb = b.iter().map(|x| x * x).sum::<f32>().sqrt();
    if na < 1e-8 || nb < 1e-8 {
        return 1.0;
    }
    1.0 - dot / (na * nb)
}

fn distances(db: &VectorDB, q: &[f32]) -> Vec<u32> {
    (0..db.size())
        .map(|i| cosine_distance(q, &floats(&db.entry_at(i).vector)).to_bits())
        .collect()
}

#[test]
fn vector_db_test_insert_and_search() {
    let mut db = VectorDB::new(3, DistanceMetric::Cosine);

    db.insert(1, bits(&[1.0, 0.0, 0.0]), None).unwrap();
    db.insert(2, bits(&[0.0, 1.0, 0.0]), None).unwrap();
    db.insert(3, bits(&[0.0, 0.0, 1.0]), None).unwrap();

    let q = [1.0, 0.0, 0.0];
    let d = distances(&db, &q);
    let results = db.search(&bits(&q), &d, 1).unwrap();
    assert_eq!(results.len(), 1);
    assert_eq!(results[0].id, 1);
}

#[test]
fn qwen35_test_delete() {
    let mut db = VectorDB::new(3, DistanceMetric::Cosine);

    db.insert(1, bits(&[1.0, 0.0, 0.0]), None).unwrap();
    db.delete(1).unwrap();

    assert!(db.get(1).is_err());
}

#[test]
fn test_duplicate_id() {
    let mut db = VectorDB::new(3, DistanceMetric::Cosine);

    db.insert(1, bits(&[1.0, 0.0, 0.0]), None).unwrap();
    assert!(db.insert(1, bits(&[0.0, 1.0, 0.0]), None).is_err());
    assert_eq!(db.insert(1, bits(&[0.0, 1.0, 0.0]), None), Err(Error::DuplicateId(1)));
}

#[test]
fn qwen35_errors() {
    let mut db = VectorDB::new(2, DistanceMetric::Euclidean);
    assert_eq!(db.insert(1, bits(&[1.0]), None), Err(Error::DimensionMismatch { expected: 2, got: 1 }));
    assert_eq!(db.delete(4), Err(Error::NotFound(4)));
    assert!(matches!(db.get(4), Err(Error::NotFound(4))));
    assert!(matches!(db.search(&bits(&[1.0]), &[], 1), Err(Error::DimensionMismatch { expected: 2, got: 1 })));
    assert!(!db.normalized());
    assert!(VectorDB::new(2, DistanceMetric::Cosine).normalized());
}

#[test]
fn qwen35_body_round_trip() {
    let mut db = VectorDB::new(2, DistanceMetric::Euclidean);
    db.insert(-3, bits(&[1.5, -2.0]), Some(vec![1, 2, 3])).unwrap();
    db.insert(8, bits(&[0.0, 4.0]), None).unwrap();
    let body = db.encode_body();
    let back = VectorDB::from_body(2, DistanceMetric::Euclidean, 2, &body).unwrap();
    assert_eq!(back.size(), 2);
    assert_eq!(back.entry_at(0).id, -3);
    assert_eq!(back.entry_at(0).vector, bits(&[1.5, -2.0]));
    assert_eq!(back.entry_at(0).metadata, Some(vec![1, 2, 3]));
    assert_eq!(back.entry_at(1).id, 8);
    assert_eq!(back.entry_at(1).metadata, None);
    // The first entry: id (8 bytes LE), length (4 bytes LE), the vector, then metadata.
    assert_eq!(&body[0..8], &(-3i64).to_le_bytes());
    assert_eq!(&body[8..12], &2u32.to_le_bytes());
}

#[test]
fn qwen35_file_with_description_round_trip() {
    let mut db = VectorDB::new(2, DistanceMetric::Euclidean);
    db.insert(5, bits(&[1.0, 2.0]), Some(vec![7])).unwrap();
    db.insert(6, bits(&[3.0, 4.0]), Some(vec![])).unwrap();
    let file = db.save_file();
    let desc = br#"{"dimension":2,"metric":"euclidean","size":2}"#;
    assert_eq!(&file[0..4], &(desc.len() as u32).to_le_bytes());
    assert_eq!(&file[4..4 + desc.len()], &desc[..]);
    let back = VectorDB::load_file(&file).unwrap();
    assert_eq!(back.size(), 2);
    assert_eq!(back.dimension(), 2);
    assert_eq!(back.metric(), DistanceMetric::Euclidean);
    assert_eq!(back.entry_at(0).metadata, Some(vec![7]));
    assert_eq!(back.entry_at(1).metadata, None);
}

#[test]
fn qwen35_missing_and_empty_metadata_read_back_as_missing() {
    let mut db = VectorDB::new(1, DistanceMetric::Euclidean);
    db.insert(1, bits(&[1.0]), None).unwrap();
    db.insert(2, bits(&[2.0]), Some(vec![])).unwrap();
    db.insert(3, bits(&[3.0]), Some(vec![4, 5])).unwrap();
    let back = VectorDB::load_file(&db.save_file()).unwrap();
    assert_eq!(back.size(), 3);
    assert_eq!(back.entry_at(0).metadata, None);
    assert_eq!(back.entry_at(1).metadata, None);
    assert_eq!(back.entry_at(2).metadata, Some(vec![4, 5]));
}

fn file_with(desc: &[u8], body: &[u8]) -> Vec<u8> {
    let mut f = (desc.len() as u32).to_le_bytes().to_vec();
    f.extend_from_slice(desc);
    f.extend_from_slice(body);
    f
}

#[test]
fn qwen35_description_errors() {
    assert_eq!(metric_from_name(&"manhattan".to_string()), Ok(DistanceMetric::Manhattan));
    assert_eq!(metric_from_name(&"chebyshev".to_string()), Err(Error::InvalidDistanceMetric));
    let empty_body = 0u32.to_le_bytes();
    assert!(matches!(
        VectorDB::load_file(&file_with(b"not json", &empty_body)),
        Err(Error::SerializationError(_))
    ));
    assert_eq!(
        VectorDB::load_file(&file_with(br#"{"metric":"cosine","size":0}"#, &empty_body)).map(|d| d.size()),
        Err(Error::SerializationError("Invalid dimension".to_string()))
    );
    assert_eq!(
        VectorDB::load_file(&file_with(br#"{"dimension":3,"metric":7,"size":0}"#, &empty_body)).map(|d| d.size()),
        Err(Error::SerializationError("Invalid metric".to_string()))
    );
    assert_eq!(
        VectorDB::load_file(&file_with(br#"{"dimension":3,"metric":"hamming","size":0}"#, &empty_body))
            .map(|d| d.size()),
        Err(Error::InvalidDistanceMetric)
    );
    assert_eq!(
        VectorDB::load_file(&file_with(br#"{"dimension":3,"metric":"cosine"}"#, &empty_body)).map(|d| d.size()),
        Err(Error::SerializationError("Invalid size".to_string()))
    );
    let ok = VectorDB::load_file(&file_with(br#"{"dimension":3,"metric":"cosine","size":0}"#, &empty_body)).unwrap();
    assert_eq!(ok.size(), 0);
    assert!(ok.normalized());
    assert_eq!(VectorDB::load_file(&[1, 0]).map(|d| d.size()), Err(Error::IoError(vectordb::qwen35::error::IoFailure::UnexpectedEof)));
}

#[test]
fn qwen35_reads_a_file_with_zero_metadata_length_as_missing() {
    let j = br#"{"dimension":2,"metric":"euclidean","size":1}"#;
    let mut f = (j.len() as u32).to_le_bytes().to_vec();
    f.extend_from_slice(j);
    f.extend_from_slice(&7i64.to_le_bytes());
    f.extend_from_slice(&2u32.to_le_bytes());
    f.extend_from_slice(&1.0f32.to_le_bytes());
    f.extend_from_slice(&2.0f32.to_le_bytes());
    f.extend_from_slice(&0u32.to_le_bytes());
    f.extend_from_slice(&0u32.to_le_bytes());
    let d = VectorDB::load_file(&f).unwrap();
    assert_eq!(d.dimension(), 2);
    assert_eq!(d.metric(), DistanceMetric::Euclidean);
    assert_eq!(d.size(), 1);
    assert_eq!(d.entry_at(0).id, 7);
    assert_eq!(d.entry_at(0).vector, vec![1.0f32.to_bits(), 2.0f32.to_bits()]);
    assert!(d.entry_at(0).metadata.is_none());
}
