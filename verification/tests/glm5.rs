use vectordb::glm5::error::Error;
use vectordb::glm5::vector_db::VectorDB;
use vectordb::glm5::DistanceMetric;

fn bits(v: &[f32]) -> Vec<u32> {
    v.iter().map(|x| x.to_bits()).collect()
}

fn floats(v: &[u32]) -> Vec<f32> {
    v.iter().map(|b| f32::from_bits(*b)).collect()
}

fn cosine(a: &[f32], b: &[f32]) -> f32 {
    let mut dot = 0.0_f64;
    let mut na = 0.0_f64;
    let mut nb = 0.0_f64;
    for i in 0..a.len() {
        dot += a[i] as f64 * b[i] as f64;
        na += a[i] as f64 * a[i] as f64;
        nb += b[i] as f64 * b[i] as f64;
    }
    let na = na.sqrt();
    let nb = nb.sqrt();
    if na == 0.0 || nb == 0.0 {
        return 0.0;
    }
    (dot / (na * nb)) as f32
}

fn distances(db: &VectorDB, q: &[f32]) -> Vec<u32> {
    (0..db.len())
        .map(|i| cosine(q, &floats(&db.entry_at(i).vector)).to_bits())
        .collect()
}

#[test]
fn vector_db_test_insert_and_get() {
    let mut db = VectorDB::new(3, DistanceMetric::Cosine);
    let vector = bits(&[1.0, 2.0, 3.0]);

    db.insert(1, &vector, None).unwrap();
    assert_eq!(db.len(), 1);

    let entry = db.get(1).unwrap();
    assert_eq!(entry.id, 1);
}

#[test]
fn vector_db_test_search() {
    let mut db = VectorDB::new(3, DistanceMetric::Cosine);

    db.insert(1, &bits(&[1.0, 0.0, 0.0]), None).unwrap();
    db.insert(2, &bits(&[0.0, 1.0, 0.0]), None).unwrap();
    db.insert(3, &bits(&[0.0, 0.0, 1.0]), None).unwrap();

    let query = vec![1.0, 0.0, 0.0];
    let d = distances(&db, &query);
    let results = db.search(&bits(&query), &d, 2).unwrap();

    assert_eq!(results.len(), 2);
    assert_eq!(results[0].id, 1);
    assert!((f32::from_bits(results[0].distance) - 1.0).abs() < 1e-6);
}

#[test]
fn vector_db_test_delete() {
    let mut db = VectorDB::new(3, DistanceMetric::Cosine);
    let vector = bits(&[1.0, 2.0, 3.0]);

    db.insert(1, &vector, None).unwrap();
    assert_eq!(db.len(), 1);

    db.delete(1).unwrap();
    assert_eq!(db.len(), 0);
    assert!(db.get(1).is_none());
}

#[test]
fn vector_db_test_batch_search() {
    let mut db = VectorDB::new(3, DistanceMetric::Cosine);

    db.insert(1, &bits(&[1.0, 0.0, 0.0]), None).unwrap();
    db.insert(2, &bits(&[0.0, 1.0, 0.0]), None).unwrap();
    db.insert(3, &bits(&[0.0, 0.0, 1.0]), None).unwrap();

    let q0 = bits(&[1.0, 0.0, 0.0]);
    let q1 = bits(&[0.0, 1.0, 0.0]);
    let queries: Vec<&[u32]> = vec![&q0, &q1];
    let d = vec![distances(&db, &[1.0, 0.0, 0.0]), distances(&db, &[0.0, 1.0, 0.0])];

    let results = db.batch_search(&queries, &d, 2).unwrap();
    assert_eq!(results.len(), 2);
    assert!(results[0].len() <= 2);
    assert!(results[1].len() <= 2);
    assert_eq!(results[0][0].id, 1);
    assert_eq!(results[1][0].id, 2);
}

#[test]
fn glm5_errors_and_counters() {
    let mut db = VectorDB::new(2, DistanceMetric::Cosine);
    assert_eq!(db.insert(1, &bits(&[1.0]), None), Err(Error::InvalidDimension { expected: 2, got: 1 }));
    db.insert(1, &bits(&[1.0, 0.0]), None).unwrap();
    assert_eq!(db.insert(1, &bits(&[1.0, 0.0]), None), Err(Error::DuplicateId(1)));
    assert_eq!(db.delete(3), Err(Error::NotFound(3)));
    let d = distances(&db, &[1.0, 0.0]);
    let r = db.search(&bits(&[1.0, 0.0]), &d, 0).unwrap();
    assert!(r.is_empty());
    assert_eq!(db.stats().search_count, 0);
    let r = db.search(&bits(&[1.0, 0.0]), &d, 5).unwrap();
    assert_eq!(r.len(), 1);
    assert_eq!(db.stats().search_count, 1);
    let q = bits(&[1.0]);
    let queries: Vec<&[u32]> = vec![&q];
    assert_eq!(
        db.batch_search(&queries, &[d.clone()], 1).map(|r| r.len()),
        Err(Error::InvalidDimension { expected: 2, got: 1 })
    );
    assert_eq!(db.dimension(), 2);
    assert_eq!(db.metric(), DistanceMetric::Cosine);
    assert!(!db.is_empty());
}

#[test]
fn glm5_ties_keep_storage_order() {
    let mut db = VectorDB::new(1, DistanceMetric::Euclidean);
    for id in 10..14u64 {
        db.insert(id, &bits(&[1.0]), None).unwrap();
    }
    let d = vec![2.0f32.to_bits(), 5.0f32.to_bits(), 5.0f32.to_bits(), 1.0f32.to_bits()];
    let r = db.search(&bits(&[0.0]), &d, 3).unwrap();
    let ids: Vec<u64> = r.iter().map(|h| h.id).collect();
    assert_eq!(ids, vec![11, 12, 10]);
    let kept = db.search_with_threshold(&bits(&[0.0]), &d, 4, 2.0f32.to_bits()).unwrap();
    let ids: Vec<u64> = kept.iter().map(|h| h.id).collect();
    assert_eq!(ids, vec![11, 12, 10]);
}

#[test]
fn glm5_threshold_drops_nan_distances() {
    let mut db = VectorDB::new(1, DistanceMetric::Euclidean);
    db.insert(1, &bits(&[1.0]), None).unwrap();
    db.insert(2, &bits(&[2.0]), None).unwrap();
    let d = vec![f32::NAN.to_bits(), 3.0f32.to_bits()];
    let kept = db.search_with_threshold(&bits(&[0.0]), &d, 2, 1.0f32.to_bits()).unwrap();
    let ids: Vec<u64> = kept.iter().map(|h| h.id).collect();
    assert_eq!(ids, vec![2]);
    let kept = db.search_with_threshold(&bits(&[0.0]), &d, 2, (-0.0f32).to_bits()).unwrap();
    assert_eq!(kept.len(), 1);
}
