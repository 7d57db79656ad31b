use vectordb::ds20code::distance::DistanceMetric;
use vectordb::ds20code::error::Error;
use vectordb::ds20code::vector_db::{Candidates, IndexType, VectorDB};
use vectordb::kimi25::hnsw::HnswIndex;

fn bits(v: &[f32]) -> Vec<u32> {
    v.iter().map(|x| x.to_bits()).collect()
}

fn floats(v: &[u32]) -> Vec<f32> {
    v.iter().map(|b| f32::from_bits(*b)).collect()
}

fn cosine(a: &[f32], b: &[f32]) -> f32 {
    let mut dot = 0.0_f64;
    let mut na = 0.0_f64;
    let mut nb = 0.0_f64;
    for i in 0..a.len() {
        dot += a[i] as f64 * b[i] as f64;
        na += a[i] as f64 * a[i] as f64;
        nb += b[i] as f64 * b[i] as f64;
    }
    let na = na.sqrt();
    let nb = nb.sqrt();
    if na == 0.0 || nb == 0.0 {
        return 0.0;
    }
    (dot / (na * nb)) as f32
}

fn euclidean(a: &[f32], b: &[f32]) -> f32 {
    let mut sum = 0.0_f64;
    for i in 0..a.len() {
        let d = (a[i] - b[i]) as f64;
        sum += d * d;
    }
    sum.sqrt() as f32
}

fn distances(db: &VectorDB, q: &[f32]) -> Vec<u32> {
    (0..db.len())
        .map(|i| cosine(q, &floats(&db.entry_at(i).vector)).to_bits())
        .collect()
}

#[test]
fn test_insert_and_get() {
    let mut db = VectorDB::new(3, DistanceMetric::Cosine);
    let vector = bits(&[1.0, 2.0, 3.0]);

    db.insert(1, &vector, None).unwrap();
    assert_eq!(db.len(), 1);

    let entry = db.get(1).unwrap();
    assert_eq!(entry.id, 1);
}

#[test]
fn test_search() {
    let mut db = VectorDB::new(3, DistanceMetric::Cosine);

    db.insert(1, &bits(&[1.0, 0.0, 0.0]), None).unwrap();
    db.insert(2, &bits(&[0.0, 1.0, 0.0]), None).unwrap();
    db.insert(3, &bits(&[0.0, 0.0, 1.0]), None).unwrap();

    let query = vec![1.0, 0.0, 0.0];
    let c = Candidates::Distances(distances(&db, &query));
    let results = db.search(&bits(&query), &c, 2).unwrap();

    assert_eq!(results.len(), 2);
    assert_eq!(results[0].id, 1);
    assert!((f32::from_bits(results[0].distance) - 1.0).abs() < 1e-6);
}

#[test]
fn test_delete() {
    let mut db = VectorDB::new(3, DistanceMetric::Cosine);
    let vector = bits(&[1.0, 2.0, 3.0]);

    db.insert(1, &vector, None).unwrap();
    assert_eq!(db.len(), 1);

    db.delete(1).unwrap();
    assert_eq!(db.len(), 0);
    assert!(db.get(1).is_none());
}

#[test]
fn test_batch_search() {
    let mut db = VectorDB::new(3, DistanceMetric::Cosine);

    db.insert(1, &bits(&[1.0, 0.0, 0.0]), None).unwrap();
    db.insert(2, &bits(&[0.0, 1.0, 0.0]), None).unwrap();
    db.insert(3, &bits(&[0.0, 0.0, 1.0]), None).unwrap();

    let q0 = bits(&[1.0, 0.0, 0.0]);
    let q1 = bits(&[0.0, 1.0, 0.0]);
    let queries: Vec<&[u32]> = vec![&q0, &q1];
    let cands = vec![
        Candidates::Distances(distances(&db, &[1.0, 0.0, 0.0])),
        Candidates::Distances(distances(&db, &[0.0, 1.0, 0.0])),
    ];

    let results = db.batch_search(&queries, &cands, 2).unwrap();
    assert_eq!(results.len(), 2);
    assert!(results[0].len() <= 2);
    assert!(results[1].len() <= 2);
    assert_eq!(results[0][0].id, 1);
    assert_eq!(results[1][0].id, 2);
}

#[test]
fn test_hnsw_search() {
    let mut db = VectorDB::with_hnsw(3, DistanceMetric::Euclidean);
    let metric = vectordb::kimi25::distance::DistanceMetric::Euclidean;
    let mut graph = HnswIndex::new(3, metric, 16, 200, 50);
    let dist = |a: &[u32], b: &[u32]| euclidean(&floats(a), &floats(b)).to_bits();

    for (id, v) in [(1u64, [1.0f32, 0.0, 0.0]), (2, [0.0, 1.0, 0.0]), (3, [0.0, 0.0, 1.0])] {
        graph.insert(id, bits(&v), 0, &dist);
        db.insert(id, &bits(&v), None).unwrap();
    }

    let query = bits(&[1.0, 0.0, 0.0]);
    let hits = graph.search(&query, 2, &dist);
    let results = db.search(&query, &Candidates::IndexHits(hits), 2).unwrap();

    assert!(!results.is_empty());
    assert_eq!(db.index_type(), IndexType::Hnsw);
    assert_eq!(results[0].id, 1);
}

#[test]
fn ds20code_insert_errors() {
    let mut db = VectorDB::new(3, DistanceMetric::Cosine);
    assert_eq!(
        db.insert(1, &bits(&[1.0, 2.0]), None),
        Err(Error::InvalidDimension { expected: 3, got: 2 })
    );
    db.insert(1, &bits(&[1.0, 2.0, 3.0]), None).unwrap();
    assert_eq!(db.insert(1, &bits(&[1.0, 2.0, 3.0]), None), Err(Error::DuplicateId(1)));
    assert_eq!(db.delete(7), Err(Error::NotFound(7)));
    let c = Candidates::Distances(vec![0]);
    assert_eq!(
        db.search(&bits(&[1.0]), &c, 1).map(|r| r.len()),
        Err(Error::InvalidDimension { expected: 3, got: 1 })
    );
}

#[test]
fn ds20code_delete_moves_last_entry() {
    let mut db = VectorDB::new(1, DistanceMetric::Euclidean);
    for id in 1..=4u64 {
        db.insert(id, &bits(&[id as f32]), Some(vec![id as u8])).unwrap();
    }
    db.delete(2).unwrap();
    assert_eq!(db.len(), 3);
    assert_eq!(db.entry_at(1).id, 4);
    assert_eq!(db.get(4).unwrap().metadata, Some(vec![4u8]));
    assert_eq!(db.get(3).unwrap().id, 3);
    assert!(db.get(2).is_none());
}

#[test]
fn ds20code_threshold_and_stats() {
    let mut db = VectorDB::new(3, DistanceMetric::Cosine);
    db.insert(1, &bits(&[1.0, 0.0, 0.0]), None).unwrap();
    db.insert(2, &bits(&[1.0, 1.0, 0.0]), None).unwrap();
    db.insert(3, &bits(&[0.0, 0.0, 1.0]), None).unwrap();
    let query = [1.0f32, 0.0, 0.0];
    let c = Candidates::Distances(distances(&db, &query));
    let kept = db.search_with_threshold(&bits(&query), &c, 3, 0.5f32.to_bits()).unwrap();
    let ids: Vec<u64> = kept.iter().map(|r| r.id).collect();
    assert_eq!(ids, vec![1, 2]);
    let none = db.search_with_threshold(&bits(&query), &c, 3, f32::NAN.to_bits()).unwrap();
    assert!(none.is_empty());
    let s = db.stats();
    assert_eq!(s.insert_count, 3);
    assert_eq!(s.search_count, 2);
    db.reset_stats();
    assert_eq!(db.stats().search_count, 0);
    db.enable_stats(false);
    db.get(1).unwrap();
    assert_eq!(db.stats().get_count, 0);
}

#[test]
fn ds20code_index_hits_skip_unknown_ids() {
    let mut db = VectorDB::with_hnsw(1, DistanceMetric::Euclidean);
    db.insert(5, &bits(&[5.0]), Some(vec![9])).unwrap();
    let hits = vec![(7u64, 1.0f32.to_bits()), (5u64, 2.0f32.to_bits())];
    let r = db.search(&bits(&[0.0]), &Candidates::IndexHits(hits), 10).unwrap();
    assert_eq!(r.len(), 1);
    assert_eq!(r[0].id, 5);
    assert_eq!(r[0].distance, 2.0f32.to_bits());
    assert_eq!(r[0].metadata, Some(vec![9]));
}

#[test]
fn ds20code_euclidean_search_gives_nearest_first() {
    let mut db = VectorDB::new(3, DistanceMetric::Euclidean);
    db.insert(1, &bits(&[0.0, 0.0, 0.0]), None).unwrap();
    db.insert(2, &bits(&[5.0, 5.0, 5.0]), None).unwrap();
    db.insert(3, &bits(&[1.0, 0.0, 0.0]), None).unwrap();
    db.insert(4, &bits(&[2.0, 2.0, 0.0]), None).unwrap();
    let query = [0.0f32, 0.0, 0.0];
    let d: Vec<u32> =
        (0..db.len()).map(|i| euclidean(&query, &floats(&db.entry_at(i).vector)).to_bits()).collect();
    let res = db.search(&bits(&query), &Candidates::Distances(d.clone()), 2).unwrap();
    let ids: Vec<u64> = res.iter().map(|r| r.id).collect();
    assert_eq!(ids, vec![1, 3]);
    let mut dot = VectorDB::new(3, DistanceMetric::DotProduct);
    dot.insert(1, &bits(&[0.0, 0.0, 0.0]), None).unwrap();
    dot.insert(2, &bits(&[5.0, 5.0, 5.0]), None).unwrap();
    let scores = vec![0.0f32.to_bits(), 15.0f32.to_bits()];
    let res = dot.search(&bits(&query), &Candidates::Distances(scores), 1).unwrap();
    assert_eq!(res[0].id, 2);
}

#[test]
fn ds20code_threshold_and_batch_agree_with_search() {
    let mut db = VectorDB::new(2, DistanceMetric::Cosine);
    db.insert(1, &bits(&[1.0, 0.0]), None).unwrap();
    db.insert(2, &bits(&[1.0, 1.0]), None).unwrap();
    db.insert(3, &bits(&[0.0, 1.0]), None).unwrap();
    let q = [1.0f32, 0.2];
    let c = Candidates::Distances(distances(&db, &q));
    let plain: Vec<u64> = db.search(&bits(&q), &c, 3).unwrap().iter().map(|r| r.id).collect();
    let t = 0.5f32;
    let kept: Vec<u64> = db.search_with_threshold(&bits(&q), &c, 3, t.to_bits()).unwrap().iter().map(|r| r.id).collect();
    let filtered: Vec<u64> = db
        .search(&bits(&q), &c, 3)
        .unwrap()
        .iter()
        .filter(|r| f32::from_bits(r.distance) >= t)
        .map(|r| r.id)
        .collect();
    assert_eq!(kept, filtered);
    let qb = bits(&q);
    let both = [Candidates::Distances(distances(&db, &q)), Candidates::Distances(distances(&db, &q))];
    let batch = db.batch_search(&[qb.as_slice(), qb.as_slice()], &both, 3).unwrap();
    for answer in batch {
        let ids: Vec<u64> = answer.iter().map(|r| r.id).collect();
        assert_eq!(ids, plain);
    }
}
