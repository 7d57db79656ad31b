use vectordb::minimax25::clustering::{assign_nearest, choose_draw, nearest_center};
use vectordb::minimax25::distance::DistanceMetric;
use vectordb::minimax25::error::Error;
use vectordb::minimax25::vector_db::VectorDB;

fn bits(v: &[f32]) -> Vec<u32> {
    v.iter().map(|x| x.to_bits()).collect()
}

fn floats(v: &[u32]) -> Vec<f32> {
    v.iter().map(|b| f32::from_bits(*b)).collect()
}

fn normalized(v: &[f32]) -> Vec<f32> {
    let mag = v.iter().map(|x| x * x).sum::<f32>().sqrt();
    if mag > 1e-10 {
        v.iter().map(|x| x / mag).collect()
    } else {
        v.to_vec()
    }
}

fn cosine_distance(a: &[f32], b: &[f32]) -> f32 {
    let dot: f32 = a.iter().zip(b).map(|(x, y)| x * y).sum();
    let na = a.iter().map(|x| x * x).sum::<f32>().sqrt();
    let nb = b.iter().map(|x| x * x).sum::<f32>().sqrt();
    if na == 0.0 || nb == 0.0 {
        return 1.0;
    }
    1.0 - dot / (na * nb)
}

fn euclidean(a: &[f32], b: &[f32]) -> f32 {
    a.iter().zip(b).map(|(x, y)| (x - y) * (x - y)).sum::<f32>().sqrt()
}

fn insert(db: &mut VectorDB, id: u64, v: &[f32]) -> Result<(), Error> {
    let stored = if db.normalizes() { normalized(v) } else { v.to_vec() };
    db.insert(id, bits(&stored), None)
}

fn distances(db: &VectorDB, q: &[f32]) -> Vec<u32> {
    let q = if db.normalizes() { normalized(q) } else { q.to_vec() };
    (0..db.len())
        .map(|i| {
            let v = floats(&db.entry_at(i).vector);
            match db.metric() {
                DistanceMetric::Cosine => cosine_distance(&q, &v),
                _ => euclidean(&q, &v),
            }
            .to_bits()
        })
        .collect()
}

#[test]
fn test_insert_and_search() {
    let mut db = VectorDB::new(3);

    insert(&mut db, 1, &[1.0, 0.0, 0.0]).unwrap();
    insert(&mut db, 2, &[0.0, 1.0, 0.0]).unwrap();
    insert(&mut db, 3, &[0.0, 0.0, 1.0]).unwrap();

    let q = [1.0, 0.0, 0.0];
    let results = db.search(&bits(&q), &distances(&db, &q), 2);

    assert_eq!(results.len(), 2);
    assert_eq!(results[0].id, 1);
}

#[test]
fn minimax25_test_delete() {
    let mut db = VectorDB::new(3);

    insert(&mut db, 1, &[1.0, 0.0, 0.0]).unwrap();
    db.delete(1).unwrap();

    assert!(db.get(1).is_none());
}

#[test]
fn test_ivf_index() {
    let mut db = VectorDB::new(4);

    for i in 0..100 {
        insert(&mut db, i as u64, &[i as f32, i as f32, i as f32, i as f32]).unwrap();
    }

    let k = db.ivf_cluster_count(10).unwrap();
    assert_eq!(k, 10);
    let centers: Vec<Vec<u32>> = (0..k).map(|c| db.entry_at(c * 10).vector.clone()).collect();
    let assignments: Vec<usize> = (0..db.len())
        .map(|i| {
            let v = floats(&db.entry_at(i).vector);
            let mut best = 0;
            let mut min = f32::MAX;
            for (j, c) in centers.iter().enumerate() {
                let d = euclidean(&v, &floats(c));
                if d < min {
                    min = d;
                    best = j;
                }
            }
            best
        })
        .collect();
    db.build_ivf_index(10, centers.clone(), &assignments).unwrap();

    let q = [50.0, 50.0, 50.0, 50.0];
    let qn = normalized(&q);
    let cd: Vec<u32> = centers.iter().map(|c| euclidean(&qn, &floats(c)).to_bits()).collect();
    let results = db.search_ivf(&bits(&q), 5, 3, &cd, &distances(&db, &q));

    assert!(!results.is_empty());
}

#[test]
fn minimax25_errors_and_delete_keeps_others() {
    let mut db = VectorDB::with_metric(1, DistanceMetric::Euclidean);
    assert_eq!(insert(&mut db, 1, &[1.0, 2.0]), Err(Error::InvalidDimension));
    insert(&mut db, 1, &[1.0]).unwrap();
    insert(&mut db, 2, &[2.0]).unwrap();
    insert(&mut db, 3, &[3.0]).unwrap();
    assert_eq!(insert(&mut db, 2, &[9.0]), Err(Error::DuplicateId));
    assert_eq!(db.delete(8), Err(Error::NotFound));
    // Deleting id 1 shifts the later entries, and their ids follow them.
    db.delete(1).unwrap();
    assert_eq!(db.len(), 2);
    assert!(db.get(1).is_none());
    assert_eq!(db.get(2).unwrap().id, 2);
    assert_eq!(db.get(3).unwrap().id, 3);
    assert_eq!(db.entry_at(0).id, 2);
    assert_eq!(db.entry_at(1).id, 3);
    assert_eq!(db.delete(1), Err(Error::NotFound));
    // Deleting the last stored position leaves the others as they were.
    let mut db = VectorDB::with_metric(1, DistanceMetric::Euclidean);
    insert(&mut db, 1, &[1.0]).unwrap();
    insert(&mut db, 2, &[2.0]).unwrap();
    db.delete(2).unwrap();
    assert_eq!(db.get(1).unwrap().id, 1);
    assert_eq!(db.ivf_cluster_count(0), Ok(1));
    let empty = VectorDB::new(2);
    assert_eq!(empty.ivf_cluster_count(4), Err(Error::InvalidInput));
    assert_eq!(Error::NotFound.message(), "Entry not found");
}

#[test]
fn minimax25_search_edges_and_batches() {
    let mut db = VectorDB::with_metric(2, DistanceMetric::Euclidean);
    assert!(db.search(&bits(&[0.0, 0.0]), &[], 3).is_empty());
    insert(&mut db, 5, &[3.0, 0.0]).unwrap();
    insert(&mut db, 6, &[1.0, 0.0]).unwrap();
    insert(&mut db, 7, &[1.0, 0.0]).unwrap();
    let q = [0.0, 0.0];
    let d = distances(&db, &q);
    assert!(db.search(&bits(&[0.0]), &d, 3).is_empty());
    let ids: Vec<u64> = db.par_search(&bits(&q), &d, 3).iter().map(|r| r.id).collect();
    assert_eq!(ids, vec![6, 7, 5]);
    let qs = vec![bits(&q), bits(&[4.0, 0.0])];
    let ds = vec![d.clone(), distances(&db, &[4.0, 0.0])];
    let all = db.par_batch_search(&qs, &ds, 1);
    assert_eq!(all[0][0].id, 6);
    assert_eq!(all[1][0].id, 5);
    assert!(!db.ivf_built());
    let plain = db.search_ivf(&bits(&q), 2, 1, &[], &d);
    assert_eq!(plain.len(), 2);
    assert!(db.build_index().is_ok());
    assert_eq!(db.stats().search_count, 0);
}

#[test]
fn minimax25_ivf_groups_by_assignment() {
    let mut db = VectorDB::with_metric(1, DistanceMetric::Euclidean);
    for i in 0..6u64 {
        insert(&mut db, i, &[i as f32]).unwrap();
    }
    let centers = vec![bits(&[0.5]), bits(&[4.5])];
    let assignments = vec![0, 0, 0, 1, 1, 1];
    db.build_ivf_index(2, centers, &assignments).unwrap();
    assert!(db.ivf_built());
    assert_eq!(db.num_clusters(), 2);
    let q = [5.0];
    let cd = vec![4.5f32.to_bits(), 0.5f32.to_bits()];
    let r = db.search_ivf(&bits(&q), 10, 1, &cd, &distances(&db, &q));
    let ids: Vec<u64> = r.iter().map(|h| h.id).collect();
    assert_eq!(ids, vec![5, 4, 3]);
}

#[test]
fn minimax25_nearest_center_and_draws() {
    let d = |v: &[f32]| v.iter().map(|x| x.to_bits()).collect::<Vec<u32>>();
    assert_eq!(nearest_center(&d(&[3.0, 1.0, 2.0, 1.0])), 1);
    assert_eq!(nearest_center(&d(&[f32::NAN, 5.0])), 1);
    assert_eq!(nearest_center(&d(&[f32::INFINITY, f32::MAX])), 0);
    assert_eq!(nearest_center(&[]), 0);
    let a = assign_nearest(&[d(&[0.5, 0.25]), d(&[0.0, 9.0])]);
    assert_eq!(a, vec![1, 0]);
    let mut chosen = Vec::new();
    assert!(choose_draw(&mut chosen, 4));
    assert!(!choose_draw(&mut chosen, 4));
    assert!(choose_draw(&mut chosen, 2));
    assert_eq!(chosen, vec![4, 2]);
}

#[test]
fn minimax25_ivf_probing_every_cluster_matches_flat() {
    let mut db = VectorDB::with_metric(1, DistanceMetric::Euclidean);
    for i in 0..7u64 {
        insert(&mut db, i, &[(i * i) as f32]).unwrap();
    }
    let centers = vec![bits(&[1.0]), bits(&[20.0]), bits(&[36.0])];
    let assignments = vec![0, 0, 0, 1, 1, 2, 2];
    db.build_ivf_index(3, centers, &assignments).unwrap();
    let q = [10.5];
    let d = distances(&db, &q);
    let cd = vec![9.5f32.to_bits(), 9.5f32.to_bits(), 25.5f32.to_bits()];
    for k in 1..8 {
        let ivf: Vec<u64> = db.search_ivf(&bits(&q), k, 3, &cd, &d).iter().map(|h| h.id).collect();
        let flat: Vec<u64> = db.search(&bits(&q), &d, k).iter().map(|h| h.id).collect();
        assert_eq!(ivf, flat);
    }
}

#[test]
fn minimax25_ivf_probing_every_cluster_matches_flat_distances_with_ties() {
    let mut db = VectorDB::with_metric(1, DistanceMetric::Euclidean);
    let xs = [2.0f32, 8.0, 4.0, 6.0, 4.0, 6.0];
    for (i, x) in xs.iter().enumerate() {
        insert(&mut db, i as u64, &[*x]).unwrap();
    }
    let centers = vec![bits(&[3.0]), bits(&[7.0])];
    let assignments = vec![0, 1, 0, 1, 0, 1];
    db.build_ivf_index(2, centers, &assignments).unwrap();
    let q = [5.0];
    let d = distances(&db, &q);
    let cd = vec![2.0f32.to_bits(), 2.0f32.to_bits()];
    for k in 1..7 {
        let ivf: Vec<f32> = db.search_ivf(&bits(&q), k, 2, &cd, &d).iter().map(|h| f32::from_bits(h.distance)).collect();
        let flat: Vec<f32> = db.search(&bits(&q), &d, k).iter().map(|h| f32::from_bits(h.distance)).collect();
        assert_eq!(ivf, flat);
    }
}
