use rand::Rng;
use rand::SeedableRng;
use segment::hnsw::{HNSWIndex, HnswConfig, Indexes, SearchParams, effective_ef, resolve_config};
use segment::scorer::{
    FilteredScorer, SimpleConditionChecker, SimpleVectorStorage, VectorStorage, payload_contains,
};
use segment::types::{FieldCondition, Filter, MapKey, Match, OperationError, PayloadType};

fn config() -> HnswConfig {
    HnswConfig { m: 16, m0: 32, ef_construct: 100, ef: 100 }
}

fn int_filter(v: i64) -> Filter {
    Filter {
        condition: FieldCondition {
            key: String::from("num"),
            field_match: Some(Match { keyword: None, integer: Some(v) }),
        },
    }
}

#[test]
fn effective_ef_is_never_below_top() {
    assert_eq!(effective_ef(2, 10), 10);
    assert_eq!(effective_ef(100, 10), 100);
    assert_eq!(effective_ef(0, 0), 0);
    assert_eq!(effective_ef(7, 7), 7);
}

#[test]
fn resolve_config_reuses_persisted() {
    let persisted = config();
    let r = resolve_config(Some(persisted), None).unwrap();
    assert_eq!(r, persisted);
    let same = resolve_config(Some(persisted), Some(Indexes::Hnsw { m: 16, ef_construct: 100 }));
    assert_eq!(same.unwrap(), persisted);
}

#[test]
fn resolve_config_flags_mismatch() {
    let persisted = config();
    let r = resolve_config(Some(persisted), Some(Indexes::Hnsw { m: 8, ef_construct: 100 }));
    assert_eq!(r.unwrap_err(), OperationError::ConfigMismatch);
    let p = resolve_config(Some(persisted), Some(Indexes::Plain));
    assert_eq!(p.unwrap_err(), OperationError::ConfigMismatch);
    let p2 = resolve_config(None, Some(Indexes::Plain));
    assert_eq!(p2.unwrap_err(), OperationError::ConfigMismatch);
}

#[test]
fn resolve_config_derives_fresh() {
    let d = resolve_config(None, None).unwrap();
    assert_eq!(d.m, 16);
    assert_eq!(d.m0, 32);
    assert_eq!(d.ef_construct, 100);
    let c = resolve_config(None, Some(Indexes::Hnsw { m: 8, ef_construct: 50 })).unwrap();
    assert_eq!(c, HnswConfig { m: 8, m0: 16, ef_construct: 50, ef: 50 });
    let bad = resolve_config(None, Some(Indexes::Hnsw { m: 0, ef_construct: 50 }));
    assert_eq!(bad.unwrap_err(), OperationError::Unsupported);
}

#[test]
fn identical_vectors_score_zero() {
    let mut storage = SimpleVectorStorage::new(3);
    storage.add_vector(vec![1, -2, 3]);
    storage.add_vector(vec![4, 0, 0]);
    assert_eq!(storage.score(&vec![1, -2, 3], 0), 0);
    assert!(storage.score(&vec![1, -2, 3], 1) < 0);
    assert_eq!(storage.score_internal(0, 0), 0);
    assert_eq!(storage.score_internal(0, 1), -(9 + 4 + 9));
}

#[test]
fn filtered_scorer_rejects_unmatched_points() {
    let mut storage = SimpleVectorStorage::new(2);
    storage.add_vector(vec![0, 0]);
    storage.add_vector(vec![1, 1]);
    let mut checker = SimpleConditionChecker::new();
    checker.add_payload(PayloadType::Integer(vec![1]));
    checker.add_payload(PayloadType::Integer(vec![2]));
    let filter = int_filter(1);
    let query = vec![0, 0];
    let scorer = FilteredScorer {
        raw_scorer: &storage,
        condition_checker: &checker,
        filter: Some(&filter),
        query: &query,
    };
    assert_eq!(scorer.score_if_allowed(0), Some(0));
    assert_eq!(scorer.score_if_allowed(1), None);
}

#[test]
fn payload_contains_finds_values() {
    let pl = PayloadType::Keyword(vec![String::from("a"), String::from("b")]);
    assert!(payload_contains(&pl, &MapKey::Keyword(String::from("b"))));
    assert!(!payload_contains(&pl, &MapKey::Keyword(String::from("c"))));
    assert!(!payload_contains(&pl, &MapKey::Integer(1)));
    let pi = PayloadType::Integer(vec![3, 5]);
    assert!(payload_contains(&pi, &MapKey::Integer(5)));
    assert!(!payload_contains(&pi, &MapKey::Integer(4)));
}

#[test]
fn self_query_returns_inserted_point() {
    let dim = 4usize;
    let count = 1000usize;
    let mut rng = rand::rngs::StdRng::seed_from_u64(7);
    let mut vectors: Vec<Vec<i64>> = Vec::new();
    for _ in 0..count {
        let mut v: Vec<i64> = Vec::new();
        for _ in 0..dim {
            v.push(rng.gen_range(-100..=100));
        }
        vectors.push(v);
    }
    let mut storage = SimpleVectorStorage::new(dim);
    for v in &vectors {
        storage.add_vector(v.clone());
    }
    let checker = SimpleConditionChecker::new();
    let mut index = HNSWIndex::new(storage, checker, config(), 42);
    index.build_index().unwrap();
    let probe = 123usize;
    let r = index.search(&vectors[probe], None, 1, None);
    assert_eq!(r.len(), 1);
    assert_eq!(r[0].score, 0);
    // Ties on an exact duplicate vector go to the smaller id; with this
    // seed the probe vector is unique.
    assert_eq!(r[0].idx, probe);
}

#[test]
fn filtered_search_respects_filter_and_top() {
    let dim = 4usize;
    let count = 200usize;
    let mut rng = rand::rngs::StdRng::seed_from_u64(11);
    let mut storage = SimpleVectorStorage::new(dim);
    let mut checker = SimpleConditionChecker::new();
    for id in 0..count {
        let mut v: Vec<i64> = Vec::new();
        for _ in 0..dim {
            v.push(rng.gen_range(-50..=50));
        }
        storage.add_vector(v);
        checker.add_payload(PayloadType::Integer(vec![(id % 2) as i64]));
    }
    let mut index = HNSWIndex::new(storage, checker, config(), 9);
    index.build_index().unwrap();
    let filter = int_filter(1);
    let query = vec![0, 0, 0, 0];
    let r = index.search(&query, Some(&filter), 10, Some(&SearchParams::Hnsw { ef: 64 }));
    assert!(r.len() <= 10);
    assert!(!r.is_empty());
    for hit in &r {
        assert_eq!(hit.idx % 2, 1, "a returned point must satisfy the filter");
    }
    for w in r.windows(2) {
        assert!(
            w[0].score > w[1].score || (w[0].score == w[1].score && w[0].idx < w[1].idx),
            "results must come best first, ties by smaller id"
        );
    }
}

#[test]
fn graph_links_are_symmetric_or_full() {
    let dim = 4usize;
    let count = 300usize;
    let mut rng = rand::rngs::StdRng::seed_from_u64(3);
    let mut storage = SimpleVectorStorage::new(dim);
    for _ in 0..count {
        let mut v: Vec<i64> = Vec::new();
        for _ in 0..dim {
            v.push(rng.gen_range(-50..=50));
        }
        storage.add_vector(v);
    }
    let checker = SimpleConditionChecker::new();
    let cfg = HnswConfig { m: 4, m0: 8, ef_construct: 30, ef: 30 };
    let mut index = HNSWIndex::new(storage, checker, cfg, 5);
    index.build_index().unwrap();
    let graph = index.graph();
    let n = graph.point_count();
    assert_eq!(n, count);
    for p in 0..n {
        let layers = graph.point_layers(p);
        for l in 0..layers {
            let cap = if l == 0 { cfg.m0 } else { cfg.m };
            let links = graph.links_of(p, l);
            assert!(links.len() <= cap);
            for &b in links.iter() {
                let back = graph.links_of(b, l);
                assert!(
                    back.contains(&p) || back.len() >= cap,
                    "dangling one-directional link outside the capacity exception"
                );
            }
        }
    }
}

#[test]
fn empty_index_search_is_empty() {
    let storage = SimpleVectorStorage::new(2);
    let checker = SimpleConditionChecker::new();
    let index = HNSWIndex::new(storage, checker, config(), 1);
    let r = index.search(&vec![0, 0], None, 5, None);
    assert!(r.is_empty());
}
