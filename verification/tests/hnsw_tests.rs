use vecbase::hnsw::HNSW;
use vecbase::metric::{distance, metric_distance, Metric};

fn vec4(a: i64, b: i64, c: i64, d: i64) -> Vec<i64> {
    vec![a, b, c, d]
}

#[test]
fn test_hnsw() {
    let x: f64 = rand::random();
    println!("x = {x}");
    let x: f64 = rand::random();
    println!("x = {x}");
    let x: f64 = rand::random();
    println!("x = {x}");
}

#[test]
fn test_hnsw_rand_level() {
    let hnsw = HNSW::new(32, 400, 16, 16, 4);
    for _ in 0..100000 {
        let l = hnsw.get_random_level();
        assert!(l <= 16);
    }
}

#[test]
fn test_insert_query_unit_vectors() {
    // Four axis unit vectors; the query's own vector comes back first with
    // distance zero, then a vector at squared distance two.
    let mut h = HNSW::new(16, 400, 16, 16, 4);
    let id0 = h.insert(vec4(0, 0, 0, 1)).unwrap();
    let id1 = h.insert(vec4(0, 0, 1, 0)).unwrap();
    let id2 = h.insert(vec4(0, 1, 0, 0)).unwrap();
    let id3 = h.insert(vec4(1, 0, 0, 0)).unwrap();
    assert_eq!((id0, id1, id2, id3), (0, 1, 2, 3));

    let r1 = h.query(&vec4(0, 0, 0, 1), 1).unwrap();
    assert_eq!(r1.len(), 1);
    assert_eq!(r1[0].id, 0);
    assert_eq!(r1[0].d, 0);

    let r2 = h.query(&vec4(0, 0, 0, 1), 2).unwrap();
    assert_eq!(r2.len(), 2);
    assert_eq!(r2[0].id, 0);
    assert_eq!(r2[0].d, 0);
    assert_eq!(r2[1].d, 2);
    let e = (r2[1].d as f32).sqrt() - 2.0f32.sqrt();
    assert!(e.abs() < 1e-6);
}

#[test]
fn test_metric_distance() {
    let a = vec![1i64, 2, 3];
    let b = vec![4i64, 6, 3];
    assert_eq!(distance(&a, &b), 9 + 16);
    assert_eq!(metric_distance(Metric::Euclidean, &a, &b), 25);
    assert_eq!(distance(&a, &a), 0);
}

#[test]
fn test_query_empty_index() {
    let h = HNSW::new(16, 400, 16, 16, 4);
    assert!(matches!(h.query(&vec4(0, 0, 0, 1), 1), Err(vecbase::error::VBError::EmptyIndex)));
}

#[test]
fn test_insert_dimension_mismatch() {
    let mut h = HNSW::new(16, 400, 16, 16, 4);
    assert!(matches!(h.insert(vec![1, 2, 3]), Err(vecbase::error::VBError::DimensionMismatch)));
    h.insert(vec4(0, 0, 0, 1)).unwrap();
    assert!(matches!(h.query(&vec![1, 2, 3], 1), Err(vecbase::error::VBError::DimensionMismatch)));
}

#[test]
fn test_capacity_bounds_after_inserts() {
    // After every insert, layer zero holds at most 2m neighbors and the
    // higher layers at most m, for every node.
    let m = 2usize;
    let mut h = HNSW::new(m, 8, 8, 8, 2);
    for i in 0..40i64 {
        h.insert(vec![i % 7, i / 7]).unwrap();
        for node in h.nodes.iter() {
            assert_eq!(node.neighbors.len(), node.level + 1);
            for (l, lst) in node.neighbors.iter().enumerate() {
                let cap = if l == 0 { 2 * m } else { m };
                assert!(lst.len() <= cap);
            }
        }
    }
}

#[test]
fn test_layered_subgraph_after_inserts() {
    // Every neighbor listed at layer l is itself present at layer l: its
    // level is at least l.
    let mut h = HNSW::new(4, 16, 16, 8, 2);
    for i in 0..30i64 {
        h.insert(vec![i, -i]).unwrap();
    }
    for node in h.nodes.iter() {
        for (l, lst) in node.neighbors.iter().enumerate() {
            for e in lst.iter() {
                assert!(h.nodes[e.id as usize].level >= l);
            }
        }
    }
}

#[test]
fn test_serialize_round_trip() {
    let mut h = HNSW::new(3, 10, 10, 6, 3);
    for i in 0..12i64 {
        h.insert(vec![i, 2 * i - 5, -i]).unwrap();
    }
    let bytes = h.serialize();
    let g = HNSW::deserialize(&bytes).unwrap();
    assert_eq!(g.nodes.len(), h.nodes.len());
    assert_eq!(g.enter_point, h.enter_point);
    assert_eq!(g.max_layer, h.max_layer);
    for (a, b) in h.nodes.iter().zip(g.nodes.iter()) {
        assert_eq!(a.level, b.level);
        assert_eq!(a.p, b.p);
        assert_eq!(a.neighbors.len(), b.neighbors.len());
        for (la, lb) in a.neighbors.iter().zip(b.neighbors.iter()) {
            assert_eq!(la.len(), lb.len());
            for (ea, eb) in la.iter().zip(lb.iter()) {
                assert_eq!(ea.id, eb.id);
                assert_eq!(ea.d, eb.d);
            }
        }
    }
}

#[test]
fn test_deserialize_corrupt() {
    let mut h = HNSW::new(3, 10, 10, 6, 3);
    for i in 0..5i64 {
        h.insert(vec![i, i, i]).unwrap();
    }
    let mut bytes = h.serialize();
    // a torn tail is damage, not data
    bytes.truncate(bytes.len() - 3);
    assert!(matches!(
        HNSW::deserialize(&bytes),
        Err(vecbase::error::VBError::CorruptIndex)
    ));
    // so is a flipped count
    let mut bytes2 = h.serialize();
    bytes2[7 * 8] = 0xff;
    assert!(matches!(
        HNSW::deserialize(&bytes2),
        Err(vecbase::error::VBError::CorruptIndex)
    ));
}

#[test]
fn test_merge_unions_vectors() {
    let mut a = HNSW::new(4, 16, 16, 8, 2);
    let mut b = HNSW::new(4, 16, 16, 8, 2);
    for i in 0..6i64 {
        a.insert(vec![i, 0]).unwrap();
        b.insert(vec![0, i]).unwrap();
    }
    let m = a.merge(&b).unwrap();
    assert_eq!(m.nodes.len(), 12);
    for i in 0..6usize {
        assert_eq!(m.nodes[i].p, a.nodes[i].p);
        assert_eq!(m.nodes[6 + i].p, b.nodes[i].p);
    }
    let r = m.query(&vec![5, 0], 1).unwrap();
    assert_eq!(r[0].d, 0);
}
