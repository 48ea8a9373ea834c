use vecbase::collection::{Collection, Config, Vector};
use vecbase::schema::Schema;

fn config(threshold: u64) -> Config {
    Config {
        collect_name: String::from("my_vector"),
        memtable_threshold: threshold,
        dims: 4,
        m: 16,
        ef_construction: 400,
        ef_search: 16,
        max_level: 16,
    }
}

fn v4(a: i64, b: i64, c: i64, d: i64) -> Vector {
    Vector { data: vec![a, b, c, d], payload: Vec::new() }
}

#[test]
fn test_tokio() {}

#[test]
fn test_collection_add_and_query() {
    let mut col = Collection::new(Schema::new(), config(1 << 20)).unwrap();
    let id1 = col.add(v4(0, 0, 0, 1)).unwrap();
    assert_eq!(id1, "0");
    let id2 = col.add(v4(0, 0, 1, 0)).unwrap();
    assert_eq!(id2, "1");
    col.add(v4(0, 1, 0, 0)).unwrap();
    col.add(v4(1, 0, 0, 0)).unwrap();
    col.add(v4(0, 0, 1, 1)).unwrap();
    col.add(v4(0, 1, 1, 0)).unwrap();
    col.add(v4(1, 0, 0, 1)).unwrap();

    let r = col.query(&vec![0, 0, 0, 1], 1).unwrap();
    assert_eq!(r.len(), 1);
    assert_eq!(r[0].id, 0);
    assert_eq!(r[0].d, 0);

    let r3 = col.query(&vec![0, 0, 0, 1], 3).unwrap();
    assert_eq!(r3[0].id, 0);
    assert_eq!(r3[0].d, 0);
    assert_eq!(r3[1].d, 1);
    assert!(r3[1].d <= r3[2].d);
}

#[test]
fn test_add_rejects_wrong_dimension() {
    let mut col = Collection::new(Schema::new(), config(1 << 20)).unwrap();
    let r = col.add(Vector { data: vec![1, 2], payload: Vec::new() });
    assert!(matches!(r, Err(vecbase::error::VBError::DimensionMismatch)));
}

#[test]
fn test_rotation_fills_immutable_slot() {
    // Records cost 48 payload bytes plus a 3-byte log header; with a 250-byte
    // threshold the fifth insert no longer fits, rotates the engine, and the
    // immutable slot stays occupied until the flush runs.
    let mut col = Collection::new(Schema::new(), config(250)).unwrap();
    for i in 0..5i64 {
        col.add(v4(i, 0, 0, 0)).unwrap();
    }
    assert!(col.0.imm.is_some());
    assert_eq!(col.0.disk_reader.len(), 0);

    // all five rows answer even while split across engines
    let r = col.query(&vec![3, 0, 0, 0], 5).unwrap();
    assert_eq!(r.len(), 5);
    assert_eq!(r[0].id, 3);
    assert_eq!(r[0].d, 0);

    col.0.do_mem_compaction();
    assert!(col.0.imm.is_none());
    assert_eq!(col.0.disk_reader.len(), 1);
    assert_eq!(col.0.disk_reader[0].level, 0);

    let r2 = col.query(&vec![3, 0, 0, 0], 5).unwrap();
    assert_eq!(r2.len(), 5);
    for (a, b) in r.iter().zip(r2.iter()) {
        assert_eq!(a.id, b.id);
        assert_eq!(a.d, b.d);
    }
}

#[test]
fn test_table_compaction_cycle() {
    // Three ground-level segments put the scan level over its threshold of
    // two; one cycle merges two of them into one next-level segment.
    let mut col = Collection::new(Schema::new(), config(100)).unwrap();
    for i in 0..7i64 {
        col.add(v4(i, i, 0, 0)).unwrap();
        if col.0.imm.is_some() {
            col.0.do_mem_compaction();
        }
    }
    assert_eq!(col.0.disk_reader.len(), 3);
    assert!(col.0.disk_reader.iter().all(|s| s.level == 0));

    let before = col.query(&vec![2, 2, 0, 0], 7).unwrap();
    assert_eq!(before.len(), 7);

    let sizes: Vec<u64> = col.0.disk_reader.iter().map(|s| s.file_size).collect();

    let did = col.0.table_compaction();
    assert!(did);
    let level0 = col.0.disk_reader.iter().filter(|s| s.level == 0).count();
    let level1 = col.0.disk_reader.iter().filter(|s| s.level == 1).count();
    assert_eq!(level0, 1);
    assert_eq!(level1, 1);

    // the merged segment's size is the sum of its two inputs' sizes; the
    // planner takes the two smallest
    let mut sorted = sizes.clone();
    sorted.sort_unstable();
    let merged = col.0.disk_reader.iter().find(|s| s.level == 1).unwrap();
    assert_eq!(merged.file_size, sorted[0] + sorted[1]);

    // compaction is invisible to queries: same ids, same distances
    let after = col.query(&vec![2, 2, 0, 0], 7).unwrap();
    assert_eq!(before.len(), after.len());
    for (a, b) in before.iter().zip(after.iter()) {
        assert_eq!(a.id, b.id);
        assert_eq!(a.d, b.d);
    }
}

#[test]
fn test_add_rejects_out_of_range_component() {
    let mut col = Collection::new(Schema::new(), config(1 << 20)).unwrap();
    let r = col.add(Vector { data: vec![0, 0, 0, 1 << 30], payload: Vec::new() });
    assert!(matches!(r, Err(vecbase::error::VBError::Unexpected(_))));
    assert_eq!(col.0.next_id, 0);
}

#[test]
fn test_wal_records_and_replay() {
    // every acknowledged write is in the log; recovering the log and
    // replaying it rebuilds a collection that answers identically
    let mut col = Collection::new(Schema::new(), config(1 << 20)).unwrap();
    col.add(Vector { data: vec![0, 0, 0, 1], payload: vec![10, 11] }).unwrap();
    col.add(Vector { data: vec![0, 0, 1, 0], payload: vec![] }).unwrap();
    col.add(Vector { data: vec![0, 1, 0, 0], payload: vec![7] }).unwrap();

    let records = vecbase::wal::recover(col.0.mem.wal.active_segment.buf.as_slice());
    assert_eq!(records.len(), 3);
    let (id0, data0, payload0) = vecbase::collection::decode_record(records[0].as_slice()).unwrap();
    assert_eq!(id0, 0);
    assert_eq!(data0, vec![0, 0, 0, 1]);
    assert_eq!(payload0, vec![10, 11]);

    let reopened =
        vecbase::collection::CollectionImpl::open(Schema::new(), config(1 << 20), &records)
            .unwrap();
    assert_eq!(reopened.next_id, 3);
    let a = col.query(&vec![0, 0, 0, 1], 3).unwrap();
    let b = reopened.query(&vec![0, 0, 0, 1], 3).unwrap();
    assert_eq!(a.len(), b.len());
    for (x, y) in a.iter().zip(b.iter()) {
        assert_eq!(x.id, y.id);
        assert_eq!(x.d, y.d);
    }

    // a record no write produces is corruption
    let mut bad = records[0].clone();
    bad[8] = 0xff;
    assert!(vecbase::collection::decode_record(bad.as_slice()).is_none());
    let broken = vec![bad];
    assert!(matches!(
        vecbase::collection::CollectionImpl::open(Schema::new(), config(1 << 20), &broken),
        Err(vecbase::error::VBError::CorruptIndex)
    ));
}

#[test]
fn test_need_table_compact_resets_scan_level() {
    let mut comp = vecbase::compaction::Compaction::new();
    let need = comp.need_table_compact(&Vec::new());
    assert!(!need);
    assert_eq!(comp.cur_level, 0);
}
