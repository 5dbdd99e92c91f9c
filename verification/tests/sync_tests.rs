use anvil::replication::ReplicaState;
use anvil::sync::session::{sync_peers, sync_to_quiescence};
use anvil::sync::delta::{apply_delta, extract_delta};
use anvil::hashing::SnapshotHasher;
use anvil::ordmap::{DeepCopy, OrdMap};
use anvil::types::{Cell, Row, Tombstone, Value, Version};

fn put(r: &mut ReplicaState, id: &str, val: i64) {
    let v: Version = r.current_version();
    let mut row = Row::new(id);
    row.cells.insert("x".to_string(), Cell::new(Value::Integer(val), v));
    r.storage.upsert_row("t", row).unwrap();
}

#[test]
fn sync_exchanges_rows_both_ways() {
    let mut a = ReplicaState::new("A".to_string());
    let mut b = ReplicaState::new("B".to_string());
    put(&mut a, "r1", 1);
    put(&mut b, "r2", 2);
    sync_peers(&mut a, &mut b).unwrap();
    assert!(a.storage.get_row("t", "r2").is_some());
    assert!(b.storage.get_row("t", "r1").is_some());
    assert_eq!(a.storage.total_count("t"), 2);
    assert_eq!(b.storage.total_count("t"), 2);
}

#[test]
fn quiescence_after_a_quiet_round() {
    let mut a = ReplicaState::new("A".to_string());
    let mut b = ReplicaState::new("B".to_string());
    put(&mut a, "r1", 1);
    let rounds = sync_to_quiescence(&mut a, &mut b).unwrap();
    assert!(rounds >= 1 && rounds <= 101);
    let again = sync_to_quiescence(&mut a, &mut b).unwrap();
    assert_eq!(again, 1);
}

#[test]
fn later_write_wins_after_sync() {
    let mut a = ReplicaState::new("A".to_string());
    let mut b = ReplicaState::new("B".to_string());
    put(&mut a, "r1", 1);
    sync_peers(&mut a, &mut b).unwrap();
    put(&mut b, "r1", 9);
    sync_peers(&mut a, &mut b).unwrap();
    let va = a.storage.get_row("t", "r1").unwrap().get("x").cloned();
    let vb = b.storage.get_row("t", "r1").unwrap().get("x").cloned();
    assert_eq!(va, Some(Value::Integer(9)));
    assert_eq!(vb, Some(Value::Integer(9)));
}

#[test]
fn applying_a_delta_twice_changes_nothing_more() {
    let mut a = ReplicaState::new("A".to_string());
    let mut b = ReplicaState::new("B".to_string());
    put(&mut a, "r1", 1);
    let d = extract_delta(&a, &b.frontier);
    apply_delta(&mut b, &d).unwrap();
    let once = b.storage.get_row("t", "r1").cloned();
    apply_delta(&mut b, &d).unwrap();
    assert_eq!(b.storage.get_row("t", "r1").cloned(), once);
    assert_eq!(b.storage.total_count("t"), 1);
}

#[test]
fn one_round_converges_on_concurrent_writes() {
    let mut a = ReplicaState::new("A".to_string());
    let mut b = ReplicaState::new("B".to_string());
    put(&mut a, "r1", 1);
    put(&mut a, "r2", 2);
    put(&mut b, "r2", 20);
    put(&mut b, "r3", 30);
    sync_peers(&mut a, &mut b).unwrap();
    for id in ["r1", "r2", "r3"] {
        let ra = a.storage.get_row("t", id).cloned();
        let rb = b.storage.get_row("t", id).cloned();
        assert!(ra.is_some());
        assert_eq!(ra, rb);
    }
    assert_eq!(a.storage.total_count("t"), 3);
    assert_eq!(b.storage.total_count("t"), 3);
}

fn snapshot(r: &ReplicaState) -> String {
    let mut tables: OrdMap<String, OrdMap<String, Row>> = OrdMap::new();
    for name in r.storage.table_names() {
        let rows = r.storage.snapshot_table(&name).unwrap().deep_copy();
        tables.insert(name, rows);
    }
    let ts = r.tombstones.all();
    SnapshotHasher::full_hash(&tables, &ts, &[]).unwrap()
}

#[test]
fn one_round_gives_equal_snapshot_hashes() {
    let mut a = ReplicaState::new("A".to_string());
    let mut b = ReplicaState::new("B".to_string());
    put(&mut a, "r1", 1);
    put(&mut a, "r2", 2);
    let dv: Version = a.current_version();
    let mut gone = a.storage.get_row("t", "r2").cloned().unwrap();
    gone.deleted = true;
    gone.delete_version = Some(dv.clone());
    a.storage.upsert_row("t", gone).unwrap();
    a.tombstones.insert(Tombstone { row_id: "r2".to_string(), table_id: "t".to_string(), version: dv });
    put(&mut b, "r3", 3);
    assert_ne!(snapshot(&a), snapshot(&b));
    sync_peers(&mut a, &mut b).unwrap();
    assert_eq!(snapshot(&a), snapshot(&b));
    assert!(b.storage.get_row("t", "r2").unwrap().deleted);
    assert!(b.tombstones.contains("t", "r2"));
}

#[test]
fn repeated_rounds_keep_converging() {
    let mut a = ReplicaState::new("A".to_string());
    let mut b = ReplicaState::new("B".to_string());
    put(&mut a, "r1", 1);
    put(&mut b, "r1", 2);
    sync_to_quiescence(&mut a, &mut b).unwrap();
    assert_eq!(snapshot(&a), snapshot(&b));
    put(&mut b, "r2", 5);
    put(&mut a, "r1", 7);
    let rounds = sync_to_quiescence(&mut a, &mut b).unwrap();
    assert!(rounds >= 1);
    assert_eq!(snapshot(&a), snapshot(&b));
    assert_eq!(a.storage.get_row("t", "r1").cloned(), b.storage.get_row("t", "r1").cloned());
    assert_eq!(a.storage.total_count("t"), 2);
}

#[test]
fn plain_sync_converges_on_concurrent_writes() {
    let mut a = ReplicaState::new("A".to_string());
    let mut b = ReplicaState::new("B".to_string());
    put(&mut a, "r1", 1);
    put(&mut b, "r1", 2);
    put(&mut b, "r2", 3);
    anvil::sync::sync_peers(&mut a, &mut b).unwrap();
    for id in ["r1", "r2"] {
        assert_eq!(a.storage.get_row("t", id).cloned(), b.storage.get_row("t", id).cloned());
    }
    assert_eq!(snapshot(&a), snapshot(&b));
}

#[test]
fn tombstone_before_its_row_still_deletes_it() {
    let mut t = ReplicaState::new("T".to_string());
    t.tombstones.insert(Tombstone { row_id: "r1".to_string(), table_id: "t".to_string(), version: Version::new(5, "T".to_string()) });
    let mut r = ReplicaState::new("R".to_string());
    put(&mut r, "r1", 1);
    let mut x = ReplicaState::new("X".to_string());
    let mut y = ReplicaState::new("Y".to_string());
    let dt = extract_delta(&t, &x.frontier);
    let dr = extract_delta(&r, &x.frontier);
    apply_delta(&mut x, &dt).unwrap();
    apply_delta(&mut x, &dr).unwrap();
    apply_delta(&mut y, &dr).unwrap();
    apply_delta(&mut y, &dt).unwrap();
    let rx = x.storage.get_row("t", "r1").cloned().unwrap();
    let ry = y.storage.get_row("t", "r1").cloned().unwrap();
    assert!(rx.deleted);
    assert_eq!(rx, ry);
    assert_eq!(snapshot(&x), snapshot(&y));
}

#[test]
fn two_deltas_in_either_order_leave_the_same_replica() {
    let mut p = ReplicaState::new("P".to_string());
    let mut q = ReplicaState::new("Q".to_string());
    put(&mut p, "r1", 1);
    put(&mut p, "r2", 2);
    put(&mut q, "r1", 9);
    q.tombstones.insert(Tombstone { row_id: "r2".to_string(), table_id: "t".to_string(), version: Version::new(7, "Q".to_string()) });
    let mut x = ReplicaState::new("X".to_string());
    let mut y = ReplicaState::new("X".to_string());
    let dp = extract_delta(&p, &x.frontier);
    let dq = extract_delta(&q, &x.frontier);
    apply_delta(&mut x, &dp).unwrap();
    apply_delta(&mut x, &dq).unwrap();
    apply_delta(&mut y, &dq).unwrap();
    apply_delta(&mut y, &dp).unwrap();
    for id in ["r1", "r2"] {
        assert_eq!(x.storage.get_row("t", id).cloned(), y.storage.get_row("t", id).cloned());
    }
    assert!(x.storage.get_row("t", "r2").cloned().unwrap().deleted);
    assert_eq!(x.clock.counter, y.clock.counter);
    assert!(x.frontier == y.frontier);
    assert_eq!(snapshot(&x), snapshot(&y));
    let before = snapshot(&x);
    let counter = x.clock.counter;
    apply_delta(&mut x, &dq).unwrap();
    assert_eq!(snapshot(&x), before);
    assert_eq!(x.clock.counter, counter);
    assert!(x.frontier == y.frontier);
}
