use anvil::gc::{collect_stable_tombstones, is_tombstone_stable, run_gc};
use anvil::metadata::PeerRegistry;
use anvil::ordmap::OrdMap;
use anvil::storage::{SchemaStore, StorageEngine};
use anvil::tombstone::TombstoneStore;
use anvil::types::{Cell, Frontier, Row, TableSchema, Tombstone, Value, Version};
use anvil::utils::{
    frontier_dominates, frontier_update, lamport_advance, lamport_tick, merge_frontiers, version_wins,
};

fn tombstone(row_id: &str, table: &str, counter: u64, peer: &str) -> Tombstone {
    Tombstone {
        row_id: row_id.to_string(),
        table_id: table.to_string(),
        version: Version::new(counter, peer.to_string()),
    }
}

fn make_row(id: &str, col: &str, val: i64, counter: u64, peer: &str) -> Row {
    let mut row = Row::new(id);
    row.cells.insert(
        col.to_string(),
        Cell::new(Value::Integer(val), Version::new(counter, peer.to_string())),
    );
    row
}

#[test]
fn stable_when_all_peers_seen() {
    let ts = tombstone("r1", "t", 5, "A");
    let mut frontier = Frontier::new();
    frontier.insert("A".to_string(), 10);
    assert!(is_tombstone_stable(&ts, &frontier));
}

#[test]
fn not_stable_when_peer_behind() {
    let ts = tombstone("r1", "t", 10, "A");
    let mut frontier = Frontier::new();
    frontier.insert("A".to_string(), 5);
    assert!(!is_tombstone_stable(&ts, &frontier));
}

#[test]
fn gc_removes_stable_tombstones() {
    let mut store = TombstoneStore::new();
    let mut storage = StorageEngine::new();
    storage.create_table("users");
    let ts = tombstone("u1", "users", 5, "A");
    store.insert(ts);
    let mut frontier = Frontier::new();
    frontier.insert("A".to_string(), 10);
    let count = run_gc(&mut store, &mut storage, &frontier);
    assert_eq!(count, 1);
    assert_eq!(store.all().len(), 0);
}

#[test]
fn gc_retains_unstable_tombstones() {
    let mut store = TombstoneStore::new();
    let mut storage = StorageEngine::new();
    store.insert(tombstone("r1", "t", 15, "A"));
    let mut frontier = Frontier::new();
    frontier.insert("A".to_string(), 10);
    run_gc(&mut store, &mut storage, &frontier);
    assert_eq!(store.all().len(), 1);
}

#[test]
fn gc_drops_the_deleted_row_from_storage() {
    let mut store = TombstoneStore::new();
    let mut storage = StorageEngine::new();
    let mut row = make_row("u1", "name", 1, 1, "A");
    row.deleted = true;
    row.delete_version = Some(Version::new(2, "A".to_string()));
    storage.upsert_row("users", row).unwrap();
    store.insert(tombstone("u1", "users", 2, "A"));
    let mut frontier = Frontier::new();
    frontier.insert("A".to_string(), 3);
    assert_eq!(run_gc(&mut store, &mut storage, &frontier), 1);
    assert!(storage.get_row("users", "u1").is_none());
    assert_eq!(storage.total_count("users"), 0);
}

#[test]
fn collect_stable_splits_by_frontier() {
    let mut frontier = Frontier::new();
    frontier.insert("A".to_string(), 5);
    let (kept, stable) = collect_stable_tombstones(
        vec![tombstone("a", "t", 3, "A"), tombstone("b", "t", 9, "A"), tombstone("c", "t", 1, "B")],
        &frontier,
    );
    assert_eq!(stable.len(), 1);
    assert_eq!(stable[0].row_id, "a");
    assert_eq!(kept.len(), 2);
}

#[test]
fn upsert_and_get_row() {
    let mut engine = StorageEngine::new();
    engine.create_table("users");
    let row = make_row("u1", "name", 42, 1, "A");
    engine.upsert_row("users", row.clone()).unwrap();
    let got = engine.get_visible_row("users", "u1").unwrap();
    assert_eq!(got.id, "u1");
}

#[test]
fn tombstoned_row_not_visible() {
    let mut engine = StorageEngine::new();
    engine.create_table("users");
    let mut row = make_row("u1", "name", 42, 1, "A");
    row.deleted = true;
    row.delete_version = Some(Version::new(2, "B".to_string()));
    engine.upsert_row("users", row).unwrap();
    assert!(engine.get_visible_row("users", "u1").is_none());
    assert!(engine.get_row("users", "u1").is_some());
}

#[test]
fn visible_rows_sorted_by_id() {
    let mut engine = StorageEngine::new();
    engine.create_table("users");
    engine.upsert_row("users", make_row("u3", "x", 3, 1, "A")).unwrap();
    engine.upsert_row("users", make_row("u1", "x", 1, 1, "A")).unwrap();
    engine.upsert_row("users", make_row("u2", "x", 2, 1, "A")).unwrap();
    let ids: Vec<&str> = engine.visible_rows("users").iter().map(|r| r.id.as_str()).collect();
    assert_eq!(ids, vec!["u1", "u2", "u3"]);
}

#[test]
fn table_names_deterministic() {
    let mut engine = StorageEngine::new();
    engine.create_table("orders");
    engine.create_table("users");
    engine.create_table("items");
    let names = engine.table_names();
    assert_eq!(names, vec!["items", "orders", "users"]);
}

#[test]
fn counts_split_visible_and_deleted_rows() {
    let mut engine = StorageEngine::new();
    engine.upsert_row("t", make_row("a", "x", 1, 1, "A")).unwrap();
    let mut gone = make_row("b", "x", 2, 1, "A");
    gone.deleted = true;
    engine.upsert_row("t", gone).unwrap();
    assert_eq!(engine.visible_count("t"), 1);
    assert_eq!(engine.total_count("t"), 2);
    assert_eq!(engine.all_rows("t").len(), 2);
}

#[test]
fn schema_store_refuses_a_second_table_of_a_name() {
    let mut schemas = SchemaStore::new();
    let t = TableSchema {
        name: "users".to_string(),
        columns: vec![],
        foreign_keys: vec![],
        indexes: vec![],
        unique_constraints: vec![],
    };
    assert!(schemas.create_table(t.clone()).is_ok());
    let err = schemas.create_table(t).unwrap_err();
    assert_eq!(err.message(), "schema error: table users already exists");
    assert!(schemas.contains("users"));
    assert_eq!(schemas.table_names(), vec!["users".to_string()]);
}

#[test]
fn lamport_advance_takes_max_plus_one() {
    assert_eq!(lamport_advance(3, 9), 10);
    assert_eq!(lamport_advance(9, 3), 10);
    let mut c: u64 = 4;
    assert_eq!(lamport_tick(&mut c), 5);
    assert_eq!(c, 5);
}

#[test]
fn frontier_join_takes_max_per_peer() {
    let mut a = Frontier::new();
    a.insert("A".to_string(), 5);
    a.insert("B".to_string(), 1);
    let mut b = Frontier::new();
    b.insert("B".to_string(), 7);
    b.insert("C".to_string(), 2);
    let m = merge_frontiers(&a, &b);
    assert_eq!(m.get(&"A".to_string()), Some(&5));
    assert_eq!(m.get(&"B".to_string()), Some(&7));
    assert_eq!(m.get(&"C".to_string()), Some(&2));
    assert!(frontier_dominates(&m, &a));
    assert!(frontier_dominates(&m, &b));
    assert!(!frontier_dominates(&a, &b));
    let mut f = a.clone();
    frontier_update(&mut f, &"A".to_string(), 3);
    assert_eq!(f.get(&"A".to_string()), Some(&5));
    frontier_update(&mut f, &"A".to_string(), 8);
    assert_eq!(f.get(&"A".to_string()), Some(&8));
}

#[test]
fn version_order_breaks_ties_by_peer() {
    assert!(version_wins(&Version::new(5, "B".to_string()), &Version::new(5, "A".to_string())));
    assert!(!version_wins(&Version::new(4, "Z".to_string()), &Version::new(5, "A".to_string())));
    assert!(!version_wins(&Version::new(5, "A".to_string()), &Version::new(5, "A".to_string())));
}

#[test]
fn global_min_frontier_is_the_meet() {
    let mut reg = PeerRegistry::new();
    let mut f1: OrdMap<String, u64> = OrdMap::new();
    f1.insert("A".to_string(), 5);
    f1.insert("B".to_string(), 9);
    let mut f2: OrdMap<String, u64> = OrdMap::new();
    f2.insert("A".to_string(), 7);
    f2.insert("B".to_string(), 2);
    reg.update_peer_frontier("p1", f1);
    reg.update_peer_frontier("p2", f2);
    let g = reg.global_min_frontier();
    assert_eq!(g.get(&"A".to_string()), Some(&5));
    assert_eq!(g.get(&"B".to_string()), Some(&2));
    assert_eq!(reg.all_peer_ids(), vec!["p1".to_string(), "p2".to_string()]);
}
