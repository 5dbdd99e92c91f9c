use anvil::index::{IndexManager, SecondaryIndex};
use anvil::types::{Cell, IndexDef, Row, Value, Version};

fn row_with_cols(id: &str, cols: &[(&str, &str)]) -> Row {
    let mut row = Row::new(id);
    for (col, val) in cols {
        row.cells.insert(
            col.to_string(),
            Cell::new(Value::Text(val.to_string()), Version::new(1, "A".to_string())),
        );
    }
    row
}

fn make_index_def(name: &str, table: &str, columns: &[&str]) -> IndexDef {
    IndexDef {
        name: name.to_string(),
        table: table.to_string(),
        columns: columns.iter().map(|s| s.to_string()).collect(),
        unique: false,
    }
}

#[test]
fn insert_and_lookup() {
    let def = make_index_def("idx_name", "users", &["name"]);
    let mut idx = SecondaryIndex::new(def);
    idx.insert(vec![Value::Text("Alice".to_string())], "u1".to_string());
    let found: Vec<_> = idx.lookup(&[Value::Text("Alice".to_string())]);
    assert_eq!(found, vec![&"u1".to_string()]);
}

#[test]
fn remove_entry() {
    let def = make_index_def("idx", "t", &["x"]);
    let mut idx = SecondaryIndex::new(def);
    idx.insert(vec![Value::Integer(1)], "r1".to_string());
    idx.insert(vec![Value::Integer(1)], "r2".to_string());
    idx.remove(&[Value::Integer(1)], "r1");
    let found: Vec<_> = idx.lookup(&[Value::Integer(1)]);
    assert_eq!(found.len(), 1);
    assert_eq!(found[0], "r2");
}

#[test]
fn range_scan_ordered() {
    let def = make_index_def("idx", "t", &["score"]);
    let mut idx = SecondaryIndex::new(def);
    idx.insert(vec![Value::Integer(30)], "r3".to_string());
    idx.insert(vec![Value::Integer(10)], "r1".to_string());
    idx.insert(vec![Value::Integer(20)], "r2".to_string());
    let all = idx.range_scan(None, None);
    assert_eq!(all, vec!["r1", "r2", "r3"]);
    let ranged = idx.range_scan(Some(vec![Value::Integer(10)]), Some(vec![Value::Integer(25)]));
    assert_eq!(ranged, vec!["r1", "r2"]);
}

#[test]
fn rebuild_excludes_tombstoned() {
    let def = make_index_def("idx_name", "users", &["name"]);
    let mut mgr = IndexManager::new();
    mgr.create_index(def);
    let r1 = row_with_cols("u1", &[("name", "Alice")]);
    let mut r2 = row_with_cols("u2", &[("name", "Bob")]);
    r2.deleted = true;
    r2.delete_version = Some(Version::new(2, "B".to_string()));
    let rows = [r1, r2];
    let refs: Vec<&Row> = rows.iter().collect();
    mgr.rebuild_table("users", &refs);
    let idx = mgr.get_index("users", "idx_name").unwrap();
    assert_eq!(idx.entry_count(), 1);
    assert_eq!(idx.lookup(&[Value::Text("Alice".to_string())]).len(), 1);
    assert_eq!(idx.lookup(&[Value::Text("Bob".to_string())]).len(), 0);
}

#[test]
fn index_deterministic_across_insert_orders() {
    let def1 = make_index_def("idx", "t", &["val"]);
    let def2 = make_index_def("idx", "t", &["val"]);
    let mut mgr1 = IndexManager::new();
    let mut mgr2 = IndexManager::new();
    mgr1.create_index(def1);
    mgr2.create_index(def2);
    let r1 = row_with_cols("r1", &[("val", "a")]);
    let r2 = row_with_cols("r2", &[("val", "b")]);
    let r3 = row_with_cols("r3", &[("val", "c")]);
    mgr1.rebuild_table("t", &[&r1, &r2, &r3]);
    mgr2.rebuild_table("t", &[&r3, &r1, &r2]);
    let ids1 = mgr1.get_index("t", "idx").unwrap().all_row_ids();
    let ids2 = mgr2.get_index("t", "idx").unwrap().all_row_ids();
    assert_eq!(ids1, ids2, "index must be deterministic regardless of insert order");
}

#[test]
fn remove_undoes_insert() {
    let mut idx = SecondaryIndex::new(make_index_def("idx", "t", &["x"]));
    idx.insert(vec![Value::Integer(7)], "a".to_string());
    let before = idx.all_row_ids();
    idx.insert(vec![Value::Integer(9)], "b".to_string());
    idx.remove(&[Value::Integer(9)], "b");
    assert_eq!(idx.all_row_ids(), before);
    assert_eq!(idx.entry_count(), 1);
    assert!(idx.lookup(&[Value::Integer(9)]).is_empty());
}

#[test]
fn range_scan_half_open_bounds() {
    let mut idx = SecondaryIndex::new(make_index_def("idx", "t", &["x"]));
    for (k, id) in [(1, "a"), (2, "b"), (3, "c"), (4, "d")] {
        idx.insert(vec![Value::Integer(k)], id.to_string());
    }
    assert_eq!(idx.range_scan(Some(vec![Value::Integer(2)]), None), vec!["b", "c", "d"]);
    assert_eq!(idx.range_scan(None, Some(vec![Value::Integer(3)])), vec!["a", "b"]);
    assert_eq!(idx.range_scan(Some(vec![Value::Integer(3)]), Some(vec![Value::Integer(3)])), Vec::<String>::new());
}

#[test]
fn keys_order_null_integer_text_blob() {
    let mut idx = SecondaryIndex::new(make_index_def("idx", "t", &["x"]));
    idx.insert(vec![Value::Blob(vec![0])], "blob".to_string());
    idx.insert(vec![Value::Text("a".to_string())], "text".to_string());
    idx.insert(vec![Value::Integer(-5)], "int".to_string());
    idx.insert(vec![Value::Null], "null".to_string());
    assert_eq!(idx.all_row_ids(), vec!["null", "int", "text", "blob"]);
}

#[test]
fn update_row_moves_the_key() {
    let mut mgr = IndexManager::new();
    mgr.create_index(make_index_def("idx", "t", &["name"]));
    let old = row_with_cols("r1", &[("name", "x")]);
    mgr.update_row("t", None, &old);
    let new = row_with_cols("r1", &[("name", "y")]);
    mgr.update_row("t", Some(&old), &new);
    let idx = mgr.get_index("t", "idx").unwrap();
    assert!(idx.lookup(&[Value::Text("x".to_string())]).is_empty());
    assert_eq!(idx.lookup(&[Value::Text("y".to_string())]), vec![&"r1".to_string()]);
    assert_eq!(mgr.indexes_for_table("t").len(), 1);
    assert!(mgr.indexes_for_table("other").is_empty());
    assert!(mgr.get_index("t", "missing").is_none());
}

#[test]
fn missing_column_indexes_as_null() {
    let mut mgr = IndexManager::new();
    mgr.create_index(make_index_def("idx", "t", &["age"]));
    let r = row_with_cols("r1", &[("name", "x")]);
    mgr.rebuild_table("t", &[&r]);
    let idx = mgr.get_index("t", "idx").unwrap();
    assert_eq!(idx.lookup(&[Value::Null]), vec![&"r1".to_string()]);
}

#[test]
fn full_scan_equals_all_row_ids() {
    let mut mgr = IndexManager::new();
    mgr.create_index(make_index_def("idx", "t", &["val"]));
    let r1 = row_with_cols("r1", &[("val", "b")]);
    let r2 = row_with_cols("r2", &[("val", "a")]);
    let r3 = row_with_cols("r3", &[("val", "b")]);
    mgr.rebuild_table("t", &[&r1, &r2, &r3]);
    let idx = mgr.get_index("t", "idx").unwrap();
    let all = idx.all_row_ids();
    assert_eq!(idx.range_scan(None, None), all);
    assert_eq!(all.len(), idx.entry_count());
    assert_eq!(all, vec!["r2".to_string(), "r1".to_string(), "r3".to_string()]);
}

#[test]
fn incremental_update_agrees_with_rebuild() {
    let r1 = row_with_cols("r1", &[("val", "a")]);
    let r2 = row_with_cols("r2", &[("val", "b")]);
    let r2b = row_with_cols("r2", &[("val", "c")]);
    let r3 = row_with_cols("r3", &[("val", "a")]);
    let mut inc = IndexManager::new();
    inc.create_index(make_index_def("idx", "t", &["val"]));
    inc.rebuild_table("t", &[&r1, &r2]);
    inc.update_row("t", Some(&r2), &r2b);
    inc.update_row("t", None, &r3);
    let mut full = IndexManager::new();
    full.create_index(make_index_def("idx", "t", &["val"]));
    full.rebuild_table("t", &[&r1, &r2b, &r3]);
    let a = inc.get_index("t", "idx").unwrap();
    let b = full.get_index("t", "idx").unwrap();
    assert_eq!(a.all_row_ids(), b.all_row_ids());
    for v in ["a", "b", "c"] {
        let k = [Value::Text(v.to_string())];
        assert_eq!(a.lookup(&k), b.lookup(&k));
    }
}
