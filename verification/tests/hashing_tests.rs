use anvil::hashing::{canonical_value_bytes, SnapshotHasher};
use anvil::ordmap::OrdMap;
use anvil::types::{Cell, LooserEntry, Row, Tombstone, UniquenessClaim, Value, Version};
use anvil::utils::{blake3_hash, hash_to_hex};

fn one_table(row: Row) -> OrdMap<String, OrdMap<String, Row>> {
    let mut rows: OrdMap<String, Row> = OrdMap::new();
    rows.insert(row.id.clone(), row);
    let mut tables: OrdMap<String, OrdMap<String, Row>> = OrdMap::new();
    tables.insert("users".to_string(), rows);
    tables
}

fn claim(table: &str, col: &str, value: &str, owner: &str, counter: u64) -> UniquenessClaim {
    UniquenessClaim {
        table_id: table.to_string(),
        column_id: col.to_string(),
        value: value.to_string(),
        owner_row: owner.to_string(),
        version: Version::new(counter, "A".to_string()),
        losers: Vec::<LooserEntry>::new(),
    }
}

#[test]
fn same_data_different_versions_same_hash() {
    let mut r1 = Row::new("u1");
    r1.cells.insert(
        "name".to_string(),
        Cell::new(Value::Text("Alice".to_string()), Version::new(5, "A".to_string())),
    );
    let tables1 = one_table(r1);
    let mut r2 = Row::new("u1");
    r2.cells.insert(
        "name".to_string(),
        Cell::new(Value::Text("Alice".to_string()), Version::new(10, "B".to_string())),
    );
    let tables2 = one_table(r2);
    let h1 = SnapshotHasher::hash_tables(&tables1).unwrap();
    let h2 = SnapshotHasher::hash_tables(&tables2).unwrap();
    assert_eq!(h1, h2, "same values must hash identically regardless of version");
}

#[test]
fn tombstone_hash_version_independent() {
    let ts1 = vec![Tombstone {
        row_id: "u1".to_string(),
        table_id: "users".to_string(),
        version: Version::new(5, "A".to_string()),
    }];
    let ts2 = vec![Tombstone {
        row_id: "u1".to_string(),
        table_id: "users".to_string(),
        version: Version::new(99, "C".to_string()),
    }];
    assert_eq!(
        SnapshotHasher::hash_tombstones(&ts1),
        SnapshotHasher::hash_tombstones(&ts2),
        "tombstone hash must not depend on version"
    );
}

#[test]
fn different_values_different_hash() {
    let mut r1 = Row::new("u1");
    r1.cells.insert(
        "name".to_string(),
        Cell::new(Value::Text("Alice".to_string()), Version::new(1, "A".to_string())),
    );
    let tables1 = one_table(r1);
    let mut r2 = Row::new("u1");
    r2.cells.insert(
        "name".to_string(),
        Cell::new(Value::Text("Bob".to_string()), Version::new(1, "A".to_string())),
    );
    let tables2 = one_table(r2);
    let h1 = SnapshotHasher::hash_tables(&tables1).unwrap();
    let h2 = SnapshotHasher::hash_tables(&tables2).unwrap();
    assert_ne!(h1, h2, "different values must hash differently");
}

#[test]
fn blake3_hex_of_empty_input() {
    let h = hash_to_hex(&blake3_hash(b""));
    assert_eq!(h, "af1349b9f5f9a1a6a0404dea36dcc9499bcb25c9adc112b7cc9a93cae41f3262");
}

#[test]
fn hex_is_lower_case_two_digits_per_byte() {
    let mut bytes = [0u8; 32];
    bytes[0] = 0xAB;
    bytes[1] = 0x05;
    let h = hash_to_hex(&bytes);
    assert_eq!(h.len(), 64);
    assert!(h.starts_with("ab05"));
    assert!(h.ends_with("00"));
}

#[test]
fn canonical_bytes_of_each_kind() {
    assert_eq!(canonical_value_bytes(&Value::Null), b"N".to_vec());
    assert_eq!(canonical_value_bytes(&Value::Integer(-42)), b"I-42".to_vec());
    assert_eq!(canonical_value_bytes(&Value::Integer(0)), b"I0".to_vec());
    assert_eq!(canonical_value_bytes(&Value::Integer(i64::MIN)), b"I-9223372036854775808".to_vec());
    assert_eq!(canonical_value_bytes(&Value::Text("hé".to_string())), "Thé".as_bytes().to_vec());
    assert_eq!(canonical_value_bytes(&Value::Blob(vec![1, 2])), vec![66u8, 1, 2]);
}

#[test]
fn table_hash_is_the_digest_of_the_stream() {
    let mut r = Row::new("u1");
    r.cells.insert(
        "n".to_string(),
        Cell::new(Value::Integer(7), Version::new(1, "A".to_string())),
    );
    let tables = one_table(r);
    let mut stream: Vec<u8> = Vec::new();
    stream.extend_from_slice(b"users\x00u1\x01n\x02I7\x03\x04\x05");
    let expected = hash_to_hex(&blake3_hash(&stream));
    assert_eq!(SnapshotHasher::hash_tables(&tables).unwrap(), expected);
}

#[test]
fn deleted_rows_do_not_enter_the_table_hash() {
    let mut r = Row::new("u1");
    r.cells.insert(
        "n".to_string(),
        Cell::new(Value::Integer(7), Version::new(1, "A".to_string())),
    );
    r.deleted = true;
    let with_deleted = one_table(r);
    let mut empty: OrdMap<String, OrdMap<String, Row>> = OrdMap::new();
    empty.insert("users".to_string(), OrdMap::new());
    assert_eq!(
        SnapshotHasher::hash_tables(&with_deleted).unwrap(),
        SnapshotHasher::hash_tables(&empty).unwrap()
    );
}

#[test]
fn tombstone_hash_ignores_order() {
    let a = Tombstone { row_id: "r1".to_string(), table_id: "t".to_string(), version: Version::new(1, "A".to_string()) };
    let b = Tombstone { row_id: "r2".to_string(), table_id: "s".to_string(), version: Version::new(2, "B".to_string()) };
    let h1 = SnapshotHasher::hash_tombstones(&[a.clone(), b.clone()]);
    let h2 = SnapshotHasher::hash_tombstones(&[b.clone(), a.clone()]);
    assert_eq!(h1, h2);
    let mut stream: Vec<u8> = Vec::new();
    stream.extend_from_slice(b"s\x06r2\x07t\x06r1\x07");
    assert_eq!(h1, hash_to_hex(&blake3_hash(&stream)));
}

#[test]
fn uniqueness_hash_ignores_order_and_versions() {
    let c1 = claim("users", "email", "a@x", "u1", 1);
    let c2 = claim("users", "email", "b@x", "u2", 2);
    let h1 = SnapshotHasher::hash_uniqueness(&[c1.clone(), c2.clone()]);
    let h2 = SnapshotHasher::hash_uniqueness(&[c2, claim("users", "email", "a@x", "u1", 9)]);
    assert_eq!(h1, h2);
    let other_owner = SnapshotHasher::hash_uniqueness(&[claim("users", "email", "a@x", "u9", 1)]);
    assert_ne!(SnapshotHasher::hash_uniqueness(&[c1]), other_owner);
}

#[test]
fn full_hash_combines_the_three_digests() {
    let tables: OrdMap<String, OrdMap<String, Row>> = OrdMap::new();
    let th = SnapshotHasher::hash_tables(&tables).unwrap();
    let sh = SnapshotHasher::hash_tombstones(&[]);
    let uh = SnapshotHasher::hash_uniqueness(&[]);
    let mut stream: Vec<u8> = Vec::new();
    stream.extend_from_slice(th.as_bytes());
    stream.extend_from_slice(sh.as_bytes());
    stream.extend_from_slice(uh.as_bytes());
    let full = SnapshotHasher::full_hash(&tables, &[], &[]).unwrap();
    assert_eq!(full, hash_to_hex(&blake3_hash(&stream)));
}

#[test]
fn deleted_rows_do_not_change_the_table_hash() {
    let mut live = Row::new("u1");
    live.cells.insert("name".to_string(), Cell::new(Value::Text("Al".to_string()), Version::new(1, "A".to_string())));
    let alone = one_table(live.clone());
    let mut with_dead = one_table(live);
    let mut dead = Row::new("u0");
    dead.cells.insert("name".to_string(), Cell::new(Value::Text("Zed".to_string()), Version::new(2, "B".to_string())));
    dead.deleted = true;
    dead.delete_version = Some(Version::new(3, "B".to_string()));
    let mut rows: OrdMap<String, Row> = OrdMap::new();
    for (k, r) in [("u0", dead), ("u1", alone.get(&"users".to_string()).unwrap().get(&"u1".to_string()).unwrap().clone())] {
        rows.insert(k.to_string(), r);
    }
    with_dead.insert("users".to_string(), rows);
    assert_eq!(SnapshotHasher::hash_tables(&alone).unwrap(), SnapshotHasher::hash_tables(&with_dead).unwrap());
}
