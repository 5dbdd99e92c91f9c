use anvil::clock::LamportClock;
use anvil::merge::{merge_cell, merge_row};
use anvil::ordmap::OrdMap;
use anvil::tombstone::TombstoneStore;
use anvil::types::{Cell, Row, Tombstone, Value, Version};
use anvil::uniqueness::{ClaimResult, UniquenessRegistry};

fn v(counter: u64, peer: &str) -> Version {
    Version::new(counter, peer.to_string())
}

fn cell_int(val: i64, counter: u64, peer: &str) -> Cell {
    Cell::new(Value::Integer(val), v(counter, peer))
}

fn cell_text(val: &str, counter: u64, peer: &str) -> Cell {
    Cell::new(Value::Text(val.to_string()), v(counter, peer))
}

fn cell(val: i64, counter: u64, peer: &str) -> Cell {
    Cell::new(Value::Integer(val), Version::new(counter, peer.to_string()))
}

#[test]
fn merge_associative_three_peers() {
    let mut a = Row::new("r1");
    a.cells.insert("x".to_string(), cell_int(1, 1, "A"));
    let mut b = Row::new("r1");
    b.cells.insert("x".to_string(), cell_int(2, 5, "B"));
    let mut c = Row::new("r1");
    c.cells.insert("x".to_string(), cell_int(3, 3, "C"));
    let ab_c = merge_row(&merge_row(&a, &b), &c);
    let a_bc = merge_row(&a, &merge_row(&b, &c));
    assert_eq!(ab_c, a_bc);
}

#[test]
fn merge_commutative_three_peers() {
    let mut a = Row::new("r1");
    a.cells.insert("name".to_string(), cell_text("Alice", 5, "A"));
    a.cells.insert("email".to_string(), cell_text("a@x.com", 3, "A"));
    let mut b = Row::new("r1");
    b.cells.insert("name".to_string(), cell_text("Bob", 2, "B"));
    b.cells.insert("email".to_string(), cell_text("b@x.com", 7, "B"));
    assert_eq!(merge_row(&a, &b), merge_row(&b, &a));
}

#[test]
fn merge_idempotent() {
    let mut r = Row::new("r1");
    r.cells.insert("x".to_string(), cell_int(42, 10, "A"));
    assert_eq!(merge_row(&r, &r), r);
}

#[test]
fn delete_wins_regardless_of_merge_order() {
    let mut alive = Row::new("r1");
    alive.cells.insert("x".to_string(), cell_int(99, 20, "A"));
    let mut deleted = Row::new("r1");
    deleted.deleted = true;
    deleted.delete_version = Some(v(5, "B"));
    let m1 = merge_row(&alive, &deleted);
    let m2 = merge_row(&deleted, &alive);
    assert!(m1.deleted);
    assert!(m2.deleted);
    assert_eq!(m1, m2);
}

#[test]
fn cell_level_merge_preserves_both_columns() {
    let mut a = Row::new("r1");
    a.cells.insert("name".to_string(), cell_text("Alice Cooper", 10, "A"));
    let mut b = Row::new("r1");
    b.cells.insert("email".to_string(), cell_text("alice@ex.org", 8, "B"));
    let merged = merge_row(&a, &b);
    assert_eq!(
        merged.cells.get(&"name".to_string()).unwrap().value,
        Value::Text("Alice Cooper".to_string())
    );
    assert_eq!(
        merged.cells.get(&"email".to_string()).unwrap().value,
        Value::Text("alice@ex.org".to_string())
    );
}

#[test]
fn uniqueness_convergence_two_concurrent_claims() {
    let mut reg_a = UniquenessRegistry::new();
    let mut reg_b = UniquenessRegistry::new();
    reg_a.claim("users", "email", "alice@x.com", "u1", v(3, "A"));
    reg_b.claim("users", "email", "alice@x.com", "u3", v(2, "B"));
    reg_b.merge(&reg_a);
    reg_a.merge(&reg_b);
    let owner_a = reg_a.owner("users", "email", "alice@x.com");
    let owner_b = reg_b.owner("users", "email", "alice@x.com");
    assert_eq!(owner_a, owner_b, "uniqueness must converge to same owner");
    let claims_a = reg_a.all_claims();
    assert_eq!(claims_a.len(), 1);
    assert!(!claims_a[0].losers.is_empty(), "loser must be preserved");
}

#[test]
fn lamport_clock_monotone_across_sync() {
    let mut clock_a = LamportClock::new("A".to_string());
    let mut clock_b = LamportClock::new("B".to_string());
    let v1 = clock_a.tick();
    assert_eq!(v1.counter, 1);
    clock_b.tick();
    clock_b.tick();
    let v_b = clock_b.tick();
    clock_a.update(&v_b);
    let v2 = clock_a.tick();
    assert!(v2.counter > v_b.counter);
}

#[test]
fn tombstone_merge_idempotent() {
    let ts = Tombstone {
        row_id: "r1".to_string(),
        table_id: "users".to_string(),
        version: v(5, "A"),
    };
    let mut store = TombstoneStore::new();
    store.insert(ts.clone());
    let mut other = TombstoneStore::new();
    other.insert(ts.clone());
    store.merge(&other);
    store.merge(&other);
    let count = store.all().len();
    assert_eq!(count, 1);
}

#[test]
fn cell_merge_higher_counter_wins() {
    let a = cell(1, 5, "A");
    let b = cell(2, 10, "A");
    let m = merge_cell(&a, &b);
    assert_eq!(m.value, Value::Integer(2));
}

#[test]
fn cell_merge_tie_break_peer_id() {
    let a = cell(1, 5, "peerA");
    let b = cell(2, 5, "peerB");
    let m = merge_cell(&a, &b);
    assert_eq!(m.value, Value::Integer(2));
}

#[test]
fn cell_merge_idempotent() {
    let a = cell(1, 5, "A");
    assert_eq!(merge_cell(&a, &a), a);
}

#[test]
fn cell_merge_commutative() {
    let a = cell(1, 5, "A");
    let b = cell(2, 10, "A");
    assert_eq!(merge_cell(&a, &b), merge_cell(&b, &a));
}

#[test]
fn cell_merge_associative() {
    let a = cell(1, 1, "A");
    let b = cell(2, 2, "A");
    let c = cell(3, 3, "A");
    assert_eq!(merge_cell(&a, &merge_cell(&b, &c)), merge_cell(&merge_cell(&a, &b), &c));
}

#[test]
fn row_merge_cell_level() {
    let mut row_a = Row::new("r1");
    row_a.cells.insert("name".to_string(), cell(10, 5, "A"));
    let mut row_b = Row::new("r1");
    row_b.cells.insert("email".to_string(), cell(20, 3, "B"));
    let merged = merge_row(&row_a, &row_b);
    assert!(merged.cells.contains_key(&"name".to_string()));
    assert!(merged.cells.contains_key(&"email".to_string()));
}

#[test]
fn row_merge_delete_wins() {
    let mut row_a = Row::new("r1");
    row_a.cells.insert("name".to_string(), cell(10, 5, "A"));
    let mut row_b = Row::new("r1");
    row_b.deleted = true;
    row_b.delete_version = Some(Version::new(7, "B".to_string()));
    let merged = merge_row(&row_a, &row_b);
    assert!(merged.deleted);
    assert!(merged.cells.contains_key(&"name".to_string()));
}

#[test]
fn first_claim_wins() {
    let mut reg = UniquenessRegistry::new();
    let v = Version::new(5, "peerA".to_string());
    let r = reg.claim("users", "email", "alice@x.com", "u1", v);
    assert_eq!(r, ClaimResult::Won);
    assert_eq!(reg.owner("users", "email", "alice@x.com"), Some("u1"));
}

#[test]
fn higher_version_wins() {
    let mut reg = UniquenessRegistry::new();
    reg.claim("users", "email", "alice@x.com", "u1", Version::new(3, "peerA".to_string()));
    let r = reg.claim("users", "email", "alice@x.com", "u2", Version::new(7, "peerB".to_string()));
    assert_eq!(r, ClaimResult::Won);
    assert_eq!(reg.owner("users", "email", "alice@x.com"), Some("u2"));
}

#[test]
fn loser_preserved() {
    let mut reg = UniquenessRegistry::new();
    reg.claim("users", "email", "alice@x.com", "u1", Version::new(7, "peerA".to_string()));
    let r = reg.claim("users", "email", "alice@x.com", "u2", Version::new(3, "peerB".to_string()));
    assert!(matches!(r, ClaimResult::Lost { .. }));
    let claims = reg.all_claims();
    let claim = claims
        .iter()
        .find(|c| c.table_id == "users" && c.column_id == "email" && c.value == "alice@x.com")
        .unwrap();
    assert_eq!(claim.losers.len(), 1);
    assert_eq!(claim.losers[0].row_id, "u2");
}

#[test]
fn idempotent_claim() {
    let mut reg = UniquenessRegistry::new();
    let v = Version::new(5, "peerA".to_string());
    reg.claim("users", "email", "alice@x.com", "u1", v.clone());
    let r = reg.claim("users", "email", "alice@x.com", "u1", v);
    assert_eq!(r, ClaimResult::Won);
}

#[test]
fn lost_claim_names_the_winner() {
    let mut reg = UniquenessRegistry::new();
    reg.claim("users", "email", "a@x.com", "u1", Version::new(9, "A".to_string()));
    let r = reg.claim("users", "email", "a@x.com", "u2", Version::new(4, "B".to_string()));
    assert_eq!(r, ClaimResult::Lost { winner_row: "u1".to_string() });
}

#[test]
fn registry_merge_is_idempotent_and_order_free() {
    let mut a = UniquenessRegistry::new();
    let mut b = UniquenessRegistry::new();
    a.claim("t", "c", "v", "r1", Version::new(2, "A".to_string()));
    b.claim("t", "c", "v", "r2", Version::new(5, "B".to_string()));
    let mut ab = UniquenessRegistry::new();
    ab.merge(&a);
    ab.merge(&b);
    let mut ba = UniquenessRegistry::new();
    ba.merge(&b);
    ba.merge(&a);
    assert_eq!(ab.owner("t", "c", "v"), Some("r2"));
    assert_eq!(ba.owner("t", "c", "v"), Some("r2"));
    ab.merge(&b);
    assert_eq!(ab.owner("t", "c", "v"), Some("r2"));
}

#[test]
fn tombstone_merge_keeps_higher_version() {
    let mut a = TombstoneStore::new();
    a.insert(Tombstone { row_id: "r".to_string(), table_id: "t".to_string(), version: v(3, "A") });
    let mut b = TombstoneStore::new();
    b.insert(Tombstone { row_id: "r".to_string(), table_id: "t".to_string(), version: v(8, "B") });
    a.merge(&b);
    assert_eq!(a.get("t", "r").unwrap().version, v(8, "B"));
}

#[test]
fn ordered_map_keeps_keys_sorted() {
    let mut m: OrdMap<String, u64> = OrdMap::new();
    m.insert("b".to_string(), 2);
    m.insert("a".to_string(), 1);
    m.insert("c".to_string(), 3);
    m.insert("a".to_string(), 4);
    assert_eq!(m.keys(), vec!["a".to_string(), "b".to_string(), "c".to_string()]);
    assert_eq!(m.get(&"a".to_string()), Some(&4));
    assert_eq!(m.remove(&"b".to_string()), Some(2));
    assert_eq!(m.len(), 2);
}

#[test]
fn same_row_reclaim_refreshes_version_only() {
    let mut reg = UniquenessRegistry::new();
    reg.claim("users", "email", "a@x.com", "u1", v(1, "A"));
    let r = reg.claim("users", "email", "a@x.com", "u1", v(2, "A"));
    assert!(matches!(r, ClaimResult::Won));
    let claims = reg.all_claims();
    assert_eq!(claims.len(), 1);
    assert_eq!(claims[0].owner_row, "u1");
    assert_eq!(claims[0].version, v(2, "A"));
    assert!(claims[0].losers.is_empty());
}

#[test]
fn effective_winner_falls_to_highest_surviving_loser() {
    use_winner_rule();
}

fn use_winner_rule() {
    let mut reg = UniquenessRegistry::new();
    reg.claim("users", "email", "a@x", "u1", v(5, "A"));
    reg.claim("users", "email", "a@x", "u2", v(2, "B"));
    reg.claim("users", "email", "a@x", "u3", v(4, "C"));
    let mut st = anvil::storage::StorageEngine::new();
    for id in ["u1", "u2", "u3"] {
        st.upsert_row("users", Row::new(id)).unwrap();
    }
    let w = |st: &anvil::storage::StorageEngine, id: &str| {
        anvil::winner::is_effective_unique_winner(&reg, st, "users", "email", "a@x", id)
    };
    assert!(w(&st, "u1"));
    assert!(!w(&st, "u2"));
    assert!(!w(&st, "u3"));
    let mut dead = Row::new("u1");
    dead.deleted = true;
    dead.delete_version = Some(v(6, "A"));
    st.upsert_row("users", dead).unwrap();
    assert!(!w(&st, "u1"));
    assert!(!w(&st, "u2"));
    assert!(w(&st, "u3"));
    assert!(anvil::winner::is_effective_unique_winner(&reg, &st, "users", "email", "other", "u2"));
}

#[test]
fn tombstone_count_is_sum_of_table_counts() {
    let mut store = TombstoneStore::new();
    for (t, r) in [("a", "1"), ("a", "2"), ("b", "1"), ("c", "9")] {
        store.insert(Tombstone { row_id: r.to_string(), table_id: t.to_string(), version: v(1, "A") });
    }
    let total: usize = ["a", "b", "c"].iter().map(|t| store.all_for_table(t).len()).sum();
    assert_eq!(store.all().len(), total);
    assert_eq!(total, 4);
}
