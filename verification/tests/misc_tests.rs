use anvil::error::CrdtError;
use anvil::json_values::{json_to_value, result_rows_json, value_to_json, JsonCell, JsonParam};
use anvil::executor::SqlExecutor;
use anvil::metrics::BenchMetrics;
use anvil::network::{InProcessTransport, PeerSession, TcpTransport, Transport};
use anvil::query::QueryResult;
use anvil::transaction::{Transaction, WriteOp};
use anvil::types::{Row, SyncDelta, Value};

#[test]
fn metrics_new_stores_fields() {
    let m = BenchMetrics::new(3, 5, 42);
    assert_eq!(m.peers, 3);
    assert_eq!(m.sync_rounds, 5);
    assert_eq!(m.rows_exchanged, 42);
    assert_eq!(m.convergence_time_us, 0);
}

#[test]
fn summary_contains_all_fields() {
    let m = BenchMetrics::new(4, 2, 100);
    let s = m.summary();
    assert!(s.contains("peers=4"), "summary must include peer count");
    assert!(s.contains("sync_rounds=2"), "summary must include sync rounds");
    assert!(s.contains("rows_exchanged=100"), "summary must include rows exchanged");
    assert!(s.contains("convergence_time_us=0"), "summary must include convergence time");
}

#[test]
fn summary_exact_text() {
    let m = BenchMetrics::new(12, 0, 1905);
    assert_eq!(m.summary(), "peers=12 sync_rounds=0 rows_exchanged=1905 convergence_time_us=0");
}

#[test]
fn value_text_forms() {
    assert_eq!(Value::Null.to_string(), "NULL");
    assert_eq!(Value::Integer(-7).to_string(), "-7");
    assert_eq!(Value::Integer(i64::MIN).to_string(), "-9223372036854775808");
    assert_eq!(Value::Text("hi".to_string()).to_string(), "hi");
    assert_eq!(Value::Blob(vec![1, 2, 3]).to_string(), "<blob 3 bytes>");
}

#[test]
fn error_messages() {
    assert_eq!(CrdtError::RowNotFound("r".to_string()).message(), "row not found: r");
    assert_eq!(
        CrdtError::PrimaryKeyViolation("r".to_string(), "t".to_string()).message(),
        "primary key violation: row 'r' already exists in table 't'"
    );
    assert_eq!(
        CrdtError::UniquenessViolation {
            column: "c".to_string(),
            value: "v".to_string(),
            owner: "o".to_string()
        }
        .message(),
        "uniqueness violation: column c value v already claimed by row o"
    );
}

#[test]
fn transaction_buffers_writes_in_order() {
    let mut tx = Transaction::new();
    assert!(tx.ops.is_empty());
    tx.upsert("t".to_string(), Row::new("r1"));
    tx.delete("t".to_string(), "r2".to_string(), Row::new("r2"));
    assert_eq!(tx.ops.len(), 2);
    assert!(matches!(&tx.ops[0], WriteOp::Upsert { table_id, .. } if table_id == "t"));
    assert!(matches!(&tx.ops[1], WriteOp::Delete { row_id, .. } if row_id == "r2"));
    assert!(!tx.committed);
    tx.rollback();
}

#[test]
fn peer_session_lifecycle() {
    let s = PeerSession::new("p1".to_string()).with_address("10.0.0.1:7000".to_string());
    assert_eq!(s.address.as_deref(), Some("10.0.0.1:7000"));
    let mut s = s;
    assert!(!s.connected);
    s.connect();
    assert!(s.connected);
    s.disconnect();
    assert!(!s.connected);
    assert_eq!(s.peer_id, "p1");
}

#[test]
fn transports_accept_and_hold_nothing() {
    let delta = SyncDelta {
        source_peer: "A".to_string(),
        rows: vec![],
        tombstones: vec![],
        uniqueness_claims: vec![],
        frontier: anvil::ordmap::OrdMap::new(),
    };
    let t = InProcessTransport;
    assert!(t.send("B", &delta).is_ok());
    assert!(matches!(t.receive("B"), Ok(None)));
    let tcp = TcpTransport::new("0.0.0.0:9000".to_string());
    assert_eq!(tcp.listen_addr, "0.0.0.0:9000");
    assert!(tcp.send("B", &delta).is_ok());
    assert!(matches!(tcp.receive("B"), Ok(None)));
}

#[test]
fn query_results() {
    let e = QueryResult::empty();
    assert!(e.columns.is_empty() && e.rows.is_empty());
    let q = QueryResult::new(vec!["a".to_string()], vec![vec![Value::Integer(1)]]);
    assert_eq!(q.columns, vec!["a".to_string()]);
    assert_eq!(q.rows.len(), 1);
    let _ = SqlExecutor::new();
    let _ = SqlExecutor::default();
}

#[test]
fn json_params_become_sql_values() {
    assert_eq!(json_to_value(&JsonParam::Null), Value::Null);
    assert_eq!(
        json_to_value(&JsonParam::Number { integer: Some(42), text: "42".to_string() }),
        Value::Integer(42)
    );
    assert_eq!(
        json_to_value(&JsonParam::Number { integer: None, text: "1.5".to_string() }),
        Value::Text("1.5".to_string())
    );
    assert_eq!(json_to_value(&JsonParam::Text("hi".to_string())), Value::Text("hi".to_string()));
    assert_eq!(json_to_value(&JsonParam::Bool(true)), Value::Integer(1));
    assert_eq!(json_to_value(&JsonParam::Bool(false)), Value::Integer(0));
    assert_eq!(json_to_value(&JsonParam::Other("[1,2]".to_string())), Value::Text("[1,2]".to_string()));
}

#[test]
fn sql_values_become_json_cells() {
    assert!(matches!(value_to_json(&Value::Null), JsonCell::Null));
    assert!(matches!(value_to_json(&Value::Integer(-7)), JsonCell::Number(-7)));
    match value_to_json(&Value::Text("x".to_string())) {
        JsonCell::Text(s) => assert_eq!(s, "x"),
        _ => panic!("expected text"),
    }
    match value_to_json(&Value::Blob(vec![0x00, 0xab, 0x10])) {
        JsonCell::Text(s) => assert_eq!(s, "00ab10"),
        _ => panic!("expected text"),
    }
}

#[test]
fn query_results_become_json_rows() {
    assert!(result_rows_json(&QueryResult::empty()).is_none());
    let r = QueryResult::new(
        vec!["id".to_string(), "n".to_string()],
        vec![vec![Value::Text("a".to_string()), Value::Integer(3)], vec![Value::Null]],
    );
    let rows = result_rows_json(&r).unwrap();
    assert_eq!(rows.len(), 2);
    assert_eq!(rows[0].len(), 2);
    assert_eq!(rows[0][0].0, "id");
    assert!(matches!(&rows[0][0].1, JsonCell::Text(s) if s == "a"));
    assert!(matches!(rows[0][1].1, JsonCell::Number(3)));
    assert_eq!(rows[1].len(), 1);
    assert!(matches!(rows[1][0].1, JsonCell::Null));
    let cols_only = QueryResult::new(vec!["id".to_string()], vec![]);
    assert_eq!(result_rows_json(&cols_only).unwrap().len(), 0);
}
