use anvil::engine::{EngineHost, SchemaRefusal, SqlStatement};
use anvil::sql::{ColumnDecl, CreateIndexStmt, CreateTableStmt, SqlType, Stmt};

fn create_users() -> SqlStatement {
    SqlStatement {
        text: "CREATE TABLE users (id TEXT, name TEXT)".to_string(),
        stmt: Stmt::CreateTable(CreateTableStmt {
            name: vec!["users".to_string()],
            columns: vec![
                ColumnDecl { name: "id".to_string(), data_type: SqlType::Text, options: vec![] },
                ColumnDecl { name: "name".to_string(), data_type: SqlType::Text, options: vec![] },
            ],
            constraints: vec![],
        }),
    }
}

fn index_users() -> SqlStatement {
    SqlStatement {
        text: "CREATE INDEX idx_name ON users (name)".to_string(),
        stmt: Stmt::CreateIndex(CreateIndexStmt {
            name: Some(vec!["idx_name".to_string()]),
            table_name: vec!["users".to_string()],
            columns: vec!["name".to_string()],
            unique: false,
        }),
    }
}

#[test]
fn schema_applies_and_peers_hash_alike() {
    let mut host = EngineHost::new();
    host.open_peer("A");
    host.open_peer("B");
    host.open_peer("A");
    assert!(host.apply_parsed_schema("A", &[create_users(), index_users()]).is_ok());
    assert!(host.apply_parsed_schema("B", &[create_users(), index_users()]).is_ok());
    assert!(host.sync("A", "B").is_ok());
    let ha = host.snapshot_hash("A").unwrap();
    let hb = host.snapshot_hash("B").unwrap();
    assert_eq!(ha, hb);
    assert_eq!(ha.len(), 64);
}

#[test]
fn schema_error_names_the_statement() {
    let mut host = EngineHost::new();
    host.open_peer("A");
    let err = host.apply_parsed_schema("A", &[create_users(), create_users()]).unwrap_err();
    assert_eq!(
        err,
        "schema error in 'CREATE TABLE users (id TEXT, name TEXT)': schema error: table users already exists"
    );
    let other = SqlStatement { text: "SELECT 1".to_string(), stmt: Stmt::Other };
    let err2 = host.apply_parsed_schema("A", &[other]).unwrap_err();
    assert_eq!(
        err2,
        "schema error in 'SELECT 1': schema error: expected CREATE TABLE or CREATE INDEX statement"
    );
}

#[test]
fn missing_peers_are_reported() {
    let mut host = EngineHost::new();
    host.open_peer("A");
    assert_eq!(host.apply_parsed_schema("Z", &[]).unwrap_err(), "peer Z not found");
    assert_eq!(host.sync("Q", "A").unwrap_err(), "peer Q not found");
    assert_eq!(host.sync("A", "Q").unwrap_err(), "peer Q not found");
    assert_eq!(host.snapshot_hash("Q").unwrap_err(), "peer Q not found");
    host.close();
    assert_eq!(host.snapshot_hash("A").unwrap_err(), "peer A not found");
}

#[test]
fn snapshot_state_lists_tables_in_name_order() {
    let mut host = EngineHost::new();
    host.open_peer("A");
    let mut orders = create_users();
    orders.text = "CREATE TABLE orders (id TEXT, name TEXT)".to_string();
    if let Stmt::CreateTable(ct) = &mut orders.stmt {
        ct.name = vec!["orders".to_string()];
    }
    assert!(host.apply_parsed_schema("A", &[create_users(), orders]).is_ok());
    let state = host.snapshot_state("A").unwrap();
    let names: Vec<&str> = state.iter().map(|t| t.name.as_str()).collect();
    assert_eq!(names, vec!["orders", "users"]);
    assert!(state.iter().all(|t| t.rows.is_empty()));
    assert_eq!(host.snapshot_state("Q").err().unwrap(), "peer Q not found");
}

#[test]
fn schema_texts_parse_and_apply() {
    let mut host = EngineHost::new();
    host.open_peer("A");
    host.open_peer("B");
    let texts = vec![
        "CREATE TABLE users (id TEXT PRIMARY KEY, email TEXT UNIQUE, n INTEGER DEFAULT -3)".to_string(),
        "CREATE INDEX idx_email ON users (email)".to_string(),
    ];
    assert_eq!(host.try_apply_schema("A", &texts), Ok(Ok(())));
    assert!(host.apply_schema("B", &texts).is_ok());
    let state = host.snapshot_state("A").unwrap();
    assert_eq!(state.len(), 1);
    assert_eq!(state[0].name, "users");
    assert_eq!(host.snapshot_hash("A").unwrap(), host.snapshot_hash("B").unwrap());
}

#[test]
fn schema_text_errors_name_the_text() {
    let mut host = EngineHost::new();
    host.open_peer("A");
    let bad = vec!["CREATE TABLE".to_string()];
    let e = host.apply_schema("A", &bad).unwrap_err();
    assert!(e.starts_with("schema error in 'CREATE TABLE': parse error: "));
    let twice = vec!["CREATE TABLE t (id TEXT)".to_string(), "CREATE TABLE t (id TEXT)".to_string()];
    let e2 = host.apply_schema("A", &twice).unwrap_err();
    assert!(e2.starts_with("schema error in 'CREATE TABLE t (id TEXT)': "));
    assert_eq!(host.apply_schema("Z", &bad).unwrap_err(), "peer Z not found");
}

#[test]
fn nested_negated_defaults_apply() {
    let mut host = EngineHost::new();
    host.open_peer("A");
    let texts = vec!["CREATE TABLE t (id TEXT, n INTEGER DEFAULT -(-5))".to_string()];
    assert_eq!(host.try_apply_schema("A", &texts), Ok(Ok(())));
    assert_eq!(host.snapshot_state("A").unwrap().len(), 1);
}

#[test]
fn schema_texts_the_parser_would_panic_on_are_refused() {
    let mut host = EngineHost::new();
    host.open_peer("A");
    let before = host.snapshot_hash("A").unwrap();
    let grant = vec!["CREATE TABLE t (id TEXT)".to_string(), "GRANT SELECT ON t TO u GRANTED BY 1".to_string()];
    assert_eq!(host.try_apply_schema("A", &grant), Err(SchemaRefusal::ParserWouldPanic));
    let flush = vec!["flush relay logs for channel".to_string()];
    assert_eq!(host.try_apply_schema("A", &flush), Err(SchemaRefusal::ParserWouldPanic));
    assert_eq!(host.snapshot_hash("A").unwrap(), before);
    assert!(host.snapshot_state("A").unwrap().is_empty());
    let word_inside = vec!["CREATE TABLE t (granted_by TEXT, flushed TEXT)".to_string()];
    assert_eq!(host.try_apply_schema("A", &word_inside), Ok(Ok(())));
    assert_eq!(host.snapshot_state("A").unwrap().len(), 1);
}
