use anvil::error::CrdtError;
use anvil::sql_parse::may_panic_parser;
use anvil::sql::{
    eval_literal, eval_predicate, from_sql_value, object_name_to_string, parse_create_index,
    parse_create_table, parse_data_type, parse_referential_action, BinaryOp, ColumnDecl, ColumnOpt,
    CreateIndexStmt, CreateTableStmt, SqlExpr, ExprKind, RefAction, SqlType, SqlValue, Stmt,
    ConstraintDecl, UnaryOp,
};
use anvil::types::{Cell, DataType, FkPolicy, Row, Value, Version};

fn e(kind: ExprKind) -> SqlExpr {
    SqlExpr { kind, debug: "expr".to_string() }
}

fn num(s: &str) -> SqlExpr {
    e(ExprKind::Value(SqlValue::Number(s.to_string())))
}

fn ident(s: &str) -> SqlExpr {
    e(ExprKind::Identifier(s.to_string()))
}

fn bin(l: SqlExpr, op: BinaryOp, r: SqlExpr) -> SqlExpr {
    e(ExprKind::BinaryOp { left: Box::new(l), op, right: Box::new(r) })
}

fn col(name: &str, ty: SqlType, options: Vec<ColumnOpt>) -> ColumnDecl {
    ColumnDecl { name: name.to_string(), data_type: ty, options }
}

fn row() -> Row {
    let mut r = Row::new("r1");
    r.cells.insert("qty".to_string(), Cell::new(Value::Integer(5), Version::new(1, "A".to_string())));
    r.cells.insert("name".to_string(), Cell::new(Value::Text("x".to_string()), Version::new(1, "A".to_string())));
    r
}

#[test]
fn create_table_reads_columns_and_constraints() {
    let stmt = Stmt::CreateTable(CreateTableStmt {
        name: vec!["main".to_string(), "users".to_string()],
        columns: vec![
            col("id", SqlType::Text, vec![]),
            col("email", SqlType::Varchar, vec![ColumnOpt::NotNull]),
            col("age", SqlType::Integer, vec![ColumnOpt::Default(num("18"))]),
            col(
                "team",
                SqlType::Text,
                vec![ColumnOpt::ForeignKey {
                    foreign_table: vec!["teams".to_string()],
                    referred_columns: vec![],
                    on_delete: Some(RefAction::Cascade),
                }],
            ),
            col("photo", SqlType::Bytea, vec![ColumnOpt::Unique { is_primary: false }]),
        ],
        constraints: vec![
            ConstraintDecl::PrimaryKey { columns: vec!["id".to_string()] },
            ConstraintDecl::Unique { columns: vec!["email".to_string()] },
            ConstraintDecl::Unique { columns: vec!["age".to_string(), "team".to_string()] },
            ConstraintDecl::ForeignKey {
                columns: vec!["email".to_string()],
                foreign_table: vec!["mail".to_string()],
                referred_columns: vec!["addr".to_string()],
                on_delete: Some(RefAction::SetNull),
            },
        ],
    });
    let t = parse_create_table(&stmt).unwrap();
    assert_eq!(t.name, "main.users");
    assert_eq!(t.columns.len(), 5);
    assert!(t.columns[0].primary_key && !t.columns[0].nullable);
    assert!(t.columns[1].unique && !t.columns[1].nullable);
    assert_eq!(t.columns[2].data_type, DataType::Integer);
    assert_eq!(t.columns[2].default_value, Some(Value::Integer(18)));
    assert_eq!(t.columns[4].data_type, DataType::Blob);
    assert!(t.columns[4].unique);
    assert_eq!(t.foreign_keys.len(), 2);
    assert_eq!(t.foreign_keys[0].column, "email");
    assert_eq!(t.foreign_keys[0].ref_table, "mail");
    assert_eq!(t.foreign_keys[0].on_delete, FkPolicy::Orphan);
    assert_eq!(t.foreign_keys[1].column, "team");
    assert_eq!(t.foreign_keys[1].ref_column, "id");
    assert_eq!(t.foreign_keys[1].on_delete, FkPolicy::Cascade);
    assert_eq!(t.unique_constraints.len(), 1);
    assert_eq!(t.unique_constraints[0].columns, vec!["age".to_string(), "team".to_string()]);
    assert!(t.indexes.is_empty());
}

#[test]
fn create_table_refuses_foreign_key_without_columns() {
    let stmt = Stmt::CreateTable(CreateTableStmt {
        name: vec!["t".to_string()],
        columns: vec![],
        constraints: vec![ConstraintDecl::ForeignKey {
            columns: vec![],
            foreign_table: vec!["p".to_string()],
            referred_columns: vec!["id".to_string()],
            on_delete: None,
        }],
    });
    let err = parse_create_table(&stmt).unwrap_err();
    assert_eq!(err, CrdtError::SchemaError("FK must reference at least one column".to_string()));
    let err2 = parse_create_table(&Stmt::Other).unwrap_err();
    assert_eq!(err2, CrdtError::SchemaError("expected CREATE TABLE statement".to_string()));
}

#[test]
fn create_index_reads_name_table_and_columns() {
    let stmt = Stmt::CreateIndex(CreateIndexStmt {
        name: None,
        table_name: vec!["users".to_string()],
        columns: vec!["email".to_string()],
        unique: true,
    });
    let d = parse_create_index(&stmt, "users").unwrap();
    assert_eq!(d.name, "unnamed_index");
    assert_eq!(d.table, "users");
    assert_eq!(d.columns, vec!["email".to_string()]);
    assert!(d.unique);
    let err = parse_create_index(&Stmt::Other, "users").unwrap_err();
    assert_eq!(err, CrdtError::SchemaError("expected CREATE INDEX statement".to_string()));
}

#[test]
fn types_actions_and_names() {
    assert_eq!(parse_data_type(&SqlType::Boolean).unwrap(), DataType::Integer);
    assert_eq!(parse_data_type(&SqlType::Other).unwrap(), DataType::Text);
    assert_eq!(parse_data_type(&SqlType::Varbinary).unwrap(), DataType::Blob);
    assert_eq!(parse_referential_action(&Some(RefAction::Restrict)), FkPolicy::Tombstone);
    assert_eq!(parse_referential_action(&None), FkPolicy::Tombstone);
    assert_eq!(object_name_to_string(&vec!["a".to_string(), "b".to_string(), "c".to_string()]), "a.b.c");
    assert_eq!(object_name_to_string(&vec![]), "");
}

#[test]
fn literals_and_their_errors() {
    assert_eq!(from_sql_value(&SqlValue::Number("42".to_string())).unwrap(), Value::Integer(42));
    assert_eq!(from_sql_value(&SqlValue::Number("+7".to_string())).unwrap(), Value::Integer(7));
    assert_eq!(from_sql_value(&SqlValue::Boolean(true)).unwrap(), Value::Integer(1));
    assert_eq!(
        from_sql_value(&SqlValue::Number("1.5".to_string())).unwrap_err(),
        CrdtError::ParseError("cannot parse number: 1.5".to_string())
    );
    assert_eq!(
        from_sql_value(&SqlValue::Number("9223372036854775808".to_string())).unwrap_err(),
        CrdtError::ParseError("cannot parse number: 9223372036854775808".to_string())
    );
    let neg = e(ExprKind::UnaryOp { op: UnaryOp::Minus, expr: Box::new(num("3")) });
    assert_eq!(eval_literal(&neg, &[]).unwrap(), Value::Integer(-3));
    let bad = e(ExprKind::UnaryOp {
        op: UnaryOp::Minus,
        expr: Box::new(e(ExprKind::Value(SqlValue::SingleQuotedString("abc".to_string())))),
    });
    assert_eq!(eval_literal(&bad, &[]).unwrap_err(), CrdtError::ParseError("cannot negate abc".to_string()));
    assert_eq!(
        eval_literal(&ident("x"), &[]).unwrap_err(),
        CrdtError::ParseError("unresolved identifier: x".to_string())
    );
    let not = e(ExprKind::UnaryOp { op: UnaryOp::Not, expr: Box::new(num("1")) });
    assert_eq!(eval_literal(&not, &[]).unwrap_err(), CrdtError::ParseError("unsupported unary op: NOT".to_string()));
    let complex = SqlExpr { kind: ExprKind::IsNull(Box::new(num("1"))), debug: "IsNull(1)".to_string() };
    assert_eq!(
        eval_literal(&complex, &[]).unwrap_err(),
        CrdtError::ParseError("complex expr not supported: IsNull(1)".to_string())
    );
}

#[test]
fn predicates_against_a_row() {
    let r = row();
    let p = bin(ident("qty"), BinaryOp::Gt, num("3"));
    assert!(eval_predicate(&p, &r, &[]).unwrap());
    let q = bin(
        bin(ident("qty"), BinaryOp::Eq, num("5")),
        BinaryOp::And,
        bin(ident("name"), BinaryOp::NotEq, e(ExprKind::Value(SqlValue::SingleQuotedString("y".to_string())))),
    );
    assert!(eval_predicate(&q, &r, &[]).unwrap());
    let missing = e(ExprKind::IsNull(Box::new(ident("nope"))));
    assert!(eval_predicate(&missing, &r, &[]).unwrap());
    let nested_and = bin(q, BinaryOp::And, bin(ident("qty"), BinaryOp::LtEq, num("5")));
    assert_eq!(
        eval_predicate(&nested_and, &r, &[]).unwrap_err(),
        CrdtError::ParseError("unsupported binary op in expression: AND".to_string())
    );
    let plus = bin(ident("qty"), BinaryOp::Other("+".to_string()), num("1"));
    assert_eq!(eval_predicate(&plus, &r, &[]).unwrap_err(), CrdtError::ParseError("unsupported op: +".to_string()));
    let bare = ident("qty");
    assert!(eval_predicate(&bare, &r, &[]).unwrap());
    let compound = e(ExprKind::CompoundIdentifier(vec!["t".to_string(), "name".to_string()]));
    let eqx = bin(compound, BinaryOp::Eq, e(ExprKind::Value(SqlValue::DoubleQuotedString("x".to_string()))));
    assert!(eval_predicate(&eqx, &r, &[]).unwrap());
}

#[test]
fn parser_panic_keywords_are_found_as_words_in_any_case() {
    assert!(may_panic_parser("GRANT SELECT ON t TO u"));
    assert!(may_panic_parser("x; revoke all on t from u"));
    assert!(may_panic_parser("\u{fb02}ush tables"));
    assert!(may_panic_parser("Flu\u{17f}h logs"));
    assert!(may_panic_parser("(grant)"));
    assert!(!may_panic_parser("CREATE TABLE t (granted_by TEXT, flushed TEXT)"));
    assert!(!may_panic_parser("x_grant revoke1"));
    assert!(!may_panic_parser(""));
}
