//! SQL text to the statement model: `sqlparser` parses the text, and its
//! syntax tree is copied node for node into the model's types.
use vstd::prelude::*;
use crate::sql::{
    BinaryOp, ColumnDecl, ColumnOpt, ConstraintDecl, CreateIndexStmt, CreateTableStmt, ExprKind, RefAction, SqlExpr,
    SqlType, SqlValue, Stmt, UnaryOp,
};

verus! {

#[verifier::external_type_specification]
#[verifier::external_body]
pub struct ExAstStatement(sqlparser::ast::Statement);

#[verifier::external_type_specification]
#[verifier::external_body]
pub struct ExAstCreateTable(sqlparser::ast::CreateTable);

#[verifier::external_type_specification]
#[verifier::external_body]
pub struct ExAstCreateIndex(sqlparser::ast::CreateIndex);

#[verifier::external_type_specification]
#[verifier::external_body]
pub struct ExAstColumnDef(sqlparser::ast::ColumnDef);

#[verifier::external_type_specification]
#[verifier::external_body]
pub struct ExAstColumnOption(sqlparser::ast::ColumnOption);

#[verifier::external_type_specification]
#[verifier::external_body]
pub struct ExAstTableConstraint(sqlparser::ast::TableConstraint);

#[verifier::external_type_specification]
#[verifier::external_body]
pub struct ExAstExpr(sqlparser::ast::Expr);

#[verifier::external_type_specification]
#[verifier::external_body]
pub struct ExAstUnaryOperator(sqlparser::ast::UnaryOperator);

#[verifier::external_type_specification]
#[verifier::external_body]
pub struct ExAstBinaryOperator(sqlparser::ast::BinaryOperator);

#[verifier::external_type_specification]
#[verifier::external_body]
pub struct ExAstReferentialAction(sqlparser::ast::ReferentialAction);

#[verifier::external_type_specification]
#[verifier::external_body]
pub struct ExAstObjectName(sqlparser::ast::ObjectName);

#[verifier::external_type_specification]
#[verifier::external_body]
pub struct ExAstIdent(sqlparser::ast::Ident);

/// An ASCII letter, digit or underscore: a character that continues a word.
pub open spec fn word_char(c: char) -> bool {
    ('a' <= c && c <= 'z') || ('A' <= c && c <= 'Z') || ('0' <= c && c <= '9') || c == '_'
}

/// Character `c` reads as pattern character `p` once upper-cased: `p`
/// itself, its lower-case form for an ASCII capital, or the long s for `S`.
pub open spec fn reads_as(c: char, p: char) -> bool {
    ||| c == p
    ||| ('A' <= p && p <= 'Z' && c as u32 == p as u32 + 32)
    ||| (p == 'S' && c == '\u{17f}')
}

/// The word `w` stands at position `i` of `t`, in any letter case, with no
/// word character just before or just after it.
pub open spec fn word_at(t: Seq<char>, i: int, w: Seq<char>) -> bool {
    &&& 0 <= i
    &&& i + w.len() <= t.len()
    &&& forall|j: int| 0 <= j < w.len() ==> #[trigger] reads_as(t[i + j], w[j])
    &&& (i == 0 || !word_char(t[i - 1]))
    &&& (i + w.len() == t.len() || !word_char(t[i + w.len()]))
}

/// One of the statement keywords whose parsing in `sqlparser` 0.52 can
/// panic stands at position `i` of `t`: FLUSH (its `FOR CHANNEL` clause),
/// GRANT and REVOKE (their `GRANTED BY` clause). Keywords are matched after
/// upper-casing, so the ligature for "fl" counts too.
pub open spec fn panicking_keyword_at(t: Seq<char>, i: int) -> bool {
    ||| word_at(t, i, "FLUSH"@)
    ||| word_at(t, i, "\u{fb02}USH"@)
    ||| word_at(t, i, "GRANT"@)
    ||| word_at(t, i, "REVOKE"@)
}

/// The text holds one of the keywords of `panicking_keyword_at`.
pub open spec fn parser_may_panic(t: Seq<char>) -> bool {
    exists|i: int| panicking_keyword_at(t, i)
}

fn is_word_char(c: char) -> (r: bool)
    ensures
        r == word_char(c),
{
    ('a' <= c && c <= 'z') || ('A' <= c && c <= 'Z') || ('0' <= c && c <= '9') || c == '_'
}

fn char_reads_as(c: char, p: char) -> (r: bool)
    ensures
        r == reads_as(c, p),
{
    c == p || ('A' <= p && p <= 'Z' && (c as u32) == (p as u32) + 32) || (p == 'S' && c == '\u{17f}')
}

/// Whether word `w` stands at position `i` of `t` (`n` characters long).
fn word_at_exec(t: &str, n: usize, i: usize, w: &str) -> (r: bool)
    requires
        n == t@.len(),
        i <= n,
    ensures
        r == word_at(t@, i as int, w@),
{
    let m = w.unicode_len();
    if m > n - i {
        return false;
    }
    let mut j: usize = 0;
    while j < m
        invariant
            m == w@.len(),
            n == t@.len(),
            i + m <= n,
            j <= m,
            forall|a: int| 0 <= a < j ==> #[trigger] reads_as(t@[i + a], w@[a]),
        decreases m - j,
    {
        if !char_reads_as(t.get_char(i + j), w.get_char(j)) {
            return false;
        }
        j = j + 1;
    }
    if i > 0 && is_word_char(t.get_char(i - 1)) {
        return false;
    }
    if i + m < n && is_word_char(t.get_char(i + m)) {
        return false;
    }
    true
}

/// Whether `sqlparser` might panic on the text: whether it holds one of the
/// words FLUSH, GRANT or REVOKE.
pub fn may_panic_parser(t: &str) -> (r: bool)
    ensures
        r == parser_may_panic(t@),
{
    let n = t.unicode_len();
    let mut i: usize = 0;
    while i < n
        invariant
            n == t@.len(),
            i <= n,
            forall|a: int| 0 <= a < i ==> !#[trigger] panicking_keyword_at(t@, a),
        decreases n - i,
    {
        let f1 = word_at_exec(t, n, i, "FLUSH");
        let f2 = word_at_exec(t, n, i, "\u{fb02}USH");
        let f3 = word_at_exec(t, n, i, "GRANT");
        let f4 = word_at_exec(t, n, i, "REVOKE");
        if f1 || f2 || f3 || f4 {
            assert(panicking_keyword_at(t@, i as int));
            return true;
        }
        assert(!panicking_keyword_at(t@, i as int));
        i = i + 1;
    }
    assert forall|a: int| !panicking_keyword_at(t@, a) by {
        reveal_strlit("FLUSH");
        reveal_strlit("\u{fb02}USH");
        reveal_strlit("GRANT");
        reveal_strlit("REVOKE");
        if 0 <= a < n {
            assert(!panicking_keyword_at(t@, a));
        }
    }
    false
}

/// The statements `sqlparser` reads from a text (generic dialect), copied
/// into the statement model, or its error message.
pub uninterp spec fn sql_parsed(text: Seq<char>) -> Result<Seq<Stmt>, Seq<char>>;

/// Parses SQL text with `sqlparser::parser::Parser::parse_sql` under the
/// generic dialect and copies each statement into the statement model.
/// Trusted: the statements (or the error's text) are taken to be
/// `sql_parsed` of the text; nothing else is claimed of sqlparser's grammar.
/// The parser unwraps a failed parse in the `FOR CHANNEL` clause of FLUSH
/// and the `GRANTED BY` clause of GRANT and REVOKE, and so can panic there;
/// texts that hold any of those keywords are left out. The parser bounds
/// how deep statements, queries and expressions nest, but not data types:
/// a text nesting them deep enough to exhaust the stack is not left out.
#[verifier::external_body]
pub fn parse_sql(sql: &str) -> (r: Result<Vec<Stmt>, String>)
    requires
        !parser_may_panic(sql@),
    ensures
        match r {
            Ok(v) => sql_parsed(sql@) == Ok::<Seq<Stmt>, Seq<char>>(v@),
            Err(e) => sql_parsed(sql@) == Err::<Seq<Stmt>, Seq<char>>(e@),
        },
{
    match sqlparser::parser::Parser::parse_sql(&sqlparser::dialect::GenericDialect {}, sql) {
        Ok(v) => Ok(v.iter().map(model_statement).collect()),
        Err(e) => Err(e.to_string()),
    }
}

/// Copies a `sqlparser` statement: CREATE TABLE and CREATE INDEX, any other
/// as `Other`.
#[verifier::external_body]
fn model_statement(s: &sqlparser::ast::Statement) -> Stmt {
    match s {
        sqlparser::ast::Statement::CreateTable(c) => Stmt::CreateTable(model_create_table(c)),
        sqlparser::ast::Statement::CreateIndex(c) => Stmt::CreateIndex(model_create_index(c)),
        _ => Stmt::Other,
    }
}

/// Copies a `sqlparser` CREATE TABLE.
#[verifier::external_body]
fn model_create_table(c: &sqlparser::ast::CreateTable) -> CreateTableStmt {
    CreateTableStmt {
        name: name_parts(&c.name),
        columns: c.columns.iter().map(model_column).collect(),
        constraints: c.constraints.iter().map(model_constraint).collect(),
    }
}

/// Copies a `sqlparser` CREATE INDEX; each indexed column by its text.
#[verifier::external_body]
fn model_create_index(c: &sqlparser::ast::CreateIndex) -> CreateIndexStmt {
    CreateIndexStmt {
        name: c.name.as_ref().map(name_parts),
        table_name: name_parts(&c.table_name),
        columns: c.columns.iter().map(|o| o.expr.to_string()).collect(),
        unique: c.unique,
    }
}

/// Copies a `sqlparser` column definition.
#[verifier::external_body]
fn model_column(c: &sqlparser::ast::ColumnDef) -> ColumnDecl {
    ColumnDecl {
        name: c.name.value.clone(),
        data_type: model_type(c),
        options: c.options.iter().map(|o| model_option(&o.option)).collect(),
    }
}

/// Copies a `sqlparser` column option.
#[verifier::external_body]
fn model_option(o: &sqlparser::ast::ColumnOption) -> ColumnOpt {
    match o {
        sqlparser::ast::ColumnOption::Null => ColumnOpt::Null,
        sqlparser::ast::ColumnOption::NotNull => ColumnOpt::NotNull,
        sqlparser::ast::ColumnOption::Unique { is_primary, .. } => ColumnOpt::Unique { is_primary: *is_primary },
        sqlparser::ast::ColumnOption::Default(e) => ColumnOpt::Default(model_expr(e)),
        sqlparser::ast::ColumnOption::ForeignKey { foreign_table, referred_columns, on_delete, .. } => {
            ColumnOpt::ForeignKey {
                foreign_table: name_parts(foreign_table),
                referred_columns: ident_names(referred_columns),
                on_delete: model_action(on_delete),
            }
        },
        _ => ColumnOpt::Other,
    }
}

/// Copies a `sqlparser` table constraint.
#[verifier::external_body]
fn model_constraint(c: &sqlparser::ast::TableConstraint) -> ConstraintDecl {
    match c {
        sqlparser::ast::TableConstraint::PrimaryKey { columns, .. } => ConstraintDecl::PrimaryKey { columns: ident_names(columns) },
        sqlparser::ast::TableConstraint::ForeignKey { columns, foreign_table, referred_columns, on_delete, .. } => {
            ConstraintDecl::ForeignKey {
                columns: ident_names(columns),
                foreign_table: name_parts(foreign_table),
                referred_columns: ident_names(referred_columns),
                on_delete: model_action(on_delete),
            }
        },
        sqlparser::ast::TableConstraint::Unique { columns, .. } => ConstraintDecl::Unique { columns: ident_names(columns) },
        _ => ConstraintDecl::Other,
    }
}

/// Copies the data type of a `sqlparser` column: the text types here, the
/// others below.
#[verifier::external_body]
fn model_type(c: &sqlparser::ast::ColumnDef) -> SqlType {
    match &c.data_type {
        sqlparser::ast::DataType::Text => SqlType::Text,
        sqlparser::ast::DataType::Varchar(_) => SqlType::Varchar,
        sqlparser::ast::DataType::Char(_) => SqlType::Char,
        sqlparser::ast::DataType::CharVarying(_) => SqlType::CharVarying,
        sqlparser::ast::DataType::CharacterVarying(_) => SqlType::CharacterVarying,
        sqlparser::ast::DataType::Boolean => SqlType::Boolean,
        _ => model_type_more(c),
    }
}

/// Copies the integer or binary data type of a `sqlparser` column; any
/// other as `Other`.
#[verifier::external_body]
fn model_type_more(c: &sqlparser::ast::ColumnDef) -> SqlType {
    match &c.data_type {
        sqlparser::ast::DataType::Int(_) => SqlType::Int,
        sqlparser::ast::DataType::Integer(_) => SqlType::Integer,
        sqlparser::ast::DataType::BigInt(_) => SqlType::BigInt,
        sqlparser::ast::DataType::SmallInt(_) => SqlType::SmallInt,
        sqlparser::ast::DataType::TinyInt(_) => SqlType::TinyInt,
        sqlparser::ast::DataType::Blob(_) => SqlType::Blob,
        sqlparser::ast::DataType::Binary(_) => SqlType::Binary,
        sqlparser::ast::DataType::Varbinary(_) => SqlType::Varbinary,
        sqlparser::ast::DataType::Bytea => SqlType::Bytea,
        _ => SqlType::Other,
    }
}

/// Copies a `sqlparser` expression, with its debug text.
#[verifier::external_body]
fn model_expr(e: &sqlparser::ast::Expr) -> SqlExpr {
    SqlExpr { kind: model_kind(e), debug: format!("{e:?}") }
}

/// The kind of a `sqlparser` expression: names, literals and null tests
/// here, operators below.
#[verifier::external_body]
fn model_kind(e: &sqlparser::ast::Expr) -> ExprKind {
    match e {
        sqlparser::ast::Expr::Identifier(i) => ExprKind::Identifier(i.value.clone()),
        sqlparser::ast::Expr::CompoundIdentifier(v) => ExprKind::CompoundIdentifier(ident_names(v)),
        sqlparser::ast::Expr::Value(_) => ExprKind::Value(model_value(e)),
        sqlparser::ast::Expr::IsNull(x) => ExprKind::IsNull(Box::new(model_expr(x))),
        sqlparser::ast::Expr::IsNotNull(x) => ExprKind::IsNotNull(Box::new(model_expr(x))),
        _ => model_kind_ops(e),
    }
}

/// The kind of a `sqlparser` operator expression; any other as `Other`.
#[verifier::external_body]
fn model_kind_ops(e: &sqlparser::ast::Expr) -> ExprKind {
    match e {
        sqlparser::ast::Expr::UnaryOp { op, expr } => ExprKind::UnaryOp { op: model_unary(op), expr: Box::new(model_expr(expr)) },
        sqlparser::ast::Expr::Nested(x) => ExprKind::Nested(Box::new(model_expr(x))),
        sqlparser::ast::Expr::BinaryOp { left, op, right } => ExprKind::BinaryOp {
            left: Box::new(model_expr(left)),
            op: model_binary(op),
            right: Box::new(model_expr(right)),
        },
        _ => ExprKind::Other,
    }
}

/// Copies the literal of a `sqlparser` value expression; any other literal
/// by its debug text.
#[verifier::external_body]
fn model_value(e: &sqlparser::ast::Expr) -> SqlValue {
    match e {
        sqlparser::ast::Expr::Value(sqlparser::ast::Value::Null) => SqlValue::Null,
        sqlparser::ast::Expr::Value(sqlparser::ast::Value::Number(n, _)) => SqlValue::Number(n.to_string()),
        sqlparser::ast::Expr::Value(sqlparser::ast::Value::SingleQuotedString(s)) => SqlValue::SingleQuotedString(s.clone()),
        sqlparser::ast::Expr::Value(sqlparser::ast::Value::DoubleQuotedString(s)) => SqlValue::DoubleQuotedString(s.clone()),
        sqlparser::ast::Expr::Value(sqlparser::ast::Value::Boolean(b)) => SqlValue::Boolean(*b),
        sqlparser::ast::Expr::Value(other) => SqlValue::Other(format!("{other:?}")),
        _ => SqlValue::Other(format!("{e:?}")),
    }
}

/// Copies a `sqlparser` unary operator; any other by its text.
#[verifier::external_body]
fn model_unary(op: &sqlparser::ast::UnaryOperator) -> UnaryOp {
    match op {
        sqlparser::ast::UnaryOperator::Minus => UnaryOp::Minus,
        sqlparser::ast::UnaryOperator::Not => UnaryOp::Not,
        other => UnaryOp::Other(other.to_string()),
    }
}

/// Copies a `sqlparser` binary operator; any other by its text.
#[verifier::external_body]
fn model_binary(op: &sqlparser::ast::BinaryOperator) -> BinaryOp {
    match op {
        sqlparser::ast::BinaryOperator::Eq => BinaryOp::Eq,
        sqlparser::ast::BinaryOperator::NotEq => BinaryOp::NotEq,
        sqlparser::ast::BinaryOperator::Lt => BinaryOp::Lt,
        sqlparser::ast::BinaryOperator::LtEq => BinaryOp::LtEq,
        sqlparser::ast::BinaryOperator::Gt => BinaryOp::Gt,
        sqlparser::ast::BinaryOperator::GtEq => BinaryOp::GtEq,
        sqlparser::ast::BinaryOperator::And => BinaryOp::And,
        sqlparser::ast::BinaryOperator::Or => BinaryOp::Or,
        other => BinaryOp::Other(other.to_string()),
    }
}

/// Copies a `sqlparser` referential action, if there is one.
#[verifier::external_body]
fn model_action(a: &Option<sqlparser::ast::ReferentialAction>) -> Option<RefAction> {
    match a {
        Some(sqlparser::ast::ReferentialAction::Restrict) => Some(RefAction::Restrict),
        Some(sqlparser::ast::ReferentialAction::Cascade) => Some(RefAction::Cascade),
        Some(sqlparser::ast::ReferentialAction::SetNull) => Some(RefAction::SetNull),
        Some(sqlparser::ast::ReferentialAction::NoAction) => Some(RefAction::NoAction),
        Some(sqlparser::ast::ReferentialAction::SetDefault) => Some(RefAction::SetDefault),
        None => None,
    }
}

/// The parts of a `sqlparser` object name.
#[verifier::external_body]
fn name_parts(n: &sqlparser::ast::ObjectName) -> Vec<String> {
    n.0.iter().map(|i| i.value.clone()).collect()
}

/// The names of `sqlparser` identifiers.
#[verifier::external_body]
fn ident_names(v: &[sqlparser::ast::Ident]) -> Vec<String> {
    v.iter().map(|i| i.value.clone()).collect()
}

} // verus!
