//! SQL statements as the store reads them: the parts of a parsed statement
//! that schema building and expression evaluation look at, held as plain
//! values, and the logic over them: CREATE TABLE and CREATE INDEX to schema
//! definitions, literals to values, and WHERE expressions against a row.
use vstd::prelude::*;
use crate::error::{CrdtError, CrdtResult};
use crate::order::Order;
use crate::ordmap::DeepCopy;
use crate::types::{
    ColumnSchema, DataType, FkPolicy, ForeignKeyDef, IndexDef, IndexDefView, Row, RowView,
    TableSchema, UniqueConstraintDef, Value, ValueView, value_lt, value_text,
};

verus! {

// --------------------------------------------------------------- model

/// The kinds of column type a schema tells apart.
#[derive(Debug, Clone, Copy, PartialEq, Eq, Structural)]
pub enum SqlType {
    Text,
    Varchar,
    Char,
    CharVarying,
    CharacterVarying,
    Int,
    Integer,
    BigInt,
    SmallInt,
    TinyInt,
    Boolean,
    Blob,
    Binary,
    Varbinary,
    Bytea,
    Other,
}

/// A referential action of a foreign key.
#[derive(Debug, Clone, Copy, PartialEq, Eq, Structural)]
pub enum RefAction {
    Cascade,
    SetNull,
    Restrict,
    NoAction,
    SetDefault,
}

/// A literal value; `Other` holds how an unsupported literal reads.
#[derive(Debug, Clone)]
pub enum SqlValue {
    Null,
    Number(String),
    SingleQuotedString(String),
    DoubleQuotedString(String),
    Boolean(bool),
    Other(String),
}

/// A unary operator; `Other` holds how it reads.
#[derive(Debug, Clone)]
pub enum UnaryOp {
    Minus,
    Not,
    Other(String),
}

/// A binary operator; `Other` holds how it reads.
#[derive(Debug, Clone)]
pub enum BinaryOp {
    Eq,
    NotEq,
    Lt,
    LtEq,
    Gt,
    GtEq,
    And,
    Or,
    Other(String),
}

/// An expression, with how it reads in its debug form.
#[derive(Debug)]
pub struct SqlExpr {
    pub kind: ExprKind,
    pub debug: String,
}

#[derive(Debug)]
pub enum ExprKind {
    Identifier(String),
    CompoundIdentifier(Vec<String>),
    Value(SqlValue),
    UnaryOp { op: UnaryOp, expr: Box<SqlExpr> },
    Nested(Box<SqlExpr>),
    BinaryOp { left: Box<SqlExpr>, op: BinaryOp, right: Box<SqlExpr> },
    IsNull(Box<SqlExpr>),
    IsNotNull(Box<SqlExpr>),
    Other,
}

/// A column option of CREATE TABLE.
#[derive(Debug)]
pub enum ColumnOpt {
    Null,
    NotNull,
    Unique { is_primary: bool },
    Default(SqlExpr),
    ForeignKey { foreign_table: Vec<String>, referred_columns: Vec<String>, on_delete: Option<RefAction> },
    Other,
}

/// A column definition of CREATE TABLE.
#[derive(Debug)]
pub struct ColumnDecl {
    pub name: String,
    pub data_type: SqlType,
    pub options: Vec<ColumnOpt>,
}

/// A table constraint of CREATE TABLE.
#[derive(Debug, Clone)]
pub enum ConstraintDecl {
    PrimaryKey { columns: Vec<String> },
    ForeignKey {
        columns: Vec<String>,
        foreign_table: Vec<String>,
        referred_columns: Vec<String>,
        on_delete: Option<RefAction>,
    },
    Unique { columns: Vec<String> },
    Other,
}

/// CREATE TABLE: the name's parts, the columns and the table constraints.
#[derive(Debug)]
pub struct CreateTableStmt {
    pub name: Vec<String>,
    pub columns: Vec<ColumnDecl>,
    pub constraints: Vec<ConstraintDecl>,
}

/// CREATE INDEX: the name's parts if named, the table's name parts, the
/// indexed column expressions as they read, and whether it is unique.
#[derive(Debug, Clone)]
pub struct CreateIndexStmt {
    pub name: Option<Vec<String>>,
    pub table_name: Vec<String>,
    pub columns: Vec<String>,
    pub unique: bool,
}

/// A statement.
#[derive(Debug)]
pub enum Stmt {
    CreateTable(CreateTableStmt),
    CreateIndex(CreateIndexStmt),
    Other,
}

// ---------------------------------------------------------- small parts

/// The views of a sequence of strings.
pub open spec fn strs(s: Seq<String>) -> Seq<Seq<char>> {
    s.map_values(|x: String| x@)
}

/// The parts of a name joined with `.`.
pub open spec fn joined(parts: Seq<Seq<char>>) -> Seq<char>
    decreases parts.len(),
{
    if parts.len() == 0 {
        Seq::empty()
    } else if parts.len() == 1 {
        parts[0]
    } else {
        joined(parts.drop_last()) + "."@ + parts.last()
    }
}

/// A dotted name joined into one string.
pub fn object_name_to_string(name: &Vec<String>) -> (r: String)
    ensures
        r@ == joined(strs(name@)),
{
    proof {
        reveal_strlit(".");
    }
    let ghost ps = strs(name@);
    let mut out = String::new();
    let mut i: usize = 0;
    while i < name.len()
        invariant
            i <= name@.len(),
            ps == strs(name@),
            out@ == joined(ps.take(i as int)),
        decreases name@.len() - i,
    {
        proof {
            assert(ps.take(i + 1).drop_last() =~= ps.take(i as int));
            assert(ps.take(i + 1).last() == name@[i as int]@);
        }
        if i > 0 {
            out.append(".");
        } else {
            assert(ps.take(1)[0] == name@[0]@);
        }
        out.append(name[i].as_str());
        i = i + 1;
    }
    assert(ps.take(name@.len() as int) =~= ps);
    out
}

/// The store's type of a column of the given SQL type: text kinds are
/// text, integer kinds and booleans are integers, binary kinds are blobs,
/// and any other type is text.
pub open spec fn data_type_of(t: SqlType) -> DataType {
    match t {
        SqlType::Int | SqlType::Integer | SqlType::BigInt | SqlType::SmallInt | SqlType::TinyInt
        | SqlType::Boolean => DataType::Integer,
        SqlType::Blob | SqlType::Binary | SqlType::Varbinary | SqlType::Bytea => DataType::Blob,
        _ => DataType::Text,
    }
}

pub fn parse_data_type(dt: &SqlType) -> (r: CrdtResult<DataType>)
    ensures
        r == Ok::<DataType, CrdtError>(data_type_of(*dt)),
{
    match dt {
        SqlType::Int | SqlType::Integer | SqlType::BigInt | SqlType::SmallInt | SqlType::TinyInt
        | SqlType::Boolean => Ok(DataType::Integer),
        SqlType::Blob | SqlType::Binary | SqlType::Varbinary | SqlType::Bytea => Ok(DataType::Blob),
        _ => Ok(DataType::Text),
    }
}

/// The delete policy of a referential action: CASCADE cascades, SET NULL
/// orphans, anything else (or none) keeps the parent as a tombstone.
pub open spec fn policy_of(a: Option<RefAction>) -> FkPolicy {
    match a {
        Some(RefAction::Cascade) => FkPolicy::Cascade,
        Some(RefAction::SetNull) => FkPolicy::Orphan,
        _ => FkPolicy::Tombstone,
    }
}

pub fn parse_referential_action(action: &Option<RefAction>) -> (r: FkPolicy)
    ensures
        r == policy_of(*action),
{
    match action {
        Some(RefAction::Cascade) => FkPolicy::Cascade,
        Some(RefAction::SetNull) => FkPolicy::Orphan,
        _ => FkPolicy::Tombstone,
    }
}

// ------------------------------------------------------------- literals

/// `c` is an ASCII decimal digit.
pub open spec fn is_digit(c: char) -> bool {
    48 <= (c as int) <= 57
}

/// The number the decimal digits `d` stand for.
pub open spec fn digits_value(d: Seq<char>) -> int
    decreases d.len(),
{
    if d.len() == 0 {
        0
    } else {
        digits_value(d.drop_last()) * 10 + ((d.last() as int) - 48)
    }
}

/// `s` read as an `i64`: an optional `+` or `-`, then one or more decimal
/// digits and nothing else, naming a number in the range of `i64`.
pub open spec fn parsed_i64(s: Seq<char>) -> Option<i64> {
    let signed = s.len() > 0 && (s[0] == '-' || s[0] == '+');
    let d = if signed {
        s.drop_first()
    } else {
        s
    };
    let v = if signed && s[0] == '-' {
        -digits_value(d)
    } else {
        digits_value(d)
    };
    if d.len() > 0 && (forall|i: int| 0 <= i < d.len() ==> is_digit(#[trigger] d[i])) && i64::MIN <= v
        <= i64::MAX {
        Some(v as i64)
    } else {
        None
    }
}

/// Reads `s` as an `i64` with `str::parse::<i64>`.
/// Trusted: std documents that an integer's `from_str` takes an optional
/// `+` or `-` sign followed by digits only, and fails on anything else or
/// on a number out of range; the contract states exactly that.
#[verifier::external_body]
fn parse_i64(s: &str) -> (r: Option<i64>)
    ensures
        r == parsed_i64(s@),
{
    s.parse::<i64>().ok()
}

/// `prefix` followed by `tail`.
fn message(prefix: &str, tail: &str) -> (r: String)
    ensures
        r@ == prefix@ + tail@,
{
    let mut m = String::from_str(prefix);
    m.append(tail);
    m
}

/// What a parse or evaluation gives: a value, or the message of a parse
/// error.
pub open spec fn value_result(r: CrdtResult<Value>) -> Result<ValueView, Seq<char>> {
    match r {
        Ok(v) => Ok(v@),
        Err(CrdtError::ParseError(m)) => Err(m@),
        Err(_) => Err(Seq::empty()),
    }
}

pub open spec fn bool_result(r: CrdtResult<bool>) -> Result<bool, Seq<char>> {
    match r {
        Ok(b) => Ok(b),
        Err(CrdtError::ParseError(m)) => Err(m@),
        Err(_) => Err(Seq::empty()),
    }
}

/// The value of a literal: NULL, a number that reads as an `i64`, a quoted
/// string as text, a boolean as 1 or 0; anything else is an error.
pub open spec fn sql_value_spec(v: SqlValue) -> Result<ValueView, Seq<char>> {
    match v {
        SqlValue::Null => Ok(ValueView::Null),
        SqlValue::Number(s) => match parsed_i64(s@) {
            Some(i) => Ok(ValueView::Integer(i)),
            None => Err("cannot parse number: "@ + s@),
        },
        SqlValue::SingleQuotedString(s) => Ok(ValueView::Text(s@)),
        SqlValue::DoubleQuotedString(s) => Ok(ValueView::Text(s@)),
        SqlValue::Boolean(b) => Ok(ValueView::Integer(if b { 1 } else { 0 })),
        SqlValue::Other(d) => Err("unsupported value: "@ + d@),
    }
}

pub fn from_sql_value(v: &SqlValue) -> (r: CrdtResult<Value>)
    ensures
        value_result(r) == sql_value_spec(*v),
        r matches Err(e) ==> e is ParseError,
{
    match v {
        SqlValue::Null => Ok(Value::Null),
        SqlValue::Number(s) => match parse_i64(s.as_str()) {
            Some(i) => Ok(Value::Integer(i)),
            None => Err(CrdtError::ParseError(message("cannot parse number: ", s.as_str()))),
        },
        SqlValue::SingleQuotedString(s) => Ok(Value::Text(s.clone())),
        SqlValue::DoubleQuotedString(s) => Ok(Value::Text(s.clone())),
        SqlValue::Boolean(b) => Ok(Value::Integer(if *b { 1 } else { 0 })),
        SqlValue::Other(d) => Err(CrdtError::ParseError(message("unsupported value: ", d.as_str()))),
    }
}

/// How a unary operator reads.
pub open spec fn unary_text(op: UnaryOp) -> Seq<char> {
    match op {
        UnaryOp::Minus => "-"@,
        UnaryOp::Not => "NOT"@,
        UnaryOp::Other(s) => s@,
    }
}

fn unary_op_text(op: &UnaryOp) -> (r: String)
    ensures
        r@ == unary_text(*op),
{
    match op {
        UnaryOp::Minus => String::from_str("-"),
        UnaryOp::Not => String::from_str("NOT"),
        UnaryOp::Other(s) => s.clone(),
    }
}

/// How a binary operator reads.
pub open spec fn binary_text(op: BinaryOp) -> Seq<char> {
    match op {
        BinaryOp::Eq => "="@,
        BinaryOp::NotEq => "<>"@,
        BinaryOp::Lt => "<"@,
        BinaryOp::LtEq => "<="@,
        BinaryOp::Gt => ">"@,
        BinaryOp::GtEq => ">="@,
        BinaryOp::And => "AND"@,
        BinaryOp::Or => "OR"@,
        BinaryOp::Other(s) => s@,
    }
}

fn binary_op_text(op: &BinaryOp) -> (r: String)
    ensures
        r@ == binary_text(*op),
{
    match op {
        BinaryOp::Eq => String::from_str("="),
        BinaryOp::NotEq => String::from_str("<>"),
        BinaryOp::Lt => String::from_str("<"),
        BinaryOp::LtEq => String::from_str("<="),
        BinaryOp::Gt => String::from_str(">"),
        BinaryOp::GtEq => String::from_str(">="),
        BinaryOp::And => String::from_str("AND"),
        BinaryOp::Or => String::from_str("OR"),
        BinaryOp::Other(s) => s.clone(),
    }
}

/// The value of a literal expression: a literal, a negated integer, or a
/// parenthesised literal expression; anything else is an error.
pub open spec fn literal_spec(e: SqlExpr) -> Result<ValueView, Seq<char>>
    decreases e,
{
    match e.kind {
        ExprKind::Value(v) => sql_value_spec(v),
        ExprKind::Identifier(id) => Err("unresolved identifier: "@ + id@),
        ExprKind::UnaryOp { op, expr } => match literal_spec(*expr) {
            Err(m) => Err(m),
            Ok(inner) => match op {
                UnaryOp::Minus => match inner {
                    ValueView::Integer(n) => Ok(ValueView::Integer((-n) as i64)),
                    other => Err("cannot negate "@ + value_text(other)),
                },
                _ => Err("unsupported unary op: "@ + unary_text(op)),
            },
        },
        ExprKind::Nested(inner) => literal_spec(*inner),
        _ => Err("complex expr not supported: "@ + e.debug@),
    }
}

/// Evaluating the literal expression `e` negates no least `i64` (an
/// overflow that stops evaluation).
pub open spec fn literal_neg_safe(e: SqlExpr) -> bool
    decreases e,
{
    match e.kind {
        ExprKind::UnaryOp { op, expr } => literal_neg_safe(*expr) && (op is Minus ==> literal_spec(
            *expr,
        ) != Ok::<ValueView, Seq<char>>(ValueView::Integer(i64::MIN))),
        ExprKind::Nested(inner) => literal_neg_safe(*inner),
        _ => true,
    }
}

/// Evaluates a literal expression (no column references, no functions).
pub fn eval_literal(expr: &SqlExpr, params: &[Value]) -> (r: CrdtResult<Value>)
    requires
        literal_neg_safe(*expr),
    ensures
        value_result(r) == literal_spec(*expr),
        r matches Err(e) ==> e is ParseError,
    decreases expr,
{
    match &expr.kind {
        ExprKind::Value(v) => from_sql_value(v),
        ExprKind::Identifier(ident) => Err(
            CrdtError::ParseError(message("unresolved identifier: ", ident.as_str())),
        ),
        ExprKind::UnaryOp { op, expr: inner_expr } => {
            let inner = match eval_literal(inner_expr, params) {
                Ok(v) => v,
                Err(e) => {
                    return Err(e);
                },
            };
            match op {
                UnaryOp::Minus => match inner {
                    Value::Integer(n) => Ok(Value::Integer(-n)),
                    other => {
                        let t = other.to_string();
                        Err(CrdtError::ParseError(message("cannot negate ", t.as_str())))
                    },
                },
                _ => {
                    let t = unary_op_text(op);
                    Err(CrdtError::ParseError(message("unsupported unary op: ", t.as_str())))
                },
            }
        },
        ExprKind::Nested(inner) => eval_literal(inner, params),
        _ => Err(CrdtError::ParseError(message("complex expr not supported: ", expr.debug.as_str()))),
    }
}

// --------------------------------------------------------- expressions

/// The value of column `col` in `row`, or NULL where the row lacks it.
pub open spec fn cell_value(row: RowView, col: Seq<char>) -> ValueView {
    if row.cells.contains_key(col) {
        row.cells[col].value
    } else {
        ValueView::Null
    }
}

/// A value is true unless it is NULL or the integer 0.
pub open spec fn truthy(v: ValueView) -> bool {
    v != ValueView::Null && v != ValueView::Integer(0)
}

pub open spec fn int_of(b: bool) -> ValueView {
    ValueView::Integer(if b { 1 } else { 0 })
}

/// The value of `e` against `row`: columns read from the row (a compound
/// name by its last part), literals, negation and NOT, and comparisons as
/// 1 or 0 in the value order; anything else is an error.
pub open spec fn row_expr_spec(e: SqlExpr, row: RowView) -> Result<ValueView, Seq<char>>
    decreases e,
{
    match e.kind {
        ExprKind::Identifier(id) => Ok(cell_value(row, id@)),
        ExprKind::CompoundIdentifier(parts) => Ok(
            cell_value(
                row,
                if parts@.len() > 0 {
                    parts@.last()@
                } else {
                    Seq::empty()
                },
            ),
        ),
        ExprKind::Value(v) => sql_value_spec(v),
        ExprKind::UnaryOp { op, expr } => match row_expr_spec(*expr, row) {
            Err(m) => Err(m),
            Ok(inner) => match op {
                UnaryOp::Minus => match inner {
                    ValueView::Integer(n) => Ok(ValueView::Integer((-n) as i64)),
                    other => Err("cannot negate "@ + value_text(other)),
                },
                UnaryOp::Not => Ok(int_of(!truthy(inner))),
                UnaryOp::Other(t) => Err("unsupported unary op: "@ + t@),
            },
        },
        ExprKind::Nested(inner) => row_expr_spec(*inner, row),
        ExprKind::BinaryOp { left, op, right } => match row_expr_spec(*left, row) {
            Err(m) => Err(m),
            Ok(lv) => match row_expr_spec(*right, row) {
                Err(m) => Err(m),
                Ok(rv) => match op {
                    BinaryOp::Eq => Ok(int_of(lv == rv)),
                    BinaryOp::NotEq => Ok(int_of(lv != rv)),
                    BinaryOp::Lt => Ok(int_of(value_lt(lv, rv))),
                    BinaryOp::LtEq => Ok(int_of(!value_lt(rv, lv))),
                    BinaryOp::Gt => Ok(int_of(value_lt(rv, lv))),
                    BinaryOp::GtEq => Ok(int_of(!value_lt(lv, rv))),
                    _ => Err("unsupported binary op in expression: "@ + binary_text(op)),
                },
            },
        },
        _ => Err("unsupported expression: "@ + e.debug@),
    }
}

/// Evaluating `e` against `row` negates no least `i64`.
pub open spec fn row_neg_safe(e: SqlExpr, row: RowView) -> bool
    decreases e,
{
    match e.kind {
        ExprKind::UnaryOp { op, expr } => row_neg_safe(*expr, row) && (op is Minus ==> row_expr_spec(
            *expr,
            row,
        ) != Ok::<ValueView, Seq<char>>(ValueView::Integer(i64::MIN))),
        ExprKind::Nested(inner) => row_neg_safe(*inner, row),
        ExprKind::BinaryOp { left, op, right } => row_neg_safe(*left, row) && (row_expr_spec(
            *left,
            row,
        ) is Ok ==> row_neg_safe(*right, row)),
        _ => true,
    }
}

proof fn lemma_value_lt_irreflexive()
    ensures
        forall|x: ValueView| !#[trigger] value_lt(x, x),
{
    crate::types::lemma_value_order();
    let lt = |x: ValueView, y: ValueView| value_lt(x, y);
    assert forall|x: ValueView| !#[trigger] value_lt(x, x) by {
        assert(!lt(x, x));
    }
}

fn lookup_cell(row: &Row, col: &str) -> (r: Value)
    ensures
        r@ == cell_value(row@, col@),
{
    match row.get(col) {
        Some(v) => v.deep_copy(),
        None => Value::Null,
    }
}

fn is_truthy(v: &Value) -> (r: bool)
    ensures
        r == truthy(v@),
{
    match v {
        Value::Null => false,
        Value::Integer(n) => *n != 0,
        _ => true,
    }
}

fn value_int(b: bool) -> (r: Value)
    ensures
        r@ == int_of(b),
{
    Value::Integer(if b { 1 } else { 0 })
}

fn eval_row_expr(expr: &SqlExpr, row: &Row, params: &[Value]) -> (r: CrdtResult<Value>)
    requires
        row_neg_safe(*expr, row@),
    ensures
        value_result(r) == row_expr_spec(*expr, row@),
        r matches Err(e) ==> e is ParseError,
    decreases expr,
{
    proof {
        lemma_value_lt_irreflexive();
    }
    match &expr.kind {
        ExprKind::Identifier(ident) => Ok(lookup_cell(row, ident.as_str())),
        ExprKind::CompoundIdentifier(parts) => {
            if parts.len() > 0 {
                Ok(lookup_cell(row, parts[parts.len() - 1].as_str()))
            } else {
                assert(""@ =~= Seq::<char>::empty()) by {
                    reveal_strlit("");
                }
                Ok(lookup_cell(row, ""))
            }
        },
        ExprKind::Value(v) => from_sql_value(v),
        ExprKind::UnaryOp { op, expr: inner_expr } => {
            let inner = match eval_row_expr(inner_expr, row, params) {
                Ok(v) => v,
                Err(e) => {
                    return Err(e);
                },
            };
            match op {
                UnaryOp::Minus => match inner {
                    Value::Integer(n) => Ok(Value::Integer(-n)),
                    other => {
                        let t = other.to_string();
                        Err(CrdtError::ParseError(message("cannot negate ", t.as_str())))
                    },
                },
                UnaryOp::Not => {
                    let b = is_truthy(&inner);
                    Ok(value_int(!b))
                },
                UnaryOp::Other(t) => Err(
                    CrdtError::ParseError(message("unsupported unary op: ", t.as_str())),
                ),
            }
        },
        ExprKind::Nested(inner) => eval_row_expr(inner, row, params),
        ExprKind::BinaryOp { left, op, right } => {
            let lv = match eval_row_expr(left, row, params) {
                Ok(v) => v,
                Err(e) => {
                    return Err(e);
                },
            };
            let rv = match eval_row_expr(right, row, params) {
                Ok(v) => v,
                Err(e) => {
                    return Err(e);
                },
            };
            match op {
                BinaryOp::Eq => Ok(value_int(lv == rv)),
                BinaryOp::NotEq => Ok(value_int(!(lv == rv))),
                BinaryOp::Lt => Ok(value_int(lv.compare(&rv) == Order::Less)),
                BinaryOp::LtEq => Ok(value_int(rv.compare(&lv) != Order::Less)),
                BinaryOp::Gt => Ok(value_int(rv.compare(&lv) == Order::Less)),
                BinaryOp::GtEq => Ok(value_int(lv.compare(&rv) != Order::Less)),
                _ => {
                    let t = binary_op_text(op);
                    Err(
                        CrdtError::ParseError(
                            message("unsupported binary op in expression: ", t.as_str()),
                        ),
                    )
                },
            }
        },
        _ => Err(CrdtError::ParseError(message("unsupported expression: ", expr.debug.as_str()))),
    }
}

/// Whether `row` satisfies the predicate `e`: comparisons of two row
/// expressions, AND and OR of predicates (both sides evaluated), IS NULL,
/// IS NOT NULL, parentheses, and otherwise the truth of the expression's
/// value.
pub open spec fn predicate_spec(e: SqlExpr, row: RowView) -> Result<bool, Seq<char>>
    decreases e,
{
    match e.kind {
        ExprKind::BinaryOp { left, op, right } => match row_expr_spec(*left, row) {
            Err(m) => Err(m),
            Ok(lv) => match row_expr_spec(*right, row) {
                Err(m) => Err(m),
                Ok(rv) => match op {
                    BinaryOp::Eq => Ok(lv == rv),
                    BinaryOp::NotEq => Ok(lv != rv),
                    BinaryOp::Lt => Ok(value_lt(lv, rv)),
                    BinaryOp::LtEq => Ok(!value_lt(rv, lv)),
                    BinaryOp::Gt => Ok(value_lt(rv, lv)),
                    BinaryOp::GtEq => Ok(!value_lt(lv, rv)),
                    BinaryOp::And => match predicate_spec(*left, row) {
                        Err(m) => Err(m),
                        Ok(lb) => match predicate_spec(*right, row) {
                            Err(m) => Err(m),
                            Ok(rb) => Ok(lb && rb),
                        },
                    },
                    BinaryOp::Or => match predicate_spec(*left, row) {
                        Err(m) => Err(m),
                        Ok(lb) => match predicate_spec(*right, row) {
                            Err(m) => Err(m),
                            Ok(rb) => Ok(lb || rb),
                        },
                    },
                    BinaryOp::Other(t) => Err("unsupported op: "@ + t@),
                },
            },
        },
        ExprKind::IsNull(inner) => match row_expr_spec(*inner, row) {
            Err(m) => Err(m),
            Ok(v) => Ok(v == ValueView::Null),
        },
        ExprKind::IsNotNull(inner) => match row_expr_spec(*inner, row) {
            Err(m) => Err(m),
            Ok(v) => Ok(v != ValueView::Null),
        },
        ExprKind::Nested(inner) => predicate_spec(*inner, row),
        _ => match row_expr_spec(e, row) {
            Err(m) => Err(m),
            Ok(v) => Ok(truthy(v)),
        },
    }
}

/// Evaluating the predicate `e` against `row` negates no least `i64`.
pub open spec fn predicate_neg_safe(e: SqlExpr, row: RowView) -> bool
    decreases e,
{
    match e.kind {
        ExprKind::BinaryOp { left, op, right } => row_neg_safe(*left, row) && (row_expr_spec(
            *left,
            row,
        ) is Ok ==> row_neg_safe(*right, row)) && ((row_expr_spec(*left, row) is Ok && row_expr_spec(
            *right,
            row,
        ) is Ok && (op is And || op is Or)) ==> predicate_neg_safe(*left, row) && (predicate_spec(
            *left,
            row,
        ) is Ok ==> predicate_neg_safe(*right, row))),
        ExprKind::IsNull(inner) => row_neg_safe(*inner, row),
        ExprKind::IsNotNull(inner) => row_neg_safe(*inner, row),
        ExprKind::Nested(inner) => predicate_neg_safe(*inner, row),
        _ => row_neg_safe(e, row),
    }
}

/// Evaluates a WHERE predicate against a row.
pub fn eval_predicate(expr: &SqlExpr, row: &Row, params: &[Value]) -> (r: CrdtResult<bool>)
    requires
        predicate_neg_safe(*expr, row@),
    ensures
        bool_result(r) == predicate_spec(*expr, row@),
        r matches Err(e) ==> e is ParseError,
    decreases expr,
{
    proof {
        lemma_value_lt_irreflexive();
    }
    match &expr.kind {
        ExprKind::BinaryOp { left, op, right } => {
            let lv = match eval_row_expr(left, row, params) {
                Ok(v) => v,
                Err(e) => {
                    return Err(e);
                },
            };
            let rv = match eval_row_expr(right, row, params) {
                Ok(v) => v,
                Err(e) => {
                    return Err(e);
                },
            };
            match op {
                BinaryOp::Eq => Ok(lv == rv),
                BinaryOp::NotEq => Ok(!(lv == rv)),
                BinaryOp::Lt => Ok(lv.compare(&rv) == Order::Less),
                BinaryOp::LtEq => Ok(rv.compare(&lv) != Order::Less),
                BinaryOp::Gt => Ok(rv.compare(&lv) == Order::Less),
                BinaryOp::GtEq => Ok(lv.compare(&rv) != Order::Less),
                BinaryOp::And => {
                    let lb = match eval_predicate(left, row, params) {
                        Ok(b) => b,
                        Err(e) => {
                            return Err(e);
                        },
                    };
                    let rb = match eval_predicate(right, row, params) {
                        Ok(b) => b,
                        Err(e) => {
                            return Err(e);
                        },
                    };
                    Ok(lb && rb)
                },
                BinaryOp::Or => {
                    let lb = match eval_predicate(left, row, params) {
                        Ok(b) => b,
                        Err(e) => {
                            return Err(e);
                        },
                    };
                    let rb = match eval_predicate(right, row, params) {
                        Ok(b) => b,
                        Err(e) => {
                            return Err(e);
                        },
                    };
                    Ok(lb || rb)
                },
                BinaryOp::Other(t) => Err(CrdtError::ParseError(message("unsupported op: ", t.as_str()))),
            }
        },
        ExprKind::IsNull(inner) => {
            let v = match eval_row_expr(inner, row, params) {
                Ok(v) => v,
                Err(e) => {
                    return Err(e);
                },
            };
            Ok(v == Value::Null)
        },
        ExprKind::IsNotNull(inner) => {
            let v = match eval_row_expr(inner, row, params) {
                Ok(v) => v,
                Err(e) => {
                    return Err(e);
                },
            };
            Ok(!(v == Value::Null))
        },
        ExprKind::Nested(inner) => eval_predicate(inner, row, params),
        _ => {
            let v = match eval_row_expr(expr, row, params) {
                Ok(v) => v,
                Err(e) => {
                    return Err(e);
                },
            };
            Ok(is_truthy(&v))
        },
    }
}

// -------------------------------------------------------------- schema

/// A foreign key as plain values.
pub struct FkView {
    pub column: Seq<char>,
    pub ref_table: Seq<char>,
    pub ref_column: Seq<char>,
    pub on_delete: FkPolicy,
}

pub open spec fn fk_view(f: ForeignKeyDef) -> FkView {
    FkView { column: f.column@, ref_table: f.ref_table@, ref_column: f.ref_column@, on_delete: f.on_delete }
}

pub open spec fn fks_view(fs: Seq<ForeignKeyDef>) -> Seq<FkView> {
    fs.map_values(|f: ForeignKeyDef| fk_view(f))
}

/// A column schema as plain values.
pub struct ColumnView {
    pub name: Seq<char>,
    pub data_type: DataType,
    pub nullable: bool,
    pub unique: bool,
    pub primary_key: bool,
    pub default_value: Option<ValueView>,
}

pub open spec fn opt_value_view(v: Option<Value>) -> Option<ValueView> {
    match v {
        Some(x) => Some(x@),
        None => None,
    }
}

pub open spec fn column_view(c: ColumnSchema) -> ColumnView {
    ColumnView {
        name: c.name@,
        data_type: c.data_type,
        nullable: c.nullable,
        unique: c.unique,
        primary_key: c.primary_key,
        default_value: opt_value_view(c.default_value),
    }
}

/// A table schema as plain values.
pub struct SchemaView {
    pub name: Seq<char>,
    pub columns: Seq<ColumnView>,
    pub foreign_keys: Seq<FkView>,
    pub indexes: Seq<IndexDefView>,
    pub unique_constraints: Seq<Seq<Seq<char>>>,
}

pub open spec fn schema_view(t: TableSchema) -> SchemaView {
    SchemaView {
        name: t.name@,
        columns: t.columns@.map_values(|c: ColumnSchema| column_view(c)),
        foreign_keys: fks_view(t.foreign_keys@),
        indexes: t.indexes@.map_values(|d: IndexDef| d@),
        unique_constraints: t.unique_constraints@.map_values(|u: UniqueConstraintDef| strs(u.columns@)),
    }
}

/// What the table constraints declare: the primary key columns (the last
/// such constraint counts), foreign keys, composite unique constraints, and
/// single columns made unique.
pub struct ConstraintScan {
    pub pk: Option<Seq<Seq<char>>>,
    pub fks: Seq<FkView>,
    pub composite: Seq<Seq<Seq<char>>>,
    pub single: Seq<Seq<char>>,
}

pub open spec fn empty_scan() -> ConstraintScan {
    ConstraintScan { pk: None, fks: Seq::empty(), composite: Seq::empty(), single: Seq::empty() }
}

/// One table constraint read into `st`; a foreign key without columns or
/// referred columns is an error (`None`).
pub open spec fn scan_step(st: ConstraintScan, c: ConstraintDecl) -> Option<ConstraintScan> {
    match c {
        ConstraintDecl::PrimaryKey { columns } => Some(ConstraintScan { pk: Some(strs(columns@)), ..st }),
        ConstraintDecl::ForeignKey { columns, foreign_table, referred_columns, on_delete } => {
            if columns@.len() == 0 || referred_columns@.len() == 0 {
                None
            } else {
                Some(
                    ConstraintScan {
                        fks: st.fks.push(
                            FkView {
                                column: columns@[0]@,
                                ref_table: joined(strs(foreign_table@)),
                                ref_column: referred_columns@[0]@,
                                on_delete: policy_of(on_delete),
                            },
                        ),
                        ..st
                    },
                )
            }
        },
        ConstraintDecl::Unique { columns } => {
            if columns@.len() == 1 {
                Some(ConstraintScan { single: st.single.push(columns@[0]@), ..st })
            } else if columns@.len() > 1 {
                Some(ConstraintScan { composite: st.composite.push(strs(columns@)), ..st })
            } else {
                Some(st)
            }
        },
        ConstraintDecl::Other => Some(st),
    }
}

pub open spec fn scan_constraints(cs: Seq<ConstraintDecl>) -> Option<ConstraintScan>
    decreases cs.len(),
{
    if cs.len() == 0 {
        Some(empty_scan())
    } else {
        match scan_constraints(cs.drop_last()) {
            None => None,
            Some(st) => scan_step(st, cs.last()),
        }
    }
}

/// What a column's options declare.
pub struct ColumnScan {
    pub nullable: bool,
    pub unique: bool,
    pub primary_key: bool,
    pub default_value: Option<ValueView>,
    pub fks: Seq<FkView>,
}

pub open spec fn fresh_column() -> ColumnScan {
    ColumnScan { nullable: true, unique: false, primary_key: false, default_value: None, fks: Seq::empty() }
}

/// One option of column `col` read into `st`. PRIMARY KEY makes the column
/// not null and not separately unique; a DEFAULT that is not a literal is
/// passed over; a foreign key without referred columns refers to `id`.
pub open spec fn option_step(st: ColumnScan, col: Seq<char>, o: ColumnOpt) -> ColumnScan {
    match o {
        ColumnOpt::NotNull => ColumnScan { nullable: false, ..st },
        ColumnOpt::Null => ColumnScan { nullable: true, ..st },
        ColumnOpt::Unique { is_primary } => if is_primary {
            ColumnScan { primary_key: true, nullable: false, unique: false, ..st }
        } else {
            ColumnScan { unique: true, ..st }
        },
        ColumnOpt::Default(e) => match literal_spec(e) {
            Ok(v) => ColumnScan { default_value: Some(v), ..st },
            Err(_) => st,
        },
        ColumnOpt::ForeignKey { foreign_table, referred_columns, on_delete } => ColumnScan {
            fks: st.fks.push(
                FkView {
                    column: col,
                    ref_table: joined(strs(foreign_table@)),
                    ref_column: if referred_columns@.len() > 0 {
                        referred_columns@[0]@
                    } else {
                        "id"@
                    },
                    on_delete: policy_of(on_delete),
                },
            ),
            ..st
        },
        ColumnOpt::Other => st,
    }
}

pub open spec fn scan_options(opts: Seq<ColumnOpt>, col: Seq<char>) -> ColumnScan
    decreases opts.len(),
{
    if opts.len() == 0 {
        fresh_column()
    } else {
        option_step(scan_options(opts.drop_last(), col), col, opts.last())
    }
}

/// A column of the schema: its options, then the table's primary key (which
/// makes it a not-null key column) and single-column unique constraints.
pub open spec fn column_result(c: ColumnDecl, scan: ConstraintScan) -> ColumnView {
    let o = scan_options(c.options@, c.name@);
    let in_pk = scan.pk matches Some(p) && p.contains(c.name@);
    ColumnView {
        name: c.name@,
        data_type: data_type_of(c.data_type),
        nullable: if in_pk {
            false
        } else {
            o.nullable
        },
        unique: o.unique || scan.single.contains(c.name@),
        primary_key: o.primary_key || in_pk,
        default_value: o.default_value,
    }
}

/// The foreign keys declared on the columns, column after column.
pub open spec fn columns_fks(cols: Seq<ColumnDecl>) -> Seq<FkView>
    decreases cols.len(),
{
    if cols.len() == 0 {
        Seq::empty()
    } else {
        columns_fks(cols.drop_last()) + scan_options(cols.last().options@, cols.last().name@).fks
    }
}

/// The schema CREATE TABLE declares, or `None` where a table foreign key
/// lacks columns: the table constraints' foreign keys come first, then the
/// columns'.
pub open spec fn create_table_spec(ct: CreateTableStmt) -> Option<SchemaView> {
    match scan_constraints(ct.constraints@) {
        None => None,
        Some(scan) => Some(
            SchemaView {
                name: joined(strs(ct.name@)),
                columns: ct.columns@.map_values(|c: ColumnDecl| column_result(c, scan)),
                foreign_keys: scan.fks + columns_fks(ct.columns@),
                indexes: Seq::empty(),
                unique_constraints: scan.composite,
            },
        ),
    }
}

/// Every DEFAULT of the columns is a literal expression whose evaluation
/// negates no least `i64`.
pub open spec fn defaults_neg_safe(cols: Seq<ColumnDecl>) -> bool {
    forall|i: int, j: int|
        0 <= i < cols.len() && 0 <= j < cols[i].options@.len() ==> (#[trigger] cols[i].options@[j] matches ColumnOpt::Default(e) ==> literal_neg_safe(e))
}

/// Every CREATE TABLE among `v` has defaults that evaluate without
/// overflow.
pub open spec fn stmts_defaults_safe(v: Seq<Stmt>) -> bool {
    forall|i: int| 0 <= i < v.len() ==> ((#[trigger] v[i]) matches Stmt::CreateTable(ct) ==> defaults_neg_safe(ct.columns@))
}

/// Whether evaluating literal `e` negates no least `i64`.
fn literal_safe(e: &SqlExpr) -> (r: bool)
    ensures
        r == literal_neg_safe(*e),
    decreases e,
{
    match &e.kind {
        ExprKind::UnaryOp { op, expr } => {
            if !literal_safe(expr) {
                return false;
            }
            match op {
                UnaryOp::Minus => match eval_literal(expr, &[]) {
                    Ok(Value::Integer(n)) => n != i64::MIN,
                    _ => true,
                },
                _ => true,
            }
        },
        ExprKind::Nested(inner) => literal_safe(inner),
        _ => true,
    }
}

/// Whether every DEFAULT of `cols` evaluates without overflow.
fn defaults_safe(cols: &Vec<ColumnDecl>) -> (r: bool)
    ensures
        r == defaults_neg_safe(cols@),
{
    let mut i: usize = 0;
    while i < cols.len()
        invariant
            i <= cols@.len(),
            forall|a: int, b: int|
                0 <= a < i && 0 <= b < cols@[a].options@.len() ==> (#[trigger] cols@[a].options@[b] matches ColumnOpt::Default(e)
                    ==> literal_neg_safe(e)),
        decreases cols@.len() - i,
    {
        let mut j: usize = 0;
        while j < cols[i].options.len()
            invariant
                i < cols@.len(),
                j <= cols@[i as int].options@.len(),
                forall|b: int|
                    0 <= b < j ==> (#[trigger] cols@[i as int].options@[b] matches ColumnOpt::Default(e) ==> literal_neg_safe(e)),
            decreases cols@[i as int].options@.len() - j,
        {
            match &cols[i].options[j] {
                ColumnOpt::Default(e) => {
                    if !literal_safe(e) {
                        return false;
                    }
                },
                _ => {},
            }
            j = j + 1;
        }
        i = i + 1;
    }
    true
}

/// Whether every CREATE TABLE among `v` has defaults that evaluate without
/// overflow.
pub(crate) fn stmts_safe(v: &Vec<Stmt>) -> (r: bool)
    ensures
        r == stmts_defaults_safe(v@),
{
    let mut i: usize = 0;
    while i < v.len()
        invariant
            i <= v@.len(),
            forall|a: int| 0 <= a < i ==> ((#[trigger] v@[a]) matches Stmt::CreateTable(ct) ==> defaults_neg_safe(ct.columns@)),
        decreases v@.len() - i,
    {
        match &v[i] {
            Stmt::CreateTable(ct) => {
                if !defaults_safe(&ct.columns) {
                    return false;
                }
            },
            _ => {},
        }
        i = i + 1;
    }
    true
}

/// `s` is one of the strings of `v`.
fn contains_str(v: &Vec<String>, s: &String) -> (r: bool)
    ensures
        r == strs(v@).contains(s@),
{
    let mut i: usize = 0;
    while i < v.len()
        invariant
            i <= v@.len(),
            forall|j: int| 0 <= j < i ==> v@[j]@ != s@,
        decreases v@.len() - i,
    {
        if v[i] == *s {
            assert(strs(v@)[i as int] == s@);
            return true;
        }
        i = i + 1;
    }
    proof {
        if strs(v@).contains(s@) {
            let j = choose|j: int| 0 <= j < strs(v@).len() && strs(v@)[j] == s@;
            assert(v@[j]@ == s@);
        }
    }
    false
}

fn copy_str_vec(v: &Vec<String>) -> (r: Vec<String>)
    ensures
        strs(r@) == strs(v@),
{
    let r = crate::types::copy_strings(v);
    r
}

pub fn parse_create_index(stmt: &Stmt, _table_name: &str) -> (r: CrdtResult<IndexDef>)
    ensures
        match *stmt {
            Stmt::CreateIndex(ci) => r matches Ok(d) && d@ == (IndexDefView {
                name: match ci.name {
                    Some(n) => joined(strs(n@)),
                    None => "unnamed_index"@,
                },
                table: joined(strs(ci.table_name@)),
                columns: strs(ci.columns@),
                unique: ci.unique,
            }),
            _ => r matches Err(CrdtError::SchemaError(m)) && m@ == "expected CREATE INDEX statement"@,
        },
{
    match stmt {
        Stmt::CreateIndex(ci) => {
            let index_name = match &ci.name {
                Some(n) => object_name_to_string(n),
                None => String::from_str("unnamed_index"),
            };
            let table = object_name_to_string(&ci.table_name);
            let columns = copy_str_vec(&ci.columns);
            Ok(IndexDef { name: index_name, table, columns, unique: ci.unique })
        },
        _ => Err(CrdtError::SchemaError(String::from_str("expected CREATE INDEX statement"))),
    }
}

/// Once a constraint is refused, so is every longer run of constraints.
proof fn lemma_scan_none_stays(cs: Seq<ConstraintDecl>, i: int)
    requires
        0 <= i <= cs.len(),
        scan_constraints(cs.take(i)) is None,
    ensures
        scan_constraints(cs) is None,
    decreases cs.len() - i,
{
    if i < cs.len() {
        assert(cs.take(i + 1).drop_last() =~= cs.take(i));
        lemma_scan_none_stays(cs, i + 1);
    } else {
        assert(cs.take(i) =~= cs);
    }
}

/// The table constraints as read so far.
struct ScanOut {
    pk: Option<Vec<String>>,
    fks: Vec<ForeignKeyDef>,
    composite: Vec<UniqueConstraintDef>,
    single: Vec<String>,
}

spec fn scan_out_view(s: ScanOut) -> ConstraintScan {
    ConstraintScan {
        pk: match s.pk {
            Some(v) => Some(strs(v@)),
            None => None,
        },
        fks: fks_view(s.fks@),
        composite: s.composite@.map_values(|u: UniqueConstraintDef| strs(u.columns@)),
        single: strs(s.single@),
    }
}

fn scan_table_constraints(cs: &Vec<ConstraintDecl>) -> (r: Option<ScanOut>)
    ensures
        match r {
            Some(o) => scan_constraints(cs@) == Some(scan_out_view(o)),
            None => scan_constraints(cs@) is None,
        },
{
    let mut st = ScanOut { pk: None, fks: Vec::new(), composite: Vec::new(), single: Vec::new() };
    assert(scan_out_view(st) =~= empty_scan()) by {
        assert(fks_view(st.fks@) =~= Seq::<FkView>::empty());
        assert(strs(st.single@) =~= Seq::<Seq<char>>::empty());
        assert(st.composite@.map_values(|u: UniqueConstraintDef| strs(u.columns@)) =~= Seq::<Seq<Seq<char>>>::empty());
    }
    assert(cs@.take(0) =~= Seq::<ConstraintDecl>::empty());
    let mut i: usize = 0;
    while i < cs.len()
        invariant
            i <= cs@.len(),
            scan_constraints(cs@.take(i as int)) == Some(scan_out_view(st)),
        decreases cs@.len() - i,
    {
        proof {
            assert(cs@.take(i + 1).drop_last() =~= cs@.take(i as int));
            assert(cs@.take(i + 1).last() == cs@[i as int]);
        }
        let ghost before = scan_out_view(st);
        match &cs[i] {
            ConstraintDecl::PrimaryKey { columns } => {
                st.pk = Some(copy_str_vec(columns));
                assert(scan_out_view(st) == scan_step(before, cs@[i as int])->0);
            },
            ConstraintDecl::ForeignKey { columns, foreign_table, referred_columns, on_delete } => {
                if columns.len() == 0 || referred_columns.len() == 0 {
                    proof {
                        lemma_scan_none_stays(cs@, i + 1);
                    }
                    return None;
                }
                let fk = ForeignKeyDef {
                    column: columns[0].clone(),
                    ref_table: object_name_to_string(foreign_table),
                    ref_column: referred_columns[0].clone(),
                    on_delete: parse_referential_action(on_delete),
                };
                let ghost fv = fk_view(fk);
                st.fks.push(fk);
                proof {
                    assert(fks_view(st.fks@) =~= before.fks.push(fv));
                    assert(scan_out_view(st) == scan_step(before, cs@[i as int])->0);
                }
            },
            ConstraintDecl::Unique { columns } => {
                if columns.len() == 1 {
                    let c = columns[0].clone();
                    st.single.push(c);
                    assert(strs(st.single@) =~= before.single.push(columns@[0]@));
                } else if columns.len() > 1 {
                    let u = UniqueConstraintDef { columns: copy_str_vec(columns) };
                    let ghost uv = strs(u.columns@);
                    st.composite.push(u);
                    assert(st.composite@.map_values(|u: UniqueConstraintDef| strs(u.columns@)) =~= before.composite.push(uv));
                }
                assert(scan_out_view(st) == scan_step(before, cs@[i as int])->0);
            },
            ConstraintDecl::Other => {},
        }
        i = i + 1;
    }
    assert(cs@.take(cs@.len() as int) =~= cs@);
    Some(st)
}

/// What column `col`'s options declare, its foreign keys appended to `fks`.
fn scan_column(col: &ColumnDecl, fks: &mut Vec<ForeignKeyDef>) -> (r: (bool, bool, bool, Option<Value>))
    requires
        forall|j: int| 0 <= j < col.options@.len() ==> (#[trigger] col.options@[j] matches ColumnOpt::Default(e) ==> literal_neg_safe(e)),
    ensures
        ({
            let o = scan_options(col.options@, col.name@);
            &&& r.0 == o.nullable
            &&& r.1 == o.unique
            &&& r.2 == o.primary_key
            &&& opt_value_view(r.3) == o.default_value
            &&& fks_view(final(fks)@) == fks_view(old(fks)@) + o.fks
        }),
{
    let mut nullable = true;
    let mut unique = false;
    let mut primary_key = false;
    let mut default_value: Option<Value> = None;
    let ghost start = fks_view(fks@);
    let opts = &col.options;
    assert(opts@.take(0) =~= Seq::<ColumnOpt>::empty());
    assert(start =~= start + Seq::<FkView>::empty());
    let mut k: usize = 0;
    while k < opts.len()
        invariant
            k <= opts@.len(),
            opts == &col.options,
            forall|j: int| 0 <= j < opts@.len() ==> (#[trigger] opts@[j] matches ColumnOpt::Default(e) ==> literal_neg_safe(e)),
            ({
                let o = scan_options(opts@.take(k as int), col.name@);
                &&& nullable == o.nullable
                &&& unique == o.unique
                &&& primary_key == o.primary_key
                &&& opt_value_view(default_value) == o.default_value
                &&& fks_view(fks@) == start + o.fks
            }),
        decreases opts@.len() - k,
    {
        proof {
            assert(opts@.take(k + 1).drop_last() =~= opts@.take(k as int));
            assert(opts@.take(k + 1).last() == opts@[k as int]);
        }
        let ghost before = scan_options(opts@.take(k as int), col.name@);
        match &opts[k] {
            ColumnOpt::NotNull => {
                nullable = false;
            },
            ColumnOpt::Null => {
                nullable = true;
            },
            ColumnOpt::Unique { is_primary } => {
                if *is_primary {
                    primary_key = true;
                    nullable = false;
                    unique = false;
                } else {
                    unique = true;
                }
            },
            ColumnOpt::Default(expr) => {
                match eval_literal(expr, &[]) {
                    Ok(v) => {
                        default_value = Some(v);
                    },
                    Err(_) => {},
                }
            },
            ColumnOpt::ForeignKey { foreign_table, referred_columns, on_delete } => {
                let ref_col = if referred_columns.len() > 0 {
                    referred_columns[0].clone()
                } else {
                    String::from_str("id")
                };
                let fk = ForeignKeyDef {
                    column: col.name.clone(),
                    ref_table: object_name_to_string(foreign_table),
                    ref_column: ref_col,
                    on_delete: parse_referential_action(on_delete),
                };
                let ghost fv = fk_view(fk);
                let ghost prev = fks@;
                fks.push(fk);
                proof {
                    assert(fks_view(fks@) =~= fks_view(prev).push(fv));
                    assert(start + before.fks.push(fv) =~= (start + before.fks).push(fv));
                }
            },
            ColumnOpt::Other => {},
        }
        k = k + 1;
    }
    assert(opts@.take(opts@.len() as int) =~= opts@);
    (nullable, unique, primary_key, default_value)
}

/// Builds the schema a CREATE TABLE statement declares.
pub fn parse_create_table(stmt: &Stmt) -> (r: CrdtResult<TableSchema>)
    requires
        stmt matches Stmt::CreateTable(ct) ==> defaults_neg_safe(ct.columns@),
    ensures
        match *stmt {
            Stmt::CreateTable(ct) => match create_table_spec(ct) {
                Some(sv) => r matches Ok(t) && schema_view(t) == sv,
                None => r matches Err(CrdtError::SchemaError(m)) && m@ == "FK must reference at least one column"@,
            },
            _ => r matches Err(CrdtError::SchemaError(m)) && m@ == "expected CREATE TABLE statement"@,
        },
{
    match stmt {
        Stmt::CreateTable(create) => {
            let table_name = object_name_to_string(&create.name);
            let scan = match scan_table_constraints(&create.constraints) {
                Some(o) => o,
                None => {
                    return Err(
                        CrdtError::SchemaError(String::from_str("FK must reference at least one column")),
                    );
                },
            };
            let ghost sv = scan_out_view(scan);
            let ScanOut { pk: table_pk, fks: mut foreign_keys, composite: unique_constraints, single: table_unique_single } = scan;
            let cols = &create.columns;
            let ghost cf = |c: ColumnDecl| column_result(c, sv);
            let mut columns: Vec<ColumnSchema> = Vec::new();
            assert(cols@.take(0) =~= Seq::<ColumnDecl>::empty());
            assert(sv.fks =~= sv.fks + Seq::<FkView>::empty());
            let mut j: usize = 0;
            while j < cols.len()
                invariant
                    j <= cols@.len(),
                    cols == &create.columns,
                    defaults_neg_safe(cols@),
                    sv.pk == (match table_pk {
                        Some(v) => Some(strs(v@)),
                        None => None,
                    }),
                    sv.single == strs(table_unique_single@),
                    cf == (|c: ColumnDecl| column_result(c, sv)),
                    columns@.map_values(|c: ColumnSchema| column_view(c)) == cols@.take(j as int).map_values(cf),
                    fks_view(foreign_keys@) == sv.fks + columns_fks(cols@.take(j as int)),
                decreases cols@.len() - j,
            {
                let col = &cols[j];
                proof {
                    assert forall|k: int| 0 <= k < col.options@.len() implies (#[trigger] col.options@[k] matches ColumnOpt::Default(e) ==> literal_neg_safe(e)) by {
                        assert(cols@[j as int].options@[k] == col.options@[k]);
                    }
                }
                let ghost before_fks = fks_view(foreign_keys@);
                let (nullable0, unique0, pk0, default_value) = scan_column(col, &mut foreign_keys);
                let mut nullable = nullable0;
                let mut unique = unique0;
                let mut primary_key = pk0;
                match &table_pk {
                    Some(pk_cols) => {
                        if contains_str(pk_cols, &col.name) {
                            primary_key = true;
                            nullable = false;
                        }
                    },
                    None => {},
                }
                if contains_str(&table_unique_single, &col.name) {
                    unique = true;
                }
                let data_type = match parse_data_type(&col.data_type) {
                    Ok(d) => d,
                    Err(e) => {
                        return Err(e);
                    },
                };
                let c = ColumnSchema {
                    name: col.name.clone(),
                    data_type,
                    nullable,
                    unique,
                    primary_key,
                    default_value,
                };
                let ghost cv = column_view(c);
                let ghost prev = columns@;
                columns.push(c);
                proof {
                    assert(cv == column_result(cols@[j as int], sv));
                    assert(cols@.take(j + 1) =~= cols@.take(j as int).push(cols@[j as int]));
                    assert(columns@.map_values(|c: ColumnSchema| column_view(c)) =~= prev.map_values(|c: ColumnSchema| column_view(c)).push(cv));
                    assert(cols@.take(j + 1).map_values(cf) =~= cols@.take(j as int).map_values(cf).push(cf(cols@[j as int])));
                    assert(cols@.take(j + 1).drop_last() =~= cols@.take(j as int));
                    assert(sv.fks + columns_fks(cols@.take(j + 1)) =~= sv.fks + columns_fks(cols@.take(j as int)) + scan_options(cols@[j as int].options@, cols@[j as int].name@).fks);
                }
                j = j + 1;
            }
            assert(cols@.take(cols@.len() as int) =~= cols@);
            let t = TableSchema {
                name: table_name,
                columns,
                foreign_keys,
                indexes: Vec::new(),
                unique_constraints,
            };
            proof {
                assert(schema_view(t).indexes =~= Seq::<IndexDefView>::empty());
                assert(schema_view(t).columns =~= cols@.map_values(cf));
            }
            Ok(t)
        },
        _ => Err(CrdtError::SchemaError(String::from_str("expected CREATE TABLE statement"))),
    }
}

/// A comparison in a WHERE predicate follows the value order, left operand
/// first: `l < r` holds exactly when `l`'s value is below `r`'s, `l > r`
/// when `r`'s is below `l`'s, `<=` and `>=` add equality, and `=`, `<>`
/// test equality. On integers this is the order of the numbers.
pub proof fn law_comparison_predicates(
    e: SqlExpr,
    l: SqlExpr,
    op: BinaryOp,
    r: SqlExpr,
    row: RowView,
    lv: ValueView,
    rv: ValueView,
)
    requires
        e.kind matches ExprKind::BinaryOp { left, op: o, right } && *left == l && o == op && *right == r,
        row_expr_spec(l, row) == Ok::<ValueView, Seq<char>>(lv),
        row_expr_spec(r, row) == Ok::<ValueView, Seq<char>>(rv),
    ensures
        op is Lt ==> predicate_spec(e, row) == Ok::<bool, Seq<char>>(value_lt(lv, rv)),
        op is Gt ==> predicate_spec(e, row) == Ok::<bool, Seq<char>>(value_lt(rv, lv)),
        op is LtEq ==> predicate_spec(e, row) == Ok::<bool, Seq<char>>(value_lt(lv, rv) || lv == rv),
        op is GtEq ==> predicate_spec(e, row) == Ok::<bool, Seq<char>>(value_lt(rv, lv) || lv == rv),
        op is Eq ==> predicate_spec(e, row) == Ok::<bool, Seq<char>>(lv == rv),
        op is NotEq ==> predicate_spec(e, row) == Ok::<bool, Seq<char>>(lv != rv),
        (lv, rv) matches (ValueView::Integer(x), ValueView::Integer(y)) ==> {
            &&& op is Lt ==> predicate_spec(e, row) == Ok::<bool, Seq<char>>(x < y)
            &&& op is Gt ==> predicate_spec(e, row) == Ok::<bool, Seq<char>>(x > y)
            &&& op is LtEq ==> predicate_spec(e, row) == Ok::<bool, Seq<char>>(x <= y)
            &&& op is GtEq ==> predicate_spec(e, row) == Ok::<bool, Seq<char>>(x >= y)
        },
{
    crate::types::lemma_value_order();
    let lt = |x: ValueView, y: ValueView| value_lt(x, y);
    assert(lt(lv, rv) == value_lt(lv, rv));
    assert(lt(rv, lv) == value_lt(rv, lv));
}

/// Options that declare PRIMARY KEY make the column a key column, and one
/// not nullable unless a later NULL option says otherwise; UNIQUE alone
/// never makes a key column.
proof fn lemma_scan_primary(opts: Seq<ColumnOpt>, col: Seq<char>)
    ensures
        scan_options(opts, col).primary_key <==> exists|j: int|
            0 <= j < opts.len() && (#[trigger] opts[j]) == (ColumnOpt::Unique { is_primary: true }),
        forall|j: int|
            0 <= j < opts.len() && (#[trigger] opts[j]) == (ColumnOpt::Unique { is_primary: true }) && (forall|k: int|
                j < k < opts.len() ==> !(opts[k] is Null)) ==> !scan_options(opts, col).nullable,
    decreases opts.len(),
{
    if opts.len() > 0 {
        let d = opts.drop_last();
        lemma_scan_primary(d, col);
        assert forall|j: int| 0 <= j < d.len() implies #[trigger] d[j] == opts[j] by {}
        if exists|j: int| 0 <= j < opts.len() && (#[trigger] opts[j]) == (ColumnOpt::Unique { is_primary: true }) {
            let j = choose|j: int| 0 <= j < opts.len() && (#[trigger] opts[j]) == (ColumnOpt::Unique { is_primary: true });
            if j < d.len() {
                assert(d[j] == opts[j]);
            }
        }
        assert forall|j: int|
            0 <= j < opts.len() && (#[trigger] opts[j]) == (ColumnOpt::Unique { is_primary: true }) && (forall|k: int|
                j < k < opts.len() ==> !(opts[k] is Null)) implies !scan_options(opts, col).nullable by {
            if j < d.len() {
                assert(d[j] == opts[j]);
                assert forall|k: int| j < k < d.len() implies !(d[k] is Null) by {
                    assert(d[k] == opts[k]);
                }
                assert(!(opts[opts.len() - 1] is Null));
            }
        }
        if exists|j: int| 0 <= j < d.len() && (#[trigger] d[j]) == (ColumnOpt::Unique { is_primary: true }) {
            let j = choose|j: int| 0 <= j < d.len() && (#[trigger] d[j]) == (ColumnOpt::Unique { is_primary: true });
            assert(opts[j] == d[j]);
        }
    }
}

/// A column declared PRIMARY KEY is, in the schema CREATE TABLE declares,
/// a primary key column that is not nullable (unless a NULL option follows
/// the PRIMARY KEY one); a column that neither declares PRIMARY KEY nor is
/// named by the table's PRIMARY KEY constraint is no key column.
pub proof fn law_primary_key_column(ct: CreateTableStmt, i: int)
    requires
        create_table_spec(ct) is Some,
        0 <= i < ct.columns@.len(),
    ensures
        ({
            let c = ct.columns@[i];
            let opts = c.options@;
            let sv = create_table_spec(ct)->0;
            &&& sv.columns.len() == ct.columns@.len()
            &&& sv.columns[i].name == c.name@
            &&& forall|j: int|
                0 <= j < opts.len() && (#[trigger] opts[j]) == (ColumnOpt::Unique { is_primary: true }) && (forall|k: int|
                    j < k < opts.len() ==> !(opts[k] is Null)) ==> sv.columns[i].primary_key && !sv.columns[i].nullable
            &&& (forall|j: int| 0 <= j < opts.len() ==> (#[trigger] opts[j]) != (ColumnOpt::Unique { is_primary: true }))
                && !(scan_constraints(ct.constraints@)->0.pk matches Some(p) && p.contains(c.name@))
                ==> !sv.columns[i].primary_key
        }),
{
    let c = ct.columns@[i];
    lemma_scan_primary(c.options@, c.name@);
}

} // verus!
