//! The data model: versions, values, cells, rows, tombstones, uniqueness
//! claims, schemas and sync deltas, each with the view its contracts speak of.
use vstd::prelude::*;
use crate::order::{
    Order, str_lt, compare_str, lemma_str_lt_strict_total, lemma_lex_irreflexive,
    lemma_char_lt_strict_total, order_by, lemma_lex_transitive, lemma_lex_total, strict_total,
    lemma_lex_common_prefix, lemma_lex_asymmetric, lemma_str_laws,
};
use crate::ordmap::{OrdMap, DeepCopy};
use crate::utils::{append_decimal, append_signed, decimal_text, signed_text};

verus! {

pub type PeerId = String;

pub type RowId = String;

pub type ColumnId = String;

pub type TableId = String;

/// Per-peer frontier: the highest counter seen from each peer.
pub type Frontier = OrdMap<String, u64>;

// ---------------------------------------------------------------- Version

/// A Lamport counter with the writing peer as tie-break.
/// Order: higher counter wins; on a tie, the higher peer id wins.
#[derive(Debug, Clone, PartialEq, Eq, Hash)]
pub struct Version {
    pub counter: u64,
    pub peer_id: PeerId,
}

pub struct VersionView {
    pub counter: u64,
    pub peer: Seq<char>,
}

impl View for Version {
    type V = VersionView;

    open spec fn view(&self) -> VersionView {
        VersionView { counter: self.counter, peer: self.peer_id@ }
    }
}

/// The order on versions: by counter, then by peer id.
pub open spec fn version_lt(a: VersionView, b: VersionView) -> bool {
    a.counter < b.counter || (a.counter == b.counter && str_lt(a.peer, b.peer))
}

pub proof fn lemma_version_order()
    ensures
        forall|x: VersionView| !#[trigger] version_lt(x, x),
        forall|x: VersionView, y: VersionView, z: VersionView|
            #[trigger] version_lt(x, y) && #[trigger] version_lt(y, z) ==> version_lt(x, z),
        forall|x: VersionView, y: VersionView|
            x == y || #[trigger] version_lt(x, y) || version_lt(y, x),
{
    lemma_str_laws();
    assert forall|x: VersionView, y: VersionView| x == y || #[trigger] version_lt(x, y)
        || version_lt(y, x) by {
        if x.counter == y.counter {
            assert(x.peer == y.peer || str_lt(x.peer, y.peer) || str_lt(y.peer, x.peer));
            if x.peer == y.peer {
                assert(x == y);
            }
        }
    }
}

impl Version {
    pub fn new(counter: u64, peer_id: PeerId) -> (r: Self)
        ensures
            r@ == (VersionView { counter, peer: peer_id@ }),
    {
        Version { counter, peer_id }
    }

    pub fn zero(peer_id: PeerId) -> (r: Self)
        ensures
            r@ == (VersionView { counter: 0, peer: peer_id@ }),
    {
        Version { counter: 0, peer_id }
    }

    /// Compares by counter, then by peer id.
    pub fn compare(&self, other: &Version) -> (r: Order)
        ensures
            r == order_by(self@, other@, |x: VersionView, y: VersionView| version_lt(x, y)),
    {
        if self.counter < other.counter {
            Order::Less
        } else if self.counter > other.counter {
            Order::Greater
        } else {
            let r = compare_str(self.peer_id.as_str(), other.peer_id.as_str());
            proof {
                lemma_str_lt_strict_total();
            }
            r
        }
    }

    /// `self` is strictly greater than `other`.
    pub fn greater_than(&self, other: &Version) -> (r: bool)
        ensures
            r == version_lt(other@, self@),
    {
        proof {
            lemma_version_order();
        }
        match self.compare(other) {
            Order::Greater => true,
            _ => false,
        }
    }
}

impl DeepCopy for Version {
    fn deep_copy(&self) -> (r: Self) {
        Version { counter: self.counter, peer_id: self.peer_id.clone() }
    }
}

// ------------------------------------------------------------------ Value

/// SQL value. Ordered: Null < Integer < Text < Blob.
#[derive(Debug, Clone)]
pub enum Value {
    Null,
    Integer(i64),
    Text(String),
    Blob(Vec<u8>),
}

pub enum ValueView {
    Null,
    Integer(i64),
    Text(Seq<char>),
    Blob(Seq<u8>),
}

impl View for Value {
    type V = ValueView;

    open spec fn view(&self) -> ValueView {
        match self {
            Value::Null => ValueView::Null,
            Value::Integer(n) => ValueView::Integer(*n),
            Value::Text(s) => ValueView::Text(s@),
            Value::Blob(b) => ValueView::Blob(b@),
        }
    }
}

impl DeepCopy for Value {
    fn deep_copy(&self) -> (r: Self) {
        match self {
            Value::Null => Value::Null,
            Value::Integer(n) => Value::Integer(*n),
            Value::Text(s) => Value::Text(s.clone()),
            Value::Blob(b) => {
                let c = b.clone();
                assert(c@ =~= b@);
                Value::Blob(c)
            },
        }
    }
}

/// Byte-by-byte equality of two byte vectors.
pub fn bytes_equal(a: &Vec<u8>, b: &Vec<u8>) -> (r: bool)
    ensures
        r == (a@ == b@),
{
    if a.len() != b.len() {
        return false;
    }
    let mut i: usize = 0;
    while i < a.len()
        invariant
            a@.len() == b@.len(),
            i <= a@.len(),
            forall|j: int| 0 <= j < i ==> a@[j] == b@[j],
        decreases a@.len() - i,
    {
        if a[i] != b[i] {
            return false;
        }
        i = i + 1;
    }
    assert(a@ =~= b@);
    true
}

impl PartialEq for Value {
    fn eq(&self, other: &Self) -> (r: bool) {
        match (self, other) {
            (Value::Null, Value::Null) => true,
            (Value::Integer(a), Value::Integer(b)) => *a == *b,
            (Value::Text(a), Value::Text(b)) => {
                proof {
                    lemma_str_lt_strict_total();
                }
                compare_str(a.as_str(), b.as_str()) == Order::Equal
            },
            (Value::Blob(a), Value::Blob(b)) => bytes_equal(a, b),
            _ => false,
        }
    }
}

impl vstd::std_specs::cmp::PartialEqSpecImpl for Value {
    open spec fn obeys_eq_spec() -> bool {
        true
    }

    open spec fn eq_spec(&self, other: &Self) -> bool {
        self@ == other@
    }
}

impl Eq for Value {

}

/// The rank of a value's kind in the value order.
pub open spec fn value_rank(v: ValueView) -> int {
    match v {
        ValueView::Null => 0,
        ValueView::Integer(_) => 1,
        ValueView::Text(_) => 2,
        ValueView::Blob(_) => 3,
    }
}

pub open spec fn byte_lt() -> spec_fn(u8, u8) -> bool {
    |x: u8, y: u8| x < y
}

/// The value order: by kind, then integers numerically, text by string
/// order, blobs by byte-wise lexicographic order.
pub open spec fn value_lt(a: ValueView, b: ValueView) -> bool {
    if value_rank(a) != value_rank(b) {
        value_rank(a) < value_rank(b)
    } else {
        match (a, b) {
            (ValueView::Integer(x), ValueView::Integer(y)) => x < y,
            (ValueView::Text(x), ValueView::Text(y)) => str_lt(x, y),
            (ValueView::Blob(x), ValueView::Blob(y)) => crate::order::lex_lt(x, y, byte_lt()),
            _ => false,
        }
    }
}

pub proof fn lemma_value_order()
    ensures
        crate::order::strict_total(|x: ValueView, y: ValueView| value_lt(x, y)),
{
    lemma_str_lt_strict_total();
    lemma_char_lt_strict_total();
    assert(strict_total(byte_lt()));
    let lt = |x: ValueView, y: ValueView| value_lt(x, y);
    assert forall|x: ValueView| !#[trigger] lt(x, x) by {
        match x {
            ValueView::Text(s) => lemma_lex_irreflexive(s, crate::order::char_lt()),
            ValueView::Blob(s) => lemma_lex_irreflexive(s, byte_lt()),
            _ => {},
        }
    }
    assert forall|x: ValueView, y: ValueView, z: ValueView|
        #[trigger] lt(x, y) && #[trigger] lt(y, z) implies lt(x, z) by {
        match (x, y, z) {
            (ValueView::Text(a), ValueView::Text(b), ValueView::Text(c)) => {
                lemma_lex_transitive(a, b, c, crate::order::char_lt());
            },
            (ValueView::Blob(a), ValueView::Blob(b), ValueView::Blob(c)) => {
                lemma_lex_transitive(a, b, c, byte_lt());
            },
            _ => {},
        }
    }
    assert forall|x: ValueView, y: ValueView| x == y || #[trigger] lt(x, y) || lt(y, x) by {
        match (x, y) {
            (ValueView::Text(a), ValueView::Text(b)) => {
                lemma_lex_total(a, b, crate::order::char_lt());
            },
            (ValueView::Blob(a), ValueView::Blob(b)) => {
                lemma_lex_total(a, b, byte_lt());
            },
            _ => {},
        }
    }
}

/// Compares two byte sequences lexicographically.
pub fn compare_bytes(a: &Vec<u8>, b: &Vec<u8>) -> (r: Order)
    ensures
        r == order_by(a@, b@, |x: Seq<u8>, y: Seq<u8>| crate::order::lex_lt(x, y, byte_lt())),
{
    assert(strict_total(byte_lt()));
    let la = a.len();
    let lb = b.len();
    let mut i: usize = 0;
    while i < la && i < lb
        invariant
            la == a@.len(),
            lb == b@.len(),
            i <= la,
            i <= lb,
            a@.subrange(0, i as int) == b@.subrange(0, i as int),
            strict_total(byte_lt()),
        decreases la - i,
    {
        if a[i] != b[i] {
            proof {
                lemma_lex_common_prefix(a@, b@, i as int, byte_lt());
                lemma_lex_common_prefix(b@, a@, i as int, byte_lt());
                assert(a@ != b@);
            }
            if a[i] < b[i] {
                return Order::Less;
            } else {
                proof {
                    lemma_lex_asymmetric(b@, a@, byte_lt());
                }
                return Order::Greater;
            }
        }
        assert(a@.subrange(0, i + 1) =~= a@.subrange(0, i as int).push(a@[i as int]));
        assert(b@.subrange(0, i + 1) =~= b@.subrange(0, i as int).push(b@[i as int]));
        i = i + 1;
    }
    proof {
        lemma_lex_common_prefix(a@, b@, i as int, byte_lt());
        lemma_lex_common_prefix(b@, a@, i as int, byte_lt());
    }
    if la == lb {
        assert(a@ =~= a@.subrange(0, i as int));
        assert(b@ =~= b@.subrange(0, i as int));
        Order::Equal
    } else if la < lb {
        Order::Less
    } else {
        proof {
            lemma_lex_asymmetric(b@, a@, byte_lt());
        }
        Order::Greater
    }
}

/// How a value reads in messages: `NULL`, the integer in decimal, the text
/// itself, or `<blob N bytes>`.
pub open spec fn value_text(v: ValueView) -> Seq<char> {
    match v {
        ValueView::Null => "NULL"@,
        ValueView::Integer(n) => signed_text(n as int),
        ValueView::Text(s) => s,
        ValueView::Blob(b) => "<blob "@ + decimal_text(b.len()) + " bytes>"@,
    }
}

impl Value {
    /// The value as it reads in messages.
    pub fn to_string(&self) -> (r: String)
        ensures
            r@ == value_text(self@),
    {
        match self {
            Value::Null => String::from_str("NULL"),
            Value::Integer(n) => {
                let mut s = String::new();
                append_signed(&mut s, *n);
                s
            },
            Value::Text(t) => t.clone(),
            Value::Blob(b) => {
                let mut s = String::from_str("<blob ");
                append_decimal(&mut s, b.len() as u64);
                s.append(" bytes>");
                s
            },
        }
    }

    /// Compares two values in the value order.
    pub fn compare(&self, other: &Value) -> (r: Order)
        ensures
            r == order_by(self@, other@, |x: ValueView, y: ValueView| value_lt(x, y)),
    {
        proof {
            lemma_value_order();
            lemma_str_lt_strict_total();
        }
        match (self, other) {
            (Value::Null, Value::Null) => Order::Equal,
            (Value::Null, _) => Order::Less,
            (_, Value::Null) => Order::Greater,
            (Value::Integer(a), Value::Integer(b)) => {
                if *a < *b {
                    Order::Less
                } else if *a == *b {
                    Order::Equal
                } else {
                    Order::Greater
                }
            },
            (Value::Integer(_), _) => Order::Less,
            (_, Value::Integer(_)) => Order::Greater,
            (Value::Text(a), Value::Text(b)) => compare_str(a.as_str(), b.as_str()),
            (Value::Text(_), _) => Order::Less,
            (_, Value::Text(_)) => Order::Greater,
            (Value::Blob(a), Value::Blob(b)) => compare_bytes(a, b),
        }
    }
}

// ------------------------------------------------------------- Cell / Row

/// A single cell: value and the version of the write that set it.
#[derive(Debug, Clone, PartialEq, Eq)]
pub struct Cell {
    pub value: Value,
    pub version: Version,
}

pub struct CellView {
    pub value: ValueView,
    pub version: VersionView,
}

impl View for Cell {
    type V = CellView;

    open spec fn view(&self) -> CellView {
        CellView { value: self.value@, version: self.version@ }
    }
}

impl DeepCopy for Cell {
    fn deep_copy(&self) -> (r: Self) {
        Cell { value: self.value.deep_copy(), version: self.version.deep_copy() }
    }
}

impl Cell {
    pub fn new(value: Value, version: Version) -> (r: Self)
        ensures
            r@ == (CellView { value: value@, version: version@ }),
    {
        Cell { value, version }
    }
}

/// A row with cell-level CRDT state. Deleted rows are kept (tombstoned).
#[derive(Debug, Clone, PartialEq, Eq)]
pub struct Row {
    pub id: RowId,
    pub cells: OrdMap<ColumnId, Cell>,
    pub deleted: bool,
    /// Version of the delete operation (when `deleted`).
    pub delete_version: Option<Version>,
}

pub struct RowView {
    pub id: Seq<char>,
    pub cells: Map<Seq<char>, CellView>,
    pub deleted: bool,
    pub delete_version: Option<VersionView>,
}

pub open spec fn opt_version_view(v: Option<Version>) -> Option<VersionView> {
    match v {
        Some(x) => Some(x@),
        None => None,
    }
}

impl View for Row {
    type V = RowView;

    open spec fn view(&self) -> RowView {
        RowView {
            id: self.id@,
            cells: self.cells@,
            deleted: self.deleted,
            delete_version: opt_version_view(self.delete_version),
        }
    }
}

pub fn copy_opt_version(v: &Option<Version>) -> (r: Option<Version>)
    ensures
        opt_version_view(r) == opt_version_view(*v),
{
    match v {
        Some(x) => Some(x.deep_copy()),
        None => None,
    }
}

impl DeepCopy for Row {
    fn deep_copy(&self) -> (r: Self) {
        Row {
            id: self.id.clone(),
            cells: self.cells.deep_copy(),
            deleted: self.deleted,
            delete_version: copy_opt_version(&self.delete_version),
        }
    }
}

impl Row {
    pub fn new(id: &str) -> (r: Self)
        ensures
            r@ == (RowView {
                id: id@,
                cells: Map::empty(),
                deleted: false,
                delete_version: None,
            }),
    {
        Row {
            id: id.to_owned(),
            cells: OrdMap::new(),
            deleted: false,
            delete_version: None,
        }
    }

    /// The value in column `col`, if the row has that column.
    pub fn get(&self, col: &str) -> (r: Option<&Value>)
        ensures
            match r {
                Some(v) => self@.cells.contains_key(col@) && self@.cells[col@].value == v@,
                None => !self@.cells.contains_key(col@),
            },
    {
        let key = col.to_owned();
        match self.cells.get(&key) {
            Some(c) => Some(&c.value),
            None => None,
        }
    }

    pub fn is_visible(&self) -> (r: bool)
        ensures
            r == !self.deleted,
    {
        !self.deleted
    }
}

// ------------------------------------------------------ Tombstone, claims

/// Tombstone record for a deleted row.
#[derive(Debug, Clone, PartialEq, Eq)]
pub struct Tombstone {
    pub row_id: RowId,
    pub table_id: TableId,
    pub version: Version,
}

pub struct TombstoneView {
    pub row_id: Seq<char>,
    pub table_id: Seq<char>,
    pub version: VersionView,
}

impl View for Tombstone {
    type V = TombstoneView;

    open spec fn view(&self) -> TombstoneView {
        TombstoneView { row_id: self.row_id@, table_id: self.table_id@, version: self.version@ }
    }
}

impl DeepCopy for Tombstone {
    fn deep_copy(&self) -> (r: Self) {
        Tombstone {
            row_id: self.row_id.clone(),
            table_id: self.table_id.clone(),
            version: self.version.deep_copy(),
        }
    }
}

/// A row that lost a uniqueness race, kept so it can be recovered.
#[derive(Debug, Clone, PartialEq, Eq)]
pub struct LooserEntry {
    pub row_id: RowId,
    pub version: Version,
}

pub struct LooserView {
    pub row_id: Seq<char>,
    pub version: VersionView,
}

impl View for LooserEntry {
    type V = LooserView;

    open spec fn view(&self) -> LooserView {
        LooserView { row_id: self.row_id@, version: self.version@ }
    }
}

impl DeepCopy for LooserEntry {
    fn deep_copy(&self) -> (r: Self) {
        LooserEntry { row_id: self.row_id.clone(), version: self.version.deep_copy() }
    }
}

/// One row's ownership of a unique value.
#[derive(Debug, Clone, PartialEq, Eq)]
pub struct UniquenessClaim {
    pub table_id: TableId,
    pub column_id: ColumnId,
    pub value: String,
    pub owner_row: RowId,
    pub version: Version,
    /// Rows that lost the uniqueness race.
    pub losers: Vec<LooserEntry>,
}

pub struct ClaimView {
    pub table_id: Seq<char>,
    pub column_id: Seq<char>,
    pub value: Seq<char>,
    pub owner_row: Seq<char>,
    pub version: VersionView,
    pub losers: Seq<LooserView>,
}

impl View for UniquenessClaim {
    type V = ClaimView;

    open spec fn view(&self) -> ClaimView {
        ClaimView {
            table_id: self.table_id@,
            column_id: self.column_id@,
            value: self.value@,
            owner_row: self.owner_row@,
            version: self.version@,
            losers: self.losers@.map_values(|l: LooserEntry| l@),
        }
    }
}

pub fn copy_losers(v: &Vec<LooserEntry>) -> (r: Vec<LooserEntry>)
    ensures
        r@.map_values(|l: LooserEntry| l@) == v@.map_values(|l: LooserEntry| l@),
{
    let mut out: Vec<LooserEntry> = Vec::new();
    let mut i: usize = 0;
    while i < v.len()
        invariant
            i <= v@.len(),
            out@.len() == i,
            out@.map_values(|l: LooserEntry| l@) == v@.subrange(0, i as int).map_values(
                |l: LooserEntry| l@,
            ),
        decreases v@.len() - i,
    {
        let ghost before = out@;
        out.push(v[i].deep_copy());
        assert(v@.subrange(0, i + 1) =~= v@.subrange(0, i as int).push(v@[i as int]));
        assert(out@.map_values(|l: LooserEntry| l@) =~= v@.subrange(0, i + 1).map_values(
            |l: LooserEntry| l@,
        )) by {
            assert(out@ == before.push(out@[i as int]));
            assert forall|j: int| 0 <= j < i implies out@[j]@ == v@[j]@ by {
                assert(before.map_values(|l: LooserEntry| l@)[j] == v@.subrange(0, i as int).map_values(
                    |l: LooserEntry| l@,
                )[j]);
            }
        }
        i = i + 1;
    }
    assert(v@.subrange(0, v@.len() as int) =~= v@);
    out
}

impl DeepCopy for UniquenessClaim {
    fn deep_copy(&self) -> (r: Self) {
        UniquenessClaim {
            table_id: self.table_id.clone(),
            column_id: self.column_id.clone(),
            value: self.value.clone(),
            owner_row: self.owner_row.clone(),
            version: self.version.deep_copy(),
            losers: copy_losers(&self.losers),
        }
    }
}

// ---------------------------------------------------------------- Schema

/// Schema for a column.
#[derive(Debug, Clone, PartialEq, Eq)]
pub struct ColumnSchema {
    pub name: ColumnId,
    pub data_type: DataType,
    pub nullable: bool,
    pub unique: bool,
    pub primary_key: bool,
    pub default_value: Option<Value>,
}

#[derive(Debug, Clone, Copy, PartialEq, Eq)]
pub enum DataType {
    Text,
    Integer,
    Blob,
}

/// Foreign key reference.
#[derive(Debug, Clone, PartialEq, Eq)]
pub struct ForeignKeyDef {
    pub column: ColumnId,
    pub ref_table: TableId,
    pub ref_column: ColumnId,
    pub on_delete: FkPolicy,
}

/// What happens to a child row when its parent is deleted.
#[derive(Debug, Clone, Copy, PartialEq, Eq)]
pub enum FkPolicy {
    /// Child survives; parent preserved as tombstone.
    Tombstone,
    /// Child cascades with parent deletion.
    Cascade,
    /// Child survives with FK column set to NULL.
    Orphan,
}

/// Secondary index definition.
#[derive(Debug, Clone, PartialEq, Eq)]
pub struct IndexDef {
    pub name: String,
    pub table: TableId,
    pub columns: Vec<ColumnId>,
    pub unique: bool,
}

pub struct IndexDefView {
    pub name: Seq<char>,
    pub table: Seq<char>,
    pub columns: Seq<Seq<char>>,
    pub unique: bool,
}

impl View for IndexDef {
    type V = IndexDefView;

    open spec fn view(&self) -> IndexDefView {
        IndexDefView {
            name: self.name@,
            table: self.table@,
            columns: self.columns@.map_values(|c: String| c@),
            unique: self.unique,
        }
    }
}

/// Copies a vector of strings.
pub fn copy_strings(v: &Vec<String>) -> (r: Vec<String>)
    ensures
        r@ == v@,
{
    let mut out: Vec<String> = Vec::new();
    let mut i: usize = 0;
    while i < v.len()
        invariant
            i <= v@.len(),
            out@ == v@.take(i as int),
        decreases v@.len() - i,
    {
        out.push(v[i].clone());
        assert(v@.take(i + 1) =~= v@.take(i as int).push(v@[i as int]));
        i = i + 1;
    }
    assert(v@.take(v@.len() as int) =~= v@);
    out
}

impl DeepCopy for IndexDef {
    fn deep_copy(&self) -> (r: Self) {
        let r = IndexDef {
            name: self.name.clone(),
            table: self.table.clone(),
            columns: copy_strings(&self.columns),
            unique: self.unique,
        };
        assert(r@.columns =~= self@.columns);
        r
    }
}

/// A uniqueness constraint over several columns together.
#[derive(Debug, Clone, PartialEq, Eq)]
pub struct UniqueConstraintDef {
    pub columns: Vec<ColumnId>,
}

/// Table schema.
#[derive(Debug, Clone, PartialEq, Eq)]
pub struct TableSchema {
    pub name: TableId,
    pub columns: Vec<ColumnSchema>,
    pub foreign_keys: Vec<ForeignKeyDef>,
    pub indexes: Vec<IndexDef>,
    pub unique_constraints: Vec<UniqueConstraintDef>,
}

/// `i` is the first position in `cols` at which `p` holds.
pub open spec fn is_first_where(cols: Seq<ColumnSchema>, p: spec_fn(ColumnSchema) -> bool, i: int) -> bool {
    &&& 0 <= i < cols.len()
    &&& p(cols[i])
    &&& forall|j: int| 0 <= j < i ==> !p(#[trigger] cols[j])
}

impl TableSchema {
    /// The first column marked primary key.
    pub fn primary_key_column(&self) -> (r: Option<&ColumnSchema>)
        ensures
            match r {
                Some(c) => exists|i: int|
                    is_first_where(self.columns@, |c: ColumnSchema| c.primary_key, i)
                        && *c == self.columns@[i],
                None => forall|i: int| 0 <= i < self.columns@.len() ==> !(#[trigger] self.columns@[i]).primary_key,
            },
    {
        let mut i: usize = 0;
        while i < self.columns.len()
            invariant
                i <= self.columns@.len(),
                forall|j: int| 0 <= j < i ==> !(#[trigger] self.columns@[j]).primary_key,
            decreases self.columns@.len() - i,
        {
            if self.columns[i].primary_key {
                assert(is_first_where(self.columns@, |c: ColumnSchema| c.primary_key, i as int));
                return Some(&self.columns[i]);
            }
            i = i + 1;
        }
        None
    }

    /// The columns that are unique but not the primary key, in order.
    pub fn unique_columns(&self) -> (r: Vec<&ColumnSchema>)
        ensures
            r@.map_values(|c: &ColumnSchema| *c) == self.columns@.filter(
                |c: ColumnSchema| c.unique && !c.primary_key,
            ),
    {
        let ghost pred = |c: ColumnSchema| c.unique && !c.primary_key;
        let mut out: Vec<&ColumnSchema> = Vec::new();
        let mut i: usize = 0;
        while i < self.columns.len()
            invariant
                i <= self.columns@.len(),
                pred == (|c: ColumnSchema| c.unique && !c.primary_key),
                out@.map_values(|c: &ColumnSchema| *c) == self.columns@.subrange(
                    0,
                    i as int,
                ).filter(pred),
            decreases self.columns@.len() - i,
        {
            let ghost before = out@;
            if self.columns[i].unique && !self.columns[i].primary_key {
                out.push(&self.columns[i]);
            }
            proof {
                let s = self.columns@.subrange(0, i + 1);
                assert(s.drop_last() =~= self.columns@.subrange(0, i as int));
                reveal(Seq::filter);
                assert(out@.map_values(|c: &ColumnSchema| *c) =~= s.filter(pred));
            }
            i = i + 1;
        }
        assert(self.columns@.subrange(0, self.columns@.len() as int) =~= self.columns@);
        out
    }

    /// The first column with the given name.
    pub fn column(&self, name: &str) -> (r: Option<&ColumnSchema>)
        ensures
            match r {
                Some(c) => exists|i: int|
                    is_first_where(self.columns@, |c: ColumnSchema| c.name@ == name@, i)
                        && *c == self.columns@[i],
                None => forall|i: int| 0 <= i < self.columns@.len() ==> (#[trigger] self.columns@[i]).name@ != name@,
            },
    {
        let mut i: usize = 0;
        while i < self.columns.len()
            invariant
                i <= self.columns@.len(),
                forall|j: int| 0 <= j < i ==> (#[trigger] self.columns@[j]).name@ != name@,
            decreases self.columns@.len() - i,
        {
            if compare_str(self.columns[i].name.as_str(), name) == Order::Equal {
                assert(is_first_where(self.columns@, |c: ColumnSchema| c.name@ == name@, i as int));
                return Some(&self.columns[i]);
            }
            i = i + 1;
        }
        None
    }
}

// ------------------------------------------------------------------ Sync

/// A row of a table, as carried in a sync delta.
#[derive(Debug, Clone)]
pub struct RowDelta {
    pub table_id: TableId,
    pub row: Row,
}

pub struct RowDeltaView {
    pub table_id: Seq<char>,
    pub row: RowView,
}

impl View for RowDelta {
    type V = RowDeltaView;

    open spec fn view(&self) -> RowDeltaView {
        RowDeltaView { table_id: self.table_id@, row: self.row@ }
    }
}

impl DeepCopy for RowDelta {
    fn deep_copy(&self) -> (r: Self) {
        RowDelta { table_id: self.table_id.clone(), row: self.row.deep_copy() }
    }
}

/// The unit of exchange between peers during sync.
#[derive(Debug, Clone)]
pub struct SyncDelta {
    pub source_peer: PeerId,
    pub rows: Vec<RowDelta>,
    pub tombstones: Vec<Tombstone>,
    pub uniqueness_claims: Vec<UniquenessClaim>,
    pub frontier: Frontier,
}

pub struct SyncDeltaView {
    pub source_peer: Seq<char>,
    pub rows: Seq<RowDeltaView>,
    pub tombstones: Seq<TombstoneView>,
    pub claims: Seq<ClaimView>,
    pub frontier: Map<Seq<char>, u64>,
}

impl View for SyncDelta {
    type V = SyncDeltaView;

    open spec fn view(&self) -> SyncDeltaView {
        SyncDeltaView {
            source_peer: self.source_peer@,
            rows: self.rows@.map_values(|r: RowDelta| r@),
            tombstones: self.tombstones@.map_values(|t: Tombstone| t@),
            claims: self.uniqueness_claims@.map_values(|c: UniquenessClaim| c@),
            frontier: self.frontier@,
        }
    }
}

} // verus!
