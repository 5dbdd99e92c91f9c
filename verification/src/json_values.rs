//! SQL values to and from the JSON values of the process protocol:
//! statement parameters arrive as JSON, result cells leave as JSON.
use vstd::prelude::*;
use crate::query::QueryResult;
use crate::types::{Value, ValueView};
use crate::utils::{hex_encode, hex_lower};

verus! {

/// A JSON value as it arrives for a statement parameter: null, a number
/// (with its value when it is an `i64`, and its JSON text), a string, a
/// boolean, or any other value by its JSON text.
pub enum JsonParam {
    Null,
    Number { integer: Option<i64>, text: String },
    Text(String),
    Bool(bool),
    Other(String),
}

/// The SQL value a JSON parameter stands for: an `i64` number as an
/// integer, any other number as its JSON text, a string as text, a boolean
/// as 1 or 0, anything else as its JSON text.
pub open spec fn param_value(j: JsonParam) -> ValueView {
    match j {
        JsonParam::Null => ValueView::Null,
        JsonParam::Number { integer, text } => match integer {
            Some(i) => ValueView::Integer(i),
            None => ValueView::Text(text@),
        },
        JsonParam::Text(s) => ValueView::Text(s@),
        JsonParam::Bool(b) => ValueView::Integer(if b { 1 } else { 0 }),
        JsonParam::Other(t) => ValueView::Text(t@),
    }
}

/// The SQL value for a JSON parameter.
pub fn json_to_value(v: &JsonParam) -> (r: Value)
    ensures
        r@ == param_value(*v),
{
    match v {
        JsonParam::Null => Value::Null,
        JsonParam::Number { integer, text } => match integer {
            Some(i) => Value::Integer(*i),
            None => Value::Text(text.clone()),
        },
        JsonParam::Text(s) => Value::Text(s.clone()),
        JsonParam::Bool(b) => Value::Integer(if *b { 1 } else { 0 }),
        JsonParam::Other(t) => Value::Text(t.clone()),
    }
}

/// A JSON value as a result cell is written: null, a number, or a string.
pub enum JsonCell {
    Null,
    Number(i64),
    Text(String),
}

pub enum JsonCellView {
    Null,
    Number(i64),
    Text(Seq<char>),
}

impl View for JsonCell {
    type V = JsonCellView;

    open spec fn view(&self) -> JsonCellView {
        match self {
            JsonCell::Null => JsonCellView::Null,
            JsonCell::Number(n) => JsonCellView::Number(*n),
            JsonCell::Text(s) => JsonCellView::Text(s@),
        }
    }
}

/// The JSON form of an SQL value: null, the integer as a number, text as a
/// string, a blob as the lower-case hex string of its bytes.
pub open spec fn cell_json(v: ValueView) -> JsonCellView {
    match v {
        ValueView::Null => JsonCellView::Null,
        ValueView::Integer(n) => JsonCellView::Number(n),
        ValueView::Text(s) => JsonCellView::Text(s),
        ValueView::Blob(b) => JsonCellView::Text(hex_lower(b)),
    }
}

/// The JSON form of an SQL value.
pub fn value_to_json(v: &Value) -> (r: JsonCell)
    ensures
        r@ == cell_json(v@),
{
    match v {
        Value::Null => JsonCell::Null,
        Value::Integer(n) => JsonCell::Number(*n),
        Value::Text(s) => JsonCell::Text(s.clone()),
        Value::Blob(b) => JsonCell::Text(hex_encode(b.as_slice())),
    }
}

/// A result row as JSON: each column name with the value at its position,
/// as far as both reach.
pub open spec fn zip_row(cols: Seq<Seq<char>>, row: Seq<ValueView>) -> Seq<(Seq<char>, JsonCellView)> {
    let n = if cols.len() <= row.len() { cols.len() } else { row.len() };
    Seq::new(n, |i: int| (cols[i], cell_json(row[i])))
}

pub open spec fn json_row_view(r: Seq<(String, JsonCell)>) -> Seq<(Seq<char>, JsonCellView)> {
    r.map_values(|p: (String, JsonCell)| (p.0@, p.1@))
}

/// The rows of a query result as JSON, each row its columns paired with its
/// values; nothing when the result has neither columns nor rows.
pub fn result_rows_json(result: &QueryResult) -> (r: Option<Vec<Vec<(String, JsonCell)>>>)
    ensures
        r is None <==> (result.rows@.len() == 0 && result.columns@.len() == 0),
        r matches Some(rows) ==> rows@.len() == result.rows@.len() && forall|i: int|
            0 <= i < rows@.len() ==> json_row_view(#[trigger] rows@[i]@) == zip_row(
                result.columns@.map_values(|c: String| c@),
                result.rows@[i]@.map_values(|v: Value| v@),
            ),
{
    if result.rows.len() == 0 && result.columns.len() == 0 {
        return None;
    }
    let ghost cols = result.columns@.map_values(|c: String| c@);
    let mut out: Vec<Vec<(String, JsonCell)>> = Vec::new();
    let mut i: usize = 0;
    while i < result.rows.len()
        invariant
            i <= result.rows@.len(),
            cols == result.columns@.map_values(|c: String| c@),
            out@.len() == i,
            forall|a: int|
                0 <= a < i ==> json_row_view(#[trigger] out@[a]@) == zip_row(
                    cols,
                    result.rows@[a]@.map_values(|v: Value| v@),
                ),
        decreases result.rows@.len() - i,
    {
        let row = &result.rows[i];
        let ghost rv = row@.map_values(|v: Value| v@);
        let n = if result.columns.len() <= row.len() { result.columns.len() } else { row.len() };
        let mut cells: Vec<(String, JsonCell)> = Vec::new();
        let mut j: usize = 0;
        while j < n
            invariant
                j <= n,
                n <= result.columns@.len(),
                n <= row@.len(),
                n == (if cols.len() <= rv.len() { cols.len() } else { rv.len() }),
                cols == result.columns@.map_values(|c: String| c@),
                rv == row@.map_values(|v: Value| v@),
                cells@.len() == j,
                forall|b: int| 0 <= b < j ==> #[trigger] json_row_view(cells@)[b] == (cols[b], cell_json(rv[b])),
            decreases n - j,
        {
            let c = value_to_json(&row[j]);
            let name = result.columns[j].clone();
            let ghost prev = cells@;
            assert(name@ == cols[j as int]);
            assert(c@ == cell_json(rv[j as int]));
            cells.push((name, c));
            proof {
                assert forall|b: int| 0 <= b < j + 1 implies #[trigger] json_row_view(cells@)[b] == (cols[b], cell_json(rv[b])) by {
                    if b < j {
                        assert(cells@[b] == prev[b]);
                        assert(json_row_view(prev)[b] == (prev[b].0@, prev[b].1@));
                    }
                }
            }
            j = j + 1;
        }
        assert(json_row_view(cells@) =~= zip_row(cols, rv));
        let ghost before = out@;
        out.push(cells);
        proof {
            assert forall|a: int| 0 <= a < i + 1 implies json_row_view(#[trigger] out@[a]@) == zip_row(
                cols,
                result.rows@[a]@.map_values(|v: Value| v@),
            ) by {
                if a < i {
                    assert(out@[a] == before[a]);
                }
            }
        }
        i = i + 1;
    }
    Some(out)
}

} // verus!
