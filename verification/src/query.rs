//! Query results: column names and rows of values.
use vstd::prelude::*;
use crate::types::Value;

verus! {

#[derive(Debug)]
pub struct QueryResult {
    pub columns: Vec<String>,
    pub rows: Vec<Vec<Value>>,
}

impl QueryResult {
    /// A result with no columns and no rows.
    pub fn empty() -> (r: Self)
        ensures
            r.columns@.len() == 0,
            r.rows@.len() == 0,
    {
        QueryResult { columns: Vec::new(), rows: Vec::new() }
    }

    pub fn new(columns: Vec<String>, rows: Vec<Vec<Value>>) -> (r: Self)
        ensures
            r.columns == columns,
            r.rows == rows,
    {
        QueryResult { columns, rows }
    }
}

} // verus!
