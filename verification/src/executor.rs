//! The SQL executor handle.
use vstd::prelude::*;

verus! {

pub struct SqlExecutor;

impl SqlExecutor {
    pub fn new() -> (r: Self)
        ensures
            r == SqlExecutor,
    {
        SqlExecutor
    }
}

impl Default for SqlExecutor {
    fn default() -> (r: Self)
        ensures
            r == SqlExecutor,
    {
        Self::new()
    }
}

} // verus!
