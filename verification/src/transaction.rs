//! Local transactions: a buffer of row writes, applied together or dropped.
//! Transactions are local; no coordination between peers.
use vstd::prelude::*;
use crate::types::{Row, RowId, RowView, TableId};

verus! {

/// A buffered write.
#[derive(Debug)]
pub enum WriteOp {
    Upsert { table_id: TableId, row: Row },
    Delete { table_id: TableId, row_id: RowId, row: Row },
}

pub enum WriteOpView {
    Upsert { table_id: Seq<char>, row: RowView },
    Delete { table_id: Seq<char>, row_id: Seq<char>, row: RowView },
}

impl View for WriteOp {
    type V = WriteOpView;

    open spec fn view(&self) -> WriteOpView {
        match self {
            WriteOp::Upsert { table_id, row } => WriteOpView::Upsert { table_id: table_id@, row: row@ },
            WriteOp::Delete { table_id, row_id, row } => WriteOpView::Delete {
                table_id: table_id@,
                row_id: row_id@,
                row: row@,
            },
        }
    }
}

/// The views of a sequence of writes.
pub open spec fn ops_view(ops: Seq<WriteOp>) -> Seq<WriteOpView> {
    ops.map_values(|o: WriteOp| o@)
}

/// A local transaction buffer: writes in the order they were made.
#[derive(Debug)]
pub struct Transaction {
    pub ops: Vec<WriteOp>,
    pub committed: bool,
}

impl Transaction {
    pub fn new() -> (r: Self)
        ensures
            r.ops@.len() == 0,
            !r.committed,
    {
        Transaction { ops: Vec::new(), committed: false }
    }

    /// Buffers an upsert of `row` into `table_id`.
    pub fn upsert(&mut self, table_id: TableId, row: Row)
        ensures
            ops_view(final(self).ops@) == ops_view(old(self).ops@).push(
                WriteOpView::Upsert { table_id: table_id@, row: row@ },
            ),
            final(self).committed == old(self).committed,
    {
        let ghost v = WriteOpView::Upsert { table_id: table_id@, row: row@ };
        self.ops.push(WriteOp::Upsert { table_id, row });
        assert(ops_view(self.ops@) =~= ops_view(old(self).ops@).push(v));
    }

    /// Buffers a delete of `row_id` (whose row is `row`) from `table_id`.
    pub fn delete(&mut self, table_id: TableId, row_id: RowId, row: Row)
        ensures
            ops_view(final(self).ops@) == ops_view(old(self).ops@).push(
                WriteOpView::Delete { table_id: table_id@, row_id: row_id@, row: row@ },
            ),
            final(self).committed == old(self).committed,
    {
        let ghost v = WriteOpView::Delete { table_id: table_id@, row_id: row_id@, row: row@ };
        self.ops.push(WriteOp::Delete { table_id, row_id, row });
        assert(ops_view(self.ops@) =~= ops_view(old(self).ops@).push(v));
    }

    /// Drops the buffered writes with the transaction.
    pub fn rollback(self) {
        let mut t = self;
        t.ops.clear();
    }
}

} // verus!
