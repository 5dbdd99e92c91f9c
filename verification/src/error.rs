//! Errors of the store.
use vstd::prelude::*;

verus! {

#[derive(Debug, Clone, PartialEq, Eq)]
pub enum CrdtError {
    RowNotFound(String),
    TableNotFound(String),
    ColumnNotFound(String),
    UniquenessViolation { column: String, value: String, owner: String },
    ForeignKeyViolation { table: String, row: String },
    PrimaryKeyViolation(String, String),
    NotNullViolation(String),
    SchemaError(String),
    ParseError(String),
    SerializationError(String),
    StorageError(String),
    SyncError(String),
    Internal(String),
}

pub type CrdtResult<T> = Result<T, CrdtError>;

/// The message of an error.
pub open spec fn error_text(e: CrdtError) -> Seq<char> {
    match e {
        CrdtError::RowNotFound(x) => "row not found: "@ + x@,
        CrdtError::TableNotFound(x) => "table not found: "@ + x@,
        CrdtError::ColumnNotFound(x) => "column not found: "@ + x@,
        CrdtError::UniquenessViolation { column, value, owner } => "uniqueness violation: column "@
            + column@ + " value "@ + value@ + " already claimed by row "@ + owner@,
        CrdtError::ForeignKeyViolation { table, row } => "foreign key violation: referenced row "@
            + row@ + " in table "@ + table@ + " does not exist"@,
        CrdtError::PrimaryKeyViolation(row, table) => "primary key violation: row '"@ + row@
            + "' already exists in table '"@ + table@ + "'"@,
        CrdtError::NotNullViolation(x) => "not null violation: column '"@ + x@ + "' cannot be NULL"@,
        CrdtError::SchemaError(x) => "schema error: "@ + x@,
        CrdtError::ParseError(x) => "parse error: "@ + x@,
        CrdtError::SerializationError(x) => "serialization error: "@ + x@,
        CrdtError::StorageError(x) => "storage error: "@ + x@,
        CrdtError::SyncError(x) => "sync error: "@ + x@,
        CrdtError::Internal(x) => "internal error: "@ + x@,
    }
}

impl CrdtError {
    /// The error's message, as its `Display` form would render it.
    pub fn message(&self) -> (r: String)
        ensures
            r@ == error_text(*self),
    {
        let mut s = String::new();
        match self {
            CrdtError::RowNotFound(x) => {
                s.append("row not found: ");
                s.append(x.as_str());
            },
            CrdtError::TableNotFound(x) => {
                s.append("table not found: ");
                s.append(x.as_str());
            },
            CrdtError::ColumnNotFound(x) => {
                s.append("column not found: ");
                s.append(x.as_str());
            },
            CrdtError::UniquenessViolation { column, value, owner } => {
                s.append("uniqueness violation: column ");
                s.append(column.as_str());
                s.append(" value ");
                s.append(value.as_str());
                s.append(" already claimed by row ");
                s.append(owner.as_str());
            },
            CrdtError::ForeignKeyViolation { table, row } => {
                s.append("foreign key violation: referenced row ");
                s.append(row.as_str());
                s.append(" in table ");
                s.append(table.as_str());
                s.append(" does not exist");
            },
            CrdtError::PrimaryKeyViolation(row, table) => {
                s.append("primary key violation: row '");
                s.append(row.as_str());
                s.append("' already exists in table '");
                s.append(table.as_str());
                s.append("'");
            },
            CrdtError::NotNullViolation(x) => {
                s.append("not null violation: column '");
                s.append(x.as_str());
                s.append("' cannot be NULL");
            },
            CrdtError::SchemaError(x) => {
                s.append("schema error: ");
                s.append(x.as_str());
            },
            CrdtError::ParseError(x) => {
                s.append("parse error: ");
                s.append(x.as_str());
            },
            CrdtError::SerializationError(x) => {
                s.append("serialization error: ");
                s.append(x.as_str());
            },
            CrdtError::StorageError(x) => {
                s.append("storage error: ");
                s.append(x.as_str());
            },
            CrdtError::SyncError(x) => {
                s.append("sync error: ");
                s.append(x.as_str());
            },
            CrdtError::Internal(x) => {
                s.append("internal error: ");
                s.append(x.as_str());
            },
        }
        s
    }
}

} // verus!
