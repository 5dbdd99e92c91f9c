//! A CRDT-replicated relational store: cell-level last-writer-wins merge,
//! delete-wins tombstones, uniqueness claims, frontier-based anti-entropy
//! sync, deterministic secondary indexes and snapshot hashing.
pub mod order;
pub mod ordmap;
pub mod types;
pub mod utils;
pub mod clock;
pub mod merge;
pub mod tombstone;
pub mod error;
pub mod storage;
pub mod uniqueness;
pub mod gc;
pub mod metadata;
pub mod replication;
pub mod sync;
pub mod index;
pub mod hashing;
pub mod transaction;
pub mod query;
pub mod network;
pub mod metrics;
pub mod executor;
pub mod sql;
pub mod sql_parse;
pub mod engine;
pub mod json_values;
pub mod winner;
