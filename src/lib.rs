//! A verified entity-component-system core: a columnar component store with hash
//! row indexes, queries that resolve an access set into row lists aligned by entity,
//! a dependency scheduler that orders systems and rejects cycles and access races,
//! and a planner that splits matched rows into batches for workers.

pub mod error;
pub mod store;
pub mod schedule;
pub mod dispatch;
pub mod access;
pub mod commands;
