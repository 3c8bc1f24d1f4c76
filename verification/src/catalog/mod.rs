//! Catalog and schema management.

pub mod schema;
pub mod manager;
