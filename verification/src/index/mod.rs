//! Secondary indexes: index keys built from column values, and the map
//! from keys to row ids.

pub mod index_btree;
pub mod manager;

