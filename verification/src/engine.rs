//! Figures that describe an open database.
use vstd::prelude::*;

verus! {

/// Database statistics
#[derive(Debug, Clone)]
pub struct DatabaseStats {
    /// Total number of pages
    pub page_count: u32,
    /// Page size in bytes
    pub page_size: usize,
    /// Root page ID
    pub root_page_id: u32,
    /// WAL frame count
    pub wal_frames: u32,
    /// In transaction?
    pub in_transaction: bool,
}

} // verus!
