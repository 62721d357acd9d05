//! Structural traversal interface for diagnostic dumps.
//!
//! The engine drives a visitor over its partitions, pages and entries in
//! order. The interface is abstract: nothing is promised about what an
//! implementation does with the callbacks, so the engine proves nothing
//! about them; it only guarantees the driving order by construction.

use vstd::prelude::*;

verus! {

/// Page-level traversal callbacks: page enter, one value per entry in
/// ascending key order, page leave.
pub trait TreeVisiter<K, V> {
    /// Called before a page's entries, with its position and envelope.
    fn visit_page_before(&mut self, index: usize, range_start: &K, range_end: &K);

    /// Called once per entry, in ascending key order.
    fn visit_value(&mut self, key: &K, value: &V);

    /// Called after a page's entries, with its position and envelope.
    fn visit_page_after(&mut self, index: usize, range_start: &K, range_end: &K);
}

/// Partition-level traversal callbacks wrapped around the page-level ones.
pub trait HashTreeVisiter<H, K, V> {
    /// Called before a partition's pages.
    fn visit_hash_before(&mut self, hash: &H);

    /// Called after a partition's pages.
    fn visit_hash_after(&mut self, hash: &H);
}

} // verus!
