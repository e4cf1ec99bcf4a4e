//! Backfill of history-tree nodes for a finalized-state database.
//!
//! The library rebuilds a per-epoch Merkle Mountain Range ("history
//! accumulator") from already-finalized chain data, persists every node the
//! construction emits under a dense `(upgrade, index)` key space, and can
//! independently verify that the persisted peak nodes reconstruct the same
//! root the incremental construction produced.

pub mod schedule;
pub mod node;
pub mod mmr;
pub mod tree;
pub mod db;
pub mod cancel;
pub mod add_history_nodes;
pub mod laws;
