//! Re-encodes a forest of state deltas so that predecessor chains stay short,
//! while every group keeps exactly the full state it had, and writes the SQL
//! that applies the rewrite to the store.

pub mod compressor;
pub mod config;
pub mod diff;
pub mod forest;
pub mod levels;
pub mod loader;
pub mod sql;
pub mod state_map;
