//! Finalized shielded state store of a Zcash full node.
//!
//! The store indexes blocks by hash and by height, records the nullifiers and
//! anchors of the three shielded pools, and keeps the note commitment trees and
//! subtree snapshots of each finalized height. Every block is committed through
//! one write batch, which is applied as a whole.
pub mod block;
pub mod block_index;
pub mod column;
pub mod commit;
pub mod config;
pub mod db;
pub mod encoding;
pub mod error;
pub mod service;
pub mod shielded;
