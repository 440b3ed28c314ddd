//! Verified transaction pool, ordering policies and block-selection logic of a local
//! Starknet development node.

pub mod felt;
pub mod entry;
pub mod index_map;
pub mod config;
pub mod comparator;
pub mod error;
pub mod splitmix;
pub mod mempool;
pub mod ordering;
pub mod block_builder;
pub mod block_cache;
pub mod json;
pub mod origin;
pub mod ui;
