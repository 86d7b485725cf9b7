//! Ingestion and analytics core for EVM-style execution traces.
//!
//! The crate reconstructs per-transaction call trees from a flat trace
//! stream, emits derived `Contract` and `Transaction` records for
//! transactions that touch the elliptic-curve precompiles, renders the
//! derived records as SQL insert statements, and decides when a broker
//! offset may be committed. All of that logic is verified; the
//! surrounding I/O (broker, SQL store, cache, HTTP) stays outside.

pub mod checksum;
pub mod config;
pub mod plan;
pub mod registry;
pub mod render;
pub mod sets;
pub mod emit;
pub mod etl;
pub mod frames;
pub mod ids;
pub mod stats;
pub mod text;
pub mod trace;
pub mod worker;
pub mod tree;
