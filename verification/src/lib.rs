//! Temporal record management for dynamically created data sources.
//!
//! A subgraph may spawn new data sources while processing chain data. Each
//! such data source is recorded with a validity interval over block numbers
//! and a causality region that separates on-chain from off-chain data
//! sources. This crate holds the verified core: the table model, the five
//! operations (`load`, `insert`, `revert`, `copy_to`, `remove_offchain`)
//! and the schema text, together with proofs of the ordering, liveness,
//! revert, causality and migration properties they maintain.

pub mod invariants;
pub mod laws;
pub mod model;
pub mod range;
pub mod seq_facts;
pub mod sort;
pub mod table;

pub use range::BlockRange;
pub use table::{DataSourcesTable, StoreError, StoredDynamicDataSource};
