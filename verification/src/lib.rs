//! Fork-aware transaction-bundling core for a block-builder service.
//!
//! The library keeps a pool of submitted transactions (deduplicated by
//! content commitment, in submission order), a registry of per-fork
//! builder states that track the chain as it forks and reconverges, and
//! a facade through which callers submit transactions and request
//! bundles for a proposed successor view.  Consensus events arrive over
//! a bounded, lossy event channel and drive the registry.

pub mod types;
pub mod pool;
pub mod state;
pub mod registry;
pub mod service;
pub mod channel;
pub mod laws;
