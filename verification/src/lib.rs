//! Incremental index from host-chain blocks to the blocks of an embedded
//! secondary ledger.
//!
//! The engine walks the host chain's block tree forward from a persisted
//! frontier of already-indexed blocks, decides which newly imported blocks are
//! safe to index (finalized and on the canonical chain), writes the
//! corresponding mapping entries, and advances the frontier one bounded batch
//! of levels at a time.
//!
//! The host chain backend, the secondary ledger's runtime interface, the
//! consensus-log decoder and the persistent store are external collaborators.
//! They appear here at their interface boundary only: [`chain::ChainView`]
//! holds what the backend's queries answer, a [`chain::Header`] carries the
//! decoder's verdict on its embedded log, and [`store::MappingStore`] holds
//! the durable mapping table together with the frontier cursor.

pub mod chain;
pub mod errors;
pub mod model;
pub mod store;
pub mod sync;
