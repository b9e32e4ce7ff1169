//! Failures surfaced by the synchronization engine.
//!
//! Every failure of a step, of the bootstrap or of a batch is terminal for
//! that call: nothing is retried internally and no error state is kept
//! between calls.

use vstd::prelude::*;

verus! {

/// Failure of the consensus-log decoder on one header.
#[derive(Clone, Copy, PartialEq, Eq, Structural, Debug)]
pub enum DecodeError {
    /// The header carries no recognizable consensus log.
    MissingLog,
    /// A consensus log is present but cannot be decoded.
    MalformedLog,
}

/// Failure of one invocation of the engine.
#[derive(Clone, Copy, PartialEq, Eq, Structural, Debug)]
pub enum SyncError {
    /// The selected block's consensus log could not be decoded.
    Decode(DecodeError),
    /// A header needed by the step could not be found.
    HeaderNotFound,
    /// The chain reports no usable last-finalized block.
    FinalizedBlockUnknown,
    /// The selected child's block number could not be found.
    BlockNumberUnknown,
    /// The runtime interface reports no secondary-ledger genesis block.
    SecondaryGenesisNotFound,
}

} // verus!
