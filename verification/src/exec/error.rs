//! Failures of the engine.

use vstd::prelude::*;

use crate::keeper::error::KeeperError;
use crate::ledger::error::LedgerError;
use crate::ledger::outcome::TransactionError;

verus! {

/// Failures while the ledger is replayed.
#[derive(Clone, Copy, PartialEq, Eq, Structural, Debug)]
pub enum ReplayError {
    /// The rebuilt state is not the one that was recorded.
    StateMismatch,
    /// The reader was gone before it answered.
    Request,
    /// The ledger could not be read.
    Ledger(LedgerError),
}

/// Failures of the engine.
#[derive(Clone, Copy, Debug)]
pub enum EngineError {
    /// Durable state failed.
    State(KeeperError),
    /// The ledger could not be replayed.
    Replay(ReplayError),
    /// The engine takes no more work.
    ShuttingDown,
    /// A transaction could not be signed.
    Signature,
    /// A transaction could not be serialized.
    Serde,
    /// A serialized transaction is malformed.
    Sanitization,
    /// Instructions could not be compiled into a transaction.
    TransactionCompile,
    /// A signature is wrong.
    SignatureVerification,
    /// A transaction failed.
    TransactionExecution(TransactionError),
}

} // verus!
