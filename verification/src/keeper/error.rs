//! Failures of the keeper.

use vstd::prelude::*;

use crate::accountsdb::AccountsDBError;
use crate::ledger::error::LedgerError;
use crate::types::Pubkey;

verus! {

/// Background service that a request is handed to.
#[derive(Clone, Copy, PartialEq, Eq, Structural, Debug)]
pub enum Service {
    /// Writes the ledger.
    LedgerAppender,
    /// Reads the ledger.
    LedgerReader,
}

/// Failures of snapshots.
#[derive(Clone, Copy, PartialEq, Eq, Structural, Debug)]
pub enum SnapshotError {
    /// No snapshot is there, or the one that was restored is not sound.
    Missing,
    /// A snapshot could not be read or written.
    IO,
}

/// Failures while keeper state is opened, sealed, or served.
#[derive(Clone, Copy, Debug)]
pub enum KeeperError {
    /// A file could not be read or written.
    IO,
    /// Account storage failed.
    AccountsDB(AccountsDBError),
    /// A snapshot could not be created, restored, or archived.
    Snapshot(SnapshotError),
    /// The ledger failed.
    Ledger(LedgerError),
    /// A service is gone.
    ServiceUnavailable(Service),
    /// A service was gone before it answered.
    LedgerRequest,
    /// A stream has its one receiver already.
    SubscriptionRegistered(&'static str),
    /// A sysvar that stored state needs is missing.
    MissingSysvar(Pubkey),
}

} // verus!
