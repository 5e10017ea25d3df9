//! Opening account storage, and restoring it from a snapshot if it is not sound.
//!
//! The caller opens files, moves directories, and unpacks archives; what is to be done next is
//! decided here.

use vstd::prelude::*;

use crate::accountsdb::AccountsDBError;
use crate::keeper::error::{KeeperError, SnapshotError};

verus! {

/// What was found when account storage was opened.
#[derive(Clone, Copy, Debug)]
pub struct Opened {
    /// Last superblock that it was sealed at.
    pub superblock: u64,
    /// Transactions that it counts.
    pub transactions: u64,
    /// Whether it is sound.
    pub validation: Result<(), AccountsDBError>,
}

/// What the ledger says at the same time.
#[derive(Clone, Copy, Debug, PartialEq, Eq, Structural)]
pub struct LedgerPosition {
    /// Active superblock.
    pub head: u64,
    /// Transactions that it counts.
    pub transactions: u64,
}

/// How far recovery has come.
#[derive(Clone, Copy, Debug, PartialEq, Eq, Structural)]
pub enum Recovery {
    /// Storage is used as it was left.
    Original,
    /// A snapshot was restored, and what was there before is kept aside.
    Restored,
}

/// What is to be done next.
#[derive(Clone, Copy, Debug)]
pub enum RecoveryAction {
    /// Reclaim free space and use the storage; drop what was kept aside, if anything was.
    Accept {
        /// Whether something was kept aside.
        drop_backup: bool,
    },
    /// Keep the storage aside, unpack the newest snapshot, and open it.
    Restore,
    /// Put back what was kept aside, and fail.
    Revert(KeeperError),
    /// Fail.
    Fail(KeeperError),
}

/// The storage is behind the last sealed superblock of the ledger.
pub open spec fn lags(opened: Opened, ledger: LedgerPosition) -> bool {
    opened.superblock < ledger.head - 1
}

/// The storage counts fewer transactions than the ledger.
pub open spec fn count_lags(opened: Opened, ledger: LedgerPosition) -> bool {
    opened.transactions < ledger.transactions
}

impl Recovery {
    /// What is to be done with storage that was opened. Storage as it was left is used only if
    /// it is sound and not behind the ledger. A snapshot may be behind: it is used if it is
    /// sound, and the ledger is replayed on top of it.
    pub fn judge(self, opened: Opened, ledger: LedgerPosition) -> (action: RecoveryAction)
        ensures
            match opened.validation {
                Ok(()) => match self {
                    Recovery::Restored => action == (RecoveryAction::Accept { drop_backup: true }),
                    Recovery::Original => if lags(opened, ledger) || count_lags(opened, ledger) {
                        action == RecoveryAction::Restore
                    } else {
                        action == (RecoveryAction::Accept { drop_backup: false })
                    },
                },
                Err(AccountsDBError::Corruption) => match self {
                    Recovery::Restored => action == RecoveryAction::Revert(
                        KeeperError::Snapshot(SnapshotError::Missing),
                    ),
                    Recovery::Original => action == RecoveryAction::Restore,
                },
                Err(error) => action == RecoveryAction::Fail(KeeperError::AccountsDB(error)),
            },
    {
        let expected: u64 = ledger.head.saturating_sub(1);
        let restored = self == Recovery::Restored;
        let lagging = opened.superblock < expected;
        let count_lagging = opened.transactions < ledger.transactions;
        match opened.validation {
            Ok(()) => if restored || (!lagging && !count_lagging) {
                RecoveryAction::Accept { drop_backup: restored }
            } else {
                RecoveryAction::Restore
            },
            Err(AccountsDBError::Corruption) => if restored {
                RecoveryAction::Revert(KeeperError::Snapshot(SnapshotError::Missing))
            } else {
                RecoveryAction::Restore
            },
            Err(error) => RecoveryAction::Fail(KeeperError::AccountsDB(error)),
        }
    }

    /// What is to be done once the newest snapshot was unpacked, or could not be.
    pub fn unarchived(self, result: Result<(), KeeperError>) -> (next: Result<
        Recovery,
        RecoveryAction,
    >)
        ensures
            match result {
                Ok(()) => next == Ok::<Recovery, RecoveryAction>(Recovery::Restored),
                Err(error) => next == Err::<Recovery, RecoveryAction>(
                    RecoveryAction::Revert(error),
                ),
            },
    {
        match result {
            Ok(()) => Ok(Recovery::Restored),
            Err(error) => Err(RecoveryAction::Revert(error)),
        }
    }
}

/// The newest superblock that has a snapshot.
pub open spec fn is_newest_archived(archived: Seq<bool>, at: int) -> bool {
    &&& 0 <= at < archived.len()
    &&& archived[at]
    &&& forall|i: int| at < i < archived.len() ==> !(#[trigger] archived[i])
}

/// Finds the newest superblock that has a snapshot, given which of them have one, oldest first.
pub fn newest_snapshot(archived: &Vec<bool>) -> (result: Result<usize, KeeperError>)
    ensures
        match result {
            Ok(at) => is_newest_archived(archived@, at as int),
            Err(error) => error == KeeperError::Snapshot(SnapshotError::Missing) && forall|i: int|
                0 <= i < archived@.len() ==> !(#[trigger] archived@[i]),
        },
{
    let mut i: usize = archived.len();
    while i > 0
        invariant
            i <= archived@.len(),
            forall|k: int| i <= k < archived@.len() ==> !(#[trigger] archived@[k]),
        decreases i,
    {
        i -= 1;
        if archived[i] {
            return Ok(i);
        }
    }
    Err(KeeperError::Snapshot(SnapshotError::Missing))
}

/// How recovery goes, given what is found when storage is opened as it was left, whether a
/// snapshot could be unpacked, and what is found when that is opened.
pub open spec fn recovery_end(
    first: Opened,
    unpacked: Result<(), KeeperError>,
    second: Opened,
    ledger: LedgerPosition,
) -> RecoveryAction {
    match first.validation {
        Ok(()) => if !lags(first, ledger) && !count_lags(first, ledger) {
            RecoveryAction::Accept { drop_backup: false }
        } else {
            restored_end(unpacked, second)
        },
        Err(AccountsDBError::Corruption) => restored_end(unpacked, second),
        Err(error) => RecoveryAction::Fail(KeeperError::AccountsDB(error)),
    }
}

/// How recovery goes on from a snapshot.
pub open spec fn restored_end(unpacked: Result<(), KeeperError>, second: Opened) -> RecoveryAction {
    match unpacked {
        Err(error) => RecoveryAction::Revert(error),
        Ok(()) => match second.validation {
            Ok(()) => RecoveryAction::Accept { drop_backup: true },
            Err(AccountsDBError::Corruption) => RecoveryAction::Revert(
                KeeperError::Snapshot(SnapshotError::Missing),
            ),
            Err(error) => RecoveryAction::Fail(KeeperError::AccountsDB(error)),
        },
    }
}

/// Recovers account storage: storage is opened at most twice, and the second time from a
/// snapshot.
pub fn recover(
    first: Opened,
    unpacked: Result<(), KeeperError>,
    second: Opened,
    ledger: LedgerPosition,
) -> (action: RecoveryAction)
    ensures
        action == recovery_end(first, unpacked, second, ledger),
{
    match Recovery::Original.judge(first, ledger) {
        RecoveryAction::Restore => match Recovery::Original.unarchived(unpacked) {
            Ok(state) => state.judge(second, ledger),
            Err(action) => action,
        },
        action => action,
    }
}

/// Storage that is used is sound, and if nothing was restored it is not behind the ledger.
pub proof fn accepted_storage_is_sound(
    first: Opened,
    unpacked: Result<(), KeeperError>,
    second: Opened,
    ledger: LedgerPosition,
)
    ensures
        recovery_end(first, unpacked, second, ledger) matches RecoveryAction::Accept { drop_backup }
            ==> if drop_backup {
            second.validation is Ok && unpacked is Ok
        } else {
            first.validation is Ok && !lags(first, ledger) && !count_lags(first, ledger)
        },
{
}

/// What was kept aside is dropped only once the snapshot was found sound, and put back
/// otherwise.
pub proof fn backups_survive_failure(
    first: Opened,
    unpacked: Result<(), KeeperError>,
    second: Opened,
    ledger: LedgerPosition,
)
    requires
        first.validation is Ok ==> lags(first, ledger) || count_lags(first, ledger),
        first.validation matches Err(error) ==> error == AccountsDBError::Corruption,
        unpacked is Err || second.validation == Err::<(), AccountsDBError>(
            AccountsDBError::Corruption,
        ),
    ensures
        recovery_end(first, unpacked, second, ledger) is Revert,
{
}

/// Sound storage that is sealed at the superblock before the active one, or later, and counts as
/// many transactions as the ledger, or more, is used as it was left, and no snapshot is touched.
pub proof fn sound_storage_is_kept(
    first: Opened,
    unpacked: Result<(), KeeperError>,
    second: Opened,
    ledger: LedgerPosition,
)
    requires
        first.validation is Ok,
        first.superblock + 1 >= ledger.head,
        first.transactions >= ledger.transactions,
    ensures
        recovery_end(first, unpacked, second, ledger) == (RecoveryAction::Accept {
            drop_backup: false,
        }),
{
}

/// Storage that is corrupt, or sound but behind the ledger, is replaced by the newest snapshot if
/// that is sound.
pub proof fn lost_storage_is_restored(
    first: Opened,
    second: Opened,
    ledger: LedgerPosition,
)
    requires
        first.validation == Err::<(), AccountsDBError>(AccountsDBError::Corruption) || (
        first.validation is Ok && (first.superblock + 1 < ledger.head || first.transactions
            < ledger.transactions)),
        second.validation is Ok,
    ensures
        recovery_end(first, Ok(()), second, ledger) == (RecoveryAction::Accept {
            drop_backup: true,
        }),
{
}

/// What storage says of itself other than that it is corrupt ends recovery, and is what the
/// caller is told.
pub proof fn other_failures_are_reported(
    first: Opened,
    unpacked: Result<(), KeeperError>,
    second: Opened,
    ledger: LedgerPosition,
)
    requires
        first.validation is Err,
        first.validation->Err_0 != AccountsDBError::Corruption,
    ensures
        recovery_end(first, unpacked, second, ledger) == RecoveryAction::Fail(
            KeeperError::AccountsDB(first.validation->Err_0),
        ),
{
}

/// The reason why a snapshot could not be unpacked is what the caller is told, and what was kept
/// aside is put back.
pub proof fn missing_snapshots_are_reported(
    first: Opened,
    error: KeeperError,
    second: Opened,
    ledger: LedgerPosition,
)
    requires
        first.validation == Err::<(), AccountsDBError>(AccountsDBError::Corruption) || (
        first.validation is Ok && (first.superblock + 1 < ledger.head || first.transactions
            < ledger.transactions)),
    ensures
        recovery_end(first, Err(error), second, ledger) == RecoveryAction::Revert(error),
{
}

} // verus!
