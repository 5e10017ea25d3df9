//! Replaying the ledger on top of account storage that is behind it.

use std::collections::VecDeque;

use vstd::prelude::*;

use crate::accountsdb::db::AccountsDB;
use crate::accountsdb::storage::DatabaseMeta;
use crate::accountsdb::store::StoreState;
use crate::exec::error::{EngineError, ReplayError};
use crate::exec::transaction::{compose, composed};
use crate::keeper::accessor::Keeper;
use crate::keeper::error::KeeperError;
use crate::ledger::error::LedgerError;
use crate::ledger::reader::{entry_list, is_tip, read_replay, Ledger};
use crate::ledger::schema::{BlockstoreEntry, EntryView};
use crate::types::{Block, Slot, SuperblockSeal};
use crate::view::TransactionView;

verus! {

/// What is to be done with a replayed entry.
#[derive(Debug)]
pub enum ReplayAction {
    /// Execute the transaction, and commit it without appending it again.
    Schedule(TransactionView),
    /// End the block without appending it again.
    Block(Block),
    /// Nothing.
    Done,
}

/// Account storage with the last sealed superblock and its checksum recorded.
pub open spec fn sealed_state(state: StoreState, superblock: u64) -> StoreState {
    let marked = StoreState { meta: DatabaseMeta { superblock, ..state.meta }, ..state };
    StoreState { meta: DatabaseMeta { checksum: marked.checksum(), ..marked.meta }, ..marked }
}

/// The seal of account storage.
pub open spec fn seal_of(state: StoreState) -> SuperblockSeal {
    SuperblockSeal {
        id: state.meta.superblock,
        checksum: state.meta.checksum,
        transactions: state.meta.transactions,
    }
}

/// What replaying an entry leads to. A seal has to match the rebuilt state in number, checksum,
/// and transactions; one that does not leaves the last sealed superblock as it was. A
/// checkpoint has to match the checksum.
pub open spec fn replayed(
    before: Keeper,
    entry: EntryView,
    after: Keeper,
    result: Result<ReplayAction, EngineError>,
) -> bool {
    let state = before.accountsdb.persisted.state();
    match entry {
        EntryView::Transaction(bytes) => {
            &&& after == before
            &&& match composed(bytes, before.authority) {
                Ok(view) => result matches Ok(ReplayAction::Schedule(scheduled)) && scheduled@
                    == view,
                Err(error) => result == Err::<ReplayAction, EngineError>(error),
            }
        },
        EntryView::Block(block) => after == before && result == Ok::<ReplayAction, EngineError>(
            ReplayAction::Block(block),
        ),
        EntryView::Superblock(expected) => {
            let sealed = sealed_state(state, expected.id);
            &&& after.same_beside_accounts(before)
            &&& after.accountsdb.volatile == before.accountsdb.volatile
            &&& if seal_of(sealed) == expected {
                result == Ok::<ReplayAction, EngineError>(ReplayAction::Done)
                    && after.accountsdb.persisted.state() == sealed
            } else {
                result == Err::<ReplayAction, EngineError>(
                    EngineError::Replay(ReplayError::StateMismatch),
                ) && after.accountsdb.persisted.state() == sealed_state(
                    sealed,
                    state.meta.superblock,
                )
            }
        },
        EntryView::Reset(_) => {
            &&& after.same_beside_accounts(before)
            &&& match result {
                Ok(action) => action == ReplayAction::Done && before.resets(
                    after.accountsdb,
                    Ok(()),
                ),
                Err(EngineError::State(KeeperError::AccountsDB(error))) => before.resets(
                    after.accountsdb,
                    Err(error),
                ),
                Err(_) => false,
            }
        },
        EntryView::Checkpoint(expected) => {
            &&& after == before
            &&& result == if state.checksum() == expected {
                Ok::<ReplayAction, EngineError>(ReplayAction::Done)
            } else {
                Err(EngineError::Replay(ReplayError::StateMismatch))
            }
        },
    }
}

/// Replays one entry of the ledger. Execution has to be held while this runs, unless the entry
/// is a transaction or a block.
pub fn replay(keeper: &mut Keeper, entry: BlockstoreEntry) -> (result: Result<
    ReplayAction,
    EngineError,
>)
    requires
        old(keeper).wf(),
    ensures
        final(keeper).wf(),
        replayed(*old(keeper), entry@, *final(keeper), result),
{
    match entry {
        BlockstoreEntry::Transaction(bytes) => match compose(bytes.as_slice(), &keeper.authority) {
            Ok(view) => Ok(ReplayAction::Schedule(view)),
            Err(error) => Err(error),
        },
        BlockstoreEntry::Block(block) => Ok(ReplayAction::Block(block)),
        BlockstoreEntry::Superblock(expected) => {
            let previous: u64 = keeper.superblocks().sealed().id;
            keeper.accountsdb.set_superblock(expected.id);
            keeper.sync();
            let observed = keeper.superblocks().sealed();
            assert(keeper.accountsdb.persisted.meta == keeper.accountsdb.persisted.state().meta);
            if observed != expected {
                keeper.accountsdb.set_superblock(previous);
                keeper.sync();
                return Err(EngineError::Replay(ReplayError::StateMismatch));
            }
            Ok(ReplayAction::Done)
        },
        BlockstoreEntry::Reset(_) => match keeper.apply_reset() {
            Ok(unit) => {
                assert(unit == ());
                Ok(ReplayAction::Done)
            },
            Err(error) => Err(EngineError::State(KeeperError::AccountsDB(error))),
        },
        BlockstoreEntry::Checkpoint(expected) => {
            let observed: u64 = keeper.accountsdb.compute_checksum();
            if observed != expected {
                return Err(EngineError::Replay(ReplayError::StateMismatch));
            }
            Ok(ReplayAction::Done)
        },
    }
}

/// Whether the replayed ledger led to the state that it describes: account storage and the
/// ledger have to count the same transactions.
pub fn replay_complete(keeper: &Keeper, transactions: u64) -> (result: Result<(), EngineError>)
    ensures
        match result {
            Ok(_) => keeper.accountsdb.persisted.meta.transactions == transactions,
            Err(error) => keeper.accountsdb.persisted.meta.transactions != transactions && error
                == EngineError::Replay(ReplayError::StateMismatch),
        },
{
    if keeper.accountsdb.transactions() != transactions {
        return Err(EngineError::Replay(ReplayError::StateMismatch));
    }
    Ok(())
}

/// What is left to be replayed.
pub struct Replayer {
    /// Entries behind the last sealed superblock that were not replayed yet.
    pub entries: VecDeque<BlockstoreEntry>,
    /// Whether all entries could be read.
    pub read: Result<(), LedgerError>,
    /// Transactions that the ledger counts.
    pub transactions: u64,
}

/// What becomes of one step of a replay. As long as there are entries, each is replayed in turn.
/// Once there are none, the replay fails if the ledger could not be read to its end; else
/// account storage is flushed, and it has to count the transactions that the ledger counts.
pub open spec fn steps(
    before: Keeper,
    replayer: Replayer,
    after: Keeper,
    result: Result<Option<ReplayAction>, EngineError>,
) -> bool {
    if replayer.entries@.len() > 0 {
        match result {
            Ok(Some(action)) => replayed(before, replayer.entries@.first()@, after, Ok(action)),
            Ok(None) => false,
            Err(error) => replayed(before, replayer.entries@.first()@, after, Err(error)),
        }
    } else {
        match replayer.read {
            Err(error) => after == before && result == Err::<Option<ReplayAction>, EngineError>(
                EngineError::Replay(ReplayError::Ledger(error)),
            ),
            Ok(_) => {
                let state = before.accountsdb.persisted.state();
                &&& after.same_beside_accounts(before)
                &&& after.accountsdb.volatile == before.accountsdb.volatile
                &&& after.accountsdb.persisted.state() == (StoreState {
                    meta: DatabaseMeta { checksum: state.checksum(), ..state.meta },
                    ..state
                })
                &&& result == if state.meta.transactions == replayer.transactions {
                    Ok::<Option<ReplayAction>, EngineError>(None)
                } else {
                    Err(EngineError::Replay(ReplayError::StateMismatch))
                }
            },
        }
    }
}

impl Replayer {
    /// Begins a replay of what the ledger holds behind the last sealed superblock, unless
    /// account storage is at the last slot of the ledger.
    pub fn start(keeper: &Keeper, ledger: &Ledger) -> (replayer: Option<Replayer>)
        requires
            ledger.wf(),
        ensures
            exists|tip: Slot|
                {
                    &&& #[trigger] is_tip(ledger@.superblocks, ledger@.oldest(), tip)
                    &&& match replayer {
                        Some(r) => {
                            &&& keeper.accountsdb.persisted.meta.slot < tip
                            &&& r.transactions == ledger@.meta.transactions
                            &&& (entry_list(r.entries@), r.read) == read_replay(
                                ledger@.superblocks,
                                keeper.accountsdb.persisted.meta.superblock,
                                Seq::empty(),
                            )
                        },
                        None => keeper.accountsdb.persisted.meta.slot >= tip,
                    }
                },
    {
        let after = match keeper.replay(ledger.tip()) {
            Some(after) => after,
            None => {
                return None;
            },
        };
        let (list, read) = ledger.replay(after);
        let ghost given = list@;
        let mut entries: VecDeque<BlockstoreEntry> = VecDeque::new();
        assert(entries@ =~= given.take(0));
        for entry in it: list
            invariant
                it.seq() == given,
                entries@ == given.take(it.index() as int),
        {
            let ghost n = it.index() as int;
            entries.push_back(entry);
            assert(entries@ =~= given.take(n + 1));
        }
        assert(entries@ =~= given);
        Some(Replayer { entries, read, transactions: ledger.transactions() })
    }

    /// Replays the next entry, or ends the replay if there is none: `None` says that account
    /// storage has caught up.
    pub fn step(&mut self, keeper: &mut Keeper) -> (result: Result<
        Option<ReplayAction>,
        EngineError,
    >)
        requires
            old(keeper).wf(),
        ensures
            final(keeper).wf(),
            steps(*old(keeper), *old(self), *final(keeper), result),
            final(self).read == old(self).read,
            final(self).transactions == old(self).transactions,
            final(self).entries@ == if old(self).entries@.len() > 0 {
                old(self).entries@.skip(1)
            } else {
                old(self).entries@
            },
    {
        match self.entries.pop_front() {
            Some(entry) => {
                assert(self.entries@ =~= old(self).entries@.skip(1));
                match replay(keeper, entry) {
                    Ok(action) => Ok(Some(action)),
                    Err(error) => Err(error),
                }
            },
            None => {
                match self.read {
                    Ok(_) => {},
                    Err(error) => {
                        return Err(EngineError::Replay(ReplayError::Ledger(error)));
                    },
                }
                keeper.sync();
                match replay_complete(keeper, self.transactions) {
                    Ok(_) => Ok(None),
                    Err(error) => Err(error),
                }
            },
        }
    }
}

/// Replaying the seal of a superblock on the state that it was taken of succeeds.
pub proof fn own_seal_is_replayed(state: StoreState, superblock: u64)
    ensures
        ({
            let sealed = sealed_state(state, superblock);
            seal_of(sealed_state(sealed, superblock)) == seal_of(sealed)
        }),
{
    let sealed = sealed_state(state, superblock);
    let again = StoreState { meta: DatabaseMeta { superblock, ..sealed.meta }, ..sealed };
    assert(again == sealed);
    let marked = StoreState { meta: DatabaseMeta { superblock, ..state.meta }, ..state };
    crate::accountsdb::checksum::checksum_ignores_layout(marked, sealed);
}

/// A replayed seal is accepted exactly if account storage, taken as sealed at its superblock, has
/// its checksum and counts its transactions; it counts as sealed there from then on. Otherwise the replay fails, and
/// the last sealed superblock is what it was. Either way every account is read as before.
pub proof fn seals_are_verified(
    before: Keeper,
    expected: SuperblockSeal,
    after: Keeper,
    result: Result<ReplayAction, EngineError>,
    key: Seq<u8>,
)
    requires
        before.wf(),
        replayed(before, EntryView::Superblock(expected), after, result),
    ensures
        ({
            let state = before.accountsdb.persisted.state();
            let there = StoreState {
                meta: DatabaseMeta { superblock: expected.id, ..state.meta },
                ..state
            };
            let matches = there.checksum() == expected.checksum && state.meta.transactions
                == expected.transactions;
            &&& result is Ok == matches
            &&& matches ==> result == Ok::<ReplayAction, EngineError>(ReplayAction::Done)
                && after.accountsdb.persisted.meta.superblock == expected.id
                && after.accountsdb.persisted.meta.checksum == expected.checksum
            &&& !matches ==> result == Err::<ReplayAction, EngineError>(
                EngineError::Replay(ReplayError::StateMismatch),
            ) && after.accountsdb.persisted.meta.superblock == state.meta.superblock
            &&& after.accountsdb.persisted.meta.transactions == state.meta.transactions
            &&& after.accountsdb.persisted.meta.slot == state.meta.slot
            &&& after.accountsdb.lookup(key) == before.accountsdb.lookup(key)
        }),
{
    let state = before.accountsdb.persisted.state();
    assert(after.accountsdb.persisted.state().accounts() =~= state.accounts());
}

/// A replayed checkpoint is accepted exactly if account storage has its checksum, and changes
/// nothing.
pub proof fn checkpoints_are_verified(
    before: Keeper,
    expected: u64,
    after: Keeper,
    result: Result<ReplayAction, EngineError>,
)
    requires
        replayed(before, EntryView::Checkpoint(expected), after, result),
    ensures
        after == before,
        result is Ok == (before.accountsdb.persisted.state().checksum() == expected),
        result matches Err(error) ==> error == EngineError::Replay(ReplayError::StateMismatch),
{
}

/// A replayed transaction is executed as it was recorded, without its signatures being verified
/// again, and a replayed block ends as it was recorded. Neither changes anything yet.
pub proof fn recorded_work_is_done_again(
    before: Keeper,
    entry: EntryView,
    after: Keeper,
    result: Result<ReplayAction, EngineError>,
)
    requires
        replayed(before, entry, after, result),
        entry is Transaction || entry is Block,
    ensures
        after == before,
        entry matches EntryView::Block(block) ==> result == Ok::<ReplayAction, EngineError>(
            ReplayAction::Block(block),
        ),
        entry matches EntryView::Transaction(bytes) ==> match crate::view::sanitized_view(
            bytes,
            true,
        ) {
            None => result == Err::<ReplayAction, EngineError>(EngineError::Sanitization),
            Some(view) => if view.version is Magicblock && view.accounts[0] != before.authority {
                result == Err::<ReplayAction, EngineError>(EngineError::SignatureVerification)
            } else {
                result matches Ok(ReplayAction::Schedule(scheduled)) && scheduled@ == view
            },
        },
{
}

/// A replay ends well exactly if the ledger was read to its end and account storage counts the
/// transactions that the ledger counts; the checksum is recorded then, and every account is read
/// as before. A ledger that could not be read is what the caller is told.
pub proof fn replays_end_with_equal_counts(
    before: Keeper,
    replayer: Replayer,
    after: Keeper,
    result: Result<Option<ReplayAction>, EngineError>,
    key: Seq<u8>,
)
    requires
        replayer.entries@.len() == 0,
        steps(before, replayer, after, result),
    ensures
        result is Ok == (replayer.read is Ok
            && before.accountsdb.persisted.state().meta.transactions == replayer.transactions),
        result is Ok ==> result->Ok_0 is None,
        replayer.read matches Err(error) ==> result == Err::<Option<ReplayAction>, EngineError>(
            EngineError::Replay(ReplayError::Ledger(error)),
        ),
        replayer.read is Ok ==> after.accountsdb.persisted.state().meta.checksum
            == before.accountsdb.persisted.state().checksum(),
        after.accountsdb.lookup(key) == before.accountsdb.lookup(key),
{
    assert(after.accountsdb.persisted.state().accounts()
        =~= before.accountsdb.persisted.state().accounts());
}

/// As long as there are entries, the first one is what is replayed next.
pub proof fn entries_are_replayed_in_turn(
    before: Keeper,
    replayer: Replayer,
    after: Keeper,
    result: Result<Option<ReplayAction>, EngineError>,
)
    requires
        replayer.entries@.len() > 0,
        steps(before, replayer, after, result),
    ensures
        result is Ok ==> result->Ok_0 is Some && replayed(
            before,
            replayer.entries@[0]@,
            after,
            Ok(result->Ok_0->0),
        ),
        result matches Err(error) ==> replayed(
            before,
            replayer.entries@[0]@,
            after,
            Err(error),
        ),
{
}

} // verus!
