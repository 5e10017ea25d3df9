//! Access to accounts and transactions.

use vstd::prelude::*;

use crate::accountsdb::db::AccountLoader;
use crate::accountsdb::volatile::{keys_ascend, set_insert};
use crate::exec::error::EngineError;
use crate::exec::transaction::VerifiedTransaction;
use crate::keeper::cache::{admits, AccountCache, AccountLease};
use crate::ledger::outcome::TransactionResult;
use crate::types::{AccountMode, Pubkey, Slot};

verus! {

/// What becomes of an image that is to replace an account.
#[derive(Clone, Copy, Debug, PartialEq, Eq, Structural)]
pub enum Materialization {
    /// It is old or known: nothing is submitted, and the account keeps this mode.
    Skip(AccountMode),
    /// It is submitted.
    Submit(AccountMode),
}

/// What becomes of an image, given its mode and remote slot.
pub open spec fn materialization(
    observed: Option<(AccountMode, Slot)>,
    mode: AccountMode,
    slot: Slot,
) -> Materialization {
    match observed {
        Some((local, at)) => if slot < at || (slot == at && mode == local) {
            Materialization::Skip(local)
        } else {
            Materialization::Submit(mode)
        },
        None => Materialization::Submit(mode),
    }
}

/// What was submitted for an account.
#[derive(Clone, Copy, Debug, PartialEq, Eq, Structural)]
pub enum Mutation {
    /// An image in this mode.
    Materialize(AccountMode),
    /// Its removal.
    Delete,
}

/// Recent accounts after one was written in a mode: one that the engine does not decide about
/// counts as recent from now on, and another one may have to leave for it; any other one does
/// not count as recent.
pub open spec fn written_as(
    before: Set<Seq<u8>>,
    key: Pubkey,
    mode: AccountMode,
    evicted: Option<Pubkey>,
    after: Set<Seq<u8>>,
) -> bool {
    if mode.is_authoritative() {
        evicted is None && after == before.remove(key@)
    } else {
        admits(before, key, evicted, after)
    }
}

/// Access to one account whose holder alone may change it.
#[derive(Debug)]
pub struct AccountAccessor {
    /// The right to change the account.
    pub lease: AccountLease,
}

impl AccountAccessor {
    /// Decides whether an image is submitted. One that is older than the account, or has its
    /// slot and mode, is not: the account counts as written in the mode that it has. Returns
    /// the account that has to leave the cache, too.
    pub fn materialize(&self, accounts: &mut AccountCache, mode: AccountMode, slot: Slot) -> (decision: (
        Materialization,
        Option<Pubkey>,
    ))
        ensures
            decision.0 == materialization(self.lease.observed, mode, slot),
            self.lease.observed is None ==> decision.0 == Materialization::Submit(mode),
            self.lease.observed matches Some((local, at)) ==> {
                &&& slot > at || (slot == at && mode != local) ==> decision.0
                    == Materialization::Submit(mode)
                &&& slot < at || (slot == at && mode == local) ==> decision.0
                    == Materialization::Skip(local)
            },
            final(accounts).reservations == old(accounts).reservations,
            match decision.0 {
                Materialization::Skip(local) => written_as(
                    old(accounts).recent(),
                    self.lease.pubkey,
                    local,
                    decision.1,
                    final(accounts).recent(),
                ),
                Materialization::Submit(_) => decision.1 is None && *final(accounts) == *old(
                    accounts,
                ),
            },
    {
        match self.lease.skipped(mode, slot) {
            Some(local) => {
                let evicted = accounts.materialized(&self.lease, local);
                (Materialization::Skip(local), evicted)
            },
            None => (Materialization::Submit(mode), None),
        }
    }

    /// What is submitted to remove the account.
    pub fn delete(&self) -> (mutation: Mutation)
        ensures
            mutation == Mutation::Delete,
    {
        Mutation::Delete
    }

    /// Ends what was submitted for the account: only if it succeeded does the account count as
    /// written or deleted. Returns the account that has to leave the cache.
    pub fn complete(
        &self,
        accounts: &mut AccountCache,
        mutation: Mutation,
        outcome: TransactionResult,
    ) -> (result: Result<Option<Pubkey>, EngineError>)
        ensures
            final(accounts).reservations == old(accounts).reservations,
            match outcome {
                Err(error) => {
                    &&& result == Err::<Option<Pubkey>, EngineError>(
                        EngineError::TransactionExecution(error),
                    )
                    &&& final(accounts).recent() == old(accounts).recent()
                },
                Ok(_) => {
                    &&& result is Ok
                    &&& match mutation {
                        Mutation::Delete => result->Ok_0 is None && final(accounts).recent()
                            == old(accounts).recent().remove(self.lease.pubkey@),
                        Mutation::Materialize(mode) => written_as(
                            old(accounts).recent(),
                            self.lease.pubkey,
                            mode,
                            result->Ok_0,
                            final(accounts).recent(),
                        ),
                    }
                },
            },
    {
        match outcome {
            Err(error) => Err(EngineError::TransactionExecution(error)),
            Ok(_) => match mutation {
                Mutation::Materialize(mode) => Ok(accounts.materialized(&self.lease, mode)),
                Mutation::Delete => {
                    accounts.deleted(&self.lease);
                    Ok(None)
                },
            },
        }
    }

    /// Whether the account existed when access was granted.
    pub fn is_present(&self) -> (yes: bool)
        ensures
            yes == (self.lease.observed is Some),
    {
        self.lease.is_present()
    }

    /// Keeps access only if the account did not exist when access was granted; otherwise it is
    /// given back.
    pub fn into_absent(self) -> (kept: Result<AccountAccessor, AccountAccessor>)
        ensures
            kept == if self.lease.observed is None {
                Ok::<AccountAccessor, AccountAccessor>(self)
            } else {
                Err(self)
            },
    {
        if self.is_present() {
            Err(self)
        } else {
            Ok(self)
        }
    }

    /// Keeps access only if the account may be evicted; otherwise it is given back.
    pub fn into_eviction(self) -> (kept: Result<AccountAccessor, AccountAccessor>)
        ensures
            kept == if self.lease.observed matches Some((mode, _)) && !mode.is_authoritative() {
                Ok::<AccountAccessor, AccountAccessor>(self)
            } else {
                Err(self)
            },
    {
        if self.lease.evictable() {
            Ok(self)
        } else {
            Err(self)
        }
    }

    /// Keeps access only if an earlier eviction still applies; otherwise it is given back.
    pub fn into_cached_eviction(self, accounts: &AccountCache) -> (kept: Result<
        AccountAccessor,
        AccountAccessor,
    >)
        ensures
            kept == if (self.lease.observed matches Some((mode, _)) && !mode.is_authoritative())
                && !accounts.recent().contains(self.lease.pubkey@) {
                Ok::<AccountAccessor, AccountAccessor>(self)
            } else {
                Err(self)
            },
    {
        if accounts.cached_eviction_applies(&self.lease) {
            Ok(self)
        } else {
            Err(self)
        }
    }
}

/// What a second look at an account shows that was absent before.
#[derive(Debug)]
pub enum Absence {
    /// Someone else has access: look again later.
    Held,
    /// The account exists by now.
    Present,
    /// The account is still absent, and access to it is granted.
    Absent(AccountAccessor),
}

/// What is to be done with a transaction.
#[derive(Debug)]
pub enum Work {
    /// It is executed, and its result awaited.
    Execute(VerifiedTransaction),
    /// It is executed.
    Schedule(VerifiedTransaction),
    /// It is executed without being committed, and its record awaited.
    Simulate(VerifiedTransaction),
}

/// Access to one verified transaction.
#[derive(Debug)]
pub struct TransactionAccessor {
    /// Whether work is taken.
    pub intake: Intake,
    /// The transaction.
    pub transaction: VerifiedTransaction,
}

impl TransactionAccessor {
    /// Access to a transaction that was verified before.
    pub fn verified(intake: Intake, transaction: VerifiedTransaction) -> (accessor:
        TransactionAccessor)
        ensures
            accessor == (TransactionAccessor { intake, transaction }),
    {
        TransactionAccessor { intake, transaction }
    }

    /// Hands the transaction on to be executed, and waits for its result. Nothing is taken
    /// while the engine shuts down.
    pub fn execute(self) -> (work: Result<Work, EngineError>)
        ensures
            work == if self.intake.terminating {
                Err::<Work, EngineError>(EngineError::ShuttingDown)
            } else {
                Ok(Work::Execute(self.transaction))
            },
    {
        match self.intake.enqueue() {
            Ok(_) => Ok(Work::Execute(self.transaction)),
            Err(error) => Err(error),
        }
    }

    /// Hands the transaction on to be executed, and does not wait. Nothing is taken while the
    /// engine shuts down.
    pub fn schedule(self) -> (work: Result<Work, EngineError>)
        ensures
            work == if self.intake.terminating {
                Err::<Work, EngineError>(EngineError::ShuttingDown)
            } else {
                Ok(Work::Schedule(self.transaction))
            },
    {
        match self.intake.enqueue() {
            Ok(_) => Ok(Work::Schedule(self.transaction)),
            Err(error) => Err(error),
        }
    }

    /// Hands the transaction on to be simulated. Nothing is taken while the engine shuts down.
    pub fn simulate(self) -> (work: Result<Work, EngineError>)
        ensures
            work == if self.intake.terminating {
                Err::<Work, EngineError>(EngineError::ShuttingDown)
            } else {
                Ok(Work::Simulate(self.transaction))
            },
    {
        match self.intake.enqueue() {
            Ok(_) => Ok(Work::Simulate(self.transaction)),
            Err(error) => Err(error),
        }
    }
}

/// The accounts that are absent, in the order in which they are to be locked: ascending, so that
/// two callers that want some of the same accounts never wait for each other, and each once.
pub fn missing_accounts(loader: &AccountLoader, pubkeys: &Vec<Pubkey>) -> (missing: Vec<Pubkey>)
    requires
        loader.db.wf(),
    ensures
        keys_ascend(missing@),
        forall|key: Pubkey| #[trigger]
            missing@.contains(key) <==> pubkeys@.contains(key) && old(loader.db).lookup(key@) is None,
{
    let mut missing: Vec<Pubkey> = Vec::new();
    let mut i: usize = 0;
    while i < pubkeys.len()
        invariant
            i <= pubkeys@.len(),
            loader.db.wf(),
            keys_ascend(missing@),
            forall|key: Pubkey| #[trigger]
                missing@.contains(key) <==> pubkeys@.take(i as int).contains(key)
                    && loader.db.lookup(key@) is None,
        decreases pubkeys@.len() - i,
    {
        let key = pubkeys[i];
        let ghost before = missing@;
        proof {
            let all = pubkeys@;
            let more = all.take(i + 1);
            assert forall|k: Pubkey| #[trigger]
                more.contains(k) <==> all.take(i as int).contains(k) || k == key by {
                if all.take(i as int).contains(k) {
                    let j = choose|j: int| 0 <= j < i && all.take(i as int)[j] == k;
                    assert(more[j] == k);
                }
                if k == key {
                    assert(more[i as int] == k);
                }
                if more.contains(k) && k != key {
                    let j = choose|j: int| 0 <= j < i + 1 && more[j] == k;
                    assert(all.take(i as int)[j] == k);
                }
            }
        }
        if !loader.contains(&key) {
            set_insert(&mut missing, &key);
        }
        i += 1;
    }
    assert(pubkeys@.take(i as int) =~= pubkeys@);
    missing
}

/// Whether the engine takes work.
#[derive(Clone, Copy, Debug, PartialEq, Eq, Structural)]
pub struct Intake {
    /// Whether it is shutting down.
    pub terminating: bool,
}

impl Intake {
    /// An engine that takes work.
    pub fn open() -> (intake: Intake)
        ensures
            !intake.terminating,
    {
        Intake { terminating: false }
    }

    /// Takes work, or refuses it while shutting down.
    pub fn enqueue(&self) -> (result: Result<(), EngineError>)
        ensures
            match result {
                Ok(_) => !self.terminating,
                Err(error) => self.terminating && error == EngineError::ShuttingDown,
            },
    {
        if self.terminating {
            return Err(EngineError::ShuttingDown);
        }
        Ok(())
    }

    /// Begins to shut down. Nothing opens the engine again.
    pub fn shutdown(&mut self)
        ensures
            final(self).terminating,
    {
        self.terminating = true;
    }
}

/// Workers for replay and for live execution, given how many processors there are.
pub fn workers(processors: usize) -> (count: (usize, usize))
    ensures
        count.0 == if processors >= 4 {
            processors - 2
        } else {
            2
        },
        count.1 == count.0 / 2,
{
    let free: usize = processors.saturating_sub(2);
    let replay: usize = if free < 2 {
        2
    } else {
        free
    };
    (replay, replay / 2)
}

/// An image is dropped only if it is older than the account or has its slot and mode: any other
/// one is submitted in its own mode, so that a newer image, and a change of mode at the same
/// slot, always takes effect.
pub proof fn fresh_images_are_submitted(
    local: AccountMode,
    at: Slot,
    mode: AccountMode,
    slot: Slot,
)
    ensures
        slot > at ==> materialization(Some((local, at)), mode, slot) == Materialization::Submit(
            mode,
        ),
        slot == at && mode != local ==> materialization(Some((local, at)), mode, slot)
            == Materialization::Submit(mode),
        (materialization(Some((local, at)), mode, slot) is Skip) == (slot < at || (slot == at
            && mode == local)),
{
}

/// An account that does not exist takes any image.
pub proof fn absent_accounts_take_any_image(mode: AccountMode, slot: Slot)
    ensures
        materialization(None, mode, slot) == Materialization::Submit(mode),
{
}

/// Of two images of one slot or of a later one, the one that is submitted after the other was
/// applied is the newer one, or has another mode: two images never replace each other in turn
/// unless their slots are the same and their modes are not.
pub proof fn images_do_not_alternate(
    mode: AccountMode,
    slot: Slot,
    other: AccountMode,
    later: Slot,
)
    requires
        materialization(Some((mode, slot)), other, later) is Submit,
        materialization(Some((other, later)), mode, slot) is Submit,
    ensures
        slot == later,
        mode != other,
{
}

/// The account that was written counts as recent exactly if the engine does not decide about it,
/// and of the others at most the one that had to leave no longer does.
pub proof fn written_accounts_are_recent(
    before: Set<Seq<u8>>,
    key: Pubkey,
    mode: AccountMode,
    evicted: Option<Pubkey>,
    after: Set<Seq<u8>>,
    other: Seq<u8>,
)
    requires
        written_as(before, key, mode, evicted, after),
    ensures
        after.contains(key@) == (mode is ReadOnly || mode is Uninit || mode is System),
        other != key@ ==> after.contains(other) == (before.contains(other) && (evicted is None
            || evicted->0@ != other)),
        evicted matches Some(gone) ==> before.contains(gone@) && gone@ != key@ && (mode is ReadOnly
            || mode is Uninit || mode is System),
{
}

/// An image that was applied is skipped when it comes again.
pub proof fn images_apply_once(mode: AccountMode, slot: Slot)
    ensures
        materialization(Some((mode, slot)), mode, slot) == Materialization::Skip(mode),
{
}

/// Older images never replace newer ones.
pub proof fn images_do_not_go_back(
    local: AccountMode,
    at: Slot,
    mode: AccountMode,
    slot: Slot,
)
    requires
        slot < at,
    ensures
        materialization(Some((local, at)), mode, slot) == Materialization::Skip(local),
{
}

} // verus!
