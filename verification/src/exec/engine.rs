//! The engine: durable state, who may change accounts, and what is let in.

use vstd::prelude::*;

use crate::accountsdb::storage::DatabaseMeta;
use crate::accountsdb::store::StoreState;
use crate::exec::accessor::{
    missing_accounts, Absence, AccountAccessor, Intake, TransactionAccessor,
};
use crate::exec::compose::{
    compilable, compose_instructions, composed_of, instruction_bytes, sign_instructions, spells,
};
use crate::exec::error::EngineError;
use crate::exec::transaction::{
    admitted, all_valid, composed, magicblock, plain_views, private_transaction, sigverify,
    MagicblockFormat, PlainInstruction, TransactionVerifier, VerifiedTransaction,
};
use crate::accountsdb::volatile::keys_ascend;
use crate::keeper::accessor::Keeper;
use crate::types::Pubkey;

verus! {

/// The engine.
pub struct Engine {
    /// Durable state.
    pub keeper: Keeper,
    /// Whether work is taken.
    pub intake: Intake,
}

impl Engine {
    /// Well-formed parts.
    pub open spec fn wf(self) -> bool {
        self.keeper.wf()
    }

    /// An engine over durable state.
    pub fn new(keeper: Keeper) -> (engine: Engine)
        requires
            keeper.wf(),
        ensures
            engine.wf(),
            engine.keeper == keeper,
            !engine.intake.terminating,
    {
        Engine { keeper, intake: Intake::open() }
    }

    /// Grants access to an account, with what the account is at that moment, or `None` if
    /// someone else has it.
    pub fn account(&mut self, pubkey: Pubkey) -> (accessor: Option<AccountAccessor>)
        requires
            old(self).wf(),
        ensures
            final(self).wf(),
            final(self).intake == old(self).intake,
            old(self).keeper.locks(
                pubkey,
                match accessor {
                    Some(granted) => Some(granted.lease),
                    None => None,
                },
                final(self).keeper,
            ),
    {
        match self.keeper.accounts().lock(pubkey) {
            Some(lease) => Some(AccountAccessor { lease }),
            None => None,
        }
    }

    /// The accounts that are absent, in the order in which they are to be locked. Whether one
    /// is still absent is seen once it is locked, by `missing_account`.
    pub fn missing_accounts(&mut self, pubkeys: &Vec<Pubkey>) -> (missing: Vec<Pubkey>)
        requires
            old(self).wf(),
        ensures
            *final(self) == *old(self),
            keys_ascend(missing@),
            forall|key: Pubkey| #[trigger]
                missing@.contains(key) <==> pubkeys@.contains(key)
                    && old(self).keeper.accountsdb.lookup(key@) is None,
    {
        let loader = self.keeper.accountsdb.loader();
        missing_accounts(&loader, pubkeys)
    }

    /// What a second look at an account shows: nothing if someone else has access to it, else
    /// whether it exists, and if it does not, access is granted and kept.
    pub open spec fn looks(self, pubkey: Pubkey, found: Absence, after: Engine) -> bool {
        let held = self.keeper.caches.accounts.held();
        &&& after.intake == self.intake
        &&& after.keeper.same_settings(self.keeper)
        &&& after.keeper.subscriptions == self.keeper.subscriptions
        &&& after.keeper.accountsdb.same_accounts(self.keeper.accountsdb)
        &&& after.keeper.caches.signatures == self.keeper.caches.signatures
        &&& after.keeper.caches.blocks == self.keeper.caches.blocks
        &&& after.keeper.caches.accounts.lru == self.keeper.caches.accounts.lru
        &&& match found {
            Absence::Held => held.contains(pubkey@) && after.keeper.caches.accounts.held() == held,
            Absence::Present => {
                &&& !held.contains(pubkey@)
                &&& self.keeper.accountsdb.lookup(pubkey@) is Some
                &&& after.keeper.caches.accounts.held() == held
            },
            Absence::Absent(accessor) => {
                &&& !held.contains(pubkey@)
                &&& self.keeper.accountsdb.lookup(pubkey@) is None
                &&& accessor.lease.pubkey == pubkey
                &&& accessor.lease.observed is None
                &&& after.keeper.caches.accounts.held() == held.insert(pubkey@)
            },
        }
    }

    /// Looks again at an account that was absent, with access to it, and keeps access only if
    /// it is still absent.
    pub fn missing_account(&mut self, pubkey: Pubkey) -> (found: Absence)
        requires
            old(self).wf(),
        ensures
            final(self).wf(),
            old(self).looks(pubkey, found, *final(self)),
    {
        let ghost held = self.keeper.caches.accounts.held();
        match self.account(pubkey) {
            None => {
                assert(self.keeper.caches.accounts.held() =~= held);
                Absence::Held
            },
            Some(accessor) => match accessor.into_absent() {
                Ok(accessor) => Absence::Absent(accessor),
                Err(accessor) => {
                    self.keeper.caches.accounts.release(accessor.lease);
                    assert(self.keeper.caches.accounts.held() =~= held);
                    Absence::Present
                },
            },
        }
    }

    /// Reads a serialized transaction and verifies its signatures.
    pub fn transaction(&self, bytes: &[u8]) -> (result: Result<TransactionAccessor, EngineError>)
        ensures
            match composed(bytes@, self.keeper.authority) {
                Err(error) => result == Err::<TransactionAccessor, EngineError>(error),
                Ok(view) => match result {
                    Ok(accessor) => {
                        &&& accessor.intake == self.intake
                        &&& accessor.transaction.0@ == view
                        &&& all_valid(view)
                    },
                    Err(error) => !all_valid(view) && error == EngineError::SignatureVerification,
                },
            },
    {
        match admitted(bytes, &self.keeper.authority) {
            Ok(transaction) => Ok(TransactionAccessor::verified(self.intake, transaction)),
            Err(error) => Err(error),
        }
    }

    /// Composes a transaction from instructions that the engine pays and signs, on top of the
    /// latest block, and verifies its signatures.
    pub fn instructions(&self, instructions: &Vec<PlainInstruction>, secret: &[u8; 32]) -> (result:
        Result<TransactionAccessor, EngineError>)
        requires
            compilable(self.keeper.authority, plain_views(instructions@)),
        ensures
            match composed_of(
                instruction_bytes(
                    plain_views(instructions@),
                    self.keeper.authority,
                    secret@,
                    self.keeper.caches.blocks.latest.hash,
                ),
                self.keeper.authority,
            ) {
                Err(error) => result == Err::<TransactionAccessor, EngineError>(error),
                Ok(view) => match result {
                    Ok(accessor) => {
                        &&& accessor.intake == self.intake
                        &&& accessor.transaction.0@ == view
                        &&& all_valid(view)
                    },
                    Err(error) => !all_valid(view) && error == EngineError::SignatureVerification,
                },
            },
    {
        let blockhash = self.keeper.blockhash();
        match compose_instructions(instructions, &self.keeper.authority, secret, &blockhash) {
            Err(error) => Err(error),
            Ok(view) => match sigverify(&view) {
                Ok(_) => Ok(TransactionAccessor::verified(self.intake, VerifiedTransaction(view))),
                Err(error) => Err(error),
            },
        }
    }

    /// Serializes a transaction of instructions that the engine pays and signs, on top of the
    /// latest block.
    pub fn signed(&self, instructions: &Vec<PlainInstruction>, secret: &[u8; 32]) -> (result: Result<
        Vec<u8>,
        EngineError,
    >)
        requires
            compilable(self.keeper.authority, plain_views(instructions@)),
        ensures
            spells(
                result,
                instruction_bytes(
                    plain_views(instructions@),
                    self.keeper.authority,
                    secret@,
                    self.keeper.caches.blocks.latest.hash,
                ),
            ),
    {
        let blockhash = self.keeper.blockhash();
        sign_instructions(instructions, &self.keeper.authority, secret, &blockhash)
    }

    /// Composes a transaction that is private to the engine, on top of the latest block.
    pub fn private(
        &self,
        instructions: &Vec<PlainInstruction>,
        secret: &[u8; 32],
        format: MagicblockFormat,
    ) -> (result: Result<Vec<u8>, EngineError>)
        ensures
            ({
                let answer = private_transaction(
                    plain_views(instructions@),
                    self.keeper.authority,
                    secret@,
                    self.keeper.caches.blocks.latest.hash,
                    format,
                );
                match result {
                    Ok(bytes) => answer == Ok::<Seq<u8>, EngineError>(bytes@),
                    Err(error) => answer == Err::<Seq<u8>, EngineError>(error),
                }
            }),
    {
        let blockhash = self.keeper.blockhash();
        magicblock(instructions, &self.keeper.authority, secret, &blockhash, format)
    }

    /// Verifier for replicated transactions.
    pub fn batch_verifier(&self) -> (batch: TransactionVerifier)
        ensures
            batch.authority == self.keeper.authority,
    {
        TransactionVerifier::new(self.keeper.authority)
    }

    /// Takes no more work, and records the checksum so that account storage can be flushed.
    /// Execution has to be held while this runs.
    pub fn shutdown(&mut self)
        requires
            old(self).wf(),
        ensures
            final(self).wf(),
            final(self).intake.terminating,
            final(self).keeper.same_beside_accounts(old(self).keeper),
            final(self).keeper.accountsdb.volatile == old(self).keeper.accountsdb.volatile,
            final(self).keeper.accountsdb.persisted.state() == (StoreState {
                meta: DatabaseMeta {
                    checksum: old(self).keeper.accountsdb.persisted.state().checksum(),
                    ..old(self).keeper.accountsdb.persisted.meta
                },
                ..old(self).keeper.accountsdb.persisted.state()
            }),
    {
        self.intake.shutdown();
        self.keeper.sync();
    }
}

/// A second look says of an account that someone else has access to only that; of any other it
/// says whether it exists, and access is kept exactly if it does not. Access to other accounts is
/// as it was.
pub proof fn second_looks_tell(
    before: Engine,
    pubkey: Pubkey,
    found: Absence,
    after: Engine,
    other: Seq<u8>,
)
    requires
        before.looks(pubkey, found, after),
    ensures
        ({
            let held = before.keeper.caches.accounts.held();
            let present = before.keeper.accountsdb.lookup(pubkey@) is Some;
            &&& held.contains(pubkey@) <==> found is Held
            &&& !held.contains(pubkey@) && present <==> found is Present
            &&& !held.contains(pubkey@) && !present <==> found is Absent
            &&& found matches Absence::Absent(accessor) ==> accessor.lease.pubkey == pubkey
                && accessor.lease.observed is None
            &&& after.keeper.caches.accounts.held().contains(pubkey@) <==> !(found is Present)
            &&& other != pubkey@ ==> after.keeper.caches.accounts.held().contains(other)
                == held.contains(other)
        }),
{
}

} // verus!
