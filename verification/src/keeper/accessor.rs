//! The keeper: durable state, caches, and subscriptions, and what may be done with them.

use vstd::prelude::*;

use crate::accountsdb::db::AccountsDB;
use crate::accountsdb::storage::DatabaseMeta;
use crate::accountsdb::store::StoreState;
use crate::accountsdb::volatile::{system_only, volatile_accounts_are_mirrors};
use crate::accountsdb::AccountsDBError;
use crate::keeper::builder::{Addresses, SPONSOR_INIT_BALANCE};
use crate::keeper::cache::{AccountLease, Caches};
use crate::keeper::commit::{
    changes, commits_as, execution_commit, flattened, succeeded, transaction_status,
    ExecutedTransaction, ExecutionCommit, ExecutionRecord,
};
use crate::keeper::error::KeeperError;
use crate::keeper::expiring::{
    has_key, hash_key, key_of_signature, pushed, replaced, signature_key, swept, value_of,
    EVICTION_LIMIT,
};
use crate::keeper::subscriptions::{
    receivers_of, remaining, remaining_again, settled, Receiver, Subscriptions, Unicast,
};
use crate::keeper::sysvar::{record_clock, record_hash, recorded_clock, recorded_hashes, Rent};
use crate::ledger::error::LedgerError;
use crate::ledger::outcome::TransactionError;
use crate::ledger::reader::{read_status, BlockstorePosition, Ledger};
use crate::ledger::request::{
    AccountSignature, AccountSignaturesParams, BlockParams, BlockResponse,
    TransactionResponse, TransactionStatus,
};
use crate::ledger::schema::{Event, TransactionEntry};
use crate::types::{
    entries_ok, entry_views, same_key, Account, AccountEntry, AccountMode, AccountSharedData,
    AccountView, Block, BlockHash, CoWAccount, DirtyMarkers, EntryView, Pubkey, SharedView,
    Signature, Slot, SuperblockSeal,
};

verus! {

/// Durable state with its caches and subscriptions.
pub struct Keeper {
    /// Address of the authority.
    pub authority: Pubkey,
    /// Addresses that the runtime fixes.
    pub addresses: Addresses,
    /// Active features.
    pub featureset: Vec<Pubkey>,
    /// Rent.
    pub rent: Rent,
    /// Account storage.
    pub accountsdb: AccountsDB,
    /// Recent signatures and blocks.
    pub caches: Caches,
    /// Live notifications.
    pub subscriptions: Subscriptions,
}

/// Which receivers are gone.
#[derive(Debug)]
pub struct Closed {
    /// Those of streams with any number of receivers.
    pub receivers: Vec<Receiver>,
    /// The receiver of processed transactions.
    pub transactions: bool,
    /// The receiver of messages for services.
    pub services: bool,
}

/// Something to be sent about one account of an executed transaction.
#[derive(Clone, Copy, Debug, PartialEq, Eq, Structural)]
pub enum Notice {
    /// The logs, to those who follow the account at this position.
    Logs(usize),
    /// The account at this position, to those who follow it.
    Account(usize),
    /// The account at this position, to those who follow its owner.
    Program(usize),
}

/// What is to be sent once an execution is committed.
#[derive(Debug)]
pub struct Published {
    /// Status of the transaction.
    pub status: TransactionStatus,
    /// What is to be sent about accounts, in order.
    pub notices: Vec<Notice>,
    /// Whether queued messages for services are to be sent; if not, they are dropped.
    pub services: bool,
    /// Whether the transaction is to be sent to the receiver of processed ones.
    pub transaction: bool,
    /// Those who wait for the status.
    pub waiters: Vec<Receiver>,
}

/// Topics and receivers after those who are gone left the first `n` topics.
pub open spec fn pruned(
    map: Map<Seq<u8>, Seq<Receiver>>,
    topics: Seq<Seq<u8>>,
    gone: Seq<Receiver>,
    n: nat,
) -> Map<Seq<u8>, Seq<Receiver>>
    decreases n,
{
    if n == 0 {
        map
    } else {
        let before = pruned(map, topics, gone, (n - 1) as nat);
        settled(before, topics[n - 1], remaining(receivers_of(before, topics[n - 1]), gone))
    }
}

/// Addresses of accounts, as topics.
pub open spec fn account_topics(accounts: Seq<EntryView>) -> Seq<Seq<u8>> {
    accounts.map_values(|entry: EntryView| entry.0@)
}

/// Owners of the changed accounts among the first `n`, as topics.
pub open spec fn owner_topics(accounts: Seq<EntryView>, n: nat) -> Seq<Seq<u8>>
    decreases n,
{
    if n == 0 {
        Seq::empty()
    } else {
        let rest = owner_topics(accounts, (n - 1) as nat);
        if accounts[n - 1].1.markers.any() {
            rest.push(accounts[n - 1].1.account.owner@)
        } else {
            rest
        }
    }
}

/// Whether someone who is not gone follows a topic.
pub open spec fn followed(
    map: Map<Seq<u8>, Seq<Receiver>>,
    topic: Seq<u8>,
    gone: Seq<Receiver>,
) -> bool {
    remaining(receivers_of(map, topic), gone).len() > 0
}

/// What is to be sent about one account: the logs if someone follows it; if it was changed, the
/// account to its followers, and to those of its owner if there are any.
pub open spec fn account_notices(
    entry: EntryView,
    at: usize,
    logs: Map<Seq<u8>, Seq<Receiver>>,
    programs: Map<Seq<u8>, Seq<Receiver>>,
    gone: Seq<Receiver>,
) -> Seq<Notice> {
    let first = if followed(logs, entry.0@, gone) {
        seq![Notice::Logs(at)]
    } else {
        Seq::<Notice>::empty()
    };
    if !entry.1.markers.any() {
        first
    } else if followed(programs, entry.1.account.owner@, gone) {
        first.push(Notice::Account(at)).push(Notice::Program(at))
    } else {
        first.push(Notice::Account(at))
    }
}

/// What is to be sent about the first `n` accounts.
pub open spec fn notices(
    accounts: Seq<EntryView>,
    logs: Map<Seq<u8>, Seq<Receiver>>,
    programs: Map<Seq<u8>, Seq<Receiver>>,
    gone: Seq<Receiver>,
    n: nat,
) -> Seq<Notice>
    decreases n,
{
    if n == 0 {
        Seq::empty()
    } else {
        notices(accounts, logs, programs, gone, (n - 1) as nat) + account_notices(
            accounts[n - 1],
            (n - 1) as usize,
            logs,
            programs,
            gone,
        )
    }
}

/// Letting receivers go that are gone changes nothing about who else follows a topic.
pub proof fn pruning_keeps_followers(
    map: Map<Seq<u8>, Seq<Receiver>>,
    topics: Seq<Seq<u8>>,
    gone: Seq<Receiver>,
    n: nat,
    topic: Seq<u8>,
)
    ensures
        remaining(receivers_of(pruned(map, topics, gone, n), topic), gone) == remaining(
            receivers_of(map, topic),
            gone,
        ),
    decreases n,
{
    if n > 0 {
        pruning_keeps_followers(map, topics, gone, (n - 1) as nat, topic);
        let before = pruned(map, topics, gone, (n - 1) as nat);
        let list = receivers_of(before, topics[n - 1]);
        remaining_again(list, gone);
        if topic == topics[n - 1] {
            if remaining(list, gone).len() == 0 {
                assert(remaining(list, gone) =~= Seq::<Receiver>::empty());
                assert(remaining(Seq::<Receiver>::empty(), gone) =~= Seq::<Receiver>::empty());
            }
        }
    }
}

proof fn owner_topics_grow(accounts: Seq<EntryView>, n: nat)
    requires
        n < accounts.len(),
    ensures
        accounts[n as int].1.markers.any() ==> owner_topics(accounts, n + 1) == owner_topics(
            accounts,
            n,
        ).push(accounts[n as int].1.account.owner@),
        !accounts[n as int].1.markers.any() ==> owner_topics(accounts, n + 1) == owner_topics(
            accounts,
            n,
        ),
{
}

proof fn pruned_ignores_later(
    map: Map<Seq<u8>, Seq<Receiver>>,
    topics: Seq<Seq<u8>>,
    more: Seq<Seq<u8>>,
    gone: Seq<Receiver>,
    n: nat,
)
    requires
        n <= topics.len() <= more.len(),
        forall|i: int| 0 <= i < topics.len() ==> topics[i] == more[i],
    ensures
        pruned(map, topics, gone, n) == pruned(map, more, gone, n),
    decreases n,
{
    if n > 0 {
        pruned_ignores_later(map, topics, more, gone, (n - 1) as nat);
    }
}

impl Keeper {
    /// Well-formed parts.
    pub open spec fn wf(self) -> bool {
        &&& self.accountsdb.wf()
        &&& self.accountsdb.volatile.mirrors()
        &&& self.caches.wf()
        &&& self.subscriptions.wf()
    }

    /// What is fixed at startup is as in `other`.
    pub open spec fn same_settings(self, other: Keeper) -> bool {
        &&& self.authority == other.authority
        &&& self.addresses == other.addresses
        &&& self.featureset == other.featureset
        &&& self.rent == other.rent
    }

    /// Everything but account storage is as in `other`.
    pub open spec fn same_beside_accounts(self, other: Keeper) -> bool {
        &&& self.same_settings(other)
        &&& self.caches == other.caches
        &&& self.subscriptions == other.subscriptions
    }

    /// A keeper over opened account storage.
    pub fn new(
        authority: Pubkey,
        addresses: Addresses,
        featureset: Vec<Pubkey>,
        rent: Rent,
        accountsdb: AccountsDB,
        caches: Caches,
    ) -> (keeper: Keeper)
        requires
            accountsdb.wf(),
            accountsdb.volatile.mirrors(),
            caches.wf(),
        ensures
            keeper.wf(),
            keeper.authority == authority,
            keeper.addresses == addresses,
            keeper.featureset == featureset,
            keeper.rent == rent,
            keeper.accountsdb == accountsdb,
            keeper.caches == caches,
            keeper.subscriptions.silent(),
    {
        Keeper {
            authority,
            addresses,
            featureset,
            rent,
            accountsdb,
            caches,
            subscriptions: Subscriptions::new(),
        }
    }

    /// What may be done with accounts.
    pub fn accounts(&mut self) -> (accessor: AccountsAccessor<'_>)
        ensures
            *accessor.keeper == *old(self),
            *final(self) == *final(accessor.keeper),
    {
        AccountsAccessor { keeper: self }
    }

    /// What may be done with transactions.
    pub fn transactions(&mut self) -> (accessor: TransactionsAccessor<'_>)
        ensures
            *accessor.keeper == *old(self),
            *final(self) == *final(accessor.keeper),
    {
        TransactionsAccessor { keeper: self }
    }

    /// What may be done with blocks.
    pub fn blocks(&mut self) -> (accessor: BlocksAccessor<'_>)
        ensures
            *accessor.keeper == *old(self),
            *final(self) == *final(accessor.keeper),
    {
        BlocksAccessor { keeper: self }
    }

    /// What may be done with superblocks.
    pub fn superblocks(&mut self) -> (accessor: SuperblockAccessor<'_>)
        ensures
            *accessor.keeper == *old(self),
            *final(self) == *final(accessor.keeper),
    {
        SuperblockAccessor { keeper: self }
    }

    /// Address of the authority.
    pub fn authority(&self) -> (authority: Pubkey)
        ensures
            authority == self.authority,
    {
        self.authority
    }

    /// Active features.
    pub fn features(&self) -> (featureset: &Vec<Pubkey>)
        ensures
            *featureset == self.featureset,
    {
        &self.featureset
    }

    /// Rent.
    pub fn rent(&self) -> (rent: &Rent)
        ensures
            *rent == self.rent,
    {
        &self.rent
    }

    /// What granting the right to change an account does.
    pub open spec fn locks(
        self,
        pubkey: Pubkey,
        lease: Option<AccountLease>,
        after: Keeper,
    ) -> bool {
        &&& after.same_settings(self)
        &&& after.subscriptions == self.subscriptions
        &&& after.accountsdb.same_accounts(self.accountsdb)
        &&& after.caches.signatures == self.caches.signatures
        &&& after.caches.blocks == self.caches.blocks
        &&& after.caches.accounts.lru == self.caches.accounts.lru
        &&& after.caches.accounts.held() == self.caches.accounts.held().insert(pubkey@)
        &&& match lease {
            Some(granted) => {
                &&& !self.caches.accounts.held().contains(pubkey@)
                &&& granted.pubkey == pubkey
                &&& granted.observed == match self.accountsdb.lookup(pubkey@) {
                    Some(account) => Some((account.mode, account.slot)),
                    None => None,
                }
            },
            None => self.caches.accounts.held().contains(pubkey@),
        }
    }

    /// What committing an execution with a status leads to.
    pub open spec fn publishes(
        self,
        signature: Signature,
        record: ExecutionRecord,
        status: TransactionStatus,
        closed: Closed,
        after: Keeper,
        result: Result<Published, AccountsDBError>,
    ) -> bool {
        &&& after.same_settings(self)
        &&& self.accountsdb.commits(
            self.transitions(record),
            after.accountsdb,
            match result {
                Ok(_) => Ok(()),
                Err(error) => Err(error),
            },
        )
        &&& result is Err ==> after.same_beside_accounts(self)
        &&& result matches Ok(published) ==> {
            let success = succeeded(record);
            let logs = self.subscriptions.logs.senders@;
            let programs = self.subscriptions.programs.senders@;
            &&& published.status == status
            &&& published.notices@ == match record.result {
                Ok(executed) => if success {
                    notices(
                        entry_views(executed.accounts@),
                        logs,
                        programs,
                        closed.receivers@,
                        executed.accounts@.len(),
                    )
                } else {
                    Seq::empty()
                },
                Err(_) => Seq::empty(),
            }
            &&& published.services == (success && self.subscriptions.services.registered
                && !closed.services)
            &&& published.transaction == (self.subscriptions.transactions.registered
                && !closed.transactions)
            &&& published.waiters@ == receivers_of(
                self.subscriptions.signatures.senders@,
                signature@,
            )
            &&& Keeper::fans_out(
                self.subscriptions,
                signature,
                record,
                closed.receivers@,
                after.subscriptions,
            )
            &&& after.caches.signatures.queue@ == replaced(
                self.caches.signatures.queue@,
                signature_key(signature),
                Some(status),
            )
            &&& after.caches.signatures.ttl == self.caches.signatures.ttl
            &&& after.caches.blocks == self.caches.blocks
            &&& after.caches.accounts == self.caches.accounts
        }
    }

    /// The mode and remote slot of an account, if it exists.
    pub fn observe(&mut self, pubkey: &Pubkey) -> (observed: Option<(AccountMode, Slot)>)
        requires
            old(self).wf(),
        ensures
            final(self).wf(),
            final(self).same_beside_accounts(*old(self)),
            final(self).accountsdb.same_accounts(old(self).accountsdb),
            observed == match old(self).accountsdb.lookup(pubkey@) {
                Some(account) => Some((account.mode, account.slot)),
                None => None,
            },
    {
        match self.accountsdb.loader().load(pubkey) {
            Some(account) => Some((account.mode, account.slot)),
            None => None,
        }
    }

    /// Hash of the latest block.
    pub fn blockhash(&self) -> (hash: BlockHash)
        ensures
            hash == self.caches.blocks.latest.hash,
    {
        self.caches.blocks.latest.hash
    }

    /// Commits the account changes of a transaction, if it was executed and succeeded, and
    /// counts it in any case. Says whether it was executed and succeeded.
    fn commit_state_transitions(&mut self, record: &ExecutionRecord) -> (result: Result<
        bool,
        AccountsDBError,
    >)
        requires
            old(self).wf(),
            record.result matches Ok(executed) ==> entries_ok(entry_views(executed.accounts@)),
        ensures
            final(self).wf(),
            final(self).same_beside_accounts(*old(self)),
            old(self).accountsdb.commits(
                old(self).transitions(*record),
                final(self).accountsdb,
                match result {
                    Ok(_) => Ok(()),
                    Err(error) => Err(error),
                },
            ),
            result matches Ok(success) ==> success == succeeded(*record),
    {
        let mut entries: Vec<AccountEntry> = Vec::new();
        let mut success: bool = false;
        assert(entry_views(entries@) =~= Seq::<EntryView>::empty());
        match &record.result {
            Ok(executed) => if executed.status.is_ok() {
                success = true;
                let ghost all = entry_views(executed.accounts@);
                let mut i: usize = 0;
                while i < executed.accounts.len()
                    invariant
                        i <= executed.accounts@.len(),
                        all == entry_views(executed.accounts@),
                        entries_ok(all),
                        entry_views(entries@) == changes(
                            all,
                            self.addresses.instructions,
                            i as nat,
                        ),
                        entries_ok(entry_views(entries@)),
                    decreases executed.accounts@.len() - i,
                {
                    let entry = &executed.accounts[i];
                    let ghost before = entries@;
                    assert(all[i as int] == (entry.0, entry.1@));
                    let dirty = entry.1.markers.owner || entry.1.markers.content;
                    if dirty && !same_key(&entry.0, &self.addresses.instructions) {
                        entries.push((entry.0, entry.1.clone()));
                        assert(entry_views(entries@) =~= entry_views(before).push(all[i as int]));
                    }
                    i += 1;
                }
            },
            Err(_) => {},
        }
        assert(entry_views(entries@) =~= self.transitions(*record));
        proof {
            stored_mirrors(self.accountsdb, entry_views(entries@));
        }
        match self.accountsdb.commit(entries) {
            Ok(unit) => {
                assert(unit == ());
                Ok(success)
            },
            Err(error) => Err(error),
        }
    }

    /// Account changes that a transaction leads to.
    pub open spec fn transitions(self, record: ExecutionRecord) -> Seq<EntryView> {
        match record.result {
            Ok(executed) => if executed.status is Ok {
                changes(
                    entry_views(executed.accounts@),
                    self.addresses.instructions,
                    executed.accounts@.len(),
                )
            } else {
                Seq::empty()
            },
            Err(_) => Seq::empty(),
        }
    }

    /// Who follows what once a transaction was fanned out: receivers that are gone have left the
    /// topics that it touched, if it succeeded, and nobody waits for its status any more.
    pub open spec fn fans_out(
        before: Subscriptions,
        signature: Signature,
        record: ExecutionRecord,
        gone: Seq<Receiver>,
        after: Subscriptions,
    ) -> bool {
        let accounts = match record.result {
            Ok(executed) if succeeded(record) => entry_views(executed.accounts@),
            _ => Seq::empty(),
        };
        let owners = owner_topics(accounts, accounts.len());
        &&& after.accounts == before.accounts
        &&& after.blocks == before.blocks
        &&& after.snapshots == before.snapshots
        &&& after.transactions == before.transactions
        &&& after.services == before.services
        &&& after.evictions == before.evictions
        &&& after.logs.same_stream(before.logs)
        &&& after.programs.same_stream(before.programs)
        &&& after.logs.senders@ == pruned(
            before.logs.senders@,
            account_topics(accounts),
            gone,
            accounts.len(),
        )
        &&& after.programs.senders@ == pruned(before.programs.senders@, owners, gone, owners.len())
        &&& after.signatures.senders@ == before.signatures.senders@.remove(signature@)
    }

    /// What is to be sent about the accounts of a transaction that succeeded.
    fn fanout(&mut self, executed: &ExecutedTransaction, gone: &Vec<Receiver>) -> (list: Vec<Notice>)
        requires
            old(self).wf(),
        ensures
            final(self).wf(),
            final(self).same_settings(*old(self)),
            final(self).accountsdb == old(self).accountsdb,
            final(self).caches == old(self).caches,
            final(self).subscriptions.accounts == old(self).subscriptions.accounts,
            final(self).subscriptions.signatures == old(self).subscriptions.signatures,
            final(self).subscriptions.blocks == old(self).subscriptions.blocks,
            final(self).subscriptions.snapshots == old(self).subscriptions.snapshots,
            final(self).subscriptions.transactions == old(self).subscriptions.transactions,
            final(self).subscriptions.services == old(self).subscriptions.services,
            final(self).subscriptions.evictions == old(self).subscriptions.evictions,
            final(self).subscriptions.logs.same_stream(old(self).subscriptions.logs),
            final(self).subscriptions.programs.same_stream(old(self).subscriptions.programs),
            ({
                let accounts = entry_views(executed.accounts@);
                let logs = old(self).subscriptions.logs.senders@;
                let programs = old(self).subscriptions.programs.senders@;
                let owners = owner_topics(accounts, accounts.len());
                &&& list@ == notices(accounts, logs, programs, gone@, accounts.len())
                &&& final(self).subscriptions.logs.senders@ == pruned(
                    logs,
                    account_topics(accounts),
                    gone@,
                    accounts.len(),
                )
                &&& final(self).subscriptions.programs.senders@ == pruned(
                    programs,
                    owners,
                    gone@,
                    owners.len(),
                )
            }),
    {
        let ghost accounts = entry_views(executed.accounts@);
        let ghost topics = account_topics(accounts);
        let ghost logs = self.subscriptions.logs.senders@;
        let ghost programs = self.subscriptions.programs.senders@;
        let mut list: Vec<Notice> = Vec::new();
        let mut i: usize = 0;
        assert(list@ =~= notices(accounts, logs, programs, gone@, 0));
        while i < executed.accounts.len()
            invariant
                i <= executed.accounts@.len(),
                self.wf(),
                self.same_settings(*old(self)),
                self.accountsdb == old(self).accountsdb,
                self.caches == old(self).caches,
                self.subscriptions.accounts == old(self).subscriptions.accounts,
                self.subscriptions.signatures == old(self).subscriptions.signatures,
                self.subscriptions.blocks == old(self).subscriptions.blocks,
                self.subscriptions.snapshots == old(self).subscriptions.snapshots,
                self.subscriptions.transactions == old(self).subscriptions.transactions,
                self.subscriptions.services == old(self).subscriptions.services,
                self.subscriptions.evictions == old(self).subscriptions.evictions,
                self.subscriptions.logs.same_stream(old(self).subscriptions.logs),
                self.subscriptions.programs.same_stream(old(self).subscriptions.programs),
                accounts == entry_views(executed.accounts@),
                topics == account_topics(accounts),
                list@ == notices(accounts, logs, programs, gone@, i as nat),
                self.subscriptions.logs.senders@ == pruned(logs, topics, gone@, i as nat),
                self.subscriptions.programs.senders@ == pruned(
                    programs,
                    owner_topics(accounts, i as nat),
                    gone@,
                    owner_topics(accounts, i as nat).len(),
                ),
            decreases executed.accounts@.len() - i,
        {
            let entry = &executed.accounts[i];
            let ghost view = accounts[i as int];
            let ghost owners = owner_topics(accounts, i as nat);
            let ghost before = list@;
            assert(view == (entry.0, entry.1@));
            assert(topics[i as int] == entry.0@);
            proof {
                pruning_keeps_followers(logs, topics, gone@, i as nat, view.0@);
                pruning_keeps_followers(
                    programs,
                    owners,
                    gone@,
                    owners.len(),
                    view.1.account.owner@,
                );
                owner_topics_grow(accounts, i as nat);
            }
            if self.subscriptions.logs.contains(entry.0.as_slice(), gone) {
                list.push(Notice::Logs(i));
            }
            let dirty = entry.1.markers.owner || entry.1.markers.content;
            if dirty {
                list.push(Notice::Account(i));
                proof {
                    let more = owner_topics(accounts, (i + 1) as nat);
                    pruned_ignores_later(programs, owners, more, gone@, owners.len());
                }
                if self.subscriptions.programs.contains(entry.1.account.owner.as_slice(), gone) {
                    list.push(Notice::Program(i));
                }
            }
            proof {
                let own = account_notices(view, i, logs, programs, gone@);
                assert(list@ =~= before + own);
                assert(list@ =~= notices(accounts, logs, programs, gone@, (i + 1) as nat));
            }
            i += 1;
        }
        list
    }

    /// An account with other data, on its way into storage.
    pub open spec fn rewritten(account: AccountView, data: Seq<u8>) -> SharedView {
        SharedView {
            account: AccountView { data, ..account },
            cow: CoWAccount::Owned,
            markers: DirtyMarkers { owner: false, content: true },
        }
    }

    /// Sysvar accounts after a block, or what is wrong with them. Nothing is stored if one of
    /// them is absent.
    pub open spec fn sysvars_after(self, block: Block) -> Result<Seq<EntryView>, AccountsDBError> {
        match self.accountsdb.lookup(self.addresses.slot_hashes@) {
            None => Ok(Seq::empty()),
            Some(hashes) => match recorded_hashes(hashes.data, block.slot, block.hash) {
                None => Err(AccountsDBError::Serde),
                Some(hash_data) => match self.accountsdb.lookup(self.addresses.clock@) {
                    None => Ok(Seq::empty()),
                    Some(clock) => match recorded_clock(clock.data, block.slot, block.time) {
                        None => Err(AccountsDBError::Serde),
                        Some(clock_data) => Ok(
                            seq![
                                (self.addresses.slot_hashes, Self::rewritten(hashes, hash_data)),
                                (self.addresses.clock, Self::rewritten(clock, clock_data)),
                            ],
                        ),
                    },
                },
            },
        }
    }

    /// What `update_sysvars` does to account storage. Reads may be counted first.
    pub open spec fn updates_sysvars(
        self,
        block: Block,
        after: AccountsDB,
        result: Result<(), AccountsDBError>,
    ) -> bool {
        match self.sysvars_after(block) {
            Ok(entries) => if entries.len() == 0 {
                result is Ok && after.same_accounts(self.accountsdb)
            } else {
                exists|counted: AccountsDB| #[trigger]
                    counted.same_accounts(self.accountsdb) && counted.stores(entries, after, result)
            },
            Err(error) => result == Err::<(), AccountsDBError>(error) && after.same_accounts(
                self.accountsdb,
            ),
        }
    }

    /// What the end of a block does to account storage.
    pub open spec fn ends_block(
        self,
        block: Block,
        after: AccountsDB,
        result: Result<(), AccountsDBError>,
    ) -> bool {
        exists|stored: AccountsDB|
            (#[trigger] self.updates_sysvars(block, stored, result)) && match result {
                Ok(_) => after.volatile == stored.volatile && after.persisted.state() == (
                StoreState {
                    meta: DatabaseMeta { slot: block.slot, ..stored.persisted.meta },
                    ..stored.persisted.state()
                }),
                Err(_) => after == stored,
            }
    }

    /// Seals the active superblock `head`: account storage is packed and its checksum recorded.
    /// Returns the name of the snapshot, the volatile accounts that belong into it, the seal to
    /// be appended, and the superblock that follows, where the archive goes.
    pub fn finalize_superblock(&mut self, head: u64) -> (sealed: (
        String,
        Vec<(Pubkey, Account)>,
        SuperblockSeal,
        u64,
    ))
        requires
            old(self).wf(),
            head < u64::MAX,
        ensures
            final(self).wf(),
            final(self).same_beside_accounts(*old(self)),
            old(self).accountsdb.exports(head, final(self).accountsdb),
            sealed.0@ == "snapshot-"@ + crate::text::padded(head as nat, 9),
            crate::accountsdb::volatile::lists_accounts(
                sealed.1@,
                old(self).accountsdb.volatile.contents(),
            ),
            sealed.2 == (SuperblockSeal {
                id: head,
                checksum: final(self).accountsdb.persisted.state().checksum(),
                transactions: old(self).accountsdb.persisted.meta.transactions,
            }),
            sealed.3 == head + 1,
    {
        let (name, dump) = self.accountsdb.snapshot(head);
        let seal = self.superblocks().sealed();
        (name, dump, seal, head + 1)
    }

    /// The superblock after which the ledger has to be replayed, given its last slot, or `None`
    /// if account storage is at that slot.
    pub fn replay(&self, tip: Option<Slot>) -> (after: Option<u64>)
        ensures
            after == {
                let last = match tip {
                    Some(slot) => slot,
                    None => 0,
                };
                if self.accountsdb.persisted.meta.slot >= last {
                    None
                } else {
                    Some(self.accountsdb.persisted.meta.superblock)
                }
            },
    {
        let last: Slot = match tip {
            Some(slot) => slot,
            None => 0,
        };
        if self.accountsdb.slot() >= last {
            return None;
        }
        Some(self.accountsdb.superblock())
    }

    /// Records the checksum, so that account storage can be flushed.
    pub fn sync(&mut self)
        requires
            old(self).wf(),
        ensures
            final(self).wf(),
            final(self).same_beside_accounts(*old(self)),
            final(self).accountsdb.volatile == old(self).accountsdb.volatile,
            final(self).accountsdb.persisted.state() == (StoreState {
                meta: DatabaseMeta {
                    checksum: old(self).accountsdb.persisted.state().checksum(),
                    ..old(self).accountsdb.persisted.meta
                },
                ..old(self).accountsdb.persisted.state()
            }),
    {
        self.accountsdb.flush(true);
    }

    /// Drops the accounts mirrored from another chain, and gives the paying account its first
    /// balance again, if it exists. Returns what is to be appended to the ledger before.
    pub fn reset(&mut self, slot: Slot) -> (outcome: (Event, Result<(), AccountsDBError>))
        requires
            old(self).wf(),
        ensures
            final(self).wf(),
            final(self).same_beside_accounts(*old(self)),
            outcome.0 == Event::Reset(slot),
            old(self).resets(final(self).accountsdb, outcome.1),
    {
        let result = self.apply_reset();
        (Event::Reset(slot), result)
    }

    /// Account storage once the accounts mirrored from another chain were dropped. Reads may be
    /// counted.
    pub open spec fn dropped(self, left: AccountsDB) -> bool {
        &&& left.persisted.state() == (StoreState {
            meta: DatabaseMeta {
                stats: left.persisted.meta.stats,
                ..self.accountsdb.persisted.meta
            },
            ..self.accountsdb.persisted.state()
        })
        &&& left.volatile.contents() == system_only(self.accountsdb.volatile.contents())
    }

    /// The paying account gets its first balance again, if it exists.
    pub open spec fn refunds(
        self,
        left: AccountsDB,
        after: AccountsDB,
        result: Result<(), AccountsDBError>,
    ) -> bool {
        match left.lookup(self.authority@) {
            Some(account) => left.stores(
                seq![(self.authority, sponsored(account))],
                after,
                result,
            ),
            None => result is Ok && after == left,
        }
    }

    /// What a reset does to account storage.
    pub open spec fn resets(self, after: AccountsDB, result: Result<(), AccountsDBError>) -> bool {
        exists|left: AccountsDB|
            {
                &&& #[trigger] left.wf()
                &&& self.dropped(left)
                &&& self.refunds(left, after, result)
            }
    }

    /// Drops the accounts mirrored from another chain, and gives the paying account its first
    /// balance again, if it exists.
    pub fn apply_reset(&mut self) -> (result: Result<(), AccountsDBError>)
        requires
            old(self).wf(),
        ensures
            final(self).wf(),
            final(self).same_beside_accounts(*old(self)),
            old(self).resets(final(self).accountsdb, result),
    {
        self.accountsdb.reset();
        let ghost dropped = self.accountsdb;
        match self.accountsdb.loader().load(&self.authority) {
            Some(account) => {
                let ghost left = self.accountsdb;
                proof {
                    counted_reads(dropped, left, self.authority@);
                    lookup_sized(dropped, self.authority@);
                    stored_mirrors(left, seq![(self.authority, sponsored(account@))]);
                }
                let entry = AccountSharedData {
                    account: Account { lamports: SPONSOR_INIT_BALANCE, ..account },
                    cow: CoWAccount::Owned,
                    markers: DirtyMarkers { owner: false, content: true },
                };
                let list: Vec<AccountEntry> = vec![(self.authority, entry)];
                assert(entry_views(list@) =~= seq![(self.authority, sponsored(account@))]);
                let result = self.accountsdb.store(list);
                proof {
                    assert(left.wf());
                }
                result
            },
            None => {
                proof {
                    assert(self.accountsdb.wf());
                }
                Ok(())
            },
        }
    }
}

impl Keeper {
    /// Everything but subscriptions is as in `other`.
    pub open spec fn same_beside_subscriptions(self, other: Keeper) -> bool {
        &&& self.same_settings(other)
        &&& self.accountsdb == other.accountsdb
        &&& self.caches == other.caches
    }

}

/// What may be done with accounts.
pub struct AccountsAccessor<'a> {
    /// The keeper.
    pub keeper: &'a mut Keeper,
}

impl<'a> AccountsAccessor<'a> {
    /// Grants the right to change an account, with what the account is at that moment, or
    /// `None` if someone else has it.
    pub fn lock(self, pubkey: Pubkey) -> (lease: Option<AccountLease>)
        requires
            old(self.keeper).wf(),
        ensures
            final(self.keeper).wf(),
            old(self.keeper).locks(pubkey, lease, *final(self.keeper)),
    {
        let observed = self.keeper.observe(&pubkey);
        self.keeper.caches.accounts.lock(pubkey, observed)
    }

    /// Signatures of transactions that name an account, newest first.
    pub fn signatures(&self, ledger: &Ledger, params: &AccountSignaturesParams) -> (result: Result<
        Vec<AccountSignature>,
        LedgerError,
    >)
        requires
            ledger.wf(),
        ensures
            ledger.gives_history(*params, result),
    {
        ledger.account_signatures(params)
    }

    /// Follows one account. Returns how long the queue is.
    pub fn subscribe(self, account: &Pubkey, receiver: Receiver) -> (capacity: usize)
        requires
            old(self.keeper).wf(),
            old(self.keeper).subscriptions.accounts.senders.keys < u64::MAX,
        ensures
            final(self.keeper).wf(),
            final(self.keeper).same_beside_subscriptions(*old(self.keeper)),
            final(self.keeper).subscriptions == (Subscriptions {
                accounts: final(self.keeper).subscriptions.accounts,
                ..old(self.keeper).subscriptions
            }),
            old(self.keeper).subscriptions.accounts.registers(
                account@,
                receiver,
                final(self.keeper).subscriptions.accounts,
            ),
            capacity == old(self.keeper).subscriptions.accounts.capacity,
    {
        self.keeper.subscriptions.accounts.subscribe(account.as_slice(), receiver)
    }

    /// Follows the accounts that a program owns. Returns how long the queue is.
    pub fn subscribe_program(self, program: &Pubkey, receiver: Receiver) -> (capacity: usize)
        requires
            old(self.keeper).wf(),
            old(self.keeper).subscriptions.programs.senders.keys < u64::MAX,
        ensures
            final(self.keeper).wf(),
            final(self.keeper).same_beside_subscriptions(*old(self.keeper)),
            final(self.keeper).subscriptions == (Subscriptions {
                programs: final(self.keeper).subscriptions.programs,
                ..old(self.keeper).subscriptions
            }),
            old(self.keeper).subscriptions.programs.registers(
                program@,
                receiver,
                final(self.keeper).subscriptions.programs,
            ),
            capacity == old(self.keeper).subscriptions.programs.capacity,
    {
        self.keeper.subscriptions.programs.subscribe(program.as_slice(), receiver)
    }

    /// Becomes the only one who is told which accounts left the cache. Returns how long the queue is.
    pub fn subscribe_evictions(self) -> (result: Result<usize, KeeperError>)
        requires
            old(self.keeper).wf(),
        ensures
            final(self.keeper).wf(),
            final(self.keeper).same_beside_subscriptions(*old(self.keeper)),
            final(self.keeper).subscriptions == (Subscriptions {
                evictions: Unicast { registered: true, ..old(self.keeper).subscriptions.evictions },
                ..old(self.keeper).subscriptions
            }),
            match result {
                Ok(capacity) => !old(self.keeper).subscriptions.evictions.registered && capacity
                    == old(self.keeper).subscriptions.evictions.capacity,
                Err(KeeperError::SubscriptionRegistered(label)) => old(self.keeper).subscriptions.evictions.registered
                    && label@ == old(self.keeper).subscriptions.evictions.subscription.text(),
                Err(_) => false,
            },
    {
        self.keeper.subscriptions.evictions.subscribe()
    }

    /// Follows archived snapshots. Returns how long the queue is.
    pub fn subscribe_snapshots(self, receiver: Receiver) -> (capacity: usize)
        requires
            old(self.keeper).wf(),
            old(self.keeper).subscriptions.snapshots.senders.keys < u64::MAX,
        ensures
            final(self.keeper).wf(),
            final(self.keeper).same_beside_subscriptions(*old(self.keeper)),
            final(self.keeper).subscriptions == (Subscriptions {
                snapshots: final(self.keeper).subscriptions.snapshots,
                ..old(self.keeper).subscriptions
            }),
            old(self.keeper).subscriptions.snapshots.registers(
                Seq::empty(),
                receiver,
                final(self.keeper).subscriptions.snapshots,
            ),
            capacity == old(self.keeper).subscriptions.snapshots.capacity,
    {
        let topic: Vec<u8> = Vec::new();
        assert(topic@ =~= Seq::<u8>::empty());
        self.keeper.subscriptions.snapshots.subscribe(topic.as_slice(), receiver)
    }

    /// Updates the stored slot hashes and clock from a block. If one of the two accounts is
    /// absent, neither is stored.
    pub fn update_sysvars(self, block: Block) -> (result: Result<(), AccountsDBError>)
        requires
            old(self.keeper).wf(),
        ensures
            final(self.keeper).wf(),
            final(self.keeper).same_beside_accounts(*old(self.keeper)),
            old(self.keeper).updates_sysvars(block, final(self.keeper).accountsdb, result),
    {
        let hashes = match self.keeper.accountsdb.loader().load(&self.keeper.addresses.slot_hashes) {
            Some(account) => account,
            None => {
                return Ok(());
            },
        };
        let ghost first = self.keeper.accountsdb;
        proof {
            counted_reads(old(self.keeper).accountsdb, first, self.keeper.addresses.clock@);
        }
        let hash_data = match record_hash(&hashes.data, block.slot, block.hash) {
            Ok(data) => data,
            Err(error) => {
                return Err(error);
            },
        };
        let clock = match self.keeper.accountsdb.loader().load(&self.keeper.addresses.clock) {
            Some(account) => account,
            None => {
                return Ok(());
            },
        };
        let clock_data = match record_clock(&clock.data, block.slot, block.time) {
            Ok(data) => data,
            Err(error) => {
                return Err(error);
            },
        };
        let ghost counted = self.keeper.accountsdb;
        let ghost entries = old(self.keeper).sysvars_after(block)->Ok_0;
        let hash_account = rewrite(hashes, hash_data);
        let clock_account = rewrite(clock, clock_data);
        let list: Vec<AccountEntry> = vec![
            (self.keeper.addresses.slot_hashes, hash_account),
            (self.keeper.addresses.clock, clock_account),
        ];
        assert(entry_views(list@) =~= entries);
        assert(counted.same_accounts(old(self.keeper).accountsdb));
        proof {
            stored_mirrors(counted, entries);
            lookup_sized(old(self.keeper).accountsdb, self.keeper.addresses.slot_hashes@);
            lookup_sized(old(self.keeper).accountsdb, self.keeper.addresses.clock@);
        }
        self.keeper.accountsdb.store(list)
    }
}

/// What may be done with transactions.
pub struct TransactionsAccessor<'a> {
    /// The keeper.
    pub keeper: &'a mut Keeper,
}

impl<'a> TransactionsAccessor<'a> {
    /// Reads a transaction and its execution.
    pub fn get(&self, ledger: &Ledger, signature: &Signature) -> (result: Result<
        Option<TransactionResponse>,
        LedgerError,
    >)
        requires
            ledger.wf(),
        ensures
            ledger.gives_transaction(*signature, result),
    {
        ledger.transaction(signature)
    }

    /// Status of a transaction. A recent signature is answered from the cache, also if its
    /// transaction was not executed yet; any other one from the ledger.
    pub fn status(&self, ledger: &Ledger, signature: &Signature) -> (result: Result<
        Option<TransactionStatus>,
        LedgerError,
    >)
        requires
            self.keeper.wf(),
            ledger.wf(),
        ensures
            result == match value_of(old(self.keeper).caches.signatures.queue@, signature_key(*signature)) {
                Some(status) => Ok(status),
                None => read_status(ledger@.superblocks, ledger@.oldest(), *signature),
            },
    {
        match self.keeper.caches.signatures.get(&key_of_signature(signature)) {
            Some(status) => Ok(status),
            None => ledger.transaction_status(signature),
        }
    }

    /// Becomes the only one who is told of all processed transactions. Returns how long the queue is.
    pub fn subscribe_processed(self) -> (result: Result<usize, KeeperError>)
        requires
            old(self.keeper).wf(),
        ensures
            final(self.keeper).wf(),
            final(self.keeper).same_beside_subscriptions(*old(self.keeper)),
            final(self.keeper).subscriptions == (Subscriptions {
                transactions: Unicast { registered: true, ..old(self.keeper).subscriptions.transactions },
                ..old(self.keeper).subscriptions
            }),
            match result {
                Ok(capacity) => !old(self.keeper).subscriptions.transactions.registered && capacity
                    == old(self.keeper).subscriptions.transactions.capacity,
                Err(KeeperError::SubscriptionRegistered(label)) => old(self.keeper).subscriptions.transactions.registered
                    && label@ == old(self.keeper).subscriptions.transactions.subscription.text(),
                Err(_) => false,
            },
    {
        self.keeper.subscriptions.transactions.subscribe()
    }

    /// Waits for the status of a transaction.
    pub fn subscribe_signature(self, signature: &Signature, receiver: Receiver)
        requires
            old(self.keeper).wf(),
            old(self.keeper).subscriptions.signatures.senders.keys < u64::MAX,
        ensures
            final(self.keeper).wf(),
            final(self.keeper).same_beside_subscriptions(*old(self.keeper)),
            final(self.keeper).subscriptions == (Subscriptions {
                signatures: final(self.keeper).subscriptions.signatures,
                ..old(self.keeper).subscriptions
            }),
            final(self.keeper).subscriptions.signatures.senders@
                == old(self.keeper).subscriptions.signatures.senders@.insert(
                signature@,
                receivers_of(old(self.keeper).subscriptions.signatures.senders@, signature@).push(receiver),
            ),
    {
        self.keeper.subscriptions.signatures.subscribe(signature, receiver);
    }

    /// Follows the logs of transactions that name an account. Returns how long the queue is.
    pub fn subscribe_logs(self, account: &Pubkey, receiver: Receiver) -> (capacity: usize)
        requires
            old(self.keeper).wf(),
            old(self.keeper).subscriptions.logs.senders.keys < u64::MAX,
        ensures
            final(self.keeper).wf(),
            final(self.keeper).same_beside_subscriptions(*old(self.keeper)),
            final(self.keeper).subscriptions == (Subscriptions {
                logs: final(self.keeper).subscriptions.logs,
                ..old(self.keeper).subscriptions
            }),
            old(self.keeper).subscriptions.logs.registers(
                account@,
                receiver,
                final(self.keeper).subscriptions.logs,
            ),
            capacity == old(self.keeper).subscriptions.logs.capacity,
    {
        self.keeper.subscriptions.logs.subscribe(account.as_slice(), receiver)
    }

    /// Becomes the only one who is told what programs say to services. Returns how long the queue is.
    pub fn subscribe_service_messages(self) -> (result: Result<usize, KeeperError>)
        requires
            old(self.keeper).wf(),
        ensures
            final(self.keeper).wf(),
            final(self.keeper).same_beside_subscriptions(*old(self.keeper)),
            final(self.keeper).subscriptions == (Subscriptions {
                services: Unicast { registered: true, ..old(self.keeper).subscriptions.services },
                ..old(self.keeper).subscriptions
            }),
            match result {
                Ok(capacity) => !old(self.keeper).subscriptions.services.registered && capacity
                    == old(self.keeper).subscriptions.services.capacity,
                Err(KeeperError::SubscriptionRegistered(label)) => old(self.keeper).subscriptions.services.registered
                    && label@ == old(self.keeper).subscriptions.services.subscription.text(),
                Err(_) => false,
            },
    {
        self.keeper.subscriptions.services.subscribe()
    }

    /// Lets a transaction in, given its first signature, its recent block hash, and its bytes,
    /// and returns what is to be appended to the ledger. A signature whose beginning was seen
    /// recently is refused, and so is a block hash that is not recent. A refused transaction
    /// stays known by its signature, but has no status, and nobody is told.
    pub fn append(self, signature: Signature, blockhash: &BlockHash, payload: Vec<u8>) -> (result: Result<
        Event,
        TransactionError,
    >)
        requires
            old(self.keeper).wf(),
            old(self.keeper).caches.blocks.latest.slot + 1 + old(self.keeper).caches.signatures.ttl <= u64::MAX,
        ensures
            final(self.keeper).wf(),
            final(self.keeper).same_settings(*old(self.keeper)),
            final(self.keeper).accountsdb == old(self.keeper).accountsdb,
            final(self.keeper).subscriptions == old(self.keeper).subscriptions,
            final(self.keeper).caches.blocks == old(self.keeper).caches.blocks,
            final(self.keeper).caches.accounts == old(self.keeper).caches.accounts,
            final(self.keeper).caches.signatures.ttl == old(self.keeper).caches.signatures.ttl,
            ({
                let slot = (old(self.keeper).caches.blocks.latest.slot + 1) as u64;
                let key = signature_key(signature);
                let records = old(self.keeper).caches.signatures.queue@;
                let valid = has_key(old(self.keeper).caches.blocks.history.queue@, hash_key(*blockhash));
                &&& final(self.keeper).caches.signatures.queue@ == pushed(
                    records,
                    key,
                    None,
                    slot,
                    old(self.keeper).caches.signatures.ttl,
                )
                &&& if has_key(swept(records, slot, EVICTION_LIMIT as nat), key) {
                    result == Err::<Event, TransactionError>(TransactionError::AlreadyProcessed)
                } else if !valid {
                    result == Err::<Event, TransactionError>(TransactionError::BlockhashNotFound)
                } else {
                    result matches Ok(Event::Transaction(entry)) && entry.signature == signature
                        && entry.payload == payload
                }
            }),
    {
        let slot: Slot = self.keeper.blocks().current_slot();
        let key = key_of_signature(&signature);
        if !self.keeper.caches.signatures.push(key, None, slot) {
            return Err(TransactionError::AlreadyProcessed);
        }
        if !self.keeper.caches.blocks.is_valid(blockhash) {
            return Err(TransactionError::BlockhashNotFound);
        }
        Ok(Event::Transaction(TransactionEntry { signature, payload }))
    }

    /// Commits an execution. Says what the ledger is to record of it, whatever happens after, and
    /// what is to be sent: about its accounts if it succeeded, to the receiver of processed
    /// transactions in any case, and to those who wait for its status, which is known before
    /// they are told. If the accounts cannot be stored, nothing is sent.
    pub fn commit_execution(
        self,
        signature: Signature,
        record: &mut ExecutionRecord,
        closed: &Closed,
    ) -> (outcome: (ExecutionCommit, Result<Published, AccountsDBError>))
        requires
            old(self.keeper).wf(),
            old(record).result matches Ok(executed) ==> entries_ok(
                entry_views(executed.accounts@),
            ),
        ensures
            commits_as(signature, *old(record), outcome.0, *final(record)),
            final(self.keeper).wf(),
            old(self.keeper).publishes(
                signature,
                *old(record),
                outcome.0.status,
                *closed,
                *final(self.keeper),
                outcome.1,
            ),
    {
        let commit = execution_commit(signature, record);
        let result = self.publish_execution(signature, record, commit.status, closed);
        (commit, result)
    }

    /// Commits the accounts of an execution whose record was appended to the ledger, and says
    /// what is to be sent.
    pub fn publish_execution(
        self,
        signature: Signature,
        record: &ExecutionRecord,
        status: TransactionStatus,
        closed: &Closed,
    ) -> (result: Result<Published, AccountsDBError>)
        requires
            old(self.keeper).wf(),
            record.result matches Ok(executed) ==> entries_ok(entry_views(executed.accounts@)),
        ensures
            final(self.keeper).wf(),
            old(self.keeper).publishes(
                signature,
                *record,
                status,
                *closed,
                *final(self.keeper),
                result,
            ),
    {
        let success = match self.keeper.commit_state_transitions(record) {
            Ok(success) => success,
            Err(error) => {
                return Err(error);
            },
        };
        let mut list: Vec<Notice> = Vec::new();
        assert(list@ =~= Seq::<Notice>::empty());
        match &record.result {
            Ok(executed) => if success {
                list = self.keeper.fanout(executed, &closed.receivers);
            },
            Err(_) => {},
        }
        let services = success && self.keeper.subscriptions.services.sends(closed.services);
        let transaction = self.keeper.subscriptions.transactions.sends(closed.transactions);
        self.keeper.caches.signatures.update(&key_of_signature(&signature), Some(status));
        let waiters = self.keeper.subscriptions.signatures.send(&signature);
        Ok(Published { status, notices: list, services, transaction, waiters })
    }

    /// Commits a replayed execution and remembers its status. Nothing is appended or sent.
    pub fn commit_replay(self, signature: Signature, record: &ExecutionRecord) -> (result: Result<
        (),
        AccountsDBError,
    >)
        requires
            old(self.keeper).wf(),
            record.result matches Ok(executed) ==> entries_ok(entry_views(executed.accounts@)),
            record.slot + old(self.keeper).caches.signatures.ttl <= u64::MAX,
        ensures
            final(self.keeper).wf(),
            final(self.keeper).same_settings(*old(self.keeper)),
            final(self.keeper).subscriptions == old(self.keeper).subscriptions,
            final(self.keeper).caches.blocks == old(self.keeper).caches.blocks,
            final(self.keeper).caches.accounts == old(self.keeper).caches.accounts,
            final(self.keeper).caches.signatures.ttl == old(self.keeper).caches.signatures.ttl,
            old(self.keeper).accountsdb.commits(
                old(self.keeper).transitions(*record),
                final(self.keeper).accountsdb,
                result,
            ),
            result is Err ==> final(self.keeper).caches == old(self.keeper).caches,
            result is Ok ==> final(self.keeper).caches.signatures.queue@ == pushed(
                old(self.keeper).caches.signatures.queue@,
                signature_key(signature),
                Some(TransactionStatus { result: flattened(*record), slot: record.slot }),
                record.slot,
                old(self.keeper).caches.signatures.ttl,
            ),
    {
        match self.keeper.commit_state_transitions(record) {
            Ok(_) => {},
            Err(error) => {
                return Err(error);
            },
        }
        let status = transaction_status(record);
        let _ = self.keeper.caches.signatures.push(key_of_signature(&signature), Some(status), record.slot);
        Ok(())
    }
}

/// What may be done with blocks.
pub struct BlocksAccessor<'a> {
    /// The keeper.
    pub keeper: &'a mut Keeper,
}

impl<'a> BlocksAccessor<'a> {
    /// Reads a block.
    pub fn get(&self, ledger: &Ledger, params: BlockParams) -> (result: Result<
        Option<BlockResponse>,
        LedgerError,
    >)
        requires
            ledger.wf(),
        ensures
            ledger.gives_block(params, result),
    {
        ledger.block(params)
    }

    /// The latest block.
    pub fn latest(&self) -> (block: Block)
        ensures
            block == old(self.keeper).caches.blocks.latest,
    {
        self.keeper.caches.blocks.latest
    }

    /// The slot that is being built.
    pub fn current_slot(&self) -> (slot: Slot)
        requires
            self.keeper.caches.blocks.latest.slot < u64::MAX,
        ensures
            slot == old(self.keeper).caches.blocks.latest.slot + 1,
    {
        self.keeper.caches.blocks.latest.slot + 1
    }

    /// Whether a block hash is among the recent ones.
    pub fn is_valid(&self, hash: &BlockHash) -> (valid: bool)
        requires
            self.keeper.wf(),
        ensures
            valid == has_key(old(self.keeper).caches.blocks.history.queue@, hash_key(*hash)),
    {
        self.keeper.caches.blocks.is_valid(hash)
    }

    /// Follows new blocks. Returns how long the queue is.
    pub fn subscribe(self, receiver: Receiver) -> (capacity: usize)
        requires
            old(self.keeper).wf(),
            old(self.keeper).subscriptions.blocks.senders.keys < u64::MAX,
        ensures
            final(self.keeper).wf(),
            final(self.keeper).same_beside_subscriptions(*old(self.keeper)),
            final(self.keeper).subscriptions == (Subscriptions {
                blocks: final(self.keeper).subscriptions.blocks,
                ..old(self.keeper).subscriptions
            }),
            old(self.keeper).subscriptions.blocks.registers(
                Seq::empty(),
                receiver,
                final(self.keeper).subscriptions.blocks,
            ),
            capacity == old(self.keeper).subscriptions.blocks.capacity,
    {
        let topic: Vec<u8> = Vec::new();
        assert(topic@ =~= Seq::<u8>::empty());
        self.keeper.subscriptions.blocks.subscribe(topic.as_slice(), receiver)
    }

    /// Ends a block: it becomes the latest one, its hash is accepted from now on, the sysvars
    /// follow it, and account storage is at its slot. Returns those to whom the block is to be
    /// sent once it was appended to the ledger; in replay it is neither appended nor sent.
    pub fn append(self, block: Block, replay: bool) -> (outcome: (
        Option<Vec<Receiver>>,
        Result<(), AccountsDBError>,
    ))
        requires
            old(self.keeper).wf(),
            block.slot + old(self.keeper).caches.blocks.history.ttl <= u64::MAX,
        ensures
            final(self.keeper).wf(),
            final(self.keeper).same_settings(*old(self.keeper)),
            final(self.keeper).subscriptions == old(self.keeper).subscriptions,
            final(self.keeper).caches.signatures == old(self.keeper).caches.signatures,
            final(self.keeper).caches.accounts == old(self.keeper).caches.accounts,
            final(self.keeper).caches.blocks.latest == block,
            final(self.keeper).caches.blocks.history.ttl == old(self.keeper).caches.blocks.history.ttl,
            final(self.keeper).caches.blocks.history.queue@ == pushed(
                old(self.keeper).caches.blocks.history.queue@,
                hash_key(block.hash),
                block.slot,
                block.slot,
                old(self.keeper).caches.blocks.history.ttl,
            ),
            match outcome.0 {
                Some(list) => !replay && list@ == receivers_of(
                    old(self.keeper).subscriptions.blocks.senders@,
                    Seq::empty(),
                ),
                None => replay,
            },
            old(self.keeper).ends_block(block, final(self.keeper).accountsdb, outcome.1),
    {
        let receivers = if replay {
            None
        } else {
            let topic: Vec<u8> = Vec::new();
            assert(topic@ =~= Seq::<u8>::empty());
            Some(self.keeper.subscriptions.blocks.receivers(topic.as_slice()))
        };
        self.keeper.caches.blocks.push(block);
        let result = self.keeper.accounts().update_sysvars(block);
        let ghost stored = self.keeper.accountsdb;
        assert(old(self.keeper).updates_sysvars(block, stored, result));
        if result.is_ok() {
            self.keeper.accountsdb.set_slot(block.slot);
        }
        assert(old(self.keeper).ends_block(block, self.keeper.accountsdb, result));
        (receivers, result)
    }
}

/// What may be done with superblocks.
pub struct SuperblockAccessor<'a> {
    /// The keeper.
    pub keeper: &'a mut Keeper,
}

impl<'a> SuperblockAccessor<'a> {
    /// What account storage was last sealed with.
    pub fn sealed(&self) -> (seal: SuperblockSeal)
        ensures
            seal == (SuperblockSeal {
                id: old(self.keeper).accountsdb.persisted.meta.superblock,
                checksum: old(self.keeper).accountsdb.persisted.meta.checksum,
                transactions: old(self.keeper).accountsdb.persisted.meta.transactions,
            }),
    {
        SuperblockSeal {
            id: self.keeper.accountsdb.superblock(),
            checksum: self.keeper.accountsdb.checksum(),
            transactions: self.keeper.accountsdb.transactions(),
        }
    }

    /// Up to where the ledger is durable.
    pub fn position(&self, ledger: &Ledger) -> (position: BlockstorePosition)
        requires
            ledger.wf(),
        ensures
            position == (BlockstorePosition {
                superblock: ledger@.meta.head,
                offset: ledger@.superblocks.last().meta.cursors.blockstore,
            }),
    {
        ledger.position()
    }

    /// What is to be appended to the ledger to seal the active superblock.
    pub fn append(&self, seal: SuperblockSeal) -> (event: Event)
        ensures
            event == Event::Superblock(seal),
    {
        Event::Superblock(seal)
    }

    /// Adopts a snapshot that was taken elsewhere: the ledger goes on behind its seal and takes
    /// its transaction count over.
    pub fn bootstrap(&self, seal: SuperblockSeal) -> (event: Event)
        ensures
            event == Event::Bootstrap(seal),
    {
        Event::Bootstrap(seal)
    }

    /// What is to be appended to the ledger so that everything before becomes durable.
    pub fn sync(&self, is_final: bool) -> (event: Event)
        ensures
            event == (Event::Sync { is_final }),
    {
        Event::Sync { is_final }
    }
}

/// The paying account with its first balance, on its way into storage.
pub open spec fn sponsored(account: AccountView) -> SharedView {
    SharedView {
        account: AccountView { lamports: SPONSOR_INIT_BALANCE, ..account },
        cow: CoWAccount::Owned,
        markers: DirtyMarkers { owner: false, content: true },
    }
}

/// Counting reads does not change what is read.
proof fn counted_reads(before: AccountsDB, after: AccountsDB, key: Seq<u8>)
    requires
        after.same_accounts(before),
    ensures
        after.lookup(key) == before.lookup(key),
{
    assert(after.persisted.state().accounts() =~= before.persisted.state().accounts());
}

/// Storing accounts keeps the volatile backend a mirror.
proof fn stored_mirrors(db: AccountsDB, entries: Seq<EntryView>)
    requires
        db.volatile.mirrors(),
    ensures
        ({
            let mirror = crate::accountsdb::db::volatile_part(entries, entries.len());
            crate::accountsdb::volatile::mirror_only(
                crate::accountsdb::volatile::mirrored_all(
                    db.volatile.contents(),
                    mirror,
                    mirror.len(),
                ),
            )
        }),
{
    let mirror = crate::accountsdb::db::volatile_part(entries, entries.len());
    volatile_accounts_are_mirrors(db.volatile.contents(), mirror, mirror.len());
}

/// An account that is read, and that the engine decides about, has a serialized size.
pub(crate) proof fn lookup_sized(db: AccountsDB, key: Seq<u8>)
    requires
        db.wf(),
        db.volatile.mirrors(),
    ensures
        db.lookup(key) matches Some(account) ==> account.mode.is_authoritative() ==> account.units
            > 0,
{
    if db.persisted.state().accounts().contains_key(key) {
        assert(db.persisted.state().located.contains_key(key));
    }
}

fn rewrite(account: Account, data: Vec<u8>) -> (shared: AccountSharedData)
    ensures
        shared@ == Keeper::rewritten(account@, data@),
{
    AccountSharedData {
        account: Account { data, ..account },
        cow: CoWAccount::Owned,
        markers: DirtyMarkers { owner: false, content: true },
    }
}

/// A transaction that was let in is refused as long as it is remembered.
pub proof fn transactions_are_let_in_once(
    records: Seq<crate::keeper::expiring::ExpiringRecord<Option<TransactionStatus>>>,
    signature: Signature,
    slot: Slot,
    later: Slot,
    ttl: Slot,
)
    requires
        slot + ttl <= u64::MAX,
        !has_key(swept(records, slot, EVICTION_LIMIT as nat), signature_key(signature)),
        later < slot + ttl,
    ensures
        has_key(
            swept(
                pushed(records, signature_key(signature), None, slot, ttl),
                later,
                EVICTION_LIMIT as nat,
            ),
            signature_key(signature),
        ),
{
    let key = signature_key(signature);
    let after = pushed(records, key, None, slot, ttl);
    crate::keeper::expiring::sweeps_only_expired(after, later, EVICTION_LIMIT as nat);
    let left = swept(after, later, EVICTION_LIMIT as nat);
    let n = after.len() - left.len();
    if left.len() == 0 {
        assert(after[after.len() - 1].expires <= later);
    }
    assert(left.last() == after.last());
    assert(left[left.len() - 1].key == key);
}

/// The hash of the latest block is accepted.
pub proof fn latest_hash_is_accepted(
    records: Seq<crate::keeper::expiring::ExpiringRecord<Slot>>,
    block: Block,
    ttl: Slot,
)
    ensures
        has_key(
            pushed(records, hash_key(block.hash), block.slot, block.slot, ttl),
            hash_key(block.hash),
        ),
{
    let key = hash_key(block.hash);
    let left = swept(records, block.slot, EVICTION_LIMIT as nat);
    let after = pushed(records, key, block.slot, block.slot, ttl);
    if !has_key(left, key) {
        assert(after[after.len() - 1].key == key);
    }
}

/// A transaction that was not executed, or failed, changes no account.
pub proof fn failures_change_nothing(keeper: Keeper, record: ExecutionRecord)
    requires
        !succeeded(record),
    ensures
        keeper.transitions(record) == Seq::<EntryView>::empty(),
{
}

} // verus!
