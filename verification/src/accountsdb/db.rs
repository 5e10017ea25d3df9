//! The account store: routing between the two backends, reads across both, and upkeep.

use vstd::prelude::*;

use crate::accountsdb::compact::{is_pass, total_weight};
use crate::accountsdb::defrag::{Defragged, Hole, Offset, Run};
use crate::accountsdb::index::{key_tail, walks_before, OwnerAndOffset};
use crate::accountsdb::storage::{bumped, first_header, DatabaseMeta, Limits, Stats};
use crate::accountsdb::store::{
    place_bytes, place_key, refused, tag_of, PersistedStore, StoreState,
};
use crate::accountsdb::volatile::{keys_ascend, mirrored, mirrored_all, system_only, VolatileStore};
use crate::accountsdb::AccountsDBError;
use crate::types::{
    durable_entry, entries_ok, entry_views, Account, AccountEntry, AccountMode, AccountView,
    CoWAccount, EntryView, Pubkey, Slot,
};

verus! {

/// Whether an entry must touch the volatile backend: values of their own always do, views of
/// images only if the engine no longer decides about them.
pub open spec fn touches_volatile(entry: EntryView) -> bool {
    entry.1.cow == CoWAccount::Owned || !entry.1.account.mode.is_authoritative()
}

/// The entries among the first `n` that touch the volatile backend.
pub open spec fn volatile_part(entries: Seq<EntryView>, n: nat) -> Seq<EntryView>
    decreases n,
{
    if n == 0 {
        Seq::empty()
    } else if touches_volatile(entries[n - 1]) {
        volatile_part(entries, (n - 1) as nat).push(entries[n - 1])
    } else {
        volatile_part(entries, (n - 1) as nat)
    }
}

/// Persisted accounts after one entry that was stored. Every entry touches the persisted
/// backend: one that the engine does not decide about removes what is left there.
pub open spec fn persisted_after(
    accounts: Map<Seq<u8>, AccountView>,
    entry: EntryView,
) -> Map<Seq<u8>, AccountView> {
    let (key, shared) = entry;
    let mode = shared.account.mode;
    if !mode.is_authoritative() || mode == AccountMode::Closed {
        accounts.remove(key@)
    } else if shared.cow == CoWAccount::Owned {
        accounts.insert(key@, shared.account)
    } else if shared.markers.any() && accounts.contains_key(key@) {
        accounts.insert(key@, shared.account)
    } else {
        accounts
    }
}

/// Volatile accounts after one entry that was stored.
pub open spec fn volatile_after(
    accounts: Map<Seq<u8>, AccountView>,
    entry: EntryView,
) -> Map<Seq<u8>, AccountView> {
    if touches_volatile(entry) {
        mirrored(accounts, entry)
    } else {
        accounts
    }
}

/// What a read of `key` returns: the volatile account if there is one, else the persisted one.
pub open spec fn visible(
    persisted: Map<Seq<u8>, AccountView>,
    volatile: Map<Seq<u8>, AccountView>,
    key: Seq<u8>,
) -> Option<AccountView> {
    if volatile.contains_key(key) {
        Some(volatile[key])
    } else if persisted.contains_key(key) {
        Some(persisted[key])
    } else {
        None
    }
}

/// No address is held by both backends.
pub open spec fn exclusive(
    persisted: Map<Seq<u8>, AccountView>,
    volatile: Map<Seq<u8>, AccountView>,
) -> bool {
    forall|key: Seq<u8>|
        #![trigger persisted.contains_key(key)]
        #![trigger volatile.contains_key(key)]
        !(persisted.contains_key(key) && volatile.contains_key(key))
}

/// What storing one entry does to the persisted accounts.
pub proof fn applied_accounts(s: StoreState, entry: EntryView)
    requires
        s.wf(),
        durable_entry(entry) ==> entry.1.account.units > 0,
    ensures
        s.applied(entry) matches Some(t) ==> t.accounts() == persisted_after(s.accounts(), entry),
{
    if let Some(t) = s.applied(entry) {
        let (key, shared) = entry;
        crate::accountsdb::store::applied_wf(s, entry);
        let expected = persisted_after(s.accounts(), entry);
        assert forall|k: Seq<u8>| t.located.contains_key(k) <==> #[trigger] expected.contains_key(
            k,
        ) by {}
        assert forall|k: Seq<u8>| t.located.contains_key(k) implies #[trigger] t.accounts()[k]
            == expected[k] by {
            crate::accountsdb::store::untouched_images(s, entry, k);
        }
        assert(t.accounts() =~= expected);
    }
}

/// A read gives back the last write: an account that was stored is what a read of its address
/// returns, and a closed one is gone. This holds of every value of its own, and of a changed
/// view of an image whose address the volatile backend does not hold.
pub proof fn read_after_write(
    persisted: Map<Seq<u8>, AccountView>,
    volatile: Map<Seq<u8>, AccountView>,
    entry: EntryView,
)
    requires
        entry.1.cow == CoWAccount::Borrowed ==> entry.1.markers.any() && persisted.contains_key(
            entry.0@,
        ) && !volatile.contains_key(entry.0@),
    ensures
        visible(
            persisted_after(persisted, entry),
            volatile_after(volatile, entry),
            entry.0@,
        ) == if entry.1.account.mode == AccountMode::Closed {
            None
        } else {
            Some(entry.1.account)
        },
{
}

/// Storing one account leaves what a read of any other address returns.
pub proof fn write_is_local(
    persisted: Map<Seq<u8>, AccountView>,
    volatile: Map<Seq<u8>, AccountView>,
    entry: EntryView,
    key: Seq<u8>,
)
    requires
        key != entry.0@,
    ensures
        visible(persisted_after(persisted, entry), volatile_after(volatile, entry), key)
            == visible(persisted, volatile, key),
{
}

/// Mode changes move an account between the backends: neither keeps a stale copy.
pub proof fn entry_keeps_backends_exclusive(
    persisted: Map<Seq<u8>, AccountView>,
    volatile: Map<Seq<u8>, AccountView>,
    entry: EntryView,
)
    requires
        exclusive(persisted, volatile),
    ensures
        exclusive(persisted_after(persisted, entry), volatile_after(volatile, entry)),
{
    let p = persisted_after(persisted, entry);
    let v = volatile_after(volatile, entry);
    assert forall|key: Seq<u8>| !(#[trigger] p.contains_key(key) && v.contains_key(key)) by {
        assert(!(persisted.contains_key(key) && volatile.contains_key(key)));
    }
}

/// Account store.
pub struct AccountsDB {
    /// Backend for accounts that the engine decides about.
    pub persisted: PersistedStore,
    /// Backend for accounts mirrored from another chain.
    pub volatile: VolatileStore,
}

impl AccountsDB {
    /// What holds of every account store: its backends are well-formed.
    pub open spec fn wf(self) -> bool {
        self.persisted.wf() && self.volatile.wf()
    }

    /// No address is held by both backends. So it is in a new store, and in one that was
    /// restored with a dump of its own, and every operation keeps it.
    pub open spec fn apart(self) -> bool {
        exclusive(self.persisted.state().accounts(), self.volatile.contents())
    }

    /// What a read of `key` returns.
    pub open spec fn lookup(self, key: Seq<u8>) -> Option<AccountView> {
        visible(self.persisted.state().accounts(), self.volatile.contents(), key)
    }

    /// What storing `entries` leads to.
    pub open spec fn stores(
        self,
        entries: Seq<EntryView>,
        after: AccountsDB,
        result: Result<(), AccountsDBError>,
    ) -> bool {
        let mirror = volatile_part(entries, entries.len());
        match self.persisted.state().applied_all(entries, entries.len()) {
            Some(next) => {
                &&& result is Ok
                &&& after.persisted.state() == next
                &&& after.persisted.meta.transactions == self.persisted.meta.transactions
                &&& after.volatile.contents() == mirrored_all(
                    self.volatile.contents(),
                    mirror,
                    mirror.len(),
                )
            },
            None => {
                &&& result == Err::<(), AccountsDBError>(AccountsDBError::Allocation)
                &&& refused(self.persisted.state(), entries, after.persisted.state())
                &&& after.persisted.state().accounts() == self.persisted.state().accounts()
                &&& after.persisted.state().free == self.persisted.state().free
                &&& after.persisted.meta.transactions == self.persisted.meta.transactions
                &&& after.volatile == self.volatile
            },
        }
    }

    /// What committing `entries` leads to.
    pub open spec fn commits(
        self,
        entries: Seq<EntryView>,
        after: AccountsDB,
        result: Result<(), AccountsDBError>,
    ) -> bool {
        let mirror = volatile_part(entries, entries.len());
        match self.persisted.state().applied_all(entries, entries.len()) {
            Some(next) => {
                &&& result is Ok
                &&& after.persisted.state() == (StoreState {
                    meta: DatabaseMeta {
                        transactions: bumped(self.persisted.meta.transactions, 1),
                        ..next.meta
                    },
                    ..next
                })
                &&& after.volatile.contents() == mirrored_all(
                    self.volatile.contents(),
                    mirror,
                    mirror.len(),
                )
            },
            None => {
                &&& result == Err::<(), AccountsDBError>(AccountsDBError::Allocation)
                &&& refused(self.persisted.state(), entries, after.persisted.state())
                &&& after.persisted.state().accounts() == self.persisted.state().accounts()
                &&& after.persisted.state().free == self.persisted.state().free
                &&& after.persisted.meta.transactions == self.persisted.meta.transactions
                &&& after.volatile == self.volatile
            },
        }
    }

    /// Both stores hold the same accounts in the same places, and their headers differ in
    /// counters alone.
    pub open spec fn same_accounts(self, other: AccountsDB) -> bool {
        &&& self.volatile == other.volatile
        &&& self.persisted.state() == (StoreState {
            meta: DatabaseMeta { stats: self.persisted.meta.stats, ..other.persisted.meta },
            ..other.persisted.state()
        })
    }

    /// An empty store that restores the volatile accounts of `dump`.
    pub fn new(limits: Limits, dump: Vec<(Pubkey, Account)>) -> (db: AccountsDB)
        requires
            limits.wf(),
        ensures
            db.wf(),
            db.apart(),
            db.persisted.limits == limits,
            db.persisted.meta == first_header(limits),
            db.persisted.state().accounts() == Map::<Seq<u8>, AccountView>::empty(),
            db.persisted.state().free == Set::<Hole>::empty(),
            db.volatile.contents() == crate::accountsdb::volatile::restored(dump@, dump@.len()),
    {
        AccountsDB { persisted: PersistedStore::new(limits), volatile: VolatileStore::new(dump) }
    }

    /// Stores accounts in the backend that matches their mode, and removes stale copies from
    /// the other one. If the persisted backend fails, nothing is stored.
    pub fn store(&mut self, entries: Vec<AccountEntry>) -> (result: Result<(), AccountsDBError>)
        requires
            old(self).wf(),
            entries_ok(entry_views(entries@)),
        ensures
            final(self).wf(),
            old(self).apart() ==> final(self).apart(),
            old(self).stores(entry_views(entries@), *final(self), result),
    {
        let ghost given = entries@;
        let ghost all = entry_views(entries@);
        let ghost start = self.persisted.state();
        let mut durable: Vec<AccountEntry> = Vec::new();
        let mut mirror: Vec<AccountEntry> = Vec::new();
        for entry in it: entries
            invariant
                it.seq() == given,
                all == entry_views(given),
                entry_views(durable@) == all.take(it.index() as int),
                entry_views(mirror@) == volatile_part(all, it.index() as nat),
        {
            let ghost n = it.index() as int;
            assert(entry == given[n]);
            assert(all[n] == (entry.0, entry.1@));
            let ghost p = durable@;
            let ghost v = mirror@;
            let authoritative = entry.1.account.mode.authoritative();
            let borrowed = entry.1.cow == CoWAccount::Borrowed;
            if borrowed && authoritative {
                durable.push(entry);
            } else {
                durable.push((entry.0, entry.1.clone()));
                mirror.push(entry);
            }
            proof {
                assert(entry_views(durable@) =~= entry_views(p).push(all[n]));
                if touches_volatile(all[n]) {
                    assert(entry_views(mirror@) =~= entry_views(v).push(all[n]));
                }
                assert(entry_views(durable@) =~= all.take(n + 1));
                assert(entry_views(mirror@) =~= volatile_part(all, (n + 1) as nat));
            }
        }
        let ghost part = entry_views(durable@);
        proof {
            assert(part =~= all);
            crate::accountsdb::store::header_keeps_position(start, part, part.len());
        }
        match self.persisted.upsert(durable) {
            Ok(()) => {},
            Err(e) => {
                proof {
                    let k = choose|k: nat|
                        k < part.len() && crate::accountsdb::store::refused_at(
                            start,
                            part,
                            k,
                            self.persisted.state(),
                        );
                    crate::accountsdb::store::header_keeps_position(start, part, k);
                    assert(self.persisted.state().accounts() =~= start.accounts());
                }
                return Err(e);
            },
        }
        let ghost held = self.volatile.contents();
        self.volatile.upsert(mirror);
        proof {
            crate::accountsdb::laws::persisted_follow(start, all, all.len());
            crate::accountsdb::laws::volatile_follow(held, all, all.len());
            if exclusive(start.accounts(), held) {
                crate::accountsdb::laws::batches_keep_exclusive(
                    start.accounts(),
                    held,
                    all,
                    all.len(),
                );
            }
        }
        Ok(())
    }

    /// Commits the account changes of one transaction. The transaction is counted only if
    /// every change was stored, and also if there was none.
    pub fn commit(&mut self, entries: Vec<AccountEntry>) -> (result: Result<(), AccountsDBError>)
        requires
            old(self).wf(),
            entries_ok(entry_views(entries@)),
        ensures
            final(self).wf(),
            old(self).apart() ==> final(self).apart(),
            old(self).commits(entry_views(entries@), *final(self), result),
    {
        match self.store(entries) {
            Ok(()) => {},
            Err(e) => {
                return Err(e);
            },
        }
        let ghost stored = self.persisted.state();
        self.persisted.meta.transactions = self.persisted.meta.transactions.wrapping_add(1);
        proof {
            crate::accountsdb::store::header_is_free(stored, self.persisted.state());
        }
        Ok(())
    }

    /// Whether `reader` may make something of the account at `key`.
    pub open spec fn hands<F, R>(self, key: Seq<u8>, reader: F, made: R) -> bool where
        F: Fn(&Account) -> R,
     {
        exists|account: Account| #[trigger]
            makes(reader, account, made) && Some(account@) == self.lookup(key)
    }

    /// What reading the account at `key` leaves: a persisted one counts as a read.
    pub open spec fn loads(self, key: Seq<u8>, after: AccountsDB) -> bool {
        &&& after.wf()
        &&& after.volatile == self.volatile
        &&& after.persisted.state() == (StoreState {
            meta: after.persisted.meta,
            ..self.persisted.state()
        })
        &&& after.persisted.meta == if self.volatile.contents().contains_key(key) || self.lookup(
            key,
        ) is None {
            self.persisted.meta
        } else {
            DatabaseMeta {
                stats: Stats {
                    reads: bumped(self.persisted.meta.stats.reads, 1),
                    ..self.persisted.meta.stats
                },
                ..self.persisted.meta
            }
        }
    }

    /// Reader of single accounts.
    pub fn loader(&mut self) -> (loader: AccountLoader<'_>)
        ensures
            *loader.db == *old(self),
            *final(self) == *final(loader.db),
    {
        AccountLoader::new(self)
    }

    /// Copies the accounts that `owner` owns: persisted ones first, in the order in which the
    /// program table is walked, then volatile ones by address.
    ///
    /// The program table knows programs by the second half of their address.
    pub fn program(&mut self, owner: &Pubkey) -> (list: Vec<(Pubkey, Account)>)
        requires
            old(self).wf(),
        ensures
            final(self).wf(),
            old(self).apart() ==> final(self).apart(),
            final(self).volatile == old(self).volatile,
            final(self).persisted.state().accounts() == old(self).persisted.state().accounts(),
            exists|n: int|
                {
                    &&& 0 <= n <= list@.len()
                    &&& final(self).persisted.state() == (StoreState {
                        meta: read_header(old(self).persisted.meta, n),
                        ..old(self).persisted.state()
                    })
                    &&& #[trigger] walks_program(
                        old(self).persisted.state(),
                        *owner,
                        list@.take(n),
                    )
                    &&& lists_program(old(self).volatile.contents(), *owner, list@.skip(n))
                },
    {
        let ghost start = self.persisted.state();
        let mut list = self.persisted.program(owner);
        let ghost durable = list@;
        let keys = self.volatile.program(owner);
        let mut i: usize = 0;
        while i < keys.len()
            invariant
                i <= keys@.len(),
                list@.len() == durable.len() + i,
                list@.take(durable.len() as int) == durable,
                self.wf(),
                keys_ascend(keys@),
                forall|key: Pubkey| #[trigger]
                    keys@.contains(key) <==> self.volatile.contents().contains_key(key@)
                        && self.volatile.contents()[key@].owner@ == owner@,
                forall|j: int|
                    0 <= j < i ==> (#[trigger] list@[durable.len() + j]).0 == keys@[j]
                        && list@[durable.len() + j].1@ == self.volatile.contents()[keys@[j]@],
            decreases keys@.len() - i,
        {
            let ghost before = list@;
            assert(keys@.contains(keys@[i as int]));
            if let Some(account) = self.volatile.load(&keys[i]) {
                list.push((keys[i], account));
            }
            assert(list@.take(durable.len() as int) =~= before.take(durable.len() as int));
            i += 1;
        }
        proof {
            let n = durable.len() as int;
            let tail = list@.skip(n);
            assert(lists_program(self.volatile.contents(), *owner, tail)) by {
                assert forall|j: int| 0 <= j < tail.len() implies (#[trigger] tail[j]).0 == keys@[j]
                    && tail[j].1@ == self.volatile.contents()[keys@[j]@] by {
                    assert(tail[j] == list@[n + j]);
                }
                assert forall|a: int, b: int| 0 <= a < b < tail.len() implies crate::bytes::lex_lt(
                    (#[trigger] tail[a]).0@,
                    (#[trigger] tail[b]).0@,
                ) by {
                    assert(crate::bytes::lex_lt(keys@[a]@, keys@[b]@));
                }
                assert forall|j: int| 0 <= j < tail.len() implies self.volatile.contents().contains_key(
                    (#[trigger] tail[j]).0@,
                ) && self.volatile.contents()[tail[j].0@] == tail[j].1@ && tail[j].1.owner@
                    == owner@ by {
                    assert(keys@.contains(keys@[j]));
                }
                assert forall|key: Pubkey|
                    #![trigger self.volatile.contents().contains_key(key@)]
                    self.volatile.contents().contains_key(key@)
                        && self.volatile.contents()[key@].owner@ == owner@ implies exists|j: int|
                    0 <= j < tail.len() && (#[trigger] tail[j]).0 == key by {
                    assert(keys@.contains(key));
                    let j = choose|j: int| 0 <= j < keys@.len() && keys@[j] == key;
                    assert(tail[j].0 == key);
                }
            }
            assert(walks_program(start, *owner, list@.take(n)));
        }
        list
    }

    /// Current slot.
    pub fn slot(&self) -> (slot: Slot)
        ensures
            slot == self.persisted.meta.slot,
    {
        self.persisted.meta.slot
    }

    /// Sets the current slot.
    pub fn set_slot(&mut self, slot: Slot)
        requires
            old(self).wf(),
        ensures
            final(self).wf(),
            old(self).apart() ==> final(self).apart(),
            final(self).volatile == old(self).volatile,
            final(self).persisted.state() == (StoreState {
                meta: DatabaseMeta { slot, ..old(self).persisted.meta },
                ..old(self).persisted.state()
            }),
    {
        let ghost before = self.persisted.state();
        self.persisted.meta.slot = slot;
        proof {
            crate::accountsdb::store::header_is_free(before, self.persisted.state());
        }
    }

    /// Last sealed superblock.
    pub fn superblock(&self) -> (superblock: u64)
        ensures
            superblock == self.persisted.meta.superblock,
    {
        self.persisted.meta.superblock
    }

    /// Transactions that were committed.
    pub fn transactions(&self) -> (transactions: u64)
        ensures
            transactions == self.persisted.meta.transactions,
    {
        self.persisted.meta.transactions
    }

    /// Records the last sealed superblock.
    pub fn set_superblock(&mut self, superblock: u64)
        requires
            old(self).wf(),
        ensures
            final(self).wf(),
            old(self).apart() ==> final(self).apart(),
            final(self).volatile == old(self).volatile,
            final(self).persisted.state() == (StoreState {
                meta: DatabaseMeta { superblock, ..old(self).persisted.meta },
                ..old(self).persisted.state()
            }),
    {
        let ghost before = self.persisted.state();
        self.persisted.meta.superblock = superblock;
        proof {
            crate::accountsdb::store::header_is_free(before, self.persisted.state());
        }
    }

    /// Checksum that the last synchronous flush recorded.
    pub fn checksum(&self) -> (checksum: u64)
        ensures
            checksum == self.persisted.meta.checksum,
    {
        self.persisted.meta.checksum
    }

    /// Computes the checksum of the persisted accounts without recording it.
    pub fn compute_checksum(&self) -> (checksum: u64)
        requires
            self.wf(),
        ensures
            checksum == self.persisted.state().checksum(),
    {
        self.persisted.checksum()
    }

    /// Prepares a flush: a synchronous one records the checksum first.
    pub fn flush(&mut self, force: bool)
        requires
            old(self).wf(),
        ensures
            final(self).wf(),
            old(self).apart() ==> final(self).apart(),
            final(self).volatile == old(self).volatile,
            !force ==> final(self).persisted == old(self).persisted,
            force ==> final(self).persisted.state() == (StoreState {
                meta: DatabaseMeta {
                    checksum: old(self).persisted.state().checksum(),
                    ..old(self).persisted.meta
                },
                ..old(self).persisted.state()
            }),
    {
        if force {
            self.persisted.record_checksum();
        }
    }

    /// Checks format and recorded checksum of the persisted backend.
    pub fn validate(&self) -> (result: Result<(), AccountsDBError>)
        requires
            self.wf(),
        ensures
            result == self.persisted.verdict(self.persisted.state().checksum()),
    {
        self.persisted.validate()
    }

    /// What compaction leads to.
    pub open spec fn compacts(self, after: AccountsDB, reclaimed: u64) -> bool {
        &&& after.volatile == self.volatile
        &&& after.persisted.state().accounts() == self.persisted.state().accounts()
        &&& after.persisted.meta.cursor == self.persisted.meta.cursor - reclaimed
        &&& at_fixed_point(after.persisted.state())
        &&& exists|packed: StoreState, passes: nat|
            {
                &&& #[trigger] packs(self.persisted.state(), packed, passes, reclaimed as int)
                &&& at_fixed_point(packed)
                &&& after.persisted.state() == sealed(packed, passes)
            }
        &&& after.persisted.meta.slot == self.persisted.meta.slot
        &&& after.persisted.meta.superblock == self.persisted.meta.superblock
        &&& after.persisted.meta.transactions == self.persisted.meta.transactions
        &&& after.persisted.meta.version == self.persisted.meta.version
    }

    /// Packs the persisted backend until a pass changes nothing, and returns how many storage
    /// units were reclaimed. If anything changed, the checksum is recorded.
    pub fn compact(&mut self) -> (reclaimed: u64)
        requires
            old(self).wf(),
        ensures
            final(self).wf(),
            old(self).apart() ==> final(self).apart(),
            old(self).compacts(*final(self), reclaimed),
    {
        let ghost start = self.persisted.state();
        let ghost mirror = self.volatile;
        let mut reclaimed: u64 = 0;
        let mut changed: bool = false;
        let ghost mut passes: nat = 0;
        loop
            invariant_except_break
                packs(start, self.persisted.state(), passes, reclaimed as int),
                changed == (passes > 0),
            invariant
                self.wf(),
                self.volatile == mirror,
                self.persisted.state().accounts() == start.accounts(),
                self.persisted.meta.cursor == start.meta.cursor - reclaimed,
                reclaimed <= u32::MAX,
                self.persisted.meta.slot == start.meta.slot,
                self.persisted.meta.superblock == start.meta.superblock,
                self.persisted.meta.transactions == start.meta.transactions,
                self.persisted.meta.version == start.meta.version,
            ensures
                at_fixed_point(self.persisted.state()),
                packs(start, self.persisted.state(), passes, reclaimed as int),
                changed == (passes > 0),
            decreases total_weight(self.persisted.state()) + self.persisted.meta.cursor,
        {
            let ghost before = self.persisted.state();
            let pass = self.persisted.defragment();
            proof {
                let (holes, live, entry, cut) = choose|
                    holes: Seq<Hole>,
                    live: Seq<(u32, u32)>,
                    entry: Seq<Run>,
                    cut: Offset,
                |
                    is_pass(before, holes, live, entry, cut, pass, self.persisted.state());
                crate::accountsdb::compact::pass_keeps_header(
                    before,
                    holes,
                    live,
                    entry,
                    cut,
                    pass,
                    self.persisted.state(),
                );
                if pass.moved == 0 && pass.reclaimed == 0 {
                    assert(pass == (Defragged { moved: 0, reclaimed: 0 }));
                    assert(is_pass(before, holes, live, entry, cut, pass, before));
                    assert(at_fixed_point(before));
                }
                assert(one_pass(before, pass, self.persisted.state()));
            }
            reclaimed = reclaimed + pass.reclaimed as u64;
            if pass.changed() {
                changed = true;
                proof {
                    passes = passes + 1;
                    assert(packs(start, before, (passes - 1) as nat, reclaimed - pass.reclaimed));
                }
            } else {
                break ;
            }
        }
        let ghost packed = self.persisted.state();
        if changed {
            self.flush(true);
            proof {
                crate::accountsdb::compact::fixed_point_ignores_checksum(
                    packed,
                    self.persisted.state(),
                );
                assert(self.persisted.state().accounts() =~= packed.accounts());
            }
        }
        assert(self.persisted.state() == sealed(packed, passes));
        reclaimed
    }

    /// Drops mirrored volatile accounts and keeps system accounts and persisted state.
    pub fn reset(&mut self)
        requires
            old(self).wf(),
        ensures
            final(self).wf(),
            old(self).apart() ==> final(self).apart(),
            final(self).persisted == old(self).persisted,
            final(self).volatile.contents() == system_only(old(self).volatile.contents()),
    {
        self.volatile.reset();
    }
}

/// Whether `reader` may make something of an account.
pub open spec fn makes<F, R>(reader: F, account: Account, made: R) -> bool where
    F: Fn(&Account) -> R,
 {
    call_ensures(reader, (&account,), made)
}

/// Reader of single accounts.
pub struct AccountLoader<'a> {
    /// The accounts.
    pub db: &'a mut AccountsDB,
}

impl<'a> AccountLoader<'a> {
    /// A reader of `db`.
    pub fn new(db: &'a mut AccountsDB) -> (loader: AccountLoader<'a>)
        ensures
            *loader.db == *old(db),
            *final(db) == *final(loader.db),
    {
        AccountLoader { db }
    }

    /// Copies the account at `key`: the volatile one if there is one, else the persisted one,
    /// which counts as a read.
    pub fn load(&mut self, key: &Pubkey) -> (account: Option<Account>)
        requires
            old(self).db.wf(),
        ensures
            *final(final(self).db) == *final(old(self).db),
            old(self).db.loads(key@, *final(self).db),
            account is Some <==> old(self).db.lookup(key@) is Some,
            account matches Some(a) ==> Some(a@) == old(self).db.lookup(key@),
    {
        match self.db.volatile.load(key) {
            Some(account) => Some(account),
            None => self.db.persisted.load(key),
        }
    }

    /// Hands the account at `key` to `reader`, and gives back what it makes of it.
    pub fn read<F, R>(&mut self, key: &Pubkey, reader: F) -> (result: Option<R>) where
        F: Fn(&Account) -> R,

        requires
            old(self).db.wf(),
            forall|account: Account| #[trigger] call_requires(reader, (&account,)),
        ensures
            *final(final(self).db) == *final(old(self).db),
            old(self).db.loads(key@, *final(self).db),
            match result {
                Some(made) => old(self).db.hands(key@, reader, made),
                None => old(self).db.lookup(key@) is None,
            },
    {
        let ghost before = *self.db;
        match self.load(key) {
            Some(account) => {
                assert(Some(account@) == before.lookup(key@));
                let made = reader(&account);
                assert(makes(reader, account, made));
                assert(before.hands(key@, reader, made));
                Some(made)
            },
            None => None,
        }
    }

    /// Lifecycle state of the account at `key`.
    pub fn mode(&self, key: &Pubkey) -> (mode: Option<AccountMode>)
        requires
            self.db.wf(),
        ensures
            mode is Some <==> old(self.db).lookup(key@) is Some,
            mode matches Some(m) ==> m == old(self.db).lookup(key@)->0.mode,
    {
        match self.db.volatile.load(key) {
            Some(account) => Some(account.mode),
            None => self.db.persisted.mode(key),
        }
    }

    /// Whether an account exists in either backend.
    pub fn contains(&self, key: &Pubkey) -> (found: bool)
        requires
            self.db.wf(),
        ensures
            found == (old(self.db).lookup(key@) is Some),
    {
        self.db.persisted.contains(key) || self.db.volatile.contains(key)
    }
}

/// One packing pass leads from a state to another.
pub open spec fn one_pass(before: StoreState, outcome: Defragged, after: StoreState) -> bool {
    exists|holes: Seq<Hole>, live: Seq<(u32, u32)>, entry: Seq<Run>, cut: Offset| #[trigger]
        is_pass(before, holes, live, entry, cut, outcome, after)
}

/// So many packing passes, each of which changed something, lead from a state to another and
/// reclaim so many storage units.
pub open spec fn packs(from: StoreState, to: StoreState, passes: nat, reclaimed: int) -> bool
    decreases passes,
{
    if passes == 0 {
        from == to && reclaimed == 0
    } else {
        exists|middle: StoreState, outcome: Defragged|
            {
                &&& #[trigger] one_pass(middle, outcome, to)
                &&& outcome.moved > 0 || outcome.reclaimed > 0
                &&& packs(from, middle, (passes - 1) as nat, reclaimed - outcome.reclaimed)
            }
    }
}

/// After the passes: if there was one, the checksum is recorded.
pub open spec fn sealed(packed: StoreState, passes: nat) -> StoreState {
    if passes == 0 {
        packed
    } else {
        StoreState { meta: DatabaseMeta { checksum: packed.checksum(), ..packed.meta }, ..packed }
    }
}

/// A packing pass would change nothing.
pub open spec fn at_fixed_point(state: StoreState) -> bool {
    exists|holes: Seq<Hole>, live: Seq<(u32, u32)>, entry: Seq<Run>, cut: Offset| #[trigger]
        is_pass(state, holes, live, entry, cut, Defragged { moved: 0, reclaimed: 0 }, state)
}

/// Header after so many reads were counted.
pub open spec fn read_header(meta: DatabaseMeta, reads: int) -> DatabaseMeta {
    DatabaseMeta {
        stats: Stats {
            reads: ((meta.stats.reads + reads) % 0x1_0000_0000_0000_0000) as u64,
            ..meta.stats
        },
        ..meta
    }
}

/// `list` holds the persisted accounts that carry the tag of `owner`, in walking order.
pub open spec fn walks_program(
    state: StoreState,
    owner: Pubkey,
    list: Seq<(Pubkey, Account)>,
) -> bool {
    &&& forall|i: int|
        0 <= i < list.len() ==> {
            let key = (#[trigger] list[i]).0@;
            &&& state.located.contains_key(key)
            &&& state.located[key].owner == tag_of(owner)
            &&& list[i].1@ == state.accounts()[key]
        }
    &&& forall|i: int, j: int|
        0 <= i < j < list.len() ==> walks_before(
            state.located[(#[trigger] list[i]).0@].offset,
            state.located[(#[trigger] list[j]).0@].offset,
        )
    &&& forall|key: Seq<u8>| #[trigger]
        state.located.contains_key(key) && state.located[key].owner == tag_of(owner) ==> exists|i: int|
            0 <= i < list.len() && (#[trigger] list[i]).0@ == key
}

/// `list` holds the volatile accounts that `owner` owns, ascending by address.
pub open spec fn lists_program(
    accounts: Map<Seq<u8>, AccountView>,
    owner: Pubkey,
    list: Seq<(Pubkey, Account)>,
) -> bool {
    &&& forall|i: int|
        0 <= i < list.len() ==> accounts.contains_key((#[trigger] list[i]).0@)
            && accounts[list[i].0@] == list[i].1@ && list[i].1.owner@ == owner@
    &&& forall|i: int, j: int|
        0 <= i < j < list.len() ==> crate::bytes::lex_lt(
            (#[trigger] list[i]).0@,
            (#[trigger] list[j]).0@,
        )
    &&& forall|key: Pubkey|
        #![trigger accounts.contains_key(key@)]
        accounts.contains_key(key@) && accounts[key@].owner@ == owner@ ==> exists|i: int|
            0 <= i < list.len() && (#[trigger] list[i]).0 == key
}

impl PersistedStore {
    /// Copies the accounts that carry the tag of `owner`, in walking order; each copy counts
    /// as a read.
    pub fn program(&mut self, owner: &Pubkey) -> (list: Vec<(Pubkey, Account)>)
        requires
            old(self).wf(),
        ensures
            final(self).wf(),
            walks_program(old(self).state(), *owner, list@),
            final(self).state() == (StoreState {
                meta: read_header(old(self).meta, list@.len() as int),
                ..old(self).state()
            }),
            final(self).state().accounts() == old(self).state().accounts(),
    {
        let ghost start = self.state();
        let tag = key_tail(owner);
        proof {
            crate::accountsdb::store::tag_is_tail(*owner, tag);
        }
        let offsets = self.index.program(&tag);
        let mut list: Vec<(Pubkey, Account)> = Vec::new();
        let mut i: usize = 0;
        while i < offsets.len()
            invariant
                i <= offsets@.len(),
                list@.len() == i,
                self.wf(),
                start.wf(),
                self.state() == (StoreState { meta: read_header(start.meta, i as int), ..start }),
                tag == tag_of(*owner),
                forall|o: Offset| #[trigger]
                    offsets@.contains(o) <==> start.owned.contains(
                        (OwnerAndOffset { owner: tag, offset: o }),
                    ),
                forall|j: int|
                    0 <= j < i ==> {
                        let key = (#[trigger] list@[j]).0@;
                        &&& start.located.contains_key(key)
                        &&& start.located[key] == (OwnerAndOffset {
                            owner: tag,
                            offset: offsets@[j],
                        })
                        &&& list@[j].1@ == start.accounts()[key]
                    },
            decreases offsets@.len() - i,
        {
            let offset: u32 = offsets[i];
            let ghost row = OwnerAndOffset { owner: tag, offset };
            let ghost counted = self.state();
            proof {
                assert(offsets@.contains(offsets@[i as int]));
                assert(start.owned.contains(row));
                let place = place_key(offset);
                assert(start.heap.contains_key(place));
                assert(start.located.contains_key(start.heap[place].key@));
            }
            self.meta.stats.read();
            assert(self.meta == read_header(start.meta, i + 1));
            proof {
                crate::accountsdb::store::header_is_free(counted, self.state());
            }
            let place = place_bytes(offset);
            if let Some(image) = self.images.get(place.as_slice()) {
                assert(image@ == start.heap[place_key(offset)]);
                list.push((image.key, image.account.clone()));
            }
            i += 1;
        }
        proof {
            assert forall|key: Seq<u8>| #[trigger]
                start.located.contains_key(key) && start.located[key].owner == tag_of(
                    *owner,
                ) implies exists|j: int| 0 <= j < list@.len() && (#[trigger] list@[j]).0@ == key by {
                let row = start.located[key];
                assert(start.owned.contains(row));
                assert(offsets@.contains(row.offset));
                let j = choose|j: int| 0 <= j < offsets@.len() && offsets@[j] == row.offset;
                let other = list@[j].0@;
                assert(start.located[other] == row);
                assert(start.located.contains_key(other));
                assert(start.heap[place_key(row.offset)].key@ == other);
                assert(start.heap[place_key(row.offset)].key@ == key);
            }
            assert(self.state().accounts() =~= start.accounts());
        }
        list
    }
}

} // verus!
