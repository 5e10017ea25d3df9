//! In-memory accounts mirrored from another chain, and the programs that own them.

use ahash::RandomState;
use vstd::prelude::*;

use crate::bytes::{bytes_lt, lex_lt};
use crate::types::{
    entry_views, same_key, Account, AccountEntry, AccountMode, AccountView, EntryView, Pubkey,
};

verus! {

/// Accounts by address.
pub type AccountsMap = scc::HashMap<Pubkey, Account, RandomState>;

/// Addresses of the accounts that a program owns, by program.
pub type ProgramsMap = scc::HashMap<Pubkey, Vec<Pubkey>, RandomState>;

/// What the entries of an `scc::HashMap` of accounts are.
pub uninterp spec fn account_entries(map: AccountsMap) -> Map<Seq<u8>, AccountView>;

/// What the entries of an `scc::HashMap` of program sets are.
pub uninterp spec fn program_entries(map: ProgramsMap) -> Map<Seq<u8>, Seq<Pubkey>>;

/// An empty account map, by `scc::HashMap::with_capacity_and_hasher`.
#[verifier::external_body]
fn accounts_new(capacity: usize) -> (map: AccountsMap)
    requires
        capacity <= 65536,
    ensures
        account_entries(map).dom() == Set::<Seq<u8>>::empty(),
{
    scc::HashMap::with_capacity_and_hasher(capacity, RandomState::default())
}

/// Copies the account stored under `key`, by `scc::HashMap::read_sync`.
#[verifier::external_body]
fn accounts_read(map: &AccountsMap, key: &Pubkey) -> (account: Option<Account>)
    ensures
        account is Some <==> account_entries(*map).contains_key(key@),
        account matches Some(a) ==> a@ == account_entries(*map)[key@],
{
    map.read_sync(key, |_, account| account.clone())
}

/// Whether an account is stored under `key`, by `scc::HashMap::contains_sync`.
#[verifier::external_body]
fn accounts_contains(map: &AccountsMap, key: &Pubkey) -> (found: bool)
    ensures
        found == account_entries(*map).contains_key(key@),
{
    map.contains_sync(key)
}

/// Stores an account under `key` and returns the one it replaces, by
/// `scc::HashMap::upsert_sync`.
#[verifier::external_body]
fn accounts_upsert(map: &mut AccountsMap, key: Pubkey, account: Account) -> (replaced: Option<Account>)
    ensures
        account_entries(*final(map)) == account_entries(*old(map)).insert(key@, account@),
        replaced is Some <==> account_entries(*old(map)).contains_key(key@),
        replaced matches Some(a) ==> a@ == account_entries(*old(map))[key@],
{
    map.upsert_sync(key, account)
}

/// Removes the account stored under `key` and returns it, by `scc::HashMap::remove_sync`.
#[verifier::external_body]
fn accounts_remove(map: &mut AccountsMap, key: &Pubkey) -> (removed: Option<Account>)
    ensures
        account_entries(*final(map)) == account_entries(*old(map)).remove(key@),
        removed is Some <==> account_entries(*old(map)).contains_key(key@),
        removed matches Some(a) ==> a@ == account_entries(*old(map))[key@],
{
    map.remove_sync(key).map(|(_, account)| account)
}

/// `list` holds every entry of `map` once, in some order.
pub open spec fn lists_accounts(
    list: Seq<(Pubkey, Account)>,
    map: Map<Seq<u8>, AccountView>,
) -> bool {
    &&& forall|i: int|
        0 <= i < list.len() ==> map.contains_key((#[trigger] list[i]).0@) && list[i].1@
            == map[list[i].0@]
    &&& forall|i: int, j: int|
        0 <= i < j < list.len() ==> (#[trigger] list[i]).0@ != (#[trigger] list[j]).0@
    &&& forall|key: Seq<u8>| #[trigger]
        map.contains_key(key) ==> exists|i: int| 0 <= i < list.len() && (#[trigger] list[i]).0@ == key
}

/// Copies all entries in some order, by `scc::HashMap::iter_sync`.
#[verifier::external_body]
fn accounts_list(map: &AccountsMap) -> (list: Vec<(Pubkey, Account)>)
    ensures
        lists_accounts(list@, account_entries(*map)),
{
    let mut list = Vec::new();
    map.iter_sync(|key, account| {
        list.push((*key, account.clone()));
        true
    });
    list
}

/// An empty program map, by `scc::HashMap::with_capacity_and_hasher`.
#[verifier::external_body]
fn programs_new(capacity: usize) -> (map: ProgramsMap)
    requires
        capacity <= 65536,
    ensures
        program_entries(map).dom() == Set::<Seq<u8>>::empty(),
{
    scc::HashMap::with_capacity_and_hasher(capacity, RandomState::default())
}

/// Copies the set stored under `owner`, by `scc::HashMap::read_sync`.
#[verifier::external_body]
fn programs_read(map: &ProgramsMap, owner: &Pubkey) -> (set: Option<Vec<Pubkey>>)
    ensures
        set is Some <==> program_entries(*map).contains_key(owner@),
        set matches Some(s) ==> s@ == program_entries(*map)[owner@],
{
    map.read_sync(owner, |_, set| set.clone())
}

/// Stores a set under `owner`, by `scc::HashMap::upsert_sync`.
#[verifier::external_body]
fn programs_upsert(map: &mut ProgramsMap, owner: Pubkey, set: Vec<Pubkey>)
    ensures
        program_entries(*final(map)) == program_entries(*old(map)).insert(owner@, set@),
{
    map.upsert_sync(owner, set);
}

/// Removes the set stored under `owner`, by `scc::HashMap::remove_sync`.
#[verifier::external_body]
fn programs_remove(map: &mut ProgramsMap, owner: &Pubkey)
    ensures
        program_entries(*final(map)) == program_entries(*old(map)).remove(owner@),
{
    map.remove_sync(owner);
}

/// Addresses ascend strictly.
pub open spec fn keys_ascend(set: Seq<Pubkey>) -> bool {
    forall|i: int, j: int|
        0 <= i < j < set.len() ==> lex_lt((#[trigger] set[i])@, (#[trigger] set[j])@)
}

/// Adds an address to an ascending list.
pub(crate) fn set_insert(set: &mut Vec<Pubkey>, key: &Pubkey)
    requires
        keys_ascend(old(set)@),
    ensures
        keys_ascend(final(set)@),
        forall|k: Pubkey| #[trigger] final(set)@.contains(k) <==> old(set)@.contains(k) || k == *key,
        final(set)@.len() > 0,
{
    let ghost before = set@;
    let mut at: usize = 0;
    while at < set.len() && bytes_lt(set[at].as_slice(), key.as_slice())
        invariant
            at <= set@.len(),
            set@ == before,
            keys_ascend(before),
            forall|i: int| 0 <= i < at ==> lex_lt((#[trigger] before[i])@, key@),
        decreases set@.len() - at,
    {
        at += 1;
    }
    if at < set.len() && same_key(&set[at], key) {
        assert(before.contains(*key)) by {
            assert(before[at as int] == *key);
        }
        return ;
    }
    set.insert(at, *key);
    proof {
        assert forall|i: int| at <= i < before.len() implies lex_lt(key@, (#[trigger] before[i])@) by {
            crate::bytes::lex_total(key@, before[i]@);
            if i > at {
                assert(lex_lt(before[at as int]@, before[i]@));
                crate::bytes::lex_total(key@, before[at as int]@);
                if key@ == before[at as int]@ {
                    assert(*key =~= before[at as int]);
                } else {
                    crate::bytes::lex_transitive(key@, before[at as int]@, before[i]@);
                }
            } else if key@ == before[i]@ {
                assert(*key =~= before[i]);
            }
        }
        assert forall|i: int, j: int| 0 <= i < j < set@.len() implies lex_lt(
            (#[trigger] set@[i])@,
            (#[trigger] set@[j])@,
        ) by {
            let x = if i < at { i } else { i - 1 };
            let y = if j < at { j } else { j - 1 };
            if i != at {
                assert(set@[i] == before[x]);
            }
            if j != at {
                assert(set@[j] == before[y]);
            }
        }
        assert forall|k: Pubkey| #[trigger] set@.contains(k) <==> before.contains(k) || k == *key by {
            if before.contains(k) {
                let i = choose|i: int| 0 <= i < before.len() && before[i] == k;
                assert(set@[if i < at { i } else { i + 1 }] == k);
            }
            if k == *key {
                assert(set@[at as int] == k);
            }
            if set@.contains(k) && k != *key {
                let i = choose|i: int| 0 <= i < set@.len() && set@[i] == k;
                assert(before[if i < at { i } else { i - 1 }] == k);
            }
        }
    }
}

/// Removes an address from an ascending list.
fn set_remove(set: &mut Vec<Pubkey>, key: &Pubkey)
    requires
        keys_ascend(old(set)@),
    ensures
        keys_ascend(final(set)@),
        forall|k: Pubkey| #[trigger] final(set)@.contains(k) <==> old(set)@.contains(k) && k != *key,
{
    let ghost before = set@;
    let mut at: usize = 0;
    while at < set.len()
        invariant
            at <= set@.len(),
            set@ == before,
            before == old(set)@,
            keys_ascend(before),
            forall|i: int| 0 <= i < at ==> (#[trigger] before[i]) != *key,
        decreases set@.len() - at,
    {
        if same_key(&set[at], key) {
            set.remove(at);
            proof {
                assert forall|i: int, j: int| 0 <= i < j < set@.len() implies lex_lt(
                    (#[trigger] set@[i])@,
                    (#[trigger] set@[j])@,
                ) by {
                    let x = if i < at { i } else { i + 1 };
                    let y = if j < at { j } else { j + 1 };
                    assert(set@[i] == before[x] && set@[j] == before[y]);
                }
                assert forall|k: Pubkey| #[trigger] set@.contains(k) <==> before.contains(k) && k
                    != *key by {
                    if set@.contains(k) {
                        let i = choose|i: int| 0 <= i < set@.len() && set@[i] == k;
                        let x = if i < at { i } else { i + 1 };
                        assert(before[x] == k);
                        crate::bytes::lex_irreflexive(key@);
                        if x > at {
                            assert(lex_lt(before[at as int]@, before[x]@));
                        }
                    }
                    if before.contains(k) && k != *key {
                        let i = choose|i: int| 0 <= i < before.len() && before[i] == k;
                        assert(set@[if i < at { i } else { i - 1 }] == k);
                    }
                }
            }
            return ;
        }
        at += 1;
    }
    assert(!before.contains(*key));
}

/// Volatile backend.
pub struct VolatileStore {
    /// Current accounts.
    pub accounts: AccountsMap,
    /// Owned accounts by program.
    pub programs: ProgramsMap,
}

impl VolatileStore {
    /// The account stored under each address.
    pub open spec fn contents(self) -> Map<Seq<u8>, AccountView> {
        account_entries(self.accounts)
    }

    /// `key` is in the set of `owner`.
    pub open spec fn member(self, owner: Seq<u8>, key: Pubkey) -> bool {
        program_entries(self.programs).contains_key(owner) && program_entries(
            self.programs,
        )[owner].contains(key)
    }

    /// The program sets are in sync with the accounts: each holds the addresses of exactly
    /// the accounts that the program owns, ascending, and none is empty.
    pub open spec fn wf(self) -> bool {
        &&& forall|owner: Seq<u8>, key: Pubkey| #[trigger]
            self.member(owner, key) <==> self.contents().contains_key(key@)
                && self.contents()[key@].owner@ == owner
        &&& forall|owner: Seq<u8>| #[trigger]
            program_entries(self.programs).contains_key(owner) ==> keys_ascend(
                program_entries(self.programs)[owner],
            ) && program_entries(self.programs)[owner].len() > 0
        &&& forall|key: Seq<u8>| #[trigger] self.contents().contains_key(key) ==> key.len() == 32
    }

    /// Only accounts that the engine does not decide about are held.
    pub open spec fn mirrors(self) -> bool {
        mirror_only(self.contents())
    }

    fn empty() -> (store: VolatileStore)
        ensures
            store.wf(),
            store.contents() == Map::<Seq<u8>, AccountView>::empty(),
    {
        let store = VolatileStore { accounts: accounts_new(2048), programs: programs_new(2048) };
        assert(store.contents() =~= Map::<Seq<u8>, AccountView>::empty());
        store
    }

    /// Opens the backend with the accounts of a dump and rebuilds the program sets.
    pub fn new(dump: Vec<(Pubkey, Account)>) -> (store: VolatileStore)
        ensures
            store.wf(),
            store.contents() == restored(dump@, dump@.len()),
    {
        let ghost given = dump@;
        let mut store = VolatileStore::empty();
        for entry in it: dump
            invariant
                it.seq() == given,
                store.wf(),
                store.contents() == restored(given, it.index() as nat),
        {
            let (key, account) = entry;
            store.put(key, account);
        }
        store
    }

    /// Adds `key` to the set of `owner`.
    fn join(&mut self, owner: &Pubkey, key: &Pubkey)
        requires
            forall|o: Seq<u8>| #[trigger]
                program_entries(old(self).programs).contains_key(o) ==> keys_ascend(
                    program_entries(old(self).programs)[o],
                ) && program_entries(old(self).programs)[o].len() > 0,
        ensures
            final(self).accounts == old(self).accounts,
            forall|o: Seq<u8>| #[trigger]
                program_entries(final(self).programs).contains_key(o) ==> keys_ascend(
                    program_entries(final(self).programs)[o],
                ) && program_entries(final(self).programs)[o].len() > 0,
            forall|o: Seq<u8>, k: Pubkey| #[trigger]
                final(self).member(o, k) <==> old(self).member(o, k) || (o == owner@ && k == *key),
    {
        let ghost before = *self;
        let mut set = match programs_read(&self.programs, owner) {
            Some(set) => set,
            None => Vec::new(),
        };
        let ghost joined = set@;
        set_insert(&mut set, key);
        let ghost grown = set@;
        programs_upsert(&mut self.programs, *owner, set);
        proof {
            assert forall|o: Seq<u8>, k: Pubkey| #[trigger] self.member(o, k) <==> before.member(
                o,
                k,
            ) || (o == owner@ && k == *key) by {
                if o == owner@ {
                    assert(grown.contains(k) <==> joined.contains(k) || k == *key);
                    assert(joined.contains(k) <==> before.member(o, k));
                }
            }
        }
    }

    /// Takes `key` out of the set of `owner`, and drops the set once it is empty.
    fn leave(&mut self, owner: &Pubkey, key: &Pubkey)
        requires
            forall|o: Seq<u8>| #[trigger]
                program_entries(old(self).programs).contains_key(o) ==> keys_ascend(
                    program_entries(old(self).programs)[o],
                ) && program_entries(old(self).programs)[o].len() > 0,
        ensures
            final(self).accounts == old(self).accounts,
            forall|o: Seq<u8>| #[trigger]
                program_entries(final(self).programs).contains_key(o) ==> keys_ascend(
                    program_entries(final(self).programs)[o],
                ) && program_entries(final(self).programs)[o].len() > 0,
            forall|o: Seq<u8>, k: Pubkey| #[trigger]
                final(self).member(o, k) <==> old(self).member(o, k) && !(o == owner@ && k == *key),
    {
        let ghost before = *self;
        if let Some(mut set) = programs_read(&self.programs, owner) {
            let ghost held = set@;
            set_remove(&mut set, key);
            let ghost rest = set@;
            if set.len() == 0 {
                programs_remove(&mut self.programs, owner);
            } else {
                programs_upsert(&mut self.programs, *owner, set);
            }
            proof {
                assert forall|o: Seq<u8>, k: Pubkey| #[trigger] self.member(o, k) <==> before.member(
                    o,
                    k,
                ) && !(o == owner@ && k == *key) by {
                    if o == owner@ {
                        assert(rest.contains(k) <==> held.contains(k) && k != *key);
                        assert(held.contains(k) <==> before.member(o, k));
                    }
                }
            }
        }
    }

    /// Stores an account and moves its address to the set of its owner.
    fn put(&mut self, key: Pubkey, account: Account)
        requires
            old(self).wf(),
        ensures
            final(self).wf(),
            final(self).contents() == old(self).contents().insert(key@, account@),
    {
        let ghost before = *self;
        let owner = account.owner;
        self.join(&owner, &key);
        let ghost joined = *self;
        let replaced = accounts_upsert(&mut self.accounts, key, account);
        if let Some(prior) = replaced {
            if !same_key(&prior.owner, &owner) {
                self.leave(&prior.owner, &key);
            }
        }
        proof {
            assert forall|o: Seq<u8>, k: Pubkey| #[trigger] self.member(o, k)
                <==> self.contents().contains_key(k@) && self.contents()[k@].owner@ == o by {
                assert(joined.member(o, k) <==> before.member(o, k) || (o == owner@ && k == key));
                assert(before.member(o, k) <==> before.contents().contains_key(k@)
                    && before.contents()[k@].owner@ == o);
                if k@ == key@ {
                    assert(k =~= key);
                }
            }
        }
    }

    /// Removes an account and takes its address out of the set of its owner.
    fn delete(&mut self, key: &Pubkey)
        requires
            old(self).wf(),
        ensures
            final(self).wf(),
            final(self).contents() == old(self).contents().remove(key@),
    {
        let ghost before = *self;
        if let Some(removed) = accounts_remove(&mut self.accounts, key) {
            let ghost unlisted = *self;
            self.leave(&removed.owner, key);
            proof {
                assert forall|o: Seq<u8>, k: Pubkey| #[trigger] self.member(o, k)
                    <==> self.contents().contains_key(k@) && self.contents()[k@].owner@ == o by {
                    assert(unlisted.member(o, k) == before.member(o, k));
                    assert(before.member(o, k) <==> before.contents().contains_key(k@)
                        && before.contents()[k@].owner@ == o);
                    if k@ == key@ {
                        assert(k =~= *key);
                    }
                }
            }
        } else {
            assert(self.contents() =~= before.contents());
            assert forall|o: Seq<u8>, k: Pubkey| #[trigger] self.member(o, k)
                <==> self.contents().contains_key(k@) && self.contents()[k@].owner@ == o by {
                assert(self.member(o, k) == before.member(o, k));
            }
        }
    }

    /// Stores a batch of accounts and keeps the program sets in sync. An account that the
    /// engine decides about, or that was closed, drops any stale copy instead.
    pub fn upsert(&mut self, entries: Vec<AccountEntry>)
        requires
            old(self).wf(),
        ensures
            final(self).wf(),
            final(self).contents() == mirrored_all(
                old(self).contents(),
                entry_views(entries@),
                entries@.len(),
            ),
    {
        let ghost start = self.contents();
        let ghost given = entries@;
        let ghost all = entry_views(entries@);
        for entry in it: entries
            invariant
                it.seq() == given,
                all == entry_views(given),
                self.wf(),
                self.contents() == mirrored_all(start, all, it.index() as nat),
        {
            assert(entry == given[it.index() as int]);
            assert(all[it.index() as int] == (entry.0, entry.1@));
            let (key, shared) = entry;
            let mode: AccountMode = shared.account.mode;
            if mode.authoritative() || mode == AccountMode::Closed {
                self.delete(&key);
            } else {
                self.put(key, shared.account);
            }
        }
    }

    /// Copies the account at `key`.
    pub fn load(&self, key: &Pubkey) -> (account: Option<Account>)
        ensures
            account is Some <==> self.contents().contains_key(key@),
            account matches Some(a) ==> a@ == self.contents()[key@],
    {
        accounts_read(&self.accounts, key)
    }

    /// Whether an account is stored under `key`.
    pub fn contains(&self, key: &Pubkey) -> (found: bool)
        ensures
            found == self.contents().contains_key(key@),
    {
        accounts_contains(&self.accounts, key)
    }

    /// Addresses of the accounts that `owner` owns, ascending.
    pub fn program(&self, owner: &Pubkey) -> (keys: Vec<Pubkey>)
        requires
            self.wf(),
        ensures
            keys_ascend(keys@),
            forall|key: Pubkey| #[trigger]
                keys@.contains(key) <==> self.contents().contains_key(key@)
                    && self.contents()[key@].owner@ == owner@,
    {
        let keys = match programs_read(&self.programs, owner) {
            Some(set) => set,
            None => Vec::new(),
        };
        proof {
            assert forall|key: Pubkey| #[trigger]
                keys@.contains(key) <==> self.contents().contains_key(key@)
                && self.contents()[key@].owner@ == owner@ by {
                assert(keys@.contains(key) <==> self.member(owner@, key));
            }
        }
        keys
    }

    /// Copies all accounts in some order, for a dump.
    pub fn dump(&self) -> (list: Vec<(Pubkey, Account)>)
        ensures
            lists_accounts(list@, self.contents()),
    {
        accounts_list(&self.accounts)
    }

    /// Drops mirrored accounts and keeps internal system accounts.
    pub fn reset(&mut self)
        requires
            old(self).wf(),
        ensures
            final(self).wf(),
            final(self).contents() == system_only(old(self).contents()),
    {
        let ghost before = self.contents();
        let list = accounts_list(&self.accounts);
        let ghost all = list@;
        *self = VolatileStore::empty();
        for entry in it: list
            invariant
                it.seq() == all,
                lists_accounts(all, before),
                self.wf(),
                forall|key: Seq<u8>| #[trigger]
                    self.contents().contains_key(key) <==> exists|i: int|
                        0 <= i < it.index() && (#[trigger] all[i]).0@ == key && all[i].1.mode
                            == AccountMode::System,
                forall|key: Seq<u8>| #[trigger]
                    self.contents().contains_key(key) ==> before.contains_key(key)
                        && self.contents()[key] == before[key],
        {
            let ghost n = it.index() as int;
            let ghost kept = self.contents();
            assert(entry == all[n]);
            let (key, account) = entry;
            if account.mode == AccountMode::System {
                self.put(key, account);
            }
            proof {
                assert forall|k: Seq<u8>| #[trigger] self.contents().contains_key(k) <==> exists|
                    i: int,
                |
                    0 <= i < n + 1 && (#[trigger] all[i]).0@ == k && all[i].1.mode
                        == AccountMode::System by {
                    if kept.contains_key(k) {
                        let i = choose|i: int|
                            0 <= i < n && (#[trigger] all[i]).0@ == k && all[i].1.mode
                                == AccountMode::System;
                        assert(all[i].0@ == k);
                    }
                    if k == all[n].0@ && all[n].1.mode == AccountMode::System {
                        assert(self.contents().contains_key(k));
                    }
                    if exists|i: int|
                        0 <= i < n + 1 && (#[trigger] all[i]).0@ == k && all[i].1.mode
                            == AccountMode::System {
                        let i = choose|i: int|
                            0 <= i < n + 1 && (#[trigger] all[i]).0@ == k && all[i].1.mode
                                == AccountMode::System;
                        if i < n {
                            assert(kept.contains_key(k));
                        }
                    }
                }
            }
        }
        proof {
            assert(self.contents() =~= system_only(before)) by {
                assert forall|key: Seq<u8>| self.contents().contains_key(key) <==> system_only(
                    before,
                ).contains_key(key) by {
                    if self.contents().contains_key(key) {
                        let i = choose|i: int|
                            0 <= i < all.len() && (#[trigger] all[i]).0@ == key && all[i].1.mode
                                == AccountMode::System;
                        assert(all[i].1@ == before[key]);
                    }
                    if system_only(before).contains_key(key) {
                        let i = choose|i: int| 0 <= i < all.len() && (#[trigger] all[i]).0@ == key;
                        assert(all[i].1@ == before[key]);
                        assert(all[i].1@.mode == all[i].1.mode);
                    }
                }
            }
        }
    }
}

/// What the first `n` accounts of a dump restore.
pub open spec fn restored(dump: Seq<(Pubkey, Account)>, n: nat) -> Map<Seq<u8>, AccountView>
    decreases n,
{
    if n == 0 {
        Map::empty()
    } else {
        restored(dump, (n - 1) as nat).insert(dump[n - 1].0@, dump[n - 1].1@)
    }
}

proof fn restored_holds(dump: Seq<(Pubkey, Account)>, n: nat, key: Seq<u8>)
    requires
        n <= dump.len(),
        forall|i: int, j: int|
            0 <= i < j < dump.len() ==> (#[trigger] dump[i]).0@ != (#[trigger] dump[j]).0@,
    ensures
        restored(dump, n).contains_key(key) <==> exists|i: int|
            0 <= i < n && (#[trigger] dump[i]).0@ == key,
        forall|i: int|
            0 <= i < n && (#[trigger] dump[i]).0@ == key ==> restored(dump, n)[key] == dump[i].1@,
    decreases n,
{
    if n > 0 {
        restored_holds(dump, (n - 1) as nat, key);
        if dump[n - 1].0@ == key {
            assert forall|i: int| 0 <= i < n && (#[trigger] dump[i]).0@ == key implies restored(
                dump,
                n,
            )[key] == dump[i].1@ by {
                if i < n - 1 {
                    assert(dump[i].0@ != dump[n - 1].0@);
                }
            }
        }
    }
}

/// A dump of all volatile accounts restores exactly those, in whatever order it lists them.
pub proof fn dumps_are_restored(
    dump: Seq<(Pubkey, Account)>,
    accounts: Map<Seq<u8>, AccountView>,
)
    requires
        lists_accounts(dump, accounts),
    ensures
        restored(dump, dump.len()) == accounts,
{
    assert forall|key: Seq<u8>|
        #![trigger accounts.contains_key(key)]
        restored(dump, dump.len()).contains_key(key) == accounts.contains_key(key) && (
        accounts.contains_key(key) ==> restored(dump, dump.len())[key] == accounts[key]) by {
        restored_holds(dump, dump.len(), key);
    }
    assert(restored(dump, dump.len()) =~= accounts);
}

/// The engine decides about none of the accounts.
pub open spec fn mirror_only(accounts: Map<Seq<u8>, AccountView>) -> bool {
    forall|key: Seq<u8>| #[trigger]
        accounts.contains_key(key) ==> !accounts[key].mode.is_authoritative()
}

/// Whatever is stored, the engine decides about none of the volatile accounts, if it did so
/// before.
pub proof fn volatile_accounts_are_mirrors(
    accounts: Map<Seq<u8>, AccountView>,
    entries: Seq<EntryView>,
    n: nat,
)
    requires
        mirror_only(accounts),
    ensures
        mirror_only(mirrored_all(accounts, entries, n)),
    decreases n,
{
    if n > 0 {
        volatile_accounts_are_mirrors(accounts, entries, (n - 1) as nat);
    }
}

/// Volatile accounts after one entry.
pub open spec fn mirrored(
    accounts: Map<Seq<u8>, AccountView>,
    entry: EntryView,
) -> Map<Seq<u8>, AccountView> {
    let (key, shared) = entry;
    let mode = shared.account.mode;
    if mode.is_authoritative() || mode == AccountMode::Closed {
        accounts.remove(key@)
    } else {
        accounts.insert(key@, shared.account)
    }
}

/// Volatile accounts after the first `n` entries.
pub open spec fn mirrored_all(
    accounts: Map<Seq<u8>, AccountView>,
    entries: Seq<EntryView>,
    n: nat,
) -> Map<Seq<u8>, AccountView>
    decreases n,
{
    if n == 0 {
        accounts
    } else {
        mirrored(mirrored_all(accounts, entries, (n - 1) as nat), entries[n - 1])
    }
}

/// The system accounts among `accounts`.
pub open spec fn system_only(accounts: Map<Seq<u8>, AccountView>) -> Map<Seq<u8>, AccountView> {
    Map::new(
        |key: Seq<u8>| accounts.contains_key(key) && accounts[key].mode == AccountMode::System,
        |key: Seq<u8>| accounts[key],
    )
}

} // verus!
