//! What committing an execution and ending a block do, as the stores show it afterwards.

use vstd::prelude::*;

use crate::accountsdb::db::AccountsDB;
use crate::accountsdb::laws::{
    changed_view_is_read, last_write_is_read, other_accounts_are_kept,
};
use crate::accountsdb::store::StoreState;
use crate::accountsdb::AccountsDBError;
use crate::keeper::accessor::{
    account_notices, followed, notices, owner_topics, pruned, Closed, Keeper, Notice, Published,
};
use crate::keeper::cache::AccountLease;
use crate::keeper::commit::{changes, commits_as, ExecutionCommit, ExecutionRecord};
use crate::keeper::expiring::{has_key, signature_key, updates_are_found, value_of};
use crate::keeper::subscriptions::{
    cleaned, receivers_of, remaining, remaining_again, Receiver,
};
use crate::keeper::sysvar::{
    blocks_are_added_to_the_hashes, blocks_set_the_clock, clock_at, parse_slot_hashes,
    slot_hash_added, Clock, SLOTHASH_ENTRIES,
};
use crate::ledger::request::TransactionStatus;
use crate::types::{
    entries_ok, entry_views, AccountMode, AccountView, Block, CoWAccount, EntryView, Pubkey,
    Signature,
};

verus! {

/// Whether an account was changed by its transaction.
pub open spec fn changed(entry: EntryView) -> bool {
    entry.1.markers.owner || entry.1.markers.content
}

/// Whether an account of a transaction is to be stored: it was changed, and it is not the one
/// that shows a running transaction its own instructions.
pub open spec fn kept(entry: EntryView, instructions: Pubkey) -> bool {
    changed(entry) && entry.0@ != instructions@
}

/// An entry is among the changes exactly if it is among the accounts and is to be stored.
pub proof fn changes_are_what_was_changed(
    accounts: Seq<EntryView>,
    instructions: Pubkey,
    n: nat,
    entry: EntryView,
)
    requires
        n <= accounts.len(),
    ensures
        changes(accounts, instructions, n).contains(entry) <==> kept(entry, instructions) && exists|
            i: int,
        |
            0 <= i < n && #[trigger] accounts[i] == entry,
    decreases n,
{
    if n > 0 {
        let rest = changes(accounts, instructions, (n - 1) as nat);
        let all = changes(accounts, instructions, n);
        let last = accounts[n - 1];
        changes_are_what_was_changed(accounts, instructions, (n - 1) as nat, entry);
        same_addresses(last.0, instructions);
        if rest.contains(entry) {
            let k = choose|k: int| 0 <= k < rest.len() && rest[k] == entry;
            assert(all[k] == entry);
        }
        if kept(last, instructions) {
            assert(all[all.len() - 1] == last);
        }
        if all.contains(entry) && entry != last {
            let k = choose|k: int| 0 <= k < all.len() && all[k] == entry;
            assert(rest[k] == entry);
        }
        if kept(entry, instructions) && exists|i: int| 0 <= i < n && #[trigger] accounts[i] == entry {
            let i = choose|i: int| 0 <= i < n && #[trigger] accounts[i] == entry;
            if i < n - 1 {
                assert(accounts[i] == entry);
            }
        }
    }
}

proof fn same_addresses(a: Pubkey, b: Pubkey)
    ensures
        (a == b) == (a@ == b@),
{
    if a@ == b@ {
        assert(a =~= b);
    }
}

/// The changes are the accounts that are to be stored, each as often as it is listed, and in the
/// order in which they are listed.
pub proof fn changes_keep_their_order(accounts: Seq<EntryView>, instructions: Pubkey, n: nat)
    requires
        n <= accounts.len(),
    ensures
        changes(accounts, instructions, n) == accounts.take(n as int).filter(
            |entry: EntryView| kept(entry, instructions),
        ),
    decreases n,
{
    let pick = |entry: EntryView| kept(entry, instructions);
    reveal(Seq::filter);
    if n > 0 {
        changes_keep_their_order(accounts, instructions, (n - 1) as nat);
        same_addresses(accounts[n - 1].0, instructions);
        assert(accounts.take(n as int).drop_last() =~= accounts.take(n - 1));
    } else {
        assert(accounts.take(0).filter(pick) =~= Seq::<EntryView>::empty());
    }
}

/// Where an account that is to be stored stands among the changes, if no later change names its
/// address.
proof fn change_stands(accounts: Seq<EntryView>, instructions: Pubkey, i: int, n: nat) -> (at: int)
    requires
        0 <= i < n <= accounts.len(),
        kept(accounts[i], instructions),
        forall|j: int|
            i < j < n && changed(#[trigger] accounts[j]) ==> accounts[j].0@ != accounts[i].0@,
    ensures
        0 <= at < changes(accounts, instructions, n).len(),
        changes(accounts, instructions, n)[at] == accounts[i],
        forall|q: int|
            at < q < changes(accounts, instructions, n).len() ==> (#[trigger] changes(
                accounts,
                instructions,
                n,
            )[q]).0@ != accounts[i].0@,
    decreases n,
{
    same_addresses(accounts[n - 1].0, instructions);
    if i == n - 1 {
        changes(accounts, instructions, n).len() - 1
    } else {
        let at = change_stands(accounts, instructions, i, (n - 1) as nat);
        assert(!changed(accounts[n - 1]) || accounts[n - 1].0@ != accounts[i].0@);
        at
    }
}

proof fn changes_are_ok(accounts: Seq<EntryView>, instructions: Pubkey, n: nat)
    requires
        n <= accounts.len(),
        entries_ok(accounts),
    ensures
        entries_ok(changes(accounts, instructions, n)),
    decreases n,
{
    if n > 0 {
        changes_are_ok(accounts, instructions, (n - 1) as nat);
        let rest = changes(accounts, instructions, (n - 1) as nat);
        let all = changes(accounts, instructions, n);
        assert forall|k: int| 0 <= k < all.len() && crate::types::durable_entry(#[trigger] all[k])
            implies all[k].1.account.units > 0 by {
            if k < rest.len() {
                assert(all[k] == rest[k]);
            } else {
                assert(all[k] == accounts[n - 1]);
            }
        }
    }
}

/// The execution of a transaction was committed: its changes were stored, and it was counted.
pub open spec fn committed(before: Keeper, record: ExecutionRecord, after: AccountsDB) -> bool {
    before.accountsdb.commits(before.transitions(record), after, Ok(()))
}

/// Every account that a successful transaction changed is stored: a read of its address gives
/// the image that the transaction left, or nothing if it closed the account. This holds of every
/// position of the list, whatever the other positions hold, as long as none behind it changes
/// the same address.
pub proof fn every_change_is_stored(
    before: Keeper,
    record: ExecutionRecord,
    after: AccountsDB,
    i: int,
)
    requires
        before.wf(),
        committed(before, record, after),
        ({
            &&& record.result is Ok
            &&& record.result->Ok_0.status is Ok
            &&& 0 <= i < record.result->Ok_0.accounts@.len()
        }),
        ({
            let accounts = entry_views(record.result->Ok_0.accounts@);
            &&& entries_ok(accounts)
            &&& changed(accounts[i])
            &&& accounts[i].1.cow == CoWAccount::Owned
            &&& accounts[i].0@ != before.addresses.instructions@
            &&& forall|j: int|
                i < j < accounts.len() && changed(#[trigger] accounts[j]) ==> accounts[j].0@
                    != accounts[i].0@
        }),
    ensures
        ({
            let (key, shared) = record.result->Ok_0.accounts@[i];
            after.lookup(key@) == if shared.account.mode == AccountMode::Closed {
                None
            } else {
                Some(shared.account@)
            }
        }),
{
    let accounts = entry_views(record.result->Ok_0.accounts@);
    let instructions = before.addresses.instructions;
    let entries = before.transitions(record);
    changes_are_ok(accounts, instructions, accounts.len());
    let at = change_stands(accounts, instructions, i, accounts.len());
    assert(entries[at] == accounts[i]);
    last_write_is_read(before.accountsdb, entries, after, at);
}

/// A changed view of an image is stored, too, if the image still exists and the transaction
/// lists its address once.
pub proof fn every_changed_view_is_stored(
    before: Keeper,
    record: ExecutionRecord,
    after: AccountsDB,
    i: int,
)
    requires
        before.wf(),
        committed(before, record, after),
        ({
            &&& record.result is Ok
            &&& record.result->Ok_0.status is Ok
            &&& 0 <= i < record.result->Ok_0.accounts@.len()
        }),
        ({
            let accounts = entry_views(record.result->Ok_0.accounts@);
            &&& entries_ok(accounts)
            &&& changed(accounts[i])
            &&& accounts[i].1.cow == CoWAccount::Borrowed
            &&& accounts[i].0@ != before.addresses.instructions@
            &&& before.accountsdb.persisted.state().accounts().contains_key(accounts[i].0@)
            &&& !before.accountsdb.volatile.contents().contains_key(accounts[i].0@)
            &&& forall|j: int|
                0 <= j < accounts.len() && j != i ==> (#[trigger] accounts[j]).0@
                    != accounts[i].0@
        }),
    ensures
        ({
            let (key, shared) = record.result->Ok_0.accounts@[i];
            after.lookup(key@) == if shared.account.mode == AccountMode::Closed {
                None
            } else {
                Some(shared.account@)
            }
        }),
{
    let accounts = entry_views(record.result->Ok_0.accounts@);
    let instructions = before.addresses.instructions;
    let entries = before.transitions(record);
    changes_are_ok(accounts, instructions, accounts.len());
    let at = change_stands(accounts, instructions, i, accounts.len());
    assert forall|q: int| 0 <= q < entries.len() && q != at implies (#[trigger] entries[q]).0@
        != entries[at].0@ by {
        if q < at {
            changes_come_once(accounts, instructions, accounts.len(), i, q, at);
        }
    }
    changed_view_is_read(before.accountsdb, entries, after, at);
}

/// An account that is listed once is among the changes once.
proof fn changes_come_once(
    accounts: Seq<EntryView>,
    instructions: Pubkey,
    n: nat,
    i: int,
    q: int,
    at: int,
)
    requires
        0 <= i < accounts.len(),
        n <= accounts.len(),
        forall|j: int|
            0 <= j < accounts.len() && j != i ==> (#[trigger] accounts[j]).0@ != accounts[i].0@,
        0 <= q < at < changes(accounts, instructions, n).len(),
        changes(accounts, instructions, n)[at] == accounts[i],
    ensures
        changes(accounts, instructions, n)[q].0@ != accounts[i].0@,
    decreases n,
{
    let rest = changes(accounts, instructions, (n - 1) as nat);
    let all = changes(accounts, instructions, n);
    if at < rest.len() {
        assert(all[at] == rest[at] && all[q] == rest[q]);
        changes_come_once(accounts, instructions, (n - 1) as nat, i, q, at);
    } else {
        assert(all[at] == accounts[n - 1]);
        assert(i == n - 1);
        assert(rest.contains(rest[q]));
        changes_are_what_was_changed(accounts, instructions, (n - 1) as nat, rest[q]);
        let j = choose|j: int| 0 <= j < n - 1 && #[trigger] accounts[j] == rest[q];
        assert(accounts[j].0@ != accounts[i].0@);
    }
}

/// A transaction that was executed and succeeded touches no account that it did not change: a
/// read of any other address gives what it gave before. That holds of the account that shows a
/// transaction its instructions, too.
pub proof fn nothing_else_is_stored(
    before: Keeper,
    record: ExecutionRecord,
    after: AccountsDB,
    key: Seq<u8>,
)
    requires
        before.wf(),
        committed(before, record, after),
        ({
            &&& record.result is Ok
            &&& record.result->Ok_0.status is Ok
        }),
        ({
            let accounts = entry_views(record.result->Ok_0.accounts@);
            &&& entries_ok(accounts)
            &&& key == before.addresses.instructions@ || forall|j: int|
                0 <= j < accounts.len() && changed(#[trigger] accounts[j]) ==> accounts[j].0@ != key
        }),
    ensures
        after.lookup(key) == before.accountsdb.lookup(key),
{
    let accounts = entry_views(record.result->Ok_0.accounts@);
    let instructions = before.addresses.instructions;
    let entries = before.transitions(record);
    changes_are_ok(accounts, instructions, accounts.len());
    assert forall|q: int| 0 <= q < entries.len() implies (#[trigger] entries[q]).0@ != key by {
        assert(entries.contains(entries[q]));
        changes_are_what_was_changed(accounts, instructions, accounts.len(), entries[q]);
    }
    other_accounts_are_kept(before.accountsdb, entries, after, key);
}

/// A transaction that was not executed, or that failed, leaves every account as it was.
pub proof fn failed_transactions_store_nothing(
    before: Keeper,
    record: ExecutionRecord,
    after: AccountsDB,
    key: Seq<u8>,
)
    requires
        before.wf(),
        committed(before, record, after),
        !(record.result is Ok && record.result->Ok_0.status is Ok),
    ensures
        after.lookup(key) == before.accountsdb.lookup(key),
{
    let entries = before.transitions(record);
    assert(entries =~= Seq::<EntryView>::empty());
    other_accounts_are_kept(before.accountsdb, entries, after, key);
}

/// Every transaction that is committed is counted once, whether it succeeded or not; one whose
/// accounts could not be stored is not counted and leaves every account as it was.
pub proof fn transactions_are_counted(
    before: Keeper,
    record: ExecutionRecord,
    after: AccountsDB,
    result: Result<(), AccountsDBError>,
    key: Seq<u8>,
)
    requires
        before.wf(),
        before.accountsdb.commits(before.transitions(record), after, result),
        before.accountsdb.persisted.meta.transactions < u64::MAX,
    ensures
        result is Ok ==> after.persisted.meta.transactions
            == before.accountsdb.persisted.meta.transactions + 1,
        result is Err ==> after.persisted.meta.transactions
            == before.accountsdb.persisted.meta.transactions,
        result is Err ==> after.lookup(key) == before.accountsdb.lookup(key),
{
}

/// Someone who is not gone follows a topic.
pub open spec fn has_follower(
    map: Map<Seq<u8>, Seq<Receiver>>,
    topic: Seq<u8>,
    gone: Seq<Receiver>,
) -> bool {
    map.contains_key(topic) && exists|k: int|
        0 <= k < map[topic].len() && !gone.contains(#[trigger] map[topic][k])
}

/// A receiver is left exactly if it was there and is not gone.
pub proof fn those_not_gone_are_left(list: Seq<Receiver>, gone: Seq<Receiver>, receiver: Receiver)
    ensures
        remaining(list, gone).contains(receiver) <==> list.contains(receiver) && !gone.contains(
            receiver,
        ),
    decreases list.len(),
{
    if list.len() > 0 {
        let less = list.drop_last();
        let rest = remaining(less, gone);
        let all = remaining(list, gone);
        those_not_gone_are_left(less, gone, receiver);
        if list.contains(receiver) && receiver != list.last() {
            let k = choose|k: int| 0 <= k < list.len() && list[k] == receiver;
            assert(less[k] == receiver);
        }
        if less.contains(receiver) {
            let k = choose|k: int| 0 <= k < less.len() && less[k] == receiver;
            assert(list[k] == receiver);
        }
        if rest.contains(receiver) {
            let k = choose|k: int| 0 <= k < rest.len() && rest[k] == receiver;
            assert(all[k] == receiver);
        }
        if all.contains(receiver) && receiver != list.last() {
            let k = choose|k: int| 0 <= k < all.len() && all[k] == receiver;
            assert(rest[k] == receiver);
        }
        if !gone.contains(list.last()) {
            assert(all[all.len() - 1] == list.last());
        }
        assert(list[list.len() - 1] == list.last());
    }
}

/// Those who are left keep their order.
pub proof fn those_left_keep_their_order(list: Seq<Receiver>, gone: Seq<Receiver>)
    ensures
        remaining(list, gone) == list.filter(|receiver: Receiver| !gone.contains(receiver)),
    decreases list.len(),
{
    reveal(Seq::filter);
    if list.len() > 0 {
        those_left_keep_their_order(list.drop_last(), gone);
    } else {
        assert(list.filter(|receiver: Receiver| !gone.contains(receiver)) =~= Seq::empty());
    }
}

proof fn followers(map: Map<Seq<u8>, Seq<Receiver>>, topic: Seq<u8>, gone: Seq<Receiver>)
    ensures
        followed(map, topic, gone) == has_follower(map, topic, gone),
{
    let list = receivers_of(map, topic);
    let left = remaining(list, gone);
    if left.len() > 0 {
        assert(left.contains(left[0]));
        those_not_gone_are_left(list, gone, left[0]);
        let k = choose|k: int| 0 <= k < list.len() && list[k] == left[0];
        assert(!gone.contains(map[topic][k]));
    }
    if has_follower(map, topic, gone) {
        let k = choose|k: int|
            0 <= k < map[topic].len() && !gone.contains(#[trigger] map[topic][k]);
        assert(list.contains(list[k]));
        those_not_gone_are_left(list, gone, list[k]);
    }
}

/// What is sent about the accounts of a transaction that succeeded: for every account, its logs
/// go to its followers exactly if it has one; the account itself is sent exactly if it was
/// changed; and it goes to the followers of its owner exactly if it was changed and its owner has
/// one. Nothing else is sent.
pub proof fn notices_reach_every_follower(
    accounts: Seq<EntryView>,
    logs: Map<Seq<u8>, Seq<Receiver>>,
    programs: Map<Seq<u8>, Seq<Receiver>>,
    gone: Seq<Receiver>,
    n: nat,
    i: usize,
)
    requires
        n <= accounts.len() <= usize::MAX,
    ensures
        ({
            let sent = notices(accounts, logs, programs, gone, n);
            let entry = accounts[i as int];
            &&& sent.contains(Notice::Logs(i)) <==> i < n && has_follower(logs, entry.0@, gone)
            &&& sent.contains(Notice::Account(i)) <==> i < n && changed(entry)
            &&& sent.contains(Notice::Program(i)) <==> i < n && changed(entry) && has_follower(
                programs,
                entry.1.account.owner@,
                gone,
            )
        }),
    decreases n,
{
    if n > 0 {
        let last = (n - 1) as usize;
        let before = notices(accounts, logs, programs, gone, (n - 1) as nat);
        let own = account_notices(accounts[n - 1], last, logs, programs, gone);
        notices_reach_every_follower(accounts, logs, programs, gone, (n - 1) as nat, i);
        followers(logs, accounts[n - 1].0@, gone);
        followers(programs, accounts[n - 1].1.account.owner@, gone);
        own_notices(accounts[n - 1], last, logs, programs, gone);
        joined(before, own, Notice::Logs(i));
        joined(before, own, Notice::Account(i));
        joined(before, own, Notice::Program(i));
    }
}

proof fn joined(a: Seq<Notice>, b: Seq<Notice>, notice: Notice)
    ensures
        (a + b).contains(notice) <==> a.contains(notice) || b.contains(notice),
{
    let all = a + b;
    if a.contains(notice) {
        let k = choose|k: int| 0 <= k < a.len() && a[k] == notice;
        assert(all[k] == notice);
    }
    if b.contains(notice) {
        let k = choose|k: int| 0 <= k < b.len() && b[k] == notice;
        assert(all[a.len() + k] == notice);
    }
    if all.contains(notice) {
        let k = choose|k: int| 0 <= k < all.len() && all[k] == notice;
        if k < a.len() {
            assert(a[k] == notice);
        } else {
            assert(b[k - a.len()] == notice);
        }
    }
}

proof fn own_notices(
    entry: EntryView,
    at: usize,
    logs: Map<Seq<u8>, Seq<Receiver>>,
    programs: Map<Seq<u8>, Seq<Receiver>>,
    gone: Seq<Receiver>,
)
    ensures
        ({
            let own = account_notices(entry, at, logs, programs, gone);
            let heard = followed(logs, entry.0@, gone);
            let seen = followed(programs, entry.1.account.owner@, gone);
            &&& own.contains(Notice::Logs(at)) <==> heard
            &&& own.contains(Notice::Account(at)) <==> changed(entry)
            &&& own.contains(Notice::Program(at)) <==> changed(entry) && seen
            &&& forall|k: int|
                0 <= k < own.len() ==> (#[trigger] own[k] == Notice::Logs(at) || own[k]
                    == Notice::Account(at) || own[k] == Notice::Program(at))
            &&& forall|a: int, b: int|
                0 <= a < b < own.len() ==> before_in_turn(#[trigger] own[a], #[trigger] own[b])
        }),
{
    let own = account_notices(entry, at, logs, programs, gone);
    let heard = followed(logs, entry.0@, gone);
    let seen = followed(programs, entry.1.account.owner@, gone);
    if heard {
        assert(own[0] == Notice::Logs(at));
    }
    if changed(entry) {
        let k: int = if heard {
            1
        } else {
            0
        };
        assert(own[k] == Notice::Account(at));
        if seen {
            assert(own[k + 1] == Notice::Program(at));
        }
    }
}

/// The account that something is sent about.
pub open spec fn subject(notice: Notice) -> usize {
    match notice {
        Notice::Logs(at) => at,
        Notice::Account(at) => at,
        Notice::Program(at) => at,
    }
}

/// One thing is sent before another: that of an earlier account first, and of one account its
/// logs, the account to its own followers, and the account to those of its owner.
pub open spec fn before_in_turn(a: Notice, b: Notice) -> bool {
    subject(a) < subject(b) || (subject(a) == subject(b) && (a is Logs && !(b is Logs) || (
    a is Account && b is Program)))
}

/// Everything is sent once, account by account in the order of the transaction.
pub proof fn notices_are_in_order(
    accounts: Seq<EntryView>,
    logs: Map<Seq<u8>, Seq<Receiver>>,
    programs: Map<Seq<u8>, Seq<Receiver>>,
    gone: Seq<Receiver>,
    n: nat,
)
    requires
        n <= accounts.len() <= usize::MAX,
    ensures
        ({
            let sent = notices(accounts, logs, programs, gone, n);
            &&& forall|a: int, b: int|
                0 <= a < b < sent.len() ==> before_in_turn(#[trigger] sent[a], #[trigger] sent[b])
            &&& forall|a: int| 0 <= a < sent.len() ==> subject(#[trigger] sent[a]) < n
        }),
    decreases n,
{
    if n > 0 {
        let last = (n - 1) as usize;
        let before = notices(accounts, logs, programs, gone, (n - 1) as nat);
        let own = account_notices(accounts[n - 1], last, logs, programs, gone);
        let sent = notices(accounts, logs, programs, gone, n);
        notices_are_in_order(accounts, logs, programs, gone, (n - 1) as nat);
        own_notices(accounts[n - 1], last, logs, programs, gone);
        assert forall|a: int, b: int| 0 <= a < b < sent.len() implies before_in_turn(
            #[trigger] sent[a],
            #[trigger] sent[b],
        ) by {
            if b < before.len() {
                assert(sent[a] == before[a] && sent[b] == before[b]);
            } else {
                assert(sent[b] == own[b - before.len()]);
                if a < before.len() {
                    assert(sent[a] == before[a]);
                } else {
                    assert(sent[a] == own[a - before.len()]);
                }
            }
        }
        assert forall|a: int| 0 <= a < sent.len() implies subject(#[trigger] sent[a]) < n by {
            if a < before.len() {
                assert(sent[a] == before[a]);
            } else {
                assert(sent[a] == own[a - before.len()]);
            }
        }
    }
}

/// Who is told of a committed transaction. If it succeeded, everything is sent about its accounts
/// that their followers wait for, and messages for services are sent where someone takes them;
/// otherwise nothing of that is sent. In any case the one who takes processed transactions is
/// told, and so is everyone who waits for the status of this one, who then waits no more. The
/// status is the one that is found under the signature from now on, if the signature is still
/// remembered.
pub proof fn everyone_is_told(
    before: Keeper,
    signature: Signature,
    record: ExecutionRecord,
    status: TransactionStatus,
    closed: Closed,
    after: Keeper,
    published: Published,
    i: usize,
)
    requires
        before.wf(),
        before.publishes(signature, record, status, closed, after, Ok(published)),
        record.result is Ok ==> record.result->Ok_0.accounts@.len() <= usize::MAX,
    ensures
        ({
            let success = record.result is Ok && record.result->Ok_0.status is Ok;
            let gone = closed.receivers@;
            let logs = before.subscriptions.logs.senders@;
            let programs = before.subscriptions.programs.senders@;
            let waiting = before.subscriptions.signatures.senders@;
            let accounts = entry_views(record.result->Ok_0.accounts@);
            let entry = accounts[i as int];
            let sent = published.notices@;
            &&& success ==> {
                &&& sent.contains(Notice::Logs(i)) <==> i < accounts.len() && has_follower(
                    logs,
                    entry.0@,
                    gone,
                )
                &&& sent.contains(Notice::Account(i)) <==> i < accounts.len() && changed(entry)
                &&& sent.contains(Notice::Program(i)) <==> i < accounts.len() && changed(entry)
                    && has_follower(programs, entry.1.account.owner@, gone)
            }
            &&& !success ==> sent.len() == 0 && !published.services
            &&& success ==> published.services == (before.subscriptions.services.registered
                && !closed.services)
            &&& published.transaction == (before.subscriptions.transactions.registered
                && !closed.transactions)
            &&& published.status == status
            &&& waiting.contains_key(signature@) ==> published.waiters@ == waiting[signature@]
            &&& !waiting.contains_key(signature@) ==> published.waiters@.len() == 0
            &&& !after.subscriptions.signatures.senders@.contains_key(signature@)
            &&& forall|other: Seq<u8>| #[trigger]
                waiting.contains_key(other) && other != signature@
                    ==> after.subscriptions.signatures.senders@.contains_key(other)
                    && after.subscriptions.signatures.senders@[other] == waiting[other]
            &&& has_key(before.caches.signatures.queue@, signature_key(signature)) ==> value_of(
                after.caches.signatures.queue@,
                signature_key(signature),
            ) == Some(Some(status))
        }),
{
    updates_are_found(
        before.caches.signatures.queue@,
        signature_key(signature),
        Some(status),
        signature_key(signature),
    );
    if record.result is Ok && record.result->Ok_0.status is Ok {
        let accounts = entry_views(record.result->Ok_0.accounts@);
        notices_reach_every_follower(
            accounts,
            before.subscriptions.logs.senders@,
            before.subscriptions.programs.senders@,
            closed.receivers@,
            accounts.len(),
            i,
        );
    }
}

/// What is recorded of an execution is what happened: its signature, its slot, and its outcome,
/// which is the error where it was not executed. Fee, balances, logs, compute units, and what was
/// returned are those of the execution, and only an executed transaction has them.
pub proof fn records_say_what_happened(
    signature: Signature,
    before: ExecutionRecord,
    commit: ExecutionCommit,
    after: ExecutionRecord,
)
    requires
        commits_as(signature, before, commit, after),
    ensures
        commit.signature == signature,
        commit.header.signature == signature,
        commit.header.slot == before.slot,
        commit.status.slot == before.slot,
        commit.status.result == commit.header.result,
        commit.details is Some == before.result is Ok,
        before.result matches Err(error) ==> commit.header.result == Err::<(), _>(error)
            && commit.logs@.len() == 0,
        before.result matches Ok(executed) ==> {
            &&& commit.header.result == executed.status
            &&& commit.details->0.fee == executed.fee
            &&& commit.details->0.compute_units == executed.executed_units
            &&& executed.logs matches Some(logs) ==> commit.logs == logs && commit.details->0.logs
                == logs
            &&& executed.logs is None ==> commit.logs@.len() == 0
            &&& before.balances matches Some((pre, post)) ==> commit.details->0.balances.pre@ == pre@
                && commit.details->0.balances.post@ == post@
            &&& before.balances is None ==> commit.details->0.balances.pre@.len() == 0
                && commit.details->0.balances.post@.len() == 0
            &&& commit.details->0.return_data is Some == executed.return_data is Some
            &&& executed.return_data matches Some((program, data)) ==> {
                &&& commit.details->0.return_data->0.program == program
                &&& commit.details->0.return_data->0.data@ == data@
            }
            &&& commit.details->0.cpi is Some == executed.inner_instructions is Some
            &&& executed.inner_instructions matches Some(groups) ==> {
                let recorded = commit.details->0.cpi->0;
                &&& recorded@.len() == groups@.len()
                &&& forall|g: int|
                    #![trigger recorded@[g]]
                    0 <= g < groups@.len() ==> recorded@[g].0@.len() == groups@[g]@.len()
                &&& forall|g: int, k: int|
                    #![trigger recorded@[g].0@[k]]
                    0 <= g < groups@.len() && 0 <= k < groups@[g]@.len() ==> {
                        &&& recorded@[g].0@[k].stack_height == groups@[g]@[k].stack_height
                        &&& recorded@[g].0@[k].compiled.program_index
                            == groups@[g]@[k].program_index
                        &&& recorded@[g].0@[k].compiled.accounts@ == groups@[g]@[k].accounts@
                        &&& recorded@[g].0@[k].compiled.data@ == groups@[g]@[k].data@
                    }
            }
        },
        before.result is Ok == after.result is Ok,
        after.slot == before.slot,
{
    if let Ok(executed) = before.result {
        if let Some(groups) = executed.inner_instructions {
            let recorded = commit.details->0.cpi->0;
            let a = crate::keeper::commit::recorded_groups(recorded@);
            let b = crate::keeper::commit::inner_groups(groups@);
            assert(a.len() == recorded@.len() && b.len() == groups@.len());
            assert forall|g: int| #![trigger recorded@[g]] 0 <= g < groups@.len() implies recorded@[g].0@.len()
                == groups@[g]@.len() by {
                assert(a[g] == b[g]);
                assert(a[g].len() == recorded@[g].0@.len());
            }
            assert forall|g: int, k: int|
                #![trigger recorded@[g].0@[k]]
                0 <= g < groups@.len() && 0 <= k < groups@[g]@.len() implies {
                &&& recorded@[g].0@[k].stack_height == groups@[g]@[k].stack_height
                &&& recorded@[g].0@[k].compiled.program_index == groups@[g]@[k].program_index
                &&& recorded@[g].0@[k].compiled.accounts@ == groups@[g]@[k].accounts@
                &&& recorded@[g].0@[k].compiled.data@ == groups@[g]@[k].data@
            } by {
                assert(a[g] == b[g]);
                assert(a[g][k] == recorded@[g].0@[k]@);
                assert(b[g][k] == groups@[g]@[k]@);
            }
        }
    }
}

/// The end of a block is found in account storage: the stored clock has the slot and the time of
/// the block and is otherwise as it was, account storage is at the slot of the block, and a read
/// of any account but the two that follow blocks gives what it gave before.
pub proof fn blocks_are_found_in_storage(
    before: Keeper,
    block: Block,
    after: AccountsDB,
    key: Seq<u8>,
)
    requires
        before.wf(),
        before.ends_block(block, after, Ok(())),
        before.accountsdb.lookup(before.addresses.clock@) is Some,
        before.accountsdb.lookup(before.addresses.slot_hashes@) is Some,
        before.addresses.clock@ != before.addresses.slot_hashes@,
    ensures
        ({
            let old_clock = before.accountsdb.lookup(before.addresses.clock@)->0;
            &&& after.lookup(before.addresses.clock@) matches Some(clock) && {
                &&& clock.data.len() == old_clock.data.len() >= 40
                &&& clock_at(clock.data) == (Clock {
                    slot: block.slot,
                    unix_timestamp: block.time,
                    ..clock_at(old_clock.data)
                })
                &&& clock.lamports == old_clock.lamports
                &&& clock.owner == old_clock.owner
                &&& clock.mode == old_clock.mode
                &&& clock.slot == old_clock.slot
                &&& clock.executable == old_clock.executable
            }
            &&& after.persisted.meta.slot == block.slot
            &&& key != before.addresses.clock@ && key != before.addresses.slot_hashes@
                ==> after.lookup(key) == before.accountsdb.lookup(key)
        }),
{
    let stored = choose|stored: AccountsDB|
        (#[trigger] before.updates_sysvars(block, stored, Ok(()))) && after.volatile
            == stored.volatile && after.persisted.state() == (StoreState {
            meta: crate::accountsdb::storage::DatabaseMeta {
                slot: block.slot,
                ..stored.persisted.meta
            },
            ..stored.persisted.state()
        });
    let clock = before.accountsdb.lookup(before.addresses.clock@)->0;
    let entries = before.sysvars_after(block)->Ok_0;
    let counted = choose|counted: AccountsDB| #[trigger]
        counted.same_accounts(before.accountsdb) && counted.stores(entries, stored, Ok(()));
    blocks_set_the_clock(clock.data, block.slot, block.time);
    counted_is_wf(before.accountsdb, counted);
    crate::keeper::accessor::lookup_sized(before.accountsdb, before.addresses.clock@);
    crate::keeper::accessor::lookup_sized(before.accountsdb, before.addresses.slot_hashes@);
    open_accounts(before.accountsdb, before.addresses.clock@);
    assert(entries.len() == 2);
    last_write_is_read(counted, entries, stored, 1);
    assert(after.persisted.state().accounts() =~= stored.persisted.state().accounts());
    if key != before.addresses.clock@ && key != before.addresses.slot_hashes@ {
        other_accounts_are_kept(counted, entries, stored, key);
    }
}

/// The end of a block is found in the stored slot hashes: they are what adding the block to those
/// before makes of them, and the account is otherwise as it was.
pub proof fn hashes_are_found_in_storage(before: Keeper, block: Block, after: AccountsDB)
    requires
        before.wf(),
        before.ends_block(block, after, Ok(())),
        before.accountsdb.lookup(before.addresses.clock@) is Some,
        before.accountsdb.lookup(before.addresses.slot_hashes@) is Some,
        before.addresses.clock@ != before.addresses.slot_hashes@,
        parse_slot_hashes(before.accountsdb.lookup(before.addresses.slot_hashes@)->0.data) matches Some(
            list,
        ) ==> slot_hash_added(list, block.slot, block.hash).len() <= SLOTHASH_ENTRIES,
    ensures
        ({
            let old_hashes = before.accountsdb.lookup(before.addresses.slot_hashes@)->0;
            &&& parse_slot_hashes(old_hashes.data) matches Some(list) && after.lookup(
                before.addresses.slot_hashes@,
            ) matches Some(hashes) && {
                &&& parse_slot_hashes(hashes.data) == Some(
                    slot_hash_added(list, block.slot, block.hash),
                )
                &&& hashes.data.len() == old_hashes.data.len()
                &&& hashes.lamports == old_hashes.lamports
                &&& hashes.owner == old_hashes.owner
                &&& hashes.mode == old_hashes.mode
            }
        }),
{
    let stored = choose|stored: AccountsDB|
        (#[trigger] before.updates_sysvars(block, stored, Ok(()))) && after.volatile
            == stored.volatile && after.persisted.state() == (StoreState {
            meta: crate::accountsdb::storage::DatabaseMeta {
                slot: block.slot,
                ..stored.persisted.meta
            },
            ..stored.persisted.state()
        });
    let hashes = before.accountsdb.lookup(before.addresses.slot_hashes@)->0;
    let entries = before.sysvars_after(block)->Ok_0;
    let counted = choose|counted: AccountsDB| #[trigger]
        counted.same_accounts(before.accountsdb) && counted.stores(entries, stored, Ok(()));
    blocks_are_added_to_the_hashes(hashes.data, block.slot, block.hash);
    counted_is_wf(before.accountsdb, counted);
    crate::keeper::accessor::lookup_sized(before.accountsdb, before.addresses.clock@);
    crate::keeper::accessor::lookup_sized(before.accountsdb, before.addresses.slot_hashes@);
    open_accounts(before.accountsdb, before.addresses.slot_hashes@);
    assert(entries.len() == 2);
    last_write_is_read(counted, entries, stored, 0);
    assert(after.persisted.state().accounts() =~= stored.persisted.state().accounts());
}

/// Counting reads keeps the persisted backend well-formed and what is read.
proof fn counted_is_wf(before: AccountsDB, counted: AccountsDB)
    requires
        before.wf(),
        counted.same_accounts(before),
    ensures
        counted.persisted.state().wf(),
        forall|key: Seq<u8>| #[trigger] counted.lookup(key) == before.lookup(key),
{
    let s = before.persisted.state();
    let t = counted.persisted.state();
    assert(t.linked() == s.linked());
    assert(t.tiled() == s.tiled());
    assert(t.authoritative() == s.authoritative());
    assert(t.accounts() =~= s.accounts());
}

/// What is read was not closed.
proof fn open_accounts(db: AccountsDB, key: Seq<u8>)
    requires
        db.wf(),
        db.volatile.mirrors(),
    ensures
        db.lookup(key) matches Some(account) ==> account.mode != AccountMode::Closed,
{
    if db.persisted.state().accounts().contains_key(key) {
        assert(db.persisted.state().located.contains_key(key));
    }
}

/// A block whose end could not be stored leaves every account as it was, and account storage at
/// its slot.
pub proof fn refused_blocks_change_nothing(
    before: Keeper,
    block: Block,
    after: AccountsDB,
    error: AccountsDBError,
    key: Seq<u8>,
)
    requires
        before.wf(),
        before.ends_block(block, after, Err(error)),
    ensures
        after.lookup(key) == before.accountsdb.lookup(key),
        after.persisted.meta.transactions == before.accountsdb.persisted.meta.transactions,
{
    let stored = choose|stored: AccountsDB|
        (#[trigger] before.updates_sysvars(block, stored, Err(error))) && after == stored;
    match before.sysvars_after(block) {
        Ok(entries) => {
            if entries.len() > 0 {
                let counted = choose|counted: AccountsDB| #[trigger]
                    counted.same_accounts(before.accountsdb) && counted.stores(
                        entries,
                        stored,
                        Err(error),
                    );
                counted_is_wf(before.accountsdb, counted);
                assert(counted.lookup(key) == before.accountsdb.lookup(key));
            }
        },
        Err(_) => {
            counted_is_wf(before.accountsdb, stored);
            assert(stored.lookup(key) == before.accountsdb.lookup(key));
        },
    }
}

/// What a read gives once the accounts mirrored from another chain are gone: runtime state, else
/// what is persisted.
pub open spec fn read_without_mirrors(db: AccountsDB, key: Seq<u8>) -> Option<AccountView> {
    let mirrored = db.volatile.contents();
    let persisted = db.persisted.state().accounts();
    if mirrored.contains_key(key) && mirrored[key].mode is System {
        Some(mirrored[key])
    } else if persisted.contains_key(key) {
        Some(persisted[key])
    } else {
        None
    }
}

/// A reset drops every account mirrored from another chain and nothing else: runtime state and
/// what is persisted are read as before, and a paying account that is left has its first balance
/// again and is otherwise as it was. If it cannot be stored, the mirrors are gone all the same.
pub proof fn resets_drop_the_mirrors(
    before: Keeper,
    after: AccountsDB,
    result: Result<(), AccountsDBError>,
    key: Seq<u8>,
)
    requires
        before.wf(),
        before.resets(after, result),
    ensures
        key != before.authority@ || result is Err ==> after.lookup(key) == read_without_mirrors(
            before.accountsdb,
            key,
        ),
        result is Ok ==> after.lookup(before.authority@) == match read_without_mirrors(
            before.accountsdb,
            before.authority@,
        ) {
            Some(account) => Some(AccountView { lamports: 0x7fff_ffff_ffff_ffff, ..account }),
            None => None,
        },
{
    let left = choose|left: AccountsDB|
        {
            &&& #[trigger] left.wf()
            &&& before.dropped(left)
            &&& before.refunds(left, after, result)
        };
    let payer = before.authority@;
    assert(left.persisted.state().accounts() =~= before.accountsdb.persisted.state().accounts());
    assert forall|k: Seq<u8>| #[trigger] left.lookup(k) == read_without_mirrors(
        before.accountsdb,
        k,
    ) by {}
    assert(left.lookup(payer) == read_without_mirrors(before.accountsdb, payer));
    assert(left.lookup(key) == read_without_mirrors(before.accountsdb, key));
    if let Some(account) = left.lookup(payer) {
        let entries = seq![(before.authority, crate::keeper::accessor::sponsored(account))];
        if result is Ok {
            if left.persisted.state().accounts().contains_key(payer) {
                assert(left.persisted.state().located.contains_key(payer));
            }
            assert(account.mode != AccountMode::Closed);
            assert(account.mode.is_authoritative() ==> account.units > 0);
            last_write_is_read(left, entries, after, 0);
            if key != payer {
                other_accounts_are_kept(left, entries, after, key);
            }
        }
    }
}

/// The right to change an account is granted exactly if nobody has it, and from then on somebody
/// does; it says what the account is at that moment. Everyone else's right stays as it was.
pub proof fn rights_are_exclusive(
    before: Keeper,
    pubkey: Pubkey,
    lease: Option<AccountLease>,
    after: Keeper,
    other: Seq<u8>,
)
    requires
        before.locks(pubkey, lease, after),
    ensures
        lease is Some == !before.caches.accounts.held().contains(pubkey@),
        after.caches.accounts.held().contains(pubkey@),
        other != pubkey@ ==> after.caches.accounts.held().contains(other)
            == before.caches.accounts.held().contains(other),
        lease matches Some(granted) ==> {
            &&& granted.pubkey@ == pubkey@
            &&& granted.observed is Some == before.accountsdb.lookup(pubkey@) is Some
            &&& granted.observed matches Some((mode, slot)) ==> mode
                == before.accountsdb.lookup(pubkey@)->0.mode && slot
                == before.accountsdb.lookup(pubkey@)->0.slot
        },
        after.accountsdb.lookup(other) == before.accountsdb.lookup(other),
{
    assert(after.accountsdb.persisted.state().accounts()
        =~= before.accountsdb.persisted.state().accounts());
}

/// A cleanup lets those go that are gone, from every topic, and nobody else: a receiver is left
/// on a topic exactly if it was there and is not gone, and a topic that nobody is left on is no
/// topic any more.
pub proof fn cleanups_let_the_gone_go(
    map: Map<Seq<u8>, Seq<Receiver>>,
    gone: Seq<Receiver>,
    topic: Seq<u8>,
    receiver: Receiver,
)
    ensures
        receivers_of(cleaned(map, gone), topic).contains(receiver) <==> map.contains_key(topic)
            && map[topic].contains(receiver) && !gone.contains(receiver),
        cleaned(map, gone).contains_key(topic) <==> has_follower(map, topic, gone),
{
    let list = receivers_of(map, topic);
    those_not_gone_are_left(list, gone, receiver);
    followers(map, topic, gone);
    if map.contains_key(topic) {
        let left = remaining(map[topic], gone);
        if left.len() == 0 {
            assert(!left.contains(receiver));
        }
    }
}

/// What the fan-out of a transaction does to those who follow a topic: on a topic that it
/// touched, those who are gone are let go; any other topic keeps everyone.
pub proof fn fan_outs_let_the_gone_go(
    map: Map<Seq<u8>, Seq<Receiver>>,
    topics: Seq<Seq<u8>>,
    gone: Seq<Receiver>,
    n: nat,
    topic: Seq<u8>,
)
    requires
        n <= topics.len(),
    ensures
        (exists|k: int| 0 <= k < n && #[trigger] topics[k] == topic) ==> receivers_of(
            pruned(map, topics, gone, n),
            topic,
        ) == remaining(receivers_of(map, topic), gone),
        !(exists|k: int| 0 <= k < n && #[trigger] topics[k] == topic) ==> receivers_of(
            pruned(map, topics, gone, n),
            topic,
        ) == receivers_of(map, topic),
    decreases n,
{
    if n > 0 {
        fan_outs_let_the_gone_go(map, topics, gone, (n - 1) as nat, topic);
        let before = pruned(map, topics, gone, (n - 1) as nat);
        let list = receivers_of(before, topics[n - 1]);
        remaining_again(receivers_of(map, topic), gone);
        if topics[n - 1] == topic {
            if remaining(list, gone).len() == 0 {
                assert(remaining(list, gone) =~= Seq::<Receiver>::empty());
            }
        } else if exists|k: int| 0 <= k < n && #[trigger] topics[k] == topic {
            let k = choose|k: int| 0 <= k < n && #[trigger] topics[k] == topic;
            assert(k < n - 1);
            assert(topics[k] == topic);
        }
    }
}

/// Owners are told exactly of the accounts that were changed.
pub proof fn owners_of_changes_are_topics(accounts: Seq<EntryView>, n: nat, owner: Seq<u8>)
    requires
        n <= accounts.len(),
    ensures
        owner_topics(accounts, n).contains(owner) <==> exists|i: int|
            0 <= i < n && changed(#[trigger] accounts[i]) && accounts[i].1.account.owner@ == owner,
    decreases n,
{
    if n > 0 {
        owners_of_changes_are_topics(accounts, (n - 1) as nat, owner);
        let rest = owner_topics(accounts, (n - 1) as nat);
        let all = owner_topics(accounts, n);
        if rest.contains(owner) {
            let k = choose|k: int| 0 <= k < rest.len() && rest[k] == owner;
            assert(all[k] == owner);
        }
        if changed(accounts[n - 1]) {
            assert(all[all.len() - 1] == accounts[n - 1].1.account.owner@);
        }
        if all.contains(owner) {
            let k = choose|k: int| 0 <= k < all.len() && all[k] == owner;
            if k < rest.len() {
                assert(rest[k] == owner);
            } else {
                assert(changed(accounts[n - 1]));
            }
        }
    }
}

/// What is said to be left alone stays as it was: who pays, the well-known addresses, the features,
/// and the rent; where only accounts change, or only followers, everything else; and where only
/// reads are counted, every account and what the header says of slots and transactions.
pub proof fn the_rest_is_left_alone(before: Keeper, after: Keeper, key: Seq<u8>)
    ensures
        after.same_settings(before) ==> {
            &&& after.authority == before.authority
            &&& after.addresses == before.addresses
            &&& after.featureset == before.featureset
            &&& after.rent == before.rent
        },
        after.same_beside_accounts(before) ==> {
            &&& after.same_settings(before)
            &&& after.caches.blocks == before.caches.blocks
            &&& after.caches.signatures == before.caches.signatures
            &&& after.caches.accounts == before.caches.accounts
            &&& after.subscriptions == before.subscriptions
        },
        after.same_beside_subscriptions(before) ==> {
            &&& after.same_settings(before)
            &&& after.caches == before.caches
            &&& after.accountsdb == before.accountsdb
        },
        after.accountsdb.same_accounts(before.accountsdb) ==> {
            &&& after.accountsdb.lookup(key) == before.accountsdb.lookup(key)
            &&& after.accountsdb.persisted.meta.slot == before.accountsdb.persisted.meta.slot
            &&& after.accountsdb.persisted.meta.superblock
                == before.accountsdb.persisted.meta.superblock
            &&& after.accountsdb.persisted.meta.transactions
                == before.accountsdb.persisted.meta.transactions
            &&& after.accountsdb.persisted.meta.cursor == before.accountsdb.persisted.meta.cursor
        },
{
    if after.accountsdb.same_accounts(before.accountsdb) {
        assert(after.accountsdb.persisted.state().accounts()
            =~= before.accountsdb.persisted.state().accounts());
    }
}

} // verus!
