//! What reads of an account store give back of what was written in batches.

use vstd::prelude::*;

use crate::accountsdb::db::{
    applied_accounts, entry_keeps_backends_exclusive, exclusive, lists_program, persisted_after,
    touches_volatile, visible, volatile_after, volatile_part, walks_program, AccountsDB,
};
use crate::accountsdb::index::tail_of;
use crate::accountsdb::store::{applied_wf, paged, place_key, tag_exists, StoreState};
use crate::accountsdb::volatile::mirrored_all;
use crate::accountsdb::AccountsDBError;
use crate::types::{entries_ok, Account, AccountMode, AccountView, CoWAccount, EntryView, Pubkey};

verus! {

/// Persisted accounts after the first `n` entries.
pub open spec fn persisted_all(
    accounts: Map<Seq<u8>, AccountView>,
    entries: Seq<EntryView>,
    n: nat,
) -> Map<Seq<u8>, AccountView>
    decreases n,
{
    if n == 0 {
        accounts
    } else {
        persisted_after(persisted_all(accounts, entries, (n - 1) as nat), entries[n - 1])
    }
}

/// Volatile accounts after the first `n` entries.
pub open spec fn volatile_all(
    accounts: Map<Seq<u8>, AccountView>,
    entries: Seq<EntryView>,
    n: nat,
) -> Map<Seq<u8>, AccountView>
    decreases n,
{
    if n == 0 {
        accounts
    } else {
        volatile_after(volatile_all(accounts, entries, (n - 1) as nat), entries[n - 1])
    }
}

/// A batch was stored or committed.
pub open spec fn written(before: AccountsDB, entries: Seq<EntryView>, after: AccountsDB) -> bool {
    before.stores(entries, after, Ok::<(), AccountsDBError>(())) || before.commits(
        entries,
        after,
        Ok::<(), AccountsDBError>(()),
    )
}

pub(crate) proof fn persisted_follow(s: StoreState, entries: Seq<EntryView>, n: nat)
    requires
        s.wf(),
        entries_ok(entries),
        n <= entries.len(),
    ensures
        s.applied_all(entries, n) matches Some(t) ==> t.wf() && t.accounts() == persisted_all(
            s.accounts(),
            entries,
            n,
        ),
    decreases n,
{
    if n > 0 {
        persisted_follow(s, entries, (n - 1) as nat);
        if let Some(t) = s.applied_all(entries, (n - 1) as nat) {
            applied_accounts(t, entries[n - 1]);
            applied_wf(t, entries[n - 1]);
        }
    }
}

proof fn same_mirrors(
    accounts: Map<Seq<u8>, AccountView>,
    a: Seq<EntryView>,
    b: Seq<EntryView>,
    k: nat,
)
    requires
        k <= a.len(),
        k <= b.len(),
        forall|i: int| 0 <= i < k ==> a[i] == b[i],
    ensures
        mirrored_all(accounts, a, k) == mirrored_all(accounts, b, k),
    decreases k,
{
    if k > 0 {
        same_mirrors(accounts, a, b, (k - 1) as nat);
    }
}

pub(crate) proof fn volatile_follow(accounts: Map<Seq<u8>, AccountView>, entries: Seq<EntryView>, n: nat)
    requires
        n <= entries.len(),
    ensures
        ({
            let part = volatile_part(entries, n);
            mirrored_all(accounts, part, part.len()) == volatile_all(accounts, entries, n)
        }),
    decreases n,
{
    if n > 0 {
        let less = volatile_part(entries, (n - 1) as nat);
        volatile_follow(accounts, entries, (n - 1) as nat);
        if touches_volatile(entries[n - 1]) {
            same_mirrors(accounts, less, volatile_part(entries, n), less.len());
        }
    }
}

/// A batch leaves no address in both backends.
pub(crate) proof fn batches_keep_exclusive(
    persisted: Map<Seq<u8>, AccountView>,
    volatile: Map<Seq<u8>, AccountView>,
    entries: Seq<EntryView>,
    n: nat,
)
    requires
        exclusive(persisted, volatile),
        n <= entries.len(),
    ensures
        exclusive(persisted_all(persisted, entries, n), volatile_all(volatile, entries, n)),
    decreases n,
{
    if n > 0 {
        batches_keep_exclusive(persisted, volatile, entries, (n - 1) as nat);
        entry_keeps_backends_exclusive(
            persisted_all(persisted, entries, (n - 1) as nat),
            volatile_all(volatile, entries, (n - 1) as nat),
            entries[n - 1],
        );
    }
}

/// A batch has the effect of its entries one after the other, although each backend takes its
/// part of the batch at once.
pub proof fn batches_are_written_in_order(
    before: AccountsDB,
    entries: Seq<EntryView>,
    after: AccountsDB,
)
    requires
        before.persisted.state().wf(),
        entries_ok(entries),
        written(before, entries, after),
    ensures
        after.persisted.state().accounts() == persisted_all(
            before.persisted.state().accounts(),
            entries,
            entries.len(),
        ),
        after.volatile.contents() == volatile_all(
            before.volatile.contents(),
            entries,
            entries.len(),
        ),
{
    let s = before.persisted.state();
    persisted_follow(s, entries, entries.len());
    volatile_follow(before.volatile.contents(), entries, entries.len());
    let next = s.applied_all(entries, entries.len())->0;
    assert(after.persisted.state().accounts() =~= next.accounts());
}

/// Whatever is done to a store, no address is in both backends if none was before: this holds of
/// a batch that is stored or committed, and of one that is refused, of reads, of compaction, and
/// of a snapshot.
pub proof fn backends_stay_apart(
    before: AccountsDB,
    entries: Seq<EntryView>,
    result: Result<(), AccountsDBError>,
    key: Seq<u8>,
    reclaimed: u64,
    superblock: u64,
    after: AccountsDB,
)
    requires
        before.wf(),
        before.apart(),
        entries_ok(entries),
        before.stores(entries, after, result) || before.commits(entries, after, result)
            || before.loads(key, after) || before.compacts(after, reclaimed) || before.exports(
            superblock,
            after,
        ),
    ensures
        after.apart(),
{
    let persisted = before.persisted.state().accounts();
    if before.loads(key, after) {
        assert(after.persisted.state().accounts() =~= persisted);
    } else if !(before.compacts(after, reclaimed) || before.exports(superblock, after)) {
        if before.persisted.state().applied_all(entries, entries.len()) is Some {
            batches_are_written_in_order(before, entries, after);
            batches_keep_exclusive(
                persisted,
                before.volatile.contents(),
                entries,
                entries.len(),
            );
        }
    }
}

/// Entries for other addresses leave an address alone.
proof fn others_keep(
    persisted: Map<Seq<u8>, AccountView>,
    volatile: Map<Seq<u8>, AccountView>,
    entries: Seq<EntryView>,
    from: nat,
    n: nat,
    key: Seq<u8>,
)
    requires
        from <= n <= entries.len(),
        forall|j: int| from <= j < n ==> (#[trigger] entries[j]).0@ != key,
    ensures
        ({
            let p = persisted_all(persisted, entries, from);
            let q = persisted_all(persisted, entries, n);
            &&& p.contains_key(key) == q.contains_key(key)
            &&& p.contains_key(key) ==> p[key] == q[key]
        }),
        ({
            let v = volatile_all(volatile, entries, from);
            let w = volatile_all(volatile, entries, n);
            &&& v.contains_key(key) == w.contains_key(key)
            &&& v.contains_key(key) ==> v[key] == w[key]
        }),
    decreases n,
{
    if from < n {
        others_keep(persisted, volatile, entries, from, (n - 1) as nat, key);
        assert(entries[n - 1].0@ != key);
    }
}

/// A read gives back the last write of a batch: a value that was stored is what a read of its
/// address returns, and a closed account is gone.
pub proof fn last_write_is_read(
    before: AccountsDB,
    entries: Seq<EntryView>,
    after: AccountsDB,
    i: int,
)
    requires
        before.persisted.state().wf(),
        entries_ok(entries),
        written(before, entries, after),
        0 <= i < entries.len(),
        entries[i].1.cow == CoWAccount::Owned,
        forall|j: int| i < j < entries.len() ==> (#[trigger] entries[j]).0@ != entries[i].0@,
    ensures
        after.lookup(entries[i].0@) == if entries[i].1.account.mode == AccountMode::Closed {
            None
        } else {
            Some(entries[i].1.account)
        },
{
    batches_are_written_in_order(before, entries, after);
    others_keep(
        before.persisted.state().accounts(),
        before.volatile.contents(),
        entries,
        (i + 1) as nat,
        entries.len(),
        entries[i].0@,
    );
}

/// A changed view of an image is read back, too, if the batch holds no other entry for its
/// address, the image still exists, and the volatile backend does not hold the address.
pub proof fn changed_view_is_read(
    before: AccountsDB,
    entries: Seq<EntryView>,
    after: AccountsDB,
    i: int,
)
    requires
        before.persisted.state().wf(),
        entries_ok(entries),
        written(before, entries, after),
        0 <= i < entries.len(),
        entries[i].1.cow == CoWAccount::Borrowed,
        entries[i].1.markers.any(),
        before.persisted.state().accounts().contains_key(entries[i].0@),
        !before.volatile.contents().contains_key(entries[i].0@),
        forall|j: int|
            0 <= j < entries.len() && j != i ==> (#[trigger] entries[j]).0@ != entries[i].0@,
    ensures
        after.lookup(entries[i].0@) == if entries[i].1.account.mode == AccountMode::Closed {
            None
        } else {
            Some(entries[i].1.account)
        },
{
    let p = before.persisted.state().accounts();
    let v = before.volatile.contents();
    let key = entries[i].0@;
    batches_are_written_in_order(before, entries, after);
    others_keep(p, v, entries, 0, i as nat, key);
    others_keep(p, v, entries, (i + 1) as nat, entries.len(), key);
}

/// A batch leaves what a read of any address returns for which it holds no entry.
pub proof fn other_accounts_are_kept(
    before: AccountsDB,
    entries: Seq<EntryView>,
    after: AccountsDB,
    key: Seq<u8>,
)
    requires
        before.persisted.state().wf(),
        entries_ok(entries),
        written(before, entries, after),
        forall|j: int| 0 <= j < entries.len() ==> (#[trigger] entries[j]).0@ != key,
    ensures
        after.lookup(key) == before.lookup(key),
{
    batches_are_written_in_order(before, entries, after);
    others_keep(
        before.persisted.state().accounts(),
        before.volatile.contents(),
        entries,
        0,
        entries.len(),
        key,
    );
}

/// Small changes of its size do not move an account again that outgrew its image: it keeps its
/// place, and nothing is allocated or freed, as long as it fits the pages that it got.
pub proof fn small_resizes_stay(s: StoreState, key: Pubkey, grown: AccountView, later: AccountView)
    requires
        s.wf(),
        s.located.contains_key(key@),
        s.heap[place_key(s.located[key@].offset)].span < grown.units,
        s.inserted(key, grown) is Some,
        later.units <= paged(grown.units),
    ensures
        ({
            let t = s.inserted(key, grown)->0;
            t.inserted(key, later) matches Some(u) && {
                &&& u.located[key@].offset == t.located[key@].offset
                &&& u.meta == t.meta
                &&& u.free == t.free
                &&& u.heap[place_key(u.located[key@].offset)].account == later
            }
        }),
{
}

/// A batch that fails leaves what any read returns.
pub proof fn failed_batches_change_nothing(
    before: AccountsDB,
    entries: Seq<EntryView>,
    after: AccountsDB,
    error: AccountsDBError,
    key: Seq<u8>,
)
    requires
        before.stores(entries, after, Err(error)) || before.commits(entries, after, Err(error)),
    ensures
        after.lookup(key) == before.lookup(key),
        error == AccountsDBError::Allocation,
{
    assert(after.lookup(key) == visible(
        before.persisted.state().accounts(),
        before.volatile.contents(),
        key,
    ));
}

/// What is mirrored is read before what is persisted, and an address that neither backend holds
/// reads as nothing.
pub proof fn mirrors_are_read_first(db: AccountsDB, key: Seq<u8>)
    ensures
        db.volatile.contents().contains_key(key) ==> db.lookup(key) == Some(
            db.volatile.contents()[key],
        ),
        !db.volatile.contents().contains_key(key)
            && db.persisted.state().accounts().contains_key(key) ==> db.lookup(key) == Some(
            db.persisted.state().accounts()[key],
        ),
        !db.volatile.contents().contains_key(key)
            && !db.persisted.state().accounts().contains_key(key) ==> db.lookup(key) is None,
{
}

/// The mode of an account decides where it lives: one that is delegated, leaving, or created here
/// is persisted and not mirrored; a mirror, a known absence, and runtime state are mirrored and
/// not persisted; a closed account is in neither backend. This holds of the last value that a
/// batch stores under an address.
pub proof fn modes_decide_where_accounts_live(
    before: AccountsDB,
    entries: Seq<EntryView>,
    after: AccountsDB,
    i: int,
)
    requires
        before.persisted.state().wf(),
        entries_ok(entries),
        written(before, entries, after),
        0 <= i < entries.len(),
        entries[i].1.cow == CoWAccount::Owned,
        forall|j: int| i < j < entries.len() ==> (#[trigger] entries[j]).0@ != entries[i].0@,
    ensures
        ({
            let key = entries[i].0@;
            let mode = entries[i].1.account.mode;
            let persisted = after.persisted.state().accounts();
            let mirrored = after.volatile.contents();
            &&& persisted.contains_key(key) == (mode is Delegated || mode is Transient
                || mode is Magic)
            &&& mirrored.contains_key(key) == (mode is ReadOnly || mode is Uninit || mode is System)
            &&& persisted.contains_key(key) ==> persisted[key] == entries[i].1.account
            &&& mirrored.contains_key(key) ==> mirrored[key] == entries[i].1.account
        }),
{
    batches_are_written_in_order(before, entries, after);
    others_keep(
        before.persisted.state().accounts(),
        before.volatile.contents(),
        entries,
        (i + 1) as nat,
        entries.len(),
        entries[i].0@,
    );
}

/// A view without changes is not written, and neither is one of an account that is no longer
/// persisted.
pub proof fn unchanged_views_are_not_written(
    before: AccountsDB,
    entry: EntryView,
    after: AccountsDB,
)
    requires
        before.persisted.state().wf(),
        entries_ok(seq![entry]),
        written(before, seq![entry], after),
        entry.1.cow == CoWAccount::Borrowed,
        entry.1.account.mode is Delegated || entry.1.account.mode is Transient
            || entry.1.account.mode is Magic,
        !(entry.1.markers.owner || entry.1.markers.content)
            || !before.persisted.state().accounts().contains_key(entry.0@),
    ensures
        after.persisted.state().accounts() == before.persisted.state().accounts(),
        after.volatile.contents() == before.volatile.contents(),
{
    let entries = seq![entry];
    batches_are_written_in_order(before, entries, after);
    let p = before.persisted.state().accounts();
    let v = before.volatile.contents();
    reveal_with_fuel(persisted_all, 2);
    reveal_with_fuel(volatile_all, 2);
    assert(entries[0] == entry);
    assert(persisted_all(p, entries, 1) == persisted_after(p, entry));
    assert(volatile_all(v, entries, 1) == volatile_after(v, entry));
}

/// The accounts of a program are listed with what they hold: every persisted one and every
/// mirrored one that it owns.
pub proof fn programs_list_their_accounts(
    db: AccountsDB,
    owner: Pubkey,
    persisted: Seq<(Pubkey, Account)>,
    mirrored: Seq<(Pubkey, Account)>,
    key: Pubkey,
)
    requires
        db.wf(),
        walks_program(db.persisted.state(), owner, persisted),
        lists_program(db.volatile.contents(), owner, mirrored),
    ensures
        db.persisted.state().accounts().contains_key(key@)
            && db.persisted.state().accounts()[key@].owner@ == owner@ ==> exists|i: int|
            0 <= i < persisted.len() && (#[trigger] persisted[i]).0@ == key@ && persisted[i].1@
                == db.persisted.state().accounts()[key@],
        db.volatile.contents().contains_key(key@) && db.volatile.contents()[key@].owner@ == owner@
            ==> exists|i: int|
            0 <= i < mirrored.len() && (#[trigger] mirrored[i]).0@ == key@ && mirrored[i].1@
                == db.volatile.contents()[key@],
        forall|i: int|
            0 <= i < mirrored.len() ==> (#[trigger] mirrored[i]).1.owner@ == owner@,
        forall|i: int|
            0 <= i < persisted.len() ==> tail_of((#[trigger] persisted[i]).1@.owner) == tail_of(
                owner,
            ),
{
    let s = db.persisted.state();
    tag_exists(owner);
    if s.accounts().contains_key(key@) && s.accounts()[key@].owner@ == owner@ {
        assert(s.located.contains_key(key@));
        assert(s.located[key@].owner@ == tail_of(s.accounts()[key@].owner));
        crate::accountsdb::store::tag_is_tail(owner, s.located[key@].owner);
        let i = choose|i: int| 0 <= i < persisted.len() && (#[trigger] persisted[i]).0@ == key@;
        assert(persisted[i].0@ == key@);
    }
    if db.volatile.contents().contains_key(key@) && db.volatile.contents()[key@].owner@ == owner@ {
        let i = choose|i: int| 0 <= i < mirrored.len() && (#[trigger] mirrored[i]).0 == key;
        assert(mirrored[i].0@ == key@);
    }
    assert forall|i: int| 0 <= i < persisted.len() implies tail_of(
        (#[trigger] persisted[i]).1@.owner,
    ) == tail_of(owner) by {
        let at = persisted[i].0@;
        assert(s.located.contains_key(at));
        assert(s.located[at].owner@ == tail_of(s.accounts()[at].owner));
    }
}

} // verus!
