//! Replay leads to the state that execution led to.

use vstd::prelude::*;

use crate::accountsdb::checksum::checksum_ignores_layout;
use crate::accountsdb::db::AccountsDB;
use crate::accountsdb::laws::{persisted_follow, volatile_follow};
use crate::accountsdb::storage::DatabaseMeta;
use crate::accountsdb::store::{header_keeps_position, StoreState};
use crate::accountsdb::AccountsDBError;
use crate::exec::error::EngineError;
use crate::exec::replay::{replayed, seal_of, sealed_state, ReplayAction};
use crate::keeper::accessor::{lookup_sized, sponsored, Keeper};
use crate::ledger::schema::EntryView as LedgerEntry;
use crate::types::{entries_ok, Block, EntryView, SuperblockSeal};

verus! {

/// Two account stores hold the same accounts, at the same place in the ledger. Where images lie,
/// and what was counted, may differ.
pub open spec fn alike(a: AccountsDB, b: AccountsDB) -> bool {
    &&& a.persisted.state().accounts() == b.persisted.state().accounts()
    &&& a.volatile.contents() == b.volatile.contents()
    &&& a.persisted.meta.slot == b.persisted.meta.slot
    &&& a.persisted.meta.superblock == b.persisted.meta.superblock
    &&& a.persisted.meta.transactions == b.persisted.meta.transactions
}

/// A change of state that the ledger records.
pub enum Change {
    /// The account changes of one transaction.
    Commit(Seq<EntryView>),
    /// The end of a block.
    Block(Block),
    /// The mirrored accounts were dropped.
    Reset,
    /// A superblock was sealed.
    Seal(u64),
}

/// A change led from one keeper to another. How a transaction is committed, a block ended, and
/// mirrored accounts dropped is the same in execution and in replay; a seal changes no account.
pub open spec fn changed(before: Keeper, change: Change, after: Keeper) -> bool {
    &&& after.authority == before.authority
    &&& after.addresses == before.addresses
    &&& match change {
        Change::Commit(entries) => entries_ok(entries) && before.accountsdb.commits(
            entries,
            after.accountsdb,
            Ok(()),
        ),
        Change::Block(block) => before.ends_block(block, after.accountsdb, Ok(())),
        Change::Reset => before.resets(after.accountsdb, Ok(())),
        Change::Seal(id) => {
            let a = before.accountsdb;
            let b = after.accountsdb;
            &&& b.persisted.state().accounts() == a.persisted.state().accounts()
            &&& b.volatile.contents() == a.volatile.contents()
            &&& b.persisted.meta.slot == a.persisted.meta.slot
            &&& b.persisted.meta.superblock == id
            &&& b.persisted.meta.transactions == a.persisted.meta.transactions
        },
    }
}

/// The same batch keeps two stores alike.
proof fn batches_keep_alike(
    a: AccountsDB,
    b: AccountsDB,
    entries: Seq<EntryView>,
    c: AccountsDB,
    d: AccountsDB,
)
    requires
        a.persisted.state().wf(),
        b.persisted.state().wf(),
        entries_ok(entries),
        alike(a, b),
        (a.stores(entries, c, Ok(())) && b.stores(entries, d, Ok(()))) || (a.commits(
            entries,
            c,
            Ok(()),
        ) && b.commits(entries, d, Ok(()))),
    ensures
        alike(c, d),
{
    persisted_follow(a.persisted.state(), entries, entries.len());
    persisted_follow(b.persisted.state(), entries, entries.len());
    volatile_follow(a.volatile.contents(), entries, entries.len());
    volatile_follow(b.volatile.contents(), entries, entries.len());
    header_keeps_position(a.persisted.state(), entries, entries.len());
    header_keeps_position(b.persisted.state(), entries, entries.len());
    let s = a.persisted.state().applied_all(entries, entries.len())->0;
    let t = b.persisted.state().applied_all(entries, entries.len())->0;
    assert(c.persisted.state().accounts() =~= s.accounts());
    assert(d.persisted.state().accounts() =~= t.accounts());
    assert(c.persisted.meta == c.persisted.state().meta);
    assert(d.persisted.meta == d.persisted.state().meta);
}

/// Counting reads keeps a store alike, and well-formed.
proof fn counting_keeps_alike(a: AccountsDB, counted: AccountsDB)
    requires
        a.persisted.state().wf(),
        counted.same_accounts(a),
    ensures
        counted.persisted.state().wf(),
        alike(counted, a),
{
    assert(counted.persisted.state().accounts() =~= a.persisted.state().accounts());
    assert(counted.persisted.meta == counted.persisted.state().meta);
}

/// What a keeper makes of the sysvars depends on what it reads, and can be stored.
proof fn sysvars_agree(a: Keeper, b: Keeper, block: Block)
    requires
        a.wf(),
        alike(a.accountsdb, b.accountsdb),
        a.addresses == b.addresses,
    ensures
        a.sysvars_after(block) == b.sysvars_after(block),
        a.sysvars_after(block) matches Ok(entries) ==> entries_ok(entries),
{
    lookup_sized(a.accountsdb, a.addresses.slot_hashes@);
    lookup_sized(a.accountsdb, a.addresses.clock@);
}

/// The end of the same block keeps two stores alike.
proof fn blocks_keep_alike(a: Keeper, b: Keeper, block: Block, c: AccountsDB, d: AccountsDB)
    requires
        a.wf(),
        b.wf(),
        alike(a.accountsdb, b.accountsdb),
        a.addresses == b.addresses,
        a.ends_block(block, c, Ok(())),
        b.ends_block(block, d, Ok(())),
    ensures
        alike(c, d),
{
    let fine = Ok::<(), AccountsDBError>(());
    sysvars_agree(a, b, block);
    let left = choose|stored: AccountsDB|
        (#[trigger] a.updates_sysvars(block, stored, fine)) && c.volatile == stored.volatile
            && c.persisted.state() == (StoreState {
            meta: DatabaseMeta { slot: block.slot, ..stored.persisted.meta },
            ..stored.persisted.state()
        });
    let right = choose|stored: AccountsDB|
        (#[trigger] b.updates_sysvars(block, stored, fine)) && d.volatile == stored.volatile
            && d.persisted.state() == (StoreState {
            meta: DatabaseMeta { slot: block.slot, ..stored.persisted.meta },
            ..stored.persisted.state()
        });
    assert(alike(left, right)) by {
        let entries = a.sysvars_after(block)->Ok_0;
        if entries.len() == 0 {
            counting_keeps_alike(a.accountsdb, left);
            counting_keeps_alike(b.accountsdb, right);
        } else {
            let x = choose|counted: AccountsDB| #[trigger]
                counted.same_accounts(a.accountsdb) && counted.stores(entries, left, fine);
            let y = choose|counted: AccountsDB| #[trigger]
                counted.same_accounts(b.accountsdb) && counted.stores(entries, right, fine);
            counting_keeps_alike(a.accountsdb, x);
            counting_keeps_alike(b.accountsdb, y);
            batches_keep_alike(x, y, entries, left, right);
        }
    }
    assert(c.persisted.state().accounts() =~= left.persisted.state().accounts());
    assert(d.persisted.state().accounts() =~= right.persisted.state().accounts());
    assert(c.persisted.meta == c.persisted.state().meta);
    assert(d.persisted.meta == d.persisted.state().meta);
}

/// Dropping mirrored accounts keeps two stores alike.
proof fn resets_keep_alike(a: Keeper, b: Keeper, c: AccountsDB, d: AccountsDB)
    requires
        a.wf(),
        b.wf(),
        alike(a.accountsdb, b.accountsdb),
        a.authority == b.authority,
        a.resets(c, Ok(())),
        b.resets(d, Ok(())),
    ensures
        alike(c, d),
{
    let x = choose|left: AccountsDB|
        (#[trigger] left.wf()) && a.dropped(left) && a.refunds(left, c, Ok(()));
    let y = choose|left: AccountsDB|
        (#[trigger] left.wf()) && b.dropped(left) && b.refunds(left, d, Ok(()));
    assert(x.persisted.state().accounts() =~= a.accountsdb.persisted.state().accounts());
    assert(y.persisted.state().accounts() =~= b.accountsdb.persisted.state().accounts());
    assert(x.persisted.meta == x.persisted.state().meta);
    assert(y.persisted.meta == y.persisted.state().meta);
    assert(alike(x, y));
    if let Some(account) = x.lookup(a.authority@) {
        let entries = seq![(a.authority, sponsored(account))];
        dropped_is_sized(a, x);
        assert(entries_ok(entries));
        batches_keep_alike(x, y, entries, c, d);
    }
}

/// An account that is left once mirrored ones were dropped, and that the engine decides about,
/// has a serialized size.
proof fn dropped_is_sized(keeper: Keeper, left: AccountsDB)
    requires
        keeper.wf(),
        left.wf(),
        keeper.dropped(left),
    ensures
        left.lookup(keeper.authority@) matches Some(account) ==> account.mode.is_authoritative()
            ==> account.units > 0,
{
    if left.persisted.state().accounts().contains_key(keeper.authority@) {
        assert(left.persisted.state().located.contains_key(keeper.authority@));
    }
}

/// The same change keeps two keepers alike.
proof fn changes_keep_alike(a: Keeper, b: Keeper, change: Change, c: Keeper, d: Keeper)
    requires
        a.wf(),
        b.wf(),
        alike(a.accountsdb, b.accountsdb),
        a.authority == b.authority,
        a.addresses == b.addresses,
        changed(a, change, c),
        changed(b, change, d),
    ensures
        alike(c.accountsdb, d.accountsdb),
{
    match change {
        Change::Commit(entries) => {
            batches_keep_alike(a.accountsdb, b.accountsdb, entries, c.accountsdb, d.accountsdb);
        },
        Change::Block(block) => {
            blocks_keep_alike(a, b, block, c.accountsdb, d.accountsdb);
        },
        Change::Reset => {
            resets_keep_alike(a, b, c.accountsdb, d.accountsdb);
        },
        Change::Seal(_) => {},
    }
}

/// Changes led from each keeper of a list to the next.
pub open spec fn history(keepers: Seq<Keeper>, changes: Seq<Change>) -> bool {
    &&& keepers.len() == changes.len() + 1
    &&& forall|i: int| 0 <= i < keepers.len() ==> (#[trigger] keepers[i]).wf()
    &&& forall|i: int|
        0 <= i < changes.len() ==> changed(keepers[i], #[trigger] changes[i], keepers[i + 1])
}

/// Replay rebuilds state: from the same accounts, the changes that the ledger records lead to
/// the same accounts, at the same place in the ledger.
pub proof fn replay_rebuilds_state(
    live: Seq<Keeper>,
    again: Seq<Keeper>,
    changes: Seq<Change>,
    n: nat,
)
    requires
        history(live, changes),
        history(again, changes),
        live[0].authority == again[0].authority,
        live[0].addresses == again[0].addresses,
        alike(live[0].accountsdb, again[0].accountsdb),
        n <= changes.len(),
    ensures
        alike(live[n as int].accountsdb, again[n as int].accountsdb),
        live[n as int].authority == again[n as int].authority,
        live[n as int].addresses == again[n as int].addresses,
    decreases n,
{
    if n > 0 {
        let k = n - 1;
        replay_rebuilds_state(live, again, changes, k as nat);
        assert(live[k].wf() && again[k].wf());
        assert(changed(live[k], changes[k], live[k + 1]));
        assert(changed(again[k], changes[k], again[k + 1]));
        changes_keep_alike(live[k], again[k], changes[k], live[n as int], again[n as int]);
    }
}

/// A seal, and a checkpoint, that was taken of a state is accepted by a replay that has rebuilt
/// that state.
pub proof fn rebuilt_state_is_accepted(
    live: AccountsDB,
    again: Keeper,
    seal: SuperblockSeal,
    after: Keeper,
    result: Result<ReplayAction, EngineError>,
)
    requires
        alike(live, again.accountsdb),
        seal == seal_of(sealed_state(live.persisted.state(), seal.id)),
    ensures
        replayed(again, LedgerEntry::Superblock(seal), after, result) ==> result == Ok::<
            ReplayAction,
            EngineError,
        >(ReplayAction::Done),
        replayed(
            again,
            LedgerEntry::Checkpoint(live.persisted.state().checksum()),
            after,
            result,
        ) ==> result == Ok::<ReplayAction, EngineError>(ReplayAction::Done),
{
    let a = live.persisted.state();
    let b = again.accountsdb.persisted.state();
    checksum_ignores_layout(a, b);
    let x = StoreState { meta: DatabaseMeta { superblock: seal.id, ..a.meta }, ..a };
    let y = StoreState { meta: DatabaseMeta { superblock: seal.id, ..b.meta }, ..b };
    assert(x.accounts() =~= a.accounts());
    assert(y.accounts() =~= b.accounts());
    checksum_ignores_layout(x, y);
}

} // verus!
