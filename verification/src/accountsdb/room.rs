//! When there is room: allocation, growth of the file, and reuse of what was freed.

use vstd::prelude::*;

use crate::accountsdb::compact::is_pass;
use crate::accountsdb::db::AccountsDB;
use crate::accountsdb::defrag::{Defragged, Hole, Offset, Run};
use crate::accountsdb::index::walks_before;
use crate::accountsdb::storage::{
    allocated_fits, bumped, byte_len, rounded, DatabaseMeta, Limits, PAGE_UNITS,
};
use crate::accountsdb::store::{
    applied_wf, first_free, first_free_unique, paged, pick_free, place_key, StoreState,
};
use crate::accountsdb::AccountsDBError;
use crate::bytes::{le_bytes, lex_total, lex_transitive, u32_spellings};
use crate::types::{entries_ok, AccountMode, CoWAccount, EntryView, Pubkey};

verus! {

/// A count goes up by as much as is counted, up to where it wraps.
pub proof fn counts_go_up(x: u64, by: u64)
    ensures
        x + by <= u64::MAX ==> bumped(x, by) == x + by,
        x + by > u64::MAX ==> bumped(x, by) == x + by - 0x1_0000_0000_0000_0000,
{
}

/// Rounding gives the next multiple of the block.
proof fn rounding(n: int, block: int)
    requires
        0 < block,
        0 <= n,
    ensures
        n <= rounded(n, block) < n + block,
        rounded(n, block) % block == 0,
{
    let m = n + block - 1;
    assert(m / block * block == m - m % block && 0 <= m % block < block) by (nonlinear_arith)
        requires
            block > 0,
            m >= 0,
    ;
    assert((m / block * block) % block == 0) by (nonlinear_arith)
        requires
            block > 0,
            m >= 0,
    ;
}

/// An allocation moves the end by as many units as it takes. The file grows only if it has to,
/// to the next whole number of blocks, which is counted.
pub proof fn files_grow_by_whole_blocks(meta: DatabaseMeta, limits: Limits, units: u32)
    requires
        limits.wf(),
        meta.fits(),
        meta.can_allocate(limits, units),
        meta.stats.allocs < u64::MAX,
        meta.stats.resizes < u64::MAX,
    ensures
        ({
            let after = meta.allocated(limits, units);
            let needed = 8 * (meta.cursor + units) + 256;
            &&& after.cursor == meta.cursor + units
            &&& after.len >= needed
            &&& after.stats.allocs == meta.stats.allocs + 1
            &&& needed <= meta.len ==> after.len == meta.len && after.stats.resizes
                == meta.stats.resizes
            &&& needed > meta.len ==> {
                &&& after.len % limits.block == 0
                &&& after.len < needed + limits.block
                &&& after.stats.resizes == meta.stats.resizes + 1
            }
            &&& after.slot == meta.slot
            &&& after.superblock == meta.superblock
            &&& after.transactions == meta.transactions
        }),
{
    let end = meta.cursor + units;
    rounding(byte_len(end), limits.block as int);
    allocated_fits(meta, limits, units);
}

/// The largest file decides what can be allocated: whatever ends a block before it can be, and
/// what ends behind it cannot, unless the file is that long already.
pub proof fn space_is_limited(meta: DatabaseMeta, limits: Limits, units: u32)
    requires
        limits.wf(),
    ensures
        ({
            let needed = 8 * (meta.cursor + units) + 256;
            &&& meta.cursor + units <= u32::MAX && needed + limits.block <= limits.map
                ==> meta.can_allocate(limits, units)
            &&& meta.cursor + units <= u32::MAX && needed <= meta.len ==> meta.can_allocate(
                limits,
                units,
            )
            &&& meta.cursor + units > u32::MAX ==> !meta.can_allocate(limits, units)
            &&& needed > meta.len && needed > limits.map ==> !meta.can_allocate(limits, units)
        }),
{
    rounding(byte_len(meta.cursor + units), limits.block as int);
}

/// Whole pages that hold some units: as few as do.
pub proof fn pages_are_whole(units: u32)
    ensures
        paged(units) >= units,
        units <= 0xffff_fe00 ==> paged(units) < units + 512 && paged(units) % 512 == 0,
{
    rounding(units as int, PAGE_UNITS as int);
}

/// Units that storing the first `n` entries may take at most.
pub open spec fn wanted(entries: Seq<EntryView>, n: nat) -> int
    decreases n,
{
    if n == 0 {
        0
    } else {
        wanted(entries, (n - 1) as nat) + entries[n - 1].1.account.units + 512
    }
}

/// There is room for so many units behind the last allocation.
pub open spec fn has_room(s: StoreState, units: int) -> bool {
    &&& s.meta.cursor + units <= u32::MAX
    &&& 8 * (s.meta.cursor + units) + 256 + s.limits.block <= s.limits.map
}

/// An account is stored if there is room for it and for one page more.
pub proof fn accounts_are_stored_while_there_is_room(s: StoreState, entry: EntryView)
    requires
        s.wf(),
        has_room(s, entry.1.account.units + 512),
    ensures
        s.applied(entry) matches Some(t) && t.meta.cursor <= s.meta.cursor
            + entry.1.account.units + 512 && t.limits == s.limits,
{
    let key = entry.0;
    let units = entry.1.account.units;
    pages_are_whole(units);
    let span = s.room(key, units);
    assert(span <= units + 512);
    space_is_limited(s.meta, s.limits, span);
    assert(s.allocated(span) is Some);
}

proof fn batch_is_stored(s: StoreState, entries: Seq<EntryView>, n: nat)
    requires
        s.wf(),
        entries_ok(entries),
        n <= entries.len(),
        has_room(s, wanted(entries, entries.len())),
    ensures
        s.applied_all(entries, n) matches Some(t) && t.wf() && t.meta.cursor <= s.meta.cursor
            + wanted(entries, n) && t.limits == s.limits,
        wanted(entries, n) <= wanted(entries, entries.len()),
    decreases n,
{
    wanted_grows(entries, n, entries.len());
    if n > 0 {
        let m = (n - 1) as nat;
        batch_is_stored(s, entries, m);
        let t = s.applied_all(entries, m)->0;
        accounts_are_stored_while_there_is_room(t, entries[m as int]);
        applied_wf(t, entries[m as int]);
    }
}

proof fn wanted_grows(entries: Seq<EntryView>, n: nat, all: nat)
    requires
        n <= all,
    ensures
        wanted(entries, n) <= wanted(entries, all),
    decreases all,
{
    if n < all {
        wanted_grows(entries, n, (all - 1) as nat);
    }
}

/// A batch is stored, and committed, if there is room for all its accounts and for one page more
/// with each.
pub proof fn batches_are_stored_while_there_is_room(
    before: AccountsDB,
    entries: Seq<EntryView>,
    after: AccountsDB,
    result: Result<(), AccountsDBError>,
)
    requires
        before.persisted.state().wf(),
        entries_ok(entries),
        before.stores(entries, after, result) || before.commits(entries, after, result),
        has_room(before.persisted.state(), wanted(entries, entries.len())),
    ensures
        result is Ok,
{
    batch_is_stored(before.persisted.state(), entries, entries.len());
}

/// A batch that is not stored is refused for want of space.
pub proof fn batches_are_refused_for_want_of_space(
    before: AccountsDB,
    entries: Seq<EntryView>,
    after: AccountsDB,
    error: AccountsDBError,
)
    requires
        before.stores(entries, after, Err(error)) || before.commits(entries, after, Err(error)),
    ensures
        error == AccountsDBError::Allocation,
{
}

/// Accounts that are mirrored or closed, and views that fit their images, are stored whatever
/// room there is.
pub proof fn some_accounts_need_no_room(s: StoreState, entry: EntryView)
    requires
        s.wf(),
        ({
            let mode = entry.1.account.mode;
            ||| mode is ReadOnly || mode is Uninit || mode is System || mode is Closed
            ||| s.located.contains_key(entry.0@) && entry.1.account.units
                <= s.heap[place_key(s.located[entry.0@].offset)].span
        }),
    ensures
        s.applied(entry) matches Some(t) && t.meta.cursor == s.meta.cursor,
{
}

/// One of the free spans of some size is walked first, if there is one at all.
proof fn some_is_first(free: Set<Hole>, units: u32, n: nat) -> (first: Offset)
    requires
        n <= 0x1_0000_0000,
        exists|o: Offset| o < n && #[trigger] free.contains(Hole { offset: o, units }),
    ensures
        first < n,
        free.contains(Hole { offset: first, units }),
        forall|o: Offset|
            o < n && o != first && #[trigger] free.contains(Hole { offset: o, units })
                ==> walks_before(first, o),
    decreases n,
{
    let m = (n - 1) as nat;
    let last = m as u32;
    if exists|o: Offset| o < m && #[trigger] free.contains(Hole { offset: o, units }) {
        let before = some_is_first(free, units, m);
        if free.contains(Hole { offset: last, units }) {
            u32_spellings(before, last);
            lex_total(le_bytes(before as nat, 4), le_bytes(last as nat, 4));
            if walks_before(before, last) {
                before
            } else {
                assert(walks_before(last, before));
                assert forall|o: Offset|
                    o < n && o != last && #[trigger] free.contains(
                        Hole { offset: o, units },
                    ) implies walks_before(last, o) by {
                    if o != before {
                        lex_transitive(
                            le_bytes(last as nat, 4),
                            le_bytes(before as nat, 4),
                            le_bytes(o as nat, 4),
                        );
                    }
                }
                last
            }
        } else {
            before
        }
    } else {
        let o = choose|o: Offset| o < n && #[trigger] free.contains(Hole { offset: o, units });
        assert(o == last);
        last
    }
}

/// Free space is used before the file grows: where a span of exactly the wanted size is free, one
/// such span is taken, and nothing is allocated behind the others.
pub proof fn free_space_is_used_first(s: StoreState, hole: Hole)
    requires
        s.free.contains(hole),
    ensures
        s.allocated(hole.units) matches Some((t, offset)) && {
            &&& s.free.contains(Hole { offset, units: hole.units })
            &&& t.free == s.free.remove(Hole { offset, units: hole.units })
            &&& t.meta.cursor == s.meta.cursor
            &&& t.meta.len == s.meta.len
        },
{
    let units = hole.units;
    assert(hole == (Hole { offset: hole.offset, units }));
    let first = some_is_first(s.free, units, 0x1_0000_0000);
    assert(first_free(s.free, units, first)) by {
        assert forall|h: Hole| #[trigger]
            s.free.contains(h) && h.units == units && h.offset != first implies walks_before(
            first,
            h.offset,
        ) by {
            assert(h == (Hole { offset: h.offset, units }));
        }
    }
    first_free_unique(s.free, units, first);
}

/// Where no span of exactly the wanted size is free, the space behind the last allocation is
/// taken, and what is free stays free.
pub proof fn other_spans_are_left_alone(s: StoreState, units: u32)
    requires
        forall|h: Hole| #[trigger] s.free.contains(h) ==> h.units != units,
    ensures
        s.allocated(units) matches Some((t, offset)) ==> {
            &&& offset == s.meta.cursor
            &&& t.free == s.free
            &&& t.meta.cursor == s.meta.cursor + units
        },
{
    assert(pick_free(s.free, units) is None) by {
        if exists|o: Offset| first_free(s.free, units, o) {
            let o = choose|o: Offset| first_free(s.free, units, o);
            assert(s.free.contains(Hole { offset: o, units }));
        }
    }
}

/// A removed account frees its span, all of it, which the next account of that size takes.
pub proof fn removed_accounts_free_their_space(s: StoreState, key: Pubkey)
    requires
        s.wf(),
        s.located.contains_key(key@),
    ensures
        ({
            let image = s.heap[place_key(s.located[key@].offset)];
            let t = s.removed(key@);
            &&& t.free == s.free.insert(Hole { offset: image.offset, units: image.span })
            &&& !t.accounts().contains_key(key@)
            &&& t.meta.cursor == s.meta.cursor
            &&& t.allocated(image.span) matches Some((u, _)) && u.meta.cursor == s.meta.cursor
        }),
{
    let image = s.heap[place_key(s.located[key@].offset)];
    let t = s.removed(key@);
    free_space_is_used_first(t, Hole { offset: image.offset, units: image.span });
}

/// An account of its own that is stored for the first time takes exactly its size; a view that
/// outgrew its image is moved to whole pages.
pub proof fn first_images_take_their_size(s: StoreState, entry: EntryView)
    requires
        s.wf(),
        entry.1.cow == CoWAccount::Owned,
        entry.1.account.mode is Delegated || entry.1.account.mode is Transient
            || entry.1.account.mode is Magic,
        s.applied(entry) is Some,
    ensures
        ({
            let t = s.applied(entry)->0;
            let image = t.heap[place_key(t.located[entry.0@].offset)];
            &&& image.account == entry.1.account
            &&& !s.located.contains_key(entry.0@) ==> image.span == entry.1.account.units
            &&& s.located.contains_key(entry.0@) ==> {
                let old_image = s.heap[place_key(s.located[entry.0@].offset)];
                &&& entry.1.account.units <= old_image.span ==> image.offset == old_image.offset
                    && image.span == old_image.span && t.meta == s.meta && t.free == s.free
                &&& entry.1.account.units > old_image.span && entry.1.account.units <= 0xffff_fe00
                    ==> image.span % 512 == 0 && image.span >= entry.1.account.units
            }
        }),
{
    pages_are_whole(entry.1.account.units);
    assert(entry.1.account.mode != AccountMode::Closed);
}

/// What happens to images is counted: a view that is committed where it lies, an image that is
/// removed, and a span that is taken from what was freed. Nothing is counted twice, and an account
/// that was not there is not counted as removed.
pub proof fn work_is_counted(s: StoreState, entry: EntryView)
    requires
        s.wf(),
        s.applied(entry) is Some,
        s.meta.stats.commits < u64::MAX,
        s.meta.stats.removals < u64::MAX,
        s.meta.stats.reallocs < u64::MAX,
    ensures
        ({
            let before = s.meta.stats;
            let after = s.applied(entry)->0.meta.stats;
            let mode = entry.1.account.mode;
            let there = s.located.contains_key(entry.0@);
            let leaves = mode is ReadOnly || mode is Uninit || mode is System || mode is Closed;
            let fits = there && entry.1.account.units
                <= s.heap[place_key(s.located[entry.0@].offset)].span;
            let changed = entry.1.markers.owner || entry.1.markers.content;
            &&& leaves ==> after.removals == before.removals + if there {
                1int
            } else {
                0
            }
            &&& !leaves ==> after.removals == before.removals
            &&& !leaves && entry.1.cow == CoWAccount::Borrowed && fits && changed ==> after.commits
                == before.commits + 1
            &&& leaves || entry.1.cow == CoWAccount::Owned || !changed ==> after.commits
                == before.commits
            &&& !leaves && entry.1.cow == CoWAccount::Owned && fits ==> after == before
            &&& !leaves && entry.1.cow == CoWAccount::Owned && !fits ==> after.reallocs
                == before.reallocs + 1 || after.reallocs == before.reallocs
            &&& after.reads == before.reads
            &&& after.compactions == before.compactions
        }),
{
}

/// A read of a persisted account is counted; one of a mirrored account, or of none, is not. A read
/// changes nothing else.
pub proof fn reads_are_counted(before: AccountsDB, key: Seq<u8>, after: AccountsDB)
    requires
        before.loads(key, after),
        before.persisted.meta.stats.reads < u64::MAX,
    ensures
        ({
            let mirrored = before.volatile.contents().contains_key(key);
            let persisted = before.persisted.state().accounts().contains_key(key);
            &&& after.persisted.meta.stats.reads == before.persisted.meta.stats.reads + if persisted
                && !mirrored {
                1int
            } else {
                0
            }
            &&& after.lookup(key) == before.lookup(key)
            &&& after.persisted.meta.cursor == before.persisted.meta.cursor
            &&& after.persisted.meta.transactions == before.persisted.meta.transactions
            &&& after.persisted.meta.stats.commits == before.persisted.meta.stats.commits
        }),
{
    assert(after.persisted.state().accounts() =~= before.persisted.state().accounts());
}

/// Images that a pass moved are counted, and so is the file that it shortened.
pub proof fn passes_are_counted(
    before: StoreState,
    holes: Seq<Hole>,
    live: Seq<(u32, u32)>,
    entry: Seq<Run>,
    cut: Offset,
    outcome: Defragged,
    after: StoreState,
)
    requires
        before.wf(),
        is_pass(before, holes, live, entry, cut, outcome, after),
        before.meta.stats.compactions + outcome.moved <= u64::MAX,
        before.meta.stats.resizes < u64::MAX,
        outcome.moved <= u64::MAX,
    ensures
        after.meta.stats.compactions == before.meta.stats.compactions + outcome.moved,
        outcome.reclaimed > 0 ==> after.meta.stats.resizes == before.meta.stats.resizes + 1,
        outcome.reclaimed == 0 ==> after.meta.stats.resizes == before.meta.stats.resizes,
{
}

} // verus!
