//! What stays readable of a block while events go on.

use vstd::prelude::*;

use crate::bytes::{be_bytes, be_bytes_spell, le_bytes, widths};
use crate::ledger::appender::{span_at, AppenderState, EventView};
use crate::ledger::codec::{entry_bytes, entry_length, entry_roundtrip};
use crate::ledger::error::LedgerError;
use crate::ledger::index::{
    account_row, block_row, find_block, indexed_block_is_found, namespaces_are_apart, Span,
};
use crate::ledger::laws::{
    block_effect, last_row_counts, range_read_is_complete, span_holds,
};
use crate::ledger::reader::{ids_ascend, ids_grow, no_block, read_block, read_blocks, reaches};
use crate::ledger::request::{BlockDetails, BlockParams, BlockResponseView};
use crate::ledger::schema::EntryView;
use crate::ledger::storage::BlockRange;
use crate::ledger::superblock::{entry_at, SuperblockView};
use crate::ledger::trace::{
    earlier_is_reached, first_is_retained, flushed, flushed_is_read, growth_keeps_bytes, is_seal,
    lacks, published_keeps, reached, sound, step_keeps, step_seals, superblock_grows,
    unmentioned_keys_stay, ways_are_sound, wrote_keeps,
};
use crate::types::{Block, Slot};

verus! {

/// Slots of a superblock after an event.
pub open spec fn range_after(range: BlockRange, event: EventView) -> BlockRange {
    match event {
        EventView::Block(block) => BlockRange {
            start: if range.start == 0 {
                block.slot
            } else {
                range.start
            },
            end: block.slot,
        },
        _ => range,
    }
}

/// Only the end of a block changes the slots of the active superblock.
proof fn range_follows(s: AppenderState, event: EventView, used: u64)
    requires
        s.wf(),
        s.accepts(event),
        !is_seal(event),
        s.step(event, used) is Ok,
    ensures
        s.step(event, used)->Ok_0.head().meta.range == range_after(s.head().meta.range, event),
{
    let t = s.step(event, used)->Ok_0;
    match event {
        EventView::Block(block) => {
            let entry = EntryView::Block(block);
            let (written, span) = s.wrote(entry)->Ok_0;
            wrote_keeps(s, entry);
            let published = written.published(Some(block.slot))->Ok_0;
            let indexed = published.indexed(block.slot, span);
            assert(published.head().meta.range == range_after(s.head().meta.range, event));
            assert(indexed.head().meta == published.head().meta);
            if used >= s.size_limit {
                let synced = indexed.published(None)->Ok_0;
                assert(synced.head().meta.range == indexed.head().meta.range);
                let list = synced.ledger.superblocks;
                if list.first().id < synced.ledger.meta.head {
                    if list.len() == 1 {
                        assert(list.first() == list.last());
                    }
                    assert(list.drop_first().last() == list.last());
                }
            }
        },
        EventView::Reset(slot) => {
            wrote_keeps(s, EntryView::Reset(slot));
        },
        EventView::Checkpoint(checksum) => {
            wrote_keeps(s, EntryView::Checkpoint(checksum));
        },
        EventView::Transaction(_, payload) => {
            wrote_keeps(s, EntryView::Transaction(payload));
        },
        _ => {},
    }
}

/// A seal keeps the slots of the superblock that it ends, and the next one has none.
proof fn ranges_follow(s: AppenderState, event: EventView, used: u64)
    requires
        s.wf(),
        s.accepts(event),
        is_seal(event),
        s.step(event, used) is Ok,
    ensures
        ({
            let t = s.step(event, used)->Ok_0;
            let n = s.ledger.superblocks.len() as int;
            &&& t.ledger.superblocks.len() == n + 1
            &&& t.ledger.superblocks[n - 1].meta.range == s.head().meta.range
            &&& t.ledger.superblocks[n].meta.range == (BlockRange { start: 0, end: 0 })
        }),
{
    let t = s.step(event, used)->Ok_0;
    let entry = match event {
        EventView::Superblock(seal) => EntryView::Superblock(seal),
        EventView::Bootstrap(seal) => EntryView::Superblock(seal),
        _ => arbitrary(),
    };
    wrote_keeps(s, entry);
    let (written, _) = s.wrote(entry)->Ok_0;
    published_keeps(written, None);
    let n = s.ledger.superblocks.len() as int;
    assert(t.ledger.superblocks[n - 1].meta == written.published(None)->Ok_0.head().meta);
}

/// A superblock has the end of a block in its index, its file, and its slots.
pub open spec fn ends(sb: SuperblockView, block: Block, span: Span) -> bool {
    &&& sb.rows.contains_key(block_row(block.slot))
    &&& sb.rows[block_row(block.slot)] == le_bytes(span.bits as nat, 8)
    &&& flushed(sb.blockstore, span, entry_bytes(EntryView::Block(block)))
    &&& 0 < sb.meta.range.start <= block.slot <= sb.meta.range.end
}

/// Superblock `i` has the end of a block, and those behind it hold other slots.
pub open spec fn ended_in(
    list: Seq<SuperblockView>,
    i: int,
    block: Block,
    span: Span,
) -> bool {
    &&& 0 <= i < list.len()
    &&& ends(list[i], block, span)
    &&& forall|j: int| i < j < list.len() ==> beyond(#[trigger] list[j], block.slot)
}

/// All slots of a superblock lie beyond one, or it has none.
pub open spec fn beyond(sb: SuperblockView, slot: Slot) -> bool {
    sb.meta.range.start > slot || (sb.meta.range.start == 0 && no_block(sb))
}

/// A block is found in the superblock with a number, unless that was dropped.
pub open spec fn ended(s: AppenderState, id: u64, block: Block, span: Span) -> bool {
    &&& lacks(s.batch, block_row(block.slot))
    &&& s.ledger.superblocks.first().id > id || exists|i: int| #[trigger]
        ended_in(s.ledger.superblocks, i, block, span) && s.ledger.superblocks[i].id == id
}

/// Executions add no rows of blocks.
proof fn no_block_rows(s: AppenderState, event: EventView, used: u64, slot: Slot)
    requires
        s.wf(),
        s.accepts(event),
        !is_seal(event),
        s.step(event, used) is Ok,
        lacks(s.batch, block_row(slot)),
    ensures
        lacks(s.step(event, used)->Ok_0.batch, block_row(slot)),
{
    let t = s.step(event, used)->Ok_0;
    step_keeps(s, event, used);
    if let EventView::Execution(execution, accounts) = event {
        if s.pending.contains_key(execution.header.signature@) {
            let n = s.batch.len() as int;
            assert forall|j: int| 0 <= j < t.batch.len() implies (#[trigger] t.batch[j]).0
                != block_row(slot) by {
                if j < n {
                    assert(t.batch[j] == s.batch[j]);
                } else {
                    let sb = s.head();
                    let frame = crate::ledger::compress::details_frame(
                        s.kept(execution.details),
                        s.ledger.dictionary,
                    )->0;
                    let bytes = crate::ledger::codec::header_bytes(execution.header) + frame;
                    let span = span_at(sb.executions.contents.len(), bytes.len());
                    let account = if j > n {
                        accounts[j - n - 1]
                    } else {
                        arbitrary()
                    };
                    namespaces_are_apart(execution.header.signature, slot, account, span);
                    if j > n {
                        assert(t.batch[j].0 == account_row(account, span));
                    }
                }
            }
        }
    }
}

/// Different slots have different rows.
proof fn block_rows_differ(a: Slot, b: Slot)
    requires
        a != b,
    ensures
        block_row(a) != block_row(b),
{
    widths();
    be_bytes_spell(a as nat, 8);
    be_bytes_spell(b as nat, 8);
    assert(block_row(a).skip(1) =~= be_bytes(a as nat, 8));
    assert(block_row(b).skip(1) =~= be_bytes(b as nat, 8));
}

/// The end of a block is recorded in the active superblock.
proof fn block_is_ended(s: AppenderState, block: Block, used: u64)
    requires
        s.wf(),
        0 < block.slot < u64::MAX,
        s.head().meta.range.start <= block.slot,
        s.block(block, used) is Ok,
    ensures
        ended(
            s.block(block, used)->Ok_0,
            s.head().id,
            block,
            span_at(
                s.head().blockstore.contents.len(),
                entry_bytes(EntryView::Block(block)).len(),
            ),
        ),
{
    let t = s.block(block, used)->Ok_0;
    let entry = EntryView::Block(block);
    let bytes = entry_bytes(entry);
    let from = s.head().blockstore.contents.len();
    let span = span_at(from, bytes.len());
    step_keeps(s, EventView::Block(block), used);
    range_follows(s, EventView::Block(block), used);
    block_effect(s, block, used);
    wrote_keeps(s, entry);
    entry_length(entry);
    span_holds(from, bytes.len());
    let batch = s.batch.push((block_row(block.slot), le_bytes(span.bits as nat, 8)));
    last_row_counts(s.head().rows, batch, batch.len() - 1, batch.len());
    let sb = t.head();
    assert(flushed(sb.blockstore, span, bytes)) by {
        assert forall|i: int| span.at() <= i < span.at() + span.width() implies
            #[trigger] sb.blockstore.contents[i] == bytes[i - span.at()] by {
            assert(sb.blockstore.contents[i] == (s.head().blockstore.contents + bytes)[i]);
        }
    }
    let n = t.ledger.superblocks.len() as int;
    assert(ended_in(t.ledger.superblocks, n - 1, block, span));
}

/// A superblock that grows with the row and the slot of a block keeps its end.
proof fn grown_ends(a: SuperblockView, b: SuperblockView, block: Block, span: Span)
    requires
        superblock_grows(a, b),
        ends(a, block, span),
        b.rows.contains_key(block_row(block.slot)),
        b.rows[block_row(block.slot)] == a.rows[block_row(block.slot)],
        b.meta.range.start == a.meta.range.start,
        b.meta.range.end >= block.slot,
    ensures
        ends(b, block, span),
{
    growth_keeps_bytes(
        a.blockstore,
        b.blockstore,
        span,
        entry_bytes(EntryView::Block(block)),
    );
}

/// The row of a block in the active superblock stays while blocks have later slots.
proof fn block_row_stays(s: AppenderState, event: EventView, used: u64, slot: Slot)
    requires
        s.wf(),
        s.accepts(event),
        s.step(event, used) is Ok,
        !is_seal(event),
        lacks(s.batch, block_row(slot)),
        event matches EventView::Block(next) ==> next.slot > slot,
    ensures
        ({
            let a = s.head().rows;
            let b = s.step(event, used)->Ok_0.head().rows;
            let key = block_row(slot);
            &&& b.contains_key(key) == a.contains_key(key)
            &&& a.contains_key(key) ==> b[key] == a[key]
        }),
{
    step_keeps(s, event, used);
    if let EventView::Block(next) = event {
        let row = (
            block_row(next.slot),
            le_bytes(
                span_at(
                    s.head().blockstore.contents.len(),
                    entry_bytes(EntryView::Block(next)).len(),
                ).bits as nat,
                8,
            ),
        );
        let batch = s.batch.push(row);
        block_rows_differ(slot, next.slot);
        assert(lacks(batch, block_row(slot))) by {
            assert forall|j: int| 0 <= j < batch.len() implies (#[trigger] batch[j]).0 != block_row(
                slot,
            ) by {
                if j < s.batch.len() {
                    assert(batch[j] == s.batch[j]);
                }
            }
        }
        unmentioned_keys_stay(s.head().rows, batch, block_row(slot), batch.len());
    }
}

/// A recorded block stays recorded until its superblock is dropped.
#[verifier::rlimit(60)]
#[verifier::spinoff_prover]
proof fn ended_goes_on(
    s: AppenderState,
    event: EventView,
    used: u64,
    id: u64,
    block: Block,
    span: Span,
)
    requires
        s.wf(),
        s.accepts(event),
        s.step(event, used) is Ok,
        ended(s, id, block, span),
        event matches EventView::Block(next) ==> next.slot > block.slot,
    ensures
        ended(s.step(event, used)->Ok_0, id, block, span),
{
    let t = s.step(event, used)->Ok_0;
    let x = s.ledger.superblocks;
    let y = t.ledger.superblocks;
    let last = x.len() - 1;
    if is_seal(event) {
        ids_grow(x, last);
        step_seals(s, event, used);
        ranges_follow(s, event, used);
        if x.first().id > id {
            assert(y.first().id == x.first().id);
        } else {
            let i = choose|i: int| #[trigger] ended_in(x, i, block, span) && x[i].id == id;
            if i == last {
                grown_ends(s.head(), y[last], block, span);
            }
            assert(ended_in(y, i, block, span)) by {
                assert forall|j: int| i < j < y.len() implies beyond(
                    #[trigger] y[j],
                    block.slot,
                ) by {
                    if j < last {
                        assert(y[j] == x[j]);
                    } else if j == last {
                        assert(beyond(x[j], block.slot));
                    }
                }
            }
        }
    } else {
        step_keeps(s, event, used);
        range_follows(s, event, used);
        no_block_rows(s, event, used, block.slot);
        block_row_stays(s, event, used, block.slot);
        let gone = x.len() - y.len();
        assert(y.first().id >= x.first().id) by {
            if y.len() > 1 {
                assert(y[0] == x[gone]);
                if gone > 0 {
                    assert(x[0].id < x[gone].id);
                }
            } else if last > 0 {
                assert(x[0].id < x[last].id);
            }
        }
        if x.first().id <= id {
            let i = choose|i: int| #[trigger] ended_in(x, i, block, span) && x[i].id == id;
            if i == last {
                grown_ends(s.head(), t.head(), block, span);
            }
            if i < gone {
                assert(y.first().id > id) by {
                    if y.len() > 1 {
                        assert(y[0] == x[gone]);
                    }
                    assert(x[0].id < x[1].id);
                }
            } else {
                assert(ended_in(y, i - gone, block, span)) by {
                    if i < last {
                        assert(y[i - gone] == x[i]);
                    }
                    assert forall|j: int| i - gone < j < y.len() implies beyond(
                        #[trigger] y[j],
                        block.slot,
                    ) by {
                        assert(beyond(x[j + gone], block.slot));
                        if j < y.len() - 1 {
                            assert(y[j] == x[j + gone]);
                        }
                    }
                }
            }
        }
    }
}

proof fn ended_through(
    s: AppenderState,
    events: Seq<(EventView, u64)>,
    b: nat,
    n: nat,
    id: u64,
    block: Block,
    span: Span,
)
    requires
        s.wf(),
        sound(s, events),
        b <= n <= events.len(),
        reached(s, events, n) is Ok,
        ended(reached(s, events, b)->Ok_0, id, block, span),
        forall|k: int|
            b <= k < n ==> ((#[trigger] events[k]).0 matches EventView::Block(next) ==> next.slot
                > block.slot),
    ensures
        ended(reached(s, events, n)->Ok_0, id, block, span),
    decreases n,
{
    if n > b {
        let k = (n - 1) as nat;
        earlier_is_reached(s, events, k, n);
        ended_through(s, events, b, k, id, block, span);
        ways_are_sound(s, events, k);
        let (event, used) = events[k as int];
        assert(events[k as int].0 == event);
        ended_goes_on(reached(s, events, k)->Ok_0, event, used, id, block, span);
    }
}

/// What a superblock has of the end of a block.
proof fn end_is_there(sb: SuperblockView, block: Block, span: Span)
    requires
        ends(sb, block, span),
        sb.blockstore.wf(),
    ensures
        find_block(sb.rows, block.slot) == Ok::<Option<Span>, LedgerError>(Some(span)),
        entry_at(sb, span) == Ok::<EntryView, LedgerError>(EntryView::Block(block)),
{
    let entry = EntryView::Block(block);
    let bytes = entry_bytes(entry);
    indexed_block_is_found(sb.rows, block.slot, span);
    flushed_is_read(sb.blockstore, span, bytes);
    assert(bytes + Seq::<u8>::empty() =~= bytes);
    entry_length(entry);
    entry_roundtrip(entry, Seq::empty());
}

/// What the superblock that has a block says of it is read.
proof fn end_is_read(
    list: Seq<SuperblockView>,
    oldest: int,
    i: int,
    block: Block,
    span: Span,
    dictionary: Seq<u8>,
)
    requires
        ended_in(list, i, block, span),
        list[i].blockstore.wf(),
        ids_ascend(list),
        list[i].id >= oldest,
    ensures
        read_block(
            list,
            oldest,
            BlockParams { slot: block.slot, details: BlockDetails::Boundary },
            dictionary,
        ) == Ok::<Option<BlockResponseView>, LedgerError>(Some(BlockResponseView::Bare(block))),
    decreases list.len(),
{
    let last = list.len() - 1;
    assert(reaches(list, oldest)) by {
        if i < last {
            assert(list[i].id < list[last].id);
        }
    }
    if i < last {
        let shorter = list.drop_last();
        assert(beyond(list[last], block.slot));
        assert(ended_in(shorter, i, block, span));
        end_is_read(shorter, oldest, i, block, span, dictionary);
    } else {
        end_is_there(list[i], block, span);
    }
}

/// Where the superblock stands that has a recorded block.
proof fn end_is_kept(
    s: AppenderState,
    events: Seq<(EventView, u64)>,
    b: nat,
    block: Block,
) -> (kept: (int, Span))
    requires
        s.wf(),
        sound(s, events),
        reached(s, events, events.len()) is Ok,
        b < events.len(),
        events[b as int].0 == EventView::Block(block),
        block.slot > 0,
        reached(s, events, b)->Ok_0.head().meta.range.start <= block.slot,
        forall|k: int|
            b < k < events.len() ==> ((#[trigger] events[k]).0 matches EventView::Block(next)
                ==> next.slot > block.slot),
        reached(s, events, b)->Ok_0.head().id >= reached(
            s,
            events,
            events.len(),
        )->Ok_0.ledger.oldest(),
    ensures
        ({
            let after = reached(s, events, events.len())->Ok_0;
            let list = after.ledger.superblocks;
            &&& after.wf()
            &&& ended_in(list, kept.0, block, kept.1)
            &&& list[kept.0].id >= after.ledger.oldest()
        }),
{
    let n = events.len();
    earlier_is_reached(s, events, b + 1, n);
    earlier_is_reached(s, events, b, n);
    ways_are_sound(s, events, b);
    ways_are_sound(s, events, n);
    let state = reached(s, events, b)->Ok_0;
    let after = reached(s, events, n)->Ok_0;
    let id = state.head().id;
    let span = span_at(
        state.head().blockstore.contents.len(),
        entry_bytes(EntryView::Block(block)).len(),
    );
    assert(state.accepts(events[b as int].0));
    block_is_ended(state, block, events[b as int].1);
    ended_through(s, events, b + 1, n, id, block, span);
    first_is_retained(after);
    let list = after.ledger.superblocks;
    let i = choose|i: int| #[trigger] ended_in(list, i, block, span) && list[i].id == id;
    (i, span)
}

/// A recorded block stays readable, whatever comes after, as long as its superblock is retained
/// and the blocks after it have later slots.
pub proof fn recorded_blocks_stay_readable(
    s: AppenderState,
    events: Seq<(EventView, u64)>,
    b: nat,
    block: Block,
)
    requires
        s.wf(),
        sound(s, events),
        reached(s, events, events.len()) is Ok,
        b < events.len(),
        events[b as int].0 == EventView::Block(block),
        block.slot > 0,
        reached(s, events, b)->Ok_0.head().meta.range.start <= block.slot,
        forall|k: int|
            b < k < events.len() ==> ((#[trigger] events[k]).0 matches EventView::Block(next)
                ==> next.slot > block.slot),
        reached(s, events, b)->Ok_0.head().id >= reached(
            s,
            events,
            events.len(),
        )->Ok_0.ledger.oldest(),
    ensures
        ({
            let after = reached(s, events, events.len())->Ok_0.ledger;
            read_block(
                after.superblocks,
                after.oldest(),
                BlockParams { slot: block.slot, details: BlockDetails::Boundary },
                after.dictionary,
            ) == Ok::<Option<BlockResponseView>, LedgerError>(Some(BlockResponseView::Bare(block)))
        }),
{
    let (i, span) = end_is_kept(s, events, b, block);
    let after = reached(s, events, events.len())->Ok_0.ledger;
    end_is_read(after.superblocks, after.oldest(), i, block, span, after.dictionary);
}

/// A range read over the slot of a recorded block finds it, right after a seal too.
pub proof fn recorded_blocks_stay_in_ranges(
    s: AppenderState,
    events: Seq<(EventView, u64)>,
    b: nat,
    block: Block,
    from: Slot,
    to: Slot,
)
    requires
        s.wf(),
        sound(s, events),
        reached(s, events, events.len()) is Ok,
        b < events.len(),
        events[b as int].0 == EventView::Block(block),
        block.slot > 0,
        reached(s, events, b)->Ok_0.head().meta.range.start <= block.slot,
        forall|k: int|
            b < k < events.len() ==> ((#[trigger] events[k]).0 matches EventView::Block(next)
                ==> next.slot > block.slot),
        reached(s, events, b)->Ok_0.head().id >= reached(
            s,
            events,
            events.len(),
        )->Ok_0.ledger.oldest(),
        from <= block.slot < to,
    ensures
        ({
            let after = reached(s, events, events.len())->Ok_0.ledger;
            read_blocks(after.superblocks, after.oldest(), from as int, to as int, Seq::empty())
                matches Ok(found) ==> found.contains(block)
        }),
{
    let (i, span) = end_is_kept(s, events, b, block);
    let after = reached(s, events, events.len())->Ok_0;
    let list = after.ledger.superblocks;
    let oldest = after.ledger.oldest();
    assert forall|j: int| i <= j < list.len() implies (#[trigger] list[j]).id >= oldest by {
        if i < j {
            assert(list[i].id < list[j].id);
        }
    }
    assert forall|j: int| i < j < list.len() implies no_block(#[trigger] list[j]) || block.slot
        < list[j].meta.range.start by {
        assert(beyond(list[j], block.slot));
    }
    end_is_there(list[i], block, span);
    range_read_is_complete(
        list,
        oldest,
        from as int,
        to as int,
        Seq::empty(),
        i,
        block.slot,
        span,
        block,
    );
}

} // verus!
