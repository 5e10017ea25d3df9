//! What the header of the ledger tells after each event: how much was recorded, up to which
//! slot, and which superblocks are retained.

use vstd::prelude::*;

use crate::bytes::le_bytes;
use crate::ledger::appender::{span_at, AppenderState, EventView};
use crate::ledger::codec::entry_bytes;
use crate::ledger::error::LedgerError;
use crate::ledger::index::{account_row, added, block_row, transaction_row};
use crate::ledger::laws::block_effect;
use crate::ledger::reader::ids_grow;
use crate::ledger::schema::{EntryView, ExecutionView, MAX_EXECUTION_DETAILS_SIZE};
use crate::ledger::trace::{is_seal, reached, sound, step_keeps, step_seals, ways_are_sound, wrote_keeps};
use crate::types::{Block, Pubkey, Signature};

verus! {

/// Transactions that were recorded, those that are not published yet counted in.
pub open spec fn recorded_transactions(s: AppenderState) -> int {
    s.ledger.meta.transactions + s.transactions
}

/// What a block leaves in the header, before space is given back.
proof fn block_leaves(s: AppenderState, block: Block, used: u64)
    requires
        s.wf(),
        s.block(block, used) is Ok,
    ensures
        ({
            let t = s.block(block, used)->Ok_0;
            let n = s.ledger.superblocks.len();
            &&& recorded_transactions(s) <= u64::MAX ==> recorded_transactions(t)
                == recorded_transactions(s)
            &&& s.ledger.meta.blocks < u64::MAX ==> t.ledger.meta.blocks == s.ledger.meta.blocks + 1
            &&& t.ledger.meta.range.end == block.slot
            &&& t.ledger.meta.head == s.ledger.meta.head
            &&& used < s.size_limit || n == 1 ==> t.ledger.superblocks.len() == n
                && t.ledger.meta.superblocks == s.ledger.meta.superblocks
                && t.ledger.meta.range.start == s.ledger.meta.range.start
            &&& used >= s.size_limit && n > 1 ==> t.ledger.superblocks.len() == n - 1
                && t.ledger.meta.superblocks == s.ledger.meta.superblocks - 1
                && t.ledger.meta.range.start == s.ledger.superblocks[0].meta.range.end + 1
        }),
{
    let entry = EntryView::Block(block);
    wrote_keeps(s, entry);
    let (written, span) = s.wrote(entry)->Ok_0;
    let published = written.published(Some(block.slot))->Ok_0;
    let indexed = published.indexed(block.slot, span);
    let n = s.ledger.superblocks.len();
    assert(published.ledger.superblocks.len() == n);
    assert(indexed.ledger.superblocks.len() == n);
    if used >= s.size_limit {
        let synced = indexed.published(None)->Ok_0;
        assert(synced.ledger.superblocks.len() == n);
        assert(synced.head().id == s.head().id);
        if n > 1 {
            assert(synced.ledger.superblocks[0] == s.ledger.superblocks[0]);
            assert(s.ledger.superblocks[0].id < s.ledger.superblocks[n - 1].id);
        } else {
            assert(synced.ledger.superblocks.first() == synced.ledger.superblocks.last());
        }
    }
}

/// What a seal leaves in the header.
proof fn seal_leaves(s: AppenderState, event: EventView, used: u64)
    requires
        s.wf(),
        s.accepts(event),
        is_seal(event),
        s.step(event, used) is Ok,
    ensures
        ({
            let t = s.step(event, used)->Ok_0;
            &&& event is Superblock && recorded_transactions(s) <= u64::MAX
                ==> recorded_transactions(t) == recorded_transactions(s)
            &&& t.transactions == 0
            &&& t.ledger.meta.blocks == s.ledger.meta.blocks
            &&& t.ledger.meta.range == s.ledger.meta.range
            &&& t.ledger.meta.superblocks == s.ledger.meta.superblocks + 1
        }),
{
    let entry = match event {
        EventView::Superblock(seal) => EntryView::Superblock(seal),
        EventView::Bootstrap(seal) => EntryView::Superblock(seal),
        _ => arbitrary(),
    };
    wrote_keeps(s, entry);
    ids_grow(s.ledger.superblocks, s.ledger.superblocks.len() - 1);
}

/// Every block is counted when it ends, and nothing else is: neither transactions nor seals nor
/// markers.
pub proof fn blocks_are_counted(s: AppenderState, event: EventView, used: u64)
    requires
        s.wf(),
        s.accepts(event),
        s.step(event, used) is Ok,
        s.ledger.meta.blocks < u64::MAX,
    ensures
        event is Block ==> s.step(event, used)->Ok_0.ledger.meta.blocks == s.ledger.meta.blocks + 1,
        !(event is Block) ==> s.step(event, used)->Ok_0.ledger.meta.blocks == s.ledger.meta.blocks,
{
    if let EventView::Block(block) = event {
        block_leaves(s, block, used);
    } else if is_seal(event) {
        seal_leaves(s, event, used);
    }
}

/// Every transaction is counted when it is recorded, once, and nothing else is; a bootstrap
/// takes over the count of its seal. Everything that was counted is in the header once it is
/// published: at the end of a block, at a seal, at a marker, and at a synchronization.
pub proof fn transactions_are_counted(s: AppenderState, event: EventView, used: u64)
    requires
        s.wf(),
        s.accepts(event),
        s.step(event, used) is Ok,
        recorded_transactions(s) < u64::MAX,
    ensures
        ({
            let t = s.step(event, used)->Ok_0;
            &&& event is Transaction ==> recorded_transactions(t) == recorded_transactions(s) + 1
            &&& event matches EventView::Bootstrap(seal) ==> recorded_transactions(t)
                == seal.transactions
            &&& !(event is Transaction) && !(event is Bootstrap) ==> recorded_transactions(t)
                == recorded_transactions(s)
            &&& event is Block || is_seal(event) || event is Reset || event is Checkpoint
                || event is Sync ==> t.ledger.meta.transactions == recorded_transactions(t)
        }),
{
    if let EventView::Block(block) = event {
        block_leaves(s, block, used);
        let written = s.wrote(EntryView::Block(block))->Ok_0.0;
        assert(written.published(Some(block.slot))->Ok_0.transactions == 0);
    } else if is_seal(event) {
        seal_leaves(s, event, used);
    }
}

/// The ledger reaches up to the slot of the last block. No other event changes that.
pub proof fn last_block_is_the_end(s: AppenderState, event: EventView, used: u64)
    requires
        s.wf(),
        s.accepts(event),
        s.step(event, used) is Ok,
    ensures
        match event {
            EventView::Block(block) => s.step(event, used)->Ok_0.ledger.meta.range.end
                == block.slot && s.step(event, used)->Ok_0.head().meta.range.end == block.slot,
            _ => s.step(event, used)->Ok_0.ledger.meta.range == s.ledger.meta.range,
        },
{
    if let EventView::Block(block) = event {
        block_leaves(s, block, used);
        let entry = EntryView::Block(block);
        wrote_keeps(s, entry);
        let (written, span) = s.wrote(entry)->Ok_0;
        let published = written.published(Some(block.slot))->Ok_0;
        let indexed = published.indexed(block.slot, span);
        assert(indexed.head().meta.range.end == block.slot);
        if used >= s.size_limit {
            let synced = indexed.published(None)->Ok_0;
            assert(synced.head().meta.range.end == block.slot);
            let list = synced.ledger.superblocks;
            if list.first().id < synced.ledger.meta.head {
                if list.len() == 1 {
                    assert(list.first() == list.last());
                }
                assert(list.drop_first().last() == list.last());
            }
        }
    } else if is_seal(event) {
        seal_leaves(s, event, used);
    }
}

/// A seal opens the superblock after the one that it names, empty, with the checksum and the
/// count of the seal, and drops none. The one before it holds the seal as its last entry.
pub proof fn seals_open_the_next_superblock(s: AppenderState, event: EventView, used: u64)
    requires
        s.wf(),
        s.accepts(event),
        s.step(event, used) is Ok,
    ensures
        event matches EventView::Superblock(seal) ==> {
            let t = s.step(event, used)->Ok_0;
            let n = s.ledger.superblocks.len() as int;
            &&& t.ledger.superblocks.len() == n + 1
            &&& t.ledger.meta.superblocks == s.ledger.meta.superblocks + 1
            &&& t.ledger.meta.head == seal.id + 1
            &&& t.head().id == seal.id + 1
            &&& t.head().meta.checksum == seal.checksum
            &&& t.head().meta.transactions == seal.transactions
            &&& t.head().blockstore.contents.len() == 0
            &&& t.head().executions.contents.len() == 0
            &&& t.ledger.superblocks[n - 1].blockstore.contents
                == s.head().blockstore.contents + entry_bytes(EntryView::Superblock(seal))
            &&& t.ledger.superblocks[n - 1].blockstore.written()
                == t.ledger.superblocks[n - 1].blockstore.contents
        },
        event matches EventView::Bootstrap(seal) ==> {
            let t = s.step(event, used)->Ok_0;
            &&& t.ledger.meta.head == seal.id + 1
            &&& t.head().id == seal.id + 1
            &&& t.head().meta.checksum == seal.checksum
            &&& t.head().meta.transactions == seal.transactions
            &&& t.ledger.meta.transactions == seal.transactions
        },
        !is_seal(event) ==> s.step(event, used)->Ok_0.ledger.meta.head == s.ledger.meta.head
            && s.step(event, used)->Ok_0.head().id == s.head().id,
{
    if is_seal(event) {
        ids_grow(s.ledger.superblocks, s.ledger.superblocks.len() - 1);
        step_seals(s, event, used);
        seal_leaves(s, event, used);
        if let EventView::Superblock(seal) = event {
            let entry = EntryView::Superblock(seal);
            wrote_keeps(s, entry);
            let t = s.step(event, used)->Ok_0;
            let n = s.ledger.superblocks.len() as int;
            let last = t.ledger.superblocks[n - 1].blockstore;
            assert(last.written() =~= last.contents);
        }
    } else {
        step_keeps(s, event, used);
        if let EventView::Block(block) = event {
            block_leaves(s, block, used);
        }
    }
}

/// Once as much space is used as is allowed, the end of a block gives up the oldest superblock,
/// unless it is the active one; what is retained begins behind its last slot. While there is
/// space, nothing is given up, and no other event gives anything up.
pub proof fn space_is_given_back(s: AppenderState, event: EventView, used: u64)
    requires
        s.wf(),
        s.accepts(event),
        s.step(event, used) is Ok,
    ensures
        ({
            let t = s.step(event, used)->Ok_0;
            let n = s.ledger.superblocks.len();
            &&& event is Block && used >= s.size_limit && n > 1 ==> {
                &&& t.ledger.superblocks.len() == n - 1
                &&& t.ledger.meta.superblocks == s.ledger.meta.superblocks - 1
                &&& t.ledger.meta.range.start == s.ledger.superblocks[0].meta.range.end + 1
                &&& t.ledger.oldest() == s.ledger.oldest() + 1
            }
            &&& !(event is Block && used >= s.size_limit && n > 1) ==> {
                &&& t.ledger.superblocks.len() >= n
                &&& t.ledger.meta.superblocks >= s.ledger.meta.superblocks
                &&& t.ledger.meta.range.start == s.ledger.meta.range.start
            }
        }),
{
    if is_seal(event) {
        ids_grow(s.ledger.superblocks, s.ledger.superblocks.len() - 1);
        step_seals(s, event, used);
        seal_leaves(s, event, used);
    } else {
        step_keeps(s, event, used);
        if let EventView::Block(block) = event {
            block_leaves(s, block, used);
        }
    }
}

/// Transactions among the first `n` events.
pub open spec fn transactions_among(events: Seq<(EventView, u64)>, n: int) -> nat {
    events.take(n).filter(|event: (EventView, u64)| event.0 is Transaction).len()
}

/// Blocks among the first `n` events.
pub open spec fn blocks_among(events: Seq<(EventView, u64)>, n: int) -> nat {
    events.take(n).filter(|event: (EventView, u64)| event.0 is Block).len()
}

proof fn one_more(
    events: Seq<(EventView, u64)>,
    m: int,
    counts: spec_fn((EventView, u64)) -> bool,
)
    requires
        0 <= m < events.len(),
    ensures
        events.take(m + 1).filter(counts).len() == events.take(m).filter(counts).len() + if counts(
            events[m],
        ) {
            1int
        } else {
            0
        },
{
    let list = events.take(m + 1);
    assert(list.drop_last() =~= events.take(m));
    assert(list.last() == events[m]);
    reveal(Seq::filter);
}

/// After any sequence of events, as many transactions and as many blocks are counted as there
/// were, on top of those before.
pub proof fn everything_is_counted(s: AppenderState, events: Seq<(EventView, u64)>, n: nat)
    requires
        s.wf(),
        sound(s, events),
        n <= events.len(),
        reached(s, events, n) is Ok,
        forall|k: int| 0 <= k < n ==> !((#[trigger] events[k]).0 is Bootstrap),
        recorded_transactions(s) + n < u64::MAX,
        s.ledger.meta.blocks + n < u64::MAX,
    ensures
        reached(s, events, n)->Ok_0.wf(),
        recorded_transactions(reached(s, events, n)->Ok_0) == recorded_transactions(s)
            + transactions_among(events, n as int),
        reached(s, events, n)->Ok_0.ledger.meta.blocks == s.ledger.meta.blocks + blocks_among(
            events,
            n as int,
        ),
        transactions_among(events, n as int) <= n,
        blocks_among(events, n as int) <= n,
    decreases n,
{
    if n == 0 {
        reveal(Seq::filter);
        assert(events.take(0) =~= Seq::empty());
    } else {
        let m = (n - 1) as nat;
        everything_is_counted(s, events, m);
        ways_are_sound(s, events, n);
        let state = reached(s, events, m)->Ok_0;
        let (event, used) = events[m as int];
        assert(state.accepts(event));
        one_more(events, m as int, |event: (EventView, u64)| event.0 is Transaction);
        one_more(events, m as int, |event: (EventView, u64)| event.0 is Block);
        blocks_are_counted(state, event, used);
        transactions_are_counted(state, event, used);
    }
}

/// Details of an execution that are larger than allowed are recorded as absent ones; any others
/// are recorded as they are.
pub proof fn large_details_are_left_out(
    s: AppenderState,
    execution: ExecutionView,
    accounts: Seq<Pubkey>,
)
    ensures
        execution.details.len() > MAX_EXECUTION_DETAILS_SIZE ==> s.execution(execution, accounts)
            == s.execution(ExecutionView { details: s.absent, ..execution }, accounts),
        execution.details.len() <= MAX_EXECUTION_DETAILS_SIZE ==> s.kept(execution.details)
            == execution.details,
{
}

/// A transaction waits for its execution from when it is recorded until that is, and whether or
/// not the execution can be recorded, it waits no longer.
pub proof fn transactions_wait_for_their_execution(
    s: AppenderState,
    signature: Signature,
    payload: Seq<u8>,
    execution: ExecutionView,
    accounts: Seq<Pubkey>,
)
    ensures
        s.transaction(signature, payload) matches Ok(t) ==> t.pending.contains_key(signature@),
        s.execution(execution, accounts) matches Ok(t) ==> !t.pending.contains_key(
            execution.header.signature@,
        ),
        s.execution(execution, accounts) is Err ==> !s.step_left(
            EventView::Execution(execution, accounts),
        ).pending.contains_key(execution.header.signature@),
        s.execution(execution, accounts) matches Ok(t) ==> forall|other: Signature|
            other@ != execution.header.signature@ ==> s.pending.contains_key(#[trigger] other@)
                == t.pending.contains_key(other@),
{
}

/// Entries that do not fit and files that are full are refused with an error, and leave no part
/// of the entry behind.
pub proof fn refused_entries_leave_nothing(s: AppenderState, signature: Signature, payload: Seq<u8>)
    ensures
        s.transaction(signature, payload) is Err ==> s.step_left(
            EventView::Transaction(signature, payload),
        ) == s,
        s.transaction(signature, payload) matches Err(error) ==> error == LedgerError::Codec
            || error == LedgerError::FileTooLarge,
{
}

/// The rows that wait for the end of a block are in the index once it ended.
proof fn waiting_rows_are_added(rows: Map<Seq<u8>, Seq<u8>>, batch: Seq<(Seq<u8>, Seq<u8>)>, i: int, n: nat)
    requires
        0 <= i < n <= batch.len(),
    ensures
        added(rows, batch, n).contains_key(batch[i].0),
    decreases n,
{
    if i < n - 1 {
        waiting_rows_are_added(rows, batch, i, (n - 1) as nat);
    }
}

/// An execution is indexed under its signature and under every account that its transaction names,
/// once the block ended that it is in.
pub proof fn executions_are_indexed(
    s: AppenderState,
    execution: ExecutionView,
    accounts: Seq<Pubkey>,
    block: Block,
    used: u64,
    j: int,
)
    requires
        s.wf(),
        s.pending.contains_key(execution.header.signature@),
        s.execution(execution, accounts) is Ok,
        s.execution(execution, accounts)->Ok_0.wf(),
        s.execution(execution, accounts)->Ok_0.block(block, used) is Ok,
        0 <= j < accounts.len(),
    ensures
        ({
            let middle = s.execution(execution, accounts)->Ok_0;
            let after = middle.block(block, used)->Ok_0;
            let span = span_at(
                s.head().executions.contents.len(),
                (middle.head().executions.contents.len() - s.head().executions.contents.len()) as nat,
            );
            &&& after.head().rows.contains_key(transaction_row(execution.header.signature))
            &&& after.head().rows.contains_key(account_row(accounts[j], span))
            &&& after.head().rows.contains_key(block_row(block.slot))
        }),
{
    let middle = s.execution(execution, accounts)->Ok_0;
    block_effect(middle, block, used);
    let rows = middle.head().rows;
    let waiting = middle.batch;
    let at = s.batch.len() as int;
    let span = span_at(
        s.head().executions.contents.len(),
        (middle.head().executions.contents.len() - s.head().executions.contents.len()) as nat,
    );
    assert(waiting[at].0 == transaction_row(execution.header.signature));
    assert(waiting[at + 1 + j].0 == account_row(accounts[j], span));
    let after = middle.block(block, used)->Ok_0;
    let batch = waiting.push(
        (
            block_row(block.slot),
            le_bytes(
                span_at(
                    middle.head().blockstore.contents.len(),
                    entry_bytes(EntryView::Block(block)).len(),
                ).bits as nat,
                8,
            ),
        ),
    );
    assert(after.head().rows == added(rows, batch, batch.len()));
    waiting_rows_are_added(rows, batch, at, batch.len());
    waiting_rows_are_added(rows, batch, at + 1 + j, batch.len());
    waiting_rows_are_added(rows, batch, batch.len() - 1, batch.len());
    assert(batch[at] == waiting[at]);
    assert(batch[at + 1 + j] == waiting[at + 1 + j]);
}

} // verus!
