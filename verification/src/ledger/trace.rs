//! What stays readable while events go on.

use vstd::prelude::*;

use crate::bytes::{le_bytes, u64_spellings};
use crate::ledger::appender::{
    accepts_from, restores, run_from, run_left, span_at, AppenderState, EventView,
};
use crate::ledger::codec::{
    entry_bytes, entry_fits, entry_length, entry_roundtrip, header_bytes, header_roundtrip,
};
use crate::ledger::compress::{restored_details, details_frame};
use crate::ledger::details::{leads_home, spans_for};
use crate::ledger::error::LedgerError;
use crate::ledger::index::{
    account_row, added, block_row, find_transaction, indexed_transaction_is_found, mentions,
    namespaces_are_apart, transaction_row, transaction_value, Span, TxSpan,
};
use crate::ledger::laws::{last_row_counts, span_holds};
use crate::ledger::outcome::outcome_ok;
use crate::ledger::reader::{ids_ascend, ids_grow, reaches, read_status, read_transaction};
use crate::ledger::request::{TransactionResponseView, TransactionStatus};
use crate::ledger::schema::{
    EntryView, ExecutionHeader, ExecutionView, MAX_EXECUTION_DETAILS_SIZE,
};
use crate::ledger::storage::{bytes_at, FileState};
use crate::ledger::superblock::{
    entry_at, execution_at, header_at, signature_of, transaction_at, SuperblockView,
};
use crate::types::{Block, Pubkey, Signature, Slot};

verus! {

/// The state after the first `n` events.
pub open spec fn reached(s: AppenderState, events: Seq<(EventView, u64)>, n: nat) -> Result<
    AppenderState,
    LedgerError,
>
    decreases n,
{
    if n == 0 {
        Ok(s)
    } else {
        match reached(s, events, (n - 1) as nat) {
            Ok(state) => state.step(events[n - 1].0, events[n - 1].1),
            Err(error) => Err(error),
        }
    }
}

/// Every event makes sense when its turn comes.
pub open spec fn sound(s: AppenderState, events: Seq<(EventView, u64)>) -> bool {
    forall|k: nat|
        k < events.len() ==> match #[trigger] reached(s, events, k) {
            Ok(state) => state.accepts(events[k as int].0),
            Err(_) => true,
        }
}

/// A file has kept its bytes and may have got more.
pub open spec fn file_grows(a: FileState, b: FileState) -> bool {
    &&& b.wf()
    &&& a.contents.len() <= b.contents.len()
    &&& forall|i: int| 0 <= i < a.contents.len() ==> #[trigger] b.contents[i] == a.contents[i]
    &&& a.written().len() <= b.written().len()
}

/// The files of a superblock have kept their bytes and may have got more.
pub open spec fn superblock_grows(a: SuperblockView, b: SuperblockView) -> bool {
    &&& a.id == b.id
    &&& file_grows(a.blockstore, b.blockstore)
    &&& file_grows(a.executions, b.executions)
}

/// What every event but a seal keeps: the sealed superblocks, though the oldest may be dropped,
/// and the bytes of the active one.
pub open spec fn keeps(s: AppenderState, t: AppenderState) -> bool {
    let old_list = s.ledger.superblocks;
    let new_list = t.ledger.superblocks;
    &&& t.wf()
    &&& t.ledger.dictionary == s.ledger.dictionary
    &&& t.absent == s.absent
    &&& new_list.len() <= old_list.len() <= new_list.len() + 1
    &&& forall|i: int|
        0 <= i < new_list.len() - 1 ==> #[trigger] new_list[i] == old_list[i + old_list.len()
            - new_list.len()]
    &&& superblock_grows(s.head(), t.head())
}

/// What a seal keeps: all superblocks, with the bytes and rows of the one that was active. The
/// new one is empty.
pub open spec fn seals(s: AppenderState, t: AppenderState) -> bool {
    let old_list = s.ledger.superblocks;
    let new_list = t.ledger.superblocks;
    let n = old_list.len() as int;
    &&& t.wf()
    &&& t.ledger.dictionary == s.ledger.dictionary
    &&& t.absent == s.absent
    &&& new_list.len() == n + 1
    &&& forall|i: int| 0 <= i < n - 1 ==> #[trigger] new_list[i] == old_list[i]
    &&& superblock_grows(s.head(), new_list[n - 1])
    &&& new_list[n - 1].rows == s.head().rows
    &&& new_list[n].rows == Map::<Seq<u8>, Seq<u8>>::empty()
    &&& t.batch == Seq::<(Seq<u8>, Seq<u8>)>::empty()
}

/// Whether an event seals the active superblock.
pub open spec fn is_seal(event: EventView) -> bool {
    event is Superblock || event is Bootstrap
}

proof fn file_appended(file: FileState, bytes: Seq<u8>)
    requires
        file.wf(),
        file.appended(bytes) is Some,
    ensures
        file_grows(file, file.appended(bytes)->0),
        file.appended(bytes)->0.contents == file.contents + bytes,
{
}

proof fn file_persisted(file: FileState)
    requires
        file.wf(),
        file.persisted() is Some,
    ensures
        file_grows(file, file.persisted()->0),
        file.persisted()->0.contents == file.contents,
        file.persisted()->0.written() == file.contents,
{
    assert(file.persisted()->0.written() =~= file.contents);
}

proof fn file_unchanged(file: FileState)
    requires
        file.wf(),
    ensures
        file_grows(file, file),
{
}

proof fn growth_adds_up(a: SuperblockView, b: SuperblockView, c: SuperblockView)
    requires
        superblock_grows(a, b),
        superblock_grows(b, c),
    ensures
        superblock_grows(a, c),
{
    assert forall|i: int| 0 <= i < a.blockstore.contents.len() implies #[trigger] c.blockstore.contents[i]
        == a.blockstore.contents[i] by {
        assert(b.blockstore.contents[i] == a.blockstore.contents[i]);
    }
    assert forall|i: int| 0 <= i < a.executions.contents.len() implies #[trigger] c.executions.contents[i]
        == a.executions.contents[i] by {
        assert(b.executions.contents[i] == a.executions.contents[i]);
    }
}

/// Another active superblock whose files have grown.
proof fn with_head_keeps(s: AppenderState, sb: SuperblockView, t: AppenderState)
    requires
        s.wf(),
        superblock_grows(s.head(), sb),
        sb.meta.range.end < u64::MAX,
        t.ledger.superblocks == s.with_head(sb).ledger.superblocks,
        t.ledger.dictionary == s.ledger.dictionary,
        t.ledger.meta.head == s.ledger.meta.head,
        t.ledger.meta.superblocks == s.ledger.meta.superblocks,
        t.absent == s.absent,
    ensures
        keeps(s, t),
        t.head() == sb,
{
    let old_list = s.ledger.superblocks;
    let new_list = t.ledger.superblocks;
    assert(new_list.len() == old_list.len());
    assert(new_list.last() == sb);
    assert forall|i: int, j: int| 0 <= i < j < new_list.len() implies (#[trigger] new_list[i]).id
        < (#[trigger] new_list[j]).id by {
        assert(old_list[i].id < old_list[j].id);
    }
    assert forall|i: int| 0 <= i < new_list.len() implies {
        let one = #[trigger] new_list[i];
        &&& one.blockstore.wf()
        &&& one.executions.wf()
        &&& one.meta.range.end < u64::MAX
    } by {
        if i < new_list.len() - 1 {
            assert(new_list[i] == old_list[i]);
        }
    }
}

pub(crate) proof fn wrote_keeps(s: AppenderState, entry: EntryView)
    requires
        s.wf(),
        s.wrote(entry) is Ok,
    ensures
        ({
            let (t, _) = s.wrote(entry)->Ok_0;
            &&& keeps(s, t)
            &&& t.head().rows == s.head().rows
            &&& t.head().executions == s.head().executions
            &&& t.head().blockstore.contents == s.head().blockstore.contents + entry_bytes(entry)
            &&& t.head().meta == s.head().meta
            &&& t.ledger.superblocks.len() == s.ledger.superblocks.len()
        }),
{
    let sb = s.head();
    assert(sb.meta.range.end < u64::MAX);
    file_appended(sb.blockstore, entry_bytes(entry));
    file_unchanged(sb.executions);
    let (t, _) = s.wrote(entry)->Ok_0;
    with_head_keeps(
        s,
        SuperblockView { blockstore: sb.blockstore.appended(entry_bytes(entry))->0, ..sb },
        t,
    );
}

pub(crate) proof fn published_keeps(s: AppenderState, slot: Option<Slot>)
    requires
        s.wf(),
        slot matches Some(at) ==> at < u64::MAX,
        s.published(slot) is Ok,
    ensures
        ({
            let t = s.published(slot)->Ok_0;
            &&& keeps(s, t)
            &&& t.head().rows == s.head().rows
            &&& t.head().blockstore.written() == s.head().blockstore.contents
            &&& t.head().blockstore.contents == s.head().blockstore.contents
            &&& t.head().executions.written() == s.head().executions.contents
            &&& t.head().executions.contents == s.head().executions.contents
            &&& t.ledger.superblocks.len() == s.ledger.superblocks.len()
        }),
{
    let sb = s.head();
    assert(sb.meta.range.end < u64::MAX);
    file_persisted(sb.blockstore);
    file_persisted(sb.executions);
    let t = s.published(slot)->Ok_0;
    assert(t.ledger.superblocks.last() == t.head());
    with_head_keeps(s, t.head(), t);
}

proof fn truncated_keeps(s: AppenderState)
    requires
        s.wf(),
    ensures
        keeps(s, s.truncated()),
        s.truncated().head() == s.head(),
{
    let t = s.truncated();
    let list = s.ledger.superblocks;
    file_unchanged(s.head().blockstore);
    file_unchanged(s.head().executions);
    if list.first().id < s.ledger.meta.head {
        if list.len() == 1 {
            assert(list.first() == list.last());
        }
        let shorter = t.ledger.superblocks;
        assert(shorter =~= list.drop_first());
        assert(shorter.last() == list.last());
        assert forall|i: int, j: int| 0 <= i < j < shorter.len() implies (#[trigger] shorter[i]).id
            < (#[trigger] shorter[j]).id by {
            assert(list[i + 1].id < list[j + 1].id);
        }
        assert forall|i: int| 0 <= i < shorter.len() implies {
            let one = #[trigger] shorter[i];
            &&& one.blockstore.wf()
            &&& one.executions.wf()
            &&& one.meta.range.end < u64::MAX
        } by {
            assert(shorter[i] == list[i + 1]);
        }
    }
}

proof fn keeping_adds_up(a: AppenderState, b: AppenderState, c: AppenderState)
    requires
        a.ledger.superblocks.len() > 0,
        keeps(a, b),
        keeps(b, c),
        b.ledger.superblocks.len() == a.ledger.superblocks.len()
            || c.ledger.superblocks.len() == b.ledger.superblocks.len(),
    ensures
        keeps(a, c),
{
    growth_adds_up(a.head(), b.head(), c.head());
    let x = a.ledger.superblocks;
    let y = b.ledger.superblocks;
    let z = c.ledger.superblocks;
    assert forall|i: int| 0 <= i < z.len() - 1 implies #[trigger] z[i] == x[i + x.len()
        - z.len()] by {
        assert(z[i] == y[i + y.len() - z.len()]);
        let k = i + y.len() - z.len();
        assert(y[k] == x[k + x.len() - y.len()]);
    }
}

/// What a failed publication leaves.
proof fn left_publication_keeps(s: AppenderState)
    requires
        s.wf(),
    ensures
        ({
            let t = s.published_left();
            &&& keeps(s, t)
            &&& t.ledger.superblocks.len() == s.ledger.superblocks.len()
            &&& t.head().rows == s.head().rows
            &&& t.head().meta == s.head().meta
        }),
{
    let sb = s.head();
    assert(sb.meta.range.end < u64::MAX);
    file_unchanged(sb.blockstore);
    file_unchanged(sb.executions);
    match sb.blockstore.persisted() {
        Some(blockstore) => {
            file_persisted(sb.blockstore);
            with_head_keeps(
                s,
                SuperblockView { blockstore, ..sb },
                s.published_left(),
            );
        },
        None => {
            assert(s.with_head(sb).ledger.superblocks =~= s.ledger.superblocks);
            with_head_keeps(s, sb, s);
        },
    }
}

/// Whether an event was recorded though it failed: the end of a block, of which only the
/// synchronization before older superblocks are dropped failed.
pub open spec fn recorded_anyway(s: AppenderState, event: EventView) -> bool {
    match event {
        EventView::Block(block) => match s.wrote(EntryView::Block(block)) {
            Ok((written, _)) => written.published(Some(block.slot)) is Ok,
            Err(_) => false,
        },
        _ => false,
    }
}

/// An event that fails takes nothing back: every superblock stays, the sealed ones as they are,
/// and the files of the active one keep their bytes. Nothing was published, so that the rows,
/// the cursors and the block range of the active superblock are what they were, as are the
/// ledger's own metadata, the rows that wait and the count of transactions; the one exception is
/// the end of a block of which only a later synchronization failed. Transactions that wait for
/// their execution go on waiting, but for the one whose execution failed.
pub proof fn failures_keep_the_record(s: AppenderState, event: EventView, used: u64)
    requires
        s.wf(),
        s.accepts(event),
        s.step(event, used) is Err,
    ensures
        ({
            let t = s.step_left(event);
            &&& keeps(s, t)
            &&& t.ledger.superblocks.len() == s.ledger.superblocks.len()
            &&& t.size_limit == s.size_limit
            &&& t.pending == match event {
                EventView::Execution(execution, _) => s.pending.remove(
                    execution.header.signature@,
                ),
                _ => s.pending,
            }
            &&& !recorded_anyway(s, event) ==> {
                &&& t.head().rows == s.head().rows
                &&& t.head().meta == s.head().meta
                &&& t.ledger.meta == s.ledger.meta
                &&& t.batch == s.batch
                &&& t.transactions == s.transactions
            }
        }),
{
    let sb = s.head();
    file_unchanged(sb.blockstore);
    file_unchanged(sb.executions);
    assert(keeps(s, s)) by {
        assert(s.with_head(sb).ledger.superblocks =~= s.ledger.superblocks);
        with_head_keeps(s, sb, s);
    }
    match event {
        EventView::Transaction(_, _) => {},
        EventView::Execution(execution, _) => {
            assert(s.with_head(sb).ledger.superblocks =~= s.ledger.superblocks);
            with_head_keeps(s, sb, s.execution_left(execution));
        },
        EventView::Block(block) => block_left_keeps(s, block),
        EventView::Superblock(seal) => marked_left_keeps(s, EntryView::Superblock(seal)),
        EventView::Bootstrap(seal) => marked_left_keeps(s, EntryView::Superblock(seal)),
        EventView::Reset(slot) => marked_left_keeps(s, EntryView::Reset(slot)),
        EventView::Checkpoint(checksum) => marked_left_keeps(s, EntryView::Checkpoint(checksum)),
        EventView::Sync(_) => left_publication_keeps(s),
    }
}

/// What a marker that failed leaves.
proof fn marked_left_keeps(s: AppenderState, marker: EntryView)
    requires
        s.wf(),
        keeps(s, s),
    ensures
        ({
            let t = s.marked_left(marker);
            &&& keeps(s, t)
            &&& t.ledger.superblocks.len() == s.ledger.superblocks.len()
            &&& t.head().rows == s.head().rows
            &&& t.head().meta == s.head().meta
        }),
{
    if s.wrote(marker) is Ok {
        let (written, _) = s.wrote(marker)->Ok_0;
        wrote_keeps(s, marker);
        left_publication_keeps(written);
        keeping_adds_up(s, written, written.published_left());
    }
}

/// What the end of a block that failed leaves.
proof fn block_left_keeps(s: AppenderState, block: Block)
    requires
        s.wf(),
        keeps(s, s),
        block.slot < u64::MAX,
    ensures
        ({
            let t = s.block_left(block);
            &&& keeps(s, t)
            &&& t.ledger.superblocks.len() == s.ledger.superblocks.len()
            &&& !recorded_anyway(s, EventView::Block(block)) ==> {
                &&& t.head().rows == s.head().rows
                &&& t.head().meta == s.head().meta
            }
        }),
{
    let entry = EntryView::Block(block);
    if s.wrote(entry) is Ok {
        let (written, span) = s.wrote(entry)->Ok_0;
        wrote_keeps(s, entry);
        if written.published(Some(block.slot)) is Ok {
            let published = written.published(Some(block.slot))->Ok_0;
            published_keeps(written, Some(block.slot));
            keeping_adds_up(s, written, published);
            let indexed = published.indexed(block.slot, span);
            file_unchanged(published.head().blockstore);
            file_unchanged(published.head().executions);
            assert(published.head().meta.range.end < u64::MAX);
            with_head_keeps(published, indexed.head(), indexed);
            keeping_adds_up(s, published, indexed);
            left_publication_keeps(indexed);
            keeping_adds_up(s, indexed, indexed.published_left());
        } else {
            left_publication_keeps(written);
            keeping_adds_up(s, written, written.published_left());
        }
    }
}

/// What an event other than a seal does.
pub(crate) proof fn step_keeps(s: AppenderState, event: EventView, used: u64)
    requires
        s.wf(),
        s.accepts(event),
        !is_seal(event),
        s.step(event, used) is Ok,
    ensures
        ({
            let t = s.step(event, used)->Ok_0;
            &&& keeps(s, t)
            &&& match event {
                EventView::Block(block) => {
                    let row = (
                        block_row(block.slot),
                        le_bytes(
                            span_at(
                                s.head().blockstore.contents.len(),
                                entry_bytes(EntryView::Block(block)).len(),
                            ).bits as nat,
                            8,
                        ),
                    );
                    let batch = s.batch.push(row);
                    &&& t.head().rows == added(s.head().rows, batch, batch.len())
                    &&& t.batch == Seq::<(Seq<u8>, Seq<u8>)>::empty()
                    &&& t.pending == s.pending
                    &&& t.head().blockstore.written() == t.head().blockstore.contents
                    &&& t.head().executions.written() == t.head().executions.contents
                },
                EventView::Execution(_, _) => t.head().rows == s.head().rows,
                EventView::Transaction(signature, _) => {
                    &&& t.head().rows == s.head().rows
                    &&& t.batch == s.batch
                    &&& t.pending.remove(signature@) == s.pending.remove(signature@)
                },
                _ => {
                    &&& t.head().rows == s.head().rows
                    &&& t.batch == s.batch
                    &&& t.pending == s.pending
                },
            }
        }),
{
    let t = s.step(event, used)->Ok_0;
    assert(s.head().meta.range.end < u64::MAX);
    match event {
        EventView::Transaction(signature, payload) => {
            wrote_keeps(s, EntryView::Transaction(payload));
            let (next, _) = s.wrote(EntryView::Transaction(payload))->Ok_0;
            with_head_keeps(s, next.head(), t);
            assert(t.pending.remove(signature@) =~= s.pending.remove(signature@));
        },
        EventView::Execution(execution, _) => {
            if s.pending.contains_key(execution.header.signature@) {
                let sb = s.head();
                let frame = details_frame(s.kept(execution.details), s.ledger.dictionary)->0;
                let bytes = header_bytes(execution.header) + frame;
                file_appended(sb.executions, bytes);
                file_unchanged(sb.blockstore);
                with_head_keeps(
                    s,
                    SuperblockView { executions: sb.executions.appended(bytes)->0, ..sb },
                    t,
                );
            } else {
                file_unchanged(s.head().blockstore);
                file_unchanged(s.head().executions);
            }
        },
        EventView::Block(block) => {
            let entry = EntryView::Block(block);
            wrote_keeps(s, entry);
            let (written, span) = s.wrote(entry)->Ok_0;
            published_keeps(written, Some(block.slot));
            let published = written.published(Some(block.slot))->Ok_0;
            keeping_adds_up(s, written, published);
            let indexed = published.indexed(block.slot, span);
            let sb = published.head();
            assert(sb.meta.range.end < u64::MAX);
            file_unchanged(sb.blockstore);
            file_unchanged(sb.executions);
            assert(indexed.ledger.superblocks.last() == indexed.head());
            with_head_keeps(published, indexed.head(), indexed);
            keeping_adds_up(s, published, indexed);
            if used >= s.size_limit {
                published_keeps(indexed, None);
                let synced = indexed.published(None)->Ok_0;
                keeping_adds_up(s, indexed, synced);
                truncated_keeps(synced);
                keeping_adds_up(s, synced, t);
            }
        },
        EventView::Reset(slot) => {
            wrote_keeps(s, EntryView::Reset(slot));
            let (written, _) = s.wrote(EntryView::Reset(slot))->Ok_0;
            published_keeps(written, None);
            keeping_adds_up(s, written, t);
        },
        EventView::Checkpoint(checksum) => {
            wrote_keeps(s, EntryView::Checkpoint(checksum));
            let (written, _) = s.wrote(EntryView::Checkpoint(checksum))->Ok_0;
            published_keeps(written, None);
            keeping_adds_up(s, written, t);
        },
        EventView::Sync(_) => {
            published_keeps(s, None);
        },
        _ => {},
    }
}

/// What a seal does.
pub(crate) proof fn step_seals(s: AppenderState, event: EventView, used: u64)
    requires
        s.wf(),
        s.accepts(event),
        is_seal(event),
        s.step(event, used) is Ok,
        s.ledger.meta.superblocks < u64::MAX,
    ensures
        seals(s, s.step(event, used)->Ok_0),
{
    let t = s.step(event, used)->Ok_0;
    let seal = match event {
        EventView::Superblock(seal) => seal,
        EventView::Bootstrap(seal) => seal,
        _ => arbitrary(),
    };
    let entry = EntryView::Superblock(seal);
    wrote_keeps(s, entry);
    let (written, _) = s.wrote(entry)->Ok_0;
    published_keeps(written, None);
    let synced = written.published(None)->Ok_0;
    keeping_adds_up(s, written, synced);
    let old_list = synced.ledger.superblocks;
    let new_list = t.ledger.superblocks;
    let n = s.ledger.superblocks.len() as int;
    let closed = new_list[n - 1];
    assert(old_list.len() == n);
    assert(closed.blockstore == synced.head().blockstore.finalized());
    assert(closed.executions == synced.head().executions.finalized());
    assert(closed.blockstore.written() =~= closed.blockstore.contents);
    assert(closed.executions.written() =~= closed.executions.contents);
    assert(superblock_grows(synced.head(), closed));
    growth_adds_up(s.head(), synced.head(), closed);
    assert forall|i: int| 0 <= i < n - 1 implies #[trigger] new_list[i]
        == s.ledger.superblocks[i] by {
        assert(new_list[i] == old_list[i]);
    }
    assert forall|i: int, j: int| 0 <= i < j < new_list.len() implies (#[trigger] new_list[i]).id
        < (#[trigger] new_list[j]).id by {
        if j < n {
            assert(old_list[i].id < old_list[j].id);
        } else if i < n - 1 {
            assert(old_list[i].id < old_list[n - 1].id);
        }
    }
    assert forall|i: int| 0 <= i < new_list.len() implies {
        let one = #[trigger] new_list[i];
        &&& one.blockstore.wf()
        &&& one.executions.wf()
        &&& one.meta.range.end < u64::MAX
    } by {
        if i < n - 1 {
            assert(new_list[i] == old_list[i]);
            assert(old_list[i].blockstore.wf());
        } else if i == n - 1 {
            assert(old_list[n - 1].meta.range.end < u64::MAX);
        }
    }
}

/// Where a transaction and its execution stand, and the bytes there.
pub struct Footprint {
    pub signature: Signature,
    pub span: TxSpan,
    pub sent: Seq<u8>,
    pub record: Seq<u8>,
}

/// The bytes at a span of a file, whether or not they were flushed.
pub open spec fn spelled(file: FileState, span: Span, bytes: Seq<u8>) -> bool {
    &&& span.width() == bytes.len()
    &&& span.at() + span.width() <= file.contents.len()
    &&& forall|i: int|
        span.at() <= i < span.at() + span.width() ==> #[trigger] file.contents[i] == bytes[i
            - span.at()]
}

/// The bytes at a span of a file, all of them flushed.
pub open spec fn flushed(file: FileState, span: Span, bytes: Seq<u8>) -> bool {
    spelled(file, span, bytes) && span.at() + span.width() <= file.written().len()
}

/// A batch has no row with a key.
pub open spec fn lacks(batch: Seq<(Seq<u8>, Seq<u8>)>, key: Seq<u8>) -> bool {
    forall|j: int| 0 <= j < batch.len() ==> (#[trigger] batch[j]).0 != key
}

/// Row `i` of a batch is the last one with its key.
pub open spec fn decides(batch: Seq<(Seq<u8>, Seq<u8>)>, i: int, key: Seq<u8>) -> bool {
    &&& 0 <= i < batch.len()
    &&& batch[i].0 == key
    &&& forall|j: int| i < j < batch.len() ==> (#[trigger] batch[j]).0 != key
}

/// A transaction waits for its execution.
pub open spec fn waits(s: AppenderState, f: Footprint) -> bool {
    &&& s.pending.contains_key(f.signature@)
    &&& s.pending[f.signature@] == f.span.blockstore
    &&& spelled(s.head().blockstore, f.span.blockstore, f.sent)
}

/// An executed transaction waits for the end of a block.
pub open spec fn executed(s: AppenderState, f: Footprint) -> bool {
    &&& exists|i: int| #[trigger]
        decides(s.batch, i, transaction_row(f.signature)) && s.batch[i].1 == transaction_value(
            f.span,
        )
    &&& spelled(s.head().blockstore, f.span.blockstore, f.sent)
    &&& spelled(s.head().executions, f.span.execution, f.record)
}

/// A superblock has a transaction in its index and its files.
pub open spec fn recorded(sb: SuperblockView, f: Footprint) -> bool {
    &&& sb.rows.contains_key(transaction_row(f.signature))
    &&& sb.rows[transaction_row(f.signature)] == transaction_value(f.span)
    &&& flushed(sb.blockstore, f.span.blockstore, f.sent)
    &&& flushed(sb.executions, f.span.execution, f.record)
}

/// Superblock `i` is the newest one that has a transaction.
pub open spec fn newest(list: Seq<SuperblockView>, i: int, f: Footprint) -> bool {
    &&& 0 <= i < list.len()
    &&& recorded(list[i], f)
    &&& forall|j: int|
        i < j < list.len() ==> !(#[trigger] list[j]).rows.contains_key(
            transaction_row(f.signature),
        )
}

/// A transaction is found in the superblock with a number, unless that was dropped.
pub open spec fn indexed(s: AppenderState, id: u64, f: Footprint) -> bool {
    &&& lacks(s.batch, transaction_row(f.signature))
    &&& s.ledger.superblocks.first().id > id || exists|i: int| #[trigger]
        newest(s.ledger.superblocks, i, f) && s.ledger.superblocks[i].id == id
}

/// Whether an event adds a row with the key of a signature.
pub open spec fn records(s: AppenderState, event: EventView, signature: Signature) -> bool {
    event matches EventView::Execution(execution, _) && s.pending.contains_key(
        execution.header.signature@,
    ) && transaction_row(execution.header.signature) == transaction_row(signature)
}

pub(crate) proof fn growth_keeps_bytes(a: FileState, b: FileState, span: Span, bytes: Seq<u8>)
    requires
        file_grows(a, b),
        spelled(a, span, bytes),
    ensures
        spelled(b, span, bytes),
        flushed(a, span, bytes) ==> flushed(b, span, bytes),
{
    assert forall|i: int| span.at() <= i < span.at() + span.width() implies #[trigger] b.contents[i]
        == bytes[i - span.at()] by {
        assert(b.contents[i] == a.contents[i]);
    }
}

pub(crate) proof fn unmentioned_keys_stay(
    rows: Map<Seq<u8>, Seq<u8>>,
    batch: Seq<(Seq<u8>, Seq<u8>)>,
    key: Seq<u8>,
    n: nat,
)
    requires
        lacks(batch, key),
        n <= batch.len(),
    ensures
        added(rows, batch, n).contains_key(key) == rows.contains_key(key),
        rows.contains_key(key) ==> added(rows, batch, n)[key] == rows[key],
    decreases n,
{
    if n > 0 {
        unmentioned_keys_stay(rows, batch, key, (n - 1) as nat);
        assert(batch[n - 1].0 != key);
    }
}

/// The rows of an execution follow those that wait, and those of another one do not get in
/// the way of a transaction.
proof fn other_rows(
    s: AppenderState,
    execution: ExecutionView,
    accounts: Seq<Pubkey>,
    signature: Signature,
)
    requires
        s.execution(execution, accounts) is Ok,
        !records(s, EventView::Execution(execution, accounts), signature),
    ensures
        ({
            let batch = s.execution(execution, accounts)->Ok_0.batch;
            &&& s.batch.len() <= batch.len()
            &&& forall|j: int| 0 <= j < s.batch.len() ==> #[trigger] batch[j] == s.batch[j]
            &&& forall|j: int|
                s.batch.len() <= j < batch.len() ==> (#[trigger] batch[j]).0 != transaction_row(
                    signature,
                )
        }),
{
    let batch = s.execution(execution, accounts)->Ok_0.batch;
    if s.pending.contains_key(execution.header.signature@) {
        let n = s.batch.len() as int;
        assert forall|j: int| n <= j < batch.len() implies (#[trigger] batch[j]).0
            != transaction_row(signature) by {
            if j > n {
                let account = accounts[j - n - 1];
                let frame = details_frame(s.kept(execution.details), s.ledger.dictionary)->0;
                let bytes = header_bytes(execution.header) + frame;
                let span = span_at(s.head().executions.contents.len(), bytes.len());
                assert(batch[j].0 == account_row(account, span));
                namespaces_are_apart(signature, 0, account, span);
            }
        }
    }
}

/// A transaction that waits goes on waiting.
proof fn waiting_goes_on(s: AppenderState, event: EventView, used: u64, f: Footprint)
    requires
        s.wf(),
        s.accepts(event),
        s.step(event, used) is Ok,
        !is_seal(event),
        waits(s, f),
        event matches EventView::Transaction(signature, _) ==> signature@ != f.signature@,
        event matches EventView::Execution(execution, _) ==> execution.header.signature@
            != f.signature@,
    ensures
        waits(s.step(event, used)->Ok_0, f),
{
    let t = s.step(event, used)->Ok_0;
    step_keeps(s, event, used);
    growth_keeps_bytes(s.head().blockstore, t.head().blockstore, f.span.blockstore, f.sent);
    match event {
        EventView::Transaction(signature, _) => {
            assert(t.pending.remove(signature@).contains_key(f.signature@));
            assert(t.pending.remove(signature@)[f.signature@] == s.pending[f.signature@]);
        },
        _ => {},
    }
}

/// An executed transaction goes on waiting for the end of a block, which records it.
proof fn executed_goes_on(s: AppenderState, event: EventView, used: u64, f: Footprint)
    requires
        s.wf(),
        s.accepts(event),
        s.step(event, used) is Ok,
        !is_seal(event),
        executed(s, f),
        !records(s, event, f.signature),
    ensures
        event is Block ==> indexed(s.step(event, used)->Ok_0, s.head().id, f),
        !(event is Block) ==> executed(s.step(event, used)->Ok_0, f),
        s.step(event, used)->Ok_0.head().id == s.head().id,
{
    let t = s.step(event, used)->Ok_0;
    let key = transaction_row(f.signature);
    step_keeps(s, event, used);
    growth_keeps_bytes(s.head().blockstore, t.head().blockstore, f.span.blockstore, f.sent);
    growth_keeps_bytes(s.head().executions, t.head().executions, f.span.execution, f.record);
    let i = choose|i: int| #[trigger]
        decides(s.batch, i, key) && s.batch[i].1 == transaction_value(f.span);
    match event {
        EventView::Block(block) => {
            let row = (
                block_row(block.slot),
                le_bytes(
                    span_at(
                        s.head().blockstore.contents.len(),
                        entry_bytes(EntryView::Block(block)).len(),
                    ).bits as nat,
                    8,
                ),
            );
            let batch = s.batch.push(row);
            namespaces_are_apart(f.signature, block.slot, block.hash, f.span.execution);
            assert forall|j: int| i < j < batch.len() implies (#[trigger] batch[j]).0
                != batch[i].0 by {
                if j < s.batch.len() {
                    assert(batch[j] == s.batch[j]);
                }
            }
            last_row_counts(s.head().rows, batch, i, batch.len());
            let n = t.ledger.superblocks.len() as int;
            assert(recorded(t.head(), f));
            assert(newest(t.ledger.superblocks, n - 1, f));
        },
        EventView::Execution(execution, accounts) => {
            other_rows(s, execution, accounts, f.signature);
            assert(t.batch[i] == s.batch[i]);
            assert forall|j: int| i < j < t.batch.len() implies (#[trigger] t.batch[j]).0
                != key by {
                if j < s.batch.len() {
                    assert(t.batch[j] == s.batch[j]);
                }
            }
            assert(decides(t.batch, i, key));
        },
        _ => {
            assert(decides(t.batch, i, key));
        },
    }
}

/// A recorded transaction stays recorded until its superblock is dropped.
proof fn indexed_goes_on(s: AppenderState, event: EventView, used: u64, id: u64, f: Footprint)
    requires
        s.wf(),
        s.accepts(event),
        s.step(event, used) is Ok,
        indexed(s, id, f),
        !records(s, event, f.signature),
    ensures
        indexed(s.step(event, used)->Ok_0, id, f),
{
    let t = s.step(event, used)->Ok_0;
    let key = transaction_row(f.signature);
    let x = s.ledger.superblocks;
    let y = t.ledger.superblocks;
    let last = x.len() - 1;
    if is_seal(event) {
        ids_grow(x, last);
        step_seals(s, event, used);
        if x.first().id > id {
            assert(y.first().id == x.first().id);
        } else {
            let i = choose|i: int| #[trigger] newest(x, i, f) && x[i].id == id;
            if i == last {
                grown_is_recorded(s.head(), y[last], f);
            }
            assert(newest(y, i, f)) by {
                assert forall|j: int| i < j < y.len() implies !(#[trigger] y[j]).rows.contains_key(
                    key,
                ) by {
                    if j < last {
                        assert(y[j] == x[j]);
                    } else if j == last {
                        assert(!x[j].rows.contains_key(key));
                    }
                }
            }
        }
    } else {
        step_keeps(s, event, used);
        assert(lacks(t.batch, key)) by {
            if let EventView::Execution(execution, accounts) = event {
                other_rows(s, execution, accounts, f.signature);
                assert forall|j: int| 0 <= j < t.batch.len() implies (#[trigger] t.batch[j]).0
                    != key by {
                    if j < s.batch.len() {
                        assert(t.batch[j] == s.batch[j]);
                    }
                }
            }
        }
        head_row_stays(s, event, used, f);
        let gone = x.len() - y.len();
        assert(y.first().id >= x.first().id) by {
            if y.len() > 1 {
                assert(y[0] == x[gone]);
                if gone > 0 {
                    assert(x[0].id < x[gone].id);
                }
            } else if last > 0 {
                assert(x[0].id < x[last].id);
            }
        }
        if x.first().id <= id {
            let i = choose|i: int| #[trigger] newest(x, i, f) && x[i].id == id;
            if i == last {
                grown_is_recorded(s.head(), t.head(), f);
            }
            if i < gone {
                assert(y.first().id > id) by {
                    if y.len() > 1 {
                        assert(y[0] == x[gone]);
                    }
                    assert(x[0].id < x[1].id);
                }
            } else {
                assert(newest(y, i - gone, f)) by {
                    if i < last {
                        assert(y[i - gone] == x[i]);
                    }
                    assert forall|j: int| i - gone < j < y.len() implies !(
                    #[trigger] y[j]).rows.contains_key(key) by {
                        assert(!x[j + gone].rows.contains_key(key));
                        if j < y.len() - 1 {
                            assert(y[j] == x[j + gone]);
                        }
                    }
                }
            }
        }
    }
}

/// A superblock that grows with the row of a transaction keeps it.
proof fn grown_is_recorded(a: SuperblockView, b: SuperblockView, f: Footprint)
    requires
        superblock_grows(a, b),
        recorded(a, f),
        b.rows.contains_key(transaction_row(f.signature)),
        b.rows[transaction_row(f.signature)] == a.rows[transaction_row(f.signature)],
    ensures
        recorded(b, f),
{
    growth_keeps_bytes(a.blockstore, b.blockstore, f.span.blockstore, f.sent);
    growth_keeps_bytes(a.executions, b.executions, f.span.execution, f.record);
}

/// The row of a transaction in the active superblock stays, and none comes, while no waiting
/// row has its key.
proof fn head_row_stays(s: AppenderState, event: EventView, used: u64, f: Footprint)
    requires
        s.wf(),
        s.accepts(event),
        s.step(event, used) is Ok,
        !is_seal(event),
        lacks(s.batch, transaction_row(f.signature)),
    ensures
        ({
            let a = s.head().rows;
            let b = s.step(event, used)->Ok_0.head().rows;
            let key = transaction_row(f.signature);
            &&& b.contains_key(key) == a.contains_key(key)
            &&& a.contains_key(key) ==> b[key] == a[key]
        }),
{
    step_keeps(s, event, used);
    if let EventView::Block(block) = event {
        let row = (
            block_row(block.slot),
            le_bytes(
                span_at(
                    s.head().blockstore.contents.len(),
                    entry_bytes(EntryView::Block(block)).len(),
                ).bits as nat,
                8,
            ),
        );
        let batch = s.batch.push(row);
        namespaces_are_apart(f.signature, block.slot, block.hash, f.span.execution);
        assert(lacks(batch, transaction_row(f.signature))) by {
            assert forall|j: int| 0 <= j < batch.len() implies (#[trigger] batch[j]).0
                != transaction_row(f.signature) by {
                if j < s.batch.len() {
                    assert(batch[j] == s.batch[j]);
                }
            }
        }
        unmentioned_keys_stay(
            s.head().rows,
            batch,
            transaction_row(f.signature),
            batch.len(),
        );
    }
}

/// An appended transaction waits.
proof fn transaction_waits(s: AppenderState, payload: Seq<u8>, f: Footprint)
    requires
        s.wf(),
        s.transaction(f.signature, payload) is Ok,
        f.sent == entry_bytes(EntryView::Transaction(payload)),
        f.span.blockstore == span_at(s.head().blockstore.contents.len(), f.sent.len()),
    ensures
        waits(s.transaction(f.signature, payload)->Ok_0, f),
{
    let entry = EntryView::Transaction(payload);
    let t = s.transaction(f.signature, payload)->Ok_0;
    wrote_keeps(s, entry);
    entry_length(entry);
    span_holds(s.head().blockstore.contents.len(), f.sent.len());
    assert(t.head().blockstore.contents == s.head().blockstore.contents + f.sent);
}

/// The execution of a waiting transaction.
proof fn waiting_is_executed(
    s: AppenderState,
    execution: ExecutionView,
    accounts: Seq<Pubkey>,
    f: Footprint,
)
    requires
        s.wf(),
        s.execution(execution, accounts) is Ok,
        execution.header.signature == f.signature,
        waits(s, f),
        f.record == header_bytes(execution.header) + details_frame(
            s.kept(execution.details),
            s.ledger.dictionary,
        )->0,
        f.span.execution == span_at(s.head().executions.contents.len(), f.record.len()),
    ensures
        executed(s.execution(execution, accounts)->Ok_0, f),
{
    let t = s.execution(execution, accounts)->Ok_0;
    let key = transaction_row(f.signature);
    let sb = s.head();
    file_appended(sb.executions, f.record);
    u64_spellings(execution.header.slot, 0);
    assert(f.record.len() > 0);
    span_holds(sb.executions.contents.len(), f.record.len());
    assert(t.head().executions.contents == sb.executions.contents + f.record);
    assert(t.head().blockstore == sb.blockstore);
    let at = s.batch.len() as int;
    assert(t.batch == s.batch.push((key, transaction_value(f.span))) + mentions(
        accounts,
        f.span.execution,
    ));
    assert(decides(t.batch, at, key)) by {
        assert forall|j: int| at < j < t.batch.len() implies (#[trigger] t.batch[j]).0 != key by {
            let account = accounts[j - at - 1];
            assert(t.batch[j].0 == account_row(account, f.span.execution));
            namespaces_are_apart(f.signature, 0, account, f.span.execution);
        }
    }
    assert(t.batch[at].1 == transaction_value(f.span));
}

/// Every state on the way is well-formed and keeps the dictionary.
pub(crate) proof fn ways_are_sound(s: AppenderState, events: Seq<(EventView, u64)>, n: nat)
    requires
        s.wf(),
        sound(s, events),
        n <= events.len(),
        reached(s, events, n) is Ok,
    ensures
        ({
            let t = reached(s, events, n)->Ok_0;
            &&& t.wf()
            &&& t.ledger.dictionary == s.ledger.dictionary
            &&& t.absent == s.absent
        }),
    decreases n,
{
    if n > 0 {
        let k = (n - 1) as nat;
        ways_are_sound(s, events, k);
        let state = reached(s, events, k)->Ok_0;
        let (event, used) = events[k as int];
        if is_seal(event) {
            ids_grow(state.ledger.superblocks, state.ledger.superblocks.len() - 1);
            step_seals(state, event, used);
        } else {
            step_keeps(state, event, used);
        }
    }
}

/// What is reached was reached step by step.
pub(crate) proof fn earlier_is_reached(s: AppenderState, events: Seq<(EventView, u64)>, k: nat, n: nat)
    requires
        reached(s, events, n) is Ok,
        k <= n,
    ensures
        reached(s, events, k) is Ok,
    decreases n - k,
{
    if k < n {
        earlier_is_reached(s, events, k + 1, n);
    }
}

/// A transaction waits from the event that appended it up to the one that executed it.
proof fn waits_through(
    s: AppenderState,
    events: Seq<(EventView, u64)>,
    t: nat,
    n: nat,
    f: Footprint,
)
    requires
        s.wf(),
        sound(s, events),
        t < n <= events.len(),
        reached(s, events, n) is Ok,
        waits(reached(s, events, t + 1)->Ok_0, f),
        forall|k: int|
            t < k < n ==> !is_seal((#[trigger] events[k]).0) && !names(events[k].0, f.signature),
    ensures
        waits(reached(s, events, n)->Ok_0, f),
    decreases n,
{
    if n > t + 1 {
        let k = (n - 1) as nat;
        waits_through(s, events, t, k, f);
        ways_are_sound(s, events, k);
        let (event, used) = events[k as int];
        waiting_goes_on(reached(s, events, k)->Ok_0, event, used, f);
    }
}

/// Until the next seal, an executed transaction waits for the end of a block or is recorded
/// in the active superblock.
proof fn executed_through(
    s: AppenderState,
    events: Seq<(EventView, u64)>,
    x: nat,
    n: nat,
    f: Footprint,
)
    requires
        s.wf(),
        sound(s, events),
        x < n <= events.len(),
        reached(s, events, n) is Ok,
        executed(reached(s, events, x + 1)->Ok_0, f),
        forall|k: int| x < k < n ==> !is_seal((#[trigger] events[k]).0),
        forall|k: nat|
            x < k < n ==> !records(
                (#[trigger] reached(s, events, k))->Ok_0,
                events[k as int].0,
                f.signature,
            ),
    ensures
        ({
            let state = reached(s, events, n)->Ok_0;
            ||| executed(state, f)
            ||| indexed(state, state.head().id, f)
        }),
        n > x + 1 && events[n - 1].0 is Block ==> indexed(
            reached(s, events, n)->Ok_0,
            reached(s, events, n)->Ok_0.head().id,
            f,
        ),
    decreases n,
{
    if n > x + 1 {
        let k = (n - 1) as nat;
        executed_through(s, events, x, k, f);
        ways_are_sound(s, events, k);
        let (event, used) = events[k as int];
        let state = reached(s, events, k)->Ok_0;
        step_keeps(state, event, used);
        if executed(state, f) {
            executed_goes_on(state, event, used, f);
        } else {
            indexed_goes_on(state, event, used, state.head().id, f);
        }
    }
}

/// A recorded transaction stays recorded.
proof fn indexed_through(
    s: AppenderState,
    events: Seq<(EventView, u64)>,
    b: nat,
    n: nat,
    id: u64,
    f: Footprint,
)
    requires
        s.wf(),
        sound(s, events),
        b <= n <= events.len(),
        reached(s, events, n) is Ok,
        indexed(reached(s, events, b)->Ok_0, id, f),
        forall|k: nat|
            b <= k < n ==> !records(
                (#[trigger] reached(s, events, k))->Ok_0,
                events[k as int].0,
                f.signature,
            ),
    ensures
        indexed(reached(s, events, n)->Ok_0, id, f),
    decreases n,
{
    if n > b {
        let k = (n - 1) as nat;
        indexed_through(s, events, b, k, id, f);
        ways_are_sound(s, events, k);
        let (event, used) = events[k as int];
        indexed_goes_on(reached(s, events, k)->Ok_0, event, used, id, f);
    }
}

impl Footprint {
    /// The bytes of a transaction and of its execution.
    pub open spec fn spells(
        self,
        payload: Seq<u8>,
        execution: ExecutionView,
        dictionary: Seq<u8>,
    ) -> bool {
        let frame = details_frame(execution.details, dictionary);
        &&& outcome_ok(execution.header.result)
        &&& entry_fits(EntryView::Transaction(payload))
        &&& self.sent == entry_bytes(EntryView::Transaction(payload))
        &&& frame is Some
        &&& restored_details(frame->0, dictionary) == Ok::<Seq<u8>, LedgerError>(execution.details)
        &&& self.record == header_bytes(execution.header) + frame->0
    }
}

/// Flushed bytes are read.
pub(crate) proof fn flushed_is_read(file: FileState, span: Span, bytes: Seq<u8>)
    requires
        file.wf(),
        flushed(file, span, bytes),
    ensures
        bytes_at(file.written(), span.at() as int, span.width() as int) == Some(bytes),
{
    let from = span.at() as int;
    let read = file.written().subrange(from, from + span.width());
    assert forall|i: int| 0 <= i < bytes.len() implies #[trigger] read[i] == bytes[i] by {
        assert(file.contents[from + i] == bytes[from + i - span.at()]);
    }
    assert(read =~= bytes);
}

/// What a superblock has of a transaction.
proof fn recorded_is_read(
    sb: SuperblockView,
    f: Footprint,
    payload: Seq<u8>,
    execution: ExecutionView,
    dictionary: Seq<u8>,
)
    requires
        sb.blockstore.wf(),
        sb.executions.wf(),
        recorded(sb, f),
        f.spells(payload, execution, dictionary),
    ensures
        find_transaction(sb.rows, f.signature) == Ok::<Option<TxSpan>, LedgerError>(Some(f.span)),
        transaction_at(sb, f.span.blockstore) == Ok::<Seq<u8>, LedgerError>(payload),
        header_at(sb, f.span.execution) == Ok::<ExecutionHeader, LedgerError>(execution.header),
        execution_at(sb, f.span.execution, dictionary) == Ok::<ExecutionView, LedgerError>(
            execution,
        ),
{
    let entry = EntryView::Transaction(payload);
    indexed_transaction_is_found(sb.rows, f.signature, f.span);
    assert(entry_at(sb, f.span.blockstore) == Ok::<EntryView, LedgerError>(entry)) by {
        flushed_is_read(sb.blockstore, f.span.blockstore, f.sent);
        assert(f.sent + Seq::<u8>::empty() =~= f.sent);
        entry_length(entry);
        entry_roundtrip(entry, Seq::empty());
    }
    let frame = details_frame(execution.details, dictionary)->0;
    flushed_is_read(sb.executions, f.span.execution, f.record);
    header_roundtrip(execution.header, frame);
    assert(f.record.skip(header_bytes(execution.header).len() as int) =~= frame);
}

/// What the newest superblock that has a transaction says of it is read.
proof fn newest_is_read(
    list: Seq<SuperblockView>,
    oldest: int,
    i: int,
    f: Footprint,
    payload: Seq<u8>,
    execution: ExecutionView,
    dictionary: Seq<u8>,
)
    requires
        newest(list, i, f),
        list[i].blockstore.wf(),
        list[i].executions.wf(),
        ids_ascend(list),
        list[i].id >= oldest,
        f.spells(payload, execution, dictionary),
    ensures
        read_transaction(list, oldest, f.signature, dictionary) == Ok::<
            Option<TransactionResponseView>,
            LedgerError,
        >(Some(TransactionResponseView { transaction: payload, execution })),
        read_status(list, oldest, f.signature) == Ok::<Option<TransactionStatus>, LedgerError>(
            Some(
                TransactionStatus { result: execution.header.result, slot: execution.header.slot },
            ),
        ),
    decreases list.len(),
{
    let last = list.len() - 1;
    assert(reaches(list, oldest)) by {
        if i < last {
            assert(list[i].id < list[last].id);
        }
    }
    if i < last {
        let shorter = list.drop_last();
        assert(newest(shorter, i, f));
        newest_is_read(shorter, oldest, i, f, payload, execution, dictionary);
        assert(!list[last].rows.contains_key(transaction_row(f.signature)));
    } else {
        recorded_is_read(list[i], f, payload, execution, dictionary);
    }
}

/// Whether an event appends or executes the transaction with a signature.
pub open spec fn names(event: EventView, signature: Signature) -> bool {
    match event {
        EventView::Transaction(other, _) => other@ == signature@,
        EventView::Execution(execution, _) => execution.header.signature@ == signature@,
        _ => false,
    }
}

/// Where a transaction and its execution stand that events `t` and `x` append.
pub open spec fn footprint(
    s: AppenderState,
    events: Seq<(EventView, u64)>,
    t: nat,
    x: nat,
    signature: Signature,
    payload: Seq<u8>,
    execution: ExecutionView,
) -> Footprint {
    let sent = entry_bytes(EntryView::Transaction(payload));
    let record = header_bytes(execution.header) + details_frame(
        execution.details,
        s.ledger.dictionary,
    )->0;
    let files = reached(s, events, t)->Ok_0.head();
    let later = reached(s, events, x)->Ok_0.head();
    Footprint {
        signature,
        span: TxSpan {
            blockstore: span_at(files.blockstore.contents.len(), sent.len()),
            execution: span_at(later.executions.contents.len(), record.len()),
        },
        sent,
        record,
    }
}

/// Once it was executed, a transaction waits for the end of its block.
#[verifier::rlimit(40)]
#[verifier::spinoff_prover]
proof fn execution_is_recorded(
    s: AppenderState,
    events: Seq<(EventView, u64)>,
    t: nat,
    x: nat,
    signature: Signature,
    payload: Seq<u8>,
    execution: ExecutionView,
    accounts: Seq<Pubkey>,
)
    requires
        s.wf(),
        sound(s, events),
        reached(s, events, events.len()) is Ok,
        t < x < events.len(),
        events[t as int].0 == EventView::Transaction(signature, payload),
        events[x as int].0 == EventView::Execution(execution, accounts),
        execution.header.signature == signature,
        outcome_ok(execution.header.result),
        s.kept(execution.details).len() <= MAX_EXECUTION_DETAILS_SIZE,
        restores(s, execution.details),
        forall|k: int| t < k < x ==> !is_seal((#[trigger] events[k]).0),
        forall|k: int| t < k < x ==> !names((#[trigger] events[k]).0, signature),
    ensures
        ({
            let kept = ExecutionView { details: s.kept(execution.details), ..execution };
            let f = footprint(s, events, t, x, signature, payload, kept);
            &&& f.spells(payload, kept, s.ledger.dictionary)
            &&& reached(s, events, x + 1) is Ok
            &&& executed(reached(s, events, x + 1)->Ok_0, f)
        }),
{
    let n = events.len();
    let kept = ExecutionView { details: s.kept(execution.details), ..execution };
    let f = footprint(s, events, t, x, signature, payload, kept);
    let at_x = reached(s, events, x)->Ok_0;
    earlier_is_reached(s, events, x + 1, n);
    earlier_is_reached(s, events, x, n);
    assert(waits(at_x, f) && entry_fits(EntryView::Transaction(payload))) by {
        earlier_is_reached(s, events, t + 1, n);
        earlier_is_reached(s, events, t, n);
        ways_are_sound(s, events, t);
        transaction_waits(reached(s, events, t)->Ok_0, payload, f);
        waits_through(s, events, t, x, f);
    }
    ways_are_sound(s, events, x);
    waiting_is_executed(at_x, execution, accounts, f);
}

/// The end of its block records a transaction that was executed, and it stays recorded.
#[verifier::rlimit(40)]
#[verifier::spinoff_prover]
proof fn executed_is_indexed(
    s: AppenderState,
    events: Seq<(EventView, u64)>,
    x: nat,
    b: nat,
    f: Footprint,
)
    requires
        s.wf(),
        sound(s, events),
        reached(s, events, events.len()) is Ok,
        x < b < events.len(),
        events[b as int].0 is Block,
        executed(reached(s, events, x + 1)->Ok_0, f),
        forall|k: int| x < k < b ==> !is_seal((#[trigger] events[k]).0),
        forall|k: nat|
            x < k < events.len() ==> !records(
                (#[trigger] reached(s, events, k))->Ok_0,
                events[k as int].0,
                f.signature,
            ),
    ensures
        indexed(
            reached(s, events, events.len())->Ok_0,
            reached(s, events, b)->Ok_0.head().id,
            f,
        ),
{
    let n = events.len();
    let at_b = reached(s, events, b)->Ok_0;
    earlier_is_reached(s, events, b + 1, n);
    earlier_is_reached(s, events, b, n);
    assert(indexed(reached(s, events, b + 1)->Ok_0, at_b.head().id, f)) by {
        executed_through(s, events, x, b + 1, f);
        ways_are_sound(s, events, b);
        step_keeps(at_b, events[b as int].0, events[b as int].1);
    }
    indexed_through(s, events, b + 1, n, at_b.head().id, f);
}

/// From the end of its block on, a transaction is recorded.
#[verifier::rlimit(40)]
#[verifier::spinoff_prover]
proof fn record_stays(
    s: AppenderState,
    events: Seq<(EventView, u64)>,
    t: nat,
    x: nat,
    b: nat,
    signature: Signature,
    payload: Seq<u8>,
    execution: ExecutionView,
    accounts: Seq<Pubkey>,
)
    requires
        s.wf(),
        sound(s, events),
        reached(s, events, events.len()) is Ok,
        t < x < b < events.len(),
        events[t as int].0 == EventView::Transaction(signature, payload),
        events[x as int].0 == EventView::Execution(execution, accounts),
        events[b as int].0 is Block,
        execution.header.signature == signature,
        outcome_ok(execution.header.result),
        s.kept(execution.details).len() <= MAX_EXECUTION_DETAILS_SIZE,
        restores(s, execution.details),
        forall|k: int| t < k < b ==> !is_seal((#[trigger] events[k]).0),
        forall|k: int| t < k < x ==> !names((#[trigger] events[k]).0, signature),
        forall|k: nat|
            x < k < events.len() ==> !records(
                (#[trigger] reached(s, events, k))->Ok_0,
                events[k as int].0,
                signature,
            ),
    ensures
        ({
            let kept = ExecutionView { details: s.kept(execution.details), ..execution };
            let f = footprint(s, events, t, x, signature, payload, kept);
            &&& f.spells(payload, kept, s.ledger.dictionary)
            &&& indexed(
                reached(s, events, events.len())->Ok_0,
                reached(s, events, b)->Ok_0.head().id,
                f,
            )
        }),
{
    let kept = ExecutionView { details: s.kept(execution.details), ..execution };
    let f = footprint(s, events, t, x, signature, payload, kept);
    execution_is_recorded(s, events, t, x, signature, payload, execution, accounts);
    executed_is_indexed(s, events, x, b, f);
}

/// A recorded transaction stays readable, whatever comes between and after: if event `t`
/// appended it, event `x` executed it and block `b` ended before the next seal, then it is
/// read with its execution and its status as long as its superblock is retained and no other
/// execution was recorded under its key.
pub proof fn recorded_transactions_stay_readable(
    s: AppenderState,
    events: Seq<(EventView, u64)>,
    t: nat,
    x: nat,
    b: nat,
    signature: Signature,
    payload: Seq<u8>,
    execution: ExecutionView,
    accounts: Seq<Pubkey>,
)
    requires
        s.wf(),
        sound(s, events),
        reached(s, events, events.len()) is Ok,
        t < x < b < events.len(),
        events[t as int].0 == EventView::Transaction(signature, payload),
        events[x as int].0 == EventView::Execution(execution, accounts),
        events[b as int].0 is Block,
        execution.header.signature == signature,
        outcome_ok(execution.header.result),
        s.kept(execution.details).len() <= MAX_EXECUTION_DETAILS_SIZE,
        restores(s, execution.details),
        forall|k: int| t < k < b ==> !is_seal((#[trigger] events[k]).0),
        forall|k: int| t < k < x ==> !names((#[trigger] events[k]).0, signature),
        forall|k: nat|
            x < k < events.len() ==> !records(
                (#[trigger] reached(s, events, k))->Ok_0,
                events[k as int].0,
                signature,
            ),
        reached(s, events, b)->Ok_0.head().id >= reached(
            s,
            events,
            events.len(),
        )->Ok_0.ledger.oldest(),
    ensures
        ({
            let after = reached(s, events, events.len())->Ok_0.ledger;
            &&& read_transaction(after.superblocks, after.oldest(), signature, after.dictionary)
                == Ok::<Option<TransactionResponseView>, LedgerError>(
                Some(
                    TransactionResponseView {
                        transaction: payload,
                        execution: ExecutionView {
                            details: s.kept(execution.details),
                            ..execution
                        },
                    },
                ),
            )
            &&& read_status(after.superblocks, after.oldest(), signature) == Ok::<
                Option<TransactionStatus>,
                LedgerError,
            >(
                Some(
                    TransactionStatus {
                        result: execution.header.result,
                        slot: execution.header.slot,
                    },
                ),
            )
        }),
{
    let n = events.len();
    let after = reached(s, events, n)->Ok_0;
    let id = reached(s, events, b)->Ok_0.head().id;
    let kept = ExecutionView { details: s.kept(execution.details), ..execution };
    let f = footprint(s, events, t, x, signature, payload, kept);
    record_stays(s, events, t, x, b, signature, payload, execution, accounts);
    ways_are_sound(s, events, n);
    first_is_retained(after);
    let list = after.ledger.superblocks;
    let i = choose|i: int| #[trigger] newest(list, i, f) && list[i].id == id;
    newest_is_read(list, after.ledger.oldest(), i, f, payload, kept, after.ledger.dictionary);
}

/// A recorded transaction is led to its own execution by the index of its superblock, with what
/// was kept of it, as long as that superblock is retained and no other execution was recorded
/// under its key. This is what a block that is read with executions says of it.
pub proof fn recorded_transactions_lead_home(
    s: AppenderState,
    events: Seq<(EventView, u64)>,
    t: nat,
    x: nat,
    b: nat,
    signature: Signature,
    payload: Seq<u8>,
    execution: ExecutionView,
    accounts: Seq<Pubkey>,
) -> (i: int)
    requires
        s.wf(),
        sound(s, events),
        reached(s, events, events.len()) is Ok,
        t < x < b < events.len(),
        events[t as int].0 == EventView::Transaction(signature, payload),
        events[x as int].0 == EventView::Execution(execution, accounts),
        events[b as int].0 is Block,
        execution.header.signature == signature,
        signature_of(payload) == Ok::<Signature, LedgerError>(signature),
        outcome_ok(execution.header.result),
        s.kept(execution.details).len() <= MAX_EXECUTION_DETAILS_SIZE,
        restores(s, execution.details),
        forall|k: int| t < k < b ==> !is_seal((#[trigger] events[k]).0),
        forall|k: int| t < k < x ==> !names((#[trigger] events[k]).0, signature),
        forall|k: nat|
            x < k < events.len() ==> !records(
                (#[trigger] reached(s, events, k))->Ok_0,
                events[k as int].0,
                signature,
            ),
        reached(s, events, b)->Ok_0.head().id >= reached(
            s,
            events,
            events.len(),
        )->Ok_0.ledger.oldest(),
    ensures
        ({
            let after = reached(s, events, events.len())->Ok_0.ledger;
            let sb = after.superblocks[i];
            &&& 0 <= i < after.superblocks.len()
            &&& sb.id == reached(s, events, b)->Ok_0.head().id
            &&& leads_home(sb, payload)
            &&& spans_for(sb, payload) is Some
            &&& execution_at(sb, spans_for(sb, payload)->0.execution, after.dictionary) == Ok::<
                ExecutionView,
                LedgerError,
            >(ExecutionView { details: s.kept(execution.details), ..execution })
        }),
{
    let n = events.len();
    let after = reached(s, events, n)->Ok_0;
    let id = reached(s, events, b)->Ok_0.head().id;
    let kept = ExecutionView { details: s.kept(execution.details), ..execution };
    let f = footprint(s, events, t, x, signature, payload, kept);
    record_stays(s, events, t, x, b, signature, payload, execution, accounts);
    ways_are_sound(s, events, n);
    first_is_retained(after);
    let list = after.ledger.superblocks;
    let i = choose|i: int| #[trigger] newest(list, i, f) && list[i].id == id;
    recorded_is_read(list[i], f, payload, kept, after.ledger.dictionary);
    i
}

/// No retained number is lower than that of the first superblock.
pub(crate) proof fn first_is_retained(s: AppenderState)
    requires
        s.wf(),
    ensures
        s.ledger.superblocks.first().id <= s.ledger.oldest(),
{
    let list = s.ledger.superblocks;
    ids_spread(list, list.len() - 1);
}

proof fn ids_spread(list: Seq<SuperblockView>, i: int)
    requires
        ids_ascend(list),
        0 <= i < list.len(),
    ensures
        list[i].id >= list[0].id + i,
    decreases i,
{
    if i > 0 {
        ids_spread(list, i - 1);
        assert(list[i - 1].id < list[i].id);
    }
}

/// What failed stays failed.
proof fn failures_stay(s: AppenderState, events: Seq<(EventView, u64)>, k: nat, n: nat)
    requires
        k <= n,
        reached(s, events, k) is Err,
    ensures
        reached(s, events, n) == reached(s, events, k),
    decreases n,
{
    if k < n {
        failures_stay(s, events, k, (n - 1) as nat);
    }
}

/// Running the events from `i` on.
#[verifier::rlimit(40)]
#[verifier::spinoff_prover]
proof fn run_is_stepwise(s: AppenderState, events: Seq<(EventView, u64)>, i: nat)
    requires
        i <= events.len(),
        reached(s, events, i) is Ok,
        forall|k: int| 0 <= k < events.len() ==> (#[trigger] events[k]).0 != EventView::Sync(true),
    ensures
        run_from(reached(s, events, i)->Ok_0, events, i as int) == match reached(
            s,
            events,
            events.len(),
        ) {
            Ok(last) => last.published(None),
            Err(error) => Err(error),
        },
    decreases events.len() - i,
{
    if i < events.len() {
        let state = reached(s, events, i)->Ok_0;
        let (event, used) = events[i as int];
        assert(event != EventView::Sync(true));
        assert(reached(s, events, i + 1) == state.step(event, used));
        if reached(s, events, i + 1) is Ok {
            run_is_stepwise(s, events, i + 1);
        } else {
            failures_stay(s, events, i + 1, events.len());
        }
    }
}

/// What is accepted from `i` on.
#[verifier::rlimit(40)]
#[verifier::spinoff_prover]
proof fn acceptance_is_stepwise(s: AppenderState, events: Seq<(EventView, u64)>, i: nat, k: nat)
    requires
        i <= k < events.len(),
        reached(s, events, i) is Ok,
        forall|k: int| 0 <= k < events.len() ==> (#[trigger] events[k]).0 != EventView::Sync(true),
        accepts_from(reached(s, events, i)->Ok_0, events, i as int),
        reached(s, events, k) is Ok,
    ensures
        reached(s, events, k)->Ok_0.accepts(events[k as int].0),
    decreases k - i,
{
    if i < k {
        let state = reached(s, events, i)->Ok_0;
        let (event, used) = events[i as int];
        assert(event != EventView::Sync(true));
        earlier_is_reached(s, events, i + 1, k);
        assert(reached(s, events, i + 1) == state.step(event, used));
        acceptance_is_stepwise(s, events, i + 1, k);
    }
}

/// Running events is applying them one by one and publishing what they left.
pub proof fn runs_are_stepwise(s: AppenderState, events: Seq<(EventView, u64)>)
    requires
        forall|k: int| 0 <= k < events.len() ==> (#[trigger] events[k]).0 != EventView::Sync(true),
    ensures
        run_from(s, events, 0) == match reached(s, events, events.len()) {
            Ok(last) => last.published(None),
            Err(error) => Err(error),
        },
        accepts_from(s, events, 0) ==> sound(s, events),
{
    run_is_stepwise(s, events, 0);
    if accepts_from(s, events, 0) {
        assert forall|k: nat| k < events.len() implies match #[trigger] reached(s, events, k) {
            Ok(state) => state.accepts(events[k as int].0),
            Err(_) => true,
        } by {
            if reached(s, events, k) is Ok {
                acceptance_is_stepwise(s, events, 0, k);
            }
        }
    }
}

/// The first `k` events went well, and the one behind them failed, or the synchronization behind
/// the last one. What they did is kept in `left`.
pub open spec fn fails_at(
    s: AppenderState,
    events: Seq<(EventView, u64)>,
    k: nat,
    left: AppenderState,
) -> bool {
    &&& k <= events.len()
    &&& reached(s, events, k) matches Ok(state) && {
        &&& if k < events.len() {
            let (event, used) = events[k as int];
            state.step(event, used) is Err && left == state.step_left(event)
        } else {
            state.published(None) is Err && left == state.published_left()
        }
        &&& keeps(state, left)
        &&& left.ledger.superblocks.len() == state.ledger.superblocks.len()
    }
}

/// Where the events from `i` on fail.
#[verifier::rlimit(40)]
#[verifier::spinoff_prover]
proof fn run_fails_at(s: AppenderState, events: Seq<(EventView, u64)>, i: nat) -> (k: nat)
    requires
        i <= events.len(),
        reached(s, events, i) is Ok,
        reached(s, events, i)->Ok_0.wf(),
        accepts_from(reached(s, events, i)->Ok_0, events, i as int),
        run_from(reached(s, events, i)->Ok_0, events, i as int) is Err,
    ensures
        fails_at(s, events, k, run_left(reached(s, events, i)->Ok_0, events, i as int)),
    decreases events.len() - i,
{
    let state = reached(s, events, i)->Ok_0;
    if i == events.len() {
        left_publication_keeps(state);
        i
    } else {
        let (event, used) = events[i as int];
        assert(reached(s, events, i + 1) == state.step(event, used));
        if state.step(event, used) is Err {
            failures_keep_the_record(state, event, used);
            i
        } else {
            if is_seal(event) {
                ids_grow(state.ledger.superblocks, state.ledger.superblocks.len() - 1);
                step_seals(state, event, used);
            } else {
                step_keeps(state, event, used);
            }
            run_fails_at(s, events, i + 1)
        }
    }
}

/// A run that fails keeps everything that was recorded before the failure: it leaves what the
/// events before the failing one did, and what is left of that one.
pub proof fn failed_runs_keep_what_came_before(s: AppenderState, events: Seq<(EventView, u64)>)
    requires
        s.wf(),
        accepts_from(s, events, 0),
        run_from(s, events, 0) is Err,
    ensures
        exists|k: nat| #[trigger] fails_at(s, events, k, run_left(s, events, 0)),
{
    let k = run_fails_at(s, events, 0);
    assert(fails_at(s, events, k, run_left(s, events, 0)));
}

} // verus!
