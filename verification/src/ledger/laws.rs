//! What holds of the ledger as a whole.

use vstd::prelude::*;

use crate::ledger::appender::{span_at, AppenderState};
use crate::ledger::codec::{entry_bytes, entry_fits, header_bytes, parse_entry};
use crate::ledger::compress::details_frame;
use crate::ledger::error::LedgerError;
use crate::ledger::index::{
    account_row, added, block_row, find_block, find_transaction, mentions, transaction_row,
    transaction_value, Span, TxSpan, SIZE_LIMIT,
};
use crate::ledger::outcome::outcome_ok;
use crate::ledger::reader::{
    blocks_in, entries_in, history_of, no_block, published, read_blocks, read_history, read_replay,
    read_status, read_transaction, reaches, Page,
};
use crate::ledger::request::{
    AccountSignature, BlockDetails, BlockResponseView, TransactionResponseView, TransactionStatus,
};
use crate::ledger::schema::{EntryView, ExecutionView, MAX_EXECUTION_DETAILS_SIZE};
use crate::ledger::storage::{bytes_at, FileState};
use crate::ledger::superblock::{
    block_response, entry_at, execution_at, gather, gathered_one, header_at, nothing, signature_of,
    transaction_at, Gathered, SuperblockView,
};
use crate::types::{Block, Pubkey, Signature, Slot, SuperblockSeal};

verus! {

/// A span keeps the position and the size that it was made of.
pub(crate) proof fn span_holds(offset: nat, size: nat)
    requires
        offset < Span::MAX_FILE_SIZE,
        size <= Span::MAX_SIZE,
    ensures
        span_at(offset, size).at() == offset,
        span_at(offset, size).width() == size,
{
    assert(offset * SIZE_LIMIT + size <= u64::MAX);
}

/// The last row of a batch with a key decides.
pub(crate) proof fn last_row_counts(
    rows: Map<Seq<u8>, Seq<u8>>,
    batch: Seq<(Seq<u8>, Seq<u8>)>,
    i: int,
    n: nat,
)
    requires
        0 <= i < n <= batch.len(),
        forall|j: int| i < j < n ==> (#[trigger] batch[j]).0 != batch[i].0,
    ensures
        added(rows, batch, n).contains_key(batch[i].0),
        added(rows, batch, n)[batch[i].0] == batch[i].1,
    decreases n,
{
    if i < n - 1 {
        last_row_counts(rows, batch, i, (n - 1) as nat);
        assert(batch[n - 1].0 != batch[i].0);
    }
}

/// What appending a file holds.
proof fn appended_file(file: FileState, bytes: Seq<u8>)
    requires
        file.wf(),
        file.appended(bytes) is Some,
    ensures
        file.appended(bytes)->0.contents == file.contents + bytes,
        file.appended(bytes)->0.wf(),
{
}

/// A persisted file has everything in the file.
proof fn persisted_file(file: FileState)
    requires
        file.wf(),
        file.persisted() is Some,
    ensures
        file.persisted()->0.contents == file.contents,
        file.persisted()->0.written() == file.contents,
        file.persisted()->0.wf(),
{
    assert(file.persisted()->0.written() =~= file.contents);
}

/// What the end of a block does to the active superblock.
pub(crate) proof fn block_effect(s: AppenderState, block: Block, used: u64)
    requires
        s.wf(),
        s.block(block, used) is Ok,
    ensures
        ({
            let after = s.block(block, used)->Ok_0;
            let batch = s.batch.push(
                (
                    block_row(block.slot),
                    crate::bytes::le_bytes(
                        span_at(
                            s.head().blockstore.contents.len(),
                            entry_bytes(EntryView::Block(block)).len(),
                        ).bits as nat,
                        8,
                    ),
                ),
            );
            &&& after.head().id == s.head().id
            &&& after.head().rows == added(s.head().rows, batch, batch.len())
            &&& after.head().blockstore.written() == s.head().blockstore.contents + entry_bytes(
                EntryView::Block(block),
            )
            &&& after.head().executions.written() == s.head().executions.contents
            &&& after.ledger.dictionary == s.ledger.dictionary
            &&& after.ledger.superblocks.len() > 0
            &&& after.head().id >= after.ledger.oldest()
        }),
{
    let (written, span) = s.wrote(EntryView::Block(block))->Ok_0;
    let published = written.published(Some(block.slot))->Ok_0;
    let indexed = published.indexed(block.slot, span);
    let sb = s.head();
    let n = s.ledger.superblocks.len();
    appended_file(sb.blockstore, entry_bytes(EntryView::Block(block)));
    assert(written.head().executions == sb.executions);
    persisted_file(written.head().blockstore);
    persisted_file(sb.executions);
    assert(published.head().rows == sb.rows);
    if used >= s.size_limit {
        let synced = indexed.published(None)->Ok_0;
        persisted_file(indexed.head().blockstore);
        persisted_file(indexed.head().executions);
        assert(synced.head().rows == indexed.head().rows);
        let first = synced.ledger.superblocks.first();
        if first.id < synced.ledger.meta.head {
            assert(synced.ledger.superblocks.len() == n);
            if n == 1 {
                assert(synced.ledger.superblocks.first() == synced.head());
            }
            assert(synced.truncated().ledger.superblocks.last() == synced.head());
        }
    }
}

/// What was appended comes back: a transaction whose execution was appended after it is
/// read, with its execution and its status, once its block has ended.
pub proof fn recorded_transaction_is_read(
    s: AppenderState,
    signature: Signature,
    payload: Seq<u8>,
    execution: ExecutionView,
    accounts: Seq<Pubkey>,
    block: Block,
    used: u64,
)
    requires
        s.wf(),
        execution.header.signature == signature,
        outcome_ok(execution.header.result),
        execution.details.len() <= MAX_EXECUTION_DETAILS_SIZE,
        crate::ledger::appender::restores(s, execution.details),
        s.transaction(signature, payload) is Ok,
        s.transaction(signature, payload)->Ok_0.execution(execution, accounts) is Ok,
        s.transaction(signature, payload)->Ok_0.execution(execution, accounts)->Ok_0.block(
            block,
            used,
        ) is Ok,
    ensures
        ({
            let after = s.transaction(signature, payload)->Ok_0.execution(
                execution,
                accounts,
            )->Ok_0.block(block, used)->Ok_0;
            &&& read_transaction(
                after.ledger.superblocks,
                after.ledger.oldest(),
                signature,
                after.ledger.dictionary,
            ) == Ok::<Option<TransactionResponseView>, LedgerError>(
                Some(TransactionResponseView { transaction: payload, execution }),
            )
            &&& read_status(after.ledger.superblocks, after.ledger.oldest(), signature) == Ok::<
                Option<TransactionStatus>,
                LedgerError,
            >(
                Some(
                    TransactionStatus {
                        result: execution.header.result,
                        slot: execution.header.slot,
                    },
                ),
            )
        }),
{
    let entry = EntryView::Transaction(payload);
    let sent = entry_bytes(entry);
    let s1 = s.transaction(signature, payload)->Ok_0;
    let s2 = s1.execution(execution, accounts)->Ok_0;
    let after = s2.block(block, used)->Ok_0;
    let sb = s.head();
    let dictionary = s.ledger.dictionary;
    let frame = details_frame(execution.details, dictionary)->0;
    let record = header_bytes(execution.header) + frame;
    let span = TxSpan {
        blockstore: span_at(sb.blockstore.contents.len(), sent.len()),
        execution: span_at(sb.executions.contents.len(), record.len()),
    };
    appended_file(sb.blockstore, sent);
    appended_file(sb.executions, record);
    crate::ledger::codec::entry_length(entry);
    assert(payload.len() <= u64::MAX) by {
        assert(sent.len() >= payload.len());
    }
    assert(s1.head().executions == sb.executions);
    assert(s1.head().blockstore.contents == sb.blockstore.contents + sent);
    assert(s2.head().blockstore == s1.head().blockstore);
    assert(s2.head().executions.contents == sb.executions.contents + record);
    assert(s1.wf()) by {
        head_change_wf(s, s1);
    }
    assert(s2.wf()) by {
        head_change_wf(s1, s2);
    }
    block_effect(s2, block, used);
    let head = after.head();
    span_holds(sb.blockstore.contents.len(), sent.len());
    crate::bytes::u64_spellings(execution.header.slot, 0);
    assert(record.len() > 0);
    span_holds(sb.executions.contents.len(), record.len());
    let ended = entry_bytes(EntryView::Block(block));
    let rows = s.batch.push((transaction_row(signature), transaction_value(span))) + mentions(
        accounts,
        span.execution,
    );
    let batch = rows.push(
        (
            block_row(block.slot),
            crate::bytes::le_bytes(
                span_at(s2.head().blockstore.contents.len(), ended.len()).bits as nat,
                8,
            ),
        ),
    );
    let at = s.batch.len() as int;
    assert(batch[at] == (transaction_row(signature), transaction_value(span)));
    assert forall|j: int| at < j < batch.len() implies (#[trigger] batch[j]).0 != batch[at].0 by {
        if j < rows.len() {
            let account = accounts[j - at - 1];
            assert(batch[j].0 == account_row(account, span.execution));
            crate::ledger::index::namespaces_are_apart(
                signature,
                block.slot,
                account,
                span.execution,
            );
        } else {
            crate::ledger::index::namespaces_are_apart(
                signature,
                block.slot,
                block.hash,
                span.execution,
            );
        }
    }
    last_row_counts(sb.rows, batch, at, batch.len());
    crate::ledger::index::indexed_transaction_is_found(head.rows, signature, span);
    let written = head.blockstore.written();
    let from = sb.blockstore.contents.len() as int;
    assert(written.subrange(from, from + sent.len()) =~= sent);
    assert(sent + Seq::<u8>::empty() =~= sent);
    crate::ledger::codec::entry_roundtrip(entry, Seq::empty());
    assert(entry_at(head, span.blockstore) == Ok::<EntryView, LedgerError>(entry));
    let executed = head.executions.written();
    let begin = sb.executions.contents.len() as int;
    assert(executed.subrange(begin, begin + record.len()) =~= record);
    crate::ledger::codec::header_roundtrip(execution.header, frame);
    assert(record.skip(header_bytes(execution.header).len() as int) =~= frame);
    assert(execution_at(head, span.execution, dictionary) == Ok::<ExecutionView, LedgerError>(
        execution,
    ));
    assert(reaches(after.ledger.superblocks, after.ledger.oldest()));
}

/// Replacing the files of the active superblock keeps the state well-formed.
proof fn head_change_wf(s: AppenderState, t: AppenderState)
    requires
        s.wf(),
        t.ledger == s.with_head(t.head()).ledger,
        t.ledger.superblocks.len() > 0,
        t.head().id == s.head().id,
        t.head().meta == s.head().meta,
        t.head().blockstore.wf(),
        t.head().executions.wf(),
    ensures
        t.wf(),
{
    let old_views = s.ledger.superblocks;
    let new_views = t.ledger.superblocks;
    assert forall|i: int, j: int| 0 <= i < j < new_views.len() implies (#[trigger] new_views[i]).id
        < (#[trigger] new_views[j]).id by {
        assert(old_views[i].id < old_views[j].id);
    }
    assert forall|i: int| 0 <= i < new_views.len() implies {
        let sb = #[trigger] new_views[i];
        &&& sb.blockstore.wf()
        &&& sb.executions.wf()
        &&& sb.meta.range.end < u64::MAX
    } by {
        if i < new_views.len() - 1 {
            assert(new_views[i] == old_views[i]);
        } else {
            assert(old_views[i] == s.head());
        }
    }
}

/// A record is never half-written: a transaction that was appended without its execution adds
/// nothing to the index, and an execution without its transaction changes nothing at all.
pub proof fn incomplete_records_stay_out(
    s: AppenderState,
    signature: Signature,
    payload: Seq<u8>,
    execution: ExecutionView,
    accounts: Seq<Pubkey>,
)
    requires
        s.wf(),
    ensures
        s.transaction(signature, payload) matches Ok(next) ==> next.batch == s.batch
            && next.head().rows == s.head().rows,
        !s.pending.contains_key(execution.header.signature@) ==> s.execution(execution, accounts)
            == Ok::<AppenderState, LedgerError>(s),
{
}

/// Retention never drops the active superblock, drops at most one at a time, and leaves the
/// retained slots after those that were dropped.
pub proof fn truncation_keeps_the_head(s: AppenderState)
    requires
        s.wf(),
    ensures
        s.truncated().head() == s.head(),
        s.truncated().ledger.meta.head == s.ledger.meta.head,
        s.truncated().ledger.superblocks.len() + 1 >= s.ledger.superblocks.len(),
        s.truncated() == s || s.truncated().ledger.meta.range.start
            == s.ledger.superblocks.first().meta.range.end + 1,
{
    let views = s.ledger.superblocks;
    if views.first().id < s.ledger.meta.head {
        if views.len() == 1 {
            assert(views.first() == views.last());
        }
        assert(s.truncated().ledger.superblocks.last() == views.last());
    }
}

/// Bytes of several entries.
pub open spec fn stream(entries: Seq<EntryView>) -> Seq<u8>
    decreases entries.len(),
{
    if entries.len() == 0 {
        Seq::empty()
    } else {
        entry_bytes(entries[0]) + stream(entries.skip(1))
    }
}

/// Appending an entry appends its bytes.
pub proof fn stream_grows(entries: Seq<EntryView>, entry: EntryView)
    ensures
        stream(entries.push(entry)) == stream(entries) + entry_bytes(entry),
    decreases entries.len(),
{
    let all = entries.push(entry);
    if entries.len() == 0 {
        assert(all.skip(1) =~= Seq::<EntryView>::empty());
        assert(all[0] == entry);
        assert(stream(all.skip(1)) =~= Seq::<u8>::empty());
        assert(stream(all) =~= stream(entries) + entry_bytes(entry));
    } else {
        stream_grows(entries.skip(1), entry);
        assert(all.skip(1) =~= entries.skip(1).push(entry));
        assert(stream(all) =~= stream(entries) + entry_bytes(entry));
    }
}

/// Entries come back from a stream exactly as they were written, in order.
pub proof fn stream_is_replayed(entries: Seq<EntryView>, so_far: Seq<EntryView>)
    requires
        forall|i: int| 0 <= i < entries.len() ==> entry_fits(#[trigger] entries[i]),
    ensures
        entries_in(stream(entries), so_far) == (so_far + entries, Ok::<(), LedgerError>(())),
    decreases entries.len(),
{
    let bytes = stream(entries);
    if entries.len() == 0 {
        assert(so_far + entries =~= so_far);
    } else {
        let first = entries[0];
        let rest = stream(entries.skip(1));
        first_entry(first, rest);
        assert forall|i: int| 0 <= i < entries.skip(1).len() implies entry_fits(
            #[trigger] entries.skip(1)[i],
        ) by {
            assert(entries.skip(1)[i] == entries[i + 1]);
        }
        stream_is_replayed(entries.skip(1), so_far.push(first));
        assert(so_far.push(first) + entries.skip(1) =~= so_far + entries);
    }
}

/// What a stream begins with.
proof fn first_entry(first: EntryView, rest: Seq<u8>)
    requires
        entry_fits(first),
    ensures
        ({
            let bytes = entry_bytes(first) + rest;
            let n = entry_bytes(first).len();
            &&& bytes.len() > 0
            &&& parse_entry(bytes) == Some((first, n))
            &&& bytes.skip(n as int) == rest
        }),
{
    fits_small(first);
    crate::ledger::codec::entry_length(first);
    crate::ledger::codec::entry_roundtrip(first, rest);
    assert((entry_bytes(first) + rest).skip(entry_bytes(first).len() as int) =~= rest);
}

/// A superblock that was published gives back the entries that were appended to it.
pub proof fn published_superblock_is_replayed(
    sb: SuperblockView,
    entries: Seq<EntryView>,
    after: u64,
    so_far: Seq<EntryView>,
)
    requires
        sb.id > after,
        sb.blockstore.buffered == 0,
        sb.blockstore.contents == stream(entries),
        sb.meta.cursors.blockstore == sb.blockstore.contents.len(),
        forall|i: int| 0 <= i < entries.len() ==> entry_fits(#[trigger] entries[i]),
    ensures
        read_replay(seq![sb], after, so_far) == (so_far + entries, Ok::<(), LedgerError>(())),
{
    let list = seq![sb];
    assert(published(sb) =~= stream(entries));
    stream_is_replayed(entries, so_far);
    assert(list.drop_first() =~= Seq::<SuperblockView>::empty());
    assert(read_replay(list.drop_first(), after, so_far + entries) == (
        so_far + entries,
        Ok::<(), LedgerError>(()),
    ));
}

/// A payload that fits is short.
proof fn fits_small(entry: EntryView)
    requires
        entry_fits(entry),
    ensures
        entry matches EntryView::Transaction(payload) ==> payload.len() <= u64::MAX,
{
    if let EntryView::Transaction(payload) = entry {
        assert(entry_bytes(entry).len() >= payload.len());
    }
}

/// Entries that are transactions with these payloads.
pub open spec fn transactions(payloads: Seq<Seq<u8>>) -> Seq<EntryView> {
    payloads.map_values(|payload: Seq<u8>| EntryView::Transaction(payload))
}

/// A block read gives exactly the transactions between two block ends, in order.
pub proof fn block_holds_its_transactions(
    sb: SuperblockView,
    dictionary: Seq<u8>,
    payloads: Seq<Seq<u8>>,
    so_far: Gathered,
)
    requires
        forall|i: int|
            0 <= i < payloads.len() ==> entry_fits(
                EntryView::Transaction(#[trigger] payloads[i]),
            ),
    ensures
        gather(
            sb,
            BlockDetails::Transactions,
            dictionary,
            stream(transactions(payloads)),
            so_far,
        ) == Ok::<Gathered, LedgerError>(
            Gathered { transactions: so_far.transactions + payloads, ..so_far },
        ),
    decreases payloads.len(),
{
    let entries = transactions(payloads);
    let bytes = stream(entries);
    if payloads.len() == 0 {
        assert(so_far.transactions + payloads =~= so_far.transactions);
    } else {
        let first = EntryView::Transaction(payloads[0]);
        assert(entries[0] == first);
        let rest = stream(entries.skip(1));
        first_entry(first, rest);
        assert(entries.skip(1) =~= transactions(payloads.skip(1)));
        assert forall|i: int| 0 <= i < payloads.skip(1).len() implies entry_fits(
            EntryView::Transaction(#[trigger] payloads.skip(1)[i]),
        ) by {
            assert(payloads.skip(1)[i] == payloads[i + 1]);
        }
        let next = Gathered { transactions: so_far.transactions.push(payloads[0]), ..so_far };
        block_holds_its_transactions(sb, dictionary, payloads.skip(1), next);
        assert(next.transactions + payloads.skip(1) =~= so_far.transactions + payloads);
    }
}

/// A transaction can be told with its execution: it can be read, and where the index knows it, its
/// execution is there.
pub open spec fn tellable(sb: SuperblockView, dictionary: Seq<u8>, payload: Seq<u8>) -> bool {
    signature_of(payload) matches Ok(signature) && match find_transaction(sb.rows, signature) {
        Ok(Some(spans)) => execution_at(sb, spans.execution, dictionary) is Ok,
        Ok(None) => true,
        Err(_) => false,
    }
}

proof fn gathering_succeeds(
    sb: SuperblockView,
    details: BlockDetails,
    dictionary: Seq<u8>,
    payloads: Seq<Seq<u8>>,
    so_far: Gathered,
)
    requires
        forall|i: int|
            0 <= i < payloads.len() ==> entry_fits(
                EntryView::Transaction(#[trigger] payloads[i]),
            ) && tellable(sb, dictionary, payloads[i]),
    ensures
        gather(sb, details, dictionary, stream(transactions(payloads)), so_far) is Ok,
    decreases payloads.len(),
{
    let entries = transactions(payloads);
    if payloads.len() > 0 {
        let rest = payloads.skip(1);
        assert(entries.skip(1) =~= transactions(rest));
        let first = EntryView::Transaction(payloads[0]);
        assert(entries[0] == first);
        assert(entry_fits(first) && tellable(sb, dictionary, payloads[0]));
        first_entry(first, stream(transactions(rest)));
        assert(gathered_one(sb, details, dictionary, payloads[0], so_far) is Ok);
        assert forall|i: int| 0 <= i < rest.len() implies entry_fits(
            EntryView::Transaction(#[trigger] rest[i]),
        ) && tellable(sb, dictionary, rest[i]) by {
            assert(rest[i] == payloads[i + 1]);
        }
        gathering_succeeds(
            sb,
            details,
            dictionary,
            rest,
            gathered_one(sb, details, dictionary, payloads[0], so_far)->Ok_0,
        );
    }
}

/// A block is read with exactly the transactions that were recorded since the block before it, in
/// their order, and with what it says itself. The first block of a superblock has those from the
/// beginning on. It can be read with signatures and with executions, too, if each of the
/// transactions can be told.
pub proof fn blocks_are_read_with_their_transactions(
    sb: SuperblockView,
    slot: Slot,
    start: int,
    payloads: Seq<Seq<u8>>,
    block: Block,
    span: Span,
    dictionary: Seq<u8>,
)
    requires
        slot > 0,
        match find_block(sb.rows, (slot - 1) as u64) {
            Ok(Some(previous)) => start == previous.at() + previous.width(),
            Ok(None) => start == 0,
            Err(_) => false,
        },
        forall|i: int|
            0 <= i < payloads.len() ==> entry_fits(
                EntryView::Transaction(#[trigger] payloads[i]),
            ),
        ({
            let written = sb.blockstore.written();
            let body = stream(transactions(payloads));
            let end = entry_bytes(EntryView::Block(block));
            &&& span.at() == start + body.len()
            &&& span.width() == end.len()
            &&& span.at() + span.width() <= written.len()
            &&& written.subrange(start, span.at() as int) == body
            &&& written.subrange(span.at() as int, span.at() + span.width()) == end
        }),
    ensures
        block_response(sb, slot, BlockDetails::Transactions, span, dictionary) == Ok::<
            BlockResponseView,
            LedgerError,
        >(BlockResponseView::WithTransactions(block, payloads)),
        block_response(sb, slot, BlockDetails::Boundary, span, dictionary) == Ok::<
            BlockResponseView,
            LedgerError,
        >(BlockResponseView::Bare(block)),
        (forall|i: int|
            0 <= i < payloads.len() ==> tellable(sb, dictionary, #[trigger] payloads[i]))
            ==> block_response(sb, slot, BlockDetails::Signatures, span, dictionary) is Ok
            && block_response(sb, slot, BlockDetails::Full, span, dictionary) is Ok,
{
    if forall|i: int| 0 <= i < payloads.len() ==> tellable(sb, dictionary, #[trigger] payloads[i]) {
        gathering_succeeds(sb, BlockDetails::Signatures, dictionary, payloads, nothing());
        gathering_succeeds(sb, BlockDetails::Full, dictionary, payloads, nothing());
    }
    let written = sb.blockstore.written();
    let end = entry_bytes(EntryView::Block(block));
    crate::ledger::codec::entry_length(EntryView::Block(block));
    crate::ledger::codec::entry_roundtrip(EntryView::Block(block), Seq::empty());
    assert(end + Seq::<u8>::empty() =~= end);
    assert(entry_at(sb, span) == Ok::<EntryView, LedgerError>(EntryView::Block(block)));
    block_holds_its_transactions(sb, dictionary, payloads, nothing());
    assert(nothing().transactions + payloads =~= payloads);
    assert(bytes_at(written, start, span.at() - start) == Some(
        written.subrange(start, span.at() as int),
    ));
}

/// Every entry of a page is within the limit and before the end of the history.
pub open spec fn page_ok(
    list: Seq<AccountSignature>,
    so_far: Seq<AccountSignature>,
    limit: nat,
    until: Option<Signature>,
) -> bool {
    &&& list.len() <= limit || list.len() == so_far.len()
    &&& so_far.len() <= list.len()
    &&& list.take(so_far.len() as int) == so_far
    &&& forall|i: int|
        so_far.len() <= i < list.len() ==> until != Some((#[trigger] list[i]).signature)
}

/// A page goes on behind what was there, within the limit.
pub(crate) proof fn page_is_ok(
    sb: SuperblockView,
    spans: Seq<Result<Span, LedgerError>>,
    limit: nat,
    until: Option<Signature>,
    so_far: Seq<AccountSignature>,
)
    ensures
        history_of(sb, spans, limit, until, so_far) matches Page::Continue(list) ==> page_ok(
            list,
            so_far,
            limit,
            until,
        ),
        history_of(sb, spans, limit, until, so_far) matches Page::Done(list) ==> page_ok(
            list,
            so_far,
            limit,
            until,
        ),
    decreases spans.len(),
{
    assert(so_far.take(so_far.len() as int) =~= so_far);
    if spans.len() > 0 && so_far.len() < limit {
        if let Ok(span) = spans[0] {
            if let Ok(header) = header_at(sb, span) {
                if until != Some(header.signature) {
                    if let Ok(blocktime) = crate::ledger::reader::time_of(
                        sb,
                        header.slot,
                        so_far,
                    ) {
                        let entry = AccountSignature {
                            signature: header.signature,
                            slot: header.slot,
                            result: header.result,
                            blocktime,
                        };
                        let next = so_far.push(entry);
                        assert(next.take(so_far.len() as int) =~= so_far);
                        assert(page_ok(next, so_far, limit, until));
                        page_is_ok(sb, spans.skip(1), limit, until, next);
                        match history_of(sb, spans.skip(1), limit, until, next) {
                            Page::Continue(list) => {
                                page_extends(list, next, so_far, limit, until);
                            },
                            Page::Done(list) => {
                                page_extends(list, next, so_far, limit, until);
                            },
                            Page::Failed(_) => {},
                        }
                    }
                }
            }
        }
    }
}

proof fn page_extends(
    list: Seq<AccountSignature>,
    middle: Seq<AccountSignature>,
    so_far: Seq<AccountSignature>,
    limit: nat,
    until: Option<Signature>,
)
    requires
        page_ok(list, middle, limit, until),
        page_ok(middle, so_far, limit, until),
    ensures
        page_ok(list, so_far, limit, until),
{
    assert(list.take(so_far.len() as int) =~= so_far) by {
        assert forall|i: int| 0 <= i < so_far.len() implies list[i] == so_far[i] by {
            assert(list.take(middle.len() as int)[i] == middle[i]);
            assert(middle.take(so_far.len() as int)[i] == so_far[i]);
        }
    }
    assert forall|i: int| so_far.len() <= i < list.len() implies until != Some(
        (#[trigger] list[i]).signature,
    ) by {
        if i < middle.len() {
            assert(list.take(middle.len() as int)[i] == middle[i]);
        }
    }
}

/// A history has at most as many entries as were asked for, and never the signature at which
/// it was to end.
pub proof fn history_is_bounded(
    list: Seq<SuperblockView>,
    oldest: int,
    pubkey: Pubkey,
    limit: nat,
    before: Option<Signature>,
    until: Option<Signature>,
    so_far: Seq<AccountSignature>,
)
    ensures
        read_history(list, oldest, pubkey, limit, before, until, so_far) matches Ok(found)
            ==> page_ok(found, so_far, limit, until),
    decreases list.len(),
{
    assert(so_far.take(so_far.len() as int) =~= so_far);
    if reaches(list, oldest) {
        let sb = list.last();
        let rest = list.drop_last();
        let upper = match before {
            Some(signature) => match find_transaction(sb.rows, signature) {
                Ok(Some(cutoff)) => Some(cutoff.execution),
                _ => None,
            },
            None => None,
        };
        let spans = crate::ledger::reader::account_spans(sb, pubkey, upper);
        page_is_ok(sb, spans, limit, until, so_far);
        history_is_bounded(rest, oldest, pubkey, limit, before, until, so_far);
        if let Page::Continue(found) = history_of(sb, spans, limit, until, so_far) {
            history_is_bounded(rest, oldest, pubkey, limit, None, until, found);
            if let Ok(more) = read_history(rest, oldest, pubkey, limit, None, until, found) {
                page_extends(more, found, so_far, limit, until);
            }
        }
    }
}

/// The first entries of a history, no more than `limit`.
pub open spec fn capped(list: Seq<AccountSignature>, limit: nat) -> Seq<AccountSignature> {
    if list.len() <= limit {
        list
    } else {
        list.take(limit as int)
    }
}

proof fn page_is_capped(
    sb: SuperblockView,
    spans: Seq<Result<Span, LedgerError>>,
    fewer: nat,
    more: nat,
    until: Option<Signature>,
    so_far: Seq<AccountSignature>,
)
    requires
        so_far.len() <= fewer <= more,
    ensures
        match history_of(sb, spans, more, until, so_far) {
            Page::Continue(found) => {
                ||| found.len() <= fewer && history_of(sb, spans, fewer, until, so_far)
                    == Page::Continue(found)
                ||| found.len() >= fewer && history_of(sb, spans, fewer, until, so_far)
                    == Page::Done(found.take(fewer as int))
            },
            Page::Done(found) => history_of(sb, spans, fewer, until, so_far) == Page::Done(
                capped(found, fewer),
            ),
            Page::Failed(_) => true,
        },
    decreases spans.len(),
{
    page_is_ok(sb, spans, more, until, so_far);
    if spans.len() > 0 && so_far.len() < fewer {
        if let Ok(span) = spans[0] {
            if let Ok(header) = header_at(sb, span) {
                if until != Some(header.signature) {
                    if let Ok(blocktime) = crate::ledger::reader::time_of(
                        sb,
                        header.slot,
                        so_far,
                    ) {
                        let next = so_far.push(
                            AccountSignature {
                                signature: header.signature,
                                slot: header.slot,
                                result: header.result,
                                blocktime,
                            },
                        );
                        page_is_capped(sb, spans.skip(1), fewer, more, until, next);
                    }
                }
            }
        }
    } else if spans.len() > 0 {
        match history_of(sb, spans, more, until, so_far) {
            Page::Continue(found) => {
                assert(found.take(fewer as int) =~= so_far);
            },
            Page::Done(found) => {
                assert(capped(found, fewer) =~= found.take(fewer as int));
                assert(found.take(fewer as int) =~= so_far);
            },
            Page::Failed(_) => {},
        }
    }
}

/// Asking for fewer entries of a history gives the first of those that asking for more gives.
pub proof fn shorter_histories_begin_longer_ones(
    list: Seq<SuperblockView>,
    oldest: int,
    pubkey: Pubkey,
    fewer: nat,
    more: nat,
    before: Option<Signature>,
    until: Option<Signature>,
    so_far: Seq<AccountSignature>,
)
    requires
        so_far.len() <= fewer <= more,
    ensures
        read_history(list, oldest, pubkey, more, before, until, so_far) matches Ok(found)
            ==> read_history(list, oldest, pubkey, fewer, before, until, so_far) == Ok::<
            Seq<AccountSignature>,
            LedgerError,
        >(capped(found, fewer)),
    decreases list.len(),
{
    if reaches(list, oldest) {
        let sb = list.last();
        let rest = list.drop_last();
        let upper = match before {
            Some(signature) => match find_transaction(sb.rows, signature) {
                Ok(Some(cutoff)) => Some(cutoff.execution),
                _ => None,
            },
            None => None,
        };
        let spans = crate::ledger::reader::account_spans(sb, pubkey, upper);
        page_is_capped(sb, spans, fewer, more, until, so_far);
        shorter_histories_begin_longer_ones(
            rest,
            oldest,
            pubkey,
            fewer,
            more,
            before,
            until,
            so_far,
        );
        if let Page::Continue(found) = history_of(sb, spans, more, until, so_far) {
            if found.len() <= fewer {
                shorter_histories_begin_longer_ones(
                    rest,
                    oldest,
                    pubkey,
                    fewer,
                    more,
                    None,
                    until,
                    found,
                );
            }
            history_is_bounded(rest, oldest, pubkey, more, None, until, found);
            if let Ok(all) = read_history(rest, oldest, pubkey, more, None, until, found) {
                if found.len() >= fewer {
                    assert(capped(all, fewer) =~= found.take(fewer as int)) by {
                        assert forall|i: int| 0 <= i < fewer implies all[i] == found[i] by {
                            assert(all.take(found.len() as int)[i] == found[i]);
                        }
                    }
                }
            }
        }
    }
}

/// The index of a superblock leads from each slot to the end of that slot's block.
pub open spec fn slots_agree(sb: SuperblockView) -> bool {
    forall|slot: Slot, span: Span|
        #![trigger find_block(sb.rows, slot), entry_at(sb, span)]
        find_block(sb.rows, slot) == Ok::<Option<Span>, LedgerError>(Some(span)) ==> (entry_at(
            sb,
            span,
        ) matches Ok(EntryView::Block(block)) ==> block.slot == slot)
}

/// Blocks with descending slots, all of them from `low` on.
pub open spec fn slots_descend(blocks: Seq<Block>, low: int) -> bool {
    &&& forall|i: int| 0 <= i < blocks.len() ==> low <= (#[trigger] blocks[i]).slot
    &&& forall|i: int, j: int|
        0 <= i < j < blocks.len() ==> (#[trigger] blocks[j]).slot < (#[trigger] blocks[i]).slot
}

proof fn walk_descends(sb: SuperblockView, from: int, next: int, so_far: Seq<Block>)
    requires
        slots_agree(sb),
        from >= 0,
        next <= u64::MAX,
        slots_descend(so_far, next),
    ensures
        blocks_in(sb, from, next, so_far) matches Ok((rest, found)) ==> rest <= next
            && slots_descend(found, rest) && found.len() >= so_far.len() && found.take(
            so_far.len() as int,
        ) == so_far && (from <= next ==> from <= rest),
    decreases next - from,
{
    assert(so_far.take(so_far.len() as int) =~= so_far);
    if next > from && !no_block(sb) && next - 1 >= sb.meta.range.start {
        let slot = (next - 1) as u64;
        assert(slots_descend(so_far, next - 1));
        match find_block(sb.rows, slot) {
            Ok(Some(span)) => match entry_at(sb, span) {
                Ok(EntryView::Block(block)) => {
                    let now = so_far.push(block);
                    assert(slots_descend(now, next - 1));
                    walk_descends(sb, from, next - 1, now);
                    if let Ok((rest, found)) = blocks_in(sb, from, next - 1, now) {
                        assert(found.take(so_far.len() as int) =~= so_far) by {
                            assert forall|i: int| 0 <= i < so_far.len() implies found[i]
                                == so_far[i] by {
                                assert(found.take(now.len() as int)[i] == now[i]);
                            }
                        }
                    }
                },
                Ok(_) => {
                    walk_descends(sb, from, next - 1, so_far);
                },
                Err(_) => {},
            },
            Ok(None) => {
                walk_descends(sb, from, next - 1, so_far);
            },
            Err(_) => {},
        }
    }
}

/// A range read gives its blocks in order, each at most once, across superblocks too. The
/// ledger reverses the list that this speaks of.
pub proof fn range_read_is_ordered(
    list: Seq<SuperblockView>,
    oldest: int,
    from: int,
    next: int,
    so_far: Seq<Block>,
)
    requires
        forall|i: int| 0 <= i < list.len() ==> slots_agree(#[trigger] list[i]),
        0 <= from,
        next <= u64::MAX,
        slots_descend(so_far, next),
        from <= next || so_far.len() == 0,
    ensures
        read_blocks(list, oldest, from, next, so_far) matches Ok(found) ==> slots_descend(
            found,
            from,
        ),
    decreases list.len(),
{
    if reaches(list, oldest) {
        let sb = list.last();
        assert(slots_agree(list[list.len() - 1]));
        walk_descends(sb, from, next, so_far);
        if let Ok((rest, found)) = blocks_in(sb, from, next, so_far) {
            if from > next {
                assert(found == so_far);
            }
            assert forall|i: int| 0 <= i < list.drop_last().len() implies slots_agree(
                #[trigger] list.drop_last()[i],
            ) by {
                assert(list.drop_last()[i] == list[i]);
            }
            range_read_is_ordered(list.drop_last(), oldest, from, rest, found);
        }
    }
}

proof fn walk_ends_below(sb: SuperblockView, from: int, next: int, so_far: Seq<Block>, to: int)
    requires
        slots_agree(sb),
        from >= 0,
        next <= to <= u64::MAX,
        forall|i: int| 0 <= i < so_far.len() ==> (#[trigger] so_far[i]).slot < to,
    ensures
        blocks_in(sb, from, next, so_far) matches Ok((rest, found)) ==> rest <= next && forall|i: int|
            0 <= i < found.len() ==> (#[trigger] found[i]).slot < to,
    decreases next - from,
{
    if next > from && !no_block(sb) && next - 1 >= sb.meta.range.start {
        match find_block(sb.rows, (next - 1) as u64) {
            Ok(Some(span)) => match entry_at(sb, span) {
                Ok(EntryView::Block(block)) => {
                    assert(block.slot == next - 1);
                    walk_ends_below(sb, from, next - 1, so_far.push(block), to);
                },
                Ok(_) => {
                    walk_ends_below(sb, from, next - 1, so_far, to);
                },
                Err(_) => {},
            },
            Ok(None) => {
                walk_ends_below(sb, from, next - 1, so_far, to);
            },
            Err(_) => {},
        }
    }
}

/// A range read gives no block at its end or beyond.
pub proof fn range_read_ends_below(
    list: Seq<SuperblockView>,
    oldest: int,
    from: int,
    next: int,
    so_far: Seq<Block>,
    to: int,
)
    requires
        forall|i: int| 0 <= i < list.len() ==> slots_agree(#[trigger] list[i]),
        0 <= from,
        next <= to <= u64::MAX,
        forall|i: int| 0 <= i < so_far.len() ==> (#[trigger] so_far[i]).slot < to,
    ensures
        read_blocks(list, oldest, from, next, so_far) matches Ok(found) ==> forall|i: int|
            0 <= i < found.len() ==> (#[trigger] found[i]).slot < to,
    decreases list.len(),
{
    if reaches(list, oldest) {
        assert(slots_agree(list[list.len() - 1]));
        walk_ends_below(list.last(), from, next, so_far, to);
        if let Ok((rest, found)) = blocks_in(list.last(), from, next, so_far) {
            assert forall|i: int| 0 <= i < list.drop_last().len() implies slots_agree(
                #[trigger] list.drop_last()[i],
            ) by {
                assert(list.drop_last()[i] == list[i]);
            }
            range_read_ends_below(list.drop_last(), oldest, from, rest, found, to);
        }
    }
}

proof fn walk_finds(
    sb: SuperblockView,
    from: int,
    next: int,
    so_far: Seq<Block>,
    slot: Slot,
    span: Span,
    block: Block,
)
    requires
        from <= slot < next <= u64::MAX,
        0 <= from,
        sb.meta.range.start <= slot,
        !no_block(sb),
        find_block(sb.rows, slot) == Ok::<Option<Span>, LedgerError>(Some(span)),
        entry_at(sb, span) == Ok::<EntryView, LedgerError>(EntryView::Block(block)),
    ensures
        blocks_in(sb, from, next, so_far) matches Ok((_, found)) ==> found.contains(block),
    decreases next - from,
{
    if next - 1 == slot {
        assert(so_far.push(block)[so_far.len() as int] == block);
        walk_keeps(sb, from, next - 1, so_far.push(block), block);
    } else {
        let top = (next - 1) as u64;
        if let Ok(Some(other)) = find_block(sb.rows, top) {
            if let Ok(EntryView::Block(b)) = entry_at(sb, other) {
                walk_finds(sb, from, next - 1, so_far.push(b), slot, span, block);
            } else {
                walk_finds(sb, from, next - 1, so_far, slot, span, block);
            }
        } else {
            walk_finds(sb, from, next - 1, so_far, slot, span, block);
        }
    }
}

proof fn walk_keeps(sb: SuperblockView, from: int, next: int, so_far: Seq<Block>, block: Block)
    requires
        so_far.contains(block),
    ensures
        blocks_in(sb, from, next, so_far) matches Ok((_, found)) ==> found.contains(block),
    decreases next - from,
{
    if next > from && !no_block(sb) && next - 1 >= sb.meta.range.start {
        let top = (next - 1) as u64;
        if let Ok(Some(other)) = find_block(sb.rows, top) {
            if let Ok(EntryView::Block(b)) = entry_at(sb, other) {
                let i = choose|i: int| 0 <= i < so_far.len() && so_far[i] == block;
                assert(so_far.push(b)[i] == block);
                walk_keeps(sb, from, next - 1, so_far.push(b), block);
            } else {
                walk_keeps(sb, from, next - 1, so_far, block);
            }
        } else {
            walk_keeps(sb, from, next - 1, so_far, block);
        }
    }
}

proof fn range_keeps(
    list: Seq<SuperblockView>,
    oldest: int,
    from: int,
    next: int,
    so_far: Seq<Block>,
    block: Block,
)
    requires
        so_far.contains(block),
    ensures
        read_blocks(list, oldest, from, next, so_far) matches Ok(found) ==> found.contains(block),
    decreases list.len(),
{
    if reaches(list, oldest) {
        walk_keeps(list.last(), from, next, so_far, block);
        if let Ok((rest, found)) = blocks_in(list.last(), from, next, so_far) {
            range_keeps(list.drop_last(), oldest, from, rest, found, block);
        }
    }
}

proof fn walk_stops_above(sb: SuperblockView, from: int, next: int, so_far: Seq<Block>, slot: int)
    requires
        from <= slot < next,
        no_block(sb) || slot < sb.meta.range.start,
    ensures
        blocks_in(sb, from, next, so_far) matches Ok((rest, _)) ==> slot < rest <= next,
    decreases next - from,
{
    if !no_block(sb) && next - 1 >= sb.meta.range.start {
        let top = (next - 1) as u64;
        if let Ok(Some(other)) = find_block(sb.rows, top) {
            if let Ok(EntryView::Block(b)) = entry_at(sb, other) {
                walk_stops_above(sb, from, next - 1, so_far.push(b), slot);
            } else {
                walk_stops_above(sb, from, next - 1, so_far, slot);
            }
        } else {
            walk_stops_above(sb, from, next - 1, so_far, slot);
        }
    }
}

/// A range read misses nothing: a block that a retained superblock holds is found, if every
/// newer superblock holds no block or begins after its slot.
pub proof fn range_read_is_complete(
    list: Seq<SuperblockView>,
    oldest: int,
    from: int,
    next: int,
    so_far: Seq<Block>,
    i: int,
    slot: Slot,
    span: Span,
    block: Block,
)
    requires
        0 <= from <= slot < next <= u64::MAX,
        0 <= i < list.len(),
        forall|j: int| i <= j < list.len() ==> (#[trigger] list[j]).id >= oldest,
        forall|j: int|
            i < j < list.len() ==> no_block(#[trigger] list[j]) || slot < list[j].meta.range.start,
        !no_block(list[i]),
        list[i].meta.range.start <= slot,
        find_block(list[i].rows, slot) == Ok::<Option<Span>, LedgerError>(Some(span)),
        entry_at(list[i], span) == Ok::<EntryView, LedgerError>(EntryView::Block(block)),
    ensures
        read_blocks(list, oldest, from, next, so_far) matches Ok(found) ==> found.contains(block),
    decreases list.len(),
{
    let last = list.len() - 1;
    assert(list[last] == list.last());
    assert(reaches(list, oldest));
    if i == last {
        walk_finds(list.last(), from, next, so_far, slot, span, block);
        if let Ok((rest, found)) = blocks_in(list.last(), from, next, so_far) {
            range_keeps(list.drop_last(), oldest, from, rest, found, block);
        }
    } else {
        walk_stops_above(list.last(), from, next, so_far, slot as int);
        if let Ok((rest, found)) = blocks_in(list.last(), from, next, so_far) {
            let older = list.drop_last();
            assert(forall|j: int| 0 <= j < older.len() ==> older[j] == list[j]);
            range_read_is_complete(
                older,
                oldest,
                from,
                rest,
                found,
                i,
                slot,
                span,
                block,
            );
        }
    }
}

/// `b` has the rows of `a`, and its files begin with what is in the files of `a`.
pub open spec fn extends(a: SuperblockView, b: SuperblockView) -> bool {
    &&& a.id == b.id
    &&& a.rows == b.rows
    &&& a.blockstore.written().len() <= b.blockstore.written().len()
    &&& b.blockstore.written().take(a.blockstore.written().len() as int)
        == a.blockstore.written()
    &&& a.executions.written().len() <= b.executions.written().len()
    &&& b.executions.written().take(a.executions.written().len() as int)
        == a.executions.written()
}

proof fn prefix_reads(short: Seq<u8>, long: Seq<u8>, offset: int, size: int)
    requires
        short.len() <= long.len(),
        long.take(short.len() as int) == short,
        bytes_at(short, offset, size) is Some,
    ensures
        bytes_at(long, offset, size) == bytes_at(short, offset, size),
{
    let more = long.skip(short.len() as int);
    assert(short + more =~= long);
    crate::ledger::storage::appended_bytes_stay(short, more, offset, size);
}

proof fn extension_keeps_entry(a: SuperblockView, b: SuperblockView, span: Span)
    requires
        extends(a, b),
        transaction_at(a, span) is Ok,
    ensures
        transaction_at(b, span) == transaction_at(a, span),
{
    prefix_reads(
        a.blockstore.written(),
        b.blockstore.written(),
        span.at() as int,
        span.width() as int,
    );
}

proof fn extension_keeps_execution(
    a: SuperblockView,
    b: SuperblockView,
    span: Span,
    dictionary: Seq<u8>,
)
    requires
        extends(a, b),
        execution_at(a, span, dictionary) is Ok,
    ensures
        execution_at(b, span, dictionary) == execution_at(a, span, dictionary),
{
    prefix_reads(
        a.executions.written(),
        b.executions.written(),
        span.at() as int,
        span.width() as int,
    );
}

proof fn flushing_extends(file: FileState, more: Seq<u8>, after: FileState)
    requires
        file.wf(),
        after.buffered == 0,
        after.contents == file.contents + more,
    ensures
        file.written().len() <= after.written().len(),
        after.written().take(file.written().len() as int) == file.written(),
{
    assert(after.written() =~= after.contents);
    assert(after.written().take(file.written().len() as int) =~= file.written());
}

/// Sealing a superblock keeps everything in it readable: a transaction that was read before
/// is read in the same way afterwards.
pub proof fn sealing_keeps_reads(
    s: AppenderState,
    seal: SuperblockSeal,
    bootstrap: bool,
    signature: Signature,
)
    requires
        s.wf(),
        seal.id == s.ledger.meta.head,
        seal.id < u64::MAX - 1,
        s.sealed(seal, bootstrap) is Ok,
        read_transaction(
            s.ledger.superblocks,
            s.ledger.oldest(),
            signature,
            s.ledger.dictionary,
        ) matches Ok(Some(_)),
    ensures
        ({
            let after = s.sealed(seal, bootstrap)->Ok_0;
            read_transaction(
                after.ledger.superblocks,
                after.ledger.oldest(),
                signature,
                after.ledger.dictionary,
            ) == read_transaction(
                s.ledger.superblocks,
                s.ledger.oldest(),
                signature,
                s.ledger.dictionary,
            )
        }),
{
    let entry = EntryView::Superblock(seal);
    let (written, _) = s.wrote(entry)->Ok_0;
    let synced = written.published(None)->Ok_0;
    let after = s.sealed(seal, bootstrap)->Ok_0;
    let list = s.ledger.superblocks;
    let n = list.len();
    let new_list = after.ledger.superblocks;
    let closed = new_list.drop_last();
    let a = s.head();
    let b = closed.last();
    appended_file(a.blockstore, entry_bytes(entry));
    assert(written.head().executions == a.executions);
    persisted_file(written.head().blockstore);
    persisted_file(a.executions);
    assert(synced.head().blockstore.contents == a.blockstore.contents + entry_bytes(entry));
    assert(synced.head().executions.contents == a.executions.contents);
    assert(closed.len() == n);
    assert(closed.drop_last() =~= list.drop_last());
    assert(b.blockstore.contents == a.blockstore.contents + entry_bytes(entry));
    assert(b.executions.contents =~= a.executions.contents + Seq::<u8>::empty());
    flushing_extends(a.blockstore, entry_bytes(entry), b.blockstore);
    flushing_extends(a.executions, Seq::empty(), b.executions);
    assert(extends(a, b));
    crate::ledger::reader::ids_grow(list, n - 1);
    assert(after.ledger.oldest() == s.ledger.oldest());
    let opened = new_list.last();
    assert(opened.rows == Map::<Seq<u8>, Seq<u8>>::empty());
    assert(find_transaction(opened.rows, signature) == Ok::<Option<TxSpan>, LedgerError>(None));
    let oldest = s.ledger.oldest();
    let dictionary = s.ledger.dictionary;
    assert(reaches(new_list, oldest));
    assert(reaches(list, oldest));
    assert(b.id == a.id);
    assert(reaches(closed, oldest));
    assert(read_transaction(new_list, oldest, signature, dictionary) == read_transaction(
        closed,
        oldest,
        signature,
        dictionary,
    ));
    if let Ok(Some(spans)) = find_transaction(a.rows, signature) {
        extension_keeps_entry(a, b, spans.blockstore);
        extension_keeps_execution(a, b, spans.execution, s.ledger.dictionary);
    }
}

} // verus!
