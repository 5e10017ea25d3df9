//! Appending to the active superblock, sealing it, and dropping old ones.

use vstd::prelude::*;

use crate::accountsdb::storage::bumped;
use crate::ledger::codec::{encode, encode_header, entry_bytes, entry_fits, header_bytes};
use crate::ledger::compress::{compress_details, restored_details, details_frame};
use crate::ledger::error::LedgerError;
use crate::ledger::index::{
    added, block_row, mentions, transaction_row, transaction_value, IndexWriter, Span, TxSpan,
    SIZE_LIMIT,
};
use crate::ledger::reader::{Ledger, LedgerView};
use crate::ledger::schema::{
    BlockstoreEntry, EntryView, Event, Execution, ExecutionView, TransactionEntry, MAX_ENTRY_SIZE,
    MAX_EXECUTION_DETAILS_SIZE,
};
use crate::ledger::storage::{BlockRange, FileCursors, LedgerMeta, SuperblockMeta};
use crate::ledger::superblock::{fresh, Superblock, SuperblockView};
use crate::table::Table;
use crate::types::{Block, Pubkey, Signature, Slot, SuperblockSeal};
use crate::bytes::le_bytes;

verus! {

/// Appends events to a ledger.
pub struct LedgerAppender {
    /// The ledger.
    pub ledger: Ledger,
    /// Transactions that wait for their executions, by signature.
    pub pending: Table<Span>,
    /// Index rows that wait for the end of the block.
    pub writer: IndexWriter,
    /// Transactions appended since the last publication.
    pub transactions: u64,
    /// Encoding of details that are absent.
    pub absent: Vec<u8>,
}

/// What an appender holds.
pub struct AppenderState {
    pub ledger: LedgerView,
    pub pending: Map<Seq<u8>, Span>,
    pub batch: Seq<(Seq<u8>, Seq<u8>)>,
    pub transactions: u64,
    pub absent: Seq<u8>,
    pub size_limit: u64,
}

/// What an event holds.
pub enum EventView {
    Transaction(Signature, Seq<u8>),
    Execution(ExecutionView, Seq<Pubkey>),
    Block(Block),
    Superblock(SuperblockSeal),
    Bootstrap(SuperblockSeal),
    Reset(Slot),
    Checkpoint(u64),
    Sync(bool),
}

impl View for Event {
    type V = EventView;

    open spec fn view(&self) -> EventView {
        match self {
            Event::Transaction(entry) => EventView::Transaction(entry.signature, entry.payload@),
            Event::Execution { execution, accounts } => EventView::Execution(
                execution@,
                accounts@,
            ),
            Event::Block(block) => EventView::Block(*block),
            Event::Superblock(seal) => EventView::Superblock(*seal),
            Event::Bootstrap(seal) => EventView::Bootstrap(*seal),
            Event::Reset(slot) => EventView::Reset(*slot),
            Event::Checkpoint(checksum) => EventView::Checkpoint(*checksum),
            Event::Sync { is_final } => EventView::Sync(*is_final),
        }
    }
}

/// Span of `size` bytes at `offset`.
pub open spec fn span_at(offset: nat, size: nat) -> Span {
    Span { bits: (offset * SIZE_LIMIT + size) as u64 }
}

impl AppenderState {
    /// Well-formed ledger whose slots leave room for a successor.
    pub open spec fn wf(self) -> bool {
        &&& self.ledger.wf()
        &&& forall|i: int|
            0 <= i < self.ledger.superblocks.len() ==> {
                let sb = #[trigger] self.ledger.superblocks[i];
                &&& sb.blockstore.wf()
                &&& sb.executions.wf()
                &&& sb.meta.range.end < u64::MAX
            }
    }

    /// The active superblock.
    pub open spec fn head(self) -> SuperblockView {
        self.ledger.superblocks.last()
    }

    /// With another active superblock.
    pub open spec fn with_head(self, sb: SuperblockView) -> AppenderState {
        AppenderState {
            ledger: LedgerView {
                superblocks: self.ledger.superblocks.drop_last().push(sb),
                ..self.ledger
            },
            ..self
        }
    }

    /// After an entry was appended to the blockstore file, and where it stands.
    pub open spec fn wrote(self, entry: EntryView) -> Result<(AppenderState, Span), LedgerError> {
        if !entry_fits(entry) {
            Err(LedgerError::Codec)
        } else {
            match self.head().blockstore.appended(entry_bytes(entry)) {
                Some(blockstore) => Ok(
                    (
                        self.with_head(SuperblockView { blockstore, ..self.head() }),
                        span_at(
                            self.head().blockstore.contents.len(),
                            entry_bytes(entry).len(),
                        ),
                    ),
                ),
                None => Err(LedgerError::FileTooLarge),
            }
        }
    }

    /// After a transaction was appended: it waits for its execution.
    pub open spec fn transaction(self, signature: Signature, payload: Seq<u8>) -> Result<
        AppenderState,
        LedgerError,
    > {
        match self.wrote(EntryView::Transaction(payload)) {
            Ok((next, span)) => Ok(
                AppenderState {
                    pending: self.pending.insert(signature@, span),
                    transactions: bumped(self.transactions, 1),
                    ..next
                },
            ),
            Err(error) => Err(error),
        }
    }

    /// Details that are kept of an execution: those that are too large are left out.
    pub open spec fn kept(self, details: Seq<u8>) -> Seq<u8> {
        if details.len() > MAX_EXECUTION_DETAILS_SIZE {
            self.absent
        } else {
            details
        }
    }

    /// After an execution was appended: its index rows wait for the end of the block. An
    /// execution of a transaction that does not wait is dropped.
    pub open spec fn execution(self, execution: ExecutionView, accounts: Seq<Pubkey>) -> Result<
        AppenderState,
        LedgerError,
    > {
        let key = execution.header.signature@;
        if !self.pending.contains_key(key) {
            Ok(self)
        } else {
            match details_frame(self.kept(execution.details), self.ledger.dictionary) {
                None => Err(LedgerError::Compression),
                Some(frame) => {
                    let bytes = header_bytes(execution.header) + frame;
                    if bytes.len() > MAX_ENTRY_SIZE {
                        Err(LedgerError::Codec)
                    } else {
                        match self.head().executions.appended(bytes) {
                            None => Err(LedgerError::FileTooLarge),
                            Some(executions) => {
                                let span = TxSpan {
                                    blockstore: self.pending[key],
                                    execution: span_at(
                                        self.head().executions.contents.len(),
                                        bytes.len(),
                                    ),
                                };
                                let next = self.with_head(
                                    SuperblockView { executions, ..self.head() },
                                );
                                Ok(
                                    AppenderState {
                                        pending: self.pending.remove(key),
                                        batch: self.batch.push(
                                            (
                                                transaction_row(execution.header.signature),
                                                transaction_value(span),
                                            ),
                                        ) + mentions(accounts, span.execution),
                                        ..next
                                    },
                                )
                            },
                        }
                    }
                },
            }
        }
    }

    /// After everything appended was published, at the end of a block if a slot is given.
    pub open spec fn published(self, slot: Option<Slot>) -> Result<AppenderState, LedgerError> {
        let sb = self.head();
        match (sb.blockstore.persisted(), sb.executions.persisted()) {
            (Some(blockstore), Some(executions)) => {
                let range = match slot {
                    Some(s) => BlockRange {
                        start: if sb.meta.range.start == 0 {
                            s
                        } else {
                            sb.meta.range.start
                        },
                        end: s,
                    },
                    None => sb.meta.range,
                };
                let cursors = FileCursors {
                    blockstore: sb.blockstore.contents.len() as u64,
                    executions: sb.executions.contents.len() as u64,
                };
                let next = self.with_head(
                    SuperblockView {
                        blockstore,
                        executions,
                        meta: SuperblockMeta { cursors, range, ..sb.meta },
                        ..sb
                    },
                );
                let meta = self.ledger.meta;
                Ok(
                    AppenderState {
                        transactions: 0,
                        ledger: LedgerView {
                            meta: LedgerMeta {
                                transactions: bumped(meta.transactions, self.transactions),
                                blocks: if slot is Some {
                                    bumped(meta.blocks, 1)
                                } else {
                                    meta.blocks
                                },
                                range: match slot {
                                    Some(s) => BlockRange { end: s, ..meta.range },
                                    None => meta.range,
                                },
                                ..meta
                            },
                            ..next.ledger
                        },
                        ..next
                    },
                )
            },
            _ => Err(LedgerError::FileTooLarge),
        }
    }

    /// After the waiting index rows and the row of a block were added to the index together.
    pub open spec fn indexed(self, slot: Slot, span: Span) -> AppenderState {
        let batch = self.batch.push((block_row(slot), le_bytes(span.bits as nat, 8)));
        AppenderState {
            batch: Seq::empty(),
            ..self.with_head(
                SuperblockView {
                    rows: added(self.head().rows, batch, batch.len()),
                    ..self.head()
                },
            )
        }
    }

    /// After the oldest superblock was dropped, unless it is the active one.
    pub open spec fn truncated(self) -> AppenderState {
        AppenderState { ledger: self.ledger.truncated(), ..self }
    }

    /// After the end of a block was appended and published, its index rows were added, and
    /// the oldest superblock was dropped if more space is used than allowed.
    pub open spec fn block(self, block: Block, used: u64) -> Result<AppenderState, LedgerError> {
        match self.wrote(EntryView::Block(block)) {
            Ok((written, span)) => match written.published(Some(block.slot)) {
                Ok(published) => {
                    let indexed = published.indexed(block.slot, span);
                    if used >= self.size_limit {
                        match indexed.published(None) {
                            Ok(synced) => Ok(synced.truncated()),
                            Err(error) => Err(error),
                        }
                    } else {
                        Ok(indexed)
                    }
                },
                Err(error) => Err(error),
            },
            Err(error) => Err(error),
        }
    }

    /// After the active superblock was sealed and the next one opened, which records the
    /// seal. Index rows that wait for the end of a block are dropped.
    pub open spec fn sealed(self, seal: SuperblockSeal, bootstrap: bool) -> Result<
        AppenderState,
        LedgerError,
    > {
        match self.wrote(EntryView::Superblock(seal)) {
            Ok((written, _)) => match written.published(None) {
                Ok(synced) => {
                    let old = synced.head();
                    let closed = synced.with_head(
                        SuperblockView {
                            blockstore: old.blockstore.finalized(),
                            executions: old.executions.finalized(),
                            ..old
                        },
                    );
                    let id = (seal.id + 1) as u64;
                    let opened = SuperblockView {
                        meta: SuperblockMeta {
                            checksum: seal.checksum,
                            transactions: seal.transactions,
                            ..fresh(id).meta
                        },
                        ..fresh(id)
                    };
                    let meta = synced.ledger.meta;
                    Ok(
                        AppenderState {
                            batch: Seq::empty(),
                            ledger: LedgerView {
                                superblocks: closed.ledger.superblocks.push(opened),
                                meta: LedgerMeta {
                                    head: id,
                                    superblocks: (meta.superblocks + 1) as u64,
                                    transactions: if bootstrap {
                                        seal.transactions
                                    } else {
                                        meta.transactions
                                    },
                                    ..meta
                                },
                                ..closed.ledger
                            },
                            ..closed
                        },
                    )
                },
                Err(error) => Err(error),
            },
            Err(error) => Err(error),
        }
    }

    /// After a marker was appended and published.
    pub open spec fn marked(self, marker: EntryView) -> Result<AppenderState, LedgerError> {
        match self.wrote(marker) {
            Ok((written, _)) => written.published(None),
            Err(error) => Err(error),
        }
    }

    /// After one event, given how much space is used.
    pub open spec fn step(self, event: EventView, used: u64) -> Result<AppenderState, LedgerError> {
        match event {
            EventView::Transaction(signature, payload) => self.transaction(signature, payload),
            EventView::Execution(execution, accounts) => self.execution(execution, accounts),
            EventView::Block(block) => self.block(block, used),
            EventView::Superblock(seal) => self.sealed(seal, false),
            EventView::Bootstrap(seal) => self.sealed(seal, true),
            EventView::Reset(slot) => self.marked(EntryView::Reset(slot)),
            EventView::Checkpoint(checksum) => self.marked(EntryView::Checkpoint(checksum)),
            EventView::Sync(_) => self.published(None),
        }
    }

    /// What an execution that could not be appended leaves: its transaction no longer waits.
    pub open spec fn execution_left(self, execution: ExecutionView) -> AppenderState {
        AppenderState { pending: self.pending.remove(execution.header.signature@), ..self }
    }

    /// What a publication that failed leaves: nothing was published, though the blockstore file
    /// may have been persisted.
    pub open spec fn published_left(self) -> AppenderState {
        match self.head().blockstore.persisted() {
            Some(blockstore) => self.with_head(SuperblockView { blockstore, ..self.head() }),
            None => self,
        }
    }

    /// What a marker that could not be appended or published leaves.
    pub open spec fn marked_left(self, marker: EntryView) -> AppenderState {
        match self.wrote(marker) {
            Ok((written, _)) => written.published_left(),
            Err(_) => self,
        }
    }

    /// What a block whose end could not be appended or published leaves. Where only the
    /// synchronization before older superblocks are dropped failed, the block is recorded.
    pub open spec fn block_left(self, block: Block) -> AppenderState {
        match self.wrote(EntryView::Block(block)) {
            Ok((written, span)) => match written.published(Some(block.slot)) {
                Ok(published) => published.indexed(block.slot, span).published_left(),
                Err(_) => written.published_left(),
            },
            Err(_) => self,
        }
    }

    /// What an event that failed leaves.
    pub open spec fn step_left(self, event: EventView) -> AppenderState {
        match event {
            EventView::Transaction(_, _) => self,
            EventView::Execution(execution, _) => self.execution_left(execution),
            EventView::Block(block) => self.block_left(block),
            EventView::Superblock(seal) => self.marked_left(EntryView::Superblock(seal)),
            EventView::Bootstrap(seal) => self.marked_left(EntryView::Superblock(seal)),
            EventView::Reset(slot) => self.marked_left(EntryView::Reset(slot)),
            EventView::Checkpoint(checksum) => self.marked_left(EntryView::Checkpoint(checksum)),
            EventView::Sync(_) => self.published_left(),
        }
    }

    /// Events that make sense: a block has a successor, and a seal ends the active superblock
    /// or one after it.
    pub open spec fn accepts(self, event: EventView) -> bool {
        match event {
            EventView::Block(block) => block.slot < u64::MAX,
            EventView::Superblock(seal) => self.ledger.meta.head <= seal.id < u64::MAX - 1,
            EventView::Bootstrap(seal) => self.ledger.meta.head <= seal.id < u64::MAX - 1,
            _ => true,
        }
    }
}

/// What is kept of an execution's details is restored from its frame, unless even the
/// encoding of absent details is too large.
pub open spec fn restores(state: AppenderState, details: Seq<u8>) -> bool {
    let kept = state.kept(details);
    kept.len() <= MAX_EXECUTION_DETAILS_SIZE ==> details_frame(kept, state.ledger.dictionary) is Some
        && restored_details(
        details_frame(kept, state.ledger.dictionary)->0,
        state.ledger.dictionary,
    ) == Ok::<Seq<u8>, LedgerError>(kept)
}

/// After the events from `i` on, up to the last synchronization or the first failure; a
/// stream that ends without one is synchronized.
pub open spec fn run_from(state: AppenderState, events: Seq<(EventView, u64)>, i: int) -> Result<
    AppenderState,
    LedgerError,
>
    decreases events.len() - i,
{
    if i < 0 || i >= events.len() {
        state.published(None)
    } else {
        match state.step(events[i].0, events[i].1) {
            Ok(next) => if events[i].0 == EventView::Sync(true) {
                Ok(next)
            } else {
                run_from(next, events, i + 1)
            },
            Err(error) => Err(error),
        }
    }
}

/// What the events from `i` on leave, if one of them or the synchronization at the end failed:
/// what those before it did, and what is left of it.
pub open spec fn run_left(state: AppenderState, events: Seq<(EventView, u64)>, i: int) -> AppenderState
    decreases events.len() - i,
{
    if i < 0 || i >= events.len() {
        state.published_left()
    } else {
        match state.step(events[i].0, events[i].1) {
            Ok(next) => run_left(next, events, i + 1),
            Err(_) => state.step_left(events[i].0),
        }
    }
}

/// Every event makes sense when its turn comes.
pub open spec fn accepts_from(state: AppenderState, events: Seq<(EventView, u64)>, i: int) -> bool
    decreases events.len() - i,
{
    if i < 0 || i >= events.len() {
        true
    } else {
        &&& state.accepts(events[i].0)
        &&& state.step(events[i].0, events[i].1) matches Ok(next) ==> events[i].0
            == EventView::Sync(true) || accepts_from(next, events, i + 1)
    }
}

/// What several events hold.
pub open spec fn event_views(events: Seq<(Event, u64)>) -> Seq<(EventView, u64)> {
    events.map_values(|event: (Event, u64)| (event.0@, event.1))
}

impl LedgerAppender {
    /// What the appender holds.
    pub open spec fn state(self) -> AppenderState {
        AppenderState {
            ledger: self.ledger@,
            pending: self.pending@,
            batch: self.writer@,
            transactions: self.transactions,
            absent: self.absent@,
            size_limit: self.ledger.size_limit,
        }
    }

    /// Well-formed parts.
    pub open spec fn wf(self) -> bool {
        &&& self.ledger.wf()
        &&& self.state().wf()
        &&& self.pending.wf()
    }

    /// Begins to append to a ledger.
    pub fn new(ledger: Ledger, absent: Vec<u8>) -> (appender: LedgerAppender)
        requires
            ledger.wf(),
            forall|i: int|
                0 <= i < ledger.superblocks@.len() ==> (#[trigger] ledger.superblocks@[i]).meta.range.end
                    < u64::MAX,
        ensures
            appender.wf(),
            appender.ledger == ledger,
            appender.absent == absent,
            appender.state().pending == Map::<Seq<u8>, Span>::empty(),
            appender.state().batch == Seq::<(Seq<u8>, Seq<u8>)>::empty(),
            appender.transactions == 0,
    {
        let appender = LedgerAppender {
            ledger,
            pending: Table::new(),
            writer: IndexWriter::new(),
            transactions: 0,
            absent,
        };
        proof {
            let views = appender.state().ledger.superblocks;
            assert forall|i: int| 0 <= i < views.len() implies {
                let sb = #[trigger] views[i];
                &&& sb.blockstore.wf()
                &&& sb.executions.wf()
                &&& sb.meta.range.end < u64::MAX
            } by {
                assert(views[i] == ledger.superblocks@[i]@);
                assert(ledger.superblocks@[i].wf());
            }
        }
        appender
    }

    /// Takes the active superblock out.
    fn take_head(&mut self) -> (head: Superblock)
        requires
            old(self).wf(),
        ensures
            head.wf(),
            head@ == old(self).state().head(),
            final(self).ledger.superblocks@ == old(self).ledger.superblocks@.drop_last(),
            final(self).ledger.meta == old(self).ledger.meta,
            final(self).ledger.size_limit == old(self).ledger.size_limit,
            final(self).ledger.dictionary == old(self).ledger.dictionary,
            final(self).pending == old(self).pending,
            final(self).writer == old(self).writer,
            final(self).transactions == old(self).transactions,
            final(self).absent == old(self).absent,
    {
        let ghost before = self.ledger.superblocks@;
        let head = self.ledger.superblocks.pop();
        match head {
            Some(head) => {
                proof {
                    assert(self.ledger.superblocks@ =~= before.drop_last());
                    let last = before.len() - 1;
                    assert(head == before[last]);
                    assert(old(self).state().ledger.superblocks[last] == before[last]@);
                }
                head
            },
            None => {
                proof {
                    assert(old(self).state().ledger.superblocks.len() == before.len());
                    assert(false);
                }
                Superblock::new(0)
            },
        }
    }

    /// Puts the active superblock back.
    fn put_head(&mut self, head: Superblock)
        ensures
            final(self).ledger.superblocks@ == old(self).ledger.superblocks@.push(head),
            final(self).ledger.meta == old(self).ledger.meta,
            final(self).ledger.size_limit == old(self).ledger.size_limit,
            final(self).ledger.dictionary == old(self).ledger.dictionary,
            final(self).pending == old(self).pending,
            final(self).writer == old(self).writer,
            final(self).transactions == old(self).transactions,
            final(self).absent == old(self).absent,
    {
        self.ledger.superblocks.push(head);
    }

    /// The state after the active superblock was taken out, changed, and put back.
    proof fn head_replaced(before: LedgerAppender, after: LedgerAppender, head: Superblock)
        requires
            before.wf(),
            head.wf(),
            head@.id == before.state().head().id,
            head@.meta.range.end < u64::MAX,
            after.ledger.superblocks@ == before.ledger.superblocks@.drop_last().push(head),
            after.ledger.meta == before.ledger.meta,
            after.ledger.size_limit == before.ledger.size_limit,
            after.ledger.dictionary == before.ledger.dictionary,
            after.pending.wf(),
        ensures
            after.wf(),
            after.state().ledger == before.state().with_head(head@).ledger,
    {
        let old_views = before.state().ledger.superblocks;
        let new_views = after.state().ledger.superblocks;
        let n = old_views.len();
        assert(new_views =~= old_views.drop_last().push(head@));
        assert forall|i: int| 0 <= i < n - 1 implies new_views[i] == old_views[i] by {}
        assert forall|i: int| 0 <= i < after.ledger.superblocks@.len() implies (
        #[trigger] after.ledger.superblocks@[i]).wf() by {
            if i < n - 1 {
                assert(after.ledger.superblocks@[i] == before.ledger.superblocks@[i]);
            }
        }
        assert(crate::ledger::reader::ids_ascend(new_views)) by {
            assert forall|i: int, j: int| 0 <= i < j < new_views.len() implies (
            #[trigger] new_views[i]).id < (#[trigger] new_views[j]).id by {
                assert(old_views[i].id < old_views[j].id);
            }
        }
        assert forall|i: int| 0 <= i < new_views.len() implies {
            let sb = #[trigger] new_views[i];
            &&& sb.blockstore.wf()
            &&& sb.executions.wf()
            &&& sb.meta.range.end < u64::MAX
        } by {
            if i < n - 1 {
                assert(new_views[i] == old_views[i]);
            }
        }
    }

    /// Appends an entry to the blockstore file and returns where it stands.
    fn write_blockstore(&mut self, entry: &BlockstoreEntry) -> (result: Result<Span, LedgerError>)
        requires
            old(self).wf(),
        ensures
            final(self).wf(),
            match old(self).state().wrote(entry@) {
                Ok((next, span)) => {
                    &&& result == Ok::<Span, LedgerError>(span)
                    &&& final(self).state() == next
                },
                Err(error) => {
                    &&& result == Err::<Span, LedgerError>(error)
                    &&& final(self).state() == old(self).state()
                },
            },
    {
        let ghost before = *self;
        let bytes = match encode(entry) {
            Ok(bytes) => bytes,
            Err(error) => {
                return Err(error);
            },
        };
        let mut head = self.take_head();
        let ghost unchanged = head;
        let offset: u64 = head.blockstore.cursor;
        let result = head.blockstore.append(bytes.as_slice());
        proof {
            crate::ledger::codec::entry_length(entry@);
        }
        self.put_head(head);
        proof {
            LedgerAppender::head_replaced(before, *self, head);
        }
        match result {
            Ok(()) => {
                let span = Span::new(offset, bytes.len() as u64);
                assert(span == span_at(offset as nat, bytes@.len()));
                Ok(span)
            },
            Err(error) => {
                proof {
                    assert(head == unchanged);
                    assert(before.state().with_head(before.state().head()).ledger.superblocks
                        =~= before.state().ledger.superblocks);
                }
                Err(error)
            },
        }
    }

    /// Appends a transaction, which waits for its execution.
    pub fn write_transaction(&mut self, transaction: TransactionEntry) -> (result: Result<
        (),
        LedgerError,
    >)
        requires
            old(self).wf(),
        ensures
            final(self).wf(),
            match old(self).state().transaction(transaction.signature, transaction.payload@) {
                Ok(next) => result is Ok && final(self).state() == next,
                Err(error) => result == Err::<(), LedgerError>(error) && final(self).state()
                    == old(self).state(),
            },
    {
        let signature: Signature = transaction.signature;
        let entry = BlockstoreEntry::Transaction(transaction.payload);
        let span = match self.write_blockstore(&entry) {
            Ok(span) => span,
            Err(error) => {
                return Err(error);
            },
        };
        let mut key: Vec<u8> = Vec::new();
        key.extend_from_slice(signature.as_slice());
        assert(key@ =~= signature@);
        let _ = self.pending.insert(key, span);
        self.transactions = self.transactions.wrapping_add(1);
        Ok(())
    }

    /// Appends the execution of a transaction that waits for it. An execution of any other
    /// transaction is dropped.
    pub fn write_execution(&mut self, execution: Execution, accounts: Vec<Pubkey>) -> (result:
        Result<(), LedgerError>)
        requires
            old(self).wf(),
        ensures
            final(self).wf(),
            match old(self).state().execution(execution@, accounts@) {
                Ok(next) => result is Ok && final(self).state() == next,
                Err(error) => result == Err::<(), LedgerError>(error) && final(self).state()
                    == old(self).state().execution_left(execution@),
            },
            result is Ok && old(self).state().pending.contains_key(execution.header.signature@)
                ==> restores(old(self).state(), execution.details@),
    {
        let ghost start = *self;
        let signature: Signature = execution.header.signature;
        let blockstore = match self.pending.remove(signature.as_slice()) {
            Some(span) => span,
            None => {
                assert(start.state().pending.remove(signature@) =~= start.state().pending);
                return Ok(());
            },
        };
        let ghost taken = *self;
        let details: &[u8] = if execution.details.len() > MAX_EXECUTION_DETAILS_SIZE {
            self.absent.as_slice()
        } else {
            execution.details.as_slice()
        };
        let frame = match compress_details(details, self.ledger.dictionary.as_slice()) {
            Ok(frame) => frame,
            Err(error) => {
                return Err(error);
            },
        };
        let mut bytes = encode_header(&execution.header);
        if bytes.len() > MAX_ENTRY_SIZE || frame.len() > MAX_ENTRY_SIZE - bytes.len() {
            return Err(LedgerError::Codec);
        }
        bytes.extend_from_slice(frame.as_slice());
        assert(bytes@ =~= header_bytes(execution.header) + frame@);
        let mut head = self.take_head();
        let offset: u64 = head.executions.cursor;
        let result = head.executions.append(bytes.as_slice());
        self.put_head(head);
        proof {
            crate::bytes::u64_spellings(execution.header.slot, 0);
            LedgerAppender::head_replaced(taken, *self, head);
        }
        match result {
            Ok(()) => {
                let span = TxSpan {
                    blockstore,
                    execution: Span::new(offset, bytes.len() as u64),
                };
                assert(span.execution == span_at(offset as nat, bytes@.len()));
                self.writer.insert_transaction(&signature, span);
                self.writer.insert_accounts(&accounts, span.execution);
                Ok(())
            },
            Err(error) => {
                proof {
                    assert(taken.state().with_head(taken.state().head()).ledger.superblocks
                        =~= taken.state().ledger.superblocks);
                }
                Err(error)
            },
        }
    }

    /// Publishes everything that was appended, at the end of a block if a slot is given.
    pub fn publish(&mut self, slot: Option<Slot>) -> (result: Result<(), LedgerError>)
        requires
            old(self).wf(),
            slot matches Some(s) ==> s < u64::MAX,
        ensures
            final(self).wf(),
            match old(self).state().published(slot) {
                Ok(next) => result is Ok && final(self).state() == next,
                Err(error) => result == Err::<(), LedgerError>(error) && final(self).state()
                    == old(self).state().published_left(),
            },
    {
        let ghost before = *self;
        let mut head = self.take_head();
        let blockstore = head.blockstore.persist();
        if blockstore.is_err() {
            self.put_head(head);
            proof {
                LedgerAppender::head_replaced(before, *self, head);
                assert(before.state().with_head(before.state().head()).ledger.superblocks
                    =~= before.state().ledger.superblocks);
            }
            return Err(LedgerError::FileTooLarge);
        }
        let executions = head.executions.persist();
        if executions.is_err() {
            self.put_head(head);
            proof {
                LedgerAppender::head_replaced(before, *self, head);
            }
            return Err(LedgerError::FileTooLarge);
        }
        head.meta.cursors = FileCursors {
            blockstore: head.blockstore.cursor,
            executions: head.executions.cursor,
        };
        if let Some(s) = slot {
            head.meta.range.end = s;
            if head.meta.range.start == 0 {
                head.meta.range.start = s;
            }
        }
        self.put_head(head);
        proof {
            LedgerAppender::head_replaced(before, *self, head);
        }
        let ghost replaced = *self;
        self.ledger.meta.transactions = self.ledger.meta.transactions.wrapping_add(
            self.transactions,
        );
        if let Some(s) = slot {
            self.ledger.meta.blocks = self.ledger.meta.blocks.wrapping_add(1);
            self.ledger.meta.range.end = s;
        }
        self.transactions = 0;
        assert(self.ledger.superblocks@ == replaced.ledger.superblocks@);
        assert(self.ledger@.superblocks == replaced.ledger@.superblocks);
        Ok(())
    }

    /// Drops the oldest superblock, unless it is the active one, and says which it was.
    pub fn truncate(&mut self) -> (dropped: Option<u64>)
        requires
            old(self).wf(),
        ensures
            final(self).wf(),
            final(self).state() == old(self).state().truncated(),
            dropped == if old(self).state().ledger.superblocks.first().id
                >= old(self).state().ledger.meta.head {
                None
            } else {
                Some(old(self).state().ledger.superblocks.first().id)
            },
    {
        let ghost views = self.state().ledger.superblocks;
        assert(views[0].meta.range.end < u64::MAX);
        let dropped = self.ledger.truncate();
        proof {
            let now = self.state().ledger.superblocks;
            let gone = views.len() - now.len();
            assert forall|i: int| 0 <= i < now.len() implies {
                let sb = #[trigger] now[i];
                &&& sb.blockstore.wf()
                &&& sb.executions.wf()
                &&& sb.meta.range.end < u64::MAX
            } by {
                assert(now[i] == views[i + gone]);
            }
        }
        dropped
    }

    /// Appends the end of a block, publishes it, and adds its index rows. Drops the oldest
    /// superblock if as much space is used as allowed.
    pub fn write_block(&mut self, block: Block, used: u64) -> (result: Result<(), LedgerError>)
        requires
            old(self).wf(),
            block.slot < u64::MAX,
        ensures
            final(self).wf(),
            match old(self).state().block(block, used) {
                Ok(next) => result is Ok && final(self).state() == next,
                Err(error) => result == Err::<(), LedgerError>(error) && final(self).state()
                    == old(self).state().block_left(block),
            },
    {
        let span = match self.write_blockstore(&BlockstoreEntry::Block(block)) {
            Ok(span) => span,
            Err(error) => {
                return Err(error);
            },
        };
        match self.publish(Some(block.slot)) {
            Ok(()) => {},
            Err(error) => {
                return Err(error);
            },
        }
        self.commit_block(block.slot, span);
        if used >= self.ledger.size_limit {
            match self.publish(None) {
                Ok(()) => {},
                Err(error) => {
                    return Err(error);
                },
            }
            let _ = self.truncate();
        }
        Ok(())
    }

    /// Adds the waiting index rows and the row of a block to the index together.
    fn commit_block(&mut self, slot: Slot, span: Span)
        requires
            old(self).wf(),
        ensures
            final(self).wf(),
            final(self).state() == old(self).state().indexed(slot, span),
    {
        let ghost before = *self;
        self.writer.insert_block(slot, span);
        let mut head = self.take_head();
        self.writer.persist(&mut head.index);
        self.put_head(head);
        proof {
            LedgerAppender::head_replaced(before, *self, head);
            assert(self.state().batch =~= Seq::<(Seq<u8>, Seq<u8>)>::empty());
        }
    }

    /// Seals the active superblock and opens the next one.
    pub fn seal(&mut self, seal: SuperblockSeal, bootstrap: bool) -> (result: Result<
        (),
        LedgerError,
    >)
        requires
            old(self).wf(),
            old(self).state().ledger.meta.head <= seal.id < u64::MAX - 1,
        ensures
            final(self).wf(),
            match old(self).state().sealed(seal, bootstrap) {
                Ok(next) => result is Ok && final(self).state() == next,
                Err(error) => result == Err::<(), LedgerError>(error) && final(self).state()
                    == old(self).state().marked_left(EntryView::Superblock(seal)),
            },
    {
        match self.write_blockstore(&BlockstoreEntry::Superblock(seal)) {
            Ok(_) => {},
            Err(error) => {
                return Err(error);
            },
        }
        match self.publish(None) {
            Ok(()) => {},
            Err(error) => {
                return Err(error);
            },
        }
        let ghost synced = *self;
        let mut head = self.take_head();
        head.blockstore.finalize();
        head.executions.finalize();
        self.put_head(head);
        proof {
            LedgerAppender::head_replaced(synced, *self, head);
        }
        if bootstrap {
            self.ledger.meta.transactions = seal.transactions;
        }
        self.rotate(seal);
        Ok(())
    }

    /// Opens the superblock after a seal, which records the seal.
    fn rotate(&mut self, seal: SuperblockSeal)
        requires
            old(self).wf(),
            old(self).state().ledger.meta.head <= seal.id < u64::MAX - 1,
        ensures
            final(self).wf(),
            ({
                let before = old(self).state();
                let id = (seal.id + 1) as u64;
                final(self).state() == (AppenderState {
                    batch: Seq::empty(),
                    ledger: LedgerView {
                        superblocks: before.ledger.superblocks.push(
                            SuperblockView {
                                meta: SuperblockMeta {
                                    checksum: seal.checksum,
                                    transactions: seal.transactions,
                                    ..fresh(id).meta
                                },
                                ..fresh(id)
                            },
                        ),
                        meta: LedgerMeta {
                            head: id,
                            superblocks: (before.ledger.meta.superblocks + 1) as u64,
                            ..before.ledger.meta
                        },
                        ..before.ledger
                    },
                    ..before
                })
            }),
    {
        let ghost before = *self;
        let ghost views = before.state().ledger.superblocks;
        proof {
            crate::ledger::reader::ids_grow(views, views.len() - 1);
        }
        let id: u64 = seal.id + 1;
        let mut next = Superblock::new(id);
        next.meta.checksum = seal.checksum;
        next.meta.transactions = seal.transactions;
        self.ledger.superblocks.push(next);
        self.ledger.meta.head = id;
        self.ledger.meta.superblocks = self.ledger.meta.superblocks + 1;
        self.writer = IndexWriter::new();
        proof {
            let now = self.state().ledger.superblocks;
            assert(now =~= views.push(next@));
            assert forall|i: int| 0 <= i < self.ledger.superblocks@.len() implies (
            #[trigger] self.ledger.superblocks@[i]).wf() by {
                if i < views.len() {
                    assert(self.ledger.superblocks@[i] == before.ledger.superblocks@[i]);
                }
            }
            assert forall|i: int| 0 <= i < now.len() implies {
                let sb = #[trigger] now[i];
                &&& sb.blockstore.wf()
                &&& sb.executions.wf()
                &&& sb.meta.range.end < u64::MAX
            } by {
                if i < views.len() {
                    assert(now[i] == views[i]);
                }
            }
            assert forall|i: int, j: int| 0 <= i < j < now.len() implies (#[trigger] now[i]).id < (
            #[trigger] now[j]).id by {
                if j < views.len() {
                    assert(views[i].id < views[j].id);
                } else if i < views.len() - 1 {
                    assert(views[i].id < views[views.len() - 1].id);
                }
            }
        }
    }

    /// Appends and publishes a reset marker.
    pub fn write_reset(&mut self, slot: Slot) -> (result: Result<(), LedgerError>)
        requires
            old(self).wf(),
        ensures
            final(self).wf(),
            match old(self).state().marked(EntryView::Reset(slot)) {
                Ok(next) => result is Ok && final(self).state() == next,
                Err(error) => result == Err::<(), LedgerError>(error) && final(self).state()
                    == old(self).state().marked_left(EntryView::Reset(slot)),
            },
    {
        match self.write_blockstore(&BlockstoreEntry::Reset(slot)) {
            Ok(_) => self.publish(None),
            Err(error) => Err(error),
        }
    }

    /// Appends and publishes a checkpoint.
    pub fn write_checkpoint(&mut self, checksum: u64) -> (result: Result<(), LedgerError>)
        requires
            old(self).wf(),
        ensures
            final(self).wf(),
            match old(self).state().marked(EntryView::Checkpoint(checksum)) {
                Ok(next) => result is Ok && final(self).state() == next,
                Err(error) => result == Err::<(), LedgerError>(error) && final(self).state()
                    == old(self).state().marked_left(EntryView::Checkpoint(checksum)),
            },
    {
        match self.write_blockstore(&BlockstoreEntry::Checkpoint(checksum)) {
            Ok(_) => self.publish(None),
            Err(error) => Err(error),
        }
    }

    /// Applies one event, given how much space is used.
    pub fn handle(&mut self, event: Event, used: u64) -> (result: Result<(), LedgerError>)
        requires
            old(self).wf(),
            old(self).state().accepts(event@),
        ensures
            final(self).wf(),
            match old(self).state().step(event@, used) {
                Ok(next) => result is Ok && final(self).state() == next,
                Err(error) => result == Err::<(), LedgerError>(error) && final(self).state()
                    == old(self).state().step_left(event@),
            },
    {
        match event {
            Event::Transaction(transaction) => self.write_transaction(transaction),
            Event::Execution { execution, accounts } => self.write_execution(execution, accounts),
            Event::Block(block) => self.write_block(block, used),
            Event::Superblock(seal) => self.seal(seal, false),
            Event::Bootstrap(seal) => self.seal(seal, true),
            Event::Reset(slot) => self.write_reset(slot),
            Event::Checkpoint(checksum) => self.write_checkpoint(checksum),
            Event::Sync { .. } => self.publish(None),
        }
    }

    /// Applies events, each with how much space is used, up to the last synchronization or
    /// the first failure. A stream that ends without one is synchronized.
    pub fn run(&mut self, events: Vec<(Event, u64)>) -> (result: Result<(), LedgerError>)
        requires
            old(self).wf(),
            accepts_from(old(self).state(), event_views(events@), 0),
        ensures
            final(self).wf(),
            match run_from(old(self).state(), event_views(events@), 0) {
                Ok(next) => result is Ok && final(self).state() == next,
                Err(error) => result == Err::<(), LedgerError>(error) && final(self).state()
                    == run_left(old(self).state(), event_views(events@), 0),
            },
    {
        let ghost views = event_views(events@);
        let ghost goal = run_from(self.state(), views, 0);
        let ghost left = run_left(self.state(), views, 0);
        let mut done: bool = false;
        let mut failure: Option<LedgerError> = None;
        let ghost given = events@;
        for pair in it: events
            invariant
                it.seq() == given,
                views == event_views(given),
                self.wf(),
                match failure {
                    Some(error) => goal == Err::<AppenderState, LedgerError>(error) && left
                        == self.state(),
                    None => if done {
                        goal == Ok::<AppenderState, LedgerError>(self.state())
                    } else {
                        goal == run_from(self.state(), views, it.index() as int) && left
                            == run_left(self.state(), views, it.index() as int)
                            && accepts_from(self.state(), views, it.index() as int)
                    },
                },
        {
            let ghost i = it.index() as int;
            assert(views[i] == (pair.0@, pair.1));
            if failure.is_none() && !done {
                let last = matches!(pair.0, Event::Sync { is_final: true });
                assert(last == (pair.0@ == EventView::Sync(true)));
                match self.handle(pair.0, pair.1) {
                    Ok(()) => {
                        done = last;
                    },
                    Err(error) => {
                        failure = Some(error);
                    },
                }
            }
        }
        match failure {
            Some(error) => Err(error),
            None => if done {
                Ok(())
            } else {
                self.publish(None)
            },
        }
    }
}

} // verus!
