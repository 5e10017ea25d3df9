//! When an event is accepted: as long as its entry is not too large, and the files of the active
//! superblock have room.

use vstd::prelude::*;

use crate::ledger::appender::{AppenderState, EventView};
use crate::ledger::codec::{entry_length, header_bytes};
use crate::ledger::compress::details_frame;
use crate::ledger::error::LedgerError;
use crate::ledger::schema::{EntryView, ExecutionView};
use crate::ledger::storage::FileState;
use crate::ledger::trace::{is_seal, wrote_keeps};
use crate::types::{Pubkey, Signature};

verus! {

/// A transaction is recorded exactly if it is not larger than an entry may be and the file has
/// room for it.
pub proof fn transactions_are_accepted(s: AppenderState, signature: Signature, payload: Seq<u8>)
    requires
        payload.len() <= u64::MAX,
    ensures
        s.transaction(signature, payload) is Ok <==> payload.len() + 12 <= 33_554_431
            && s.head().blockstore.contents.len() + payload.len() + 12 <= 549_755_813_888,
        payload.len() + 12 > 33_554_431 ==> s.transaction(signature, payload) == Err::<
            AppenderState,
            LedgerError,
        >(LedgerError::Codec),
        payload.len() + 12 <= 33_554_431 && s.head().blockstore.contents.len() + payload.len() + 12
            > 549_755_813_888 ==> s.transaction(signature, payload) == Err::<
            AppenderState,
            LedgerError,
        >(LedgerError::FileTooLarge),
{
    entry_length(EntryView::Transaction(payload));
}

/// An execution is recorded exactly if nothing waits for it, or its details can be compressed,
/// its record is not larger than an entry may be, and the file has room for it.
pub proof fn executions_are_accepted(
    s: AppenderState,
    execution: ExecutionView,
    accounts: Seq<Pubkey>,
)
    ensures
        ({
            let frame = details_frame(s.kept(execution.details), s.ledger.dictionary);
            let size = header_bytes(execution.header).len() + frame->0.len();
            let result = s.execution(execution, accounts);
            if s.pending.contains_key(execution.header.signature@) {
                &&& result is Ok <==> frame is Some && size <= 33_554_431
                    && s.head().executions.contents.len() + size <= 549_755_813_888
                &&& frame is None ==> result == Err::<AppenderState, LedgerError>(
                    LedgerError::Compression,
                )
            } else {
                result is Ok
            }
        }),
{
}

/// A file has room for so many bytes, and can be lengthened twice more.
pub open spec fn file_has_room(file: FileState, bytes: int) -> bool {
    &&& file.contents.len() + bytes + 8_589_934_592 <= 549_755_813_888
    &&& file.len + 8_589_934_592 <= 549_755_813_888
}

/// The files of the active superblock have room for the end of a block, a seal, or a marker.
pub open spec fn has_room(s: AppenderState) -> bool {
    &&& file_has_room(s.head().blockstore, 84)
    &&& file_has_room(s.head().executions, 0)
}

/// A file that can be lengthened twice more is persisted, and can be lengthened once more.
proof fn file_is_persisted(file: FileState, longest: int)
    requires
        file.wf(),
        file.contents.len() <= longest,
        file.len <= longest,
        longest + 4_294_967_296 <= 549_755_813_888,
    ensures
        file.persisted() matches Some(after) && after.wf() && after.contents == file.contents
            && after.len <= longest + 4_294_967_296,
{
}

proof fn entry_is_written(s: AppenderState, entry: EntryView)
    requires
        s.wf(),
        !(entry is Transaction),
        has_room(s),
    ensures
        s.wrote(entry) is Ok,
        ({
            let head = s.wrote(entry)->Ok_0.0.head();
            &&& head.blockstore.wf()
            &&& head.executions.wf()
            &&& head.executions == s.head().executions
            &&& head.blockstore.contents.len() + 8_589_934_592 <= 549_755_813_888
            &&& head.blockstore.len + 8_589_934_592 <= 549_755_813_888
        }),
{
    entry_length(entry);
    assert(s.wrote(entry) is Ok);
    wrote_keeps(s, entry);
}

/// The end of a block, a seal, a marker, and a synchronization are recorded as long as the files
/// of the active superblock have room.
pub proof fn events_are_accepted(s: AppenderState, event: EventView, used: u64)
    requires
        s.wf(),
        s.accepts(event),
        has_room(s),
        event is Block || is_seal(event) || event is Reset || event is Checkpoint || event is Sync,
    ensures
        s.step(event, used) is Ok,
{
    let longest: int = 549_755_813_888 - 8_589_934_592;
    match event {
        EventView::Sync(_) => {
            file_is_persisted(s.head().blockstore, longest);
            file_is_persisted(s.head().executions, longest);
        },
        EventView::Block(block) => {
            let entry = EntryView::Block(block);
            entry_is_written(s, entry);
            let (written, span) = s.wrote(entry)->Ok_0;
            let sb = written.head();
            file_is_persisted(sb.blockstore, longest);
            file_is_persisted(sb.executions, longest);
            let published = written.published(Some(block.slot))->Ok_0;
            let indexed = published.indexed(block.slot, span);
            file_is_persisted(indexed.head().blockstore, longest + 4_294_967_296);
            file_is_persisted(indexed.head().executions, longest + 4_294_967_296);
        },
        _ => {
            let entry = match event {
                EventView::Superblock(seal) => EntryView::Superblock(seal),
                EventView::Bootstrap(seal) => EntryView::Superblock(seal),
                EventView::Reset(slot) => EntryView::Reset(slot),
                EventView::Checkpoint(checksum) => EntryView::Checkpoint(checksum),
                _ => arbitrary(),
            };
            entry_is_written(s, entry);
            let sb = s.wrote(entry)->Ok_0.0.head();
            file_is_persisted(sb.blockstore, longest);
            file_is_persisted(sb.executions, longest);
        },
    }
}

/// What is appended to a file is behind what was there, and nothing that was there is changed. The
/// file takes it exactly if it stays within the longest file.
pub proof fn files_take_what_is_appended(file: FileState, bytes: Seq<u8>)
    requires
        file.wf(),
    ensures
        file.appended(bytes) is Some <==> file.contents.len() + bytes.len() <= 549_755_813_888,
        file.appended(bytes) matches Some(after) ==> after.contents == file.contents + bytes
            && after.wf(),
{
}

/// Once a file is persisted, everything in it is in the file and nothing waits in the buffer. Space
/// is reserved ahead once less than a quarter of a gigabyte is left.
pub proof fn persisted_files_hold_everything(file: FileState)
    requires
        file.wf(),
    ensures
        file.persisted() matches Some(after) ==> {
            &&& after.contents == file.contents
            &&& after.written() == file.contents
            &&& file.len >= file.contents.len() + 268_435_456 ==> after.len == file.len
            &&& file.len < file.contents.len() + 268_435_456 ==> after.len >= file.len
                + 4_294_967_296
        },
        file.finalized().written() == file.contents,
        file.finalized().len == file.contents.len(),
{
    if let Some(after) = file.persisted() {
        assert(after.written() =~= file.contents);
    }
    assert(file.finalized().written() =~= file.contents);
}

} // verus!
