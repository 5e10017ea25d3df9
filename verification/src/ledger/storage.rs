//! Append files and metadata headers.

use std::ops::Range;

use vstd::prelude::*;

use crate::ledger::codec::copy_range;
use crate::ledger::error::LedgerError;
use crate::ledger::index::Span;
use crate::types::Slot;

verus! {

/// Buffered bytes after which a file is flushed: 64 MiB.
pub const FILE_BUFFER_SIZE: usize = 67108864;

/// Space that is reserved at once: 4 GiB.
pub const PREALLOCATION_SIZE: u64 = 4294967296;

/// Remaining space below which more is reserved: a sixteenth of what is reserved at once.
pub const PREALLOCATION_THRESHOLD: u64 = 268435456;

/// Current superblock format.
pub const VERSION: u64 = 1;

/// File that is only appended to, with a buffer in front.
#[derive(Debug)]
pub struct AppendFile {
    /// Bytes in the file.
    pub file: Vec<u8>,
    /// Bytes that are not in the file yet.
    pub buffer: Vec<u8>,
    /// Position of the next byte, the buffer counted in.
    pub cursor: u64,
    /// Reserved length of the file.
    pub len: u64,
}

/// What an append file holds.
pub struct FileState {
    /// All bytes, the buffer counted in.
    pub contents: Seq<u8>,
    /// How many of them are in the buffer.
    pub buffered: nat,
    /// Reserved length of the file.
    pub len: u64,
}

impl FileState {
    /// No more bytes are buffered than there are, and neither they nor the reserved space go
    /// past the end of the longest file.
    pub open spec fn wf(self) -> bool {
        &&& self.buffered <= self.contents.len()
        &&& self.contents.len() <= Span::MAX_FILE_SIZE
        &&& self.len <= Span::MAX_FILE_SIZE
    }

    /// Bytes that are in the file.
    pub open spec fn written(self) -> Seq<u8> {
        self.contents.take(self.contents.len() - self.buffered)
    }

    /// After the buffer was moved into the file.
    pub open spec fn flushed(self) -> FileState {
        FileState {
            contents: self.contents,
            buffered: 0,
            len: if self.buffered > 0 && self.len < self.contents.len() {
                self.contents.len() as u64
            } else {
                self.len
            },
        }
    }

    /// After bytes were appended. `None` if they would lie past what a span can address.
    pub open spec fn appended(self, bytes: Seq<u8>) -> Option<FileState> {
        if self.contents.len() + bytes.len() > Span::MAX_FILE_SIZE {
            None
        } else {
            let next = FileState {
                contents: self.contents + bytes,
                buffered: self.buffered + bytes.len(),
                len: self.len,
            };
            if next.buffered >= FILE_BUFFER_SIZE {
                Some(next.flushed())
            } else {
                Some(next)
            }
        }
    }

    /// After the buffer was moved into the file, and more space reserved if it was running
    /// out. `None` if the space would go past what a span can address.
    pub open spec fn persisted(self) -> Option<FileState> {
        if self.len - self.contents.len() >= PREALLOCATION_THRESHOLD {
            Some(self.flushed())
        } else if self.len + PREALLOCATION_SIZE > Span::MAX_FILE_SIZE {
            None
        } else {
            Some(FileState { len: (self.len + PREALLOCATION_SIZE) as u64, ..self }.flushed())
        }
    }

    /// After the buffer was moved into the file, and the space that was not used given up.
    pub open spec fn finalized(self) -> FileState {
        FileState { contents: self.contents, buffered: 0, len: self.contents.len() as u64 }
    }
}

/// An empty file.
pub open spec fn empty_file() -> FileState {
    FileState { contents: Seq::empty(), buffered: 0, len: 0 }
}

impl View for AppendFile {
    type V = FileState;

    open spec fn view(&self) -> FileState {
        FileState {
            contents: self.file@ + self.buffer@,
            buffered: self.buffer@.len(),
            len: self.len,
        }
    }
}

impl AppendFile {
    /// The cursor stands behind the last byte.
    pub open spec fn wf(self) -> bool {
        &&& self@.wf()
        &&& self.cursor == self@.contents.len()
    }

    /// What is in the file.
    pub proof fn file_is_written(self)
        ensures
            self@.written() == self.file@,
    {
        assert(self@.written() =~= self.file@);
    }

    /// Opens a file that holds `bytes`, to go on behind the first `cursor` of them: what lies
    /// further back was never published, and is space that is reserved.
    pub fn new(bytes: Vec<u8>, cursor: u64) -> (file: AppendFile)
        requires
            cursor <= bytes@.len() <= Span::MAX_FILE_SIZE,
        ensures
            file.wf(),
            file.cursor == cursor,
            file@ == opened(bytes@, cursor as nat),
    {
        let len: u64 = bytes.len() as u64;
        let mut kept = bytes;
        kept.truncate(cursor as usize);
        let file = AppendFile { file: kept, buffer: Vec::new(), cursor, len };
        assert(file@.contents =~= bytes@.take(cursor as int));
        file
    }

    /// Moves the buffer into the file.
    pub fn flush(&mut self)
        requires
            old(self).wf(),
        ensures
            final(self).wf(),
            final(self)@ == old(self)@.flushed(),
            final(self).cursor == old(self).cursor,
    {
        let ghost before = *self;
        if self.buffer.len() == 0 {
            return;
        }
        let mut bytes: Vec<u8> = Vec::new();
        std::mem::swap(&mut bytes, &mut self.buffer);
        self.file.append(&mut bytes);
        if self.len < self.cursor {
            self.len = self.cursor;
        }
        assert(self@.contents =~= before@.contents);
    }

    /// Appends bytes, and flushes once enough of them are buffered. Refuses bytes that would
    /// lie past what a span can address.
    pub fn append(&mut self, bytes: &[u8]) -> (result: Result<(), LedgerError>)
        requires
            old(self).wf(),
        ensures
            final(self).wf(),
            match old(self)@.appended(bytes@) {
                Some(next) => {
                    &&& result is Ok
                    &&& final(self)@ == next
                },
                None => {
                    &&& result == Err::<(), LedgerError>(LedgerError::FileTooLarge)
                    &&& *final(self) == *old(self)
                },
            },
    {
        let ghost before = *self;
        if bytes.len() as u64 > Span::MAX_FILE_SIZE - self.cursor {
            return Err(LedgerError::FileTooLarge);
        }
        self.buffer.extend_from_slice(bytes);
        self.cursor = self.cursor + bytes.len() as u64;
        assert(self@.contents =~= before@.contents + bytes@);
        if self.buffer.len() >= FILE_BUFFER_SIZE {
            self.flush();
        }
        Ok(())
    }

    /// Flushes the file, after reserving more space if it is running out, and returns the
    /// position behind the last byte.
    pub fn persist(&mut self) -> (result: Result<u64, LedgerError>)
        requires
            old(self).wf(),
        ensures
            final(self).wf(),
            match old(self)@.persisted() {
                Some(next) => {
                    &&& result == Ok::<u64, LedgerError>(old(self).cursor)
                    &&& final(self)@ == next
                },
                None => {
                    &&& result == Err::<u64, LedgerError>(LedgerError::FileTooLarge)
                    &&& *final(self) == *old(self)
                },
            },
    {
        if self.len.saturating_sub(self.cursor) < PREALLOCATION_THRESHOLD {
            match self.preallocate() {
                Ok(()) => {},
                Err(error) => {
                    return Err(error);
                },
            }
        }
        self.flush();
        Ok(self.cursor)
    }

    /// Reserves more space.
    fn preallocate(&mut self) -> (result: Result<(), LedgerError>)
        requires
            old(self).wf(),
        ensures
            final(self).wf(),
            final(self).file == old(self).file,
            final(self).buffer == old(self).buffer,
            final(self).cursor == old(self).cursor,
            match result {
                Ok(_) => final(self).len == old(self).len + PREALLOCATION_SIZE,
                Err(error) => error == LedgerError::FileTooLarge && *final(self) == *old(self)
                    && old(self).len + PREALLOCATION_SIZE > Span::MAX_FILE_SIZE,
            },
    {
        if self.len + PREALLOCATION_SIZE > Span::MAX_FILE_SIZE {
            return Err(LedgerError::FileTooLarge);
        }
        self.len = self.len + PREALLOCATION_SIZE;
        Ok(())
    }

    /// Gives up the space that was reserved and not used.
    pub fn finalize(&mut self)
        requires
            old(self).wf(),
        ensures
            final(self).wf(),
            final(self)@ == old(self)@.finalized(),
            final(self).cursor == old(self).cursor,
    {
        self.flush();
        self.len = self.cursor;
    }

    /// Reads bytes of the file.
    pub fn read_at(&self, offset: u64, size: u64) -> (result: Result<Vec<u8>, LedgerError>)
        requires
            self.wf(),
        ensures
            match result {
                Ok(bytes) => bytes_at(self@.written(), offset as int, size as int) == Some(bytes@),
                Err(error) => error == LedgerError::IO && bytes_at(
                    self@.written(),
                    offset as int,
                    size as int,
                ) is None,
            },
    {
        proof {
            self.file_is_written();
        }
        let end: u64 = self.file.len() as u64;
        if offset > end || size > end - offset {
            return Err(LedgerError::IO);
        }
        Ok(copy_range(self.file.as_slice(), offset as usize, (offset + size) as usize))
    }
}

/// What a file that holds `bytes` is opened as, to go on behind the first `cursor` of them.
pub open spec fn opened(bytes: Seq<u8>, cursor: nat) -> FileState {
    FileState { contents: bytes.take(cursor as int), buffered: 0, len: bytes.len() as u64 }
}

/// `size` bytes of a file from `offset` on, if there are so many.
pub open spec fn bytes_at(file: Seq<u8>, offset: int, size: int) -> Option<Seq<u8>> {
    if 0 <= offset && 0 <= size && offset + size <= file.len() {
        Some(file.subrange(offset, offset + size))
    } else {
        None
    }
}

/// Bytes of a file stay where they are when more are appended.
pub proof fn appended_bytes_stay(file: Seq<u8>, more: Seq<u8>, offset: int, size: int)
    requires
        bytes_at(file, offset, size) is Some,
    ensures
        bytes_at(file + more, offset, size) == bytes_at(file, offset, size),
{
    assert((file + more).subrange(offset, offset + size) =~= file.subrange(offset, offset + size));
}

/// Inclusive range of slots.
#[derive(Clone, Copy, PartialEq, Eq, Structural, Debug)]
pub struct BlockRange {
    /// First slot.
    pub start: Slot,
    /// Last slot.
    pub end: Slot,
}

impl BlockRange {
    /// Whether a slot lies in the range.
    pub fn contains(&self, slot: Slot) -> (yes: bool)
        ensures
            yes == (self.start <= slot <= self.end),
    {
        self.start <= slot && slot <= self.end
    }
}

/// Ledger-wide metadata header.
#[derive(Clone, Copy, PartialEq, Eq, Structural, Debug)]
pub struct LedgerMeta {
    /// Transactions committed since genesis.
    pub transactions: u64,
    /// Superblocks that are retained, the active one counted in.
    pub superblocks: u64,
    /// Active superblock.
    pub head: u64,
    /// Slots that the retained superblocks cover.
    pub range: BlockRange,
    /// Blocks committed since genesis.
    pub blocks: u64,
}

impl Default for LedgerMeta {
    fn default() -> (meta: LedgerMeta)
        ensures
            meta == (LedgerMeta {
                transactions: 0,
                superblocks: 1,
                head: 1,
                range: BlockRange { start: 0, end: 0 },
                blocks: 0,
            }),
    {
        LedgerMeta {
            transactions: 0,
            superblocks: 1,
            head: 1,
            range: BlockRange { start: 0, end: 0 },
            blocks: 0,
        }
    }
}

impl LedgerMeta {
    /// Active superblock.
    pub fn head(&self) -> (head: u64)
        ensures
            head == self.head,
    {
        self.head
    }

    /// Oldest superblock that is retained.
    pub open spec fn oldest(self) -> int {
        if self.superblocks == 0 {
            self.head as int
        } else {
            self.head - (self.superblocks - 1)
        }
    }

    /// Superblocks that are retained, the active one counted in.
    pub fn superblocks(&self) -> (range: Range<u64>)
        requires
            self.superblocks <= self.head + 1,
            self.head < u64::MAX,
        ensures
            range.start == self.oldest(),
            range.end == self.head + 1,
    {
        let head: u64 = self.head();
        let start: u64 = head - self.superblocks.saturating_sub(1);
        start..head + 1
    }
}

/// Positions up to which the files of a superblock are published.
#[derive(Clone, Copy, PartialEq, Eq, Structural, Debug)]
pub struct FileCursors {
    /// Position in the blockstore file.
    pub blockstore: u64,
    /// Position in the executions file.
    pub executions: u64,
}

/// Metadata header of one superblock.
#[derive(Clone, Copy, PartialEq, Eq, Structural, Debug)]
pub struct SuperblockMeta {
    /// Format of the superblock.
    pub version: u64,
    /// Published positions.
    pub cursors: FileCursors,
    /// Slots of the superblock.
    pub range: BlockRange,
    /// Account checksum of the seal that opened the superblock.
    pub checksum: u64,
    /// Transaction count of the seal that opened the superblock.
    pub transactions: u64,
}

impl Default for SuperblockMeta {
    fn default() -> (meta: SuperblockMeta)
        ensures
            meta == (SuperblockMeta {
                version: VERSION,
                cursors: FileCursors { blockstore: 0, executions: 0 },
                range: BlockRange { start: 0, end: 0 },
                checksum: 0,
                transactions: 0,
            }),
    {
        SuperblockMeta {
            version: VERSION,
            cursors: FileCursors { blockstore: 0, executions: 0 },
            range: BlockRange { start: 0, end: 0 },
            checksum: 0,
            transactions: 0,
        }
    }
}

} // verus!
