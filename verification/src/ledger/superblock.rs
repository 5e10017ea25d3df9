//! One superblock: its files, its index, and what is read from them.

use vstd::prelude::*;

use crate::ledger::codec::{
    decode, decode_header, parse_entry, parse_header,
};
use crate::ledger::compress::{restore_details, restored_details};
use crate::ledger::error::{Corruption, LedgerError};
use crate::ledger::index::{find_block, find_transaction, IndexReader, Keyspace, Span};
use crate::ledger::request::{
    payloads, responses, BlockDetails, BlockResponse, BlockResponseView, BlockWithSignatures,
    BlockWithTransactions, FullBlockInfo, TransactionResponse, TransactionResponseView,
};
use crate::ledger::schema::{
    BlockstoreEntry, EntryView, Execution, ExecutionHeader, ExecutionView,
};
use crate::ledger::storage::{
    bytes_at, empty_file, opened, AppendFile, BlockRange, FileCursors, FileState, SuperblockMeta,
    VERSION,
};
use crate::text::{numbered, padded};
use crate::types::{Block, Signature, Slot};
use crate::view::{sanitize, sanitized_view};

verus! {

/// Files and index of a group of blocks.
pub struct Superblock {
    /// Number of the superblock.
    pub id: u64,
    /// Metadata header.
    pub meta: SuperblockMeta,
    /// Stream of transactions, block ends, and the seal.
    pub blockstore: AppendFile,
    /// Executions.
    pub executions: AppendFile,
    /// Index of both files.
    pub index: Keyspace,
}

/// What is read of a superblock.
pub struct SuperblockView {
    pub id: u64,
    pub meta: SuperblockMeta,
    pub blockstore: FileState,
    pub executions: FileState,
    pub rows: Map<Seq<u8>, Seq<u8>>,
}

impl View for Superblock {
    type V = SuperblockView;

    open spec fn view(&self) -> SuperblockView {
        SuperblockView {
            id: self.id,
            meta: self.meta,
            blockstore: self.blockstore@,
            executions: self.executions@,
            rows: self.index@,
        }
    }
}

impl Superblock {
    /// Files and index are well-formed.
    pub open spec fn wf(self) -> bool {
        &&& self.blockstore.wf()
        &&& self.executions.wf()
        &&& self.index.wf()
    }

    /// Name of the directory and of the index of a superblock.
    pub fn name(id: u64) -> (name: String)
        ensures
            name@ == "superblock-"@ + padded(id as nat, 9),
    {
        numbered("superblock-", id, 9)
    }

    /// A superblock without entries.
    pub fn new(id: u64) -> (superblock: Superblock)
        ensures
            superblock.wf(),
            superblock.id == id,
            superblock.meta.version == VERSION,
            superblock@ == fresh(id),
    {
        let superblock = Superblock {
            id,
            meta: SuperblockMeta::default(),
            blockstore: AppendFile::new(Vec::new(), 0),
            executions: AppendFile::new(Vec::new(), 0),
            index: Keyspace::new(),
        };
        assert(opened(Seq::empty(), 0).contents =~= empty_file().contents);
        superblock
    }

    /// Accepts the files of a superblock if they have the current format.
    pub fn open(self) -> (result: Result<Superblock, LedgerError>)
        ensures
            match result {
                Ok(superblock) => self.meta.version == VERSION && superblock == self,
                Err(error) => self.meta.version != VERSION && error
                    == LedgerError::UnsupportedVersion(self.meta.version),
            },
    {
        if self.meta.version != VERSION {
            return Err(LedgerError::UnsupportedVersion(self.meta.version));
        }
        Ok(self)
    }

    /// Account checksum of the seal that opened this superblock.
    pub fn checksum(&self) -> (checksum: u64)
        ensures
            checksum == self.meta.checksum,
    {
        self.meta.checksum
    }

    /// Transaction count of the seal that opened this superblock.
    pub fn transactions(&self) -> (transactions: u64)
        ensures
            transactions == self.meta.transactions,
    {
        self.meta.transactions
    }

    /// Reads the entry at a span of the blockstore file.
    pub fn blockstore_entry(&self, span: Span) -> (result: Result<BlockstoreEntry, LedgerError>)
        requires
            self.wf(),
        ensures
            match result {
                Ok(entry) => entry_at(self@, span) == Ok::<EntryView, LedgerError>(entry@),
                Err(error) => entry_at(self@, span) == Err::<EntryView, LedgerError>(error),
            },
    {
        let bytes = match self.blockstore.read_at(span.offset(), span.size()) {
            Ok(bytes) => bytes,
            Err(error) => {
                return Err(error);
            },
        };
        assert(bytes@.skip(0) =~= bytes@);
        match decode(bytes.as_slice(), 0) {
            Ok((entry, _)) => Ok(entry),
            Err(error) => Err(error),
        }
    }

    /// Reads the transaction at a span of the blockstore file.
    pub fn transaction_entry(&self, span: Span) -> (result: Result<Vec<u8>, LedgerError>)
        requires
            self.wf(),
        ensures
            match result {
                Ok(payload) => transaction_at(self@, span) == Ok::<Seq<u8>, LedgerError>(payload@),
                Err(error) => transaction_at(self@, span) == Err::<Seq<u8>, LedgerError>(error),
            },
    {
        match self.blockstore_entry(span) {
            Ok(BlockstoreEntry::Transaction(payload)) => Ok(payload),
            Ok(_) => Err(LedgerError::Corruption(Corruption::TransactionEntry)),
            Err(error) => Err(error),
        }
    }

    /// Reads the header of the execution at a span of the executions file.
    pub fn header(&self, span: Span) -> (result: Result<ExecutionHeader, LedgerError>)
        requires
            self.wf(),
        ensures
            result == header_at(self@, span),
    {
        let bytes = match self.executions.read_at(span.offset(), span.size()) {
            Ok(bytes) => bytes,
            Err(error) => {
                return Err(error);
            },
        };
        match decode_header(bytes.as_slice()) {
            Ok((header, _)) => Ok(header),
            Err(error) => Err(error),
        }
    }

    /// Reads the execution at a span of the executions file.
    pub fn execution(&self, span: Span, dictionary: &[u8]) -> (result: Result<
        Execution,
        LedgerError,
    >)
        requires
            self.wf(),
        ensures
            match result {
                Ok(execution) => execution_at(self@, span, dictionary@) == Ok::<
                    ExecutionView,
                    LedgerError,
                >(execution@),
                Err(error) => execution_at(self@, span, dictionary@) == Err::<
                    ExecutionView,
                    LedgerError,
                >(error),
            },
    {
        let bytes = match self.executions.read_at(span.offset(), span.size()) {
            Ok(bytes) => bytes,
            Err(error) => {
                return Err(error);
            },
        };
        let (header, end) = match decode_header(bytes.as_slice()) {
            Ok(read) => read,
            Err(error) => {
                return Err(error);
            },
        };
        let frame = crate::ledger::codec::copy_range(bytes.as_slice(), end, bytes.len());
        assert(frame@ =~= bytes@.skip(end as int));
        match restore_details(frame.as_slice(), dictionary) {
            Ok(details) => Ok(Execution { header, details }),
            Err(error) => Err(error),
        }
    }

    /// Time of a slot's block, or zero if the block is not known.
    pub fn blocktime(&self, slot: Slot) -> (result: Result<i64, LedgerError>)
        requires
            self.wf(),
        ensures
            result == blocktime_at(self@, slot),
    {
        match IndexReader::new(&self.index).block(slot) {
            Ok(Some(span)) => match self.blockstore_entry(span) {
                Ok(BlockstoreEntry::Block(block)) => Ok(block.time),
                Ok(_) => Ok(0),
                Err(error) => Err(error),
            },
            Ok(None) => Ok(0),
            Err(error) => Err(error),
        }
    }

    /// Assembles the response for the block whose end stands at `span`: the transactions
    /// between the end of the previous slot's block and that position, as far as they are
    /// wanted.
    pub fn populate_block_response(
        &self,
        slot: Slot,
        details: BlockDetails,
        span: Span,
        dictionary: &[u8],
    ) -> (result: Result<BlockResponse, LedgerError>)
        requires
            self.wf(),
        ensures
            match result {
                Ok(response) => block_response(self@, slot, details, span, dictionary@) == Ok::<
                    BlockResponseView,
                    LedgerError,
                >(response@),
                Err(error) => block_response(self@, slot, details, span, dictionary@) == Err::<
                    BlockResponseView,
                    LedgerError,
                >(error),
            },
    {
        let block = match self.blockstore_entry(span) {
            Ok(BlockstoreEntry::Block(block)) => block,
            Ok(_) => {
                return Err(LedgerError::Corruption(Corruption::BlockEntry));
            },
            Err(error) => {
                return Err(error);
            },
        };
        if details == BlockDetails::Boundary {
            return Ok(BlockResponse::Bare(block));
        }
        let reader = IndexReader::new(&self.index);
        let start: u64 = if slot == 0 {
            0
        } else {
            match reader.block(slot - 1) {
                Ok(Some(previous)) => previous.offset() + previous.size(),
                Ok(None) => 0,
                Err(error) => {
                    return Err(error);
                },
            }
        };
        let end: u64 = span.offset();
        if start > end {
            return Err(LedgerError::Corruption(Corruption::BlockEntry));
        }
        let bytes = match self.blockstore.read_at(start, end - start) {
            Ok(bytes) => bytes,
            Err(error) => {
                return Err(error);
            },
        };
        let ghost d = dictionary@;
        let ghost goal = gather(self@, details, d, bytes@, nothing());
        let mut full: Vec<TransactionResponse> = Vec::new();
        let mut transactions: Vec<Vec<u8>> = Vec::new();
        let mut signatures: Vec<Signature> = Vec::new();
        let mut at: usize = 0;
        proof {
            assert(bytes@.skip(0) =~= bytes@);
            assert(responses(full@) =~= nothing().full);
            assert(payloads(transactions@) =~= nothing().transactions);
            assert(signatures@ =~= nothing().signatures);
        }
        while at < bytes.len()
            invariant
                self.wf(),
                at <= bytes@.len(),
                d == dictionary@,
                reader.keyspace == self.index,
                details != BlockDetails::Boundary,
                goal == gather(
                    self@,
                    details,
                    d,
                    bytes@.skip(at as int),
                    Gathered {
                        full: responses(full@),
                        transactions: payloads(transactions@),
                        signatures: signatures@,
                    },
                ),
                block_response(self@, slot, details, span, d) == assembled(block, details, goal),
            decreases bytes@.len() - at,
        {
            let ghost rest = bytes@.skip(at as int);
            let ghost so_far = Gathered {
                full: responses(full@),
                transactions: payloads(transactions@),
                signatures: signatures@,
            };
            proof {
                crate::ledger::codec::parse_entry_progress(rest);
            }
            let (entry, next) = match decode(bytes.as_slice(), at) {
                Ok(read) => read,
                Err(error) => {
                    return Err(error);
                },
            };
            let transaction = match entry {
                BlockstoreEntry::Transaction(transaction) => transaction,
                _ => {
                    return Err(LedgerError::Corruption(Corruption::BlockContents));
                },
            };
            let ghost payload = transaction@;
            assert(rest.skip(next - at) =~= bytes@.skip(next as int));
            if details == BlockDetails::Transactions {
                let ghost before = transactions@;
                transactions.push(transaction);
                assert(payloads(transactions@) =~= payloads(before).push(payload));
            } else {
                let signature = match first_signature(transaction.as_slice()) {
                    Ok(signature) => signature,
                    Err(error) => {
                        return Err(error);
                    },
                };
                if details == BlockDetails::Signatures {
                    signatures.push(signature);
                } else {
                    match reader.transaction(&signature) {
                        Ok(Some(spans)) => {
                            match self.execution(spans.execution, dictionary) {
                                Ok(execution) => {
                                    let ghost before = full@;
                                    full.push(TransactionResponse { transaction, execution });
                                    assert(responses(full@) =~= responses(before).push(
                                        TransactionResponseView {
                                            transaction: payload,
                                            execution: execution@,
                                        },
                                    ));
                                },
                                Err(error) => {
                                    return Err(error);
                                },
                            }
                        },
                        Ok(None) => {},
                        Err(error) => {
                            return Err(error);
                        },
                    }
                }
            }
            at = next;
        }
        proof {
            assert(bytes@.skip(at as int) =~= Seq::<u8>::empty());
        }
        let response = match details {
            BlockDetails::Full => BlockResponse::Full(FullBlockInfo { block, transactions: full }),
            BlockDetails::Transactions => {
                BlockResponse::WithTransactions(BlockWithTransactions { block, transactions })
            },
            BlockDetails::Signatures => {
                BlockResponse::WithSignatures(BlockWithSignatures { block, signatures })
            },
            BlockDetails::Boundary => BlockResponse::Bare(block),
        };
        Ok(response)
    }
}

/// A superblock without entries.
pub open spec fn fresh(id: u64) -> SuperblockView {
    SuperblockView {
        id,
        meta: SuperblockMeta {
            version: VERSION,
            cursors: FileCursors { blockstore: 0, executions: 0 },
            range: BlockRange { start: 0, end: 0 },
            checksum: 0,
            transactions: 0,
        },
        blockstore: empty_file(),
        executions: empty_file(),
        rows: Map::empty(),
    }
}

/// Signature that a serialized transaction is known by.
pub open spec fn signature_of(transaction: Seq<u8>) -> Result<Signature, LedgerError> {
    match sanitized_view(transaction, false) {
        Some(view) => Ok(view.signatures[0]),
        None => Err(LedgerError::TransactionView),
    }
}

/// Signature that a serialized transaction is known by.
pub fn first_signature(transaction: &[u8]) -> (result: Result<Signature, LedgerError>)
    ensures
        result == signature_of(transaction@),
{
    match sanitize(transaction, false) {
        Some(view) => Ok(view.signatures[0]),
        None => Err(LedgerError::TransactionView),
    }
}

/// Entry at a span of the blockstore file.
pub open spec fn entry_at(sb: SuperblockView, span: Span) -> Result<EntryView, LedgerError> {
    match bytes_at(sb.blockstore.written(), span.at() as int, span.width() as int) {
        Some(bytes) => match parse_entry(bytes) {
            Some((entry, _)) => Ok(entry),
            None => Err(LedgerError::Codec),
        },
        None => Err(LedgerError::IO),
    }
}

/// Transaction at a span of the blockstore file.
pub open spec fn transaction_at(sb: SuperblockView, span: Span) -> Result<Seq<u8>, LedgerError> {
    match entry_at(sb, span) {
        Ok(EntryView::Transaction(payload)) => Ok(payload),
        Ok(_) => Err(LedgerError::Corruption(Corruption::TransactionEntry)),
        Err(error) => Err(error),
    }
}

/// Header of the execution at a span of the executions file.
pub open spec fn header_at(sb: SuperblockView, span: Span) -> Result<ExecutionHeader, LedgerError> {
    match bytes_at(sb.executions.written(), span.at() as int, span.width() as int) {
        Some(bytes) => match parse_header(bytes) {
            Some((header, _)) => Ok(header),
            None => Err(LedgerError::Codec),
        },
        None => Err(LedgerError::IO),
    }
}

/// Execution at a span of the executions file.
pub open spec fn execution_at(sb: SuperblockView, span: Span, dictionary: Seq<u8>) -> Result<
    ExecutionView,
    LedgerError,
> {
    match bytes_at(sb.executions.written(), span.at() as int, span.width() as int) {
        Some(bytes) => match parse_header(bytes) {
            Some((header, n)) => match restored_details(bytes.skip(n as int), dictionary) {
                Ok(details) => Ok(ExecutionView { header, details }),
                Err(error) => Err(error),
            },
            None => Err(LedgerError::Codec),
        },
        None => Err(LedgerError::IO),
    }
}

/// Time of a slot's block, or zero if the block is not known.
pub open spec fn blocktime_at(sb: SuperblockView, slot: Slot) -> Result<i64, LedgerError> {
    match find_block(sb.rows, slot) {
        Ok(Some(span)) => match entry_at(sb, span) {
            Ok(EntryView::Block(block)) => Ok(block.time),
            Ok(_) => Ok(0),
            Err(error) => Err(error),
        },
        Ok(None) => Ok(0),
        Err(error) => Err(error),
    }
}

/// What was gathered of a block.
pub struct Gathered {
    pub full: Seq<TransactionResponseView>,
    pub transactions: Seq<Seq<u8>>,
    pub signatures: Seq<Signature>,
}

/// Nothing gathered yet.
pub open spec fn nothing() -> Gathered {
    Gathered { full: Seq::empty(), transactions: Seq::empty(), signatures: Seq::empty() }
}

/// What was gathered after one more transaction.
pub open spec fn gathered_one(
    sb: SuperblockView,
    details: BlockDetails,
    dictionary: Seq<u8>,
    payload: Seq<u8>,
    so_far: Gathered,
) -> Result<Gathered, LedgerError> {
    if details == BlockDetails::Transactions {
        Ok(Gathered { transactions: so_far.transactions.push(payload), ..so_far })
    } else {
        match signature_of(payload) {
            Ok(signature) => if details == BlockDetails::Signatures {
                Ok(Gathered { signatures: so_far.signatures.push(signature), ..so_far })
            } else {
                match find_transaction(sb.rows, signature) {
                    Ok(Some(spans)) => match execution_at(sb, spans.execution, dictionary) {
                        Ok(execution) => Ok(
                            Gathered {
                                full: so_far.full.push(
                                    TransactionResponseView { transaction: payload, execution },
                                ),
                                ..so_far
                            },
                        ),
                        Err(error) => Err(error),
                    },
                    Ok(None) => Ok(so_far),
                    Err(error) => Err(error),
                }
            },
            Err(error) => Err(error),
        }
    }
}

/// What is gathered from the bytes between two block ends: they hold transactions and
/// nothing else.
pub open spec fn gather(
    sb: SuperblockView,
    details: BlockDetails,
    dictionary: Seq<u8>,
    bytes: Seq<u8>,
    so_far: Gathered,
) -> Result<Gathered, LedgerError>
    decreases bytes.len(),
{
    if bytes.len() == 0 {
        Ok(so_far)
    } else {
        match parse_entry(bytes) {
            Some((EntryView::Transaction(payload), n)) => match gathered_one(
                sb,
                details,
                dictionary,
                payload,
                so_far,
            ) {
                Ok(next) => gather(sb, details, dictionary, bytes.skip(n as int), next),
                Err(error) => Err(error),
            },
            Some(_) => Err(LedgerError::Corruption(Corruption::BlockContents)),
            None => Err(LedgerError::Codec),
        }
    }
}

/// Response made of what was gathered.
pub open spec fn assembled(
    block: Block,
    details: BlockDetails,
    gathered: Result<Gathered, LedgerError>,
) -> Result<BlockResponseView, LedgerError> {
    match gathered {
        Ok(g) => Ok(
            match details {
                BlockDetails::Full => BlockResponseView::Full(block, g.full),
                BlockDetails::Transactions => BlockResponseView::WithTransactions(
                    block,
                    g.transactions,
                ),
                BlockDetails::Signatures => BlockResponseView::WithSignatures(block, g.signatures),
                BlockDetails::Boundary => BlockResponseView::Bare(block),
            },
        ),
        Err(error) => Err(error),
    }
}

/// Where the transactions of a slot's block begin: behind the end of the previous slot's
/// block, or at the beginning of the superblock.
pub open spec fn block_start(sb: SuperblockView, slot: Slot) -> Result<int, LedgerError> {
    if slot == 0 {
        Ok(0)
    } else {
        match find_block(sb.rows, (slot - 1) as u64) {
            Ok(Some(previous)) => Ok(previous.at() + previous.width()),
            Ok(None) => Ok(0),
            Err(error) => Err(error),
        }
    }
}

/// Response for the block whose end stands at `span`.
pub open spec fn block_response(
    sb: SuperblockView,
    slot: Slot,
    details: BlockDetails,
    span: Span,
    dictionary: Seq<u8>,
) -> Result<BlockResponseView, LedgerError> {
    match entry_at(sb, span) {
        Ok(EntryView::Block(block)) => if details == BlockDetails::Boundary {
            Ok(BlockResponseView::Bare(block))
        } else {
            match block_start(sb, slot) {
                Ok(start) => if start > span.at() {
                    Err(LedgerError::Corruption(Corruption::BlockEntry))
                } else {
                    match bytes_at(sb.blockstore.written(), start, span.at() - start) {
                        Some(bytes) => assembled(
                            block,
                            details,
                            gather(sb, details, dictionary, bytes, nothing()),
                        ),
                        None => Err(LedgerError::IO),
                    }
                },
                Err(error) => Err(error),
            }
        },
        Ok(_) => Err(LedgerError::Corruption(Corruption::BlockEntry)),
        Err(error) => Err(error),
    }
}

} // verus!
