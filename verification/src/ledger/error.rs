//! Ledger errors.

use vstd::prelude::*;

verus! {

/// What is wrong with stored ledger data.
#[derive(Clone, Copy, PartialEq, Eq, Structural, Debug)]
pub enum Corruption {
    /// A span stored as a value is malformed.
    SpanValue,
    /// A span stored in a key is malformed.
    SpanKey,
    /// The pair of spans of a transaction is malformed.
    TransactionSpans,
    /// The key of a block is malformed.
    SlotKey,
    /// The key of an account entry is malformed.
    AccountKey,
    /// An index entry of a transaction leads to something else.
    TransactionEntry,
    /// An index entry of a block leads to something else.
    BlockEntry,
    /// Something else than a transaction stands between two blocks.
    BlockContents,
    /// The files of the active superblock are missing.
    ActiveSuperblock,
}

impl Corruption {
    /// Describes what is wrong.
    pub fn message(self) -> (text: &'static str)
        ensures
            text@ == match self {
                Corruption::SpanValue => "invalid span value"@,
                Corruption::SpanKey => "invalid span key"@,
                Corruption::TransactionSpans => "invalid transaction span value"@,
                Corruption::SlotKey => "invalid slot key"@,
                Corruption::AccountKey => "invalid account index key"@,
                Corruption::TransactionEntry => "index points to invalid transaction entry"@,
                Corruption::BlockEntry => "index points to invalid block entry"@,
                Corruption::BlockContents => "blockstore includes invalid block entries"@,
                Corruption::ActiveSuperblock => "active superblock missing"@,
            },
    {
        match self {
            Corruption::SpanValue => "invalid span value",
            Corruption::SpanKey => "invalid span key",
            Corruption::TransactionSpans => "invalid transaction span value",
            Corruption::SlotKey => "invalid slot key",
            Corruption::AccountKey => "invalid account index key",
            Corruption::TransactionEntry => "index points to invalid transaction entry",
            Corruption::BlockEntry => "index points to invalid block entry",
            Corruption::BlockContents => "blockstore includes invalid block entries",
            Corruption::ActiveSuperblock => "active superblock missing",
        }
    }
}

/// Errors of ledger storage, codecs, and indexes.
#[derive(Clone, Copy, PartialEq, Eq, Structural, Debug)]
pub enum LedgerError {
    /// A read went past the end of a file.
    IO,
    /// A file would grow past what a span can address.
    FileTooLarge,
    /// A blockstore entry or an execution header is malformed or too large.
    Codec,
    /// Execution details could not be compressed or restored.
    Compression,
    /// Transaction bytes are malformed.
    TransactionView,
    /// Stored data does not fit together.
    Corruption(Corruption),
    /// A superblock was written in another format.
    UnsupportedVersion(u64),
}

} // verus!
