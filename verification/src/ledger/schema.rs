//! Blockstore entries, executions, and append events.

use std::sync::Arc;

use vstd::prelude::*;

use crate::ledger::outcome::TransactionResult;
use crate::types::{Block, Pubkey, Signature, Slot, SuperblockSeal};

verus! {

/// Largest encoded entry that a span can represent.
pub const MAX_ENTRY_SIZE: usize = 33554431;

/// Largest encoding of execution details that is kept: 4 MiB.
pub const MAX_EXECUTION_DETAILS_SIZE: usize = 4194304;

/// One entry of the blockstore stream.
#[derive(Debug)]
pub enum BlockstoreEntry {
    /// Ends the block that the transactions before it belong to.
    Block(Block),
    /// Serialized transaction.
    Transaction(Vec<u8>),
    /// Ends the superblock.
    Superblock(SuperblockSeal),
    /// Volatile accounts were dropped at this slot.
    Reset(Slot),
    /// Checksum of the persisted accounts at this point.
    Checkpoint(u64),
}

/// What an entry holds.
pub enum EntryView {
    Block(Block),
    Transaction(Seq<u8>),
    Superblock(SuperblockSeal),
    Reset(Slot),
    Checkpoint(u64),
}

impl View for BlockstoreEntry {
    type V = EntryView;

    open spec fn view(&self) -> EntryView {
        match self {
            BlockstoreEntry::Block(block) => EntryView::Block(*block),
            BlockstoreEntry::Transaction(payload) => EntryView::Transaction(payload@),
            BlockstoreEntry::Superblock(seal) => EntryView::Superblock(*seal),
            BlockstoreEntry::Reset(slot) => EntryView::Reset(*slot),
            BlockstoreEntry::Checkpoint(checksum) => EntryView::Checkpoint(*checksum),
        }
    }
}

/// Fixed part of an execution.
#[derive(Clone, Copy, Debug, PartialEq, Eq)]
pub struct ExecutionHeader {
    /// Signature of the transaction.
    pub signature: Signature,
    /// Outcome of the transaction.
    pub result: TransactionResult,
    /// Slot in which it was executed.
    pub slot: Slot,
}

/// Execution of one transaction.
#[derive(Debug)]
pub struct Execution {
    /// Fixed part.
    pub header: ExecutionHeader,
    /// Encoded details.
    pub details: Vec<u8>,
}

/// What an execution holds.
pub struct ExecutionView {
    pub header: ExecutionHeader,
    pub details: Seq<u8>,
}

impl View for Execution {
    type V = ExecutionView;

    open spec fn view(&self) -> ExecutionView {
        ExecutionView { header: self.header, details: self.details@ }
    }
}

/// Details of an execution.
#[derive(Debug, PartialEq, Eq)]
pub struct ExecutionDetails {
    /// Fee of the transaction.
    pub fee: u64,
    /// Balances around the execution.
    pub balances: Balances,
    /// Log lines.
    pub logs: Arc<Vec<String>>,
    /// Instructions that programs invoked.
    pub cpi: Option<Vec<Cpis>>,
    /// Compute units consumed.
    pub compute_units: u64,
    /// What the last program returned.
    pub return_data: Option<ReturnData>,
}

/// Instructions invoked by one transaction-level instruction.
#[derive(Debug, PartialEq, Eq)]
pub struct Cpis(pub Vec<Instruction>);

/// Instruction with its place on the invocation stack.
#[derive(Debug, PartialEq, Eq)]
pub struct Instruction {
    /// The instruction.
    pub compiled: CompiledInstruction,
    /// Height of the invocation stack; transaction-level instructions are at 1.
    pub stack_height: u8,
}

/// Instruction that names accounts by their positions.
#[derive(Debug, PartialEq, Eq)]
pub struct CompiledInstruction {
    /// Position of the program.
    pub program_index: u8,
    /// Positions of the accounts.
    pub accounts: Vec<u8>,
    /// Instruction data.
    pub data: Vec<u8>,
}

/// What a program returned.
#[derive(Debug, PartialEq, Eq)]
pub struct ReturnData {
    /// The program.
    pub program: [u8; 32],
    /// The bytes.
    pub data: Arc<Vec<u8>>,
}

/// Balances before and after an execution.
#[derive(Debug, PartialEq, Eq)]
pub struct Balances {
    /// Before.
    pub pre: Vec<u64>,
    /// After.
    pub post: Vec<u64>,
}

/// Transaction to be appended.
#[derive(Debug)]
pub struct TransactionEntry {
    /// First signature.
    pub signature: Signature,
    /// Serialized transaction.
    pub payload: Vec<u8>,
}

/// Work for the appender.
#[derive(Debug)]
pub enum Event {
    /// A transaction that will be executed.
    Transaction(TransactionEntry),
    /// The execution of a transaction that was appended, and the accounts that it names.
    Execution {
        /// The execution.
        execution: Execution,
        /// Static accounts of the transaction.
        accounts: Vec<Pubkey>,
    },
    /// The end of a block.
    Block(Block),
    /// The end of the active superblock.
    Superblock(SuperblockSeal),
    /// The end of the active superblock, whose transaction count is adopted.
    Bootstrap(SuperblockSeal),
    /// Volatile accounts were dropped.
    Reset(Slot),
    /// The checksum of the persisted accounts was sampled.
    Checkpoint(u64),
    /// Everything before is to become durable; the last one ends the stream.
    Sync {
        /// Whether the stream ends here.
        is_final: bool,
    },
}

} // verus!
