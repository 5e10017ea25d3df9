//! Questions to the ledger, and what it answers.

use vstd::prelude::*;

use crate::ledger::outcome::TransactionResult;
use crate::ledger::schema::{Execution, ExecutionView};
use crate::types::{Block, Pubkey, Signature, Slot};

verus! {

/// Entry of an account's history.
#[derive(Clone, Copy, Debug, PartialEq, Eq)]
pub struct AccountSignature {
    /// Signature of the transaction.
    pub signature: Signature,
    /// Slot in which it was executed.
    pub slot: Slot,
    /// Outcome of the transaction.
    pub result: TransactionResult,
    /// Time of the slot's block, or zero if it is not known.
    pub blocktime: i64,
}

/// Transaction with its execution.
#[derive(Debug)]
pub struct TransactionResponse {
    /// Serialized transaction.
    pub transaction: Vec<u8>,
    /// Its execution.
    pub execution: Execution,
}

/// What a transaction response holds.
pub struct TransactionResponseView {
    pub transaction: Seq<u8>,
    pub execution: ExecutionView,
}

impl View for TransactionResponse {
    type V = TransactionResponseView;

    open spec fn view(&self) -> TransactionResponseView {
        TransactionResponseView { transaction: self.transaction@, execution: self.execution@ }
    }
}

/// Outcome of a transaction and its slot.
#[derive(Clone, Copy, Debug, PartialEq, Eq)]
pub struct TransactionStatus {
    /// Outcome.
    pub result: TransactionResult,
    /// Slot in which it was executed.
    pub slot: Slot,
}

/// Question for an account's history.
#[derive(Clone, Copy, Debug)]
pub struct AccountSignaturesParams {
    /// The account.
    pub pubkey: Pubkey,
    /// How many entries are wanted at most.
    pub limit: usize,
    /// Only entries older than this signature are wanted.
    pub before: Option<Signature>,
    /// The history ends at this signature, which is not wanted.
    pub until: Option<Signature>,
}

/// Question for a block.
#[derive(Clone, Copy, Debug)]
pub struct BlockParams {
    /// The block.
    pub slot: Slot,
    /// How much of it is wanted.
    pub details: BlockDetails,
}

/// How much of a block is wanted.
#[derive(Clone, Copy, Debug, PartialEq, Eq, Structural)]
pub enum BlockDetails {
    /// Transactions with their executions.
    Full,
    /// Transactions.
    Transactions,
    /// Signatures.
    Signatures,
    /// The boundary alone.
    Boundary,
}

/// Block with transactions and executions.
#[derive(Debug)]
pub struct FullBlockInfo {
    /// The boundary.
    pub block: Block,
    /// Transactions that have executions, in order.
    pub transactions: Vec<TransactionResponse>,
}

/// Block with transactions.
#[derive(Debug)]
pub struct BlockWithTransactions {
    /// The boundary.
    pub block: Block,
    /// Serialized transactions, in order.
    pub transactions: Vec<Vec<u8>>,
}

/// Block with signatures.
#[derive(Debug)]
pub struct BlockWithSignatures {
    /// The boundary.
    pub block: Block,
    /// First signatures of the transactions, in order.
    pub signatures: Vec<Signature>,
}

/// Block as it was asked for.
#[derive(Debug)]
pub enum BlockResponse {
    /// The boundary alone.
    Bare(Block),
    /// With signatures.
    WithSignatures(BlockWithSignatures),
    /// With transactions.
    WithTransactions(BlockWithTransactions),
    /// With transactions and executions.
    Full(FullBlockInfo),
}

/// What a block response holds.
pub enum BlockResponseView {
    Bare(Block),
    WithSignatures(Block, Seq<Signature>),
    WithTransactions(Block, Seq<Seq<u8>>),
    Full(Block, Seq<TransactionResponseView>),
}

/// Contents of several transactions.
pub open spec fn payloads(list: Seq<Vec<u8>>) -> Seq<Seq<u8>> {
    list.map_values(|payload: Vec<u8>| payload@)
}

/// Contents of several transaction responses.
pub open spec fn responses(list: Seq<TransactionResponse>) -> Seq<TransactionResponseView> {
    list.map_values(|response: TransactionResponse| response@)
}

impl View for BlockResponse {
    type V = BlockResponseView;

    open spec fn view(&self) -> BlockResponseView {
        match self {
            BlockResponse::Bare(block) => BlockResponseView::Bare(*block),
            BlockResponse::WithSignatures(b) => BlockResponseView::WithSignatures(
                b.block,
                b.signatures@,
            ),
            BlockResponse::WithTransactions(b) => BlockResponseView::WithTransactions(
                b.block,
                payloads(b.transactions@),
            ),
            BlockResponse::Full(b) => BlockResponseView::Full(b.block, responses(b.transactions@)),
        }
    }
}

impl BlockResponseView {
    /// The boundary, which every response has.
    pub open spec fn boundary(self) -> Block {
        match self {
            BlockResponseView::Bare(block) => block,
            BlockResponseView::WithSignatures(block, _) => block,
            BlockResponseView::WithTransactions(block, _) => block,
            BlockResponseView::Full(block, _) => block,
        }
    }
}

impl BlockResponse {
    /// The boundary, which every response has.
    pub fn block(&self) -> (block: &Block)
        ensures
            *block == self@.boundary(),
    {
        match self {
            BlockResponse::Bare(b) => b,
            BlockResponse::WithSignatures(b) => &b.block,
            BlockResponse::WithTransactions(b) => &b.block,
            BlockResponse::Full(b) => &b.block,
        }
    }
}

} // verus!
