//! Opening the ledger, and serving questions to it.

use vstd::prelude::*;

use crate::ledger::error::LedgerError;
use crate::ledger::laws::{range_read_ends_below, range_read_is_ordered, slots_agree};
use crate::ledger::reader::{
    entry_list, read_block, read_blocks, read_history, read_replay, read_status, read_transaction,
    superblock_views, Ledger, LedgerView,
};
use crate::ledger::request::{
    AccountSignature, AccountSignaturesParams, BlockParams, BlockResponse,
    BlockResponseView, TransactionResponse, TransactionResponseView, TransactionStatus,
};
use crate::ledger::schema::{BlockstoreEntry, EntryView};
use crate::ledger::storage::{LedgerMeta, VERSION};
use crate::ledger::superblock::Superblock;
use crate::types::{Block, Signature, Slot};

verus! {

/// The first of the superblocks from `i` on that was written in another format.
pub open spec fn first_unsupported(list: Seq<Superblock>, i: int) -> Option<u64>
    decreases list.len() - i,
{
    if i < 0 || i >= list.len() {
        None
    } else if list[i].meta.version != VERSION {
        Some(list[i].meta.version)
    } else {
        first_unsupported(list, i + 1)
    }
}

impl Ledger {
    /// Opens a ledger from its header and the superblocks that it retains, oldest first. One
    /// that was written in another format is refused.
    pub fn open(
        meta: LedgerMeta,
        superblocks: Vec<Superblock>,
        size_limit: u64,
        dictionary: Vec<u8>,
    ) -> (result: Result<Ledger, LedgerError>)
        requires
            meta.head < u64::MAX,
            0 < meta.superblocks <= meta.head + 1,
            superblocks@.len() == meta.superblocks,
            forall|i: int|
                0 <= i < superblocks@.len() ==> (#[trigger] superblocks@[i]).wf()
                    && superblocks@[i].id == meta.oldest() + i,
        ensures
            match first_unsupported(superblocks@, 0) {
                Some(version) => result == Err::<Ledger, LedgerError>(
                    LedgerError::UnsupportedVersion(version),
                ),
                None => {
                    &&& result matches Ok(ledger)
                    &&& ledger.wf()
                    &&& ledger.meta == meta
                    &&& ledger.superblocks == superblocks
                    &&& ledger.size_limit == size_limit
                    &&& ledger.dictionary == dictionary
                },
            },
    {
        let mut i: usize = 0;
        while i < superblocks.len()
            invariant
                i <= superblocks@.len(),
                first_unsupported(superblocks@, 0) == first_unsupported(superblocks@, i as int),
            decreases superblocks@.len() - i,
        {
            let version: u64 = superblocks[i].meta.version;
            if version != VERSION {
                return Err(LedgerError::UnsupportedVersion(version));
            }
            i += 1;
        }
        let ledger = Ledger { meta, superblocks, size_limit, dictionary };
        proof {
            let views = superblock_views(ledger.superblocks@);
            assert forall|a: int, b: int| 0 <= a < b < views.len() implies (#[trigger] views[a]).id
                < (#[trigger] views[b]).id by {
                assert(ledger.superblocks@[a].id == meta.oldest() + a);
                assert(ledger.superblocks@[b].id == meta.oldest() + b);
            }
            assert(ledger.superblocks@[views.len() - 1].id == meta.head);
        }
        Ok(ledger)
    }
}

/// Question to the ledger.
#[derive(Clone, Copy, Debug)]
pub enum ReadRequest {
    /// Nothing more is asked.
    Shutdown,
    /// A transaction with its execution.
    Transaction(Signature),
    /// The status of a transaction.
    TransactionStatus(Signature),
    /// The history of an account.
    AccountSignatures(AccountSignaturesParams),
    /// A block.
    Block(BlockParams),
    /// The ends of the blocks from the first slot on and below the second.
    BlockRange(Slot, Slot),
    /// All entries after a sealed superblock.
    Replay(u64),
}

/// Answer of the ledger.
#[derive(Debug)]
pub enum ReadResponse {
    /// A transaction with its execution.
    Transaction(Result<Option<TransactionResponse>, LedgerError>),
    /// The status of a transaction.
    TransactionStatus(Result<Option<TransactionStatus>, LedgerError>),
    /// The history of an account.
    AccountSignatures(Result<Vec<AccountSignature>, LedgerError>),
    /// A block.
    Block(Result<Option<BlockResponse>, LedgerError>),
    /// The ends of blocks, oldest first.
    BlockRange(Result<Vec<Block>, LedgerError>),
    /// Entries in order, and what is wrong with the one after them.
    Replay(Vec<BlockstoreEntry>, Result<(), LedgerError>),
}

/// What an answer holds.
pub enum ResponseView {
    Transaction(Result<Option<TransactionResponseView>, LedgerError>),
    TransactionStatus(Result<Option<TransactionStatus>, LedgerError>),
    AccountSignatures(Result<Seq<AccountSignature>, LedgerError>),
    Block(Result<Option<BlockResponseView>, LedgerError>),
    BlockRange(Result<Seq<Block>, LedgerError>),
    Replay(Seq<EntryView>, Result<(), LedgerError>),
}

impl View for ReadResponse {
    type V = ResponseView;

    open spec fn view(&self) -> ResponseView {
        match self {
            ReadResponse::Transaction(result) => ResponseView::Transaction(
                match result {
                    Ok(Some(response)) => Ok(Some(response@)),
                    Ok(None) => Ok(None),
                    Err(error) => Err(*error),
                },
            ),
            ReadResponse::TransactionStatus(result) => ResponseView::TransactionStatus(*result),
            ReadResponse::AccountSignatures(result) => ResponseView::AccountSignatures(
                match result {
                    Ok(list) => Ok(list@),
                    Err(error) => Err(*error),
                },
            ),
            ReadResponse::Block(result) => ResponseView::Block(
                match result {
                    Ok(Some(response)) => Ok(Some(response@)),
                    Ok(None) => Ok(None),
                    Err(error) => Err(*error),
                },
            ),
            ReadResponse::BlockRange(result) => ResponseView::BlockRange(
                match result {
                    Ok(list) => Ok(list@),
                    Err(error) => Err(*error),
                },
            ),
            ReadResponse::Replay(entries, result) => ResponseView::Replay(
                entry_list(entries@),
                *result,
            ),
        }
    }
}

/// What several answers hold.
pub open spec fn response_views(list: Seq<ReadResponse>) -> Seq<ResponseView> {
    list.map_values(|response: ReadResponse| response@)
}

/// The history of an account, as it is asked for.
pub open spec fn history_answer(view: LedgerView, params: AccountSignaturesParams) -> Result<
    Seq<AccountSignature>,
    LedgerError,
> {
    read_history(
        view.superblocks,
        view.oldest(),
        params.pubkey,
        params.limit as nat,
        params.before,
        params.until,
        Seq::empty(),
    )
}

/// The answer to a question, if one is owed.
pub open spec fn answer(view: LedgerView, request: ReadRequest) -> Option<ResponseView> {
    match request {
        ReadRequest::Shutdown => None,
        ReadRequest::Transaction(signature) => Some(
            ResponseView::Transaction(
                read_transaction(view.superblocks, view.oldest(), signature, view.dictionary),
            ),
        ),
        ReadRequest::TransactionStatus(signature) => Some(
            ResponseView::TransactionStatus(
                read_status(view.superblocks, view.oldest(), signature),
            ),
        ),
        ReadRequest::AccountSignatures(params) => Some(
            ResponseView::AccountSignatures(history_answer(view, params)),
        ),
        ReadRequest::Block(params) => Some(
            ResponseView::Block(
                if view.meta.range.start <= params.slot <= view.meta.range.end {
                    read_block(view.superblocks, view.oldest(), params, view.dictionary)
                } else {
                    Ok(None)
                },
            ),
        ),
        ReadRequest::BlockRange(from, to) => Some(
            ResponseView::BlockRange(
                match read_blocks(
                    view.superblocks,
                    view.oldest(),
                    from as int,
                    to as int,
                    Seq::empty(),
                ) {
                    Ok(found) => Ok(found.reverse()),
                    Err(error) => Err(error),
                },
            ),
        ),
        ReadRequest::Replay(superblock) => {
            let (entries, result) = read_replay(view.superblocks, superblock, Seq::empty());
            Some(ResponseView::Replay(entries, result))
        },
    }
}

/// Answers to the first `n` questions, up to the one that ends the service.
pub open spec fn answers(view: LedgerView, requests: Seq<ReadRequest>, n: nat) -> Seq<ResponseView>
    decreases n,
{
    if n == 0 {
        Seq::empty()
    } else {
        let before = answers(view, requests, (n - 1) as nat);
        if stopped(requests, (n - 1) as nat) {
            before
        } else {
            match answer(view, requests[n - 1]) {
                Some(response) => before.push(response),
                None => before,
            }
        }
    }
}

/// The service was ended by one of the first `n` questions.
pub open spec fn stopped(requests: Seq<ReadRequest>, n: nat) -> bool {
    exists|i: int| 0 <= i < n && (#[trigger] requests[i]) is Shutdown
}

/// Serves questions to the ledger.
pub struct LedgerReader;

impl LedgerReader {
    /// Answers one question.
    pub fn serve(ledger: &Ledger, request: &ReadRequest) -> (response: Option<ReadResponse>)
        requires
            ledger.wf(),
        ensures
            match response {
                Some(r) => answer(ledger@, *request) == Some(r@),
                None => answer(ledger@, *request) is None,
            },
    {
        match request {
            ReadRequest::Shutdown => None,
            ReadRequest::Transaction(signature) => Some(
                ReadResponse::Transaction(ledger.transaction(signature)),
            ),
            ReadRequest::TransactionStatus(signature) => Some(
                ReadResponse::TransactionStatus(ledger.transaction_status(signature)),
            ),
            ReadRequest::AccountSignatures(params) => Some(
                ReadResponse::AccountSignatures(ledger.account_signatures(params)),
            ),
            ReadRequest::Block(params) => Some(ReadResponse::Block(ledger.block(*params))),
            ReadRequest::BlockRange(from, to) => Some(
                ReadResponse::BlockRange(ledger.blocks(*from, *to)),
            ),
            ReadRequest::Replay(superblock) => {
                let (entries, result) = ledger.replay(*superblock);
                Some(ReadResponse::Replay(entries, result))
            },
        }
    }

    /// Answers questions in order, until the one that ends the service.
    pub fn run(ledger: &Ledger, requests: &Vec<ReadRequest>) -> (responses: Vec<ReadResponse>)
        requires
            ledger.wf(),
        ensures
            response_views(responses@) == answers(ledger@, requests@, requests@.len()),
    {
        let mut responses: Vec<ReadResponse> = Vec::new();
        let mut i: usize = 0;
        assert(response_views(responses@) =~= Seq::<ResponseView>::empty());
        while i < requests.len()
            invariant
                i <= requests@.len(),
                ledger.wf(),
                !stopped(requests@, i as nat),
                response_views(responses@) == answers(ledger@, requests@, i as nat),
            decreases requests@.len() - i,
        {
            match Self::serve(ledger, &requests[i]) {
                Some(response) => {
                    let ghost before = responses@;
                    responses.push(response);
                    assert(response_views(responses@) =~= response_views(before).push(response@));
                },
                None => {
                    proof {
                        stays_stopped(
                            ledger@,
                            requests@,
                            i as int,
                            (i + 1) as nat,
                            requests@.len(),
                        );
                    }
                    return responses;
                },
            }
            i += 1;
        }
        responses
    }
}

proof fn stays_stopped(
    view: LedgerView,
    requests: Seq<ReadRequest>,
    at: int,
    n: nat,
    all: nat,
)
    requires
        0 <= at < n <= all,
        requests[at] is Shutdown,
    ensures
        answers(view, requests, all) == answers(view, requests, n),
    decreases all,
{
    if n < all {
        stays_stopped(view, requests, at, n, (all - 1) as nat);
        assert(stopped(requests, (all - 1) as nat));
    }
}

/// A ledger is opened if and only if all its superblocks were written in the supported format;
/// otherwise the format of the first one that was not is reported.
pub proof fn other_formats_are_refused(list: Seq<Superblock>, i: int)
    requires
        0 <= i,
    ensures
        first_unsupported(list, i) is None <==> forall|k: int|
            i <= k < list.len() ==> (#[trigger] list[k]).meta.version == VERSION,
        first_unsupported(list, i) matches Some(version) ==> exists|k: int|
            i <= k < list.len() && (#[trigger] list[k]).meta.version == version && version
                != VERSION && forall|j: int|
                i <= j < k ==> (#[trigger] list[j]).meta.version == VERSION,
    decreases list.len() - i,
{
    if i < list.len() {
        if list[i].meta.version == VERSION {
            other_formats_are_refused(list, i + 1);
            if let Some(version) = first_unsupported(list, i) {
                let k = choose|k: int|
                    i + 1 <= k < list.len() && (#[trigger] list[k]).meta.version == version
                        && version != VERSION && forall|j: int|
                        i + 1 <= j < k ==> (#[trigger] list[j]).meta.version == VERSION;
                assert(list[k].meta.version == version);
            }
        } else {
            assert(list[i].meta.version != VERSION);
        }
    }
}

/// Every question up to the one that ends the service is answered, each with its own answer,
/// in the order of the questions; those after it are not.
pub proof fn questions_are_answered_in_order(
    view: LedgerView,
    requests: Seq<ReadRequest>,
    n: nat,
    end: nat,
)
    requires
        end <= n <= requests.len(),
        forall|i: int| 0 <= i < end ==> !((#[trigger] requests[i]) is Shutdown),
        end < n ==> requests[end as int] is Shutdown,
    ensures
        answers(view, requests, n).len() == end,
        forall|i: int|
            0 <= i < end ==> Some(#[trigger] answers(view, requests, n)[i]) == answer(
                view,
                requests[i],
            ),
    decreases n,
{
    if n > 0 {
        let m = (n - 1) as nat;
        if end < n {
            if end < m {
                assert(stopped(requests, m));
                questions_are_answered_in_order(view, requests, m, end);
            } else {
                questions_are_answered_in_order(view, requests, m, m);
                assert(requests[m as int] is Shutdown);
            }
        } else {
            questions_are_answered_in_order(view, requests, m, m);
            assert(!stopped(requests, m)) by {
                if stopped(requests, m) {
                    let i = choose|i: int| 0 <= i < m && (#[trigger] requests[i]) is Shutdown;
                    assert(requests[i] is Shutdown);
                }
            }
            assert(!(requests[m as int] is Shutdown));
        }
    }
}

/// Each question is answered with what it asks for: a transaction, its status, a history, a
/// block, the ends of blocks, or entries. Only the end of the service is not answered.
pub proof fn answers_fit_their_questions(view: LedgerView, request: ReadRequest)
    ensures
        answer(view, request) is None <==> request is Shutdown,
        answer(view, request) matches Some(response) ==> {
            &&& response is Transaction <==> request is Transaction
            &&& response is TransactionStatus <==> request is TransactionStatus
            &&& response is AccountSignatures <==> request is AccountSignatures
            &&& response is Block <==> request is Block
            &&& response is BlockRange <==> request is BlockRange
            &&& response is Replay <==> request is Replay
        },
{
}

/// A block outside the slots of the ledger is unknown, whatever the superblocks hold.
pub proof fn blocks_outside_are_unknown(view: LedgerView, params: BlockParams)
    requires
        params.slot < view.meta.range.start || view.meta.range.end < params.slot,
    ensures
        answer(view, ReadRequest::Block(params)) == Some(
            ResponseView::Block(Ok::<Option<BlockResponseView>, LedgerError>(None)),
        ),
{
}

/// The ends of blocks are answered oldest first, each at most once, and only those from the first
/// slot on and below the second.
pub proof fn ranges_are_answered_oldest_first(view: LedgerView, from: Slot, to: Slot)
    requires
        forall|i: int| 0 <= i < view.superblocks.len() ==> slots_agree(#[trigger] view.superblocks[i]),
    ensures
        answer(view, ReadRequest::BlockRange(from, to)) matches Some(
            ResponseView::BlockRange(Ok(found)),
        ) ==> {
            &&& forall|i: int| 0 <= i < found.len() ==> from <= (#[trigger] found[i]).slot < to
            &&& forall|i: int, j: int|
                0 <= i < j < found.len() ==> (#[trigger] found[i]).slot < (#[trigger] found[j]).slot
        },
{
    let list = view.superblocks;
    range_read_is_ordered(list, view.oldest(), from as int, to as int, Seq::empty());
    range_read_ends_below(list, view.oldest(), from as int, to as int, Seq::empty(), to as int);
}

} // verus!
