//! What readers are told: of what was recorded, and of what is not known.

use vstd::prelude::*;

use crate::ledger::error::LedgerError;
use crate::ledger::index::{
    block_row, find_block, find_transaction, transaction_row, Span, TxSpan,
};
use crate::ledger::laws::{history_is_bounded, page_is_ok};
use crate::ledger::reader::{
    account_spans, history_of, known_time, read_block, read_history, read_status,
    read_transaction, reaches, time_of, Ledger, Page,
};
use crate::ledger::request::{
    AccountSignature, AccountSignaturesParams, BlockParams, BlockResponse, BlockResponseView,
    TransactionResponse, TransactionResponseView, TransactionStatus,
};
use crate::ledger::schema::EntryView;
use crate::ledger::superblock::{entry_at, header_at, SuperblockView};
use crate::types::{Pubkey, Signature, Slot};

verus! {

/// A transaction that no retained superblock has in its index is unknown, and so is its status.
pub proof fn unknown_transactions_are_not_found(
    list: Seq<SuperblockView>,
    oldest: int,
    signature: Signature,
    dictionary: Seq<u8>,
)
    requires
        forall|i: int|
            0 <= i < list.len() ==> (#[trigger] list[i]).id < oldest
                || !list[i].rows.contains_key(transaction_row(signature)),
    ensures
        read_transaction(list, oldest, signature, dictionary) == Ok::<
            Option<TransactionResponseView>,
            LedgerError,
        >(None),
        read_status(list, oldest, signature) == Ok::<Option<TransactionStatus>, LedgerError>(None),
    decreases list.len(),
{
    if reaches(list, oldest) {
        assert(list[list.len() - 1] == list.last());
        let rest = list.drop_last();
        assert forall|i: int| 0 <= i < rest.len() implies (#[trigger] rest[i]).id < oldest
            || !rest[i].rows.contains_key(transaction_row(signature)) by {
            assert(rest[i] == list[i]);
        }
        unknown_transactions_are_not_found(rest, oldest, signature, dictionary);
    }
}

/// A transaction that is found has a status, which is that of its execution.
pub proof fn statuses_are_those_of_executions(
    list: Seq<SuperblockView>,
    oldest: int,
    signature: Signature,
    dictionary: Seq<u8>,
)
    ensures
        read_transaction(list, oldest, signature, dictionary) matches Ok(Some(found))
            ==> read_status(list, oldest, signature) == Ok::<
            Option<TransactionStatus>,
            LedgerError,
        >(
            Some(
                TransactionStatus {
                    result: found.execution.header.result,
                    slot: found.execution.header.slot,
                },
            ),
        ),
        read_transaction(list, oldest, signature, dictionary) == Ok::<
            Option<TransactionResponseView>,
            LedgerError,
        >(None) <==> read_status(list, oldest, signature) == Ok::<
            Option<TransactionStatus>,
            LedgerError,
        >(None),
    decreases list.len(),
{
    if reaches(list, oldest) {
        statuses_are_those_of_executions(list.drop_last(), oldest, signature, dictionary);
    }
}

/// A block is unknown if no retained superblock holds its slot, or if the newest one that does has
/// no such block in its index.
pub proof fn unknown_blocks_are_not_found(
    list: Seq<SuperblockView>,
    oldest: int,
    params: BlockParams,
    dictionary: Seq<u8>,
)
    requires
        forall|i: int|
            0 <= i < list.len() ==> (#[trigger] list[i]).id < oldest || params.slot
                < list[i].meta.range.start || list[i].meta.range.end < params.slot
                || !list[i].rows.contains_key(block_row(params.slot)),
    ensures
        read_block(list, oldest, params, dictionary) == Ok::<
            Option<BlockResponseView>,
            LedgerError,
        >(None),
    decreases list.len(),
{
    if reaches(list, oldest) {
        assert(list[list.len() - 1] == list.last());
        let rest = list.drop_last();
        assert forall|i: int| 0 <= i < rest.len() implies (#[trigger] rest[i]).id < oldest
            || params.slot < rest[i].meta.range.start || rest[i].meta.range.end < params.slot
            || !rest[i].rows.contains_key(block_row(params.slot)) by {
            assert(rest[i] == list[i]);
        }
        unknown_blocks_are_not_found(rest, oldest, params, dictionary);
    }
}

/// A transaction that the retained superblocks hold is handed out as it was recorded; one that
/// they do not hold is not handed out.
pub proof fn recorded_transactions_are_handed_out(
    ledger: Ledger,
    signature: Signature,
    result: Result<Option<TransactionResponse>, LedgerError>,
)
    requires
        ledger.gives_transaction(signature, result),
    ensures
        read_transaction(
            ledger@.superblocks,
            ledger@.oldest(),
            signature,
            ledger@.dictionary,
        ) matches Ok(Some(found)) ==> (result matches Ok(Some(response))
            && response.transaction@ == found.transaction && response@.execution
            == found.execution),
        (forall|i: int|
            0 <= i < ledger@.superblocks.len() ==> !(
            #[trigger] ledger@.superblocks[i]).rows.contains_key(transaction_row(signature)))
            ==> (result matches Ok(found) && found is None),
{
    if forall|i: int|
        0 <= i < ledger@.superblocks.len() ==> !(#[trigger] ledger@.superblocks[i]).rows.contains_key(
            transaction_row(signature),
        ) {
        unknown_transactions_are_not_found(
            ledger@.superblocks,
            ledger@.oldest(),
            signature,
            ledger@.dictionary,
        );
    }
}

/// A block that the retained superblocks hold is handed out if its slot is one of the ledger's, the
/// first and the last one counted in.
pub proof fn recorded_blocks_are_handed_out(
    ledger: Ledger,
    params: BlockParams,
    result: Result<Option<BlockResponse>, LedgerError>,
)
    requires
        ledger.gives_block(params, result),
    ensures
        ledger@.meta.range.start <= params.slot <= ledger@.meta.range.end ==> (read_block(
            ledger@.superblocks,
            ledger@.oldest(),
            params,
            ledger@.dictionary,
        ) matches Ok(Some(found)) ==> (result matches Ok(Some(response)) && response@ == found)),
        params.slot < ledger@.meta.range.start || ledger@.meta.range.end < params.slot ==> (result
            matches Ok(found) && found is None),
{
}

/// The history of an account that is handed out is that of the account that was asked for, from
/// behind the one signature up to the other, and no longer than wanted.
pub proof fn histories_are_handed_out(
    ledger: Ledger,
    params: AccountSignaturesParams,
    result: Result<Vec<AccountSignature>, LedgerError>,
)
    requires
        ledger.gives_history(params, result),
    ensures
        read_history(
            ledger@.superblocks,
            ledger@.oldest(),
            params.pubkey,
            params.limit as nat,
            params.before,
            params.until,
            Seq::empty(),
        ) matches Ok(found) ==> (result matches Ok(list) && list@ == found),
        result matches Ok(list) ==> list@.len() <= params.limit && forall|i: int|
            0 <= i < list@.len() ==> params.until != Some((#[trigger] list@[i]).signature),
{
    history_is_bounded(
        ledger@.superblocks,
        ledger@.oldest(),
        params.pubkey,
        params.limit as nat,
        params.before,
        params.until,
        Seq::empty(),
    );
}

/// An entry of a history says what an execution in a superblock says: its signature, its slot, and
/// its outcome. The first entry of a slot has the time of the slot's block.
pub open spec fn told(sb: SuperblockView, found: Seq<AccountSignature>, i: int) -> bool {
    exists|span: Span| #[trigger]
        header_at(sb, span) matches Ok(header) && {
            &&& found[i].signature == header.signature
            &&& found[i].slot == header.slot
            &&& found[i].result == header.result
            &&& (forall|j: int| 0 <= j < i ==> (#[trigger] found[j]).slot != found[i].slot)
                ==> has_time(sb, found[i].slot, found[i].blocktime)
        }
}

/// The time of a slot is that of its block, or zero where the index knows no block.
pub open spec fn has_time(sb: SuperblockView, slot: Slot, time: i64) -> bool {
    &&& !sb.rows.contains_key(block_row(slot)) ==> time == 0
    &&& find_block(sb.rows, slot) matches Ok(Some(span)) ==> (entry_at(sb, span) matches Ok(
        EntryView::Block(block),
    ) ==> time == block.time)
}

proof fn unknown_times(list: Seq<AccountSignature>, slot: Slot)
    requires
        forall|j: int| 0 <= j < list.len() ==> (#[trigger] list[j]).slot != slot,
    ensures
        known_time(list, slot) is None,
    decreases list.len(),
{
    if list.len() > 0 {
        let rest = list.drop_last();
        assert forall|j: int| 0 <= j < rest.len() implies (#[trigger] rest[j]).slot != slot by {
            assert(rest[j] == list[j]);
        }
        unknown_times(rest, slot);
        assert(list[list.len() - 1].slot != slot);
    }
}

proof fn page_tells(
    sb: SuperblockView,
    spans: Seq<Result<Span, LedgerError>>,
    limit: nat,
    until: Option<Signature>,
    so_far: Seq<AccountSignature>,
    i: int,
)
    requires
        so_far.len() <= i,
    ensures
        history_of(sb, spans, limit, until, so_far) matches Page::Continue(found) ==> i
            < found.len() ==> told(sb, found, i),
        history_of(sb, spans, limit, until, so_far) matches Page::Done(found) ==> i < found.len()
            ==> told(sb, found, i),
    decreases spans.len(),
{
    if spans.len() > 0 && so_far.len() < limit {
        if let Ok(span) = spans[0] {
            if let Ok(header) = header_at(sb, span) {
                if until != Some(header.signature) {
                    if let Ok(blocktime) = time_of(sb, header.slot, so_far) {
                        let entry = AccountSignature {
                            signature: header.signature,
                            slot: header.slot,
                            result: header.result,
                            blocktime,
                        };
                        let next = so_far.push(entry);
                        let rest = spans.skip(1);
                        page_is_ok(sb, rest, limit, until, next);
                        if i > so_far.len() {
                            page_tells(sb, rest, limit, until, next, i);
                        } else {
                            match history_of(sb, rest, limit, until, next) {
                                Page::Continue(found) => {
                                    entry_is_told(sb, span, so_far, entry, found);
                                },
                                Page::Done(found) => {
                                    entry_is_told(sb, span, so_far, entry, found);
                                },
                                Page::Failed(_) => {},
                            }
                        }
                    }
                }
            }
        }
    }
}

proof fn entry_is_told(
    sb: SuperblockView,
    span: Span,
    so_far: Seq<AccountSignature>,
    entry: AccountSignature,
    found: Seq<AccountSignature>,
)
    requires
        so_far.len() < found.len(),
        found.take((so_far.len() + 1) as int) == so_far.push(entry),
        header_at(sb, span) matches Ok(header) && entry.signature == header.signature && entry.slot
            == header.slot && entry.result == header.result,
        time_of(sb, entry.slot, so_far) == Ok::<i64, LedgerError>(entry.blocktime),
    ensures
        told(sb, found, so_far.len() as int),
{
    let i = so_far.len() as int;
    assert(found.take(i + 1)[i] == entry);
    if forall|j: int| 0 <= j < i ==> (#[trigger] found[j]).slot != found[i].slot {
        assert forall|j: int| 0 <= j < so_far.len() implies (#[trigger] so_far[j]).slot
            != entry.slot by {
            assert(found.take(i + 1)[j] == so_far[j]);
            assert(found[j].slot != found[i].slot);
        }
        unknown_times(so_far, entry.slot);
    }
    assert(header_at(sb, span) is Ok);
}

proof fn page_stays(
    sb: SuperblockView,
    found: Seq<AccountSignature>,
    more: Seq<AccountSignature>,
    i: int,
)
    requires
        0 <= i < found.len() <= more.len(),
        more.take(found.len() as int) == found,
        told(sb, found, i),
    ensures
        told(sb, more, i),
{
    assert forall|j: int| 0 <= j <= i implies more[j] == found[j] by {
        assert(more.take(found.len() as int)[j] == found[j]);
    }
    let span = choose|span: Span| #[trigger]
        header_at(sb, span) matches Ok(header) && {
            &&& found[i].signature == header.signature
            &&& found[i].slot == header.slot
            &&& found[i].result == header.result
            &&& (forall|j: int| 0 <= j < i ==> (#[trigger] found[j]).slot != found[i].slot)
                ==> has_time(sb, found[i].slot, found[i].blocktime)
        };
    assert(header_at(sb, span) is Ok);
    assert(more[i] == found[i]);
    if forall|j: int| 0 <= j < i ==> (#[trigger] more[j]).slot != more[i].slot {
        assert forall|j: int| 0 <= j < i implies (#[trigger] found[j]).slot != found[i].slot by {
            assert(more[j].slot != more[i].slot);
        }
    }
}

/// Every entry of a history that is read says what an execution in a retained superblock says.
pub proof fn histories_tell_what_happened(
    list: Seq<SuperblockView>,
    oldest: int,
    pubkey: Pubkey,
    limit: nat,
    before: Option<Signature>,
    until: Option<Signature>,
    so_far: Seq<AccountSignature>,
    i: int,
)
    requires
        so_far.len() <= i,
    ensures
        read_history(list, oldest, pubkey, limit, before, until, so_far) matches Ok(found) ==> i
            < found.len() ==> exists|k: int|
            0 <= k < list.len() && told(#[trigger] list[k], found, i),
    decreases list.len(),
{
    if reaches(list, oldest) {
        let sb = list.last();
        let rest = list.drop_last();
        let last = list.len() - 1;
        assert(list[last] == sb);
        assert(forall|k: int| 0 <= k < rest.len() ==> rest[k] == list[k]);
        let upper = match before {
            Some(signature) => match find_transaction(sb.rows, signature) {
                Ok(Some(cutoff)) => Some(cutoff.execution),
                _ => None,
            },
            None => None,
        };
        let spans = account_spans(sb, pubkey, upper);
        page_is_ok(sb, spans, limit, until, so_far);
        page_tells(sb, spans, limit, until, so_far, i);
        let skipped = before is Some && find_transaction(sb.rows, before->0) == Ok::<
            Option<TxSpan>,
            LedgerError,
        >(None);
        let all = read_history(list, oldest, pubkey, limit, before, until, so_far);
        if skipped {
            histories_tell_what_happened(rest, oldest, pubkey, limit, before, until, so_far, i);
            if all is Ok && i < all->Ok_0.len() {
                let k = choose|k: int| 0 <= k < rest.len() && told(#[trigger] rest[k], all->Ok_0, i);
                assert(told(list[k], all->Ok_0, i));
            }
        } else {
            match history_of(sb, spans, limit, until, so_far) {
                Page::Continue(found) => {
                    history_is_bounded(rest, oldest, pubkey, limit, None, until, found);
                    if i >= found.len() {
                        histories_tell_what_happened(
                            rest,
                            oldest,
                            pubkey,
                            limit,
                            None,
                            until,
                            found,
                            i,
                        );
                    }
                    if all is Ok && i < all->Ok_0.len() {
                        if i < found.len() {
                            page_stays(sb, found, all->Ok_0, i);
                            assert(told(list[last], all->Ok_0, i));
                        } else {
                            let k = choose|k: int|
                                0 <= k < rest.len() && told(#[trigger] rest[k], all->Ok_0, i);
                            assert(told(list[k], all->Ok_0, i));
                        }
                    }
                },
                Page::Done(found) => {
                    if all is Ok && i < found.len() {
                        assert(told(list[last], found, i));
                    }
                },
                Page::Failed(_) => {},
            }
        }
    }
}

} // verus!
