//! The levels of detail at which a block can be read say the same of it.

use vstd::prelude::*;

use crate::ledger::codec::parse_entry;
use crate::ledger::error::LedgerError;
use crate::ledger::index::{find_transaction, Span, TxSpan};
use crate::ledger::request::{BlockDetails, BlockResponseView, TransactionResponseView};
use crate::ledger::schema::{EntryView, ExecutionView};
use crate::ledger::storage::bytes_at;
use crate::ledger::superblock::{
    block_response, block_start, execution_at, gather, gathered_one, header_at, nothing,
    signature_of, Gathered, SuperblockView,
};
use crate::types::{Signature, Slot};

verus! {

/// Where the index of a superblock says that a serialized transaction lies, if it knows it.
pub open spec fn spans_for(sb: SuperblockView, payload: Seq<u8>) -> Option<TxSpan> {
    match signature_of(payload) {
        Ok(signature) => match find_transaction(sb.rows, signature) {
            Ok(found) => found,
            Err(_) => None,
        },
        Err(_) => None,
    }
}

/// The index leads a serialized transaction to an execution that carries its signature, if it
/// leads it anywhere. Rows begin with sixteen bytes of a signature, so this fails only where
/// two signatures share them.
pub open spec fn leads_home(sb: SuperblockView, payload: Seq<u8>) -> bool {
    spans_for(sb, payload) matches Some(spans) ==> {
        header_at(sb, spans.execution) matches Ok(header) ==> signature_of(payload) == Ok::<
            Signature,
            LedgerError,
        >(header.signature)
    }
}

/// The transactions that the bytes between two block ends hold.
pub open spec fn payloads_in(bytes: Seq<u8>) -> Seq<Seq<u8>>
    decreases bytes.len(),
{
    if bytes.len() == 0 {
        Seq::empty()
    } else {
        match parse_entry(bytes) {
            Some((EntryView::Transaction(payload), n)) => seq![payload] + payloads_in(
                bytes.skip(n as int),
            ),
            _ => Seq::empty(),
        }
    }
}

/// The transactions among several that the index knows, in their order.
pub open spec fn indexed(sb: SuperblockView, payloads: Seq<Seq<u8>>) -> Seq<Seq<u8>>
    decreases payloads.len(),
{
    if payloads.len() == 0 {
        Seq::empty()
    } else if spans_for(sb, payloads[0]) is Some {
        seq![payloads[0]] + indexed(sb, payloads.skip(1))
    } else {
        indexed(sb, payloads.skip(1))
    }
}

/// Responses that say of each of several transactions how it was executed.
pub open spec fn tells(
    sb: SuperblockView,
    dictionary: Seq<u8>,
    payloads: Seq<Seq<u8>>,
    full: Seq<TransactionResponseView>,
) -> bool {
    &&& full.len() == payloads.len()
    &&& forall|i: int|
        #![trigger full[i]]
        0 <= i < full.len() ==> {
            &&& full[i].transaction == payloads[i]
            &&& spans_for(sb, payloads[i]) is Some
            &&& execution_at(sb, spans_for(sb, payloads[i])->0.execution, dictionary) == Ok::<
                ExecutionView,
                LedgerError,
            >(full[i].execution)
        }
}

/// Signatures of several transactions.
pub open spec fn signed_by(payloads: Seq<Seq<u8>>, signatures: Seq<Signature>) -> bool {
    &&& signatures.len() == payloads.len()
    &&& forall|i: int|
        #![trigger signatures[i]]
        0 <= i < signatures.len() ==> signature_of(payloads[i]) == Ok::<Signature, LedgerError>(
            signatures[i],
        )
}

proof fn transactions_gathered(
    sb: SuperblockView,
    dictionary: Seq<u8>,
    bytes: Seq<u8>,
    so_far: Gathered,
)
    ensures
        gather(sb, BlockDetails::Transactions, dictionary, bytes, so_far) matches Ok(g)
            ==> g.transactions == so_far.transactions + payloads_in(bytes),
    decreases bytes.len(),
{
    if bytes.len() == 0 {
        assert(so_far.transactions + payloads_in(bytes) =~= so_far.transactions);
    } else if let Some((EntryView::Transaction(payload), n)) = parse_entry(bytes) {
        let rest = bytes.skip(n as int);
        let next = Gathered { transactions: so_far.transactions.push(payload), ..so_far };
        transactions_gathered(sb, dictionary, rest, next);
        assert(next.transactions + payloads_in(rest) =~= so_far.transactions + payloads_in(bytes));
    }
}

proof fn signatures_gathered(
    sb: SuperblockView,
    dictionary: Seq<u8>,
    bytes: Seq<u8>,
    so_far: Gathered,
)
    ensures
        gather(sb, BlockDetails::Signatures, dictionary, bytes, so_far) matches Ok(g) ==> {
            &&& so_far.signatures.len() <= g.signatures.len()
            &&& so_far.signatures == g.signatures.take(so_far.signatures.len() as int)
            &&& signed_by(
                payloads_in(bytes),
                g.signatures.skip(so_far.signatures.len() as int),
            )
        },
    decreases bytes.len(),
{
    let k = so_far.signatures.len() as int;
    assert(so_far.signatures.take(k) =~= so_far.signatures);
    assert(so_far.signatures.skip(k) =~= Seq::<Signature>::empty());
    if bytes.len() > 0 {
        if let Some((EntryView::Transaction(payload), n)) = parse_entry(bytes) {
            if let Ok(signature) = signature_of(payload) {
                let rest = bytes.skip(n as int);
                let next = Gathered { signatures: so_far.signatures.push(signature), ..so_far };
                signatures_gathered(sb, dictionary, rest, next);
                if let Ok(g) = gather(sb, BlockDetails::Signatures, dictionary, rest, next) {
                    let added = g.signatures.skip(k);
                    let more = g.signatures.skip(k + 1);
                    assert(g.signatures.take(k + 1) == next.signatures);
                    assert(g.signatures.take(k) =~= g.signatures.take(k + 1).take(k));
                    assert(next.signatures.take(k) =~= so_far.signatures);
                    assert(added[0] == g.signatures.take(k + 1)[k]);
                    let all = payloads_in(bytes);
                    assert forall|i: int| #![trigger added[i]] 0 <= i < added.len() implies signature_of(
                        all[i],
                    ) == Ok::<Signature, LedgerError>(added[i]) by {
                        if i > 0 {
                            assert(added[i] == more[i - 1]);
                            assert(all[i] == payloads_in(rest)[i - 1]);
                        }
                    }
                }
            }
        }
    }
}

proof fn executions_gathered(
    sb: SuperblockView,
    dictionary: Seq<u8>,
    bytes: Seq<u8>,
    so_far: Gathered,
)
    ensures
        gather(sb, BlockDetails::Full, dictionary, bytes, so_far) matches Ok(g) ==> {
            &&& so_far.full.len() <= g.full.len()
            &&& so_far.full == g.full.take(so_far.full.len() as int)
            &&& tells(
                sb,
                dictionary,
                indexed(sb, payloads_in(bytes)),
                g.full.skip(so_far.full.len() as int),
            )
        },
    decreases bytes.len(),
{
    let k = so_far.full.len() as int;
    assert(so_far.full.take(k) =~= so_far.full);
    assert(so_far.full.skip(k) =~= Seq::<TransactionResponseView>::empty());
    if bytes.len() > 0 {
        if let Some((EntryView::Transaction(payload), n)) = parse_entry(bytes) {
            if let Ok(next) = gathered_one(sb, BlockDetails::Full, dictionary, payload, so_far) {
                let rest = bytes.skip(n as int);
                executions_gathered(sb, dictionary, rest, next);
                let all = payloads_in(bytes);
                assert(all.skip(1) =~= payloads_in(rest));
                if let Ok(g) = gather(sb, BlockDetails::Full, dictionary, rest, next) {
                    if spans_for(sb, payload) is Some {
                        let added = g.full.skip(k);
                        let more = g.full.skip(k + 1);
                        let known = indexed(sb, all);
                        assert(g.full.take(k + 1) == next.full);
                        assert(g.full.take(k) =~= g.full.take(k + 1).take(k));
                        assert(next.full.take(k) =~= so_far.full);
                        assert(added[0] == g.full.take(k + 1)[k]);
                        assert forall|i: int|
                            #![trigger added[i]]
                            0 <= i < added.len() implies added[i].transaction == known[i]
                            && spans_for(sb, known[i]) is Some && execution_at(
                            sb,
                            spans_for(sb, known[i])->0.execution,
                            dictionary,
                        ) == Ok::<ExecutionView, LedgerError>(added[i].execution) by {
                            if i > 0 {
                                assert(added[i] == more[i - 1]);
                                assert(known[i] == indexed(sb, all.skip(1))[i - 1]);
                            }
                        }
                    }
                }
            }
        }
    }
}

/// What is told of transactions carries their signatures, if the index leads them home.
proof fn told_signatures(
    sb: SuperblockView,
    dictionary: Seq<u8>,
    payloads: Seq<Seq<u8>>,
    full: Seq<TransactionResponseView>,
    i: int,
)
    requires
        tells(sb, dictionary, payloads, full),
        0 <= i < full.len(),
        leads_home(sb, payloads[i]),
    ensures
        signature_of(full[i].transaction) == Ok::<Signature, LedgerError>(
            full[i].execution.header.signature,
        ),
{
    assert(full[i].transaction == payloads[i]);
}

proof fn indexed_are_given(sb: SuperblockView, payloads: Seq<Seq<u8>>, i: int)
    requires
        0 <= i < indexed(sb, payloads).len(),
    ensures
        payloads.contains(indexed(sb, payloads)[i]),
    decreases payloads.len(),
{
    let rest = payloads.skip(1);
    let known = indexed(sb, payloads);
    if spans_for(sb, payloads[0]) is Some && i == 0 {
        assert(payloads.contains(payloads[0]));
    } else {
        let j = if spans_for(sb, payloads[0]) is Some {
            i - 1
        } else {
            i
        };
        indexed_are_given(sb, rest, j);
        assert(known[i] == indexed(sb, rest)[j]);
        let k = choose|k: int| 0 <= k < rest.len() && rest[k] == known[i];
        assert(payloads[k + 1] == known[i]);
    }
}

/// The index leads each of several transactions home.
pub open spec fn all_lead_home(sb: SuperblockView, transactions: Seq<Seq<u8>>) -> bool {
    forall|i: int| 0 <= i < transactions.len() ==> leads_home(sb, #[trigger] transactions[i])
}

/// Each execution carries the signature of its transaction.
pub open spec fn carry_signatures(responses: Seq<TransactionResponseView>) -> bool {
    forall|i: int|
        #![trigger responses[i]]
        0 <= i < responses.len() ==> signature_of(responses[i].transaction) == Ok::<
            Signature,
            LedgerError,
        >(responses[i].execution.header.signature)
}

/// The four levels of detail of one block agree.
pub open spec fn agree(
    sb: SuperblockView,
    dictionary: Seq<u8>,
    bare: BlockResponseView,
    signed: BlockResponseView,
    plain: BlockResponseView,
    full: BlockResponseView,
) -> bool {
    match (bare, signed, plain, full) {
        (
            BlockResponseView::Bare(block),
            BlockResponseView::WithSignatures(b, signatures),
            BlockResponseView::WithTransactions(c, transactions),
            BlockResponseView::Full(d, responses),
        ) => {
            &&& b == block && c == block && d == block
            &&& signed_by(transactions, signatures)
            &&& tells(sb, dictionary, indexed(sb, transactions), responses)
            &&& all_lead_home(sb, transactions) ==> carry_signatures(responses)
        },
        _ => false,
    }
}

/// The levels of detail at which a block can be read say the same of it: they hold the same
/// block, the signatures are those of the transactions in their order, and the transactions that
/// come with executions are those that the index knows, in the same order, each with the
/// execution that carries its signature.
pub proof fn detail_levels_agree(
    sb: SuperblockView,
    slot: Slot,
    span: Span,
    dictionary: Seq<u8>,
)
    requires
        block_response(sb, slot, BlockDetails::Signatures, span, dictionary) is Ok,
        block_response(sb, slot, BlockDetails::Transactions, span, dictionary) is Ok,
        block_response(sb, slot, BlockDetails::Full, span, dictionary) is Ok,
    ensures
        block_response(sb, slot, BlockDetails::Boundary, span, dictionary) is Ok,
        agree(
            sb,
            dictionary,
            block_response(sb, slot, BlockDetails::Boundary, span, dictionary)->Ok_0,
            block_response(sb, slot, BlockDetails::Signatures, span, dictionary)->Ok_0,
            block_response(sb, slot, BlockDetails::Transactions, span, dictionary)->Ok_0,
            block_response(sb, slot, BlockDetails::Full, span, dictionary)->Ok_0,
        ),
{
    let start = block_start(sb, slot)->Ok_0;
    let bytes = bytes_at(
        sb.blockstore.written(),
        start,
        span.at() - start,
    )->0;
    transactions_gathered(sb, dictionary, bytes, nothing());
    signatures_gathered(sb, dictionary, bytes, nothing());
    executions_gathered(sb, dictionary, bytes, nothing());
    let transactions = payloads_in(bytes);
    let signatures = gather(sb, BlockDetails::Signatures, dictionary, bytes, nothing())->Ok_0.signatures;
    let responses = gather(sb, BlockDetails::Full, dictionary, bytes, nothing())->Ok_0.full;
    assert(nothing().transactions + transactions =~= transactions);
    assert(signatures.skip(0) =~= signatures);
    assert(responses.skip(0) =~= responses);
    if all_lead_home(sb, transactions) {
        let known = indexed(sb, transactions);
        assert forall|i: int| #![trigger responses[i]] 0 <= i < responses.len() implies signature_of(
            responses[i].transaction,
        ) == Ok::<Signature, LedgerError>(responses[i].execution.header.signature) by {
            indexed_are_given(sb, transactions, i);
            let k = choose|k: int| 0 <= k < transactions.len() && transactions[k] == known[i];
            assert(leads_home(sb, transactions[k]));
            told_signatures(sb, dictionary, known, responses, i);
        }
    }
}

} // verus!
