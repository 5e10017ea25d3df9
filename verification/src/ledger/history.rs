//! What the history of an account holds, and in which order.

use vstd::prelude::*;

use crate::bytes::{
    be_bytes, be_bytes_of_value, lex_asymmetric, lex_irreflexive, lex_lt, lex_prefix_dominates,
    lex_transitive, widths,
};
use crate::ledger::error::LedgerError;
use crate::ledger::index::{
    account_end, account_row, account_rows, account_rows_follow_executions, find_transaction,
    keys_descend, span_of_row, Span, TxSpan,
};
use crate::ledger::laws::{capped, shorter_histories_begin_longer_ones};
use crate::ledger::reader::{
    account_spans, history_of, known_time, reaches, read_history, spans_are_unique, spans_of,
    Page,
};
use crate::ledger::request::AccountSignature;
use crate::ledger::superblock::{blocktime_at, header_at, SuperblockView};
use crate::types::{Pubkey, Signature};

verus! {

/// Every execution that mentions an account is met by a walk over its entries.
pub proof fn mentions_are_walked(
    sb: SuperblockView,
    pubkey: Pubkey,
    spans: Seq<Result<Span, LedgerError>>,
    span: Span,
)
    requires
        spans_of(sb, pubkey, None, spans),
        sb.rows.contains_key(account_row(pubkey, span)),
    ensures
        spans.contains(Ok(span)),
{
    let keys = choose|keys: Seq<Seq<u8>>|
        {
            &&& #[trigger] keys_descend(
                keys,
                sb.rows,
                account_rows(pubkey),
                account_end(pubkey, None),
            )
            &&& spans.len() == keys.len()
            &&& forall|i: int| 0 <= i < keys.len() ==> #[trigger] spans[i] == span_of_row(keys[i])
        };
    let key = account_row(pubkey, span);
    account_rows_follow_executions(pubkey, span, span);
    assert(keys.contains(key));
    let i = choose|i: int| 0 <= i < keys.len() && keys[i] == key;
    assert(spans[i] == span_of_row(keys[i]));
}

/// A key that a walk over an account meets, and that names an execution, is the row of that
/// execution.
proof fn walked_key(pubkey: Pubkey, key: Seq<u8>, span: Span)
    requires
        !lex_lt(key, account_rows(pubkey)),
        lex_lt(key, account_end(pubkey, None)),
        span_of_row(key) == Ok::<Span, LedgerError>(span),
    ensures
        key == account_row(pubkey, span),
{
    let p = account_rows(pubkey);
    let head = key.take(17);
    let tail = key.skip(17);
    let over = seq![255u8, 255, 255, 255, 255, 255, 255, 255, 0];
    assert(key =~= head + tail);
    assert(p.len() == 17);
    assert(p + Seq::<u8>::empty() =~= p);
    if head != p {
        lex_prefix_dominates(head, p, tail, Seq::empty());
        lex_prefix_dominates(head, p, tail, over);
    }
    widths();
    be_bytes_of_value(tail);
    assert(tail == be_bytes(span.bits as nat, 8));
}

/// A walk over an account goes back in time: each execution that it meets lies before those that
/// it met.
pub proof fn walks_go_back(
    sb: SuperblockView,
    pubkey: Pubkey,
    spans: Seq<Result<Span, LedgerError>>,
    i: int,
    j: int,
    newer: Span,
    older: Span,
)
    requires
        spans_of(sb, pubkey, None, spans),
        0 <= i < j < spans.len(),
        spans[i] == Ok::<Span, LedgerError>(newer),
        spans[j] == Ok::<Span, LedgerError>(older),
    ensures
        older.bits < newer.bits,
        older.at() <= newer.at(),
{
    let keys = choose|keys: Seq<Seq<u8>>|
        {
            &&& #[trigger] keys_descend(
                keys,
                sb.rows,
                account_rows(pubkey),
                account_end(pubkey, None),
            )
            &&& spans.len() == keys.len()
            &&& forall|i: int| 0 <= i < keys.len() ==> #[trigger] spans[i] == span_of_row(keys[i])
        };
    assert(spans[i] == span_of_row(keys[i]) && spans[j] == span_of_row(keys[j]));
    walked_key(pubkey, keys[i], newer);
    walked_key(pubkey, keys[j], older);
    account_rows_follow_executions(pubkey, older, newer);
}

/// What the history says of one execution, with the time that its own superblock holds, if it
/// can be read.
pub open spec fn entry_of(sb: SuperblockView, span: Result<Span, LedgerError>) -> Option<
    AccountSignature,
> {
    match span {
        Ok(span) => match header_at(sb, span) {
            Ok(header) => match blocktime_at(sb, header.slot) {
                Ok(blocktime) => Some(
                    AccountSignature {
                        signature: header.signature,
                        slot: header.slot,
                        result: header.result,
                        blocktime,
                    },
                ),
                Err(_) => None,
            },
            Err(_) => None,
        },
        Err(_) => None,
    }
}

/// What the history says of several executions, if all can be read.
pub open spec fn entries_of(sb: SuperblockView, spans: Seq<Result<Span, LedgerError>>) -> Option<
    Seq<AccountSignature>,
>
    decreases spans.len(),
{
    if spans.len() == 0 {
        Some(Seq::empty())
    } else {
        match (entry_of(sb, spans[0]), entries_of(sb, spans.skip(1))) {
            (Some(entry), Some(rest)) => Some(seq![entry] + rest),
            _ => None,
        }
    }
}

/// The whole history of an account: all its executions, superblock by superblock from the newest
/// on, if all can be read.
pub open spec fn whole(list: Seq<SuperblockView>, oldest: int, pubkey: Pubkey) -> Option<
    Seq<AccountSignature>,
>
    decreases list.len(),
{
    if !reaches(list, oldest) {
        Some(Seq::empty())
    } else {
        match (
            entries_of(list.last(), account_spans(list.last(), pubkey, None)),
            whole(list.drop_last(), oldest, pubkey),
        ) {
            (Some(entries), Some(rest)) => Some(entries + rest),
            _ => None,
        }
    }
}

/// An entry after others: it carries the time that they give its slot, if they give it one.
pub open spec fn timed_after(list: Seq<AccountSignature>, entry: AccountSignature) -> AccountSignature {
    match known_time(list, entry.slot) {
        Some(blocktime) => AccountSignature { blocktime, ..entry },
        None => entry,
    }
}

/// Entries with the time that the first entry of their slot carries.
pub open spec fn timed(all: Seq<AccountSignature>) -> Seq<AccountSignature>
    decreases all.len(),
{
    if all.len() == 0 {
        Seq::empty()
    } else {
        let before = timed(all.drop_last());
        before.push(timed_after(before, all.last()))
    }
}

proof fn timed_one_more(all: Seq<AccountSignature>, entry: AccountSignature)
    ensures
        timed(all.push(entry)) == timed(all).push(timed_after(timed(all), entry)),
{
    assert(all.push(entry).drop_last() =~= all);
}

proof fn timed_counts(all: Seq<AccountSignature>)
    ensures
        timed(all).len() == all.len(),
    decreases all.len(),
{
    if all.len() > 0 {
        timed_counts(all.drop_last());
    }
}

/// Every entry of a slot carries the time that is known of the slot.
proof fn known_times(all: Seq<AccountSignature>, i: int)
    requires
        0 <= i < all.len(),
    ensures
        timed(all).len() == all.len(),
        known_time(timed(all), timed(all)[i].slot) == Some(timed(all)[i].blocktime),
    decreases all.len(),
{
    timed_counts(all);
    let before = timed(all.drop_last());
    timed_counts(all.drop_last());
    assert(timed(all).drop_last() =~= before);
    if i < all.len() - 1 {
        known_times(all.drop_last(), i);
        assert(timed(all)[i] == before[i]);
    }
}

/// All entries of a slot carry one time, and beside the time nothing is changed.
pub proof fn slots_have_one_time(all: Seq<AccountSignature>, i: int, j: int)
    requires
        0 <= i < all.len(),
        0 <= j < all.len(),
        all[i].slot == all[j].slot,
    ensures
        timed(all).len() == all.len(),
        timed(all)[i].blocktime == timed(all)[j].blocktime,
        timed(all)[i] == (AccountSignature { blocktime: timed(all)[i].blocktime, ..all[i] }),
{
    known_times(all, i);
    known_times(all, j);
    timed_keeps(all, i);
    timed_keeps(all, j);
}

proof fn timed_keeps(all: Seq<AccountSignature>, i: int)
    requires
        0 <= i < all.len(),
    ensures
        timed(all).len() == all.len(),
        timed(all)[i] == (AccountSignature { blocktime: timed(all)[i].blocktime, ..all[i] }),
    decreases all.len(),
{
    timed_counts(all.drop_last());
    if i < all.len() - 1 {
        timed_keeps(all.drop_last(), i);
    }
}

/// A signature at which a history is to end is among its entries.
pub open spec fn meets(all: Seq<AccountSignature>, until: Option<Signature>) -> bool {
    exists|i: int| 0 <= i < all.len() && until == Some((#[trigger] all[i]).signature)
}

/// The entries before the one at which a history is to end; all of them if it is not met.
pub open spec fn up_to(all: Seq<AccountSignature>, until: Option<Signature>) -> Seq<
    AccountSignature,
>
    decreases all.len(),
{
    if all.len() == 0 || until == Some(all[0].signature) {
        Seq::empty()
    } else {
        seq![all[0]] + up_to(all.skip(1), until)
    }
}

proof fn ends_split(a: Seq<AccountSignature>, b: Seq<AccountSignature>, until: Option<Signature>)
    ensures
        up_to(a + b, until) == if meets(a, until) {
            up_to(a, until)
        } else {
            a + up_to(b, until)
        },
    decreases a.len(),
{
    if a.len() == 0 {
        assert(a + b =~= b);
        assert(a + up_to(b, until) =~= up_to(b, until));
    } else if until != Some(a[0].signature) {
        let rest = a.skip(1);
        ends_split(rest, b, until);
        assert((a + b).skip(1) =~= rest + b);
        assert(meets(a, until) == meets(rest, until)) by {
            if meets(a, until) {
                let i = choose|i: int| 0 <= i < a.len() && until == Some((#[trigger] a[i]).signature);
                assert(rest[i - 1] == a[i]);
            }
            if meets(rest, until) {
                let i = choose|i: int|
                    0 <= i < rest.len() && until == Some((#[trigger] rest[i]).signature);
                assert(a[i + 1] == rest[i]);
            }
        }
        assert(seq![a[0]] + (rest + up_to(b, until)) =~= a + up_to(b, until));
    } else {
        assert(until == Some(a[0].signature));
        assert((a + b)[0] == a[0]);
    }
}

proof fn pages_hold_entries(
    sb: SuperblockView,
    spans: Seq<Result<Span, LedgerError>>,
    limit: nat,
    until: Option<Signature>,
    so_far: Seq<AccountSignature>,
)
    requires
        entries_of(sb, spans) is Some,
        so_far.len() + spans.len() <= limit,
    ensures
        ({
            let entries = entries_of(sb, spans)->0;
            history_of(sb, spans, limit, until, timed(so_far)) == if meets(entries, until) {
                Page::Done(timed(so_far + up_to(entries, until)))
            } else {
                Page::Continue(timed(so_far + entries))
            }
        }),
    decreases spans.len(),
{
    let none = Seq::<AccountSignature>::empty();
    assert(so_far + none =~= so_far);
    timed_counts(so_far);
    if spans.len() > 0 {
        let entries = entries_of(sb, spans)->0;
        let entry = entry_of(sb, spans[0])->0;
        let rest = entries_of(sb, spans.skip(1))->0;
        assert(entries[0] == entry);
        assert(entries.skip(1) =~= rest);
        ends_split(seq![entry], rest, until);
        if until != Some(entry.signature) {
            timed_one_more(so_far, entry);
            pages_hold_entries(sb, spans.skip(1), limit, until, so_far.push(entry));
            assert(so_far.push(entry) + rest =~= so_far + entries);
            assert(so_far.push(entry) + up_to(rest, until) =~= so_far + up_to(entries, until));
            assert(meets(entries, until) == meets(rest, until)) by {
                if meets(entries, until) {
                    let i = choose|i: int|
                        0 <= i < entries.len() && until == Some((#[trigger] entries[i]).signature);
                    assert(rest[i - 1] == entries[i]);
                }
                if meets(rest, until) {
                    let i = choose|i: int|
                        0 <= i < rest.len() && until == Some((#[trigger] rest[i]).signature);
                    assert(entries[i + 1] == rest[i]);
                }
            }
        }
    }
}

proof fn whole_is_read(
    list: Seq<SuperblockView>,
    oldest: int,
    pubkey: Pubkey,
    limit: nat,
    until: Option<Signature>,
    so_far: Seq<AccountSignature>,
)
    requires
        whole(list, oldest, pubkey) is Some,
        so_far.len() + whole(list, oldest, pubkey)->0.len() <= limit,
    ensures
        read_history(list, oldest, pubkey, limit, None, until, timed(so_far)) == Ok::<
            Seq<AccountSignature>,
            LedgerError,
        >(timed(so_far + up_to(whole(list, oldest, pubkey)->0, until))),
    decreases list.len(),
{
    if !reaches(list, oldest) {
        assert(so_far + Seq::<AccountSignature>::empty() =~= so_far);
    } else {
        let sb = list.last();
        let spans = account_spans(sb, pubkey, None);
        let entries = entries_of(sb, spans)->0;
        let rest = whole(list.drop_last(), oldest, pubkey)->0;
        counted_entries(sb, spans);
        pages_hold_entries(sb, spans, limit, until, so_far);
        ends_split(entries, rest, until);
        if !meets(entries, until) {
            whole_is_read(list.drop_last(), oldest, pubkey, limit, until, so_far + entries);
            assert((so_far + entries) + up_to(rest, until) =~= so_far + (entries + up_to(
                rest,
                until,
            )));
        }
    }
}

proof fn counted_entries(sb: SuperblockView, spans: Seq<Result<Span, LedgerError>>)
    requires
        entries_of(sb, spans) is Some,
    ensures
        entries_of(sb, spans)->0.len() == spans.len(),
    decreases spans.len(),
{
    if spans.len() > 0 {
        counted_entries(sb, spans.skip(1));
    }
}

/// A history is the beginning of the whole one, newest first, up to where it is to end: all of
/// that, if so many entries are asked for. All entries of a slot carry the time of its first
/// one.
pub proof fn histories_begin_the_whole_one(
    list: Seq<SuperblockView>,
    oldest: int,
    pubkey: Pubkey,
    limit: nat,
    until: Option<Signature>,
)
    requires
        whole(list, oldest, pubkey) is Some,
    ensures
        read_history(list, oldest, pubkey, limit, None, until, Seq::empty()) == Ok::<
            Seq<AccountSignature>,
            LedgerError,
        >(capped(timed(up_to(whole(list, oldest, pubkey)->0, until)), limit)),
{
    let all = whole(list, oldest, pubkey)->0;
    let none = Seq::<AccountSignature>::empty();
    let more = limit + all.len();
    whole_is_read(list, oldest, pubkey, more, until, none);
    assert(none + up_to(all, until) =~= up_to(all, until));
    shorter_histories_begin_longer_ones(list, oldest, pubkey, limit, more, None, until, none);
}

/// A walk that begins below an execution goes on where a whole walk met that execution.
proof fn walks_go_on(
    sb: SuperblockView,
    pubkey: Pubkey,
    spans: Seq<Result<Span, LedgerError>>,
    i: int,
    cut: Span,
)
    requires
        spans_of(sb, pubkey, None, spans),
        0 <= i < spans.len(),
        spans[i] == Ok::<Span, LedgerError>(cut),
    ensures
        spans_of(sb, pubkey, Some(cut), spans.skip(i + 1)),
{
    let low = account_rows(pubkey);
    let high = account_end(pubkey, Some(cut));
    let keys = choose|keys: Seq<Seq<u8>>|
        {
            &&& #[trigger] keys_descend(keys, sb.rows, low, account_end(pubkey, None))
            &&& spans.len() == keys.len()
            &&& forall|i: int| 0 <= i < keys.len() ==> #[trigger] spans[i] == span_of_row(keys[i])
        };
    assert(spans[i] == span_of_row(keys[i]));
    walked_key(pubkey, keys[i], cut);
    account_rows_follow_executions(pubkey, cut, cut);
    let later = keys.skip(i + 1);
    assert(keys_descend(later, sb.rows, low, high)) by {
        assert forall|k: int| 0 <= k < later.len() implies sb.rows.contains_key(#[trigger] later[k])
            && !lex_lt(later[k], low) && lex_lt(later[k], high) by {
            assert(later[k] == keys[k + i + 1]);
        }
        assert forall|k: int, m: int| 0 <= k < m < later.len() implies lex_lt(
            #[trigger] later[m],
            #[trigger] later[k],
        ) by {
            assert(later[k] == keys[k + i + 1] && later[m] == keys[m + i + 1]);
        }
        assert forall|key: Seq<u8>|
            #![trigger sb.rows.contains_key(key)]
            sb.rows.contains_key(key) && !lex_lt(key, low) && lex_lt(key, high) implies later.contains(
            key,
        ) by {
            lex_transitive(key, high, account_end(pubkey, None));
            assert(keys.contains(key));
            let m = choose|m: int| 0 <= m < keys.len() && keys[m] == key;
            if m <= i {
                if m < i {
                    assert(lex_lt(keys[i], keys[m]));
                }
                if m == i {
                    lex_irreflexive(key);
                } else {
                    lex_asymmetric(key, high);
                }
            }
            assert(later[m - i - 1] == key);
        }
    }
    assert forall|k: int| 0 <= k < later.len() implies #[trigger] spans.skip(i + 1)[k]
        == span_of_row(later[k]) by {
        assert(spans[k + i + 1] == span_of_row(keys[k + i + 1]));
    }
}

/// What lies behind the execution that a whole walk over superblock `at` met at `i`.
pub open spec fn behind(
    list: Seq<SuperblockView>,
    oldest: int,
    pubkey: Pubkey,
    at: int,
    i: int,
) -> Option<Seq<AccountSignature>> {
    let spans = account_spans(list[at], pubkey, None);
    match (entries_of(list[at], spans.skip(i + 1)), whole(list.take(at), oldest, pubkey)) {
        (Some(entries), Some(rest)) => Some(entries + rest),
        _ => None,
    }
}

/// A signature leads to the execution that a whole walk over superblock `at` met at `i`, and no
/// newer superblock knows it.
pub open spec fn leads_to(
    list: Seq<SuperblockView>,
    oldest: int,
    pubkey: Pubkey,
    signature: Signature,
    at: int,
    i: int,
) -> bool {
    let spans = account_spans(list[at], pubkey, None);
    &&& 0 <= at < list.len()
    &&& 0 <= i < spans.len()
    &&& spans_of(list[at], pubkey, None, spans)
    &&& forall|k: int| at <= k < list.len() ==> (#[trigger] list[k]).id >= oldest
    &&& forall|k: int|
        at < k < list.len() ==> find_transaction((#[trigger] list[k]).rows, signature) == Ok::<
            Option<TxSpan>,
            LedgerError,
        >(None)
    &&& find_transaction(list[at].rows, signature) matches Ok(Some(cut)) && spans[i] == Ok::<
        Span,
        LedgerError,
    >(cut.execution)
}

proof fn rest_is_read(
    list: Seq<SuperblockView>,
    oldest: int,
    pubkey: Pubkey,
    limit: nat,
    signature: Signature,
    until: Option<Signature>,
    at: int,
    i: int,
)
    requires
        leads_to(list, oldest, pubkey, signature, at, i),
        behind(list, oldest, pubkey, at, i) is Some,
        behind(list, oldest, pubkey, at, i)->0.len() <= limit,
    ensures
        read_history(list, oldest, pubkey, limit, Some(signature), until, Seq::empty()) == Ok::<
            Seq<AccountSignature>,
            LedgerError,
        >(timed(up_to(behind(list, oldest, pubkey, at, i)->0, until))),
    decreases list.len(),
{
    let none = Seq::<AccountSignature>::empty();
    let last = list.len() - 1;
    assert(reaches(list, oldest));
    if at < last {
        let rest = list.drop_last();
        assert(rest.take(at) =~= list.take(at));
        assert forall|k: int| at <= k < rest.len() implies (#[trigger] rest[k]).id >= oldest by {
            assert(rest[k] == list[k]);
        }
        assert forall|k: int| at < k < rest.len() implies find_transaction(
            (#[trigger] rest[k]).rows,
            signature,
        ) == Ok::<Option<TxSpan>, LedgerError>(None) by {
            assert(rest[k] == list[k]);
        }
        assert(leads_to(rest, oldest, pubkey, signature, at, i));
        rest_is_read(rest, oldest, pubkey, limit, signature, until, at, i);
        assert(find_transaction(list[last].rows, signature) == Ok::<Option<TxSpan>, LedgerError>(
            None,
        ));
    } else {
        let sb = list[at];
        let spans = account_spans(sb, pubkey, None);
        let cut = (find_transaction(sb.rows, signature)->Ok_0)->0.execution;
        let later = spans.skip(i + 1);
        walks_go_on(sb, pubkey, spans, i, cut);
        spans_are_unique(sb, pubkey, Some(cut), later);
        assert(list.drop_last() =~= list.take(at));
        counted_entries(sb, later);
        pages_hold_entries(sb, later, limit, until, none);
        let entries = entries_of(sb, later)->0;
        let rest = whole(list.take(at), oldest, pubkey)->0;
        assert(none + entries =~= entries);
        assert(none + up_to(entries, until) =~= up_to(entries, until));
        ends_split(entries, rest, until);
        if !meets(entries, until) {
            whole_is_read(list.take(at), oldest, pubkey, limit, until, entries);
        }
    }
}

/// A history that is to begin behind a signature holds what lies behind the execution that the
/// signature leads to, first the rest of its superblock and behind it the older ones, up to
/// where it is to end. All entries of a slot carry the time of its first one.
pub proof fn histories_go_on_behind(
    list: Seq<SuperblockView>,
    oldest: int,
    pubkey: Pubkey,
    limit: nat,
    signature: Signature,
    until: Option<Signature>,
    at: int,
    i: int,
)
    requires
        leads_to(list, oldest, pubkey, signature, at, i),
        behind(list, oldest, pubkey, at, i) is Some,
    ensures
        read_history(list, oldest, pubkey, limit, Some(signature), until, Seq::empty()) == Ok::<
            Seq<AccountSignature>,
            LedgerError,
        >(capped(timed(up_to(behind(list, oldest, pubkey, at, i)->0, until)), limit)),
{
    let none = Seq::<AccountSignature>::empty();
    let more = limit + behind(list, oldest, pubkey, at, i)->0.len();
    rest_is_read(list, oldest, pubkey, more, signature, until, at, i);
    shorter_histories_begin_longer_ones(
        list,
        oldest,
        pubkey,
        limit,
        more,
        Some(signature),
        until,
        none,
    );
}

proof fn entries_split(sb: SuperblockView, spans: Seq<Result<Span, LedgerError>>, n: int)
    requires
        entries_of(sb, spans) is Some,
        0 <= n < spans.len(),
    ensures
        entries_of(sb, spans)->0.len() == spans.len(),
        entry_of(sb, spans[n]) == Some(entries_of(sb, spans)->0[n]),
        entries_of(sb, spans.skip(n + 1)) == Some(entries_of(sb, spans)->0.skip(n + 1)),
    decreases n,
{
    counted_entries(sb, spans);
    let all = entries_of(sb, spans)->0;
    let rest = entries_of(sb, spans.skip(1))->0;
    assert(all.skip(1) =~= rest);
    if n > 0 {
        entries_split(sb, spans.skip(1), n - 1);
        assert(spans.skip(1)[n - 1] == spans[n]);
        assert(spans.skip(1).skip(n) =~= spans.skip(n + 1));
        assert(all.skip(n + 1) =~= rest.skip(n));
        assert(all[n] == rest[n - 1]);
    }
}

/// Pages join: what lies behind an execution is what the whole history holds after the entry
/// of that execution, at position `k`.
pub proof fn pages_join(
    list: Seq<SuperblockView>,
    oldest: int,
    pubkey: Pubkey,
    at: int,
    i: int,
) -> (k: int)
    requires
        whole(list, oldest, pubkey) is Some,
        0 <= at < list.len(),
        0 <= i < account_spans(list[at], pubkey, None).len(),
        forall|m: int| at <= m < list.len() ==> (#[trigger] list[m]).id >= oldest,
    ensures
        0 <= k < whole(list, oldest, pubkey)->0.len(),
        entry_of(list[at], account_spans(list[at], pubkey, None)[i]) == Some(
            whole(list, oldest, pubkey)->0[k],
        ),
        behind(list, oldest, pubkey, at, i) == Some(whole(list, oldest, pubkey)->0.skip(k + 1)),
    decreases list.len(),
{
    let last = list.len() - 1;
    let rest = list.drop_last();
    let all = whole(list, oldest, pubkey)->0;
    assert(list[last].id >= oldest);
    assert(reaches(list, oldest));
    let first = entries_of(list[last], account_spans(list[last], pubkey, None))->0;
    let older = whole(rest, oldest, pubkey)->0;
    assert(all == first + older);
    if at == last {
        assert(list.take(at) =~= rest);
        entries_split(list[at], account_spans(list[at], pubkey, None), i);
        assert(all.skip(i + 1) =~= first.skip(i + 1) + older);
        i
    } else {
        assert forall|m: int| at <= m < rest.len() implies (#[trigger] rest[m]).id >= oldest by {
            assert(rest[m] == list[m]);
        }
        let k = pages_join(rest, oldest, pubkey, at, i);
        assert(rest.take(at) =~= list.take(at));
        assert(all.skip(first.len() + k + 1) =~= older.skip(k + 1));
        first.len() + k
    }
}

} // verus!
