//! The ledger and what is read across its superblocks.

use vstd::prelude::*;

use crate::ledger::codec::{decode, parse_entry};
use crate::ledger::error::LedgerError;
use crate::ledger::index::{
    account_end, account_rows, find_block, find_transaction, keys_descend, span_of_row,
    IndexReader, Span,
};
use crate::ledger::request::{
    AccountSignature, AccountSignaturesParams, BlockParams, BlockResponse,
    BlockResponseView, TransactionResponse, TransactionResponseView, TransactionStatus,
};
use crate::ledger::schema::{BlockstoreEntry, EntryView};
use crate::ledger::storage::{BlockRange, LedgerMeta};
use crate::ledger::superblock::{
    block_response, blocktime_at, entry_at, execution_at, fresh, header_at, transaction_at,
    Superblock, SuperblockView,
};
use crate::types::{same_signature, Block, Pubkey, Signature, Slot};

verus! {

/// Ledger state.
pub struct Ledger {
    /// Ledger-wide metadata.
    pub meta: LedgerMeta,
    /// Retained superblocks, oldest first; the last one is active.
    pub superblocks: Vec<Superblock>,
    /// Bytes that the ledger may use before the oldest superblock is dropped.
    pub size_limit: u64,
    /// Dictionary that execution details are compressed with.
    pub dictionary: Vec<u8>,
}

/// What the ledger holds.
pub struct LedgerView {
    pub meta: LedgerMeta,
    pub superblocks: Seq<SuperblockView>,
    pub dictionary: Seq<u8>,
}

/// What several superblocks hold.
pub open spec fn superblock_views(list: Seq<Superblock>) -> Seq<SuperblockView> {
    list.map_values(|superblock: Superblock| superblock@)
}

impl View for Ledger {
    type V = LedgerView;

    open spec fn view(&self) -> LedgerView {
        LedgerView {
            meta: self.meta,
            superblocks: superblock_views(self.superblocks@),
            dictionary: self.dictionary@,
        }
    }
}

/// Superblocks have ascending numbers.
pub open spec fn ids_ascend(list: Seq<SuperblockView>) -> bool {
    forall|i: int, j: int|
        0 <= i < j < list.len() ==> (#[trigger] list[i]).id < (#[trigger] list[j]).id
}

impl LedgerView {
    /// The last superblock is the active one, and the header counts the retained ones.
    pub open spec fn wf(self) -> bool {
        &&& ids_ascend(self.superblocks)
        &&& self.superblocks.len() > 0
        &&& self.superblocks.last().id == self.meta.head
        &&& self.meta.superblocks == self.superblocks.len()
        &&& self.meta.head < u64::MAX
    }

    /// Oldest number that a retained superblock can have.
    pub open spec fn oldest(self) -> int {
        self.meta.oldest()
    }

    /// After the oldest superblock was dropped, unless it is the active one.
    pub open spec fn truncated(self) -> LedgerView {
        let first = self.superblocks.first();
        if first.id >= self.meta.head {
            self
        } else {
            LedgerView {
                superblocks: self.superblocks.drop_first(),
                meta: LedgerMeta {
                    superblocks: (self.meta.superblocks - 1) as u64,
                    range: BlockRange {
                        start: (first.meta.range.end + 1) as u64,
                        ..self.meta.range
                    },
                    ..self.meta
                },
                ..self
            }
        }
    }
}

/// Numbers of superblocks ascend by at least one each.
pub proof fn ids_grow(list: Seq<SuperblockView>, i: int)
    requires
        ids_ascend(list),
        0 <= i < list.len(),
    ensures
        list[i].id >= i,
    decreases i,
{
    if i > 0 {
        ids_grow(list, i - 1);
        assert(list[i - 1].id < list[i].id);
    }
}

/// Whether a superblock number lies in the retained range, for the last one of a list.
pub open spec fn reaches(list: Seq<SuperblockView>, oldest: int) -> bool {
    list.len() > 0 && list.last().id >= oldest
}

/// Numbers of the retained superblocks, newest first.
pub open spec fn retained(list: Seq<SuperblockView>, oldest: int) -> Seq<u64>
    decreases list.len(),
{
    if !reaches(list, oldest) {
        Seq::empty()
    } else {
        seq![list.last().id] + retained(list.drop_last(), oldest)
    }
}

/// The newest transaction with a signature.
pub open spec fn read_transaction(
    list: Seq<SuperblockView>,
    oldest: int,
    signature: Signature,
    dictionary: Seq<u8>,
) -> Result<Option<TransactionResponseView>, LedgerError>
    decreases list.len(),
{
    if !reaches(list, oldest) {
        Ok(None)
    } else {
        let sb = list.last();
        match find_transaction(sb.rows, signature) {
            Ok(Some(spans)) => match transaction_at(sb, spans.blockstore) {
                Ok(transaction) => match execution_at(sb, spans.execution, dictionary) {
                    Ok(execution) => Ok(Some(TransactionResponseView { transaction, execution })),
                    Err(error) => Err(error),
                },
                Err(error) => Err(error),
            },
            Ok(None) => read_transaction(list.drop_last(), oldest, signature, dictionary),
            Err(error) => Err(error),
        }
    }
}

/// The status of the newest transaction with a signature.
pub open spec fn read_status(
    list: Seq<SuperblockView>,
    oldest: int,
    signature: Signature,
) -> Result<Option<TransactionStatus>, LedgerError>
    decreases list.len(),
{
    if !reaches(list, oldest) {
        Ok(None)
    } else {
        let sb = list.last();
        match find_transaction(sb.rows, signature) {
            Ok(Some(spans)) => match header_at(sb, spans.execution) {
                Ok(header) => Ok(
                    Some(TransactionStatus { result: header.result, slot: header.slot }),
                ),
                Err(error) => Err(error),
            },
            Ok(None) => read_status(list.drop_last(), oldest, signature),
            Err(error) => Err(error),
        }
    }
}

/// The block at a slot, from the newest superblock whose range holds it.
pub open spec fn read_block(
    list: Seq<SuperblockView>,
    oldest: int,
    params: BlockParams,
    dictionary: Seq<u8>,
) -> Result<Option<BlockResponseView>, LedgerError>
    decreases list.len(),
{
    if !reaches(list, oldest) {
        Ok(None)
    } else {
        let sb = list.last();
        if sb.meta.range.start <= params.slot <= sb.meta.range.end {
            match find_block(sb.rows, params.slot) {
                Ok(Some(span)) => match block_response(
                    sb,
                    params.slot,
                    params.details,
                    span,
                    dictionary,
                ) {
                    Ok(response) => Ok(Some(response)),
                    Err(error) => Err(error),
                },
                Ok(None) => Ok(None),
                Err(error) => Err(error),
            }
        } else {
            read_block(list.drop_last(), oldest, params, dictionary)
        }
    }
}

/// A superblock holds no block, as right after the seal that opened it.
pub open spec fn no_block(sb: SuperblockView) -> bool {
    sb.meta.range.end == 0 && find_block(sb.rows, 0) == Ok::<Option<Span>, LedgerError>(None)
}

/// Block ends of one superblock with slots from `from` on and below `next`, newest first, and
/// where the walk stopped: at `from`, or below the first slot of the superblock. One that holds no
/// block, as right after a seal, leaves every slot to older ones.
pub open spec fn blocks_in(
    sb: SuperblockView,
    from: int,
    next: int,
    so_far: Seq<Block>,
) -> Result<(int, Seq<Block>), LedgerError>
    decreases next - from,
{
    if next <= from || no_block(sb) || next - 1 < sb.meta.range.start {
        Ok((next, so_far))
    } else {
        match find_block(sb.rows, (next - 1) as u64) {
            Ok(Some(span)) => match entry_at(sb, span) {
                Ok(EntryView::Block(block)) => blocks_in(sb, from, next - 1, so_far.push(block)),
                Ok(_) => blocks_in(sb, from, next - 1, so_far),
                Err(error) => Err(error),
            },
            Ok(None) => blocks_in(sb, from, next - 1, so_far),
            Err(error) => Err(error),
        }
    }
}

/// Block ends with slots from `from` on and below `next`, newest first.
pub open spec fn read_blocks(
    list: Seq<SuperblockView>,
    oldest: int,
    from: int,
    next: int,
    so_far: Seq<Block>,
) -> Result<Seq<Block>, LedgerError>
    decreases list.len(),
{
    if !reaches(list, oldest) {
        Ok(so_far)
    } else {
        match blocks_in(list.last(), from, next, so_far) {
            Ok((rest, found)) => read_blocks(list.drop_last(), oldest, from, rest, found),
            Err(error) => Err(error),
        }
    }
}

/// Entries that stand in a stream of bytes, and how the stream ends.
pub open spec fn entries_in(bytes: Seq<u8>, so_far: Seq<EntryView>) -> (
    Seq<EntryView>,
    Result<(), LedgerError>,
)
    decreases bytes.len(),
{
    if bytes.len() == 0 {
        (so_far, Ok(()))
    } else {
        match parse_entry(bytes) {
            Some((entry, n)) => entries_in(bytes.skip(n as int), so_far.push(entry)),
            None => (so_far, Err(LedgerError::Codec)),
        }
    }
}

/// Published bytes of a superblock's blockstore file.
pub open spec fn published(sb: SuperblockView) -> Seq<u8> {
    let written = sb.blockstore.written();
    if sb.meta.cursors.blockstore <= written.len() {
        written.take(sb.meta.cursors.blockstore as int)
    } else {
        written
    }
}

/// Entries of all superblocks after one, oldest first, up to the first that is malformed.
pub open spec fn read_replay(
    list: Seq<SuperblockView>,
    after: u64,
    so_far: Seq<EntryView>,
) -> (Seq<EntryView>, Result<(), LedgerError>)
    decreases list.len(),
{
    if list.len() == 0 {
        (so_far, Ok(()))
    } else if list.first().id <= after {
        read_replay(list.drop_first(), after, so_far)
    } else {
        match entries_in(published(list.first()), so_far) {
            (found, Ok(_)) => read_replay(list.drop_first(), after, found),
            (found, Err(error)) => (found, Err(error)),
        }
    }
}

/// Where an account's history goes on after one superblock.
pub enum Page {
    /// In the next older superblock.
    Continue(Seq<AccountSignature>),
    /// Nowhere: enough was found, or its end was reached.
    Done(Seq<AccountSignature>),
    /// Nowhere: stored data is malformed.
    Failed(LedgerError),
}

/// Time of a slot's block that the first entry of the slot carries, if there is one.
pub open spec fn known_time(list: Seq<AccountSignature>, slot: Slot) -> Option<i64>
    decreases list.len(),
{
    if list.len() == 0 {
        None
    } else {
        match known_time(list.drop_last(), slot) {
            Some(time) => Some(time),
            None => if list.last().slot == slot {
                Some(list.last().blocktime)
            } else {
                None
            },
        }
    }
}

/// Time of a slot's block: the one that an entry of the slot carries already, else the one that
/// the superblock holds.
pub open spec fn time_of(sb: SuperblockView, slot: Slot, so_far: Seq<AccountSignature>) -> Result<
    i64,
    LedgerError,
> {
    match known_time(so_far, slot) {
        Some(time) => Ok(time),
        None => blocktime_at(sb, slot),
    }
}

proof fn known_time_stays(list: Seq<AccountSignature>, n: int, slot: Slot)
    requires
        0 <= n <= list.len(),
        known_time(list.take(n), slot) is Some,
    ensures
        known_time(list, slot) == known_time(list.take(n), slot),
    decreases list.len() - n,
{
    if n == list.len() {
        assert(list.take(n) =~= list);
    } else {
        assert(list.take(n + 1).drop_last() =~= list.take(n));
        known_time_stays(list, n + 1, slot);
    }
}

/// Time of a slot's block that the first entry of the slot carries, if there is one.
fn carried_time(list: &Vec<AccountSignature>, slot: Slot) -> (time: Option<i64>)
    ensures
        time == known_time(list@, slot),
{
    let mut i: usize = 0;
    assert(list@.take(0) =~= Seq::<AccountSignature>::empty());
    while i < list.len()
        invariant
            i <= list@.len(),
            known_time(list@.take(i as int), slot) is None,
        decreases list@.len() - i,
    {
        assert(list@.take(i + 1).drop_last() =~= list@.take(i as int));
        if list[i].slot == slot {
            proof {
                known_time_stays(list@, i + 1, slot);
            }
            return Some(list[i].blocktime);
        }
        i += 1;
    }
    assert(list@.take(i as int) =~= list@);
    None
}

/// History from the executions of one superblock that mention an account. All entries of a slot
/// carry the same time.
pub open spec fn history_of(
    sb: SuperblockView,
    spans: Seq<Result<Span, LedgerError>>,
    limit: nat,
    until: Option<Signature>,
    so_far: Seq<AccountSignature>,
) -> Page
    decreases spans.len(),
{
    if spans.len() == 0 {
        Page::Continue(so_far)
    } else if so_far.len() >= limit {
        Page::Done(so_far)
    } else {
        match spans[0] {
            Ok(span) => match header_at(sb, span) {
                Ok(header) => if until == Some(header.signature) {
                    Page::Done(so_far)
                } else {
                    match time_of(sb, header.slot, so_far) {
                        Ok(blocktime) => history_of(
                            sb,
                            spans.skip(1),
                            limit,
                            until,
                            so_far.push(
                                AccountSignature {
                                    signature: header.signature,
                                    slot: header.slot,
                                    result: header.result,
                                    blocktime,
                                },
                            ),
                        ),
                        Err(error) => Page::Failed(error),
                    }
                },
                Err(error) => Page::Failed(error),
            },
            Err(error) => Page::Failed(error),
        }
    }
}

/// `spans` are what the index of a superblock gives for an account below `upper`.
pub open spec fn spans_of(
    sb: SuperblockView,
    pubkey: Pubkey,
    upper: Option<Span>,
    spans: Seq<Result<Span, LedgerError>>,
) -> bool {
    exists|keys: Seq<Seq<u8>>|
        {
            &&& #[trigger] keys_descend(
                keys,
                sb.rows,
                account_rows(pubkey),
                account_end(pubkey, upper),
            )
            &&& spans.len() == keys.len()
            &&& forall|i: int| 0 <= i < keys.len() ==> #[trigger] spans[i] == span_of_row(keys[i])
        }
}

/// The executions that the index of a superblock gives for an account below `upper`.
pub open spec fn account_spans(sb: SuperblockView, pubkey: Pubkey, upper: Option<Span>) -> Seq<
    Result<Span, LedgerError>,
> {
    choose|spans: Seq<Result<Span, LedgerError>>| spans_of(sb, pubkey, upper, spans)
}

/// History of an account, newest first. Superblocks newer than the one that holds `before`
/// are skipped; in that one the history begins below it.
pub open spec fn read_history(
    list: Seq<SuperblockView>,
    oldest: int,
    pubkey: Pubkey,
    limit: nat,
    before: Option<Signature>,
    until: Option<Signature>,
    so_far: Seq<AccountSignature>,
) -> Result<Seq<AccountSignature>, LedgerError>
    decreases list.len(),
{
    if !reaches(list, oldest) {
        Ok(so_far)
    } else {
        let sb = list.last();
        let rest = list.drop_last();
        match before {
            Some(signature) => match find_transaction(sb.rows, signature) {
                Ok(Some(cutoff)) => match history_of(
                    sb,
                    account_spans(sb, pubkey, Some(cutoff.execution)),
                    limit,
                    until,
                    so_far,
                ) {
                    Page::Continue(found) => read_history(
                        rest,
                        oldest,
                        pubkey,
                        limit,
                        None,
                        until,
                        found,
                    ),
                    Page::Done(found) => Ok(found),
                    Page::Failed(error) => Err(error),
                },
                Ok(None) => read_history(rest, oldest, pubkey, limit, before, until, so_far),
                Err(error) => Err(error),
            },
            None => match history_of(
                sb,
                account_spans(sb, pubkey, None),
                limit,
                until,
                so_far,
            ) {
                Page::Continue(found) => read_history(
                    rest,
                    oldest,
                    pubkey,
                    limit,
                    None,
                    until,
                    found,
                ),
                Page::Done(found) => Ok(found),
                Page::Failed(error) => Err(error),
            },
        }
    }
}

/// Two descending walks over the same rows are the same walk.
proof fn walk_is_unique(
    a: Seq<Seq<u8>>,
    b: Seq<Seq<u8>>,
    rows: Map<Seq<u8>, Seq<u8>>,
    low: Seq<u8>,
    high: Seq<u8>,
)
    requires
        keys_descend(a, rows, low, high),
        keys_descend(b, rows, low, high),
    ensures
        a == b,
{
    assert(a.take(0) =~= b.take(0));
    tails_agree(a, b, rows, low, high, 0);
}

proof fn tails_agree(
    a: Seq<Seq<u8>>,
    b: Seq<Seq<u8>>,
    rows: Map<Seq<u8>, Seq<u8>>,
    low: Seq<u8>,
    high: Seq<u8>,
    n: nat,
)
    requires
        keys_descend(a, rows, low, high),
        keys_descend(b, rows, low, high),
        n <= a.len(),
        n <= b.len(),
        a.take(n as int) == b.take(n as int),
    ensures
        a == b,
    decreases a.len() - n,
{
    assert forall|k: int| 0 <= k < n implies a[k] == b[k] by {
        assert(a.take(n as int)[k] == b.take(n as int)[k]);
    }
    if n < a.len() {
        let key = a[n as int];
        assert(b.contains(key));
        let i = choose|i: int| 0 <= i < b.len() && b[i] == key;
        if i < n {
            assert(a[i] == key);
            crate::bytes::lex_irreflexive(key);
        }
        let other = b[n as int];
        assert(a.contains(other));
        let j = choose|j: int| 0 <= j < a.len() && a[j] == other;
        if j < n {
            assert(b[j] == other);
            crate::bytes::lex_irreflexive(other);
        }
        if key != other {
            assert(crate::bytes::lex_lt(key, other));
            assert(crate::bytes::lex_lt(other, key));
            crate::bytes::lex_asymmetric(key, other);
        }
        assert(a.take(n as int + 1) =~= b.take(n as int + 1));
        tails_agree(a, b, rows, low, high, n + 1);
    } else if n < b.len() {
        let other = b[n as int];
        assert(a.contains(other));
        let j = choose|j: int| 0 <= j < a.len() && a[j] == other;
        assert(b[j] == other);
        crate::bytes::lex_irreflexive(other);
    } else {
        assert(a =~= b);
    }
}

/// There is one list of an account's executions.
pub proof fn spans_are_unique(
    sb: SuperblockView,
    pubkey: Pubkey,
    upper: Option<Span>,
    spans: Seq<Result<Span, LedgerError>>,
)
    requires
        spans_of(sb, pubkey, upper, spans),
    ensures
        account_spans(sb, pubkey, upper) == spans,
{
    let other = account_spans(sb, pubkey, upper);
    assert(spans_of(sb, pubkey, upper, other));
    let low = account_rows(pubkey);
    let high = account_end(pubkey, upper);
    let a = choose|keys: Seq<Seq<u8>>|
        {
            &&& #[trigger] keys_descend(keys, sb.rows, low, high)
            &&& spans.len() == keys.len()
            &&& forall|i: int| 0 <= i < keys.len() ==> #[trigger] spans[i] == span_of_row(keys[i])
        };
    let b = choose|keys: Seq<Seq<u8>>|
        {
            &&& #[trigger] keys_descend(keys, sb.rows, low, high)
            &&& other.len() == keys.len()
            &&& forall|i: int| 0 <= i < keys.len() ==> #[trigger] other[i] == span_of_row(keys[i])
        };
    walk_is_unique(a, b, sb.rows, low, high);
    assert(spans =~= other);
}

impl Ledger {
    /// Superblocks are well-formed, the last one is the active one, and the header counts
    /// them.
    pub open spec fn wf(self) -> bool {
        &&& self@.wf()
        &&& forall|i: int|
            0 <= i < self.superblocks@.len() ==> (#[trigger] self.superblocks@[i]).wf()
    }

    /// Oldest number that a retained superblock can have.
    fn oldest(&self) -> (oldest: u64)
        requires
            self.wf(),
        ensures
            oldest == self@.oldest(),
    {
        proof {
            ids_grow(self@.superblocks, self@.superblocks.len() - 1);
        }
        self.meta.superblocks().start
    }

    /// A ledger with one empty superblock.
    pub fn new(size_limit: u64, dictionary: Vec<u8>) -> (ledger: Ledger)
        ensures
            ledger.wf(),
            ledger@ == genesis(dictionary@),
            ledger.size_limit == size_limit,
            ledger.superblocks@.len() == 1,
            ledger.superblocks@[0].meta.range.end == 0,
    {
        let meta = LedgerMeta::default();
        let mut superblocks: Vec<Superblock> = Vec::new();
        superblocks.push(Superblock::new(1));
        let ledger = Ledger { meta, superblocks, size_limit, dictionary };
        assert(ledger@.superblocks =~= seq![fresh(1)]);
        ledger
    }

    /// Whether as much space is used as allowed, given how many units the file system has,
    /// how many of them are free, and how large one is.
    pub fn size_exceeded(&self, blocks: u64, free: u64, unit: u64) -> (yes: bool)
        requires
            blocks * unit <= u64::MAX,
            free * unit <= u64::MAX,
        ensures
            yes == (used_bytes(blocks, free, unit) >= self.size_limit),
    {
        used(blocks, free, unit) >= self.size_limit
    }

    /// Transactions published at complete block ends.
    pub fn transactions(&self) -> (transactions: u64)
        ensures
            transactions == self.meta.transactions,
    {
        self.meta.transactions
    }

    /// Active superblock.
    pub fn head(&self) -> (head: u64)
        ensures
            head == self.meta.head,
    {
        self.meta.head()
    }

    /// Position of the next published byte.
    pub fn position(&self) -> (position: BlockstorePosition)
        requires
            self.wf(),
        ensures
            position == (BlockstorePosition {
                superblock: self@.meta.head,
                offset: self@.superblocks.last().meta.cursors.blockstore,
            }),
    {
        let last: usize = self.superblocks.len() - 1;
        assert(self@.superblocks[last as int] == self.superblocks@[last as int]@);
        BlockstorePosition {
            superblock: self.head(),
            offset: self.superblocks[last].meta.cursors.blockstore,
        }
    }

    /// The answer to a request for a transaction.
    pub open spec fn gives_transaction(
        self,
        signature: Signature,
        result: Result<Option<TransactionResponse>, LedgerError>,
    ) -> bool {
        let answer = read_transaction(
            self@.superblocks,
            self@.oldest(),
            signature,
            self@.dictionary,
        );
        match result {
            Ok(Some(response)) => answer == Ok::<
                Option<TransactionResponseView>,
                LedgerError,
            >(Some(response@)),
            Ok(None) => answer == Ok::<Option<TransactionResponseView>, LedgerError>(None),
            Err(error) => answer == Err::<Option<TransactionResponseView>, LedgerError>(
                error,
            ),
        }
    }

    /// Reads a transaction and its execution.
    pub fn transaction(&self, signature: &Signature) -> (result: Result<
        Option<TransactionResponse>,
        LedgerError,
    >)
        requires
            self.wf(),
        ensures
            self.gives_transaction(*signature, result),
    {
        let oldest: u64 = self.oldest();
        let ghost all = self@.superblocks;
        let mut i: usize = self.superblocks.len();
        assert(all.take(i as int) =~= all);
        while i > 0 && self.superblocks[i - 1].id >= oldest
            invariant
                self.wf(),
                i <= self.superblocks@.len(),
                all == self@.superblocks,
                oldest == self@.oldest(),
                read_transaction(all, oldest as int, *signature, self@.dictionary)
                    == read_transaction(
                    all.take(i as int),
                    oldest as int,
                    *signature,
                    self@.dictionary,
                ),
            decreases i,
        {
            let sb = &self.superblocks[i - 1];
            assert(all.take(i as int).last() == sb@);
            assert(all.take(i as int).drop_last() =~= all.take(i - 1));
            match IndexReader::new(&sb.index).transaction(signature) {
                Ok(Some(spans)) => {
                    let transaction = match sb.transaction_entry(spans.blockstore) {
                        Ok(transaction) => transaction,
                        Err(error) => {
                            return Err(error);
                        },
                    };
                    return match sb.execution(spans.execution, self.dictionary.as_slice()) {
                        Ok(execution) => Ok(
                            Some(TransactionResponse { transaction, execution }),
                        ),
                        Err(error) => Err(error),
                    };
                },
                Ok(None) => {},
                Err(error) => {
                    return Err(error);
                },
            }
            i -= 1;
        }
        proof {
            if i > 0 {
                assert(all.take(i as int).last() == self.superblocks@[i - 1]@);
            }
        }
        Ok(None)
    }

    /// Reads the status of a transaction.
    pub fn transaction_status(&self, signature: &Signature) -> (result: Result<
        Option<TransactionStatus>,
        LedgerError,
    >)
        requires
            self.wf(),
        ensures
            result == read_status(self@.superblocks, self@.oldest(), *signature),
    {
        let oldest: u64 = self.oldest();
        let ghost all = self@.superblocks;
        let mut i: usize = self.superblocks.len();
        assert(all.take(i as int) =~= all);
        while i > 0 && self.superblocks[i - 1].id >= oldest
            invariant
                self.wf(),
                i <= self.superblocks@.len(),
                all == self@.superblocks,
                oldest == self@.oldest(),
                read_status(all, oldest as int, *signature) == read_status(
                    all.take(i as int),
                    oldest as int,
                    *signature,
                ),
            decreases i,
        {
            let sb = &self.superblocks[i - 1];
            assert(all.take(i as int).last() == sb@);
            assert(all.take(i as int).drop_last() =~= all.take(i - 1));
            match IndexReader::new(&sb.index).transaction(signature) {
                Ok(Some(spans)) => {
                    return match sb.header(spans.execution) {
                        Ok(header) => Ok(
                            Some(TransactionStatus { result: header.result, slot: header.slot }),
                        ),
                        Err(error) => Err(error),
                    };
                },
                Ok(None) => {},
                Err(error) => {
                    return Err(error);
                },
            }
            i -= 1;
        }
        proof {
            if i > 0 {
                assert(all.take(i as int).last() == self.superblocks@[i - 1]@);
            }
        }
        Ok(None)
    }

    /// The answer to a request for a block.
    pub open spec fn gives_block(
        self,
        params: BlockParams,
        result: Result<Option<BlockResponse>, LedgerError>,
    ) -> bool {
        let range = self@.meta.range;
        let answer = if range.start <= params.slot <= range.end {
            read_block(self@.superblocks, self@.oldest(), params, self@.dictionary)
        } else {
            Ok(None)
        };
        match result {
            Ok(Some(response)) => answer == Ok::<Option<BlockResponseView>, LedgerError>(
                Some(response@),
            ),
            Ok(None) => answer == Ok::<Option<BlockResponseView>, LedgerError>(None),
            Err(error) => answer == Err::<Option<BlockResponseView>, LedgerError>(error),
        }
    }

    /// Reads a block, as far as it is wanted.
    pub fn block(&self, params: BlockParams) -> (result: Result<
        Option<BlockResponse>,
        LedgerError,
    >)
        requires
            self.wf(),
        ensures
            self.gives_block(params, result),
    {
        if !self.meta.range.contains(params.slot) {
            return Ok(None);
        }
        let oldest: u64 = self.oldest();
        let ghost all = self@.superblocks;
        let mut i: usize = self.superblocks.len();
        assert(all.take(i as int) =~= all);
        while i > 0 && self.superblocks[i - 1].id >= oldest
            invariant
                self.wf(),
                i <= self.superblocks@.len(),
                all == self@.superblocks,
                oldest == self@.oldest(),
                self@.meta.range.start <= params.slot <= self@.meta.range.end,
                read_block(all, oldest as int, params, self@.dictionary) == read_block(
                    all.take(i as int),
                    oldest as int,
                    params,
                    self@.dictionary,
                ),
            decreases i,
        {
            let sb = &self.superblocks[i - 1];
            assert(all.take(i as int).last() == sb@);
            assert(all.take(i as int).drop_last() =~= all.take(i - 1));
            if sb.meta.range.contains(params.slot) {
                return match IndexReader::new(&sb.index).block(params.slot) {
                    Ok(Some(span)) => match sb.populate_block_response(
                        params.slot,
                        params.details,
                        span,
                        self.dictionary.as_slice(),
                    ) {
                        Ok(response) => Ok(Some(response)),
                        Err(error) => Err(error),
                    },
                    Ok(None) => Ok(None),
                    Err(error) => Err(error),
                };
            }
            i -= 1;
        }
        proof {
            if i > 0 {
                assert(all.take(i as int).last() == self.superblocks@[i - 1]@);
            }
        }
        Ok(None)
    }

    /// Reads the block ends with slots from `from` on and below `to`, oldest first.
    pub fn blocks(&self, from: Slot, to: Slot) -> (result: Result<Vec<Block>, LedgerError>)
        requires
            self.wf(),
        ensures
            ({
                let answer = read_blocks(
                    self@.superblocks,
                    self@.oldest(),
                    from as int,
                    to as int,
                    Seq::empty(),
                );
                match result {
                    Ok(blocks) => answer matches Ok(found) && blocks@ == found.reverse(),
                    Err(error) => answer == Err::<Seq<Block>, LedgerError>(error),
                }
            }),
    {
        let oldest: u64 = self.oldest();
        let ghost all = self@.superblocks;
        let ghost goal = read_blocks(all, oldest as int, from as int, to as int, Seq::empty());
        let mut found: Vec<Block> = Vec::new();
        let mut next: u64 = to;
        let mut i: usize = self.superblocks.len();
        assert(all.take(i as int) =~= all);
        assert(found@ =~= Seq::<Block>::empty());
        while i > 0 && self.superblocks[i - 1].id >= oldest
            invariant
                self.wf(),
                i <= self.superblocks@.len(),
                all == self@.superblocks,
                oldest == self@.oldest(),
                goal == read_blocks(all, oldest as int, from as int, to as int, Seq::empty()),
                goal == read_blocks(
                    all.take(i as int),
                    oldest as int,
                    from as int,
                    next as int,
                    found@,
                ),
            decreases i,
        {
            let sb = &self.superblocks[i - 1];
            assert(all.take(i as int).last() == sb@);
            assert(all.take(i as int).drop_last() =~= all.take(i - 1));
            let start: u64 = sb.meta.range.start;
            let empty: bool = sb.meta.range.end == 0 && matches!(
                IndexReader::new(&sb.index).block(0),
                Ok(None)
            );
            let ghost walk = blocks_in(sb@, from as int, next as int, found@);
            while from < next && !empty && next - 1 >= start
                invariant
                    sb.wf(),
                    start == sb@.meta.range.start,
                    empty == no_block(sb@),
                    walk == blocks_in(sb@, from as int, next as int, found@),
                    goal == read_blocks(all, oldest as int, from as int, to as int, Seq::empty()),
                    all == self@.superblocks,
                    oldest == self@.oldest(),
                    walk is Err ==> goal == Err::<Seq<Block>, LedgerError>(walk->Err_0),
                decreases next,
            {
                let slot: u64 = next - 1;
                match IndexReader::new(&sb.index).block(slot) {
                    Ok(Some(span)) => match sb.blockstore_entry(span) {
                        Ok(BlockstoreEntry::Block(block)) => {
                            found.push(block);
                        },
                        Ok(_) => {},
                        Err(error) => {
                            return Err(error);
                        },
                    },
                    Ok(None) => {},
                    Err(error) => {
                        return Err(error);
                    },
                }
                next = slot;
            }
            i -= 1;
        }
        proof {
            if i > 0 {
                assert(all.take(i as int).last() == self.superblocks@[i - 1]@);
            }
        }
        let mut blocks: Vec<Block> = Vec::new();
        let mut k: usize = found.len();
        while k > 0
            invariant
                k <= found@.len(),
                blocks@.len() == found@.len() - k,
                forall|j: int| 0 <= j < blocks@.len() ==> blocks@[j] == found@[found@.len() - 1 - j],
            decreases k,
        {
            k -= 1;
            blocks.push(found[k]);
        }
        assert(blocks@ =~= found@.reverse());
        Ok(blocks)
    }

    /// Reads the entries of all superblocks after `superblock`, oldest first, up to the first
    /// that is malformed.
    pub fn replay(&self, superblock: u64) -> (replayed: (
        Vec<BlockstoreEntry>,
        Result<(), LedgerError>,
    ))
        requires
            self.wf(),
        ensures
            (entry_list(replayed.0@), replayed.1) == read_replay(
                self@.superblocks,
                superblock,
                Seq::empty(),
            ),
    {
        let ghost all = self@.superblocks;
        let ghost goal = read_replay(all, superblock, Seq::empty());
        let mut entries: Vec<BlockstoreEntry> = Vec::new();
        let mut i: usize = 0;
        assert(all.skip(0) =~= all);
        assert(entry_list(entries@) =~= Seq::<EntryView>::empty());
        while i < self.superblocks.len()
            invariant
                self.wf(),
                i <= self.superblocks@.len(),
                all == self@.superblocks,
                goal == read_replay(self@.superblocks, superblock, Seq::empty()),
                goal == read_replay(all.skip(i as int), superblock, entry_list(entries@)),
            decreases self.superblocks@.len() - i,
        {
            let sb = &self.superblocks[i];
            assert(all.skip(i as int).first() == sb@);
            assert(all.skip(i as int).drop_first() =~= all.skip(i + 1));
            if sb.id > superblock {
                let limit: u64 = sb.meta.cursors.blockstore;
                let end: usize = if limit <= sb.blockstore.file.len() as u64 {
                    limit as usize
                } else {
                    sb.blockstore.file.len()
                };
                let bytes = crate::ledger::codec::copy_range(
                    sb.blockstore.file.as_slice(),
                    0,
                    end,
                );
                proof {
                    sb.blockstore.file_is_written();
                    assert(bytes@ =~= published(sb@));
                }
                assert(bytes@.skip(0) =~= bytes@);
                let ghost stream = entries_in(bytes@, entry_list(entries@));
                let mut at: usize = 0;
                while at < bytes.len()
                    invariant
                        at <= bytes@.len(),
                        stream == entries_in(bytes@.skip(at as int), entry_list(entries@)),
                        goal == read_replay(self@.superblocks, superblock, Seq::empty()),
                        goal == match stream {
                            (found, Ok(_)) => read_replay(all.skip(i + 1), superblock, found),
                            (found, Err(error)) => (found, Err(error)),
                        },
                    decreases bytes@.len() - at,
                {
                    let ghost rest = bytes@.skip(at as int);
                    let ghost before = entries@;
                    proof {
                        crate::ledger::codec::parse_entry_progress(rest);
                    }
                    match decode(bytes.as_slice(), at) {
                        Ok((entry, next)) => {
                            assert(rest.skip(next - at) =~= bytes@.skip(next as int));
                            entries.push(entry);
                            assert(entry_list(entries@) =~= entry_list(before).push(entry@));
                            at = next;
                        },
                        Err(error) => {
                            return (entries, Err(error));
                        },
                    }
                }
                assert(bytes@.skip(at as int) =~= Seq::<u8>::empty());
            }
            i += 1;
        }
        assert(all.skip(i as int) =~= Seq::<SuperblockView>::empty());
        (entries, Ok(()))
    }

    /// The answer to a request for the history of an account.
    pub open spec fn gives_history(
        self,
        params: AccountSignaturesParams,
        result: Result<Vec<AccountSignature>, LedgerError>,
    ) -> bool {
        let answer = read_history(
            self@.superblocks,
            self@.oldest(),
            params.pubkey,
            params.limit as nat,
            params.before,
            params.until,
            Seq::empty(),
        );
        match result {
            Ok(list) => answer == Ok::<Seq<AccountSignature>, LedgerError>(list@),
            Err(error) => answer == Err::<Seq<AccountSignature>, LedgerError>(error),
        }
    }

    /// Reads the history of an account, newest first.
    pub fn account_signatures(&self, params: &AccountSignaturesParams) -> (result: Result<
        Vec<AccountSignature>,
        LedgerError,
    >)
        requires
            self.wf(),
        ensures
            self.gives_history(*params, result),
    {
        let oldest: u64 = self.oldest();
        let ghost all = self@.superblocks;
        let ghost goal = read_history(
            all,
            oldest as int,
            params.pubkey,
            params.limit as nat,
            params.before,
            params.until,
            Seq::empty(),
        );
        let mut signatures: Vec<AccountSignature> = Vec::new();
        let mut before: Option<Signature> = params.before;
        let mut i: usize = self.superblocks.len();
        assert(all.take(i as int) =~= all);
        assert(signatures@ =~= Seq::<AccountSignature>::empty());
        while i > 0 && self.superblocks[i - 1].id >= oldest
            invariant
                self.wf(),
                i <= self.superblocks@.len(),
                all == self@.superblocks,
                oldest == self@.oldest(),
                goal == read_history(
                    self@.superblocks,
                    self@.oldest(),
                    params.pubkey,
                    params.limit as nat,
                    params.before,
                    params.until,
                    Seq::empty(),
                ),
                goal == read_history(
                    all.take(i as int),
                    oldest as int,
                    params.pubkey,
                    params.limit as nat,
                    before,
                    params.until,
                    signatures@,
                ),
            decreases i,
        {
            let sb = &self.superblocks[i - 1];
            assert(all.take(i as int).last() == sb@);
            assert(all.take(i as int).drop_last() =~= all.take(i - 1));
            let reader = IndexReader::new(&sb.index);
            let mut upper: Option<Span> = None;
            let mut skipped: bool = false;
            if let Some(signature) = &before {
                match reader.transaction(signature) {
                    Ok(Some(cutoff)) => {
                        upper = Some(cutoff.execution);
                    },
                    Ok(None) => {
                        skipped = true;
                    },
                    Err(error) => {
                        return Err(error);
                    },
                }
            }
            if !skipped {
                before = None;
                let spans = reader.accounts(&params.pubkey, upper);
                proof {
                    assert(spans_of(sb@, params.pubkey, upper, spans@));
                    spans_are_unique(sb@, params.pubkey, upper, spans@);
                    assert(spans@.skip(0) =~= spans@);
                }
                let ghost page = history_of(
                    sb@,
                    spans@,
                    params.limit as nat,
                    params.until,
                    signatures@,
                );
                let mut k: usize = 0;
                while k < spans.len()
                    invariant
                        sb.wf(),
                        k <= spans@.len(),
                        page == history_of(
                            sb@,
                            spans@.skip(k as int),
                            params.limit as nat,
                            params.until,
                            signatures@,
                        ),
                        goal == read_history(
                            self@.superblocks,
                            self@.oldest(),
                            params.pubkey,
                            params.limit as nat,
                            params.before,
                            params.until,
                            Seq::empty(),
                        ),
                        page matches Page::Done(found) ==> goal == Ok::<
                            Seq<AccountSignature>,
                            LedgerError,
                        >(found),
                        page matches Page::Failed(error) ==> goal == Err::<
                            Seq<AccountSignature>,
                            LedgerError,
                        >(error),
                    decreases spans@.len() - k,
                {
                    assert(spans@.skip(k as int)[0] == spans@[k as int]);
                    assert(spans@.skip(k as int).skip(1) =~= spans@.skip(k + 1));
                    if signatures.len() >= params.limit {
                        return Ok(signatures);
                    }
                    let span = match &spans[k] {
                        Ok(span) => *span,
                        Err(error) => {
                            return Err(*error);
                        },
                    };
                    let header = match sb.header(span) {
                        Ok(header) => header,
                        Err(error) => {
                            return Err(error);
                        },
                    };
                    if let Some(until) = &params.until {
                        if same_signature(&header.signature, until) {
                            return Ok(signatures);
                        }
                    }
                    let blocktime: i64 = match carried_time(&signatures, header.slot) {
                        Some(blocktime) => blocktime,
                        None => match sb.blocktime(header.slot) {
                            Ok(blocktime) => blocktime,
                            Err(error) => {
                                return Err(error);
                            },
                        },
                    };
                    signatures.push(
                        AccountSignature {
                            signature: header.signature,
                            slot: header.slot,
                            result: header.result,
                            blocktime,
                        },
                    );
                    k += 1;
                }
                assert(spans@.skip(k as int) =~= Seq::<Result<Span, LedgerError>>::empty());
            }
            i -= 1;
        }
        proof {
            if i > 0 {
                assert(all.take(i as int).last() == self.superblocks@[i - 1]@);
            }
        }
        Ok(signatures)
    }

    /// Numbers of the retained superblocks, newest first.
    pub fn iter(&self) -> (ids: Vec<u64>)
        requires
            self.wf(),
        ensures
            ids@ == retained(self@.superblocks, self@.oldest()),
    {
        let oldest: u64 = self.oldest();
        let ghost all = self@.superblocks;
        let mut ids: Vec<u64> = Vec::new();
        let mut i: usize = self.superblocks.len();
        assert(all.take(i as int) =~= all);
        assert(ids@ + retained(all, oldest as int) =~= retained(all, oldest as int));
        while i > 0 && self.superblocks[i - 1].id >= oldest
            invariant
                self.wf(),
                i <= self.superblocks@.len(),
                all == self@.superblocks,
                oldest == self@.oldest(),
                ids@ + retained(all.take(i as int), oldest as int) == retained(all, oldest as int),
            decreases i,
        {
            let ghost before = ids@;
            let ghost list = all.take(i as int);
            assert(list.last() == self.superblocks@[i - 1]@);
            assert(list.drop_last() =~= all.take(i - 1));
            i -= 1;
            ids.push(self.superblocks[i].id);
            assert(ids@ + retained(all.take(i as int), oldest as int) =~= before + retained(
                list,
                oldest as int,
            ));
        }
        proof {
            let list = all.take(i as int);
            if i > 0 {
                assert(list.last() == self.superblocks@[i - 1]@);
            }
            assert(ids@ + retained(list, oldest as int) =~= ids@);
        }
        ids
    }

    /// Drops the oldest superblock, unless it is the active one, and says which it was.
    pub fn truncate(&mut self) -> (dropped: Option<u64>)
        requires
            old(self).wf(),
            old(self)@.superblocks.first().meta.range.end < u64::MAX,
        ensures
            final(self).wf(),
            final(self)@ == old(self)@.truncated(),
            final(self).size_limit == old(self).size_limit,
            dropped == if old(self)@.superblocks.first().id >= old(self)@.meta.head {
                None
            } else {
                Some(old(self)@.superblocks.first().id)
            },
    {
        let ghost before = *self;
        let ghost views = before@.superblocks;
        proof {
            assert(views.first() == self.superblocks@[0]@);
        }
        if self.superblocks[0].id >= self.meta.head {
            return None;
        }
        let first = self.superblocks.remove(0);
        self.meta.superblocks = self.meta.superblocks - 1;
        self.meta.range.start = first.meta.range.end + 1;
        proof {
            let now = self@.superblocks;
            assert(now =~= views.drop_first());
            assert forall|i: int| 0 <= i < self.superblocks@.len() implies (
            #[trigger] self.superblocks@[i]).wf() by {
                assert(self.superblocks@[i] == before.superblocks@[i + 1]);
            }
            assert forall|i: int, j: int| 0 <= i < j < now.len() implies (#[trigger] now[i]).id < (
            #[trigger] now[j]).id by {
                assert(now[i] == views[i + 1]);
                assert(now[j] == views[j + 1]);
            }
            assert(views.len() > 1) by {
                if views.len() == 1 {
                    assert(views.first() == views.last());
                }
            }
            assert(now.last() == views.last());
        }
        Some(first.id)
    }

    /// Highest slot that a retained superblock has recorded.
    pub fn tip(&self) -> (tip: Option<Slot>)
        requires
            self.wf(),
        ensures
            tip matches Some(slot) && is_tip(self@.superblocks, self@.oldest(), slot),
    {
        let oldest: u64 = self.oldest();
        let n: usize = self.superblocks.len();
        let mut tip: u64 = self.superblocks[n - 1].meta.range.end;
        let mut i: usize = n - 1;
        assert(self@.superblocks[i as int] == self.superblocks@[i as int]@);
        proof {
            ids_grow(self@.superblocks, i as int);
        }
        while i > 0
            invariant
                self.wf(),
                i < self.superblocks@.len(),
                oldest == self@.oldest(),
                exists|j: int|
                    i <= j < self@.superblocks.len() && (#[trigger] self@.superblocks[j]).id
                        >= oldest && self@.superblocks[j].meta.range.end == tip,
                forall|j: int|
                    i <= j < self@.superblocks.len() && (#[trigger] self@.superblocks[j]).id
                        >= oldest ==> self@.superblocks[j].meta.range.end <= tip,
            decreases i,
        {
            i -= 1;
            assert(self@.superblocks[i as int] == self.superblocks@[i as int]@);
            if self.superblocks[i].id >= oldest && self.superblocks[i].meta.range.end > tip {
                tip = self.superblocks[i].meta.range.end;
            }
        }
        Some(tip)
    }

    /// Published blockstore position of a retained superblock.
    pub fn cursor(&self, superblock: u64) -> (cursor: Option<u64>)
        requires
            self.wf(),
        ensures
            match cursor {
                Some(position) => superblock >= self@.oldest() && exists|i: int|
                    0 <= i < self@.superblocks.len() && (#[trigger] self@.superblocks[i]).id
                        == superblock && self@.superblocks[i].meta.cursors.blockstore == position,
                None => superblock < self@.oldest() || forall|i: int|
                    0 <= i < self@.superblocks.len() ==> (#[trigger] self@.superblocks[i]).id
                        != superblock,
            },
    {
        if superblock < self.oldest() {
            return None;
        }
        let mut i: usize = 0;
        while i < self.superblocks.len()
            invariant
                i <= self.superblocks@.len(),
                forall|j: int|
                    0 <= j < i ==> (#[trigger] self@.superblocks[j]).id != superblock,
                superblock >= self@.oldest(),
            decreases self.superblocks@.len() - i,
        {
            assert(self@.superblocks[i as int] == self.superblocks@[i as int]@);
            if self.superblocks[i].id == superblock {
                return Some(self.superblocks[i].meta.cursors.blockstore);
            }
            i += 1;
        }
        None
    }
}

/// A ledger with one empty superblock.
pub open spec fn genesis(dictionary: Seq<u8>) -> LedgerView {
    LedgerView {
        meta: LedgerMeta {
            transactions: 0,
            superblocks: 1,
            head: 1,
            range: BlockRange { start: 0, end: 0 },
            blocks: 0,
        },
        superblocks: seq![fresh(1)],
        dictionary,
    }
}

/// Bytes in use on a file system.
pub open spec fn used_bytes(blocks: u64, free: u64, unit: u64) -> int {
    if blocks * unit >= free * unit {
        blocks * unit - free * unit
    } else {
        0
    }
}

/// Bytes in use on a file system, given how many units it has, how many of them are free, and
/// how large one is.
pub fn used(blocks: u64, free: u64, unit: u64) -> (used: u64)
    requires
        blocks * unit <= u64::MAX,
        free * unit <= u64::MAX,
    ensures
        used == used_bytes(blocks, free, unit),
{
    let total: u64 = blocks * unit;
    let unused: u64 = free * unit;
    total.saturating_sub(unused)
}

/// Bytes in use and free bytes are all there are; where more are free than there are, none are in
/// use.
pub proof fn free_space_is_not_used(blocks: u64, free: u64, unit: u64)
    ensures
        free <= blocks ==> used_bytes(blocks, free, unit) + free * unit == blocks * unit,
        free >= blocks ==> used_bytes(blocks, free, unit) == 0,
{
    vstd::arithmetic::mul::lemma_mul_inequality(
        if free <= blocks {
            free as int
        } else {
            blocks as int
        },
        if free <= blocks {
            blocks as int
        } else {
            free as int
        },
        unit as int,
    );
}

/// Position in the blockstore stream.
#[derive(Clone, Copy, PartialEq, Eq, Structural, Debug)]
pub struct BlockstorePosition {
    /// Superblock.
    pub superblock: u64,
    /// Position in its blockstore file.
    pub offset: u64,
}

/// `slot` is the highest slot that a superblock from `oldest` on has recorded.
pub open spec fn is_tip(list: Seq<SuperblockView>, oldest: int, slot: Slot) -> bool {
    &&& exists|i: int|
        0 <= i < list.len() && (#[trigger] list[i]).id >= oldest && list[i].meta.range.end == slot
    &&& forall|i: int|
        0 <= i < list.len() && (#[trigger] list[i]).id >= oldest ==> list[i].meta.range.end <= slot
}

/// Contents of several entries.
pub open spec fn entry_list(entries: Seq<BlockstoreEntry>) -> Seq<EntryView> {
    entries.map_values(|entry: BlockstoreEntry| entry@)
}

} // verus!
