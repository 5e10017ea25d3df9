//! Index of one superblock: transactions, blocks, and account mentions.

use vstd::prelude::*;

use crate::bytes::{
    be_bytes, be_value, le_bytes, le_value, lex_lt, u64_from_be, u64_from_le, u64_to_be, u64_to_le,
};
use crate::ledger::error::{Corruption, LedgerError};
use crate::table::Table;
use crate::types::{Pubkey, Signature, Slot};

verus! {

/// Namespace of transaction keys: `t`.
pub const TRANSACTION: u8 = 116;

/// Namespace of block keys: `b`.
pub const BLOCK: u8 = 98;

/// Namespace of account keys: `a`.
pub const ACCOUNT: u8 = 97;

/// Bytes of a signature or an address that an index key keeps.
pub const PREFIX_BYTES: usize = 16;

/// Position and size of an entry in a file, in one number: the upper 39 bits hold the
/// position, the lower 25 bits the size.
#[derive(Clone, Copy, Debug, PartialEq, Eq, Structural, PartialOrd, Ord)]
pub struct Span {
    /// The number.
    pub bits: u64,
}

/// Numbers below this one fit into the lower 25 bits.
pub const SIZE_LIMIT: u64 = 33554432;

impl Span {
    /// Largest size that fits.
    pub const MAX_SIZE: u64 = 33554431;

    /// Length of the longest file whose positions fit.
    pub const MAX_FILE_SIZE: u64 = 549755813888;

    /// Position in the file.
    pub open spec fn at(self) -> u64 {
        self.bits / SIZE_LIMIT
    }

    /// Size of the entry.
    pub open spec fn width(self) -> u64 {
        self.bits % SIZE_LIMIT
    }

    /// Packs a position and a size into one number. Both survive if they fit.
    pub fn new(offset: u64, size: u64) -> (span: Span)
        ensures
            span.bits == (offset << 25) | size,
            offset < Span::MAX_FILE_SIZE && size <= Span::MAX_SIZE ==> span.bits == offset
                * SIZE_LIMIT + size && span.at() == offset && span.width() == size,
    {
        let bits: u64 = (offset << 25) | size;
        proof {
            assert(offset < 549755813888 && size <= 33554431 ==> (offset << 25) | size == offset
                * 33554432 + size) by (bit_vector);
        }
        Span { bits }
    }

    /// Position in the file.
    pub fn offset(&self) -> (offset: u64)
        ensures
            offset == self.at(),
            offset < Span::MAX_FILE_SIZE,
    {
        let bits: u64 = self.bits;
        assert(bits >> 25 == bits / 33554432) by (bit_vector);
        bits >> 25
    }

    /// Size of the entry.
    pub fn size(&self) -> (size: u64)
        ensures
            size == self.width(),
            size <= Span::MAX_SIZE,
    {
        let bits: u64 = self.bits;
        assert(bits & 33554431 == bits % 33554432) by (bit_vector);
        bits & 33554431
    }

    /// Bytes of a span stored as a value: least significant first.
    pub fn value_bytes(self) -> (bytes: [u8; 8])
        ensures
            bytes@ == le_bytes(self.bits as nat, 8),
    {
        u64_to_le(self.bits)
    }

    /// Bytes of a span stored in a key: most significant first, so that keys are ordered as
    /// the spans are.
    pub fn key_bytes(self) -> (bytes: [u8; 8])
        ensures
            bytes@ == be_bytes(self.bits as nat, 8),
    {
        u64_to_be(self.bits)
    }

    /// Decodes a span that was stored as a value.
    pub fn from_value(bytes: &[u8]) -> (result: Result<Span, LedgerError>)
        ensures
            result == span_value(bytes@),
    {
        match fixed::<8>(bytes, Corruption::SpanValue) {
            Ok(value) => {
                proof {
                    crate::bytes::widths();
                    crate::bytes::le_bytes_of_value(value@);
                }
                Ok(Span { bits: u64_from_le(&value) })
            },
            Err(error) => Err(error),
        }
    }

    /// Decodes a span that was stored in a key.
    pub fn from_key(bytes: &[u8]) -> (result: Result<Span, LedgerError>)
        ensures
            result == span_key(bytes@),
    {
        match fixed::<8>(bytes, Corruption::SpanKey) {
            Ok(key) => {
                proof {
                    crate::bytes::widths();
                    crate::bytes::be_bytes_of_value(key@);
                }
                Ok(Span { bits: u64_from_be(&key) })
            },
            Err(error) => Err(error),
        }
    }
}

/// The span that `bytes` hold as a value.
pub open spec fn span_value(bytes: Seq<u8>) -> Result<Span, LedgerError> {
    if bytes.len() == 8 {
        Ok(Span { bits: le_value(bytes) as u64 })
    } else {
        Err(LedgerError::Corruption(Corruption::SpanValue))
    }
}

/// The span that `bytes` hold in a key.
pub open spec fn span_key(bytes: Seq<u8>) -> Result<Span, LedgerError> {
    if bytes.len() == 8 {
        Ok(Span { bits: be_value(bytes) as u64 })
    } else {
        Err(LedgerError::Corruption(Corruption::SpanKey))
    }
}

/// Spans are ordered by position first: size breaks ties only.
pub proof fn span_order_is_offset_dominant(a: Span, b: Span)
    ensures
        a.at() < b.at() ==> a.bits < b.bits,
        a.at() == b.at() && a.width() < b.width() ==> a.bits < b.bits,
        a.bits < b.bits ==> a.at() <= b.at(),
{
    vstd::arithmetic::div_mod::lemma_fundamental_div_mod(a.bits as int, SIZE_LIMIT as int);
    vstd::arithmetic::div_mod::lemma_fundamental_div_mod(b.bits as int, SIZE_LIMIT as int);
}

/// A stored span is read back, from a value and from a key.
pub proof fn span_roundtrip(span: Span)
    ensures
        span_value(le_bytes(span.bits as nat, 8)) == Ok::<Span, LedgerError>(span),
        span_key(be_bytes(span.bits as nat, 8)) == Ok::<Span, LedgerError>(span),
{
    crate::bytes::widths();
    crate::bytes::le_bytes_spell(span.bits as nat, 8);
    crate::bytes::be_bytes_spell(span.bits as nat, 8);
}

/// Where a transaction and its execution stand.
#[derive(Clone, Copy, Debug, PartialEq, Eq, Structural)]
pub struct TxSpan {
    /// The transaction in the blockstore file.
    pub blockstore: Span,
    /// The execution in the executions file.
    pub execution: Span,
}

/// The array with the contents of a slice that is as long as the array: `try_into` of std
/// from a slice to an array.
#[verifier::external_body]
fn array_of<const N: usize>(bytes: &[u8]) -> (array: Option<[u8; N]>)
    ensures
        array is Some <==> bytes@.len() == N,
        array matches Some(a) ==> a@ == bytes@,
{
    bytes.try_into().ok()
}

/// Stored bytes as an array, or the corruption that a wrong length is.
pub fn fixed<const N: usize>(bytes: &[u8], error: Corruption) -> (result: Result<
    [u8; N],
    LedgerError,
>)
    ensures
        match result {
            Ok(array) => bytes@.len() == N && array@ == bytes@,
            Err(e) => bytes@.len() != N && e == LedgerError::Corruption(error),
        },
{
    match array_of::<N>(bytes) {
        Some(array) => Ok(array),
        None => Err(LedgerError::Corruption(error)),
    }
}

/// First bytes of a signature or an address.
pub fn prefix<const N: usize>(bytes: &[u8; N]) -> (prefix: [u8; 16])
    requires
        N >= PREFIX_BYTES,
    ensures
        prefix@ == bytes@.take(16),
{
    let mut prefix: [u8; 16] = [0u8; 16];
    let mut i: usize = 0;
    while i < 16
        invariant
            i <= 16,
            N >= 16,
            forall|j: int| 0 <= j < i ==> prefix@[j] == bytes@[j],
        decreases 16 - i,
    {
        prefix[i] = bytes[i];
        i += 1;
    }
    assert(prefix@ =~= bytes@.take(16));
    prefix
}

/// Key of a transaction.
pub open spec fn transaction_row(signature: Signature) -> Seq<u8> {
    seq![TRANSACTION] + signature@.take(16)
}

/// Key of a block.
pub open spec fn block_row(slot: Slot) -> Seq<u8> {
    seq![BLOCK] + be_bytes(slot as nat, 8)
}

/// What the keys of one account's entries begin with.
pub open spec fn account_rows(pubkey: Pubkey) -> Seq<u8> {
    seq![ACCOUNT] + pubkey@.take(16)
}

/// Key of one entry of an account.
pub open spec fn account_row(pubkey: Pubkey, span: Span) -> Seq<u8> {
    account_rows(pubkey) + be_bytes(span.bits as nat, 8)
}

/// Value of a transaction.
pub open spec fn transaction_value(span: TxSpan) -> Seq<u8> {
    le_bytes(span.blockstore.bits as nat, 8) + le_bytes(span.execution.bits as nat, 8)
}

/// Key of a transaction.
pub fn transaction_key(signature: &Signature) -> (key: Vec<u8>)
    ensures
        key@ == transaction_row(*signature),
{
    let mut key: Vec<u8> = Vec::new();
    key.push(TRANSACTION);
    key.extend_from_slice(prefix::<64>(signature).as_slice());
    assert(key@ =~= transaction_row(*signature));
    key
}

/// Key of a block.
pub fn block_key(slot: Slot) -> (key: Vec<u8>)
    ensures
        key@ == block_row(slot),
{
    let mut key: Vec<u8> = Vec::new();
    key.push(BLOCK);
    key.extend_from_slice(u64_to_be(slot).as_slice());
    assert(key@ =~= block_row(slot));
    key
}

/// What the keys of one account's entries begin with.
pub fn account_prefix(pubkey: &Pubkey) -> (key: Vec<u8>)
    ensures
        key@ == account_rows(*pubkey),
{
    let mut key: Vec<u8> = Vec::new();
    key.push(ACCOUNT);
    key.extend_from_slice(prefix::<32>(pubkey).as_slice());
    assert(key@ =~= account_rows(*pubkey));
    key
}

/// Key of one entry of an account.
pub fn account_key(pubkey: &Pubkey, span: Span) -> (key: Vec<u8>)
    ensures
        key@ == account_row(*pubkey, span),
{
    let mut key = account_prefix(pubkey);
    key.extend_from_slice(span.key_bytes().as_slice());
    assert(key@ =~= account_row(*pubkey, span));
    key
}

/// Rows of one superblock's index.
pub struct Keyspace {
    /// Values by key.
    pub rows: Table<Vec<u8>>,
}

impl View for Keyspace {
    type V = Map<Seq<u8>, Seq<u8>>;

    open spec fn view(&self) -> Map<Seq<u8>, Seq<u8>> {
        Map::new(
            |key: Seq<u8>| self.rows@.contains_key(key),
            |key: Seq<u8>| self.rows@[key]@,
        )
    }
}

impl Keyspace {
    /// Rows are in key order.
    pub open spec fn wf(self) -> bool {
        self.rows.wf()
    }

    /// An index without rows.
    pub fn new() -> (keyspace: Keyspace)
        ensures
            keyspace.wf(),
            keyspace@ == Map::<Seq<u8>, Seq<u8>>::empty(),
    {
        let keyspace = Keyspace { rows: Table::new() };
        assert(keyspace@ =~= Map::<Seq<u8>, Seq<u8>>::empty());
        keyspace
    }

    fn put(&mut self, key: Vec<u8>, value: Vec<u8>)
        requires
            old(self).wf(),
        ensures
            final(self).wf(),
            final(self)@ == old(self)@.insert(key@, value@),
    {
        let ghost before = self@;
        let ghost k = key@;
        let ghost v = value@;
        let _ = self.rows.insert(key, value);
        assert(self@ =~= before.insert(k, v));
    }
}

/// `keys` are the keys of `rows` from `low` on and below `high`, in descending order.
pub open spec fn keys_descend(
    keys: Seq<Seq<u8>>,
    rows: Map<Seq<u8>, Seq<u8>>,
    low: Seq<u8>,
    high: Seq<u8>,
) -> bool {
    &&& forall|i: int|
        0 <= i < keys.len() ==> rows.contains_key(#[trigger] keys[i]) && !lex_lt(keys[i], low)
            && lex_lt(keys[i], high)
    &&& forall|i: int, j: int|
        0 <= i < j < keys.len() ==> lex_lt(#[trigger] keys[j], #[trigger] keys[i])
    &&& forall|key: Seq<u8>|
        #![trigger rows.contains_key(key)]
        rows.contains_key(key) && !lex_lt(key, low) && lex_lt(key, high) ==> keys.contains(key)
}

/// Transaction that the index knows under a signature.
pub open spec fn find_transaction(
    rows: Map<Seq<u8>, Seq<u8>>,
    signature: Signature,
) -> Result<Option<TxSpan>, LedgerError> {
    let key = transaction_row(signature);
    if !rows.contains_key(key) {
        Ok(None)
    } else if rows[key].len() != 16 {
        Err(LedgerError::Corruption(Corruption::TransactionSpans))
    } else {
        Ok(
            Some(
                TxSpan {
                    blockstore: Span { bits: le_value(rows[key].take(8)) as u64 },
                    execution: Span { bits: le_value(rows[key].skip(8)) as u64 },
                },
            ),
        )
    }
}

/// Block that the index knows under a slot.
pub open spec fn find_block(
    rows: Map<Seq<u8>, Seq<u8>>,
    slot: Slot,
) -> Result<Option<Span>, LedgerError> {
    let key = block_row(slot);
    if !rows.contains_key(key) {
        Ok(None)
    } else {
        match span_value(rows[key]) {
            Ok(span) => Ok(Some(span)),
            Err(error) => Err(error),
        }
    }
}

/// Block that a row describes.
pub open spec fn block_of_row(key: Seq<u8>, value: Seq<u8>) -> Result<(Slot, Span), LedgerError> {
    if key.len() != 9 {
        Err(LedgerError::Corruption(Corruption::SlotKey))
    } else {
        match span_value(value) {
            Ok(span) => Ok((be_value(key.skip(1)) as u64, span)),
            Err(error) => Err(error),
        }
    }
}

/// Execution that a row of an account describes.
pub open spec fn span_of_row(key: Seq<u8>) -> Result<Span, LedgerError> {
    if key.len() < 17 {
        Err(LedgerError::Corruption(Corruption::AccountKey))
    } else {
        span_key(key.skip(17))
    }
}

/// First key after all entries of an account.
pub open spec fn after_account(pubkey: Pubkey) -> Seq<u8> {
    account_rows(pubkey) + seq![255u8, 255, 255, 255, 255, 255, 255, 255, 0]
}

/// Where a walk over the entries of an account ends: below a given execution, or at the end.
pub open spec fn account_end(pubkey: Pubkey, before: Option<Span>) -> Seq<u8> {
    match before {
        Some(span) => account_row(pubkey, span),
        None => after_account(pubkey),
    }
}

/// Reads one superblock's index.
pub struct IndexReader<'a> {
    /// The rows.
    pub keyspace: &'a Keyspace,
}

impl<'a> IndexReader<'a> {
    /// Borrows an index.
    pub fn new(keyspace: &'a Keyspace) -> (reader: IndexReader<'a>)
        ensures
            reader.keyspace == keyspace,
    {
        IndexReader { keyspace }
    }

    /// Locates a transaction by its first signature.
    pub fn transaction(&self, signature: &Signature) -> (result: Result<
        Option<TxSpan>,
        LedgerError,
    >)
        requires
            self.keyspace.wf(),
        ensures
            result == find_transaction(self.keyspace@, *signature),
    {
        let key = transaction_key(signature);
        match self.keyspace.rows.get(key.as_slice()) {
            Some(value) => match fixed::<16>(value.as_slice(), Corruption::TransactionSpans) {
                Ok(pair) => {
                    let mut first: [u8; 8] = [0u8; 8];
                    let mut second: [u8; 8] = [0u8; 8];
                    let mut i: usize = 0;
                    while i < 8
                        invariant
                            i <= 8,
                            forall|j: int| 0 <= j < i ==> first@[j] == pair@[j],
                            forall|j: int| 0 <= j < i ==> second@[j] == pair@[j + 8],
                        decreases 8 - i,
                    {
                        first[i] = pair[i];
                        second[i] = pair[i + 8];
                        i += 1;
                    }
                    assert(first@ =~= value@.take(8));
                    assert(second@ =~= value@.skip(8));
                    let blockstore = Span { bits: u64_from_le(&first) };
                    let execution = Span { bits: u64_from_le(&second) };
                    Ok(Some(TxSpan { blockstore, execution }))
                },
                Err(error) => Err(error),
            },
            None => Ok(None),
        }
    }

    /// Locates a block by its slot.
    pub fn block(&self, slot: Slot) -> (result: Result<Option<Span>, LedgerError>)
        requires
            self.keyspace.wf(),
        ensures
            result == find_block(self.keyspace@, slot),
    {
        let key = block_key(slot);
        match self.keyspace.rows.get(key.as_slice()) {
            Some(value) => match Span::from_value(value.as_slice()) {
                Ok(span) => Ok(Some(span)),
                Err(error) => Err(error),
            },
            None => Ok(None),
        }
    }

    /// Positions of the rows from `low` on and below `high`.
    fn range(&self, low: &[u8], high: &[u8]) -> (bounds: (usize, usize))
        requires
            self.keyspace.wf(),
        ensures
            bounds.0 <= bounds.1 <= self.keyspace.rows.rows@.len(),
            forall|i: int|
                0 <= i < self.keyspace.rows.rows@.len() ==> (bounds.0 <= i < bounds.1 <==> !lex_lt(
                    (#[trigger] self.keyspace.rows.rows@[i]).0@,
                    low@,
                ) && lex_lt(self.keyspace.rows.rows@[i].0@, high@)),
    {
        let from: usize = self.keyspace.rows.lower_bound(low);
        let to: usize = self.keyspace.rows.lower_bound(high);
        if to < from {
            (from, from)
        } else {
            (from, to)
        }
    }

    /// Blocks with slots from `first` to `last`, newest first. A malformed row is an error
    /// in its place.
    pub fn blocks(&self, first: Slot, last: Slot) -> (list: Vec<
        Result<(Slot, Span), LedgerError>,
    >)
        requires
            self.keyspace.wf(),
        ensures
            exists|keys: Seq<Seq<u8>>|
                {
                    &&& #[trigger] keys_descend(
                        keys,
                        self.keyspace@,
                        block_row(first),
                        block_row(last).push(0),
                    )
                    &&& list@.len() == keys.len()
                    &&& forall|i: int|
                        0 <= i < keys.len() ==> #[trigger] list@[i] == block_of_row(
                            keys[i],
                            self.keyspace@[keys[i]],
                        )
                },
    {
        let low = block_key(first);
        let mut high = block_key(last);
        high.push(0);
        let (from, to) = self.range(low.as_slice(), high.as_slice());
        let ghost keys = walked(self.keyspace.rows, from as int, to as int);
        let mut list: Vec<Result<(Slot, Span), LedgerError>> = Vec::new();
        let mut i: usize = to;
        proof {
            self.keyspace.rows.rows_are_entries();
        }
        while i > from
            invariant
                from <= i <= to <= self.keyspace.rows.rows@.len(),
                self.keyspace.wf(),
                keys == walked(self.keyspace.rows, from as int, to as int),
                list@.len() == to - i,
                forall|j: int|
                    0 <= j < self.keyspace.rows.rows@.len() ==> self.keyspace.rows@.contains_key(
                        (#[trigger] self.keyspace.rows.rows@[j]).0@,
                    ) && self.keyspace.rows@[self.keyspace.rows.rows@[j].0@]
                        == self.keyspace.rows.rows@[j].1,
                forall|j: int|
                    0 <= j < to - i ==> #[trigger] list@[j] == block_of_row(
                        keys[j],
                        self.keyspace@[keys[j]],
                    ),
            decreases i,
        {
            i -= 1;
            let key = &self.keyspace.rows.rows[i].0;
            let value = &self.keyspace.rows.rows[i].1;
            let entry = block_in_row(key.as_slice(), value.as_slice());
            assert(keys[to - i - 1] == self.keyspace.rows.rows@[i as int].0@);
            list.push(entry);
        }
        proof {
            walked_descends(*self.keyspace, from as int, to as int, low@, high@);
            assert(high@ =~= block_row(last).push(0));
        }
        list
    }

    /// Executions that mention an account, newest first, below `before` if it is given. A
    /// malformed row is an error in its place.
    pub fn accounts(&self, pubkey: &Pubkey, before: Option<Span>) -> (list: Vec<
        Result<Span, LedgerError>,
    >)
        requires
            self.keyspace.wf(),
        ensures
            exists|keys: Seq<Seq<u8>>|
                {
                    &&& #[trigger] keys_descend(
                        keys,
                        self.keyspace@,
                        account_rows(*pubkey),
                        account_end(*pubkey, before),
                    )
                    &&& list@.len() == keys.len()
                    &&& forall|i: int|
                        0 <= i < keys.len() ==> #[trigger] list@[i] == span_of_row(keys[i])
                },
    {
        let low = account_prefix(pubkey);
        let high = match before {
            Some(span) => account_key(pubkey, span),
            None => {
                let mut high = account_prefix(pubkey);
                high.push(255);
                high.push(255);
                high.push(255);
                high.push(255);
                high.push(255);
                high.push(255);
                high.push(255);
                high.push(255);
                high.push(0);
                assert(high@ =~= after_account(*pubkey));
                high
            },
        };
        let (from, to) = self.range(low.as_slice(), high.as_slice());
        let ghost keys = walked(self.keyspace.rows, from as int, to as int);
        let mut list: Vec<Result<Span, LedgerError>> = Vec::new();
        let mut i: usize = to;
        while i > from
            invariant
                from <= i <= to <= self.keyspace.rows.rows@.len(),
                keys == walked(self.keyspace.rows, from as int, to as int),
                list@.len() == to - i,
                forall|j: int| 0 <= j < to - i ==> #[trigger] list@[j] == span_of_row(keys[j]),
            decreases i,
        {
            i -= 1;
            let key = &self.keyspace.rows.rows[i].0;
            let entry = span_in_row(key.as_slice());
            assert(keys[to - i - 1] == self.keyspace.rows.rows@[i as int].0@);
            list.push(entry);
        }
        proof {
            assert(high@ == account_end(*pubkey, before));
            walked_descends(*self.keyspace, from as int, to as int, low@, high@);
            assert(keys_descend(
                keys,
                self.keyspace@,
                account_rows(*pubkey),
                account_end(*pubkey, before),
            ));
        }
        list
    }
}

/// Keys of the rows from `from` on and below `to`, last one first.
spec fn walked(table: Table<Vec<u8>>, from: int, to: int) -> Seq<Seq<u8>> {
    Seq::new((to - from) as nat, |j: int| table.rows@[to - 1 - j].0@)
}

proof fn walked_descends(keyspace: Keyspace, from: int, to: int, low: Seq<u8>, high: Seq<u8>)
    requires
        keyspace.wf(),
        0 <= from <= to <= keyspace.rows.rows@.len(),
        forall|i: int|
            0 <= i < keyspace.rows.rows@.len() ==> (from <= i < to <==> !lex_lt(
                (#[trigger] keyspace.rows.rows@[i]).0@,
                low,
            ) && lex_lt(keyspace.rows.rows@[i].0@, high)),
    ensures
        keys_descend(walked(keyspace.rows, from, to), keyspace@, low, high),
{
    let keys = walked(keyspace.rows, from, to);
    keyspace.rows.rows_are_entries();
    assert forall|i: int| 0 <= i < keys.len() implies keyspace@.contains_key(#[trigger] keys[i])
        && !lex_lt(keys[i], low) && lex_lt(keys[i], high) by {
        assert(keys[i] == keyspace.rows.rows@[to - 1 - i].0@);
    }
    assert forall|i: int, j: int| 0 <= i < j < keys.len() implies lex_lt(
        #[trigger] keys[j],
        #[trigger] keys[i],
    ) by {
        assert(keys[i] == keyspace.rows.rows@[to - 1 - i].0@);
        assert(keys[j] == keyspace.rows.rows@[to - 1 - j].0@);
    }
    assert forall|key: Seq<u8>|
        #![trigger keyspace@.contains_key(key)]
        keyspace@.contains_key(key) && !lex_lt(key, low) && lex_lt(
            key,
            high,
        ) implies keys.contains(key) by {
        let i = choose|i: int| keyspace.rows.holds(key, i);
        assert(keyspace.rows.rows@[i].0@ == key);
        assert(keys[to - 1 - i] == key);
    }
}

fn tail_of_key(key: &[u8], from: usize) -> (tail: Vec<u8>)
    requires
        from <= key@.len(),
    ensures
        tail@ == key@.skip(from as int),
{
    let tail = crate::ledger::codec::copy_range(key, from, key.len());
    assert(tail@ =~= key@.skip(from as int));
    tail
}

/// Decodes the row of a block.
fn block_in_row(key: &[u8], value: &[u8]) -> (entry: Result<(Slot, Span), LedgerError>)
    ensures
        entry == block_of_row(key@, value@),
{
    if key.len() < 1 {
        return Err(LedgerError::Corruption(Corruption::SlotKey));
    }
    let tail = tail_of_key(key, 1);
    match fixed::<8>(tail.as_slice(), Corruption::SlotKey) {
        Ok(slot) => match Span::from_value(value) {
            Ok(span) => Ok((u64_from_be(&slot), span)),
            Err(error) => Err(error),
        },
        Err(error) => Err(error),
    }
}

/// Decodes the row of an account.
fn span_in_row(key: &[u8]) -> (entry: Result<Span, LedgerError>)
    ensures
        entry == span_of_row(key@),
{
    if key.len() < 17 {
        return Err(LedgerError::Corruption(Corruption::AccountKey));
    }
    let tail = tail_of_key(key, 17);
    Span::from_key(tail.as_slice())
}

/// Rows of a batch in the order in which they were added.
pub open spec fn batch_rows(batch: Seq<(Vec<u8>, Vec<u8>)>) -> Seq<(Seq<u8>, Seq<u8>)> {
    batch.map_values(|row: (Vec<u8>, Vec<u8>)| (row.0@, row.1@))
}

/// Rows after the first `n` rows of a batch were added.
pub open spec fn added(
    rows: Map<Seq<u8>, Seq<u8>>,
    batch: Seq<(Seq<u8>, Seq<u8>)>,
    n: nat,
) -> Map<Seq<u8>, Seq<u8>>
    decreases n,
{
    if n == 0 {
        rows
    } else {
        added(rows, batch, (n - 1) as nat).insert(batch[n - 1].0, batch[n - 1].1)
    }
}

/// Rows of a batch that mentions `n` accounts of an execution.
pub open spec fn mentions(accounts: Seq<Pubkey>, span: Span) -> Seq<(Seq<u8>, Seq<u8>)> {
    accounts.map_values(|account: Pubkey| (account_row(account, span), Seq::<u8>::empty()))
}

/// Index rows that are published together.
pub struct IndexWriter {
    /// The rows.
    pub batch: Vec<(Vec<u8>, Vec<u8>)>,
}

impl View for IndexWriter {
    type V = Seq<(Seq<u8>, Seq<u8>)>;

    open spec fn view(&self) -> Seq<(Seq<u8>, Seq<u8>)> {
        batch_rows(self.batch@)
    }
}

impl IndexWriter {
    /// An empty batch.
    pub fn new() -> (writer: IndexWriter)
        ensures
            writer@ == Seq::<(Seq<u8>, Seq<u8>)>::empty(),
    {
        let writer = IndexWriter { batch: Vec::new() };
        assert(writer@ =~= Seq::<(Seq<u8>, Seq<u8>)>::empty());
        writer
    }

    /// Adds the row of a block.
    pub fn insert_block(&mut self, slot: Slot, span: Span)
        ensures
            final(self)@ == old(self)@.push(
                (block_row(slot), le_bytes(span.bits as nat, 8)),
            ),
    {
        let ghost before = self@;
        let mut value: Vec<u8> = Vec::new();
        value.extend_from_slice(span.value_bytes().as_slice());
        assert(value@ =~= le_bytes(span.bits as nat, 8));
        self.batch.push((block_key(slot), value));
        assert(self@ =~= before.push((block_row(slot), le_bytes(span.bits as nat, 8))));
    }

    /// Adds the row of a transaction.
    pub fn insert_transaction(&mut self, signature: &Signature, span: TxSpan)
        ensures
            final(self)@ == old(self)@.push(
                (transaction_row(*signature), transaction_value(span)),
            ),
    {
        let ghost before = self@;
        let mut value: Vec<u8> = Vec::new();
        value.extend_from_slice(span.blockstore.value_bytes().as_slice());
        value.extend_from_slice(span.execution.value_bytes().as_slice());
        assert(value@ =~= transaction_value(span));
        self.batch.push((transaction_key(signature), value));
        assert(self@ =~= before.push((transaction_row(*signature), transaction_value(span))));
    }

    /// Adds a row for each account that a transaction names.
    pub fn insert_accounts(&mut self, accounts: &Vec<Pubkey>, span: Span)
        ensures
            final(self)@ == old(self)@ + mentions(accounts@, span),
    {
        let ghost before = self@;
        let mut i: usize = 0;
        assert(self@ =~= before + mentions(accounts@.take(0), span));
        while i < accounts.len()
            invariant
                i <= accounts@.len(),
                self@ == before + mentions(accounts@.take(i as int), span),
            decreases accounts@.len() - i,
        {
            let ghost so_far = self@;
            let value: Vec<u8> = Vec::new();
            assert(value@ =~= Seq::<u8>::empty());
            self.batch.push((account_key(&accounts[i], span), value));
            i += 1;
            assert(self@ =~= so_far.push(
                (account_row(accounts@[i - 1], span), Seq::<u8>::empty()),
            ));
            assert(self@ =~= before + mentions(accounts@.take(i as int), span));
        }
        assert(accounts@.take(i as int) =~= accounts@);
    }

    /// Publishes the batch into an index and begins another one.
    pub fn persist(&mut self, keyspace: &mut Keyspace)
        requires
            old(keyspace).wf(),
        ensures
            final(keyspace).wf(),
            final(keyspace)@ == added(old(keyspace)@, old(self)@, old(self)@.len()),
            final(self)@ == Seq::<(Seq<u8>, Seq<u8>)>::empty(),
    {
        let ghost rows = keyspace@;
        let ghost all = self@;
        let mut batch: Vec<(Vec<u8>, Vec<u8>)> = Vec::new();
        std::mem::swap(&mut batch, &mut self.batch);
        let ghost given = batch@;
        for row in it: batch
            invariant
                it.seq() == given,
                all == batch_rows(given),
                keyspace.wf(),
                keyspace@ == added(rows, all, it.index() as nat),
        {
            assert(row == given[it.index() as int]);
            assert(all[it.index() as int] == (row.0@, row.1@));
            keyspace.put(row.0, row.1);
        }
        assert(self@ =~= Seq::<(Seq<u8>, Seq<u8>)>::empty());
    }
}

/// An indexed transaction is found under its signature, and rows of other keys do not
/// change that.
pub proof fn indexed_transaction_is_found(
    rows: Map<Seq<u8>, Seq<u8>>,
    signature: Signature,
    span: TxSpan,
)
    requires
        rows.contains_key(transaction_row(signature)),
        rows[transaction_row(signature)] == transaction_value(span),
    ensures
        find_transaction(rows, signature) == Ok::<Option<TxSpan>, LedgerError>(Some(span)),
{
    crate::bytes::widths();
    crate::bytes::le_bytes_spell(span.blockstore.bits as nat, 8);
    crate::bytes::le_bytes_spell(span.execution.bits as nat, 8);
    let value = transaction_value(span);
    assert(value.take(8) =~= le_bytes(span.blockstore.bits as nat, 8));
    assert(value.skip(8) =~= le_bytes(span.execution.bits as nat, 8));
}

/// An indexed block is found under its slot.
pub proof fn indexed_block_is_found(rows: Map<Seq<u8>, Seq<u8>>, slot: Slot, span: Span)
    requires
        rows.contains_key(block_row(slot)),
        rows[block_row(slot)] == le_bytes(span.bits as nat, 8),
    ensures
        find_block(rows, slot) == Ok::<Option<Span>, LedgerError>(Some(span)),
{
    span_roundtrip(span);
}

/// The three kinds of rows do not get into each other's way.
pub proof fn namespaces_are_apart(signature: Signature, slot: Slot, pubkey: Pubkey, span: Span)
    ensures
        transaction_row(signature) != block_row(slot),
        transaction_row(signature) != account_row(pubkey, span),
        block_row(slot) != account_row(pubkey, span),
{
    assert(transaction_row(signature)[0] == TRANSACTION);
    assert(block_row(slot)[0] == BLOCK);
    assert(account_row(pubkey, span)[0] == ACCOUNT);
}

/// Block rows are ordered by slot, so a scan between two slots meets exactly the blocks
/// between them.
pub proof fn block_rows_follow_slots(slot: Slot, first: Slot, last: Slot)
    ensures
        lex_lt(block_row(slot), block_row(first)) <==> slot < first,
        lex_lt(block_row(slot), block_row(last).push(0)) <==> slot <= last,
        block_row(slot) == block_row(first) ==> slot == first,
        block_of_row(block_row(slot), le_bytes(first as nat, 8)) == Ok::<(Slot, Span), LedgerError>(
            (slot, Span { bits: first }),
        ),
{
    crate::bytes::widths();
    let a = be_bytes(slot as nat, 8);
    let b = be_bytes(first as nat, 8);
    let c = be_bytes(last as nat, 8);
    crate::bytes::be_bytes_spell(slot as nat, 8);
    crate::bytes::be_bytes_spell(first as nat, 8);
    crate::bytes::be_bytes_spell(last as nat, 8);
    crate::bytes::lex_common_prefix(seq![BLOCK], a, b);
    crate::bytes::be_order_is_numeric(a, b);
    assert(block_row(last).push(0) =~= seq![BLOCK] + (c + seq![0u8]));
    crate::bytes::lex_common_prefix(seq![BLOCK], a, c + seq![0u8]);
    assert(a + Seq::<u8>::empty() =~= a);
    if slot == last {
        crate::bytes::lex_common_prefix(a, Seq::<u8>::empty(), seq![0u8]);
    } else {
        crate::bytes::lex_prefix_dominates(a, c, Seq::<u8>::empty(), seq![0u8]);
        crate::bytes::be_order_is_numeric(a, c);
    }
    assert(block_row(slot).skip(1) =~= a);
    assert(block_row(first).skip(1) =~= b);
    crate::bytes::le_bytes_spell(first as nat, 8);
}

/// Rows of an account are ordered by execution: a walk below one execution meets exactly
/// the earlier ones, and a walk to the end meets all of them.
pub proof fn account_rows_follow_executions(pubkey: Pubkey, span: Span, bound: Span)
    ensures
        lex_lt(account_row(pubkey, span), account_row(pubkey, bound)) <==> span.bits < bound.bits,
        !lex_lt(account_row(pubkey, span), account_rows(pubkey)),
        lex_lt(account_row(pubkey, span), account_end(pubkey, None)),
        span_of_row(account_row(pubkey, span)) == Ok::<Span, LedgerError>(span),
{
    crate::bytes::widths();
    let p = account_rows(pubkey);
    let a = be_bytes(span.bits as nat, 8);
    let b = be_bytes(bound.bits as nat, 8);
    crate::bytes::be_bytes_spell(span.bits as nat, 8);
    crate::bytes::be_bytes_spell(bound.bits as nat, 8);
    crate::bytes::lex_common_prefix(p, a, b);
    crate::bytes::be_order_is_numeric(a, b);
    assert(p + Seq::<u8>::empty() =~= p);
    crate::bytes::lex_common_prefix(p, a, Seq::<u8>::empty());
    let top = seq![255u8, 255, 255, 255, 255, 255, 255, 255];
    let over = seq![255u8, 255, 255, 255, 255, 255, 255, 255, 0];
    assert(over =~= top + seq![0u8]);
    crate::bytes::lex_common_prefix(p, a, over);
    assert(a + Seq::<u8>::empty() =~= a);
    if a == top {
        crate::bytes::lex_common_prefix(a, Seq::<u8>::empty(), seq![0u8]);
    } else {
        crate::bytes::lex_prefix_dominates(a, top, Seq::<u8>::empty(), seq![0u8]);
        crate::bytes::be_order_is_numeric(a, top);
        crate::bytes::be_bytes_of_value(top);
        assert(be_value(top) == 0xffff_ffff_ffff_ffff) by {
            reveal_with_fuel(be_value, 9);
            reveal_with_fuel(crate::bytes::pow256, 9);
            assert(top.drop_first() =~= seq![255u8, 255, 255, 255, 255, 255, 255]);
            assert(top.drop_first().drop_first() =~= seq![255u8, 255, 255, 255, 255, 255]);
            assert(seq![255u8, 255, 255, 255, 255, 255].drop_first() =~= seq![
                255u8,
                255,
                255,
                255,
                255,
            ]);
            assert(seq![255u8, 255, 255, 255, 255].drop_first() =~= seq![255u8, 255, 255, 255]);
            assert(seq![255u8, 255, 255, 255].drop_first() =~= seq![255u8, 255, 255]);
            assert(seq![255u8, 255, 255].drop_first() =~= seq![255u8, 255]);
            assert(seq![255u8, 255].drop_first() =~= seq![255u8]);
            assert(seq![255u8].drop_first() =~= Seq::<u8>::empty());
        }
        if be_value(a) == be_value(top) {
            crate::bytes::be_bytes_of_value(a);
        }
    }
    assert(account_row(pubkey, span).skip(17) =~= a);
}

/// A walk over one account meets no entry of an account whose address begins otherwise.
pub proof fn accounts_are_apart(pubkey: Pubkey, other: Pubkey, span: Span, before: Option<Span>)
    requires
        pubkey@.take(16) != other@.take(16),
    ensures
        lex_lt(account_row(other, span), account_rows(pubkey)) || !lex_lt(
            account_row(other, span),
            account_end(pubkey, before),
        ),
{
    let p = account_rows(pubkey);
    let q = account_rows(other);
    let a = be_bytes(span.bits as nat, 8);
    assert(p.skip(1) =~= pubkey@.take(16));
    assert(q.skip(1) =~= other@.take(16));
    assert(p + Seq::<u8>::empty() =~= p);
    crate::bytes::lex_prefix_dominates(q, p, a, Seq::<u8>::empty());
    let tail = match before {
        Some(bound) => be_bytes(bound.bits as nat, 8),
        None => seq![255u8, 255, 255, 255, 255, 255, 255, 255, 0],
    };
    crate::bytes::lex_prefix_dominates(q, p, a, tail);
}

} // verus!
