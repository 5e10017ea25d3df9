//! Encoding of blockstore entries and execution headers.

use vstd::prelude::*;

use crate::bytes::{le_bytes, le_value, u32_to_le, u64_from_le, u64_to_le};
use crate::ledger::error::LedgerError;
use crate::ledger::outcome::{
    number_at, outcome_bytes, outcome_ok, parse_outcome, push_outcome, read_outcome, read_u32,
};
use crate::ledger::schema::{BlockstoreEntry, EntryView, ExecutionHeader, MAX_ENTRY_SIZE};
use crate::types::{Block, Signature, SuperblockSeal};

verus! {

/// Time as stored.
pub open spec fn time_bits(time: i64) -> u64 {
    time as u64
}

/// Time from its stored form.
pub open spec fn time_of_bits(bits: u64) -> i64 {
    bits as i64
}

/// The 32-byte array with these bytes.
pub open spec fn array32(bytes: Seq<u8>) -> [u8; 32] {
    choose|a: [u8; 32]| a@ == bytes
}

/// The 64-byte array with these bytes.
pub open spec fn array64(bytes: Seq<u8>) -> [u8; 64] {
    choose|a: [u8; 64]| a@ == bytes
}

/// Eight bytes from `at` on, as a number.
pub open spec fn wide_at(bytes: Seq<u8>, at: int) -> u64 {
    le_value(bytes.subrange(at, at + 8)) as u64
}

/// Encoding of an entry.
pub open spec fn entry_bytes(entry: EntryView) -> Seq<u8> {
    match entry {
        EntryView::Block(block) => le_bytes(0, 4) + (le_bytes(block.slot as nat, 8) + (block.hash@
            + (le_bytes(time_bits(block.time) as nat, 8) + block.parent@))),
        EntryView::Transaction(payload) => le_bytes(1, 4) + (le_bytes(payload.len(), 8) + payload),
        EntryView::Superblock(seal) => le_bytes(2, 4) + (le_bytes(seal.id as nat, 8) + (le_bytes(
            seal.checksum as nat,
            8,
        ) + le_bytes(seal.transactions as nat, 8))),
        EntryView::Reset(slot) => le_bytes(3, 4) + le_bytes(slot as nat, 8),
        EntryView::Checkpoint(checksum) => le_bytes(4, 4) + le_bytes(checksum as nat, 8),
    }
}

/// Entries that a span can represent.
pub open spec fn entry_fits(entry: EntryView) -> bool {
    entry_bytes(entry).len() <= MAX_ENTRY_SIZE
}

/// The entry that `bytes` begin with, and its length.
pub open spec fn parse_entry(bytes: Seq<u8>) -> Option<(EntryView, nat)> {
    if bytes.len() < 12 {
        None
    } else {
        let tag = number_at(bytes, 0);
        let first = wide_at(bytes, 4);
        if tag == 0 {
            if bytes.len() < 84 {
                None
            } else {
                Some(
                    (
                        EntryView::Block(
                            Block {
                                slot: first,
                                hash: array32(bytes.subrange(12, 44)),
                                time: time_of_bits(wide_at(bytes, 44)),
                                parent: array32(bytes.subrange(52, 84)),
                            },
                        ),
                        84nat,
                    ),
                )
            }
        } else if tag == 1 {
            if first > MAX_ENTRY_SIZE || bytes.len() < 12 + first {
                None
            } else {
                Some((EntryView::Transaction(bytes.subrange(12, 12 + first)), (12 + first) as nat))
            }
        } else if tag == 2 {
            if bytes.len() < 28 {
                None
            } else {
                Some(
                    (
                        EntryView::Superblock(
                            SuperblockSeal {
                                id: first,
                                checksum: wide_at(bytes, 12),
                                transactions: wide_at(bytes, 20),
                            },
                        ),
                        28nat,
                    ),
                )
            }
        } else if tag == 3 {
            Some((EntryView::Reset(first), 12nat))
        } else if tag == 4 {
            Some((EntryView::Checkpoint(first), 12nat))
        } else {
            None
        }
    }
}

proof fn number_stands(bytes: Seq<u8>, n: u32)
    requires
        bytes.len() >= 4,
        bytes.take(4) == le_bytes(n as nat, 4),
    ensures
        number_at(bytes, 0) == n,
{
    crate::bytes::widths();
    crate::bytes::le_bytes_spell(n as nat, 4);
    assert(bytes.subrange(0, 4) =~= bytes.take(4));
}

proof fn wide_stands(bytes: Seq<u8>, at: int, n: u64)
    requires
        0 <= at,
        at + 8 <= bytes.len(),
        bytes.subrange(at, at + 8) == le_bytes(n as nat, 8),
    ensures
        wide_at(bytes, at) == n,
{
    crate::bytes::widths();
    crate::bytes::le_bytes_spell(n as nat, 8);
}

proof fn array32_of(a: [u8; 32])
    ensures
        array32(a@) == a,
{
    let b = array32(a@);
    assert(b@ == a@);
    assert(b =~= a);
}

proof fn array64_of(a: [u8; 64])
    ensures
        array64(a@) == a,
{
    let b = array64(a@);
    assert(b@ == a@);
    assert(b =~= a);
}

/// Times are read back as they were stored.
pub proof fn time_roundtrip(time: i64)
    ensures
        time_of_bits(time_bits(time)) == time,
{
    assert((time as u64) as i64 == time) by (bit_vector);
}

/// Length of the encoding of an entry.
pub proof fn entry_length(entry: EntryView)
    ensures
        entry is Block ==> entry_bytes(entry).len() == 84,
        entry is Superblock ==> entry_bytes(entry).len() == 28,
        entry is Reset ==> entry_bytes(entry).len() == 12,
        entry is Checkpoint ==> entry_bytes(entry).len() == 12,
        entry matches EntryView::Transaction(payload) ==> payload.len() <= u64::MAX
            ==> entry_bytes(entry).len() == 12 + payload.len(),
{
    crate::bytes::u32_spellings(0, 0);
    crate::bytes::u32_spellings(1, 1);
    crate::bytes::u32_spellings(2, 2);
    crate::bytes::u32_spellings(3, 3);
    crate::bytes::u32_spellings(4, 4);
    match entry {
        EntryView::Block(block) => {
            crate::bytes::u64_spellings(block.slot, time_bits(block.time));
            crate::bytes::u64_spellings(time_bits(block.time), block.slot);
        },
        EntryView::Transaction(payload) => {
            if payload.len() <= u64::MAX {
                let n = payload.len() as u64;
                crate::bytes::u64_spellings(n, n);
            }
        },
        EntryView::Superblock(seal) => {
            crate::bytes::u64_spellings(seal.id, seal.checksum);
            crate::bytes::u64_spellings(seal.checksum, seal.transactions);
            crate::bytes::u64_spellings(seal.transactions, seal.id);
        },
        EntryView::Reset(slot) => {
            crate::bytes::u64_spellings(slot, slot);
        },
        EntryView::Checkpoint(checksum) => {
            crate::bytes::u64_spellings(checksum, checksum);
        },
    }
}

/// Decoding gives back the entry that was encoded, whatever follows it.
pub proof fn entry_roundtrip(entry: EntryView, tail: Seq<u8>)
    requires
        entry_fits(entry),
        entry matches EntryView::Transaction(payload) ==> payload.len() <= u64::MAX,
    ensures
        parse_entry(entry_bytes(entry) + tail) == Some((entry, entry_bytes(entry).len())),
{
    entry_length(entry);
    let bytes = entry_bytes(entry) + tail;
    crate::bytes::u32_spellings(0, 0);
    crate::bytes::u32_spellings(1, 1);
    crate::bytes::u32_spellings(2, 2);
    crate::bytes::u32_spellings(3, 3);
    crate::bytes::u32_spellings(4, 4);
    match entry {
        EntryView::Block(block) => {
            crate::bytes::u64_spellings(block.slot, block.slot);
            crate::bytes::u64_spellings(time_bits(block.time), block.slot);
            assert(bytes.take(4) =~= le_bytes(0, 4));
            number_stands(bytes, 0);
            assert(bytes.subrange(4, 12) =~= le_bytes(block.slot as nat, 8));
            wide_stands(bytes, 4, block.slot);
            assert(bytes.subrange(12, 44) =~= block.hash@);
            array32_of(block.hash);
            assert(bytes.subrange(44, 52) =~= le_bytes(time_bits(block.time) as nat, 8));
            wide_stands(bytes, 44, time_bits(block.time));
            time_roundtrip(block.time);
            assert(bytes.subrange(52, 84) =~= block.parent@);
            array32_of(block.parent);
        },
        EntryView::Transaction(payload) => {
            let n = payload.len() as u64;
            crate::bytes::u64_spellings(n, n);
            assert(bytes.take(4) =~= le_bytes(1, 4));
            number_stands(bytes, 1);
            assert(bytes.subrange(4, 12) =~= le_bytes(n as nat, 8));
            wide_stands(bytes, 4, n);
            assert(bytes.subrange(12, 12 + n) =~= payload);
        },
        EntryView::Superblock(seal) => {
            crate::bytes::u64_spellings(seal.id, seal.id);
            crate::bytes::u64_spellings(seal.checksum, seal.id);
            crate::bytes::u64_spellings(seal.transactions, seal.id);
            assert(bytes.take(4) =~= le_bytes(2, 4));
            number_stands(bytes, 2);
            assert(bytes.subrange(4, 12) =~= le_bytes(seal.id as nat, 8));
            wide_stands(bytes, 4, seal.id);
            assert(bytes.subrange(12, 20) =~= le_bytes(seal.checksum as nat, 8));
            wide_stands(bytes, 12, seal.checksum);
            assert(bytes.subrange(20, 28) =~= le_bytes(seal.transactions as nat, 8));
            wide_stands(bytes, 20, seal.transactions);
        },
        EntryView::Reset(slot) => {
            crate::bytes::u64_spellings(slot, slot);
            assert(bytes.take(4) =~= le_bytes(3, 4));
            number_stands(bytes, 3);
            assert(bytes.subrange(4, 12) =~= le_bytes(slot as nat, 8));
            wide_stands(bytes, 4, slot);
        },
        EntryView::Checkpoint(checksum) => {
            crate::bytes::u64_spellings(checksum, checksum);
            assert(bytes.take(4) =~= le_bytes(4, 4));
            number_stands(bytes, 4);
            assert(bytes.subrange(4, 12) =~= le_bytes(checksum as nat, 8));
            wide_stands(bytes, 4, checksum);
        },
    }
}

/// Every entry takes some bytes, and no more than there are.
pub proof fn parse_entry_progress(bytes: Seq<u8>)
    ensures
        parse_entry(bytes) matches Some((_, n)) ==> 0 < n <= bytes.len(),
{
}

/// Encoding of an execution header.
pub open spec fn header_bytes(header: ExecutionHeader) -> Seq<u8> {
    header.signature@ + (outcome_bytes(header.result) + le_bytes(header.slot as nat, 8))
}

/// The header that `bytes` begin with, and its length.
pub open spec fn parse_header(bytes: Seq<u8>) -> Option<(ExecutionHeader, nat)> {
    if bytes.len() < 64 {
        None
    } else {
        match parse_outcome(bytes.skip(64)) {
            Some((result, k)) => if bytes.len() < 64 + k + 8 {
                None
            } else {
                Some(
                    (
                        ExecutionHeader {
                            signature: array64(bytes.take(64)),
                            result,
                            slot: wide_at(bytes, (64 + k) as int),
                        },
                        (72 + k) as nat,
                    ),
                )
            },
            None => None,
        }
    }
}

/// Decoding gives back the header that was encoded, whatever follows it.
pub proof fn header_roundtrip(header: ExecutionHeader, tail: Seq<u8>)
    requires
        outcome_ok(header.result),
    ensures
        parse_header(header_bytes(header) + tail) == Some((header, header_bytes(header).len())),
{
    let bytes = header_bytes(header) + tail;
    let outcome = outcome_bytes(header.result);
    let slot = le_bytes(header.slot as nat, 8);
    crate::bytes::u64_spellings(header.slot, header.slot);
    assert(bytes.take(64) =~= header.signature@);
    array64_of(header.signature);
    assert(bytes.skip(64) =~= outcome + (slot + tail));
    crate::ledger::outcome::outcome_roundtrip(header.result, slot + tail);
    let at = 64 + outcome.len() as int;
    assert(bytes.subrange(at, at + 8) =~= slot);
    wide_stands(bytes, at, header.slot);
}

/// Eight bytes from `at` on, as a number.
pub fn read_u64(bytes: &[u8], at: usize) -> (n: u64)
    requires
        at + 8 <= bytes@.len(),
    ensures
        n == wide_at(bytes@, at as int),
        n == le_value(bytes@.subrange(at as int, at + 8)),
{
    let eight: [u8; 8] = [
        bytes[at],
        bytes[at + 1],
        bytes[at + 2],
        bytes[at + 3],
        bytes[at + 4],
        bytes[at + 5],
        bytes[at + 6],
        bytes[at + 7],
    ];
    assert(eight@ =~= bytes@.subrange(at as int, at + 8));
    u64_from_le(&eight)
}

/// Reads thirty-two bytes.
pub fn read_hash(bytes: &[u8], at: usize) -> (hash: [u8; 32])
    requires
        at + 32 <= bytes@.len(),
    ensures
        hash == array32(bytes@.subrange(at as int, at + 32)),
{
    let mut hash: [u8; 32] = [0u8; 32];
    let end: usize = bytes.len();
    let mut i: usize = 0;
    while i < 32
        invariant
            i <= 32,
            end == bytes@.len(),
            at + 32 <= end,
            forall|j: int| 0 <= j < i ==> hash@[j] == bytes@[at + j],
        decreases 32 - i,
    {
        hash[i] = bytes[at + i];
        i += 1;
    }
    proof {
        assert(hash@ =~= bytes@.subrange(at as int, at + 32));
        array32_of(hash);
    }
    hash
}

/// Reads a signature.
pub fn read_signature(bytes: &[u8], at: usize) -> (signature: Signature)
    requires
        at + 64 <= bytes@.len(),
    ensures
        signature == array64(bytes@.subrange(at as int, at + 64)),
        signature@ == bytes@.subrange(at as int, at + 64),
{
    let mut signature: [u8; 64] = [0u8; 64];
    let end: usize = bytes.len();
    let mut i: usize = 0;
    while i < 64
        invariant
            i <= 64,
            end == bytes@.len(),
            at + 64 <= end,
            forall|j: int| 0 <= j < i ==> signature@[j] == bytes@[at + j],
        decreases 64 - i,
    {
        signature[i] = bytes[at + i];
        i += 1;
    }
    proof {
        assert(signature@ =~= bytes@.subrange(at as int, at + 64));
        array64_of(signature);
    }
    signature
}

/// A copy of the bytes from `from` to `to`.
pub fn copy_range(bytes: &[u8], from: usize, to: usize) -> (copy: Vec<u8>)
    requires
        from <= to <= bytes@.len(),
    ensures
        copy@ == bytes@.subrange(from as int, to as int),
{
    let mut copy: Vec<u8> = Vec::new();
    let mut i: usize = from;
    while i < to
        invariant
            from <= i <= to <= bytes@.len(),
            copy@ == bytes@.subrange(from as int, i as int),
        decreases to - i,
    {
        copy.push(bytes[i]);
        i += 1;
        assert(copy@ =~= bytes@.subrange(from as int, i as int));
    }
    copy
}

/// Bits of a time.
pub fn bits_of_time(time: i64) -> (bits: u64)
    ensures
        bits == time_bits(time),
{
    time as u64
}

fn time_of(bits: u64) -> (time: i64)
    ensures
        time == time_of_bits(bits),
{
    bits as i64
}

/// Encodes an entry. Fails if no span could represent it.
pub fn encode(entry: &BlockstoreEntry) -> (result: Result<Vec<u8>, LedgerError>)
    ensures
        match result {
            Ok(bytes) => entry_fits(entry@) && bytes@ == entry_bytes(entry@),
            Err(error) => !entry_fits(entry@) && error == LedgerError::Codec,
        },
{
    proof {
        entry_length(entry@);
    }
    let mut out: Vec<u8> = Vec::new();
    match entry {
        BlockstoreEntry::Block(block) => {
            out.extend_from_slice(u32_to_le(0).as_slice());
            out.extend_from_slice(u64_to_le(block.slot).as_slice());
            out.extend_from_slice(block.hash.as_slice());
            out.extend_from_slice(u64_to_le(bits_of_time(block.time)).as_slice());
            out.extend_from_slice(block.parent.as_slice());
        },
        BlockstoreEntry::Transaction(payload) => {
            if payload.len() > MAX_ENTRY_SIZE - 12 {
                return Err(LedgerError::Codec);
            }
            out.extend_from_slice(u32_to_le(1).as_slice());
            out.extend_from_slice(u64_to_le(payload.len() as u64).as_slice());
            out.extend_from_slice(payload.as_slice());
        },
        BlockstoreEntry::Superblock(seal) => {
            out.extend_from_slice(u32_to_le(2).as_slice());
            out.extend_from_slice(u64_to_le(seal.id).as_slice());
            out.extend_from_slice(u64_to_le(seal.checksum).as_slice());
            out.extend_from_slice(u64_to_le(seal.transactions).as_slice());
        },
        BlockstoreEntry::Reset(slot) => {
            out.extend_from_slice(u32_to_le(3).as_slice());
            out.extend_from_slice(u64_to_le(*slot).as_slice());
        },
        BlockstoreEntry::Checkpoint(checksum) => {
            out.extend_from_slice(u32_to_le(4).as_slice());
            out.extend_from_slice(u64_to_le(*checksum).as_slice());
        },
    }
    assert(out@ =~= entry_bytes(entry@));
    Ok(out)
}

/// Decodes the entry that stands at `at`, and says where it ends.
pub fn decode(bytes: &[u8], at: usize) -> (result: Result<(BlockstoreEntry, usize), LedgerError>)
    requires
        at <= bytes@.len(),
    ensures
        match parse_entry(bytes@.skip(at as int)) {
            Some((entry, n)) => {
                &&& result matches Ok((found, end))
                &&& found@ == entry
                &&& end == at + n
                &&& end <= bytes@.len()
            },
            None => result matches Err(error) && error == LedgerError::Codec,
        },
{
    let ghost rest = bytes@.skip(at as int);
    let left: usize = bytes.len() - at;
    if left < 12 {
        return Err(LedgerError::Codec);
    }
    assert(rest.subrange(0, 4) =~= bytes@.subrange(at as int, at + 4));
    assert(rest.subrange(4, 12) =~= bytes@.subrange(at + 4, at + 12));
    let tag: u32 = read_u32(bytes, at);
    let first: u64 = read_u64(bytes, at + 4);
    if tag == 0 {
        if left < 84 {
            return Err(LedgerError::Codec);
        }
        assert(rest.subrange(12, 44) =~= bytes@.subrange(at + 12, at + 44));
        assert(rest.subrange(44, 52) =~= bytes@.subrange(at + 44, at + 52));
        assert(rest.subrange(52, 84) =~= bytes@.subrange(at + 52, at + 84));
        let block = Block {
            slot: first,
            hash: read_hash(bytes, at + 12),
            time: time_of(read_u64(bytes, at + 44)),
            parent: read_hash(bytes, at + 52),
        };
        Ok((BlockstoreEntry::Block(block), at + 84))
    } else if tag == 1 {
        if first > MAX_ENTRY_SIZE as u64 || left - 12 < first as usize {
            return Err(LedgerError::Codec);
        }
        let end: usize = at + 12 + first as usize;
        assert(rest.subrange(12, 12 + first) =~= bytes@.subrange(at + 12, end as int));
        Ok((BlockstoreEntry::Transaction(copy_range(bytes, at + 12, end)), end))
    } else if tag == 2 {
        if left < 28 {
            return Err(LedgerError::Codec);
        }
        assert(rest.subrange(12, 20) =~= bytes@.subrange(at + 12, at + 20));
        assert(rest.subrange(20, 28) =~= bytes@.subrange(at + 20, at + 28));
        let seal = SuperblockSeal {
            id: first,
            checksum: read_u64(bytes, at + 12),
            transactions: read_u64(bytes, at + 20),
        };
        Ok((BlockstoreEntry::Superblock(seal), at + 28))
    } else if tag == 3 {
        Ok((BlockstoreEntry::Reset(first), at + 12))
    } else if tag == 4 {
        Ok((BlockstoreEntry::Checkpoint(first), at + 12))
    } else {
        Err(LedgerError::Codec)
    }
}

/// Encodes an execution header.
pub fn encode_header(header: &ExecutionHeader) -> (bytes: Vec<u8>)
    ensures
        bytes@ == header_bytes(*header),
{
    let mut out: Vec<u8> = Vec::new();
    out.extend_from_slice(header.signature.as_slice());
    push_outcome(&mut out, &header.result);
    out.extend_from_slice(u64_to_le(header.slot).as_slice());
    assert(out@ =~= header_bytes(*header));
    out
}

/// Decodes the execution header that `bytes` begin with, and says where it ends.
pub fn decode_header(bytes: &[u8]) -> (result: Result<(ExecutionHeader, usize), LedgerError>)
    ensures
        match parse_header(bytes@) {
            Some((header, n)) => result == Ok::<(ExecutionHeader, usize), LedgerError>(
                (header, n as usize),
            ) && n <= bytes@.len(),
            None => result == Err::<(ExecutionHeader, usize), LedgerError>(LedgerError::Codec),
        },
{
    if bytes.len() < 64 {
        return Err(LedgerError::Codec);
    }
    match read_outcome(bytes, 64) {
        Some((result, end)) => {
            if bytes.len() - end < 8 {
                return Err(LedgerError::Codec);
            }
            assert(bytes@.take(64) =~= bytes@.subrange(0, 64));
            let header = ExecutionHeader {
                signature: read_signature(bytes, 0),
                result,
                slot: read_u64(bytes, end),
            };
            Ok((header, end + 8))
        },
        None => Err(LedgerError::Codec),
    }
}

} // verus!
