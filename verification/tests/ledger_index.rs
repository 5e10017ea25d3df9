//! Spans, index rows, and encodings of the ledger.

use engine::ledger::codec::{decode, decode_header, encode, encode_header};
use engine::ledger::compress::{compress_details, restore_details};
use engine::ledger::error::{Corruption, LedgerError};
use engine::ledger::index::{
    fixed, prefix, IndexReader, IndexWriter, Keyspace, Span, TxSpan,
};
use engine::ledger::outcome::{InstructionError, TransactionError};
use engine::ledger::schema::{BlockstoreEntry, ExecutionHeader};
use engine::ledger::storage::AppendFile;
use engine::types::{Block, Pubkey, Signature, Slot, SuperblockSeal};

fn account_spans(keyspace: &Keyspace, pubkey: &Pubkey) -> Vec<Span> {
    IndexReader::new(keyspace)
        .accounts(pubkey, None)
        .into_iter()
        .map(|entry| entry.unwrap())
        .collect()
}

#[test]
fn span_pack_and_order() {
    let span = Span::new(1234, 56);
    assert_eq!(span.offset(), 1234);
    assert_eq!(span.size(), 56);

    // Boundary values: full size field, and an offset filling every high bit.
    let max_size = Span::new(0, Span::MAX_SIZE);
    assert_eq!((max_size.offset(), max_size.size()), (0, Span::MAX_SIZE));
    let max_offset = u64::MAX >> 25;
    let high = Span::new(max_offset, 0);
    assert_eq!((high.offset(), high.size()), (max_offset, 0));

    // Ordering is offset-dominant: a later offset outranks any size at an
    // earlier offset, and size only breaks ties within one offset.
    assert!(Span::new(11, 0) > Span::new(10, Span::MAX_SIZE));
    assert!(Span::new(10, 7) > Span::new(10, 5));
}

#[test]
fn transaction_and_block_roundtrip() {
    let mut keyspace = Keyspace::new();
    let signature: Signature = [7; 64];
    let txspan = TxSpan { blockstore: Span::new(10, 20), execution: Span::new(30, 40) };
    let (slot_a, slot_b): (Slot, Slot) = (1, 2);
    let block_a = Span::new(0, 8);
    let block_b = Span::new(8, 16);

    let mut writer = IndexWriter::new();
    writer.insert_transaction(&signature, txspan);
    writer.insert_block(slot_a, block_a);
    writer.insert_block(slot_b, block_b);
    writer.persist(&mut keyspace);

    let reader = IndexReader::new(&keyspace);
    let got = reader.transaction(&signature).unwrap().expect("transaction present");
    assert_eq!(got.blockstore, txspan.blockstore);
    assert_eq!(got.execution, txspan.execution);
    assert_eq!(reader.block(slot_a).unwrap(), Some(block_a));
    assert_eq!(reader.block(slot_b).unwrap(), Some(block_b));
    assert_eq!(
        reader.blocks(slot_a, slot_b).into_iter().map(|entry| entry.unwrap().0).collect::<Vec<_>>(),
        vec![slot_b, slot_a],
        "big-endian slot keys scan newest first"
    );

    // Absent keys resolve to nothing rather than a stale or default hit.
    assert!(reader.transaction(&[9; 64]).unwrap().is_none());
    assert_eq!(reader.block(99).unwrap(), None);
}

#[test]
fn account_signature_duplicates() {
    let mut keyspace = Keyspace::new();
    let account: Pubkey = [1; 32];
    let other: Pubkey = [2; 32];
    let spans = [Span::new(100, 10), Span::new(200, 20), Span::new(300, 30)];
    let other_span = Span::new(400, 40);

    let mut writer = IndexWriter::new();
    for span in &spans {
        writer.insert_accounts(&vec![account], *span);
    }
    writer.insert_accounts(&vec![other], other_span);
    writer.persist(&mut keyspace);

    // Account duplicate spans are newest-first, so later execution offsets are returned first.
    assert_eq!(account_spans(&keyspace, &account), vec![spans[2], spans[1], spans[0]]);

    // Duplicates stay partitioned per account key.
    assert_eq!(account_spans(&keyspace, &other), vec![other_span]);

    let reader = IndexReader::new(&keyspace);
    assert_eq!(
        reader
            .accounts(&account, Some(spans[2]))
            .into_iter()
            .map(|entry| entry.unwrap())
            .collect::<Vec<_>>(),
        vec![spans[1], spans[0]],
        "exclusive big-endian cutoff starts pagination below the requested span"
    );
}

#[test]
fn malformed_spans_are_reported() {
    assert_eq!(
        Span::from_value(&[1, 2, 3]),
        Err(LedgerError::Corruption(Corruption::SpanValue))
    );
    assert_eq!(Span::from_key(&[0; 9]), Err(LedgerError::Corruption(Corruption::SpanKey)));
    let span = Span::new(77, 5);
    assert_eq!(Span::from_value(&span.value_bytes()), Ok(span));
    assert_eq!(Span::from_key(&span.key_bytes()), Ok(span));
    let eight: [u8; 8] = fixed(&[1, 2, 3, 4, 5, 6, 7, 8], Corruption::SlotKey).unwrap();
    assert_eq!(eight, [1, 2, 3, 4, 5, 6, 7, 8]);
    let wrong: Result<[u8; 8], LedgerError> = fixed(&[1], Corruption::SlotKey);
    assert_eq!(wrong, Err(LedgerError::Corruption(Corruption::SlotKey)));
    assert_eq!(Corruption::SlotKey.message(), "invalid slot key");
    let mut signature: Signature = [3; 64];
    signature[15] = 9;
    let first: [u8; 16] = prefix(&signature);
    assert_eq!(first[14], 3);
    assert_eq!(first[15], 9);
}

#[test]
fn entries_are_read_back() {
    let block = Block { slot: 5, hash: [1; 32], time: -7, parent: [2; 32] };
    let seal = SuperblockSeal { id: 3, checksum: 4, transactions: 5 };
    for entry in [
        BlockstoreEntry::Block(block),
        BlockstoreEntry::Transaction(vec![9, 8, 7]),
        BlockstoreEntry::Superblock(seal),
        BlockstoreEntry::Reset(11),
        BlockstoreEntry::Checkpoint(u64::MAX),
    ] {
        let mut bytes = encode(&entry).unwrap();
        let size = bytes.len();
        bytes.extend_from_slice(&[255; 3]);
        let (read, end) = decode(&bytes, 0).unwrap();
        assert_eq!(end, size);
        assert_eq!(format!("{read:?}"), format!("{entry:?}"));
    }
    // A transaction entry is a tag, a length, and the bytes.
    assert_eq!(
        encode(&BlockstoreEntry::Transaction(vec![9, 8])).unwrap(),
        vec![1, 0, 0, 0, 2, 0, 0, 0, 0, 0, 0, 0, 9, 8]
    );
    assert!(matches!(decode(&[200, 0, 0, 0], 0), Err(LedgerError::Codec)));
    assert!(matches!(decode(&[1, 0, 0, 0, 9], 0), Err(LedgerError::Codec)));
}

#[test]
fn headers_are_read_back() {
    for result in [
        Ok(()),
        Err(TransactionError::AlreadyProcessed),
        Err(TransactionError::InstructionError(3, InstructionError::Custom(6))),
    ] {
        let header = ExecutionHeader { signature: [4; 64], result, slot: 12 };
        let mut bytes = encode_header(&header);
        let size = bytes.len();
        bytes.push(1);
        assert_eq!(decode_header(&bytes), Ok((header, size)));
        assert_eq!(decode_header(&bytes[..size - 1]), Err(LedgerError::Codec));
    }
}

/// An instruction that a program invoked: program, accounts, data, and stack height.
type Invoked = (u8, Vec<u8>, Vec<u8>, u8);

/// Details as they are encoded: fee, balances, logs, invoked instructions, compute units, and
/// what was returned.
type Details = (
    u64,
    (Vec<u64>, Vec<u64>),
    Vec<String>,
    Option<Vec<Vec<Invoked>>>,
    u64,
    Option<([u8; 32], Vec<u8>)>,
);

fn details(seed: u64) -> Details {
    (
        5_000 + seed,
        (vec![10_000 + seed, 20_000], vec![9_000 + seed, 21_000]),
        vec![
            String::from("Program log: Instruction: Transfer"),
            format!("Program consumed {} of 200000 compute units", 150 + seed),
        ],
        Some(vec![vec![(2, vec![0, 1], vec![3, 4, 5], 2)]]),
        150 + seed,
        Some(([7; 32], vec![8, 9])),
    )
}

/// A dictionary that was trained on details.
fn trained() -> Vec<u8> {
    let samples: Vec<Vec<u8>> =
        (0..2_000).map(|seed| bitcode::encode(&Some(details(seed * 37 % 4_001)))).collect();
    zstd::dict::from_samples(&samples, 4_096).unwrap()
}

#[test]
fn execution_details_dictionary_roundtrip() {
    let dictionary = trained();
    assert!(zstd::zstd_safe::get_dict_id_from_dict(&dictionary).is_some());
    let encoded = bitcode::encode(&Some(details(0)));
    let compressed = compress_details(&encoded, &dictionary).unwrap();
    assert_eq!(zstd::zstd_safe::get_dict_id_from_frame(&compressed), None);
    assert_eq!(compressed[4] % 4, 0, "the frame leaves no room for an id");

    let decoded = restore_details(&compressed, &dictionary).unwrap();
    assert_eq!(decoded, encoded);
    let decoded: Option<Details> = bitcode::decode(&decoded).unwrap();
    let (fee, balances, logs, cpi, _, returned) = decoded.expect("execution details decoded");
    assert_eq!(fee, 5_000);
    assert_eq!(balances.1, [9_000, 21_000]);
    assert_eq!(logs.len(), 2);
    assert_eq!(cpi.unwrap()[0][0].3, 2);
    assert_eq!(returned.unwrap().1.as_slice(), &[8, 9]);

    let plain = compress_details(&encoded, &[]).unwrap();
    assert!(compressed.len() < plain.len(), "what the dictionary holds need not be stored");
    assert_ne!(restore_details(&compressed, &[]), Ok(encoded), "the dictionary is needed");
}

#[test]
fn details_shrink_without_a_dictionary() {
    let dictionary: Vec<u8> = Vec::new();
    let details: Vec<u8> = (0..4096u32).map(|i| (i % 7) as u8).collect();
    let frame = compress_details(&details, &dictionary).unwrap();
    assert!(frame.len() < details.len(), "repetitive details shrink");
    assert_eq!(zstd::zstd_safe::get_dict_id_from_frame(&frame), None);
    assert_eq!(restore_details(&frame, &dictionary).unwrap(), details);
    assert_eq!(restore_details(&[1, 2, 3], &dictionary), Err(LedgerError::Compression));
}

#[test]
fn unknown_errors_are_refused() {
    let header = |error| ExecutionHeader { signature: [4; 64], result: Err(error), slot: 12 };
    // The signature, the outcome's tag, the error's number, and the position come first.
    let last = header(TransactionError::InstructionError(3, InstructionError::Numbered(53)));
    let mut bytes = encode_header(&last);
    assert_eq!(decode_header(&bytes), Ok((last, bytes.len())));
    assert_eq!(bytes[73..77], [53, 0, 0, 0]);
    bytes[73] = 54;
    assert_eq!(decode_header(&bytes), Err(LedgerError::Codec));

    let last = header(TransactionError::CommitCancelled);
    let mut bytes = encode_header(&last);
    assert_eq!(decode_header(&bytes), Ok((last, bytes.len())));
    assert_eq!(bytes[68..72], [38, 0, 0, 0]);
    bytes[68] = 39;
    assert_eq!(decode_header(&bytes), Err(LedgerError::Codec));
}

#[test]
fn files_go_on_behind_what_was_published() {
    let mut file = AppendFile::new(vec![1, 2, 3, 4], 2);
    assert_eq!((file.cursor, file.len), (2, 4));
    assert_eq!(file.read_at(0, 2).unwrap(), vec![1, 2]);
    assert!(matches!(file.read_at(1, 2), Err(LedgerError::IO)), "the rest was never published");

    file.append(&[9]).unwrap();
    assert!(matches!(file.read_at(2, 1), Err(LedgerError::IO)), "still in the buffer");
    file.flush();
    assert_eq!((file.cursor, file.len), (3, 4), "reserved space is used first");
    assert_eq!(file.read_at(0, 3).unwrap(), vec![1, 2, 9]);
    file.finalize();
    assert_eq!(file.len, 3);
}
