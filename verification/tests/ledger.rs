//! Appending, sealing, and reading back.

use engine::ledger::appender::LedgerAppender;
use engine::ledger::error::LedgerError;
use engine::ledger::outcome::TransactionResult;
use engine::ledger::reader::{used, Ledger};
use engine::ledger::request::{
    AccountSignature, AccountSignaturesParams, BlockDetails, BlockParams, BlockResponse,
};
use engine::ledger::schema::{
    BlockstoreEntry, Event, Execution, ExecutionHeader, TransactionEntry, MAX_ENTRY_SIZE,
};
use engine::ledger::service::{LedgerReader, ReadRequest, ReadResponse};
use engine::ledger::superblock::Superblock;
use engine::types::{Block, Pubkey, Signature, Slot, SuperblockSeal};
use solana_instruction::{AccountMeta, Instruction};
use solana_keypair::Keypair;
use solana_message::legacy::Message;
use solana_message::VersionedMessage;
use solana_signer::Signer;
use solana_transaction::versioned::VersionedTransaction;

fn ledger(size_limit: u64) -> LedgerAppender {
    LedgerAppender::new(Ledger::new(size_limit, Vec::new()), vec![0])
}

fn key(n: u64) -> Pubkey {
    let mut key = [9u8; 32];
    key[..8].copy_from_slice(&n.to_be_bytes());
    key
}

/// A signed transaction that names the accounts, its signature, and its static accounts.
fn transaction(seed: u8, accounts: &[Pubkey]) -> (Signature, Vec<u8>, Vec<Pubkey>) {
    let payer = Keypair::new_from_array([seed; 32]);
    let metas = accounts.iter().map(|key| AccountMeta::new((*key).into(), false)).collect();
    let ix = Instruction { program_id: key(1_000_000).into(), accounts: metas, data: vec![seed] };
    let message = Message::new_with_blockhash(&[ix], Some(&payer.pubkey()), &solana_hash::Hash::default());
    let accounts = message.account_keys.iter().map(|key| key.to_bytes()).collect();
    let message = VersionedMessage::Legacy(message);
    let signature: Signature =
        payer.sign_message(&wincode::serialize(&message).unwrap()).into();
    let signed = VersionedTransaction { signatures: vec![signature.into()], message };
    (signature, wincode::serialize(&signed).unwrap(), accounts)
}

fn details(slot: Slot) -> Vec<u8> {
    format!("log for {slot}").into_bytes()
}

fn execution(signature: Signature, slot: Slot, result: TransactionResult) -> Execution {
    Execution { header: ExecutionHeader { signature, result, slot }, details: details(slot) }
}

fn block(slot: Slot, time: i64) -> Block {
    Block { slot, hash: [slot as u8; 32], time, parent: [0; 32] }
}

fn append(appender: &mut LedgerAppender, events: Vec<Event>) {
    let events = events.into_iter().map(|event| (event, 1)).collect();
    appender.run(events).unwrap();
}

fn seal(id: u64) -> Event {
    Event::Superblock(SuperblockSeal { checksum: 0, id, transactions: 0 })
}

fn recorded(seed: u8, slot: Slot, accounts: &[Pubkey]) -> (Signature, Vec<Event>) {
    let (signature, payload, accounts) = transaction(seed, accounts);
    let events = vec![
        Event::Transaction(TransactionEntry { signature, payload }),
        Event::Execution { execution: execution(signature, slot, Ok(())), accounts },
    ];
    (signature, events)
}

fn block_touching(
    appender: &mut LedgerAppender,
    slot: Slot,
    seed: u8,
    accounts: &[Pubkey],
) -> Vec<Signature> {
    let mut events = Vec::new();
    let mut signatures = Vec::new();
    for (i, account) in accounts.iter().enumerate() {
        let (signature, more) = recorded(seed + i as u8, slot, &[*account]);
        events.extend(more);
        signatures.push(signature);
    }
    events.push(Event::Block(block(slot, slot as i64 * 100)));
    append(appender, events);
    signatures
}

fn block_of(appender: &mut LedgerAppender, slot: Slot, count: u64) -> Vec<Signature> {
    let accounts: Vec<Pubkey> = (0..count).map(|i| key(slot * 100 + i)).collect();
    block_touching(appender, slot, slot as u8 * 16, &accounts)
}

fn read_block(ledger: &Ledger, slot: Slot, details: BlockDetails) -> Option<BlockResponse> {
    ledger.block(BlockParams { slot, details }).unwrap()
}

fn block_signatures(ledger: &Ledger, slot: Slot) -> Vec<Signature> {
    match read_block(ledger, slot, BlockDetails::Signatures) {
        Some(BlockResponse::WithSignatures(b)) => b.signatures,
        _ => panic!("expected signatures response for slot {slot}"),
    }
}

fn history(
    ledger: &Ledger,
    pubkey: Pubkey,
    limit: usize,
    before: Option<Signature>,
    until: Option<Signature>,
) -> Vec<AccountSignature> {
    let params = AccountSignaturesParams { pubkey, limit, before, until };
    ledger.account_signatures(&params).unwrap()
}

#[test]
fn test_transaction_roundtrip() {
    let mut appender = ledger(u64::MAX);
    let (signature, payload, accounts) = transaction(1, &[key(7)]);
    append(
        &mut appender,
        vec![
            Event::Transaction(TransactionEntry { signature, payload: payload.clone() }),
            Event::Execution { execution: execution(signature, 5, Ok(())), accounts },
            Event::Block(block(5, 500)),
        ],
    );
    let ledger = &appender.ledger;

    let response = ledger.transaction(&signature).unwrap().expect("transaction present");
    assert_eq!(response.transaction, payload);
    assert_eq!(response.execution.header.slot, 5);
    assert_eq!(response.execution.details, b"log for 5");

    let status = ledger.transaction_status(&signature).unwrap().expect("status present");
    assert_eq!(status.slot, 5);
    assert!(status.result.is_ok());

    // An unknown signature resolves to nothing on both surfaces.
    let missing: Signature = [9; 64];
    assert!(ledger.transaction(&missing).unwrap().is_none());
    assert!(ledger.transaction_status(&missing).unwrap().is_none());
}

#[test]
fn test_large_transaction_roundtrip() {
    let mut appender = ledger(u64::MAX);
    let (signature, mut payload, _) = transaction(1, &[key(7)]);
    payload.resize((10 << 20) + 1, 0);
    append(
        &mut appender,
        vec![
            Event::Transaction(TransactionEntry { signature, payload: payload.clone() }),
            Event::Block(block(1, 0)),
        ],
    );
    match read_block(&appender.ledger, 1, BlockDetails::Transactions) {
        Some(BlockResponse::WithTransactions(block)) => {
            assert_eq!(block.transactions, vec![payload.clone()]);
        }
        _ => panic!("expected transactions response"),
    }
    let (entries, result) = appender.ledger.replay(0);
    assert!(result.is_ok());
    match entries.first() {
        Some(BlockstoreEntry::Transaction(transaction)) => assert_eq!(transaction, &payload),
        _ => panic!("expected replayed transaction entry"),
    }
}

#[test]
fn test_pending_requires_execution() {
    let mut appender = ledger(u64::MAX);
    let (indexed, indexed_bytes, accounts) = transaction(1, &[key(1)]);
    let (orphan, orphan_bytes, _) = transaction(2, &[key(2)]);
    let stray: Signature = [3; 64];
    append(
        &mut appender,
        vec![
            Event::Transaction(TransactionEntry { signature: indexed, payload: indexed_bytes }),
            Event::Execution { execution: execution(indexed, 1, Ok(())), accounts },
            Event::Transaction(TransactionEntry { signature: orphan, payload: orphan_bytes }),
            Event::Execution { execution: execution(stray, 1, Ok(())), accounts: vec![] },
            Event::Block(block(1, 0)),
        ],
    );
    let ledger = &appender.ledger;
    assert!(ledger.transaction(&indexed).unwrap().is_some());
    assert!(ledger.transaction(&orphan).unwrap().is_none());
    assert!(ledger.transaction(&stray).unwrap().is_none());
}

#[test]
fn test_block_detail_levels_partition_transactions() {
    let mut appender = ledger(u64::MAX);
    let first = block_of(&mut appender, 1, 2);
    let second = block_of(&mut appender, 2, 3);
    let ledger = &appender.ledger;

    assert_eq!(block_signatures(ledger, 1), first);
    assert_eq!(block_signatures(ledger, 2), second);

    match read_block(ledger, 2, BlockDetails::Transactions) {
        Some(BlockResponse::WithTransactions(b)) => assert_eq!(b.transactions.len(), 3),
        _ => panic!("expected transactions response"),
    }
    match read_block(ledger, 2, BlockDetails::Full) {
        Some(BlockResponse::Full(b)) => {
            assert_eq!(b.transactions.len(), 3);
            assert!(b.transactions.iter().all(|t| t.execution.details == details(2)));
        }
        _ => panic!("expected full response"),
    }
    match read_block(ledger, 1, BlockDetails::Boundary) {
        Some(BlockResponse::Bare(block)) => assert_eq!(block.time, 100),
        _ => panic!("expected bare response"),
    }
}

#[test]
fn test_superblock_rotation_and_retention() {
    // A limit of zero makes every block end trigger a retention pass.
    let mut appender = ledger(0);
    let old = block_of(&mut appender, 1, 1);
    append(&mut appender, vec![seal(1)]);
    assert_eq!(appender.ledger.head(), 2);
    assert!(appender.ledger.transaction(&old[0]).unwrap().is_some());

    let new = block_of(&mut appender, 2, 1);
    let ledger = &appender.ledger;
    assert_eq!(ledger.head(), 2, "active head is never purged");
    assert!(
        ledger.iter().iter().all(|superblock| *superblock != 1),
        "oldest sealed segment purged"
    );
    assert!(ledger.transaction(&old[0]).unwrap().is_none());
    assert!(ledger.transaction(&new[0]).unwrap().is_some());
    assert_eq!(ledger.meta.range.start, 2);
    assert_eq!(ledger.meta.superblocks(), 2..3);
}

#[test]
fn test_block_read_across_superblocks() {
    let mut appender = ledger(u64::MAX);
    let first = block_of(&mut appender, 1, 1);
    append(&mut appender, vec![seal(1)]);
    block_of(&mut appender, 2, 1);
    let ledger = &appender.ledger;

    assert_eq!(ledger.iter(), vec![2, 1], "newest first");
    assert_eq!(block_signatures(ledger, 1), first);
    assert!(read_block(ledger, 2, BlockDetails::Boundary).is_some());
    assert!(read_block(ledger, 9, BlockDetails::Boundary).is_none());
}

#[test]
fn test_replay_streams_superblocks_through_active_head() {
    let mut appender = ledger(u64::MAX);
    block_of(&mut appender, 1, 2);
    append(&mut appender, vec![seal(1)]);
    block_of(&mut appender, 2, 1);
    append(&mut appender, vec![seal(2)]);
    block_of(&mut appender, 3, 1);

    let shape = |after: u64| -> Vec<&'static str> {
        let (entries, result) = appender.ledger.replay(after);
        assert!(result.is_ok());
        entries
            .iter()
            .map(|e| match e {
                BlockstoreEntry::Transaction(_) => "tx",
                BlockstoreEntry::Block(_) => "block",
                BlockstoreEntry::Superblock(_) => "seal",
                BlockstoreEntry::Reset(_) => "reset",
                BlockstoreEntry::Checkpoint(_) => "checkpoint",
            })
            .collect()
    };
    assert_eq!(
        shape(0),
        ["tx", "tx", "block", "seal", "tx", "block", "seal", "tx", "block"]
    );
    assert_eq!(shape(2), ["tx", "block"]);
    assert_eq!(shape(u64::MAX), Vec::<&str>::new());
}

#[test]
fn test_reopen_resumes_state() {
    let mut appender = ledger(u64::MAX);
    let first = block_of(&mut appender, 1, 2)[0];

    // Open the same files again.
    let Ledger { meta, superblocks, size_limit, dictionary } = appender.ledger;
    let ledger = Ledger::open(meta, superblocks, size_limit, dictionary).unwrap();
    assert!(ledger.transaction(&first).unwrap().is_some(), "prior block survives reopen");

    let mut appender = LedgerAppender::new(ledger, vec![0]);
    let second = block_of(&mut appender, 2, 1)[0];
    let ledger = &appender.ledger;
    assert!(ledger.transaction(&first).unwrap().is_some(), "old block not clobbered");
    assert!(ledger.transaction(&second).unwrap().is_some());
    assert_eq!(ledger.meta.blocks, 2);
}

#[test]
fn test_block_range_spans_superblocks() {
    let mut appender = ledger(u64::MAX);
    block_of(&mut appender, 1, 1);
    append(&mut appender, vec![seal(1)]);
    block_of(&mut appender, 2, 1);
    block_of(&mut appender, 3, 1);
    let slots = |from: Slot, to: Slot| {
        appender.ledger.blocks(from, to).unwrap().iter().map(|b| b.slot).collect::<Vec<_>>()
    };
    assert_eq!(slots(1, 4), vec![1, 2, 3]);
    assert_eq!(slots(2, 3), vec![2]);
    assert_eq!(slots(1, 9), vec![1, 2, 3]);
}

#[test]
fn test_account_signatures_history_pagination_and_ordering() {
    let mut appender = ledger(u64::MAX);
    let account = key(42);
    let sb1 = block_touching(&mut appender, 1, 10, &[account, account, key(43)]);
    append(&mut appender, vec![seal(1)]);
    let sb2 = block_touching(&mut appender, 2, 20, &[account, account]);
    let ledger = &appender.ledger;
    let signatures = |list: &[AccountSignature]| -> Vec<Signature> {
        list.iter().map(|s| s.signature).collect()
    };

    let expected = vec![sb2[1], sb2[0], sb1[1], sb1[0]];
    let full = history(ledger, account, 10, None, None);
    assert_eq!(signatures(&full), expected);
    assert!(full.iter().all(|s| s.blocktime == s.slot as i64 * 100));

    assert_eq!(
        signatures(&history(ledger, account, 2, None, None)),
        expected[..2],
        "`limit` caps results"
    );
    assert!(
        history(ledger, key(44), 10, None, None).is_empty(),
        "unmentioned account has no history"
    );
    assert_eq!(
        full.iter().map(|s| s.slot).collect::<Vec<_>>(),
        vec![2, 2, 1, 1],
        "newest account history first"
    );

    let paged = |before, until| signatures(&history(ledger, account, 10, before, until));
    assert_eq!(paged(Some(sb2[1]), None), expected[1..]);
    assert!(paged(Some(sb1[0]), None).is_empty());
    assert!(paged(None, Some(expected[0])).is_empty());
    assert_eq!(paged(None, Some(expected[3])), expected[..3]);
    assert!(history(ledger, account, 0, None, None).is_empty());
}

#[test]
fn unpublished_records_are_not_read() {
    let mut appender = ledger(u64::MAX);
    let (signature, events) = recorded(1, 1, &[key(1)]);
    append(&mut appender, events);
    assert!(appender.ledger.transaction(&signature).unwrap().is_none());
    append(&mut appender, vec![Event::Block(block(1, 100))]);
    assert!(appender.ledger.transaction(&signature).unwrap().is_some());
    assert_eq!(appender.ledger.transactions(), 1);
}

#[test]
fn interleaved_records_stay_readable() {
    let mut appender = ledger(u64::MAX);
    let (first, payload, accounts) = transaction(1, &[key(7)]);
    let (second, other, touched) = transaction(2, &[key(8)]);
    append(
        &mut appender,
        vec![
            Event::Transaction(TransactionEntry { signature: first, payload: payload.clone() }),
            Event::Transaction(TransactionEntry { signature: second, payload: other.clone() }),
            Event::Block(block(4, 400)),
            Event::Execution { execution: execution(second, 5, Ok(())), accounts: touched },
            Event::Execution { execution: execution(first, 5, Ok(())), accounts },
            Event::Checkpoint(3),
            Event::Block(block(5, 500)),
            seal(1),
        ],
    );
    block_of(&mut appender, 6, 2);

    for (signature, sent) in [(first, payload), (second, other)] {
        let response = appender.ledger.transaction(&signature).unwrap().unwrap();
        assert_eq!(response.transaction, sent);
        assert_eq!(response.execution.header.signature, signature);
        assert_eq!(response.execution.details, b"log for 5");
        assert_eq!(appender.ledger.transaction_status(&signature).unwrap().unwrap().slot, 5);
    }
}

#[test]
fn seals_rotate_and_count() {
    let mut appender = ledger(u64::MAX);
    block_of(&mut appender, 1, 1);
    let seal = SuperblockSeal { id: 1, checksum: 77, transactions: 5 };
    append(&mut appender, vec![Event::Superblock(seal)]);
    let active = appender.ledger.superblocks.last().unwrap();
    assert_eq!((active.id, active.checksum(), active.transactions()), (2, 77, 5));
    assert_eq!(appender.ledger.transactions(), 1, "a seal does not change the count");

    append(&mut appender, vec![Event::Bootstrap(SuperblockSeal { id: 9, checksum: 1, transactions: 50 })]);
    assert_eq!(appender.ledger.head(), 10);
    assert_eq!(appender.ledger.transactions(), 50, "a bootstrap adopts the count");
}

#[test]
fn resets_and_checkpoints_are_replayed() {
    let mut appender = ledger(u64::MAX);
    append(
        &mut appender,
        vec![Event::Reset(1), Event::Checkpoint(99), Event::Block(block(1, 100))],
    );
    let (entries, result) = appender.ledger.replay(0);
    assert!(result.is_ok());
    assert!(matches!(entries[0], BlockstoreEntry::Reset(1)));
    assert!(matches!(entries[1], BlockstoreEntry::Checkpoint(99)));
    assert_eq!(appender.ledger.tip(), Some(1));
}

#[test]
fn oversized_transactions_are_refused() {
    let mut appender = ledger(u64::MAX);
    let payload = vec![0u8; MAX_ENTRY_SIZE];
    let result = appender.write_transaction(TransactionEntry { signature: [1; 64], payload });
    assert_eq!(result, Err(LedgerError::Codec));
}

#[test]
fn malformed_transactions_are_refused() {
    let mut appender = ledger(u64::MAX);
    append(
        &mut appender,
        vec![
            Event::Transaction(TransactionEntry { signature: [1; 64], payload: vec![1, 2, 3] }),
            Event::Block(block(1, 100)),
        ],
    );
    let params = BlockParams { slot: 1, details: BlockDetails::Signatures };
    assert!(matches!(appender.ledger.block(params), Err(LedgerError::TransactionView)));
}

#[test]
fn foreign_superblocks_are_refused() {
    let ledger = Ledger::new(u64::MAX, Vec::new());
    let Ledger { meta, mut superblocks, size_limit, dictionary } = ledger;
    superblocks[0].meta.version = 9;
    let result = Ledger::open(meta, superblocks, size_limit, dictionary);
    assert!(matches!(result, Err(LedgerError::UnsupportedVersion(9))));
    assert_eq!(Superblock::name(7), "superblock-000000007");
}

#[test]
fn space_is_used_up_to_the_limit() {
    assert_eq!(used(100, 40, 8), 480);
    assert_eq!(used(10, 40, 8), 0);
    let ledger = Ledger::new(480, Vec::new());
    assert!(ledger.size_exceeded(100, 40, 8));
    assert!(!ledger.size_exceeded(100, 41, 8));
}

#[test]
fn requests_are_served_until_shutdown() {
    let mut appender = ledger(u64::MAX);
    let signatures = block_of(&mut appender, 1, 1);
    let responses = LedgerReader::run(
        &appender.ledger,
        &vec![
            ReadRequest::TransactionStatus(signatures[0]),
            ReadRequest::BlockRange(0, 9),
            ReadRequest::Shutdown,
            ReadRequest::Replay(0),
        ],
    );
    assert_eq!(responses.len(), 2);
    match &responses[0] {
        ReadResponse::TransactionStatus(Ok(Some(status))) => assert_eq!(status.slot, 1),
        other => panic!("unexpected response {other:?}"),
    }
    match &responses[1] {
        ReadResponse::BlockRange(Ok(blocks)) => assert_eq!(blocks.len(), 1),
        other => panic!("unexpected response {other:?}"),
    }
}

#[test]
fn blocks_are_read_right_after_a_seal() {
    let mut appender = ledger(u64::MAX);
    block_of(&mut appender, 1, 1);
    append(&mut appender, vec![seal(1)]);
    let slots = |appender: &LedgerAppender, from: Slot, to: Slot| {
        appender.ledger.blocks(from, to).unwrap().iter().map(|b| b.slot).collect::<Vec<_>>()
    };
    assert_eq!(slots(&appender, 1, 2), vec![1]);
    append(&mut appender, vec![seal(2)]);
    assert_eq!(slots(&appender, 1, 2), vec![1]);
    block_of(&mut appender, 2, 1);
    append(&mut appender, vec![seal(3)]);
    assert_eq!(slots(&appender, 1, 3), vec![1, 2]);
}

#[test]
fn entries_of_a_slot_carry_one_time() {
    let mut appender = ledger(u64::MAX);
    let account = key(42);
    let (older, mut events) = recorded(10, 7, &[account]);
    events.push(Event::Block(block(7, 100)));
    append(&mut appender, events);
    append(&mut appender, vec![seal(1)]);
    let (newer, mut events) = recorded(20, 7, &[account]);
    events.push(Event::Block(block(7, 200)));
    append(&mut appender, events);
    let list = history(&appender.ledger, account, 10, None, None);
    let told: Vec<(Signature, i64)> = list.iter().map(|s| (s.signature, s.blocktime)).collect();
    assert_eq!(told, vec![(newer, 200), (older, 200)]);
    let list = history(&appender.ledger, account, 10, Some(newer), None);
    let told: Vec<(Signature, i64)> = list.iter().map(|s| (s.signature, s.blocktime)).collect();
    assert_eq!(told, vec![(older, 100)]);
}

#[test]
fn detail_levels_say_the_same() {
    let mut appender = ledger(u64::MAX);
    let (first, mut events) = recorded(1, 1, &[key(1)]);
    let (pending, payload, _) = transaction(2, &[key(2)]);
    events.push(Event::Transaction(TransactionEntry { signature: pending, payload }));
    let (last, more) = recorded(3, 1, &[key(3)]);
    events.extend(more);
    events.push(Event::Block(block(1, 100)));
    append(&mut appender, events);
    let ledger = &appender.ledger;
    let signatures = block_signatures(ledger, 1);
    assert_eq!(signatures, vec![first, pending, last]);
    let transactions = match read_block(ledger, 1, BlockDetails::Transactions) {
        Some(BlockResponse::WithTransactions(b)) => b.transactions,
        _ => panic!("expected transactions response"),
    };
    let expected: Vec<Vec<u8>> =
        [(1, 1), (2, 2), (3, 3)].iter().map(|&(seed, n)| transaction(seed, &[key(n)]).1).collect();
    assert_eq!(transactions, expected);
    let full = match read_block(ledger, 1, BlockDetails::Full) {
        Some(BlockResponse::Full(b)) => b,
        _ => panic!("expected full response"),
    };
    let told: Vec<(&Vec<u8>, Signature)> =
        full.transactions.iter().map(|t| (&t.transaction, t.execution.header.signature)).collect();
    assert_eq!(told, vec![(&transactions[0], first), (&transactions[2], last)]);
    match read_block(ledger, 1, BlockDetails::Boundary) {
        Some(BlockResponse::Bare(b)) => assert_eq!(b, full.block),
        _ => panic!("expected bare response"),
    }
}

#[test]
fn slot_zero_is_a_slot_like_others() {
    let mut appender = ledger(u64::MAX);
    let (signature, mut events) = recorded(1, 0, &[key(7)]);
    events.push(Event::Block(block(0, 50)));
    append(&mut appender, events);
    let slots = |ledger: &Ledger, from: Slot, to: Slot| {
        ledger.blocks(from, to).unwrap().iter().map(|b| b.slot).collect::<Vec<_>>()
    };
    assert_eq!(slots(&appender.ledger, 0, 1), vec![0]);
    assert_eq!(block_signatures(&appender.ledger, 0), vec![signature]);
    match read_block(&appender.ledger, 0, BlockDetails::Transactions) {
        Some(BlockResponse::WithTransactions(block)) => assert_eq!(block.transactions.len(), 1),
        _ => panic!("expected transactions response"),
    }
    match read_block(&appender.ledger, 0, BlockDetails::Boundary) {
        Some(BlockResponse::Bare(read)) => assert_eq!(read, block(0, 50)),
        _ => panic!("expected boundary response"),
    }
    let params = BlockParams { slot: 0, details: BlockDetails::Signatures };
    let responses = LedgerReader::run(&appender.ledger, &vec![ReadRequest::Block(params)]);
    assert_eq!(responses.len(), 1);
    assert!(matches!(&responses[0], ReadResponse::Block(Ok(Some(_)))));

    // A superblock without a block has none at slot zero either.
    let fresh = ledger(u64::MAX);
    assert!(slots(&fresh.ledger, 0, 1).is_empty());
    assert!(read_block(&fresh.ledger, 0, BlockDetails::Boundary).is_none());
}

#[test]
fn failures_take_nothing_back() {
    let mut appender = ledger(u64::MAX);
    let signatures = block_of(&mut appender, 1, 2);
    let position = |appender: &LedgerAppender| {
        let ledger = &appender.ledger;
        let head = &ledger.superblocks[ledger.superblocks.len() - 1].meta;
        let cursors = (head.cursors.blockstore, head.cursors.executions);
        let range = (head.range.start, head.range.end);
        (ledger.head(), ledger.transactions(), ledger.tip(), ledger.meta.blocks, cursors, range)
    };
    let before = position(&appender);
    let (signature, payload, accounts) = transaction(90, &[key(7)]);
    let large = TransactionEntry { signature: [1; 64], payload: vec![0; MAX_ENTRY_SIZE] };
    let result = appender.run(vec![
        (Event::Transaction(TransactionEntry { signature, payload }), 1),
        (Event::Transaction(large), 1),
        (Event::Block(block(2, 200)), 1),
    ]);
    assert_eq!(result, Err(LedgerError::Codec));
    assert_eq!(position(&appender), before, "nothing was published");
    assert_eq!(block_signatures(&appender.ledger, 1), signatures);
    assert!(read_block(&appender.ledger, 2, BlockDetails::Boundary).is_none());

    // The transaction before the failed event still waits for its execution.
    append(
        &mut appender,
        vec![
            Event::Execution { execution: execution(signature, 2, Ok(())), accounts },
            Event::Block(block(2, 200)),
        ],
    );
    assert_eq!(block_signatures(&appender.ledger, 2), vec![signature]);
    assert_eq!(appender.ledger.transactions(), before.1 + 1);
    assert!(appender.ledger.transaction(&signature).unwrap().is_some());
}
