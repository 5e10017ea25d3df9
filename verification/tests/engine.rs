//! Pacing, replay, admission, and leases of an engine.

use std::collections::VecDeque;

use engine::accountsdb::db::AccountsDB;
use engine::accountsdb::storage::Limits;
use engine::exec::accessor::{
    workers, Absence, AccountAccessor, Materialization, Mutation, TransactionAccessor, Work,
};
use engine::exec::compose::{
    can_compile, compose_instructions, compose_message, compose_transaction, sign_instructions,
};
use engine::exec::engine::Engine;
use engine::exec::error::{EngineError, ReplayError};
use engine::exec::pacemaker::{BlockInput, BoundaryAction, PaceMaker, Pacing};
use engine::exec::replay::{replay, replay_complete, ReplayAction, Replayer};
use engine::exec::transaction::{
    batch_data, check_limits, magicblock, seal, sigverify, validate_authority, AccountMeta, CompiledMessage,
    MagicblockFormat, PlainInstruction, TransactionVerifier,
};
use engine::keeper::accessor::{Closed, Keeper};
use engine::keeper::builder::{Addresses, KeeperBuilder};
use engine::keeper::cache::{AccountCache, AccountLease};
use engine::keeper::commit::{ExecutedTransaction, ExecutionRecord};
use engine::keeper::features::features;
use engine::keeper::sysvar::Rent;
use engine::ledger::appender::LedgerAppender;
use engine::ledger::error::LedgerError;
use engine::ledger::outcome::TransactionError;
use engine::ledger::reader::Ledger;
use engine::ledger::schema::{BlockstoreEntry, CompiledInstruction, Event};
use engine::types::{
    Account, AccountMode, AccountSharedData, Block, BlockHash, CoWAccount, DirtyMarkers, Pubkey,
    Signature, Slot, SuperblockSeal,
};
use engine::view::{TransactionVersion, TransactionView};
use solana_instruction::Instruction;
use solana_keypair::Keypair;
use solana_message::legacy::Message;
use solana_message::VersionedMessage;
use solana_signer::Signer;
use solana_transaction::versioned::VersionedTransaction;

const AUTHORITY: Pubkey = [200; 32];

/// Account that the transactions of a replay write to.
const TARGET: Pubkey = [88; 32];

/// First byte of a transaction with execution settings.
const V1: u8 = 0x81;

fn limits() -> Limits {
    Limits { block: 16 << 20, map: 1 << 40 }
}

fn units(len: usize) -> u32 {
    21 + (len as u32).div_ceil(8)
}

fn block(slot: Slot) -> Block {
    let hash = |n: u64| -> BlockHash {
        let mut hash = [7u8; 32];
        hash[..8].copy_from_slice(&n.to_le_bytes());
        hash
    };
    Block { slot, hash: hash(slot), time: slot as i64, parent: hash(slot.saturating_sub(1)) }
}

fn addresses() -> Addresses {
    Addresses {
        sysvar: solana_sdk_ids::sysvar::ID.to_bytes(),
        native_loader: solana_sdk_ids::native_loader::ID.to_bytes(),
        loader: solana_sdk_ids::loader_v4::ID.to_bytes(),
        feature_gate: solana_sdk_ids::feature::ID.to_bytes(),
        system: solana_sdk_ids::system_program::ID.to_bytes(),
        slot_hashes: solana_sdk_ids::sysvar::slot_hashes::ID.to_bytes(),
        clock: solana_sdk_ids::sysvar::clock::ID.to_bytes(),
        rent: solana_sdk_ids::sysvar::rent::ID.to_bytes(),
        fees: solana_sdk_ids::sysvar::fees::ID.to_bytes(),
        last_restart_slot: solana_sdk_ids::sysvar::last_restart_slot::ID.to_bytes(),
        instructions: solana_sdk_ids::sysvar::instructions::ID.to_bytes(),
        epoch_schedule: solana_sdk_ids::sysvar::epoch_schedule::ID.to_bytes(),
        epoch_rewards: solana_sdk_ids::sysvar::epoch_rewards::ID.to_bytes(),
    }
}

#[allow(deprecated)]
fn rent() -> Rent {
    let rent = solana_rent::Rent::default();
    Rent {
        lamports_per_byte: rent.lamports_per_byte,
        exemption_threshold: rent.exemption_threshold,
        burn_percent: rent.burn_percent,
    }
}

fn builder() -> KeeperBuilder {
    KeeperBuilder {
        authority: AUTHORITY,
        follower: false,
        blocktime: 100_000_000,
        superblock: 4,
        lru_capacity: 256,
        rent: rent(),
        addresses: addresses(),
        builtins: vec![[103; 32]],
        programs: Vec::new(),
        accounts: Vec::new(),
    }
}

/// Opens a keeper over stores, as startup does.
fn open(builder: &mut KeeperBuilder, mut accountsdb: AccountsDB, ledger: &Ledger) -> Keeper {
    let survey = builder.survey(&mut accountsdb, ledger).unwrap();
    let (seed, accounts) = builder.prepopulate(survey);
    let entries = accounts
        .into_iter()
        .map(|seed| {
            let units = units(seed.data.len());
            seed.entry(units)
        })
        .collect();
    accountsdb.store(entries).unwrap();
    let caches = builder.caches(seed);
    Keeper::new(
        builder.authority,
        builder.addresses,
        features(),
        builder.rent,
        accountsdb,
        caches,
    )
}

fn fresh() -> (AccountsDB, LedgerAppender) {
    let ledger = Ledger::new(u64::MAX, Vec::new());
    (AccountsDB::new(limits(), Vec::new()), LedgerAppender::new(ledger, vec![0]))
}

fn append(appender: &mut LedgerAppender, event: Event) {
    appender.run(vec![(event, 1)]).unwrap();
}

fn signed(seed: u8, blockhash: BlockHash) -> (Signature, Vec<u8>) {
    let payer = Keypair::new_from_array([seed; 32]);
    let ix = Instruction { program_id: [9; 32].into(), accounts: vec![], data: vec![] };
    let message = Message::new_with_blockhash(&[ix], Some(&payer.pubkey()), &blockhash.into());
    let message = VersionedMessage::Legacy(message);
    let signature: Signature = payer.sign_message(&wincode::serialize(&message).unwrap()).into();
    let transaction = VersionedTransaction { signatures: vec![signature.into()], message };
    (signature, wincode::serialize(&transaction).unwrap())
}

fn nobody() -> Closed {
    Closed { receivers: vec![], transactions: false, services: false }
}

fn executed(status: Result<(), TransactionError>) -> ExecutedTransaction {
    ExecutedTransaction {
        status,
        accounts: Vec::new(),
        fee: 5,
        logs: None,
        executed_units: 150,
        return_data: None,
        inner_instructions: None,
    }
}

fn entry(pubkey: Pubkey, value: u64, mode: AccountMode) -> (Pubkey, AccountSharedData) {
    let account = Account {
        lamports: 1,
        owner: [0; 32],
        mode,
        slot: 0,
        executable: false,
        units: units(8),
        data: value.to_le_bytes().to_vec(),
    };
    let markers = DirtyMarkers { owner: true, content: true };
    (pubkey, AccountSharedData { account, cow: CoWAccount::Owned, markers })
}

fn value(keeper: &mut Keeper, pubkey: &Pubkey) -> Option<u64> {
    let account = keeper.accountsdb.loader().load(pubkey)?;
    Some(u64::from_le_bytes(account.data.try_into().unwrap()))
}

fn record(value: u64, slot: Slot) -> ExecutionRecord {
    let mut done = executed(Ok(()));
    done.accounts.push(entry(TARGET, value, AccountMode::Delegated));
    ExecutionRecord { slot, result: Ok(done), balances: None }
}

/// Admits and executes a transaction that sets the target, and ends its block.
fn execute(keeper: &mut Keeper, appender: &mut LedgerAppender, seed: u8, value: u64) -> Signature {
    let hash = keeper.blockhash();
    let slot = keeper.blocks().current_slot();
    let (signature, payload) = signed(seed, hash);
    let event = keeper.transactions().append(signature, &hash, payload).unwrap();
    append(appender, event);
    let (commit, published) =
        keeper.transactions().commit_execution(signature, &mut record(value, slot), &nobody());
    published.unwrap();
    assert_eq!(commit.header.signature, signature);
    let block = block(slot);
    keeper.blocks().append(block, false).1.unwrap();
    append(appender, Event::Block(block));
    signature
}

fn seal_head(keeper: &mut Keeper, appender: &mut LedgerAppender) -> SuperblockSeal {
    let (_, _, seal, _) = keeper.finalize_superblock(appender.ledger.head());
    append(appender, Event::Superblock(seal));
    seal
}

/// Replays the ledger behind the last sealed superblock, executing each transaction with the
/// next of the values.
fn rebuild(keeper: &mut Keeper, ledger: &Ledger, values: &[u64]) -> Result<(), EngineError> {
    let mut values = values.iter();
    let mut replayer = match Replayer::start(keeper, ledger) {
        Some(replayer) => replayer,
        None => return Ok(()),
    };
    while let Some(action) = replayer.step(keeper)? {
        match action {
            ReplayAction::Schedule(view) => {
                let slot = keeper.blocks().current_slot();
                let record = record(*values.next().unwrap(), slot);
                keeper.transactions().commit_replay(view.signatures[0], &record).unwrap();
            }
            ReplayAction::Block(block) => keeper.blocks().append(block, true).1.unwrap(),
            ReplayAction::Done => {}
        }
    }
    Ok(())
}

fn paced(pacing: Pacing, superblock: u64, checkpoint: u64) -> PaceMaker {
    PaceMaker::spawn(pacing, 0, superblock, checkpoint).0
}

#[test]
fn checkpoint_intervals_preserve_superblock_boundaries() {
    let cases: &[(u64, u64, &[u64])] = &[(3, 0, &[]), (3, 2, &[2, 4]), (0, 2, &[2, 4, 6])];
    for &(superblock, checkpoint, expected) in cases {
        let (accountsdb, mut appender) = fresh();
        let mut keeper = open(&mut builder(), accountsdb, &appender.ledger);
        let mut pacer = paced(Pacing::External, superblock, checkpoint);
        for slot in 1u64..=6 {
            let sealed = keeper.superblocks().sealed();
            let head = appender.ledger.head();
            let block = block(slot);
            let action = pacer.handle(BlockInput::Production(block));
            keeper.blocks().append(block, false).1.unwrap();
            append(&mut appender, Event::Block(block));
            match action {
                BoundaryAction::Publish(_) => {}
                BoundaryAction::Checkpoint(_) => {
                    let checksum = keeper.accountsdb.compute_checksum();
                    append(&mut appender, Event::Checkpoint(checksum));
                }
                BoundaryAction::Seal { .. } => {
                    seal_head(&mut keeper, &mut appender);
                }
            }
            if expected.contains(&slot) {
                assert_eq!(keeper.superblocks().sealed(), sealed);
                assert_eq!(appender.ledger.head(), head);
            }
        }
        append(&mut appender, Event::Block(block(7)));

        let (entries, result) = appender.ledger.replay(0);
        result.unwrap();
        let mut slot = 0;
        let mut checkpoints = Vec::new();
        let mut seals = Vec::new();
        for entry in entries {
            match entry {
                BlockstoreEntry::Block(block) => slot = block.slot,
                BlockstoreEntry::Checkpoint(_) => checkpoints.push(slot),
                BlockstoreEntry::Superblock(_) => seals.push(slot),
                _ => {}
            }
        }
        assert_eq!(checkpoints, expected);
        assert_eq!(seals, if superblock == 0 { &[][..] } else { &[3, 6][..] });
    }
}

#[test]
fn replay_rebuilds_state_after_counter_lag() {
    let (accountsdb, mut appender) = fresh();
    let mut keeper = open(&mut builder(), accountsdb, &appender.ledger);
    // A is sealed into superblock 1, B into superblock 2; C lives in the unsealed head.
    execute(&mut keeper, &mut appender, 1, 10);
    let first = seal_head(&mut keeper, &mut appender);
    execute(&mut keeper, &mut appender, 2, 20);
    seal_head(&mut keeper, &mut appender);
    let signature = execute(&mut keeper, &mut appender, 3, 21);

    // The snapshot of superblock 1.
    let (accountsdb, mut other) = fresh();
    let mut restored = open(&mut builder(), accountsdb, &other.ledger);
    execute(&mut restored, &mut other, 1, 10);
    assert_eq!(seal_head(&mut restored, &mut other), first);
    assert_eq!(value(&mut restored, &TARGET), Some(10));

    rebuild(&mut restored, &appender.ledger, &[20, 21]).unwrap();
    assert_eq!(
        value(&mut restored, &TARGET),
        Some(21),
        "both post-snapshot mutations were rebuilt purely from ledger replay"
    );
    assert_eq!(restored.superblocks().sealed().id, 2);
    let hash = restored.blockhash();
    assert!(matches!(
        restored.transactions().append(signature, &hash, vec![]),
        Err(TransactionError::AlreadyProcessed)
    ));
    execute(&mut restored, &mut appender, 9, 1);
    assert_eq!(value(&mut restored, &TARGET), Some(1), "engine is live after replay");
}

#[test]
fn replay_aborts_on_checksum_mismatch() {
    let (accountsdb, mut appender) = fresh();
    let mut keeper = open(&mut builder(), accountsdb, &appender.ledger);
    execute(&mut keeper, &mut appender, 1, 10);
    seal_head(&mut keeper, &mut appender);
    // Lands in the checksum of superblock 2 without a ledger entry.
    keeper.accountsdb.store(vec![entry([89; 32], 7, AccountMode::Delegated)]).unwrap();
    execute(&mut keeper, &mut appender, 2, 20);
    seal_head(&mut keeper, &mut appender);
    append(&mut appender, Event::Block(block(3)));

    let (accountsdb, mut other) = fresh();
    let mut restored = open(&mut builder(), accountsdb, &other.ledger);
    execute(&mut restored, &mut other, 1, 10);
    seal_head(&mut restored, &mut other);
    assert!(matches!(
        rebuild(&mut restored, &appender.ledger, &[20]),
        Err(EngineError::Replay(ReplayError::StateMismatch))
    ));
    assert_eq!(restored.superblocks().sealed().id, 1, "the last sound seal is kept");
}

#[test]
fn clean_restart_reopens_persisted_and_volatile_state() {
    let (accountsdb, mut appender) = fresh();
    let mut keeper = open(&mut builder(), accountsdb, &appender.ledger);
    execute(&mut keeper, &mut appender, 1, 10);
    seal_head(&mut keeper, &mut appender);
    let signature = execute(&mut keeper, &mut appender, 2, 21);
    let (direct, volatile) = ([90; 32], [91; 32]);
    keeper.accountsdb.store(vec![entry(direct, 7, AccountMode::Delegated)]).unwrap();
    keeper.accountsdb.store(vec![entry(volatile, 8, AccountMode::ReadOnly)]).unwrap();
    let mut engine = Engine::new(keeper);
    engine.shutdown();
    let (_, bytes) = signed(4, [6; 32]);
    let refused = [
        engine.transaction(&bytes).unwrap().execute(),
        engine.transaction(&bytes).unwrap().schedule(),
        engine.transaction(&bytes).unwrap().simulate(),
    ];
    for work in refused {
        assert!(matches!(work, Err(EngineError::ShuttingDown)));
    }

    let accountsdb = engine.keeper.accountsdb;
    accountsdb.validate().unwrap();
    let mut reopened = open(&mut builder(), accountsdb, &appender.ledger);
    assert_eq!(reopened.replay(appender.ledger.tip()), None);
    assert_eq!(value(&mut reopened, &TARGET), Some(21), "persisted tip state reopened as-is");
    assert_eq!(value(&mut reopened, &direct), Some(7));
    assert_eq!(value(&mut reopened, &volatile), Some(8));
    let hash = reopened.blockhash();
    assert!(matches!(
        reopened.transactions().append(signature, &hash, vec![]),
        Err(TransactionError::AlreadyProcessed)
    ));
    assert!(replay_complete(&reopened, reopened.accountsdb.transactions()).is_ok());
    assert!(matches!(
        replay_complete(&reopened, reopened.accountsdb.transactions() + 1),
        Err(EngineError::Replay(ReplayError::StateMismatch))
    ));
}

#[test]
fn replays_fail_where_the_ledger_does() {
    let (accountsdb, appender) = fresh();
    let mut keeper = open(&mut builder(), accountsdb, &appender.ledger);
    assert!(Replayer::start(&keeper, &appender.ledger).is_none(), "nothing is ahead");
    let mut unread = Replayer {
        entries: VecDeque::from(vec![BlockstoreEntry::Block(block(1))]),
        read: Err(LedgerError::Codec),
        transactions: 0,
    };
    assert!(matches!(
        unread.step(&mut keeper),
        Ok(Some(ReplayAction::Block(ended))) if ended == block(1)
    ));
    assert!(matches!(
        unread.step(&mut keeper),
        Err(EngineError::Replay(ReplayError::Ledger(LedgerError::Codec)))
    ));
    let mut short = Replayer { entries: VecDeque::new(), read: Ok(()), transactions: 1 };
    assert!(matches!(
        short.step(&mut keeper),
        Err(EngineError::Replay(ReplayError::StateMismatch))
    ));
    let mut done = Replayer { entries: VecDeque::new(), read: Ok(()), transactions: 0 };
    assert!(matches!(done.step(&mut keeper), Ok(None)));
}

#[test]
fn replayed_checkpoints_are_compared() {
    let (accountsdb, appender) = fresh();
    let mut keeper = open(&mut builder(), accountsdb, &appender.ledger);
    let checksum = keeper.accountsdb.compute_checksum();
    assert!(matches!(
        replay(&mut keeper, BlockstoreEntry::Checkpoint(checksum)),
        Ok(ReplayAction::Done)
    ));
    assert!(matches!(
        replay(&mut keeper, BlockstoreEntry::Checkpoint(checksum ^ 1)),
        Err(EngineError::Replay(ReplayError::StateMismatch))
    ));
    assert!(matches!(
        replay(&mut keeper, BlockstoreEntry::Transaction(vec![1, 2])),
        Err(EngineError::Sanitization)
    ));
    keeper.accountsdb.store(vec![entry([91; 32], 8, AccountMode::ReadOnly)]).unwrap();
    assert!(matches!(replay(&mut keeper, BlockstoreEntry::Reset(1)), Ok(ReplayAction::Done)));
    assert_eq!(value(&mut keeper, &[91; 32]), None);
}

#[test]
fn the_clock_paces_blocks() {
    let (mut pacer, first) = PaceMaker::spawn(Pacing::Internal, 5, 3, 0);
    assert_eq!(first, Some(5));
    let slot = pacer.slot;
    assert_eq!(pacer.tick(), slot);
    assert_eq!(pacer.slot, slot + 1);
    let recorded = BlockInput::Replay(block(3));
    assert_eq!(pacer.handle(recorded), BoundaryAction::Publish(recorded));
    assert_eq!(
        pacer.handle(BlockInput::Production(block(3))),
        BoundaryAction::Seal { block: block(3), wait: false }
    );
    assert_eq!(
        pacer.handle(BlockInput::Production(block(6))),
        BoundaryAction::Seal { block: block(6), wait: true },
        "a seal waits for the one before"
    );
    let last = block(pacer.slot);
    let stop = pacer.stop(last);
    assert_eq!((stop.last, stop.dump), (Some(last), false));

    let (mut pacer, first) = PaceMaker::spawn(Pacing::External, 5, 3, 0);
    assert_eq!(first, None);
    let stop = pacer.stop(block(pacer.slot));
    assert_eq!((stop.last, stop.dump), (None, true));
}

#[test]
fn transactions_are_admitted_by_their_signatures() {
    let (accountsdb, appender) = fresh();
    let engine = Engine::new(open(&mut builder(), accountsdb, &appender.ledger));
    let (signature, mut bytes) = signed(4, [6; 32]);
    let verified = match engine.transaction(&bytes).unwrap().execute() {
        Ok(Work::Execute(verified)) => verified,
        other => panic!("unexpected work {other:?}"),
    };
    assert_eq!(verified.0.version, TransactionVersion::Legacy);
    assert_eq!(verified.0.signatures, vec![signature]);
    assert_eq!(verified.0.blockhash, [6; 32]);
    assert!(sigverify(&verified.0).is_ok());
    let again = TransactionAccessor::verified(engine.intake, verified);
    assert!(matches!(again.schedule(), Ok(Work::Schedule(_))));
    assert!(matches!(
        engine.transaction(&bytes).unwrap().simulate(),
        Ok(Work::Simulate(view)) if view.0.signatures == vec![signature]
    ));

    let last = bytes.len() - 1;
    assert!(matches!(engine.transaction(&bytes[..last]), Err(EngineError::Sanitization)));
    bytes[10] ^= 1;
    assert!(matches!(engine.transaction(&bytes), Err(EngineError::SignatureVerification)));
}

#[test]
fn batches_are_admitted_or_refused_whole() {
    let (accountsdb, appender) = fresh();
    let engine = Engine::new(open(&mut builder(), accountsdb, &appender.ledger));
    let batch = engine.batch_verifier();
    assert!(batch.verify(vec![]).unwrap().is_empty());
    let list: Vec<Vec<u8>> = (1..=4).map(|seed| signed(seed, [6; 32]).1).collect();
    let verified = batch.verify(list.clone()).unwrap();
    assert_eq!(verified.len(), 4);
    assert_eq!(verified[2].0.signatures[0], signed(3, [6; 32]).0);
    assert_eq!(batch.verify(list[..1].to_vec()).unwrap().len(), 1);

    let mut wrong = list.clone();
    wrong[1][10] ^= 1;
    assert!(matches!(batch.verify(wrong), Err(EngineError::SignatureVerification)));
    let mut wrong = list.clone();
    wrong[3].pop();
    assert!(matches!(batch.verify(wrong), Err(EngineError::Sanitization)));
    let prepared = batch.prepare(&list).unwrap();
    assert!(matches!(
        TransactionVerifier::conclude(prepared, false),
        Err(EngineError::SignatureVerification)
    ));
}

#[test]
fn private_transactions_need_the_authority() {
    let view = |payer: Pubkey, version| TransactionView {
        version,
        signatures: vec![[0; 64]],
        accounts: vec![payer],
        blockhash: [0; 32],
        message: Vec::new(),
    };
    assert!(validate_authority(&view(AUTHORITY, TransactionVersion::Magicblock), &AUTHORITY).is_ok());
    assert!(validate_authority(&view([1; 32], TransactionVersion::V1), &AUTHORITY).is_ok());
    assert!(matches!(
        validate_authority(&view([1; 32], TransactionVersion::Magicblock), &AUTHORITY),
        Err(EngineError::SignatureVerification)
    ));
}

#[test]
fn private_transactions_are_compiled_and_signed() {
    let secret = [12; 32];
    let authority = Keypair::new_from_array(secret).pubkey().to_bytes();
    let mut settings = builder();
    settings.authority = authority;
    let (accountsdb, appender) = fresh();
    let engine = Engine::new(open(&mut settings, accountsdb, &appender.ledger));
    let format = MagicblockFormat { max_instructions: 8, max_accounts: 64, prefix: V1 };
    let ix = |n: u8| PlainInstruction {
        program: [20; 32],
        accounts: vec![
            AccountMeta { pubkey: [n; 32], is_signer: false, is_writable: true },
            AccountMeta { pubkey: [30; 32], is_signer: false, is_writable: false },
        ],
        data: vec![n, 1, 2],
    };
    let bytes = engine.private(&vec![ix(21), ix(22)], &secret, format).unwrap();
    assert_eq!(bytes[0], V1);
    let verified = engine.transaction(&bytes).expect("the signature fits").transaction;
    assert_eq!(verified.0.version, TransactionVersion::V1);
    assert_eq!(verified.0.accounts[0], authority);
    assert_eq!(verified.0.accounts.len(), 5);
    assert_eq!(verified.0.blockhash, engine.keeper.blockhash());

    let narrow = MagicblockFormat { max_instructions: 1, ..format };
    assert!(matches!(
        engine.private(&vec![ix(21), ix(22)], &secret, narrow),
        Err(EngineError::TransactionExecution(TransactionError::SanitizeFailure))
    ));
    let narrow = MagicblockFormat { max_accounts: 4, ..format };
    assert!(matches!(
        engine.private(&vec![ix(21), ix(22)], &secret, narrow),
        Err(EngineError::TransactionExecution(TransactionError::TooManyAccountLocks))
    ));
    let crowd: Vec<PlainInstruction> = (0..=255).map(|n| PlainInstruction {
        program: [n; 32],
        accounts: vec![AccountMeta { pubkey: [n ^ 1; 32], is_signer: true, is_writable: true }],
        data: Vec::new(),
    }).collect();
    let wide = MagicblockFormat { max_instructions: 1000, max_accounts: 1000, prefix: V1 };
    assert!(magicblock(&crowd, &authority, &secret, &[0; 32], wide).is_err());
}

#[test]
fn limits_hold_for_every_instruction() {
    let message = CompiledMessage {
        required_signatures: 1,
        readonly_signed: 0,
        readonly_unsigned: 0,
        accounts: vec![[1; 32], [2; 32]],
        instructions: vec![CompiledInstruction {
            program_index: 1,
            accounts: vec![0, 0, 0],
            data: Vec::new(),
        }],
    };
    let format = MagicblockFormat { max_instructions: 1, max_accounts: 3, prefix: 0 };
    assert!(check_limits(&message, format).is_ok());
    assert!(matches!(
        check_limits(&message, MagicblockFormat { max_accounts: 2, ..format }),
        Err(EngineError::TransactionExecution(TransactionError::TooManyAccountLocks))
    ));
    let sealed = seal(vec![0; 70], 9, &[1; 32]);
    assert_eq!(sealed.len(), 70);
    assert_eq!(&sealed[..6], &[9, 0, 0, 0, 0, 0]);
    let expected: [u8; 64] = Keypair::new_from_array([1; 32]).sign_message(&sealed[..6]).into();
    assert_eq!(&sealed[6..], &expected[..]);
}

#[test]
fn images_are_applied_in_order() {
    let access = |observed| AccountAccessor { lease: AccountLease { pubkey: [1; 32], observed } };
    let mut accounts = AccountCache::new(256);
    let known = Some((AccountMode::ReadOnly, 5));
    let cases = [
        (None, AccountMode::ReadOnly, 0, Materialization::Submit(AccountMode::ReadOnly)),
        (known, AccountMode::Delegated, 5, Materialization::Submit(AccountMode::Delegated)),
        (known, AccountMode::ReadOnly, 6, Materialization::Submit(AccountMode::ReadOnly)),
    ];
    for (observed, mode, slot, decision) in cases {
        let answer = access(observed).materialize(&mut accounts, mode, slot);
        assert_eq!(answer, (decision, None));
        assert!(!accounts.promote(&[1; 32]), "nothing was written yet");
    }
    let skip = Materialization::Skip(AccountMode::ReadOnly);
    let older = access(known).materialize(&mut accounts, AccountMode::Delegated, 4);
    assert_eq!(older, (skip, None));
    assert!(accounts.promote(&[1; 32]), "the account as it is counts as recent");
    let again = access(known).materialize(&mut accounts, AccountMode::ReadOnly, 5);
    assert_eq!(again, (skip, None));
    assert!(access(known).into_eviction().is_ok());
    assert!(access(None).into_eviction().is_err());
    assert!(access(Some((AccountMode::Delegated, 5))).into_eviction().is_err());
}

#[test]
fn failed_mutations_leave_recency_alone() {
    let (accountsdb, appender) = fresh();
    let mut engine = Engine::new(open(&mut builder(), accountsdb, &appender.ledger));
    let access = engine.account([5; 32]).unwrap();
    assert_eq!(access.lease.observed, None);
    assert!(engine.account([5; 32]).is_none());
    let accounts = &mut engine.keeper.caches.accounts;
    let mutation = Mutation::Materialize(AccountMode::ReadOnly);
    let refused = access.complete(accounts, mutation, Err(TransactionError::AccountNotFound));
    assert!(matches!(
        refused,
        Err(EngineError::TransactionExecution(TransactionError::AccountNotFound))
    ));
    assert!(!accounts.promote(&[5; 32]));
    access.complete(accounts, mutation, Ok(())).unwrap();
    assert!(accounts.promote(&[5; 32]));
    let lease = AccountLease { pubkey: [5; 32], observed: Some((AccountMode::ReadOnly, 0)) };
    let stale = AccountAccessor { lease }.into_cached_eviction(accounts).unwrap_err();
    access.complete(accounts, access.delete(), Ok(())).unwrap();
    assert!(!accounts.promote(&[5; 32]));
    assert!(stale.into_cached_eviction(accounts).is_ok());
    accounts.release(access.lease);
    assert!(engine.account([5; 32]).is_some());
}

#[test]
fn missing_accounts_are_listed_in_order() {
    let (accountsdb, appender) = fresh();
    let mut engine = Engine::new(open(&mut builder(), accountsdb, &appender.ledger));
    engine.keeper.accountsdb.store(vec![entry([3; 32], 1, AccountMode::Delegated)]).unwrap();
    let wanted = vec![[9; 32], [3; 32], [2; 32], [9; 32]];
    assert_eq!(engine.missing_accounts(&wanted), vec![[2; 32], [9; 32]]);
    let observed = engine.account([3; 32]).unwrap().lease.observed;
    assert_eq!(observed, Some((AccountMode::Delegated, 0)));
}

#[test]
fn missing_accounts_are_looked_at_again() {
    let (accountsdb, appender) = fresh();
    let mut engine = Engine::new(open(&mut builder(), accountsdb, &appender.ledger));
    let (absent, present): (Pubkey, Pubkey) = ([2; 32], [3; 32]);
    assert_eq!(engine.missing_accounts(&vec![absent, present]), vec![absent, present]);
    engine.keeper.accountsdb.store(vec![entry(present, 1, AccountMode::Delegated)]).unwrap();
    let accessor = match engine.missing_account(absent) {
        Absence::Absent(accessor) => accessor,
        other => panic!("unexpected {other:?}"),
    };
    assert_eq!((accessor.lease.pubkey, accessor.is_present()), (absent, false));
    assert!(matches!(engine.missing_account(absent), Absence::Held));
    assert!(matches!(engine.missing_account(present), Absence::Present));
    let kept = engine.account(present).expect("access was given back");
    assert!(kept.is_present());
    assert!(kept.into_absent().is_err());
}

fn plain(n: u8) -> PlainInstruction {
    PlainInstruction {
        program: [20; 32],
        accounts: vec![
            AccountMeta { pubkey: [n; 32], is_signer: false, is_writable: true },
            AccountMeta { pubkey: [30; 32], is_signer: false, is_writable: false },
        ],
        data: vec![n, 1, 2],
    }
}

#[test]
fn instructions_are_composed_and_signed() {
    let secret = [12; 32];
    let keypair = Keypair::new_from_array(secret);
    let authority = keypair.pubkey().to_bytes();
    let mut settings = builder();
    settings.authority = authority;
    let (accountsdb, appender) = fresh();
    let engine = Engine::new(open(&mut settings, accountsdb, &appender.ledger));
    let instructions = vec![plain(21), plain(22)];
    assert!(can_compile(&authority, &instructions));
    let accessor = engine.instructions(&instructions, &secret).unwrap();
    let view = &accessor.transaction.0;
    assert_eq!(view.version, TransactionVersion::Legacy);
    assert_eq!(view.accounts[0], authority);
    assert_eq!(view.accounts.len(), 5);
    assert_eq!(view.blockhash, engine.keeper.blockhash());
    assert_eq!(view.signatures, vec![Signature::from(keypair.sign_message(&view.message))]);

    // The serialized form is what the same outside calls make of the instructions.
    let outside: Vec<Instruction> = instructions
        .iter()
        .map(|ix| Instruction {
            program_id: ix.program.into(),
            accounts: ix
                .accounts
                .iter()
                .map(|meta| solana_instruction::AccountMeta {
                    pubkey: meta.pubkey.into(),
                    is_signer: meta.is_signer,
                    is_writable: meta.is_writable,
                })
                .collect(),
            data: ix.data.clone(),
        })
        .collect();
    let message = Message::new(&outside, Some(&keypair.pubkey()));
    let mut expected = solana_transaction::Transaction::new_unsigned(message);
    expected.try_sign(&[&keypair], engine.keeper.blockhash().into()).unwrap();
    let bytes = engine.signed(&instructions, &secret).unwrap();
    assert_eq!(bytes, wincode::serialize(&expected).unwrap());
    assert_eq!(bytes, sign_instructions(&instructions, &authority, &secret, &engine.keeper.blockhash()).unwrap());
    assert!(engine.transaction(&bytes).is_ok());

    // Another key, or another signer, and there is no transaction.
    assert!(matches!(
        compose_instructions(&instructions, &authority, &[13; 32], &[0; 32]),
        Err(EngineError::Signature)
    ));
    let mut foreign = plain(21);
    foreign.accounts[0].is_signer = true;
    assert!(matches!(
        compose_instructions(&vec![foreign], &authority, &secret, &[0; 32]),
        Err(EngineError::Signature)
    ));
}

#[test]
fn messages_and_transactions_are_composed() {
    let secret = [12; 32];
    let keypair = Keypair::new_from_array(secret);
    let authority = keypair.pubkey().to_bytes();
    let message = |instructions: usize, data: usize| CompiledMessage {
        required_signatures: 1,
        readonly_signed: 0,
        readonly_unsigned: 1,
        accounts: vec![authority, [20; 32]],
        instructions: (0..instructions)
            .map(|_| CompiledInstruction {
                program_index: 1,
                accounts: vec![0],
                data: vec![7; data],
            })
            .collect(),
    };
    let view = compose_message(&message(1, 3), &authority, &secret, &[6; 32]).unwrap();
    assert_eq!((view.accounts[0], view.blockhash), (authority, [6; 32]));
    assert!(sigverify(&view).is_ok());
    let again =
        compose_transaction(&view.signatures, &message(1, 3), &[6; 32], &[1; 32]).unwrap();
    assert_eq!(again.message, view.message);
    assert!(sigverify(&again).is_ok());
    let other = compose_transaction(&view.signatures, &message(1, 3), &[5; 32], &[1; 32]).unwrap();
    assert!(sigverify(&other).is_err());
    assert!(matches!(
        compose_transaction(&view.signatures, &message(1, 65_536), &[6; 32], &authority),
        Err(EngineError::Serde)
    ));
    assert!(matches!(
        compose_transaction(&Vec::new(), &message(1, 3), &[6; 32], &authority),
        Err(EngineError::Sanitization)
    ));
}

#[test]
fn messages_count_so_many_accounts() {
    let crowd = |count: u32, is_signer: bool, is_writable: bool| {
        let accounts = (0..count)
            .map(|n| {
                let mut pubkey = [40; 32];
                pubkey[..4].copy_from_slice(&n.to_le_bytes());
                AccountMeta { pubkey, is_signer, is_writable }
            })
            .collect();
        vec![PlainInstruction { program: [20; 32], accounts, data: Vec::new() }]
    };
    assert!(can_compile(&AUTHORITY, &crowd(254, true, true)));
    assert!(!can_compile(&AUTHORITY, &crowd(255, true, true)));
    assert!(can_compile(&AUTHORITY, &crowd(254, false, false)));
    assert!(!can_compile(&AUTHORITY, &crowd(255, false, false)));
    assert!(can_compile(&AUTHORITY, &crowd(400, false, true)));
    let same: Vec<PlainInstruction> = (0..300).map(|_| plain(21)).collect();
    assert!(can_compile(&AUTHORITY, &same));
    let mut long = plain(21);
    long.data = vec![0; 65_536];
    assert!(!can_compile(&AUTHORITY, &vec![long]));
}

#[test]
fn batches_hand_over_every_signature() {
    let (accountsdb, appender) = fresh();
    let engine = Engine::new(open(&mut builder(), accountsdb, &appender.ledger));
    let batch = engine.batch_verifier();
    let list: Vec<Vec<u8>> = (1..=3).map(|seed| signed(seed, [6; 32]).1).collect();
    let prepared = batch.prepare(&list).unwrap();
    let items = batch_data(&prepared);
    assert_eq!(items.len(), 3);
    for (seed, item) in (1u8..).zip(&items) {
        let keypair = Keypair::new_from_array([seed; 32]);
        assert_eq!(item.signature, signed(seed, [6; 32]).0);
        assert_eq!(item.key, keypair.pubkey().to_bytes());
        assert_eq!(item.signature, Signature::from(keypair.sign_message(&item.message)));
    }
    assert!(batch_data(&Vec::new()).is_empty());
}

#[test]
fn processors_are_shared_out() {
    assert_eq!(workers(1), (2, 1));
    assert_eq!(workers(8), (6, 3));
    assert_eq!(workers(16), (14, 7));
}
