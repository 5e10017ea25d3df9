//! Caches, subscriptions, startup, and recovery of a keeper.

use std::sync::Arc;

use engine::accountsdb::db::AccountsDB;
use engine::accountsdb::layout::Extent;
use engine::accountsdb::snapshot::snapshot_name;
use engine::accountsdb::storage::Limits;
use engine::accountsdb::AccountsDBError;
use engine::keeper::accessor::{Closed, Keeper, Notice};
use engine::keeper::builder::{
    retained_history, ttl, AccountSeed, Addresses, KeeperBuilder, BLOCK_CACHE_WINDOW,
    SIGNATURE_CACHE_WINDOW, SPONSOR_INIT_BALANCE,
};
use engine::keeper::cache::{
    AccountCache, AccountLease, AccountLoad, AccountWait, BlocksCache, CacheSeed, Caches,
    HistoryEntry, MissingAccount, SignatureStatus, Wakeup,
};
use engine::keeper::commit::{
    execution_commit, execution_event, ExecutedTransaction, ExecutionRecord, InnerInstruction,
};
use engine::keeper::error::{KeeperError, SnapshotError};
use engine::keeper::expiring::{
    key_of_hash, key_of_signature, CacheKey, ExpiringCache, EVICTION_LIMIT,
};
use engine::keeper::features::features;
use engine::keeper::recovery::{
    newest_snapshot, recover, LedgerPosition, Opened, Recovery, RecoveryAction,
};
use engine::keeper::subscriptions::{
    Delivery, Multicast, Signatures, Subscription, Subscriptions, Unicast,
};
use engine::keeper::sysvar::{
    add_slot_hashes, decode_slot_hashes, encode_clock, encode_schedule, encode_slot_hashes,
    epoch_schedule, Clock, EpochSchedule, Rent, SlotHash,
};
use engine::ledger::appender::LedgerAppender;
use engine::ledger::outcome::{InstructionError, TransactionError};
use engine::ledger::reader::Ledger;
use engine::ledger::request::{
    AccountSignaturesParams, BlockDetails, BlockParams, TransactionStatus,
};
use engine::ledger::schema::{Event, Execution};
use engine::types::{
    Account, AccountMode, AccountSharedData, Block, BlockHash, CoWAccount, DirtyMarkers, Pubkey,
    Signature, Slot, SuperblockSeal,
};
use engine::view::{TransactionVersion, TransactionView};
use solana_instruction::Instruction;
use solana_keypair::Keypair;
use solana_message::legacy::Message;
use solana_message::VersionedMessage;
use solana_signer::Signer;
use solana_transaction::versioned::VersionedTransaction;

const AUTHORITY: Pubkey = [200; 32];

fn key(n: u64) -> CacheKey {
    (0, n as u128)
}

fn limits() -> Limits {
    Limits { block: 16 << 20, map: 1 << 40 }
}

fn units(len: usize) -> u32 {
    21 + (len as u32).div_ceil(8)
}

fn block(slot: Slot) -> Block {
    let hash = |n: u64| -> BlockHash {
        let mut hash = [7u8; 32];
        hash[..8].copy_from_slice(&n.to_le_bytes());
        hash
    };
    Block { slot, hash: hash(slot), time: slot as i64, parent: hash(slot.saturating_sub(1)) }
}

fn addresses() -> Addresses {
    Addresses {
        sysvar: solana_sdk_ids::sysvar::ID.to_bytes(),
        native_loader: solana_sdk_ids::native_loader::ID.to_bytes(),
        loader: solana_sdk_ids::loader_v4::ID.to_bytes(),
        feature_gate: solana_sdk_ids::feature::ID.to_bytes(),
        system: solana_sdk_ids::system_program::ID.to_bytes(),
        slot_hashes: solana_sdk_ids::sysvar::slot_hashes::ID.to_bytes(),
        clock: solana_sdk_ids::sysvar::clock::ID.to_bytes(),
        rent: solana_sdk_ids::sysvar::rent::ID.to_bytes(),
        fees: solana_sdk_ids::sysvar::fees::ID.to_bytes(),
        last_restart_slot: solana_sdk_ids::sysvar::last_restart_slot::ID.to_bytes(),
        instructions: solana_sdk_ids::sysvar::instructions::ID.to_bytes(),
        epoch_schedule: solana_sdk_ids::sysvar::epoch_schedule::ID.to_bytes(),
        epoch_rewards: solana_sdk_ids::sysvar::epoch_rewards::ID.to_bytes(),
    }
}

#[allow(deprecated)]
fn rent() -> Rent {
    let rent = solana_rent::Rent::default();
    Rent {
        lamports_per_byte: rent.lamports_per_byte,
        exemption_threshold: rent.exemption_threshold,
        burn_percent: rent.burn_percent,
    }
}

fn builder() -> KeeperBuilder {
    KeeperBuilder {
        authority: AUTHORITY,
        follower: false,
        blocktime: 100_000_000,
        superblock: 4,
        lru_capacity: 256,
        rent: rent(),
        addresses: addresses(),
        builtins: vec![[103; 32]],
        programs: Vec::new(),
        accounts: Vec::new(),
    }
}

/// Opens a keeper over stores, as startup does.
fn open(builder: &mut KeeperBuilder, mut accountsdb: AccountsDB, ledger: &Ledger) -> Keeper {
    let survey = builder.survey(&mut accountsdb, ledger).unwrap();
    let (seed, accounts) = builder.prepopulate(survey);
    let entries = accounts
        .into_iter()
        .map(|seed| {
            let units = units(seed.data.len());
            seed.entry(units)
        })
        .collect();
    accountsdb.store(entries).unwrap();
    let caches = builder.caches(seed);
    Keeper::new(
        builder.authority,
        builder.addresses,
        features(),
        builder.rent,
        accountsdb,
        caches,
    )
}

fn fresh() -> (AccountsDB, LedgerAppender) {
    let ledger = Ledger::new(u64::MAX, Vec::new());
    (AccountsDB::new(limits(), Vec::new()), LedgerAppender::new(ledger, vec![0]))
}

/// Stops a keeper and gives its storage back.
fn close(mut keeper: Keeper) -> AccountsDB {
    keeper.sync();
    keeper.accountsdb
}

fn append(appender: &mut LedgerAppender, event: Event) {
    appender.run(vec![(event, 1)]).unwrap();
}

fn append_block(keeper: &mut Keeper, appender: &mut LedgerAppender, block: Block) {
    let (_, result) = keeper.blocks().append(block, false);
    result.unwrap();
    append(appender, Event::Block(block));
}

fn entry(pubkey: Pubkey, lamports: u64, mode: AccountMode) -> (Pubkey, AccountSharedData) {
    let account = Account {
        lamports,
        owner: [0; 32],
        mode,
        slot: 0,
        executable: false,
        units: units(0),
        data: Vec::new(),
    };
    let markers = DirtyMarkers { owner: true, content: true };
    (pubkey, AccountSharedData { account, cow: CoWAccount::Owned, markers })
}

fn signed(seed: u8, blockhash: BlockHash) -> (Signature, Vec<u8>) {
    let payer = Keypair::new_from_array([seed; 32]);
    let ix = Instruction { program_id: [9; 32].into(), accounts: vec![], data: vec![] };
    let message = Message::new_with_blockhash(&[ix], Some(&payer.pubkey()), &blockhash.into());
    let message = VersionedMessage::Legacy(message);
    let signature: Signature = payer.sign_message(&wincode::serialize(&message).unwrap()).into();
    let transaction = VersionedTransaction { signatures: vec![signature.into()], message };
    (signature, wincode::serialize(&transaction).unwrap())
}

fn nobody() -> Closed {
    Closed { receivers: vec![], transactions: false, services: false }
}

fn executed(status: Result<(), TransactionError>) -> ExecutedTransaction {
    ExecutedTransaction {
        status,
        accounts: Vec::new(),
        fee: 5,
        logs: None,
        executed_units: 150,
        return_data: None,
        inner_instructions: None,
    }
}

#[test]
fn expiring_cache_lazy_eviction() {
    // ttl = 2 slots: a key pushed at slot s expires at s + 2.
    let mut cache: ExpiringCache<u64> = ExpiringCache::new(2);

    assert!(cache.push(key(1), 10, 0)); // inserted, expires at slot 2
    assert!(!cache.push(key(1), 99, 0)); // re-insert of an existing key is a no-op
    assert_eq!(cache.get(&key(1)), Some(10), "value left unchanged by the re-insert");

    // Reads leave entries present until a push sweeps them.
    assert!(cache.contains(&key(1)));
    assert_eq!(cache.get(&key(1)), Some(10));

    assert!(cache.push(key(2), 20, 5));
    assert!(!cache.contains(&key(1)), "expired key swept on the next push");
    assert_eq!(cache.get(&key(2)), Some(20));

    // `update` replaces a present value and no-ops for an absent key.
    cache.update(&key(2), 21);
    assert_eq!(cache.get(&key(2)), Some(21));
    cache.update(&key(404), 0);
    assert!(!cache.contains(&key(404)));

    // A key re-admitted after expiry is a fresh insert again.
    assert!(cache.push(key(1), 11, 5));
    assert_eq!(cache.get(&key(1)), Some(11));

    // Cross two full batches and a partial batch at the exact expiry slot.
    let limit = EVICTION_LIMIT as u64;
    let burst = 2 * limit + 2;
    let fresh = burst + 1;
    for k in 3..=burst {
        assert!(cache.push(key(k), k, 5));
    }
    assert!(!cache.push(key(burst), 99, 6));
    assert_eq!(cache.len(), burst as usize, "entries survive until their expiry slot");

    assert!(!cache.push(key(burst), 99, 7), "unswept expired key rejects duplicates");
    assert_eq!(
        cache.len(),
        (burst - limit) as usize,
        "even a rejected push sweeps a full batch"
    );
    assert!(!cache.contains(&key(limit)));
    assert_eq!(
        cache.get(&key(limit + 1)),
        Some(limit + 1),
        "reads do not sweep expired entries"
    );
    assert_eq!(cache.get(&key(burst)), Some(burst), "duplicate leaves the value unchanged");

    assert!(cache.push(key(fresh), fresh, 7));
    assert_eq!(cache.len(), 3, "next push sweeps another full batch before inserting");
    assert!(!cache.contains(&key(2 * limit)));
    assert_eq!(cache.get(&key(2 * limit + 1)), Some(2 * limit + 1));

    assert!(cache.push(key(burst), 99, 7), "swept key can be reinserted in the same push");
    assert_eq!(cache.len(), 2, "final push drains the remaining expired entries");
    assert!(!cache.contains(&key(2 * limit + 1)));
    assert_eq!(cache.get(&key(burst)), Some(99));
    assert_eq!(cache.get(&key(fresh)), Some(fresh), "unexpired entries are retained");
}

#[test]
fn account_lease_coordinates_recency_and_waiters() {
    let modes = [
        AccountMode::ReadOnly,
        AccountMode::Uninit,
        AccountMode::Delegated,
        AccountMode::Magic,
        AccountMode::Transient,
        AccountMode::System,
    ];
    for (i, mode) in modes.into_iter().enumerate() {
        let mut cache = AccountCache::new(256);
        let pk = [i as u8; 32];
        let lease = cache.lock(pk, None).unwrap();
        assert!(cache.lock(pk, None).is_none());

        cache.materialized(&lease, mode);
        assert!(cache.lock(pk, None).is_none(), "materialization retains ownership");
        cache.release(lease);
        let waiter = cache.lock(pk, None).unwrap();
        cache.release(waiter);

        let remembered =
            matches!(mode, AccountMode::ReadOnly | AccountMode::Uninit | AccountMode::System);
        assert_eq!(cache.promote(&pk), remembered);
    }

    let mut cache = AccountCache::new(256);
    let pk = [7; 32];
    let lease = cache.lock(pk, None).unwrap();
    cache.materialized(&lease, AccountMode::ReadOnly);
    cache.release(lease);
    assert!(cache.promote(&pk), "read-only is admitted");
    let eviction = cache.lock(pk, Some((AccountMode::ReadOnly, 0))).unwrap();
    assert!(
        !cache.cached_eviction_applies(&eviction),
        "an older eviction is rejected after readmission"
    );
    cache.release(eviction);
    assert!(cache.promote(&pk), "rejecting stale eviction leaves recency unchanged");

    let lease = cache.lock(pk, None).unwrap();
    cache.materialized(&lease, AccountMode::Delegated);
    cache.release(lease);
    assert!(!cache.promote(&pk), "authoritative transition removes recency");

    let lease = cache.lock(pk, Some((AccountMode::ReadOnly, 0))).unwrap();
    assert!(
        cache.cached_eviction_applies(&lease),
        "an account absent from recency remains eligible for eviction"
    );
    cache.materialized(&lease, AccountMode::ReadOnly);
    cache.deleted(&lease);
    cache.release(lease);
    assert!(!cache.promote(&pk), "deletion removes recency");
}

#[test]
fn reservations_have_one_owner() {
    let mut cache = AccountCache::new(256);
    let load = match cache.reserve([1; 32]) {
        MissingAccount::Load(load) => load,
        other => panic!("unexpected reservation {other:?}"),
    };
    assert_eq!(load.pubkey, [1; 32]);
    assert!(matches!(
        cache.reserve([1; 32]),
        MissingAccount::Wait(AccountWait { pubkey }) if pubkey == [1; 32]
    ));
    assert_eq!(load.complete(&mut cache, AccountMode::ReadOnly).0, Some(Wakeup::Loaded));
    assert!(cache.promote(&[1; 32]));
    assert_eq!(AccountWait { pubkey: [1; 32] }.wait(Wakeup::Loaded), ([1; 32], true));

    let load = AccountLoad { pubkey: [2; 32] };
    assert_eq!(cache.cancel(load), None, "nothing was reserved");
    assert!(matches!(cache.reserve([2; 32]), MissingAccount::Load(_)));
    assert_eq!(cache.cancel(AccountLoad { pubkey: [2; 32] }), Some(Wakeup::Abandoned));
    assert!(matches!(cache.reserve([2; 32]), MissingAccount::Load(_)));
    assert_eq!(AccountWait { pubkey: [2; 32] }.wait(Wakeup::Abandoned), ([2; 32], false));
}

#[test]
fn leases_judge_what_they_observed() {
    let lease = |observed| AccountLease { pubkey: [1; 32], observed };
    assert!(!lease(None).is_present());
    assert!(lease(Some((AccountMode::ReadOnly, 5))).is_present());
    assert!(lease(Some((AccountMode::ReadOnly, 5))).evictable());
    assert!(!lease(Some((AccountMode::Delegated, 5))).evictable());
}

#[test]
fn subscribers_send_semantics() {
    let mut unicast = Unicast::new(1, Subscription::Transactions);
    assert!(!unicast.sends(false), "nobody listens yet");
    assert!(matches!(unicast.subscribe(), Ok(1)));
    assert!(unicast.subscribe().is_err());
    assert!(unicast.sends(false));
    assert!(!unicast.sends(true));
    assert!(matches!(
        unicast.subscribe(),
        Err(KeeperError::SubscriptionRegistered("transactions"))
    ));

    let open: Vec<u64> = Vec::new();
    let mut multicast = Multicast::new(1, Subscription::Accounts);
    assert_eq!(multicast.send(&[1], &vec![]), 0);
    assert!(!multicast.contains(&[1], &open));
    assert_eq!(multicast.subscribe(&[1], 31), 1);
    assert_eq!(multicast.subscribe(&[1], 32), 1);
    assert_eq!(multicast.receivers(&[1]), vec![31, 32]);
    assert_eq!(multicast.send(&[1], &vec![Delivery::Sent, Delivery::Sent]), 0);
    assert_eq!(multicast.send(&[1], &vec![Delivery::Sent, Delivery::Sent]), 0);
    assert_eq!(multicast.send(&[1], &vec![Delivery::Full, Delivery::Full]), 2);
    assert!(multicast.receivers(&[1]).is_empty());

    // Overflow removed the last receivers. Registration must reopen
    // delivery, and pruning a different key must not hide the remaining one.
    multicast.subscribe(&[2], 33);
    multicast.subscribe(&[3], 34);
    assert!(!multicast.contains(&[3], &vec![34]));
    assert_eq!(multicast.receivers(&[2]), vec![33]);
    assert_eq!(multicast.send(&[2], &vec![Delivery::Sent]), 0);
    assert!(!multicast.contains(&[2], &vec![33]));

    let mut signatures = Signatures::new();
    let signature: Signature = [1; 64];
    assert!(signatures.send(&signature).is_empty());
    signatures.subscribe(&signature, 41);
    signatures.subscribe(&signature, 42);
    signatures.cleanup(&vec![42]);
    signatures.subscribe(&signature, 43);
    assert_eq!(signatures.send(&signature), vec![41, 43]);
    signatures.subscribe(&signature, 44);
    assert_eq!(signatures.send(&signature), vec![44]);
    signatures.subscribe(&signature, 45);
    signatures.cleanup(&vec![45]);
    signatures.cleanup(&vec![45]);
    signatures.subscribe(&signature, 46);
    assert_eq!(signatures.send(&signature), vec![46]);
}

#[test]
fn topics_do_not_share_receivers() {
    let mut streams = Subscriptions::new();
    streams.accounts.subscribe(&[1], 5);
    streams.accounts.subscribe(&[2], 6);
    streams.programs.subscribe(&[1], 5);
    assert_eq!(streams.accounts.receivers(&[1]), vec![5]);
    assert_eq!(streams.accounts.receivers(&[2]), vec![6]);
    streams.cleanup(&vec![5]);
    assert!(streams.accounts.receivers(&[1]).is_empty());
    assert!(streams.programs.receivers(&[1]).is_empty());
    assert_eq!(streams.accounts.receivers(&[2]), vec![6]);
    assert!(streams.blocks.senders.is_empty());
}

#[test]
fn append_dedup_and_status_sentinel() {
    let (accountsdb, appender) = fresh();
    let mut keeper = open(&mut builder(), accountsdb, &appender.ledger);
    let (signature, payload) = signed(1, keeper.blockhash());
    keeper.subscriptions.signatures.subscribe(&signature, 1);

    // First append writes to the ledger; the duplicate is dropped.
    let hash = keeper.blockhash();
    match keeper.transactions().append(signature, &hash, payload.clone()) {
        Ok(Event::Transaction(entry)) => {
            assert_eq!((entry.signature, entry.payload), (signature, payload.clone()));
        }
        other => panic!("first append is accepted, got {other:?}"),
    }
    keeper.subscriptions.signatures.subscribe(&signature, 2);
    assert!(matches!(
        keeper.transactions().append(signature, &hash, payload),
        Err(TransactionError::AlreadyProcessed)
    ));
    assert_eq!(keeper.subscriptions.signatures.senders.receivers(&signature), vec![1, 2]);

    // The sentinel makes status() return None from the cache.
    assert!(keeper.transactions().status(&appender.ledger, &signature).unwrap().is_none());

    let (signature, payload) = signed(2, [1; 32]);
    keeper.subscriptions.signatures.subscribe(&signature, 3);
    assert!(matches!(
        keeper.transactions().append(signature, &[1; 32], payload.clone()),
        Err(TransactionError::BlockhashNotFound)
    ));
    assert_eq!(keeper.subscriptions.signatures.senders.receivers(&signature), vec![3]);
    assert!(keeper.transactions().status(&appender.ledger, &signature).unwrap().is_none());
    assert!(matches!(
        keeper.transactions().append(signature, &[1; 32], payload),
        Err(TransactionError::AlreadyProcessed)
    ));
}

#[test]
fn seeds_features_programs_and_sysvars() {
    for interval in [1, 7, 0] {
        let mut builder = builder();
        builder.superblock = interval;
        let program: Pubkey = [55; 32];
        let elf = vec![1u8, 2, 3, 4, 5, 6, 7, 8];
        builder.programs.push((program, elf.clone()));
        builder.accounts.push(AccountSeed {
            pubkey: [66; 32],
            lamports: 1_000_000,
            owner: [0; 32],
            mode: AccountMode::Delegated,
            executable: false,
            data: Vec::new(),
        });
        let (accountsdb, appender) = fresh();
        let mut keeper = open(&mut builder, accountsdb, &appender.ledger);
        let addresses = addresses();
        let rent = solana_rent::Rent::default();
        let active = keeper.features().clone();
        let mut loader = keeper.accountsdb.loader();

        // The required curve, precompile, program format, and sysvar features are all active
        // from slot zero on, and every active one is backed by a rent-exempt account.
        let required = [
            agave_feature_set::curve25519_syscall_enabled::ID,
            agave_feature_set::enable_sbpf_v3_deployment_and_execution::ID,
            agave_feature_set::syscall_parameter_address_restrictions::ID,
            agave_feature_set::get_sysvar_syscall_enabled::ID,
            agave_feature_set::ed25519_program_enabled::ID,
            agave_feature_set::secp256k1_program_enabled::ID,
        ];
        for id in required {
            assert!(active.contains(&id.to_bytes()), "required feature active at slot zero");
        }
        for id in &active {
            let account = loader.load(id).expect("feature account seeded");
            assert_eq!(account.owner, addresses.feature_gate);
            assert_eq!(account.data, vec![1, 0, 0, 0, 0, 0, 0, 0, 0]);
            assert!(account.lamports >= rent.minimum_balance(account.data.len()));
        }
        let builtin = loader.load(&builder.builtins[0]).expect("builtin seeded");
        assert!(builtin.executable);
        assert_eq!(builtin.owner, addresses.native_loader);

        // The program account carries its ELF verbatim, is executable, owned by the loader,
        // and rent-exempt.
        let account = loader.load(&program).expect("program seeded");
        assert!(account.executable);
        assert_eq!(account.owner, addresses.loader);
        assert_eq!(account.data, elf);
        assert_eq!(account.lamports, rent.minimum_balance(elf.len()));

        // The clock starts one slot ahead of the last block.
        let clock = loader.load(&addresses.clock).expect("clock seeded");
        assert_eq!(
            clock.data,
            encode_clock(&Clock {
                slot: 1,
                epoch_start_timestamp: 0,
                epoch: 0,
                leader_schedule_epoch: 0,
                unix_timestamp: 0,
            })
        );
        assert_eq!(clock.data, encode_clock(&KeeperBuilder::clock(&keeper.caches.blocks.latest)));
        let slots = if interval == 0 { 432_000 } else { interval };
        let schedule = EpochSchedule {
            slots_per_epoch: slots,
            leader_schedule_slot_offset: slots,
            warmup: false,
            first_normal_epoch: 0,
            first_normal_slot: 0,
        };
        assert_eq!(epoch_schedule(interval), schedule);
        let stored = loader.load(&addresses.epoch_schedule).expect("sysvar seeded");
        assert_eq!(stored.data, encode_schedule(&schedule));

        for id in [addresses.rent, addresses.epoch_schedule] {
            let account = loader.load(&id).expect("sysvar seeded");
            assert_eq!(account.owner, addresses.sysvar);
        }
        let hashes = loader.load(&addresses.slot_hashes).expect("slot hashes seeded");
        assert_eq!(hashes.data.len(), 20_488);
        assert_eq!(loader.load(&AUTHORITY).unwrap().lamports, SPONSOR_INIT_BALANCE);
        assert_eq!(loader.load(&[66; 32]).unwrap().lamports, 1_000_000);
        assert!(builder.accounts.is_empty());
    }
}

/// Every span of the persisted backend, in ascending order.
fn extents(db: &AccountsDB) -> Vec<Extent> {
    let images = db.persisted.images.rows.iter();
    let mut list: Vec<(u32, Extent)> = images
        .filter_map(|(_, image)| db.persisted.image(&image.key))
        .map(|image| (image.offset, Extent::Image(image)))
        .collect();
    let holes = db.persisted.free_spans();
    list.extend(holes.into_iter().map(|hole| (hole.offset, Extent::Free(hole))));
    list.sort_by_key(|(offset, _)| *offset);
    list.into_iter().map(|(_, extent)| extent).collect()
}

#[test]
fn recovers_the_newest_snapshot() {
    let marker: Pubkey = [77; 32];
    let (accountsdb, mut appender) = fresh();
    let mut keeper = open(&mut builder(), accountsdb, &appender.ledger);
    let clock = keeper.accountsdb.loader().load(&addresses().clock).unwrap().data;
    let mut archives = Vec::new();
    for (head, lamports) in [(1u64, 1u64), (2, 2)] {
        let entries = vec![entry(marker, lamports, AccountMode::Delegated)];
        keeper.accountsdb.store(entries).unwrap();
        let (name, dump, seal, _) = keeper.finalize_superblock(head);
        assert_eq!(name, snapshot_name(head));
        assert_eq!(seal.id, head);
        assert!(dump.iter().all(|(pubkey, _)| *pubkey != marker));
        append(&mut appender, Event::Superblock(seal));
        let places = extents(&keeper.accountsdb);
        archives.push((keeper.accountsdb.persisted.meta, places, dump));
    }
    assert_eq!(
        keeper.accountsdb.loader().load(&addresses().clock).unwrap().data,
        clock,
        "seals do not advance epochs"
    );
    let schedule = keeper.accountsdb.loader().load(&addresses().epoch_schedule).unwrap().data;
    keeper.apply_reset().unwrap();
    assert_eq!(
        keeper.accountsdb.loader().load(&addresses().epoch_schedule).unwrap().data,
        schedule,
        "volatile reset retains the schedule"
    );

    // A word of the store is poisoned after the close.
    keeper.accountsdb.store(vec![entry(marker, 3, AccountMode::Delegated)]).unwrap();
    let mut accountsdb = close(keeper);
    accountsdb.validate().unwrap();
    accountsdb.persisted.meta.checksum = 0xABAB_ABAB_ABAB_ABAB;
    let position =
        LedgerPosition { head: appender.ledger.head(), transactions: appender.ledger.transactions() };
    assert_eq!(position.head, 3);
    let first = Opened {
        superblock: accountsdb.superblock(),
        transactions: accountsdb.transactions(),
        validation: accountsdb.validate(),
    };
    assert!(matches!(first.validation, Err(AccountsDBError::Corruption)));
    assert!(matches!(Recovery::Original.judge(first, position), RecoveryAction::Restore));

    let found = newest_snapshot(&vec![true, true]).unwrap();
    let (meta, places, dump) = archives.remove(found);
    let mut restored = match AccountsDB::restore(limits(), meta, places, dump) {
        Ok(restored) => restored,
        Err(error) => panic!("{error:?}"),
    };
    let second = Opened {
        superblock: restored.superblock(),
        transactions: restored.transactions(),
        validation: restored.validate(),
    };
    assert!(
        matches!(recover(first, Ok(()), second, position), RecoveryAction::Accept { drop_backup: true }),
        "the saved tree is removed on successful recovery"
    );

    let mut keeper = open(&mut builder(), restored, &appender.ledger);
    keeper.accountsdb.validate().expect("restored store validates");
    let mut loader = keeper.accountsdb.loader();
    assert_eq!(loader.load(&addresses().epoch_schedule).unwrap().data, schedule);
    assert_eq!(loader.load(&addresses().clock).unwrap().data, clock);
    assert_eq!(loader.load(&marker).unwrap().lamports, 2, "newest snapshot wins");
}

#[test]
fn restores_blockhash_history_from_ledger_and_snapshot() {
    let mut settings = builder();
    let (accountsdb, mut appender) = fresh();
    let mut keeper = open(&mut settings, accountsdb, &appender.ledger);
    for slot in 1..=600 {
        append_block(&mut keeper, &mut appender, block(slot));
    }
    let ledger_hash = block(50).hash;
    let snapshot_hash = block(100).hash;
    let recent_hash = block(600).hash;
    let (signature, payload) = signed(3, recent_hash);
    let event = keeper.transactions().append(signature, &recent_hash, payload.clone()).unwrap();
    append(&mut appender, event);
    // The count is committed without execution metadata, so that the signature is found in
    // the blockstore alone.
    keeper.accountsdb.commit(Vec::new()).unwrap();
    append_block(&mut keeper, &mut appender, block(601));
    let latest_hash = block(601).hash;

    let mut keeper = open(&mut settings, close(keeper), &appender.ledger);
    assert!(
        !keeper.blocks().is_valid(&ledger_hash),
        "leader rejects every retained hash except the latest"
    );
    assert!(keeper.blocks().is_valid(&latest_hash));

    settings.follower = true;
    let mut keeper = open(&mut settings, close(keeper), &appender.ledger);
    assert!(
        keeper.blocks().is_valid(&ledger_hash),
        "follower restores history beyond SlotHashes from the blockstore"
    );
    keeper.subscriptions.signatures.subscribe(&signature, 9);
    assert!(matches!(
        keeper.transactions().append(signature, &recent_hash, payload),
        Err(TransactionError::AlreadyProcessed)
    ));
    assert_eq!(keeper.subscriptions.signatures.senders.receivers(&signature), vec![9]);
    assert!(
        keeper.transactions().status(&appender.ledger, &signature).unwrap().is_none(),
        "recovered follower signature has no historical status"
    );

    let (_, clean) = fresh();
    let mut keeper = open(&mut settings, close(keeper), &clean.ledger);
    assert!(
        !keeper.blocks().is_valid(&ledger_hash),
        "clean ledger cannot restore history older than SlotHashes"
    );
    assert!(keeper.blocks().is_valid(&snapshot_hash));
    let (signature, payload) = signed(4, snapshot_hash);
    assert!(
        keeper.transactions().append(signature, &snapshot_hash, payload).is_ok(),
        "follower accepts a snapshot-retained hash without ledger history"
    );
}

#[test]
fn malformed_slot_hashes_stop_startup() {
    let (mut accountsdb, appender) = fresh();
    let builder = builder();
    accountsdb
        .store(vec![entry(addresses().slot_hashes, 1, AccountMode::System)])
        .unwrap();
    assert!(matches!(
        builder.survey(&mut accountsdb, &appender.ledger),
        Err(KeeperError::AccountsDB(AccountsDBError::Serde))
    ));
}

#[test]
fn windows_cover_whole_slots() {
    assert_eq!(ttl(BLOCK_CACHE_WINDOW, 100_000_000), 600);
    assert_eq!(ttl(SIGNATURE_CACHE_WINDOW, 100_000_000), 750);
    assert_eq!(ttl(BLOCK_CACHE_WINDOW, 400_000_000), 150);
    assert_eq!(ttl(10, 3), 4);
    assert_eq!(ttl(9, 3), 3);
    assert_eq!(builder().retained_range(1000), (251, 1001));
    assert_eq!(builder().retained_range(10), (0, 11));
}

#[test]
fn slot_hashes_stay_newest_first() {
    let mut list: Vec<SlotHash> = vec![(9, [9; 32]), (5, [5; 32])];
    list = add_slot_hashes(list, &vec![(7, [7; 32]), (11, [11; 32])]);
    assert_eq!(list.iter().map(|entry| entry.0).collect::<Vec<_>>(), vec![11, 9, 7, 5]);
    let bytes = encode_slot_hashes(&list);
    assert_eq!(bytes.len(), 8 + 4 * 40);
    assert_eq!(decode_slot_hashes(&bytes), Some(list));
    assert_eq!(decode_slot_hashes(&bytes[..100]), None);

    let full: Vec<SlotHash> = (1..=512u64).rev().map(|slot| (slot, [1; 32])).collect();
    let grown = add_slot_hashes(full, &vec![(600, [2; 32])]);
    assert_eq!(grown.len(), 512);
    assert_eq!((grown[0].0, grown[511].0), (600, 2));
}

#[test]
fn built_keepers_hold_their_settings() {
    let (mut accountsdb, appender) = fresh();
    let mut builder = builder();
    let survey = builder.survey(&mut accountsdb, &appender.ledger).unwrap();
    let (seed, _) = builder.prepopulate(survey);
    let latest = seed.latest();
    let mut keeper = builder.build(accountsdb, seed);
    assert_eq!(keeper.authority(), AUTHORITY);
    assert_eq!(keeper.features(), &features());
    assert_eq!(*keeper.rent(), rent());
    assert_eq!(keeper.blocks().latest(), latest);
    assert_eq!(keeper.blocks().current_slot(), latest.slot + 1);
    assert!(keeper.blocks().is_valid(&latest.hash));
    let lease = keeper.accounts().lock([9; 32]).unwrap();
    assert_eq!(lease.observed, None);
    assert!(keeper.accounts().lock([9; 32]).is_none());
    let seal = SuperblockSeal { id: 3, checksum: 4, transactions: 5 };
    assert!(matches!(keeper.superblocks().append(seal), Event::Superblock(sent) if sent == seal));
    assert!(matches!(keeper.superblocks().sync(true), Event::Sync { is_final: true }));
    let position = keeper.superblocks().position(&appender.ledger);
    assert_eq!((position.superblock, position.offset), (1, 0));
    let missing = keeper.transactions().get(&appender.ledger, &[1; 64]).unwrap();
    assert!(missing.is_none());
    let params = BlockParams { slot: 1, details: BlockDetails::Boundary };
    assert!(keeper.blocks().get(&appender.ledger, params).unwrap().is_none());
    let params = AccountSignaturesParams { pubkey: [1; 32], limit: 5, before: None, until: None };
    assert!(keeper.accounts().signatures(&appender.ledger, &params).unwrap().is_empty());
    let read = keeper.accountsdb.loader().read(&[9; 32], |account| account.lamports);
    assert_eq!(read, None);
}

#[test]
fn cache_seeds_begin_with_the_newest_block() {
    let history = vec![
        HistoryEntry {
            block: block(8),
            signatures: vec![SignatureStatus {
                signature: [5; 64],
                status: Some(TransactionStatus { result: Ok(()), slot: 8 }),
            }],
        },
        HistoryEntry { block: block(7), signatures: vec![] },
    ];
    let seed = CacheSeed::new(history, None);
    assert_eq!(seed.latest(), block(8));
    let caches = Caches::new(seed, 10, 20, 256, false);
    assert!(caches.blocks.is_valid(&block(7).hash));
    assert!(caches.signatures.contains(&key_of_signature(&[5; 64])));
    assert_eq!(
        caches.signatures.get(&key_of_signature(&[5; 64])),
        Some(Some(TransactionStatus { result: Ok(()), slot: 8 }))
    );

    let mut blocks = BlocksCache::new(block(1), &vec![], 2);
    blocks.push(block(2));
    assert!(blocks.is_valid(&block(2).hash));
    assert!(!blocks.is_valid(&block(3).hash));
    assert_ne!(key_of_hash(&block(2).hash), key_of_hash(&block(3).hash));
    assert!(retained_history(&Ledger::new(0, Vec::new()), 0, 9).unwrap().is_empty());
}

#[test]
fn executions_are_published_once_committed() {
    let (accountsdb, appender) = fresh();
    let mut keeper = open(&mut builder(), accountsdb, &appender.ledger);
    let hash = keeper.blockhash();
    let (signature, payload) = signed(5, hash);
    keeper.transactions().append(signature, &hash, payload).unwrap();
    let account: Pubkey = [44; 32];
    keeper.subscriptions.accounts.subscribe(&account, 70);
    keeper.subscriptions.signatures.subscribe(&signature, 71);
    keeper.subscriptions.transactions.subscribe().unwrap();

    let mut done = executed(Ok(()));
    done.accounts.push(entry(account, 12, AccountMode::Delegated));
    let mut record =
        ExecutionRecord { slot: 1, result: Ok(done), balances: Some((vec![1], vec![2])) };
    let (commit, published) = keeper.transactions().commit_execution(signature, &mut record, &nobody());
    let published = published.unwrap();
    assert_eq!(commit.header.slot, 1);
    assert_eq!(commit.details.unwrap().balances.post, vec![2]);
    assert!(record.balances.is_none(), "balances are handed over");
    assert_eq!(published.status, TransactionStatus { result: Ok(()), slot: 1 });
    assert!(published.notices.contains(&Notice::Account(0)));
    assert!(!published.notices.contains(&Notice::Program(0)));
    assert!(published.transaction);
    assert!(!published.services);
    assert_eq!(published.waiters, vec![71]);
    assert_eq!(keeper.accountsdb.loader().load(&account).unwrap().lamports, 12);
    assert_eq!(keeper.accountsdb.transactions(), 1);
    assert_eq!(
        keeper.transactions().status(&appender.ledger, &signature).unwrap(),
        Some(TransactionStatus { result: Ok(()), slot: 1 })
    );
}

#[test]
fn failed_executions_write_nothing() {
    let (accountsdb, appender) = fresh();
    let mut keeper = open(&mut builder(), accountsdb, &appender.ledger);
    let failure = TransactionError::InstructionError(0, InstructionError::Custom(6));
    let mut failed = executed(Err(failure));
    failed.accounts.push(entry([44; 32], 12, AccountMode::Delegated));
    let mut record = ExecutionRecord { slot: 1, result: Ok(failed), balances: None };
    let (_, published) = keeper.transactions().commit_execution([6; 64], &mut record, &nobody());
    let published = published.unwrap();
    assert_eq!(published.status.result, Err(failure));
    assert!(keeper.accountsdb.loader().load(&[44; 32]).is_none());
    assert_eq!(keeper.accountsdb.transactions(), 1, "a failure counts");
}

#[test]
fn replayed_executions_are_remembered() {
    let (accountsdb, appender) = fresh();
    let mut keeper = open(&mut builder(), accountsdb, &appender.ledger);
    let mut done = executed(Ok(()));
    done.accounts.push(entry([44; 32], 12, AccountMode::Delegated));
    let record = ExecutionRecord { slot: 3, result: Ok(done), balances: None };
    keeper.transactions().commit_replay([8; 64], &record).unwrap();
    assert_eq!(keeper.accountsdb.loader().load(&[44; 32]).unwrap().lamports, 12);
    let hash = keeper.blockhash();
    assert!(matches!(
        keeper.transactions().append([8; 64], &hash, vec![]),
        Err(TransactionError::AlreadyProcessed)
    ));
}

#[test]
fn records_keep_nested_instructions() {
    let mut done = executed(Ok(()));
    done.logs = Some(Arc::new(vec![String::from("first"), String::from("second")]));
    done.return_data = Some(([3; 32], vec![4, 5]));
    done.inner_instructions = Some(vec![
        vec![InnerInstruction {
            program_index: 2,
            accounts: vec![0, 1],
            data: vec![9],
            stack_height: 2,
        }],
        vec![],
    ]);
    let mut record = ExecutionRecord {
        slot: 4,
        result: Ok(done),
        balances: Some((vec![5000, 10000], vec![4000, 11000])),
    };
    let commit = execution_commit([2; 64], &mut record);
    assert_eq!(commit.header.slot, 4);
    assert_eq!(commit.header.signature, [2; 64]);
    assert_eq!(*commit.logs, vec![String::from("first"), String::from("second")]);
    let details = commit.details.unwrap();
    assert_eq!((details.fee, details.compute_units), (5, 150));
    assert_eq!(details.balances.pre, vec![5000, 10000]);
    assert_eq!(details.balances.post, vec![4000, 11000]);
    let cpi = details.cpi.unwrap();
    assert_eq!(cpi.len(), 2);
    assert_eq!(cpi[0].0[0].stack_height, 2);
    assert_eq!(cpi[0].0[0].compiled.data, vec![9]);
    assert!(cpi[1].0.is_empty());

    let mut rejected = ExecutionRecord {
        slot: 4,
        result: Err(TransactionError::AccountNotFound),
        balances: None,
    };
    let commit = execution_commit([2; 64], &mut rejected);
    assert!(commit.details.is_none());
    assert_eq!(commit.status.result, Err(TransactionError::AccountNotFound));
}

#[test]
fn blocks_update_sysvars_and_caches() {
    let (accountsdb, appender) = fresh();
    let mut keeper = open(&mut builder(), accountsdb, &appender.ledger);
    keeper.subscriptions.blocks.subscribe(&[], 12);
    let (receivers, result) = keeper.blocks().append(block(1), false);
    result.unwrap();
    assert_eq!(receivers, Some(vec![12]));
    assert_eq!(keeper.blocks().latest(), block(1));
    assert_eq!(keeper.blocks().current_slot(), 2);
    assert!(keeper.blocks().is_valid(&block(1).hash));
    assert_eq!(keeper.accountsdb.slot(), 1);
    let clock = keeper.accountsdb.loader().load(&addresses().clock).unwrap().data;
    assert_eq!(&clock[..8], &1u64.to_le_bytes());
    assert_eq!(&clock[32..], &1i64.to_le_bytes());
    let hashes = keeper.accountsdb.loader().load(&addresses().slot_hashes).unwrap().data;
    let list = decode_slot_hashes(&hashes).unwrap();
    assert_eq!(list[0], (1, block(1).hash));
    assert_eq!(list.len(), 512);
}

#[test]
fn resets_keep_what_is_durable() {
    let (accountsdb, appender) = fresh();
    let mut keeper = open(&mut builder(), accountsdb, &appender.ledger);
    let mirror: Pubkey = [31; 32];
    let durable: Pubkey = [32; 32];
    keeper
        .accountsdb
        .store(vec![
            entry(mirror, 1, AccountMode::ReadOnly),
            entry(durable, 2, AccountMode::Delegated),
        ])
        .unwrap();
    let (event, result) = keeper.reset(5);
    result.unwrap();
    assert!(matches!(event, Event::Reset(5)));
    assert!(keeper.accountsdb.loader().load(&mirror).is_none());
    assert_eq!(keeper.accountsdb.loader().load(&durable).unwrap().lamports, 2);
}

#[test]
fn storage_is_judged_before_use() {
    let ledger = LedgerPosition { head: 3, transactions: 10 };
    let opened = |superblock, transactions, validation| Opened { superblock, transactions, validation };
    let judge = |recovery: Recovery, opened| recovery.judge(opened, ledger);
    assert!(matches!(
        judge(Recovery::Original, opened(2, 10, Ok(()))),
        RecoveryAction::Accept { drop_backup: false }
    ));
    assert!(matches!(judge(Recovery::Original, opened(1, 10, Ok(()))), RecoveryAction::Restore));
    assert!(matches!(judge(Recovery::Original, opened(2, 9, Ok(()))), RecoveryAction::Restore));
    assert!(matches!(
        judge(Recovery::Restored, opened(1, 0, Ok(()))),
        RecoveryAction::Accept { drop_backup: true }
    ));
    assert!(matches!(
        judge(Recovery::Restored, opened(2, 10, Err(AccountsDBError::Corruption))),
        RecoveryAction::Revert(KeeperError::Snapshot(SnapshotError::Missing))
    ));
    assert!(matches!(
        judge(Recovery::Original, opened(2, 10, Err(AccountsDBError::Serde))),
        RecoveryAction::Fail(KeeperError::AccountsDB(AccountsDBError::Serde))
    ));
    assert!(matches!(
        Recovery::Original.unarchived(Err(KeeperError::IO)),
        Err(RecoveryAction::Revert(KeeperError::IO))
    ));
    assert!(matches!(Recovery::Original.unarchived(Ok(())), Ok(Recovery::Restored)));
    assert!(matches!(newest_snapshot(&vec![true, true, false]), Ok(1)));
    assert!(matches!(
        newest_snapshot(&vec![false]),
        Err(KeeperError::Snapshot(SnapshotError::Missing))
    ));
}

#[test]
fn replay_starts_behind_the_last_seal() {
    let (accountsdb, appender) = fresh();
    let mut keeper = open(&mut builder(), accountsdb, &appender.ledger);
    assert_eq!(keeper.replay(None), None);
    assert_eq!(keeper.replay(Some(4)), Some(keeper.accountsdb.superblock()));
    let (_, result) = keeper.blocks().append(block(4), true);
    result.unwrap();
    assert_eq!(keeper.replay(Some(4)), None);
    assert_eq!(
        keeper.superblocks().sealed(),
        SuperblockSeal { id: 0, checksum: keeper.accountsdb.checksum(), transactions: 0 }
    );
}

#[test]
fn registrations_go_to_their_streams() {
    let (accountsdb, appender) = fresh();
    let mut keeper = open(&mut builder(), accountsdb, &appender.ledger);
    assert_eq!(keeper.accounts().subscribe(&[1; 32], 1), 8);
    assert_eq!(keeper.accounts().subscribe_program(&[1; 32], 2), 16);
    assert_eq!(keeper.transactions().subscribe_logs(&[1; 32], 3), 8);
    assert_eq!(keeper.blocks().subscribe(4), 32);
    assert_eq!(keeper.accounts().subscribe_snapshots(5), 4);
    keeper.transactions().subscribe_signature(&[1; 64], 6);
    assert_eq!(keeper.subscriptions.accounts.receivers(&[1; 32]), vec![1]);
    assert_eq!(keeper.subscriptions.programs.receivers(&[1; 32]), vec![2]);
    assert_eq!(keeper.subscriptions.logs.receivers(&[1; 32]), vec![3]);
    assert_eq!(keeper.subscriptions.blocks.receivers(&[]), vec![4]);
    assert_eq!(keeper.subscriptions.snapshots.receivers(&[]), vec![5]);
    assert_eq!(keeper.subscriptions.signatures.senders.receivers(&[1; 64]), vec![6]);
    assert!(matches!(keeper.transactions().subscribe_processed(), Ok(1024)));
    assert!(matches!(keeper.transactions().subscribe_service_messages(), Ok(64)));
    assert!(matches!(keeper.accounts().subscribe_evictions(), Ok(32)));
    assert!(matches!(
        keeper.accounts().subscribe_evictions(),
        Err(KeeperError::SubscriptionRegistered(_))
    ));
    let seal = SuperblockSeal { id: 3, checksum: 4, transactions: 5 };
    assert!(matches!(keeper.superblocks().bootstrap(seal), Event::Bootstrap(adopted) if adopted == seal));
}

#[test]
fn required_features_are_those_of_the_runtime() {
    let expected: Vec<Pubkey> = [
        agave_feature_set::curve25519_syscall_enabled::ID,
        agave_feature_set::curve25519_restrict_msm_length::ID,
        agave_feature_set::enable_poseidon_syscall::ID,
        agave_feature_set::enable_sbpf_v3_deployment_and_execution::ID,
        agave_feature_set::virtual_address_space_adjustments::ID,
        agave_feature_set::syscall_parameter_address_restrictions::ID,
        agave_feature_set::get_sysvar_syscall_enabled::ID,
        agave_feature_set::ed25519_program_enabled::ID,
        agave_feature_set::secp256k1_program_enabled::ID,
        agave_feature_set::enable_secp256r1_precompile::ID,
    ]
    .iter()
    .map(|id| id.to_bytes())
    .collect();
    assert_eq!(features(), expected);
}

#[test]
fn reopening_right_after_a_seal_keeps_the_history() {
    let (accountsdb, mut appender) = fresh();
    let mut keeper = open(&mut builder(), accountsdb, &appender.ledger);
    for slot in 1..=3 {
        append_block(&mut keeper, &mut appender, block(slot));
    }
    let seal = SuperblockSeal { checksum: 0, id: 1, transactions: 0 };
    append(&mut appender, Event::Superblock(seal));
    let history = retained_history(&appender.ledger, 1, 4).unwrap();
    let slots: Vec<Slot> = history.iter().map(|entry| entry.block.slot).collect();
    assert_eq!(slots, vec![3, 2, 1]);
    let mut settings = builder();
    settings.follower = true;
    let mut reopened = open(&mut settings, close(keeper), &appender.ledger);
    assert_eq!(reopened.blocks().latest(), block(3));
    for slot in 1..=3 {
        assert!(reopened.blocks().is_valid(&block(slot).hash));
    }
}

#[test]
fn executions_name_the_accounts_of_their_transaction() {
    let view = TransactionView {
        version: TransactionVersion::V1,
        signatures: vec![[2; 64]],
        accounts: vec![[5; 32], [6; 32]],
        blockhash: [0; 32],
        message: Vec::new(),
    };
    let mut record =
        ExecutionRecord { slot: 4, result: Ok(executed(Ok(()))), balances: None };
    let commit = execution_commit(view.signatures[0], &mut record);
    let header = commit.header;
    match execution_event(&view, Execution { header, details: vec![1, 2] }) {
        Event::Execution { execution, accounts } => {
            assert_eq!(execution.header, header);
            assert_eq!(execution.details, vec![1, 2]);
            assert_eq!(accounts, view.accounts);
        }
        other => panic!("unexpected event {other:?}"),
    }
}

#[test]
fn rent_has_to_be_computable() {
    let mut settings = builder();
    assert!(settings.rent_is_known());
    settings.programs.push(([8; 32], vec![0; 1000]));
    assert!(settings.rent_is_known());

    let one = [0, 0, 0, 0, 0, 0, 240, 63];
    let two = [0, 0, 0, 0, 0, 0, 0, 64];
    let known = |lamports_per_byte, exemption_threshold, len| {
        Rent { lamports_per_byte, exemption_threshold, burn_percent: 50 }.is_known(len)
    };
    assert!(known(1759197129867, one, 10485760));
    assert!(!known(1759197129868, one, 0));
    assert!(known(879598564933, two, 10485760));
    assert!(!known(879598564934, two, 0));
    assert!(known(u64::MAX / 128, [0; 8], 0));
    assert!(!known(u64::MAX / 128, [0; 8], 1));
    assert!(!known(1, one, 10485761));

    settings.rent.lamports_per_byte = u64::MAX;
    assert!(!settings.rent_is_known());
}
