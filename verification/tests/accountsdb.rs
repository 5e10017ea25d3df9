//! Flows through the two backends of account storage.

use engine::accountsdb::db::AccountsDB;
use engine::accountsdb::defrag::{Defragged, Hole, Move, Run};
use engine::accountsdb::layout::Extent;
use engine::accountsdb::readers::{Admission, PauseOutcome, Readers};
use engine::accountsdb::snapshot::{
    active_dir, backup_dir, backup_paths, is_snapshot, snapshot_name, volatile_file, BackupOp,
};
use engine::accountsdb::storage::{DatabaseMeta, Limits, Stats, PAGE_UNITS};
use engine::accountsdb::store::page_units;
use engine::accountsdb::volatile::VolatileStore;
use engine::accountsdb::AccountsDBError;
use engine::types::{
    Account, AccountMode, AccountSharedData, CoWAccount, DirtyMarkers, Pubkey,
};

/// Smallest remainder that packing leaves behind.
const MIN_REMAINDER: u32 = 33;

fn limits() -> Limits {
    Limits { block: 16 << 20, map: 1 << 40 }
}

fn db() -> AccountsDB {
    AccountsDB::new(limits(), Vec::new())
}

fn key(n: u64) -> Pubkey {
    let mut key = [0u8; 32];
    key[..8].copy_from_slice(&n.to_be_bytes());
    key[24..].copy_from_slice(&(n.wrapping_mul(0x9E37_79B9_7F4A_7C15)).to_be_bytes());
    key
}

/// Units of an account with so much data.
fn units(len: usize) -> u32 {
    21 + (len as u32).div_ceil(8)
}

fn build(lamports: u64, data: Vec<u8>, owner: Pubkey, mode: AccountMode) -> AccountSharedData {
    AccountSharedData {
        account: Account {
            lamports,
            owner,
            mode,
            slot: 0,
            executable: false,
            units: units(data.len()),
            data,
        },
        cow: CoWAccount::Owned,
        markers: DirtyMarkers { owner: true, content: true },
    }
}

fn mutable_data(lamports: u64, data: Vec<u8>, owner: &Pubkey) -> AccountSharedData {
    build(lamports, data, *owner, AccountMode::Delegated)
}

fn delegated(lamports: u64) -> AccountSharedData {
    build(lamports, Vec::new(), [0; 32], AccountMode::Delegated)
}

fn read_only(lamports: u64, owner: Pubkey) -> AccountSharedData {
    build(lamports, Vec::new(), owner, AccountMode::ReadOnly)
}

fn mutable_units(lamports: u64, units: u32, owner: &Pubkey) -> AccountSharedData {
    let mut account = mutable_data(lamports, Vec::new(), owner);
    account.account.units = units;
    account
}

fn store(db: &mut AccountsDB, pubkey: Pubkey, account: AccountSharedData) {
    db.store(vec![(pubkey, account)]).unwrap();
}

fn in_persisted(db: &AccountsDB, pubkey: &Pubkey) -> bool {
    db.persisted.contains(pubkey)
}

fn in_volatile(db: &AccountsDB, pubkey: &Pubkey) -> bool {
    db.volatile.contains(pubkey)
}

fn program(db: &mut AccountsDB, owner: &Pubkey) -> Vec<Pubkey> {
    db.program(owner).into_iter().map(|(k, _)| k).collect()
}

fn lamports(db: &mut AccountsDB, pubkey: &Pubkey) -> u64 {
    db.loader().load(pubkey).unwrap().lamports
}

/// A persisted account comes back as a view of its image, a volatile one as a value.
fn reload(db: &mut AccountsDB, pubkey: &Pubkey) -> AccountSharedData {
    let cow = if db.volatile.contains(pubkey) { CoWAccount::Owned } else { CoWAccount::Borrowed };
    AccountSharedData {
        account: db.loader().load(pubkey).unwrap(),
        cow,
        markers: DirtyMarkers { owner: false, content: false },
    }
}

fn transition(account: &mut AccountSharedData, mode: AccountMode) {
    account.account.mode = mode;
    account.markers.content = true;
}

fn set_owner(account: &mut AccountSharedData, owner: Pubkey) {
    account.account.owner = owner;
    account.markers.owner = true;
}

fn set_lamports(account: &mut AccountSharedData, lamports: u64) {
    account.account.lamports = lamports;
    account.markers.content = true;
}

fn close(db: &mut AccountsDB, pubkey: &Pubkey) {
    let mut account = reload(db, pubkey);
    transition(&mut account, AccountMode::Closed);
    store(db, *pubkey, account);
}

fn cursor(db: &AccountsDB) -> u32 {
    db.persisted.meta.cursor
}

fn offset(db: &AccountsDB, pubkey: &Pubkey) -> u32 {
    db.persisted.index.offset(pubkey).unwrap()
}

fn defrag_to_stable(db: &mut AccountsDB) -> u32 {
    let mut total = 0;
    loop {
        let pass = db.persisted.defragment();
        total += pass.reclaimed;
        if !pass.changed() {
            return total;
        }
    }
}

/// Closes the store and opens it again with what was dumped.
fn reopen(db: AccountsDB, dump: Vec<(Pubkey, Account)>) -> AccountsDB {
    AccountsDB { persisted: db.persisted, volatile: VolatileStore::new(dump) }
}

#[test]
fn test_routing_and_persistence_flips() {
    let mut db = db();
    let (p, q) = (key(1), key(2));
    let (a, b) = (key(3), key(4));

    let aacc = build(10, Vec::new(), p, AccountMode::Delegated);
    let bacc = read_only(20, p);
    db.store(vec![(a, aacc), (b, bacc)]).unwrap();
    assert!(in_persisted(&db, &a) && !in_volatile(&db, &a));
    assert!(in_volatile(&db, &b) && !in_persisted(&db, &b));

    assert_eq!(db.loader().load(&a).unwrap().lamports, 10);
    assert_eq!(db.loader().load(&b).unwrap().lamports, 20);
    assert!(db.loader().contains(&a) && db.loader().contains(&b));
    assert!(!db.loader().contains(&key(99)));
    assert_eq!(db.loader().mode(&a), Some(AccountMode::Delegated));
    assert_eq!(db.loader().mode(&key(99)), None);

    // Persisted account is yielded before the volatile one.
    assert_eq!(program(&mut db, &p), vec![a, b]);

    let mut borrowed = reload(&mut db, &a);
    set_owner(&mut borrowed, q);
    store(&mut db, a, borrowed);
    assert_eq!(program(&mut db, &p), vec![b]);
    assert_eq!(program(&mut db, &q), vec![a]);

    let mut flip = reload(&mut db, &a);
    transition(&mut flip, AccountMode::Transient);
    set_lamports(&mut flip, 30);
    store(&mut db, a, flip);
    assert!(in_persisted(&db, &a) && !in_volatile(&db, &a));
    assert_eq!(lamports(&mut db, &a), 30);

    // Resolving to ReadOnly evicts the persisted copy into volatile.
    let mut flip = reload(&mut db, &a);
    transition(&mut flip, AccountMode::ReadOnly);
    store(&mut db, a, flip);
    assert!(!in_persisted(&db, &a) && in_volatile(&db, &a));
    assert_eq!(lamports(&mut db, &a), 30);

    // ReadOnly to Delegated evicts it back into persisted.
    let mut flip = reload(&mut db, &a);
    transition(&mut flip, AccountMode::Delegated);
    store(&mut db, a, flip);
    assert!(in_persisted(&db, &a) && !in_volatile(&db, &a));

    close(&mut db, &a);
    assert!(!in_persisted(&db, &a) && !in_volatile(&db, &a));

    // A reset drops the mirror only.
    let c = key(5);
    store(&mut db, c, mutable_data(50, vec![], &p));
    db.reset();
    assert!(!in_volatile(&db, &b));
    assert!(in_persisted(&db, &c));
}

fn assert_migrated(db: &mut AccountsDB, key: &Pubkey, persisted: bool, owner: Pubkey) {
    assert_eq!(in_persisted(db, key), persisted);
    assert_eq!(in_volatile(db, key), !persisted);
    assert_eq!(program(db, &owner), vec![*key]);
    let account = reload(db, key).account;
    assert_eq!(account.owner, owner);
    assert_eq!(account.lamports, 20);
    assert_eq!(account.data, vec![1, 2, 3, 4]);
}

#[test]
fn test_store_kind_migration_invariants() {
    let (persisted_owner, volatile_owner, reuse_owner) = (key(1), key(2), key(3));
    let (k, reuse) = (key(4), key(5));
    let data = vec![1, 2, 3, 4];

    let mut db = db();
    store(&mut db, k, mutable_data(10, data.clone(), &persisted_owner));
    let base = cursor(&db);

    let mut account = reload(&mut db, &k);
    transition(&mut account, AccountMode::ReadOnly);
    set_owner(&mut account, volatile_owner);
    set_lamports(&mut account, 20);
    store(&mut db, k, account);

    assert_migrated(&mut db, &k, false, volatile_owner);
    assert!(program(&mut db, &persisted_owner).is_empty());

    // A same-sized persisted account reuses the span released by the migration.
    store(&mut db, reuse, mutable_data(30, data.clone(), &reuse_owner));
    assert_eq!(cursor(&db), base);

    let dump = db.volatile.dump();
    let mut db = reopen(db, dump);
    assert_migrated(&mut db, &k, false, volatile_owner);
    assert!(program(&mut db, &persisted_owner).is_empty());

    let mut account = reload(&mut db, &k);
    transition(&mut account, AccountMode::Delegated);
    set_owner(&mut account, persisted_owner);
    store(&mut db, k, account);
    assert_migrated(&mut db, &k, true, persisted_owner);
    assert!(program(&mut db, &volatile_owner).is_empty());

    db.flush(true);
    let dump = db.volatile.dump();
    let mut db = reopen(db, dump);
    assert_migrated(&mut db, &k, true, persisted_owner);
    assert!(program(&mut db, &volatile_owner).is_empty());
    assert_eq!(program(&mut db, &reuse_owner), vec![reuse]);
}

#[test]
fn test_persistence_reopen_and_validate() {
    let keys: Vec<Pubkey> = (0..8).map(key).collect();
    let mut db = db();
    for (i, k) in keys.iter().enumerate() {
        store(&mut db, *k, delegated(100 + i as u64));
    }
    let discarded = key(100);
    store(&mut db, discarded, delegated(0));
    close(&mut db, &discarded);
    db.set_slot(42);
    db.flush(true);
    assert!(db.validate().is_ok());
    let (checksum, before) = (db.checksum(), cursor(&db));

    let mut db = reopen(db, Vec::new());
    assert!(db.validate().is_ok());
    let reclaimed = db.compact();
    assert_eq!(reclaimed, (before - cursor(&db)) as u64);
    assert!(reclaimed > 0);
    for (i, k) in keys.iter().enumerate() {
        assert_eq!(lamports(&mut db, k), 100 + i as u64);
    }
    assert_eq!(db.slot(), 42);
    assert_eq!(db.checksum(), checksum);
    assert!(db.validate().is_ok());
}

#[test]
fn test_dump_restores_volatile_on_reopen() {
    let k = key(1);
    let mut db = db();
    store(&mut db, k, read_only(42, [0; 32]));
    let dump = db.volatile.dump();
    assert_eq!(dump.len(), 1);

    let mut db = reopen(db, dump);
    assert_eq!(lamports(&mut db, &k), 42);
    assert!(in_volatile(&db, &k));
    assert_eq!(volatile_file(), "volatile.db");
}

#[test]
fn test_freelist_reuse_and_growth() {
    let mut db = db();
    let stats = |db: &AccountsDB| (db.persisted.meta.stats.allocs, db.persisted.meta.stats.reallocs);

    let k1 = key(1);
    store(&mut db, k1, delegated(1));
    let base = cursor(&db);
    let (_, reallocs) = stats(&db);

    close(&mut db, &k1);
    store(&mut db, key(2), delegated(2));
    assert_eq!(cursor(&db), base);
    assert_eq!(stats(&db).1, reallocs + 1);

    let (allocs, _) = stats(&db);
    for i in 0..8 {
        store(&mut db, key(10 + i), delegated(1));
    }
    assert!(cursor(&db) > base);
    assert!(stats(&db).0 > allocs);
}

#[test]
fn test_defragment_preserves_live_accounts() {
    let mut db = db();
    let owner = key(500);
    let keys: Vec<Pubkey> = (0..16).map(key).collect();
    for (i, k) in keys.iter().enumerate() {
        store(&mut db, *k, mutable_data(100 + i as u64, vec![], &owner));
    }

    let mut live = Vec::new();
    for (i, k) in keys.iter().enumerate() {
        if i % 2 == 0 {
            close(&mut db, k);
        } else {
            live.push((*k, 100 + i as u64));
        }
    }
    db.flush(true);
    let checksum = db.checksum();
    let before = cursor(&db);

    let reclaimed = defrag_to_stable(&mut db);
    assert_eq!(reclaimed, before - cursor(&db));
    assert!(cursor(&db) < before);

    for (k, lam) in &live {
        let acc = db.loader().load(k).unwrap();
        assert_eq!(acc.lamports, *lam);
        assert_eq!(acc.owner, owner);
    }
    let mut owned = program(&mut db, &owner);
    owned.sort();
    let mut expected: Vec<Pubkey> = live.iter().map(|(k, _)| *k).collect();
    expected.sort();
    assert_eq!(owned, expected);

    db.flush(true);
    assert_eq!(db.checksum(), checksum);
}

#[test]
fn test_defragment_best_fit_and_deferred_holes() {
    let owner = key(500);
    let small = mutable_units(1, 21, &owner);
    let small_units = small.account.units;
    let medium = mutable_units(2, MIN_REMAINDER, &owner);
    let medium_units = medium.account.units;

    // Two adjacent holes form one run.
    {
        let mut db = db();
        let (small_hole, medium_hole, anchor, medium_key, small_key) =
            (key(1), key(2), key(3), key(4), key(5));
        store(&mut db, small_hole, small.clone());
        store(&mut db, medium_hole, medium.clone());
        store(&mut db, anchor, small.clone());
        store(&mut db, medium_key, medium.clone());
        store(&mut db, small_key, small.clone());
        let medium_dst = offset(&db, &medium_hole);
        let small_dst = offset(&db, &small_hole);
        close(&mut db, &small_hole);
        close(&mut db, &medium_hole);

        let pass = db.persisted.defragment();
        assert_eq!(pass.moved, 2);
        assert_eq!(pass.reclaimed, small_units + medium_units);
        assert!(offset(&db, &medium_key) == medium_dst);
        assert!(offset(&db, &small_key) == small_dst);
        assert_eq!(lamports(&mut db, &medium_key), 2);
        assert_eq!(lamports(&mut db, &small_key), 1);
        assert_eq!(lamports(&mut db, &anchor), 1);

        let before = cursor(&db);
        store(&mut db, key(6), small.clone());
        assert_eq!(cursor(&db), before + small_units);
    }

    // Exact fit wins first, and a hole with a short remainder is skipped.
    {
        let mut db = db();
        let short_remainder = (MIN_REMAINDER - 1) & !1;
        let near_units = small_units + short_remainder;
        let near = mutable_units(3, near_units, &owner);
        let wide = mutable_units(4, 2 * small_units + medium_units, &owner);
        let (near_hole, anchor_a, wide_hole, anchor_b, exact_hole) =
            (key(1), key(2), key(3), key(4), key(5));
        let (anchor_c, wide_key_a, wide_key_b, exact_key) = (key(6), key(7), key(8), key(9));
        store(&mut db, near_hole, near);
        store(&mut db, anchor_a, small.clone());
        store(&mut db, wide_hole, wide);
        store(&mut db, anchor_b, small.clone());
        store(&mut db, exact_hole, small.clone());
        store(&mut db, anchor_c, small.clone());
        store(&mut db, wide_key_a, small.clone());
        store(&mut db, wide_key_b, small.clone());
        store(&mut db, exact_key, small.clone());
        let near_dst = offset(&db, &near_hole);
        let wide_dst = offset(&db, &wide_hole);
        let exact_dst = offset(&db, &exact_hole);
        close(&mut db, &near_hole);
        close(&mut db, &wide_hole);
        close(&mut db, &exact_hole);

        let pass = db.persisted.defragment();
        assert_eq!(pass.moved, 3);
        assert_eq!(pass.reclaimed, 63);
        assert!(offset(&db, &wide_key_b) == wide_dst);
        assert!(offset(&db, &exact_key) == exact_dst);

        let before = cursor(&db);
        store(&mut db, key(20), medium.clone());
        assert_eq!(cursor(&db), before);
        let near_key = key(21);
        store(&mut db, near_key, mutable_units(5, near_units, &owner));
        assert_eq!(cursor(&db), before);
        assert!(offset(&db, &near_key) == near_dst);
    }

    // A source becomes a hole only for the next pass.
    {
        let mut db = db();
        let second = mutable_units(3, 2 * medium_units - small_units, &owner);
        let (first_hole, middle, second_hole, tail) = (key(1), key(2), key(3), key(4));
        store(&mut db, first_hole, small.clone());
        store(&mut db, middle, small.clone());
        store(&mut db, second_hole, second);
        store(&mut db, tail, medium.clone());
        let middle_dst = offset(&db, &first_hole);
        let tail_dst = offset(&db, &middle);
        close(&mut db, &first_hole);
        close(&mut db, &second_hole);
        let before = cursor(&db);

        let pass = db.persisted.defragment();
        assert_eq!((pass.moved, pass.reclaimed), (1, 0));
        assert_eq!(cursor(&db), before);
        assert!(offset(&db, &middle) == middle_dst);

        assert_eq!(db.compact(), 2 * medium_units as u64);
        assert!(offset(&db, &tail) == tail_dst);
        assert_eq!(lamports(&mut db, &middle), 1);
        assert_eq!(lamports(&mut db, &tail), 2);

        let before = cursor(&db);
        store(&mut db, key(30), small.clone());
        assert_eq!(cursor(&db), before + small_units);
    }
}

#[test]
fn test_snapshot_export_and_volatile_restore() {
    let (a, b) = (key(1), key(2));
    let mut src = db();
    src.store(vec![(a, delegated(10)), (b, read_only(20, [0; 32]))]).unwrap();
    let (name, dump) = src.snapshot(1);
    assert_eq!(name, "snapshot-000000001");
    assert!(is_snapshot(&name));

    let mut db = reopen(src, dump);
    assert!(db.validate().is_ok());
    assert_eq!(db.superblock(), 1);
    assert_eq!(lamports(&mut db, &a), 10);
    assert_eq!(lamports(&mut db, &b), 20);
    assert!(in_persisted(&db, &a));
    assert!(in_volatile(&db, &b));

    // A backup renames the active tree out and back.
    let saved = backup_paths(BackupOp::Save);
    assert_eq!(saved, (active_dir().to_string(), backup_dir()));
    let restored = backup_paths(BackupOp::Restore);
    assert_eq!(restored, (backup_dir(), active_dir().to_string()));
}

#[test]
fn test_corruption_detection() {
    let mut db = db();
    for i in 0..4 {
        store(&mut db, key(i), delegated(1));
    }
    db.flush(true);
    assert!(db.validate().is_ok());

    db.persisted.meta.checksum = 0xDEAD_BEEF;
    assert_eq!(db.validate(), Err(AccountsDBError::Corruption));
}

#[test]
fn test_freelist_multi_duplicate_reuse() {
    let mut db = db();
    const N: u64 = 6;
    let keys: Vec<Pubkey> = (0..N).map(key).collect();
    for k in &keys {
        store(&mut db, *k, delegated(1));
    }
    let base = cursor(&db);
    for k in &keys {
        close(&mut db, k);
    }
    let reused = db.persisted.meta.stats.reallocs;
    for i in 0..N {
        store(&mut db, key(100 + i), delegated(2));
    }
    assert_eq!(cursor(&db), base);
    assert_eq!(db.persisted.meta.stats.reallocs, reused + N);
}

#[test]
fn test_volatile_owner_remap() {
    let mut db = db();
    let (x, y) = (key(1), key(2));
    let k = key(3);

    store(&mut db, k, read_only(10, x));
    assert_eq!(program(&mut db, &x), vec![k]);

    let mut moved = reload(&mut db, &k);
    set_owner(&mut moved, y);
    store(&mut db, k, moved);

    assert_eq!(program(&mut db, &x), Vec::<Pubkey>::new());
    assert_eq!(program(&mut db, &y), vec![k]);
    assert!(in_volatile(&db, &k));
}

#[test]
fn test_variable_sizes_and_exact_freelist() {
    let mut db = db();
    let owner = key(500);

    let big = key(1);
    store(&mut db, big, mutable_data(1, vec![0; 4096], &owner));
    close(&mut db, &big);
    let before = db.persisted.meta.stats.reallocs;
    let small = key(2);
    store(&mut db, small, mutable_data(2, vec![0; 64], &owner));
    assert_eq!(db.persisted.meta.stats.reallocs, before);

    let sizes = [8usize, 512, 100, 4096, 1];
    let mut live = Vec::new();
    for (i, &space) in sizes.iter().enumerate() {
        let k = key(10 + i as u64);
        let data: Vec<u8> = (0..space).map(|b| (b as u8).wrapping_add(i as u8)).collect();
        store(&mut db, k, mutable_data(i as u64, data.clone(), &owner));
        live.push((k, data));
    }
    close(&mut db, &small);

    defrag_to_stable(&mut db);
    for (k, data) in &live {
        assert_eq!(&db.loader().load(k).unwrap().data, data);
    }
}

#[test]
fn test_checksum_order_independent() {
    let keys: Vec<Pubkey> = (0..8).map(key).collect();
    let checksum = |order: &[usize]| {
        let mut db = db();
        for &i in order {
            store(&mut db, keys[i], delegated(100 + i as u64));
        }
        db.flush(true);
        db.checksum()
    };
    let forward: Vec<usize> = (0..keys.len()).collect();
    let reversed: Vec<usize> = (0..keys.len()).rev().collect();
    assert_eq!(checksum(&forward), checksum(&reversed));
    assert_ne!(checksum(&forward), checksum(&forward[..4]));
}

#[test]
fn test_large_accounts_growth_and_defrag() {
    const SIZE: usize = 2 << 20;
    const COUNT: usize = 12;

    let mut db = db();
    let owner = key(500);
    let baseline = db.persisted.meta.stats.resizes;
    let keys: Vec<Pubkey> = (0..COUNT as u64).map(key).collect();
    for (i, k) in keys.iter().enumerate() {
        store(&mut db, *k, mutable_data(i as u64, vec![i as u8; SIZE], &owner));
    }
    assert!(db.persisted.meta.stats.resizes > baseline);

    let mut live = Vec::new();
    for (i, k) in keys.iter().enumerate() {
        if i % 2 == 0 {
            close(&mut db, k);
        } else {
            live.push((*k, i as u8));
        }
    }
    let before = cursor(&db);

    let reclaimed = defrag_to_stable(&mut db);
    assert_eq!(reclaimed, before - cursor(&db));
    assert!(cursor(&db) < before);

    for (k, fill) in &live {
        let acc = db.loader().load(k).unwrap();
        assert_eq!(acc.data.len(), SIZE);
        assert!(acc.data.iter().all(|&b| b == *fill));
    }
}

#[test]
fn failed_batches_leave_no_trace() {
    let mut db = AccountsDB::new(Limits { block: 4096, map: 8192 }, Vec::new());
    store(&mut db, key(1), delegated(1));
    let checksum = db.compute_checksum();
    let mut huge = delegated(3);
    huge.account.units = 1 << 30;
    let result = db.store(vec![(key(1), delegated(2)), (key(2), huge), (key(3), read_only(5, [0; 32]))]);
    assert_eq!(result, Err(AccountsDBError::Allocation));
    assert_eq!(lamports(&mut db, &key(1)), 1);
    assert!(!db.loader().contains(&key(2)));
    assert!(!db.loader().contains(&key(3)), "the volatile part is not stored either");
    assert_eq!(db.compute_checksum(), checksum);
}

#[test]
fn commits_count_transactions() {
    let mut db = db();
    db.commit(Vec::new()).unwrap();
    db.commit(vec![(key(1), delegated(7))]).unwrap();
    assert_eq!(db.transactions(), 2);
    assert_eq!(lamports(&mut db, &key(1)), 7);
    let mut huge = delegated(3);
    huge.account.units = u32::MAX;
    assert_eq!(db.commit(vec![(key(2), huge)]), Err(AccountsDBError::Allocation));
    assert_eq!(db.transactions(), 2, "a failed commit is not counted");
}

#[test]
fn reset_keeps_system_accounts() {
    let mut db = db();
    store(&mut db, key(1), build(1, vec![], [0; 32], AccountMode::System));
    store(&mut db, key(2), build(2, vec![], [0; 32], AccountMode::Uninit));
    db.reset();
    assert!(db.loader().contains(&key(1)));
    assert!(!db.loader().contains(&key(2)));
}

#[test]
fn foreign_formats_are_refused() {
    let mut db = db();
    db.flush(true);
    db.persisted.meta.version += 1;
    let version = db.persisted.meta.version;
    assert_eq!(db.validate(), Err(AccountsDBError::UnsupportedVersion(version)));
}

#[test]
fn snapshot_names_tell_superblocks_apart() {
    assert_eq!(snapshot_name(0), "snapshot-000000000");
    assert_eq!(snapshot_name(12), "snapshot-000000012");
    assert_eq!(snapshot_name(1_234_567_890), "snapshot-1234567890");
    assert!(!is_snapshot("CURRENT"));
    assert_eq!(active_dir(), "CURRENT");
    assert_eq!(backup_dir(), "CURRENT.bkp");
}

#[test]
fn spans_and_counters() {
    let hole = Hole::new((5, 10));
    assert_eq!((hole.offset, hole.units, hole.end()), (10, 5, 15));
    assert!(!Defragged { moved: 0, reclaimed: 0 }.changed());
    assert!(Defragged { moved: 1, reclaimed: 0 }.changed());
    assert!(Defragged { moved: 0, reclaimed: 1 }.changed());

    let limits = limits();
    let mut stats: Stats = DatabaseMeta::new(&limits).stats;
    let base = stats.reads;
    stats.read();
    stats.read();
    assert_eq!(stats.reads, base + 2);
    stats.commit();
    stats.count_alloc();
    stats.realloc();
    stats.compact(3);
    stats.remove();
    stats.resize();
    assert_eq!((stats.commits, stats.allocs, stats.reallocs), (1, 1, 1));
    assert_eq!((stats.compactions, stats.removals), (3, 1));
}

#[test]
fn runs_hand_out_their_lowest_units() {
    let mut run = Run { parts: 0..1, free: Hole { offset: 10, units: 8 } };
    assert_eq!(run.take(3), 10);
    assert_eq!((run.free.offset, run.free.units), (13, 5));
    let source = Move { src: 40, dst: 10, units: 3 }.source();
    assert_eq!((source.offset, source.units), (40, 3));
}

#[test]
fn readers_hold_relocation_back() {
    let mut readers = Readers::new();
    let worker = readers.register().unwrap();
    assert_eq!(readers.enter(worker), Admission::Admitted);
    assert_eq!(readers.pause(Some(worker)), PauseOutcome::WouldBlock);
    assert_eq!(readers.pause(None), PauseOutcome::Closed);
    assert_eq!(readers.pause(None), PauseOutcome::Busy);
    assert!(!readers.drained(), "an active reader blocks relocation");

    // A nested scope passes the closed barrier, a new one does not.
    assert_eq!(readers.enter(worker), Admission::Admitted);
    readers.exit(worker);
    readers.exit(worker);
    assert!(readers.drained());
    assert_eq!(readers.enter(worker), Admission::Withdrawn);
    assert!(readers.drained(), "a withdrawn reader leaves no trace");
    assert_eq!(readers.register(), None);

    readers.reopen();
    assert_eq!(readers.enter(worker), Admission::Admitted);
}

#[test]
fn the_last_write_of_a_batch_is_read() {
    let mut db = db();
    store(&mut db, key(3), delegated(7));
    db.store(vec![
        (key(1), delegated(10)),
        (key(2), read_only(20, [5; 32])),
        (key(1), read_only(11, [6; 32])),
        (key(2), delegated(21)),
    ])
    .unwrap();
    assert_eq!(lamports(&mut db, &key(1)), 11);
    assert_eq!(lamports(&mut db, &key(2)), 21);
    assert_eq!(lamports(&mut db, &key(3)), 7, "other accounts are kept");
    let mut closed = reload(&mut db, &key(2));
    transition(&mut closed, AccountMode::Closed);
    store(&mut db, key(2), closed);
    assert!(db.loader().load(&key(2)).is_none());
}

#[test]
fn outgrown_accounts_get_whole_pages() {
    let mut db = db();
    let owner = key(1);
    let small = key(2);
    store(&mut db, small, mutable_units(1, 100, &owner));
    assert_eq!((offset(&db, &small), cursor(&db)), (0, 100));
    store(&mut db, small, mutable_units(2, 101, &owner));
    assert_eq!((offset(&db, &small), cursor(&db)), (100, 100 + PAGE_UNITS));
    for units in [300, 512, 90] {
        store(&mut db, small, mutable_units(units as u64, units, &owner));
        assert_eq!((offset(&db, &small), cursor(&db)), (100, 100 + PAGE_UNITS), "it stays");
        assert_eq!(lamports(&mut db, &small), units as u64);
    }
    store(&mut db, small, mutable_units(3, 513, &owner));
    assert_eq!((offset(&db, &small), cursor(&db)), (100 + PAGE_UNITS, 100 + 3 * PAGE_UNITS));
    let other = key(3);
    store(&mut db, other, mutable_units(4, 100, &owner));
    assert_eq!(offset(&db, &other), 0, "a new account takes a span of its own size");
    assert_eq!(page_units(1), PAGE_UNITS);
    assert_eq!(page_units(PAGE_UNITS), PAGE_UNITS);
    assert_eq!(page_units(u32::MAX), u32::MAX);
}

#[test]
fn no_address_is_held_twice() {
    let mut db = db();
    let (owner, pubkey) = (key(1), key(2));
    store(&mut db, pubkey, mutable_data(5, Vec::new(), &owner));
    assert!(in_persisted(&db, &pubkey) && !in_volatile(&db, &pubkey));
    store(&mut db, pubkey, read_only(6, owner));
    assert!(!in_persisted(&db, &pubkey) && in_volatile(&db, &pubkey));
    assert_eq!(lamports(&mut db, &pubkey), 6);
    assert_eq!(program(&mut db, &owner), vec![pubkey]);
    store(&mut db, pubkey, mutable_data(7, Vec::new(), &owner));
    assert!(in_persisted(&db, &pubkey) && !in_volatile(&db, &pubkey));
    assert_eq!(lamports(&mut db, &pubkey), 7);
}

#[test]
fn compacting_again_does_nothing() {
    let mut db = db();
    let owner = key(1);
    let keys: Vec<Pubkey> = (10..20).map(key).collect();
    for (i, pubkey) in keys.iter().enumerate() {
        store(&mut db, *pubkey, mutable_units(i as u64, 40, &owner));
    }
    for pubkey in keys.iter().step_by(2) {
        close(&mut db, pubkey);
    }
    let checksum = db.compute_checksum();
    let owned = |db: &mut AccountsDB| {
        let mut list = program(db, &owner);
        list.sort_unstable();
        list
    };
    let before = owned(&mut db);
    assert!(db.compact() > 0);
    assert_eq!(db.compute_checksum(), checksum);
    assert_eq!(owned(&mut db), before);
    assert!(db.validate().is_ok());
    let places: Vec<u32> = before.iter().map(|pubkey| offset(&db, pubkey)).collect();
    let (end, counted) = (cursor(&db), db.persisted.meta.stats.compactions);
    assert_eq!(db.compact(), 0);
    assert_eq!(before.iter().map(|pubkey| offset(&db, pubkey)).collect::<Vec<_>>(), places);
    assert_eq!((cursor(&db), db.persisted.meta.stats.compactions), (end, counted));
}

/// Every span of the persisted backend, in ascending order.
fn extents(db: &AccountsDB, keys: &[Pubkey]) -> Vec<Extent> {
    let images = keys.iter().filter_map(|key| db.persisted.image(key));
    let mut list: Vec<(u32, Extent)> =
        images.map(|image| (image.offset, Extent::Image(image))).collect();
    let holes = db.persisted.free_spans();
    list.extend(holes.into_iter().map(|hole| (hole.offset, Extent::Free(hole))));
    list.sort_by_key(|(offset, _)| *offset);
    list.into_iter().map(|(_, extent)| extent).collect()
}

#[test]
fn places_are_read_back() {
    let mut db = db();
    let owner = key(1);
    let keys: Vec<Pubkey> = (10..16).map(key).collect();
    for (i, pubkey) in keys.iter().enumerate() {
        store(&mut db, *pubkey, mutable_units(i as u64, 40 + i as u32, &owner));
    }
    close(&mut db, &keys[2]);
    store(&mut db, keys[0], mutable_units(9, 50, &owner));
    db.flush(true);
    let mirrored = read_only(5, owner).account;
    let dump = vec![(key(20), mirrored.clone()), (keys[1], mirrored)];
    let meta = db.persisted.meta;
    let again = AccountsDB::restore(limits(), meta, extents(&db, &keys), dump);
    let mut again = again.unwrap_or_else(|error| panic!("{error:?}"));
    assert!(again.validate().is_ok());
    assert_eq!(again.persisted.meta, meta);
    assert_eq!(again.persisted.free_spans(), db.persisted.free_spans());
    for pubkey in [keys[0], keys[3], keys[4], keys[5]] {
        assert_eq!(offset(&again, &pubkey), offset(&db, &pubkey));
        assert_eq!(lamports(&mut again, &pubkey), lamports(&mut db, &pubkey));
        assert!(!in_volatile(&again, &pubkey));
    }
    assert_eq!(offset(&again, &keys[1]), offset(&db, &keys[1]));
    assert!(in_volatile(&again, &keys[1]), "the dump is restored as it is");
    assert_eq!(lamports(&mut again, &keys[1]), 5, "and read first");
    assert!(!in_persisted(&again, &keys[2]));
    assert_eq!(lamports(&mut again, &key(20)), 5);
    assert!(again.persisted.image(&key(20)).is_none());
}

#[test]
fn unsound_places_are_refused() {
    let mut db = db();
    let owner = key(1);
    let keys: Vec<Pubkey> = (10..13).map(key).collect();
    for pubkey in &keys {
        store(&mut db, *pubkey, mutable_units(1, 40, &owner));
    }
    let meta = db.persisted.meta;
    let refused = |meta: DatabaseMeta, list: Vec<Extent>| {
        matches!(
            AccountsDB::restore(limits(), meta, list, Vec::new()),
            Err(AccountsDBError::Corruption)
        )
    };
    assert!(!refused(meta, extents(&db, &keys)));
    let mut list = extents(&db, &keys);
    list.swap(0, 1);
    assert!(refused(meta, list), "they have to ascend");
    let mut list = extents(&db, &keys);
    list.push(Extent::Free(Hole { offset: 119, units: 1 }));
    assert!(refused(meta, list), "they must not share a unit");
    assert!(refused(DatabaseMeta { cursor: 119, ..meta }, extents(&db, &keys)));
    assert!(refused(DatabaseMeta { len: 8, ..meta }, extents(&db, &keys)));
    let twice = vec![keys[0], keys[0]];
    let mut list = extents(&db, &twice);
    if let Extent::Image(image) = &mut list[1] {
        image.offset = 40;
    }
    assert!(refused(meta, list), "an account has one image");
    let mut list = extents(&db, &keys);
    if let Extent::Image(image) = &mut list[1] {
        image.account.mode = AccountMode::ReadOnly;
    }
    assert!(refused(meta, list), "only decided accounts are persisted");
}

#[test]
fn outgrown_views_are_moved() {
    let mut db = db();
    let owner = key(1);
    store(&mut db, key(10), mutable_units(1, 40, &owner));
    store(&mut db, key(11), mutable_units(2, 40, &owner));
    let (first, end) = (offset(&db, &key(10)), cursor(&db));

    // A view that fits is written where it lies.
    let mut view = reload(&mut db, &key(10));
    assert_eq!(view.cow, CoWAccount::Borrowed);
    set_lamports(&mut view, 3);
    store(&mut db, key(10), view);
    assert_eq!((offset(&db, &key(10)), cursor(&db)), (first, end));
    assert_eq!(lamports(&mut db, &key(10)), 3);

    // One that does not fit would reach into its neighbour and is moved.
    let mut view = reload(&mut db, &key(10));
    set_lamports(&mut view, 4);
    view.account.units = 41;
    store(&mut db, key(10), view);
    let image = db.persisted.image(&key(10)).unwrap();
    assert_eq!((image.offset, image.account.units, image.span), (end, 41, 512));
    assert_eq!(lamports(&mut db, &key(10)), 4);
    assert_eq!(lamports(&mut db, &key(11)), 2);
    assert_eq!(db.persisted.free_spans(), vec![Hole { offset: first, units: 40 }]);

    // An image that is larger than its span is unsound.
    let keys = vec![key(10), key(11)];
    let mut list = extents(&db, &keys);
    for extent in &mut list {
        if let Extent::Image(image) = extent {
            image.account.units = image.span + 1;
        }
    }
    assert!(matches!(
        AccountsDB::restore(limits(), db.persisted.meta, list, Vec::new()),
        Err(AccountsDBError::Corruption)
    ));
}
