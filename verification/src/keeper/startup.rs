//! What a start leaves behind: the accounts that are stored before anything is served, and what
//! the caches know.

use vstd::prelude::*;

use crate::keeper::builder::{
    block_signatures, retained_block, retained_blocks, slots_of, statuses, KeeperBuilder, SeedView,
};
use crate::keeper::cache::{
    history_views, known_hashes, latest_block, pushed_block, pushed_hashes, pushed_history,
    slots_fit, CacheSeed, Caches, HistoryView, SignatureStatus,
};
use crate::keeper::error::KeeperError;
use crate::keeper::expiring::{
    has_key, hash_key, hash_keys_identify, pushed, signature_key, swept, sweeps_only_expired,
    CacheKey, ExpiringRecord, EVICTION_LIMIT,
};
use crate::keeper::features::required_features;
use crate::keeper::sysvar::{
    clock_at, clocks_are_read_back, rent_is_read_back, rent_minimum, schedule_at,
    schedules_are_read_back, slot_hashes_bytes, slot_hashes_roundtrip, Rent, SlotHash,
};
use crate::ledger::error::LedgerError;
use crate::ledger::reader::{read_status, LedgerView};
use crate::ledger::request::TransactionStatus;
use crate::types::{AccountMode, AccountView, Block, BlockHash, Pubkey, Signature, Slot};

verus! {

/// The account at `pubkey` is seeded with runtime state: it is owned by `owner`, pays no rent,
/// and is not mirrored from elsewhere.
pub open spec fn holds_state(
    seed: SeedView,
    rent: Rent,
    pubkey: Pubkey,
    owner: Pubkey,
    executable: bool,
) -> bool {
    &&& seed.pubkey == pubkey
    &&& seed.owner == owner
    &&& seed.executable == executable
    &&& seed.mode == AccountMode::System
    &&& seed.lamports == rent_minimum(
        rent.lamports_per_byte,
        rent.exemption_threshold@,
        seed.data.len(),
    )
}

proof fn part_is_seeded(
    builder: KeeperBuilder,
    history: Seq<HistoryView>,
    stored: Option<Seq<SlotHash>>,
    sponsored: bool,
    seed: SeedView,
)
    requires
        builder.feature_seeds(required_features().len()).contains(seed) || builder.builtin_seeds(
            builder.builtins@.len(),
        ).contains(seed) || builder.program_seeds(builder.programs@.len()).contains(seed)
            || builder.sysvar_seeds(history, stored).contains(seed) || builder.sponsor_seeds(
            sponsored,
        ).contains(seed) || crate::keeper::builder::seed_views(builder.accounts@).contains(seed),
    ensures
        builder.all_seeds(history, stored, sponsored).contains(seed),
{
    let a = builder.feature_seeds(required_features().len());
    let b = builder.builtin_seeds(builder.builtins@.len());
    let c = builder.program_seeds(builder.programs@.len());
    let d = builder.sysvar_seeds(history, stored);
    let e = builder.sponsor_seeds(sponsored);
    let f = crate::keeper::builder::seed_views(builder.accounts@);
    joined(a, b, seed);
    joined(a + b, c, seed);
    joined(a + b + c, d, seed);
    joined(a + b + c + d, e, seed);
    joined(a + b + c + d + e, f, seed);
}

proof fn joined(a: Seq<SeedView>, b: Seq<SeedView>, seed: SeedView)
    ensures
        (a + b).contains(seed) <==> a.contains(seed) || b.contains(seed),
{
    let all = a + b;
    if a.contains(seed) {
        let k = choose|k: int| 0 <= k < a.len() && a[k] == seed;
        assert(all[k] == seed);
    }
    if b.contains(seed) {
        let k = choose|k: int| 0 <= k < b.len() && b[k] == seed;
        assert(all[a.len() + k] == seed);
    }
    if all.contains(seed) {
        let k = choose|k: int| 0 <= k < all.len() && all[k] == seed;
        if k < a.len() {
            assert(a[k] == seed);
        } else {
            assert(b[k - a.len()] == seed);
        }
    }
}

/// Every feature that the engine needs gets an account that says it is active from slot zero on.
pub proof fn features_are_seeded(
    builder: KeeperBuilder,
    history: Seq<HistoryView>,
    stored: Option<Seq<SlotHash>>,
    sponsored: bool,
    i: int,
)
    requires
        0 <= i < required_features().len(),
    ensures
        exists|seed: SeedView|
            {
                &&& #[trigger] builder.all_seeds(history, stored, sponsored).contains(seed)
                &&& holds_state(
                    seed,
                    builder.rent,
                    required_features()[i],
                    builder.addresses.feature_gate,
                    false,
                )
                &&& seed.data == seq![1u8, 0u8, 0u8, 0u8, 0u8, 0u8, 0u8, 0u8, 0u8]
            },
{
    let list = builder.feature_seeds(required_features().len());
    let seed = list[i];
    assert(list.contains(seed));
    part_is_seeded(builder, history, stored, sponsored, seed);
    reveal_with_fuel(crate::bytes::le_bytes, 9);
    assert(seed.data =~= seq![1u8, 0u8, 0u8, 0u8, 0u8, 0u8, 0u8, 0u8, 0u8]);
}

/// Every builtin program gets an executable account without data, owned by the native loader.
pub proof fn builtins_are_seeded(
    builder: KeeperBuilder,
    history: Seq<HistoryView>,
    stored: Option<Seq<SlotHash>>,
    sponsored: bool,
    i: int,
)
    requires
        0 <= i < builder.builtins@.len(),
    ensures
        exists|seed: SeedView|
            {
                &&& #[trigger] builder.all_seeds(history, stored, sponsored).contains(seed)
                &&& holds_state(
                    seed,
                    builder.rent,
                    builder.builtins@[i],
                    builder.addresses.native_loader,
                    true,
                )
                &&& seed.data.len() == 0
            },
{
    let list = builder.builtin_seeds(builder.builtins@.len());
    let seed = list[i];
    assert(list.contains(seed));
    part_is_seeded(builder, history, stored, sponsored, seed);
}

/// Every loaded program gets an executable account that holds the program, owned by the loader.
pub proof fn programs_are_seeded(
    builder: KeeperBuilder,
    history: Seq<HistoryView>,
    stored: Option<Seq<SlotHash>>,
    sponsored: bool,
    i: int,
)
    requires
        0 <= i < builder.programs@.len(),
    ensures
        exists|seed: SeedView|
            {
                &&& #[trigger] builder.all_seeds(history, stored, sponsored).contains(seed)
                &&& holds_state(
                    seed,
                    builder.rent,
                    builder.programs@[i].0,
                    builder.addresses.loader,
                    true,
                )
                &&& seed.data == builder.programs@[i].1@
            },
{
    let list = builder.program_seeds(builder.programs@.len());
    let seed = list[i];
    assert(list.contains(seed));
    part_is_seeded(builder, history, stored, sponsored, seed);
}

/// Every plain account that was asked for is seeded as it was given.
pub proof fn plain_accounts_are_seeded(
    builder: KeeperBuilder,
    history: Seq<HistoryView>,
    stored: Option<Seq<SlotHash>>,
    sponsored: bool,
    i: int,
)
    requires
        0 <= i < builder.accounts@.len(),
    ensures
        builder.all_seeds(history, stored, sponsored).contains(builder.accounts@[i]@),
{
    let list = crate::keeper::builder::seed_views(builder.accounts@);
    assert(list[i] == builder.accounts@[i]@);
    assert(list.contains(list[i]));
    part_is_seeded(builder, history, stored, sponsored, list[i]);
}

/// The paying account is seeded with the largest balance that leaves the sign bit free, owned by
/// nobody but the system and decided about by the engine; one that exists is left alone.
pub proof fn payer_is_seeded_once(
    builder: KeeperBuilder,
    history: Seq<HistoryView>,
    stored: Option<Seq<SlotHash>>,
)
    ensures
        exists|seed: SeedView|
            {
                &&& #[trigger] builder.all_seeds(history, stored, false).contains(seed)
                &&& seed.pubkey == builder.authority
                &&& seed.lamports == 0x7fff_ffff_ffff_ffff
                &&& seed.owner == builder.addresses.system
                &&& seed.mode == AccountMode::Magic
                &&& !seed.executable
                &&& seed.data.len() == 0
            },
        builder.all_seeds(history, stored, false).len() == builder.all_seeds(
            history,
            stored,
            true,
        ).len() + 1,
        forall|seed: SeedView| #[trigger]
            builder.all_seeds(history, stored, true).contains(seed) ==> builder.all_seeds(
                history,
                stored,
                false,
            ).contains(seed),
{
    let list = builder.sponsor_seeds(false);
    assert(list[0] == builder.sponsor_seed());
    assert(list.contains(list[0]));
    part_is_seeded(builder, history, stored, false, list[0]);
    let front = builder.feature_seeds(required_features().len()) + builder.builtin_seeds(
        builder.builtins@.len(),
    ) + builder.program_seeds(builder.programs@.len()) + builder.sysvar_seeds(history, stored);
    let tail = crate::keeper::builder::seed_views(builder.accounts@);
    assert forall|seed: SeedView| #[trigger]
        builder.all_seeds(history, stored, true).contains(seed) implies builder.all_seeds(
        history,
        stored,
        false,
    ).contains(seed) by {
        joined(front + builder.sponsor_seeds(true), tail, seed);
        joined(front, builder.sponsor_seeds(true), seed);
        joined(front, list, seed);
        joined(front + list, tail, seed);
    }
}

/// Nothing else is seeded than features, programs, sysvars, the paying account, and what was
/// asked for.
pub proof fn nothing_else_is_seeded(
    builder: KeeperBuilder,
    history: Seq<HistoryView>,
    stored: Option<Seq<SlotHash>>,
    sponsored: bool,
)
    ensures
        builder.all_seeds(history, stored, sponsored).len() == required_features().len()
            + builder.builtins@.len() + builder.programs@.len() + builder.accounts@.len() + 7 + (
        if stored is None {
            1int
        } else {
            0
        }) + (if sponsored {
            0int
        } else {
            1
        }),
{
}

/// The sysvars that are seeded at every start: the clock is one slot ahead of the latest block
/// and shows its time, rent is that of the settings, epochs are as long as superblocks, and fees,
/// the last restart, and rewards are zero. The account that shows a transaction its instructions
/// is empty.
pub proof fn sysvars_are_seeded(
    builder: KeeperBuilder,
    history: Seq<HistoryView>,
    stored: Option<Seq<SlotHash>>,
    sponsored: bool,
)
    requires
        latest_block(history, stored).slot < u64::MAX,
    ensures
        ({
            let all = builder.all_seeds(history, stored, sponsored);
            let at = builder.addresses;
            let latest = latest_block(history, stored);
            &&& exists|seed: SeedView|
                {
                    &&& #[trigger] all.contains(seed)
                    &&& holds_state(seed, builder.rent, at.clock, at.sysvar, false)
                    &&& seed.data.len() == 40
                    &&& clock_at(seed.data).slot == latest.slot + 1
                    &&& clock_at(seed.data).unix_timestamp == latest.time
                    &&& clock_at(seed.data).epoch == 0
                    &&& clock_at(seed.data).epoch_start_timestamp == 0
                    &&& clock_at(seed.data).leader_schedule_epoch == 0
                }
            &&& exists|seed: SeedView|
                {
                    &&& #[trigger] all.contains(seed)
                    &&& holds_state(seed, builder.rent, at.rent, at.sysvar, false)
                    &&& seed.data.len() == 17
                    &&& crate::ledger::codec::wide_at(seed.data, 0)
                        == builder.rent.lamports_per_byte
                    &&& seed.data.subrange(8, 16) == builder.rent.exemption_threshold@
                    &&& seed.data[16] == builder.rent.burn_percent
                }
            &&& exists|seed: SeedView|
                {
                    &&& #[trigger] all.contains(seed)
                    &&& holds_state(seed, builder.rent, at.epoch_schedule, at.sysvar, false)
                    &&& seed.data.len() == 33
                    &&& schedule_at(seed.data).slots_per_epoch == if builder.superblock == 0 {
                        432000
                    } else {
                        builder.superblock
                    }
                    &&& !schedule_at(seed.data).warmup
                    &&& schedule_at(seed.data).first_normal_slot == 0
                    &&& schedule_at(seed.data).first_normal_epoch == 0
                }
            &&& has_zeros(all, builder.rent, at.fees, at.sysvar, 8)
            &&& has_zeros(all, builder.rent, at.last_restart_slot, at.sysvar, 8)
            &&& has_zeros(all, builder.rent, at.instructions, at.sysvar, 0)
            &&& has_zeros(all, builder.rent, at.epoch_rewards, at.sysvar, 81)
        }),
{
    let all = builder.all_seeds(history, stored, sponsored);
    let at = builder.addresses;
    let latest = latest_block(history, stored);
    let list = builder.sysvar_seeds(history, stored);
    let k: int = if stored is None {
        1
    } else {
        0
    };
    assert(list.len() == k + 7);
    assert forall|j: int| 0 <= j < list.len() implies all.contains(#[trigger] list[j]) by {
        assert(list.contains(list[j]));
        part_is_seeded(builder, history, stored, sponsored, list[j]);
    }
    let none = Seq::<u8>::empty();
    let clock = KeeperBuilder::clock_after(latest);
    clocks_are_read_back(clock, none);
    assert(list[k].data + none =~= list[k].data);
    assert(all.contains(list[k]));
    rent_is_read_back(builder.rent, none);
    assert(list[k + 1].data + none =~= list[k + 1].data);
    assert(all.contains(list[k + 1]));
    let schedule = crate::keeper::sysvar::schedule_of(builder.superblock);
    schedules_are_read_back(schedule, none);
    assert(list[k + 5].data + none =~= list[k + 5].data);
    assert(all.contains(list[k + 5]));
    assert(all.contains(list[k + 2]));
    assert(all.contains(list[k + 3]));
    assert(all.contains(list[k + 4]));
    assert(all.contains(list[k + 6]));
}

/// An account of that many zeros is seeded.
pub open spec fn has_zeros(
    seeds: Seq<SeedView>,
    rent: Rent,
    pubkey: Pubkey,
    owner: Pubkey,
    n: nat,
) -> bool {
    exists|seed: SeedView|
        {
            &&& #[trigger] seeds.contains(seed)
            &&& holds_state(seed, rent, pubkey, owner, false)
            &&& seed.data.len() == n
            &&& forall|i: int| 0 <= i < n ==> seed.data[i] == 0
        }
}

/// The latest block at startup: where slot hashes are stored, their first one with the hash
/// before it as its parent, at the time of the newest retained block; else the newest retained
/// block. With neither, it is the empty block at slot zero.
pub proof fn newest_known_block_is_the_latest(
    history: Seq<HistoryView>,
    stored: Option<Seq<SlotHash>>,
)
    ensures
        stored is None && history.len() > 0 ==> latest_block(history, stored) == history[0].block,
        stored matches Some(list) ==> list.len() > 0 ==> {
            let latest = latest_block(history, stored);
            &&& latest.slot == list[0].0
            &&& latest.hash == list[0].1
            &&& latest.time == if history.len() > 0 {
                history[0].block.time
            } else {
                0
            }
            &&& list.len() > 1 ==> latest.parent == list[1].1
        },
        (stored is None || stored->0.len() == 0) && history.len() == 0 ==> {
            let latest = latest_block(history, stored);
            &&& latest.slot == 0
            &&& latest.time == 0
            &&& latest.hash@ == Seq::new(32, |i: int| 0u8)
            &&& latest.parent == latest.hash
        },
{
    let zeros: [u8; 32] = [
        0u8, 0u8, 0u8, 0u8, 0u8, 0u8, 0u8, 0u8,
        0u8, 0u8, 0u8, 0u8, 0u8, 0u8, 0u8, 0u8,
        0u8, 0u8, 0u8, 0u8, 0u8, 0u8, 0u8, 0u8,
        0u8, 0u8, 0u8, 0u8, 0u8, 0u8, 0u8, 0u8,
    ];
    assert(zeros@ =~= Seq::new(32, |i: int| 0u8));
    assert(crate::keeper::cache::zero_hash()@ == zeros@);
}

/// Stored slot hashes come first among what is known, and blocks of the ledger that go further
/// back follow them: everything is known that either of them holds at a position.
pub proof fn known_hashes_reach_back(history: Seq<HistoryView>, stored: Option<Seq<SlotHash>>, i: int)
    ensures
        ({
            let known = known_hashes(history, stored);
            let front = if stored is Some {
                stored->0
            } else {
                Seq::empty()
            };
            &&& known.len() == if front.len() < history.len() {
                history.len()
            } else {
                front.len()
            }
            &&& 0 <= i < front.len() ==> known[i] == front[i]
            &&& front.len() <= i < history.len() ==> known[i] == (
                history[i].block.slot,
                history[i].block.hash,
            )
        }),
{
}

/// A record under `key` that expires at `expires`.
pub open spec fn remembers<V>(
    records: Seq<ExpiringRecord<V>>,
    key: CacheKey,
    value: V,
    expires: int,
) -> bool {
    exists|r: ExpiringRecord<V>| #[trigger]
        records.contains(r) && r.key == key && r.value == value && r.expires == expires
}

proof fn memory_lasts<V>(
    records: Seq<ExpiringRecord<V>>,
    key: CacheKey,
    value: V,
    expires: int,
    other: CacheKey,
    news: V,
    slot: Slot,
    ttl: Slot,
)
    requires
        remembers(records, key, value, expires),
        slot < expires,
    ensures
        remembers(pushed(records, other, news, slot, ttl), key, value, expires),
{
    let r = choose|r: ExpiringRecord<V>| #[trigger]
        records.contains(r) && r.key == key && r.value == value && r.expires == expires;
    let k = choose|k: int| 0 <= k < records.len() && records[k] == r;
    let left = swept(records, slot, EVICTION_LIMIT as nat);
    let after = pushed(records, other, news, slot, ttl);
    sweeps_only_expired(records, slot, EVICTION_LIMIT as nat);
    let n = records.len() - left.len();
    if k < n {
        assert(records[k].expires <= slot);
    }
    assert(left[k - n] == r);
    assert(after[k - n] == r);
    assert(after.contains(r));
}

proof fn memory_begins<V>(
    records: Seq<ExpiringRecord<V>>,
    key: CacheKey,
    value: V,
    slot: Slot,
    ttl: Slot,
)
    requires
        slot + ttl <= u64::MAX,
        !has_key(records, key),
    ensures
        remembers(pushed(records, key, value, slot, ttl), key, value, slot + ttl),
{
    let left = swept(records, slot, EVICTION_LIMIT as nat);
    let after = pushed(records, key, value, slot, ttl);
    sweeps_only_expired(records, slot, EVICTION_LIMIT as nat);
    let n = records.len() - left.len();
    if has_key(left, key) {
        let k = choose|k: int| 0 <= k < left.len() && (#[trigger] left[k]).key == key;
        assert(records[n + k].key == key);
    }
    assert(after[after.len() - 1] == after.last());
    assert(after.contains(after.last()));
}

/// Only what was pushed is there.
proof fn pushed_came_from<V>(
    records: Seq<ExpiringRecord<V>>,
    key: CacheKey,
    value: V,
    slot: Slot,
    ttl: Slot,
    other: CacheKey,
)
    requires
        has_key(pushed(records, key, value, slot, ttl), other),
    ensures
        other == key || has_key(records, other),
{
    let left = swept(records, slot, EVICTION_LIMIT as nat);
    let after = pushed(records, key, value, slot, ttl);
    sweeps_only_expired(records, slot, EVICTION_LIMIT as nat);
    let n = records.len() - left.len();
    let k = choose|k: int| 0 <= k < after.len() && (#[trigger] after[k]).key == other;
    if k < left.len() {
        assert(left[k] == after[k]);
        assert(records[n + k].key == other);
    }
}

/// A hash is accepted after startup only if it is known.
pub proof fn only_known_hashes_are_accepted(
    hashes: Seq<(Slot, BlockHash)>,
    ttl: Slot,
    n: nat,
    hash: BlockHash,
)
    requires
        n <= hashes.len(),
        has_key(pushed_hashes(Seq::empty(), hashes, ttl, n), hash_key(hash)),
    ensures
        exists|i: int| 0 <= i < n && (#[trigger] hashes[i]).1 == hash,
    decreases n,
{
    if n > 0 {
        let (slot, newest) = hashes[n - 1];
        let before = pushed_hashes(Seq::empty(), hashes, ttl, (n - 1) as nat);
        pushed_came_from(before, hash_key(newest), slot, slot, ttl, hash_key(hash));
        hash_keys_identify(newest, hash);
        if hash_key(newest) == hash_key(hash) {
            assert(hashes[n - 1].1 == hash);
        } else {
            only_known_hashes_are_accepted(hashes, ttl, (n - 1) as nat, hash);
            let i = choose|i: int| 0 <= i < n - 1 && (#[trigger] hashes[i]).1 == hash;
            assert(hashes[i].1 == hash);
        }
    }
}

/// A follower that has just started accepts every known hash whose window has not passed: no
/// later block is as many slots ahead as hashes live.
pub proof fn followers_accept_known_hashes(
    hashes: Seq<(Slot, BlockHash)>,
    ttl: Slot,
    n: nat,
    i: int,
)
    requires
        0 <= i < n <= hashes.len(),
        crate::keeper::cache::slots_fit(hashes, ttl),
        forall|a: int, b: int|
            0 <= a < b < hashes.len() ==> (#[trigger] hashes[a]).1 != (#[trigger] hashes[b]).1,
        forall|j: int| i < j < n ==> (#[trigger] hashes[j]).0 < hashes[i].0 + ttl,
    ensures
        remembers(
            pushed_hashes(Seq::empty(), hashes, ttl, n),
            hash_key(hashes[i].1),
            hashes[i].0,
            hashes[i].0 + ttl,
        ),
        has_key(pushed_hashes(Seq::empty(), hashes, ttl, n), hash_key(hashes[i].1)),
    decreases n,
{
    let (slot, newest) = hashes[n - 1];
    let before = pushed_hashes(Seq::empty(), hashes, ttl, (n - 1) as nat);
    let after = pushed_hashes(Seq::empty(), hashes, ttl, n);
    if i == n - 1 {
        if has_key(before, hash_key(newest)) {
            only_known_hashes_are_accepted(hashes, ttl, (n - 1) as nat, newest);
            let k = choose|k: int| 0 <= k < n - 1 && (#[trigger] hashes[k]).1 == newest;
            assert(hashes[k].1 != hashes[n - 1].1);
        }
        assert(hashes[n - 1].0 + ttl <= u64::MAX);
        memory_begins(before, hash_key(newest), slot, slot, ttl);
    } else {
        followers_accept_known_hashes(hashes, ttl, (n - 1) as nat, i);
        memory_lasts(
            before,
            hash_key(hashes[i].1),
            hashes[i].0,
            hashes[i].0 + ttl,
            hash_key(newest),
            slot,
            slot,
            ttl,
        );
    }
    let r = choose|r: ExpiringRecord<Slot>| #[trigger]
        after.contains(r) && r.key == hash_key(hashes[i].1) && r.value == hashes[i].0 && r.expires
            == hashes[i].0 + ttl;
    let k = choose|k: int| 0 <= k < after.len() && after[k] == r;
    assert(after[k].key == hash_key(hashes[i].1));
}

/// A signature of a retained block is known after startup, with its status, if its block is
/// still within the window of the newest one and no other retained signature begins alike.
pub proof fn retained_signatures_are_known(
    history: Seq<HistoryView>,
    ttl: Slot,
    from: int,
    i: int,
    j: int,
)
    requires
        0 <= from <= i < history.len(),
        0 <= j < history[i].signatures.len(),
        forall|a: int| 0 <= a < history.len() ==> (#[trigger] history[a]).block.slot + ttl <= u64::MAX,
        forall|a: int| from <= a < i ==> (#[trigger] history[a]).block.slot < history[i].block.slot
            + ttl,
        ttl > 0,
        forall|a: int, b: int|
            #![trigger history[a].signatures[b]]
            0 <= a < history.len() && 0 <= b < history[a].signatures.len() && (a != i || b != j)
                ==> signature_key(history[a].signatures[b].signature) != signature_key(
                history[i].signatures[j].signature,
            ),
    ensures
        remembers(
            pushed_history(history, ttl, from),
            signature_key(history[i].signatures[j].signature),
            history[i].signatures[j].status,
            history[i].block.slot + ttl,
        ),
    decreases history.len() - from,
{
    let key = signature_key(history[i].signatures[j].signature);
    let before = pushed_history(history, ttl, from + 1);
    if from == i {
        older_signatures(history, ttl, from + 1, key, i);
        signature_is_pushed(before, history[i], ttl, history[i].signatures.len(), j);
    } else {
        retained_signatures_are_known(history, ttl, from + 1, i, j);
        signatures_pass(
            before,
            history[from],
            ttl,
            history[from].signatures.len(),
            key,
            history[i].signatures[j].status,
            history[i].block.slot + ttl,
        );
    }
}

proof fn signatures_pass(
    records: Seq<ExpiringRecord<Option<TransactionStatus>>>,
    entry: HistoryView,
    ttl: Slot,
    n: nat,
    key: CacheKey,
    value: Option<TransactionStatus>,
    expires: int,
)
    requires
        n <= entry.signatures.len(),
        remembers(records, key, value, expires),
        entry.block.slot < expires,
    ensures
        remembers(pushed_block(records, entry, ttl, n), key, value, expires),
    decreases n,
{
    if n > 0 {
        signatures_pass(records, entry, ttl, (n - 1) as nat, key, value, expires);
        let item = entry.signatures[n - 1];
        memory_lasts(
            pushed_block(records, entry, ttl, (n - 1) as nat),
            key,
            value,
            expires,
            signature_key(item.signature),
            item.status,
            entry.block.slot,
            ttl,
        );
    }
}

proof fn signature_is_pushed(
    records: Seq<ExpiringRecord<Option<TransactionStatus>>>,
    entry: HistoryView,
    ttl: Slot,
    n: nat,
    j: int,
)
    requires
        0 <= j < n <= entry.signatures.len(),
        entry.block.slot + ttl <= u64::MAX,
        ttl > 0,
        !has_key(records, signature_key(entry.signatures[j].signature)),
        forall|b: int|
            0 <= b < entry.signatures.len() && b != j ==> signature_key(
                (#[trigger] entry.signatures[b]).signature,
            ) != signature_key(entry.signatures[j].signature),
    ensures
        remembers(
            pushed_block(records, entry, ttl, n),
            signature_key(entry.signatures[j].signature),
            entry.signatures[j].status,
            entry.block.slot + ttl,
        ),
    decreases n,
{
    let key = signature_key(entry.signatures[j].signature);
    let before = pushed_block(records, entry, ttl, (n - 1) as nat);
    let item = entry.signatures[n - 1];
    if j == n - 1 {
        earlier_signatures(records, entry, ttl, (n - 1) as nat, key, j);
        memory_begins(before, key, item.status, entry.block.slot, ttl);
    } else {
        signature_is_pushed(records, entry, ttl, (n - 1) as nat, j);
        memory_lasts(
            before,
            key,
            entry.signatures[j].status,
            entry.block.slot + ttl,
            signature_key(item.signature),
            item.status,
            entry.block.slot,
            ttl,
        );
    }
}

proof fn earlier_signatures(
    records: Seq<ExpiringRecord<Option<TransactionStatus>>>,
    entry: HistoryView,
    ttl: Slot,
    n: nat,
    key: CacheKey,
    j: int,
)
    requires
        n <= entry.signatures.len(),
        !has_key(records, key),
        forall|b: int|
            0 <= b < n ==> signature_key((#[trigger] entry.signatures[b]).signature) != key,
    ensures
        !has_key(pushed_block(records, entry, ttl, n), key),
    decreases n,
{
    if n > 0 {
        earlier_signatures(records, entry, ttl, (n - 1) as nat, key, j);
        let item = entry.signatures[n - 1];
        let before = pushed_block(records, entry, ttl, (n - 1) as nat);
        if has_key(pushed_block(records, entry, ttl, n), key) {
            pushed_came_from(
                before,
                signature_key(item.signature),
                item.status,
                entry.block.slot,
                ttl,
                key,
            );
        }
    }
}

proof fn older_signatures(history: Seq<HistoryView>, ttl: Slot, from: int, key: CacheKey, i: int)
    requires
        0 <= i < from <= history.len(),
        forall|a: int, b: int|
            #![trigger history[a].signatures[b]]
            from <= a < history.len() && 0 <= b < history[a].signatures.len() ==> signature_key(
                history[a].signatures[b].signature,
            ) != key,
    ensures
        !has_key(pushed_history(history, ttl, from), key),
    decreases history.len() - from,
{
    if from < history.len() {
        older_signatures(history, ttl, from + 1, key, i);
        assert forall|b: int| 0 <= b < history[from].signatures.len() implies signature_key(
            (#[trigger] history[from].signatures[b]).signature,
        ) != key by {}
        earlier_signatures(
            pushed_history(history, ttl, from + 1),
            history[from],
            ttl,
            history[from].signatures.len(),
            key,
            0,
        );
    }
}

/// Blocks are read back at startup as far as signatures and hashes are remembered, and at least
/// as many as slot hashes are kept: the slots from one on that is that far behind up to the one
/// that account storage is at, and no others.
pub proof fn enough_blocks_are_read_back(builder: KeeperBuilder, slot: Slot)
    ensures
        ({
            let (from, to) = builder.retained_slots(slot);
            let count = builder.retained();
            &&& count >= 512
            &&& builder.blocktime > 0 ==> count * builder.blocktime >= 75000000000
            &&& builder.blocktime > 0 ==> count * builder.blocktime >= 60000000000
            &&& from <= slot
            &&& slot < u64::MAX ==> to == slot + 1
            &&& slot - from < count
            &&& from > 0 ==> slot - from + 1 == count
        }),
{
    if builder.blocktime > 0 {
        let count = builder.retained();
        window_is_covered(75000000000, builder.blocktime);
        window_is_covered(60000000000, builder.blocktime);
        let a = slots_of(75000000000, builder.blocktime);
        let b = slots_of(60000000000, builder.blocktime);
        assert(count >= a && count >= b);
        assert(count * builder.blocktime >= a * builder.blocktime) by (nonlinear_arith)
            requires
                count >= a,
                builder.blocktime > 0,
        ;
        assert(count * builder.blocktime >= b * builder.blocktime) by (nonlinear_arith)
            requires
                count >= b,
                builder.blocktime > 0,
        ;
    }
}

/// A window takes as many slots as cover it.
pub proof fn window_is_covered(window: u64, blocktime: u64)
    requires
        blocktime > 0,
    ensures
        slots_of(window, blocktime) * blocktime >= window,
        slots_of(window, blocktime) > 0 ==> (slots_of(window, blocktime) - 1) * blocktime < window,
{
    let whole = window / blocktime;
    let rest = window % blocktime;
    vstd::arithmetic::div_mod::lemma_fundamental_div_mod(window as int, blocktime as int);
    assert(window == blocktime * whole + rest);
    assert(blocktime * whole == whole * blocktime) by (nonlinear_arith);
    assert((whole - 1) * blocktime == whole * blocktime - blocktime) by (nonlinear_arith);
    assert((whole + 1) * blocktime == whole * blocktime + blocktime) by (nonlinear_arith);
    assert(whole == u64::MAX ==> rest == 0) by (nonlinear_arith)
        requires
            window == blocktime * whole + rest,
            blocktime > 0,
            window <= u64::MAX,
    ;
}

/// Every signature of a retained block comes with the status that the ledger has for it.
pub proof fn statuses_are_those_of_the_ledger(
    view: LedgerView,
    signatures: Seq<Signature>,
    n: nat,
    i: int,
)
    requires
        0 <= i < n <= signatures.len(),
        statuses(view, signatures, n) is Ok,
    ensures
        ({
            let list = statuses(view, signatures, n)->Ok_0;
            &&& list.len() == n
            &&& list[i].signature == signatures[i]
            &&& read_status(view.superblocks, view.oldest(), signatures[i]) == Ok::<_, LedgerError>(
                list[i].status,
            )
        }),
    decreases n,
{
    if n > 1 && i < n - 1 {
        statuses_are_those_of_the_ledger(view, signatures, (n - 1) as nat, i);
    } else if n > 1 {
        statuses_are_those_of_the_ledger(view, signatures, (n - 1) as nat, 0);
    } else {
        assert(statuses(view, signatures, 0) == Ok::<Seq<SignatureStatus>, LedgerError>(
            Seq::empty(),
        ));
    }
}

/// Every block that is read back is retained, in the order in which they were read, with all its
/// signatures in order.
pub proof fn blocks_are_retained_in_order(view: LedgerView, blocks: Seq<Block>, n: nat, i: int)
    requires
        0 <= i < n <= blocks.len(),
        retained_blocks(view, blocks, n) is Ok,
    ensures
        ({
            let list = retained_blocks(view, blocks, n)->Ok_0;
            &&& list.len() == n
            &&& list[i].block == blocks[i]
            &&& block_signatures(view, blocks[i].slot) matches Ok(signatures) && {
                &&& list[i].signatures.len() == signatures.len()
                &&& forall|j: int|
                    0 <= j < signatures.len() ==> (#[trigger] list[i].signatures[j]).signature
                        == signatures[j]
            }
        }),
    decreases n,
{
    if i < n - 1 {
        blocks_are_retained_in_order(view, blocks, (n - 1) as nat, i);
    } else {
        if n > 1 {
            blocks_are_retained_in_order(view, blocks, (n - 1) as nat, 0);
        } else {
            assert(retained_blocks(view, blocks, 0) == Ok::<Seq<HistoryView>, LedgerError>(
                Seq::empty(),
            ));
        }
        let signatures = block_signatures(view, blocks[i].slot)->Ok_0;
        let list = retained_blocks(view, blocks, n)->Ok_0;
        assert(list[i] == retained_block(view, blocks[i])->Ok_0);
        assert forall|j: int| 0 <= j < signatures.len() implies (
        #[trigger] list[i].signatures[j]).signature == signatures[j] by {
            statuses_are_those_of_the_ledger(view, signatures, signatures.len(), j);
        }
        if signatures.len() > 0 {
            statuses_are_those_of_the_ledger(view, signatures, signatures.len(), 0);
        }
    }
}

/// Caches begin with the latest block that is known; nobody has access to an account, and none was
/// written recently. A leader accepts the hash of the latest block and no other.
pub proof fn leaders_start_with_the_latest_hash(
    caches: Caches,
    seed: CacheSeed,
    block_ttl: Slot,
    signature_ttl: Slot,
    account_capacity: usize,
    hash: BlockHash,
)
    requires
        caches.starts_as(seed, block_ttl, signature_ttl, account_capacity, true),
        seed.latest.slot + block_ttl <= u64::MAX,
    ensures
        caches.blocks.latest == seed.latest,
        has_key(caches.blocks.history.queue@, hash_key(hash)) <==> hash@ == seed.latest.hash@,
        forall|key: Seq<u8>| !(#[trigger] caches.accounts.held().contains(key)),
        forall|key: Seq<u8>| !(#[trigger] caches.accounts.recent().contains(key)),
{
    let none = Seq::<ExpiringRecord<Slot>>::empty();
    let latest = seed.latest;
    let queue = pushed(none, hash_key(latest.hash), latest.slot, latest.slot, block_ttl);
    hash_keys_identify(latest.hash, hash);
    if has_key(queue, hash_key(hash)) {
        pushed_came_from(
            none,
            hash_key(latest.hash),
            latest.slot,
            latest.slot,
            block_ttl,
            hash_key(hash),
        );
    }
    if hash@ == latest.hash@ {
        assert(hash =~= latest.hash);
        memory_begins(none, hash_key(hash), latest.slot, latest.slot, block_ttl);
        let r = choose|r: ExpiringRecord<Slot>| #[trigger]
            queue.contains(r) && r.key == hash_key(hash) && r.value == latest.slot && r.expires
                == latest.slot + block_ttl;
        let k = choose|k: int| 0 <= k < queue.len() && queue[k] == r;
        assert(queue[k].key == hash_key(hash));
    }
}

/// A follower begins with every known hash whose window has not passed, and accepts no hash that
/// is not known.
pub proof fn followers_start_with_known_hashes(
    caches: Caches,
    seed: CacheSeed,
    block_ttl: Slot,
    signature_ttl: Slot,
    account_capacity: usize,
    i: int,
    hash: BlockHash,
)
    requires
        caches.starts_as(seed, block_ttl, signature_ttl, account_capacity, false),
        slots_fit(seed.hashes@, block_ttl),
        0 <= i < seed.hashes@.len(),
        forall|a: int, b: int|
            0 <= a < b < seed.hashes@.len() ==> (#[trigger] seed.hashes@[a]).1 != (
            #[trigger] seed.hashes@[b]).1,
        forall|j: int|
            i < j < seed.hashes@.len() ==> (#[trigger] seed.hashes@[j]).0 < seed.hashes@[i].0
                + block_ttl,
    ensures
        has_key(caches.blocks.history.queue@, hash_key(seed.hashes@[i].1)),
        has_key(caches.blocks.history.queue@, hash_key(hash)) ==> exists|k: int|
            0 <= k < seed.hashes@.len() && (#[trigger] seed.hashes@[k]).1 == hash,
{
    let n = seed.hashes@.len();
    followers_accept_known_hashes(seed.hashes@, block_ttl, n, i);
    if has_key(caches.blocks.history.queue@, hash_key(hash)) {
        only_known_hashes_are_accepted(seed.hashes@, block_ttl, n, hash);
    }
}

/// Caches begin with the signatures of the retained blocks and their statuses, as far as their
/// windows have not passed.
pub proof fn signatures_are_known_from_the_start(
    caches: Caches,
    seed: CacheSeed,
    block_ttl: Slot,
    signature_ttl: Slot,
    account_capacity: usize,
    leader: bool,
    i: int,
    j: int,
)
    requires
        caches.starts_as(seed, block_ttl, signature_ttl, account_capacity, leader),
        ({
            let history = history_views(seed.history@);
            &&& 0 <= i < history.len()
            &&& 0 <= j < history[i].signatures.len()
            &&& forall|a: int|
                0 <= a < history.len() ==> (#[trigger] history[a]).block.slot + signature_ttl
                    <= u64::MAX
            &&& forall|a: int|
                0 <= a < i ==> (#[trigger] history[a]).block.slot < history[i].block.slot
                    + signature_ttl
            &&& signature_ttl > 0
            &&& forall|a: int, b: int|
                #![trigger history[a].signatures[b]]
                0 <= a < history.len() && 0 <= b < history[a].signatures.len() && (a != i || b != j)
                    ==> signature_key(history[a].signatures[b].signature) != signature_key(
                    history[i].signatures[j].signature,
                )
        }),
    ensures
        ({
            let entry = history_views(seed.history@)[i];
            remembers(
                caches.signatures.queue@,
                signature_key(entry.signatures[j].signature),
                entry.signatures[j].status,
                entry.block.slot + signature_ttl,
            )
        }),
{
    retained_signatures_are_known(history_views(seed.history@), signature_ttl, 0, i, j);
}

/// The stored slot hashes are surveyed as they are stored. Where there are none, that is told;
/// those that cannot be read are an error.
pub proof fn stored_hashes_are_surveyed(
    builder: KeeperBuilder,
    account: AccountView,
    list: Seq<SlotHash>,
    tail: Seq<u8>,
)
    requires
        list.len() <= u64::MAX,
        account.data == slot_hashes_bytes(list) + tail,
    ensures
        builder.surveyed_hashes(Some(account)) == Ok::<Option<Seq<SlotHash>>, KeeperError>(
            Some(list),
        ),
        builder.surveyed_hashes(None) == Ok::<Option<Seq<SlotHash>>, KeeperError>(None),
{
    slot_hashes_roundtrip(list, tail);
}

} // verus!
