//! Cache whose entries expire by slot.

use std::collections::VecDeque;

use vstd::prelude::*;

use crate::bytes::{be_value, pow256};
use crate::types::{BlockHash, Signature, Slot};

verus! {

/// Most entries that one push sweeps.
pub const EVICTION_LIMIT: usize = 32;

/// Cache key: two numbers.
pub type CacheKey = (u128, u128);

/// Where the record of each key stands.
pub type TicketMap = scc::HashMap<CacheKey, u64>;

/// What the entries of an `scc::HashMap` from cache keys to tickets are.
pub uninterp spec fn tickets(map: TicketMap) -> Map<CacheKey, u64>;

/// An empty map, by `scc::HashMap::default`.
#[verifier::external_body]
fn tickets_new() -> (map: TicketMap)
    ensures
        tickets(map).dom() == Set::<CacheKey>::empty(),
{
    scc::HashMap::default()
}

/// Copies the ticket stored under `key`, by `scc::HashMap::read_sync`.
#[verifier::external_body]
fn tickets_read(map: &TicketMap, key: &CacheKey) -> (ticket: Option<u64>)
    ensures
        ticket is Some <==> tickets(*map).contains_key(*key),
        ticket matches Some(t) ==> t == tickets(*map)[*key],
{
    map.read_sync(key, |_, ticket| *ticket)
}

/// Stores a ticket under a key that has none, by `scc::HashMap::insert_sync`. A key that has
/// one keeps it.
#[verifier::external_body]
fn tickets_insert(map: &mut TicketMap, key: CacheKey, ticket: u64) -> (inserted: bool)
    ensures
        inserted == !tickets(*old(map)).contains_key(key),
        tickets(*final(map)) == if inserted {
            tickets(*old(map)).insert(key, ticket)
        } else {
            tickets(*old(map))
        },
{
    map.insert_sync(key, ticket).is_ok()
}

/// Removes the ticket stored under `key`, by `scc::HashMap::remove_sync`.
#[verifier::external_body]
fn tickets_remove(map: &mut TicketMap, key: &CacheKey)
    ensures
        tickets(*final(map)) == tickets(*old(map)).remove(*key),
{
    map.remove_sync(key);
}

/// Cached value with its key and the slot at which it expires.
#[derive(Debug)]
pub struct ExpiringRecord<V> {
    /// The key.
    pub key: CacheKey,
    /// The value.
    pub value: V,
    /// The slot.
    pub expires: Slot,
}

/// Cache whose entries live for some slots. An entry leaves only when another one is pushed.
pub struct ExpiringCache<V> {
    /// Tickets by key.
    pub index: TicketMap,
    /// Records in the order in which they were pushed.
    pub queue: VecDeque<ExpiringRecord<V>>,
    /// Ticket of the first record.
    pub base: u64,
    /// Slots that an entry lives.
    pub ttl: Slot,
}

/// Ticket of the record at position `i`.
pub open spec fn ticket(base: u64, i: int) -> u64 {
    ((base + i) % 0x1_0000_0000_0000_0000) as u64
}

/// Records after expired ones at the front, at most `budget` of them, were swept.
pub open spec fn swept<V>(
    records: Seq<ExpiringRecord<V>>,
    slot: Slot,
    budget: nat,
) -> Seq<ExpiringRecord<V>>
    decreases budget,
{
    if budget == 0 || records.len() == 0 || slot < records[0].expires {
        records
    } else {
        swept(records.skip(1), slot, (budget - 1) as nat)
    }
}

/// Whether a record has the key.
pub open spec fn has_key<V>(records: Seq<ExpiringRecord<V>>, key: CacheKey) -> bool {
    exists|i: int| 0 <= i < records.len() && (#[trigger] records[i]).key == key
}

/// Records after a push: expired ones are swept first, and a key that is still there keeps
/// its value and its slot.
pub open spec fn pushed<V>(
    records: Seq<ExpiringRecord<V>>,
    key: CacheKey,
    value: V,
    slot: Slot,
    ttl: Slot,
) -> Seq<ExpiringRecord<V>> {
    let left = swept(records, slot, EVICTION_LIMIT as nat);
    if has_key(left, key) {
        left
    } else {
        left.push(ExpiringRecord { key, value, expires: (slot + ttl) as u64 })
    }
}

/// The value that a key has.
pub open spec fn value_of<V>(records: Seq<ExpiringRecord<V>>, key: CacheKey) -> Option<V> {
    if has_key(records, key) {
        Some(
            records[choose|i: int|
                0 <= i < records.len() && (#[trigger] records[i]).key == key].value,
        )
    } else {
        None
    }
}

/// No key occurs twice.
pub open spec fn keys_differ<V>(records: Seq<ExpiringRecord<V>>) -> bool {
    forall|i: int, j: int|
        0 <= i < j < records.len() ==> (#[trigger] records[i]).key != (#[trigger] records[j]).key
}

/// Records after the value of a key was replaced, if it is there.
pub open spec fn replaced<V>(records: Seq<ExpiringRecord<V>>, key: CacheKey, value: V) -> Seq<
    ExpiringRecord<V>,
> {
    records.map_values(
        |record: ExpiringRecord<V>|
            if record.key == key {
                ExpiringRecord { value, ..record }
            } else {
                record
            },
    )
}

proof fn ticket_position(base: u64, i: int)
    requires
        0 <= i <= u64::MAX,
    ensures
        ((ticket(base, i) - base) % 0x1_0000_0000_0000_0000) == i,
{
    let m: int = 0x1_0000_0000_0000_0000;
    let t = (base + i) % m;
    if base + i < m {
        assert(t == base + i);
    } else {
        assert(t == base + i - m);
        assert((i - m) % m == i) by {
            vstd::arithmetic::div_mod::lemma_mod_add_multiples_vanish(i - m, m);
        }
    }
}

impl<V: Copy> ExpiringCache<V> {
    /// The index leads from every key to its record, and to nothing else.
    pub open spec fn wf(self) -> bool {
        let records = self.queue@;
        &&& keys_differ(records)
        &&& forall|i: int|
            0 <= i < records.len() ==> tickets(self.index).contains_key(
                (#[trigger] records[i]).key,
            ) && tickets(self.index)[records[i].key] == ticket(self.base, i)
        &&& forall|key: CacheKey| #[trigger]
            tickets(self.index).contains_key(key) ==> has_key(records, key)
    }

    /// A cache whose entries live for `ttl` slots.
    pub fn new(ttl: Slot) -> (cache: ExpiringCache<V>)
        ensures
            cache.wf(),
            cache.queue@ == Seq::<ExpiringRecord<V>>::empty(),
            cache.ttl == ttl,
    {
        ExpiringCache { index: tickets_new(), queue: VecDeque::new(), base: 0, ttl }
    }

    /// Position of the record with `key`.
    fn position(&self, key: &CacheKey) -> (at: Option<usize>)
        requires
            self.wf(),
        ensures
            match at {
                Some(i) => i < self.queue@.len() && self.queue@[i as int].key == *key,
                None => !has_key(self.queue@, *key),
            },
    {
        let n: usize = self.queue.len();
        match tickets_read(&self.index, key) {
            Some(found) => {
                let offset: u64 = found.wrapping_sub(self.base);
                proof {
                    let i = choose|i: int|
                        0 <= i < self.queue@.len() && (#[trigger] self.queue@[i]).key == *key;
                    assert(found == ticket(self.base, i));
                    ticket_position(self.base, i);
                    assert(offset == i);
                }
                Some(offset as usize)
            },
            None => {
                proof {
                    if has_key(self.queue@, *key) {
                        let i = choose|i: int|
                            0 <= i < self.queue@.len() && (#[trigger] self.queue@[i]).key == *key;
                        assert(tickets(self.index).contains_key(self.queue@[i].key));
                    }
                }
                None
            },
        }
    }

    /// Drops the first record.
    fn drop_first(&mut self)
        requires
            old(self).wf(),
            old(self).queue@.len() > 0,
        ensures
            final(self).wf(),
            final(self).queue@ == old(self).queue@.skip(1),
            final(self).ttl == old(self).ttl,
    {
        let ghost before = *self;
        let ghost records = self.queue@;
        if let Some(record) = self.queue.pop_front() {
            tickets_remove(&mut self.index, &record.key);
        }
        self.base = self.base.wrapping_add(1);
        proof {
            let now = self.queue@;
            assert(now =~= records.skip(1));
            assert forall|i: int| 0 <= i < now.len() implies tickets(self.index).contains_key(
                (#[trigger] now[i]).key,
            ) && tickets(self.index)[now[i].key] == ticket(self.base, i) by {
                assert(now[i] == records[i + 1]);
                assert(records[0].key != records[i + 1].key);
                next_ticket(before.base, i);
            }
            assert forall|key: CacheKey| #[trigger]
                tickets(self.index).contains_key(key) implies has_key(now, key) by {
                let i = choose|i: int|
                    0 <= i < records.len() && (#[trigger] records[i]).key == key;
                assert(now[i - 1].key == key);
            }
            assert forall|i: int, j: int| 0 <= i < j < now.len() implies (#[trigger] now[i]).key
                != (#[trigger] now[j]).key by {
                assert(now[i] == records[i + 1]);
                assert(now[j] == records[j + 1]);
            }
        }
    }

    /// Pushes an entry, after sweeping expired ones, and says whether its key was new. A key
    /// that is still there keeps its value and its slot.
    pub fn push(&mut self, key: CacheKey, value: V, slot: Slot) -> (inserted: bool)
        requires
            old(self).wf(),
            slot + old(self).ttl <= u64::MAX,
        ensures
            final(self).wf(),
            final(self).queue@ == pushed(old(self).queue@, key, value, slot, old(self).ttl),
            final(self).ttl == old(self).ttl,
            inserted == !has_key(
                swept(old(self).queue@, slot, EVICTION_LIMIT as nat),
                key,
            ),
    {
        let ghost start = self.queue@;
        let ghost ttl = self.ttl;
        let mut budget: usize = EVICTION_LIMIT;
        while budget > 0 && self.queue.len() > 0 && slot >= self.queue[0].expires
            invariant
                self.wf(),
                self.ttl == ttl,
                swept(start, slot, EVICTION_LIMIT as nat) == swept(
                    self.queue@,
                    slot,
                    budget as nat,
                ),
            decreases budget,
        {
            self.drop_first();
            budget -= 1;
        }
        let ghost left = self.queue@;
        let ghost before = *self;
        assert(left == swept(start, slot, EVICTION_LIMIT as nat));
        if self.position(&key).is_some() {
            return false;
        }
        let n: u64 = self.queue.len() as u64;
        let at: u64 = self.base.wrapping_add(n);
        let _ = tickets_insert(&mut self.index, key, at);
        self.queue.push_back(ExpiringRecord { key, value, expires: slot + self.ttl });
        proof {
            let now = self.queue@;
            assert(!tickets(before.index).contains_key(key));
            assert forall|i: int| 0 <= i < now.len() implies tickets(self.index).contains_key(
                (#[trigger] now[i]).key,
            ) && tickets(self.index)[now[i].key] == ticket(self.base, i) by {
                if i < left.len() {
                    assert(now[i] == left[i]);
                    assert(left[i].key != key);
                }
            }
            assert forall|k: CacheKey| #[trigger] tickets(self.index).contains_key(k) implies has_key(
                now,
                k,
            ) by {
                if k == key {
                    assert(now[left.len() as int].key == k);
                } else {
                    assert(tickets(before.index).contains_key(k));
                    let i = choose|i: int|
                        0 <= i < left.len() && (#[trigger] left[i]).key == k;
                    assert(now[i].key == k);
                }
            }
            assert forall|i: int, j: int| 0 <= i < j < now.len() implies (#[trigger] now[i]).key
                != (#[trigger] now[j]).key by {
                assert(now[i] == left[i]);
                if j < left.len() {
                    assert(now[j] == left[j]);
                }
            }
        }
        true
    }

    /// Number of entries, those counted in that have expired and were not swept yet.
    pub fn len(&self) -> (n: usize)
        ensures
            n == self.queue@.len(),
    {
        self.queue.len()
    }

    /// The value of a key, also if it has expired and was not swept yet.
    pub fn get(&self, key: &CacheKey) -> (value: Option<V>)
        requires
            self.wf(),
        ensures
            value == value_of(self.queue@, *key),
    {
        match self.position(key) {
            Some(i) => {
                proof {
                    assert(has_key(self.queue@, *key));
                    let j = choose|j: int|
                        0 <= j < self.queue@.len() && (#[trigger] self.queue@[j]).key == *key;
                    assert(i == j) by {
                        if i < j {
                            assert(self.queue@[i as int].key != self.queue@[j].key);
                        } else if j < i {
                            assert(self.queue@[j].key != self.queue@[i as int].key);
                        }
                    }
                }
                Some(self.queue[i].value)
            },
            None => None,
        }
    }

    /// Whether a key is there, also if it has expired and was not swept yet.
    pub fn contains(&self, key: &CacheKey) -> (found: bool)
        requires
            self.wf(),
        ensures
            found == has_key(self.queue@, *key),
    {
        self.position(key).is_some()
    }

    /// Replaces the value of a key, if it is there. The slot at which it expires stays.
    pub fn update(&mut self, key: &CacheKey, value: V)
        requires
            old(self).wf(),
        ensures
            final(self).wf(),
            final(self).queue@ == replaced(old(self).queue@, *key, value),
            final(self).ttl == old(self).ttl,
    {
        let ghost before = *self;
        let ghost records = self.queue@;
        match self.position(key) {
            Some(i) => {
                let record = ExpiringRecord {
                    key: self.queue[i].key,
                    value,
                    expires: self.queue[i].expires,
                };
                let _ = self.queue.remove(i);
                self.queue.insert(i, record);
                proof {
                    let now = self.queue@;
                    assert(now =~= records.update(i as int, record));
                    assert forall|j: int| 0 <= j < now.len() implies now[j] == replaced(
                        records,
                        *key,
                        value,
                    )[j] by {
                        if j < i {
                            assert(records[j].key != records[i as int].key);
                        } else if j > i {
                            assert(records[i as int].key != records[j].key);
                        }
                    }
                    assert(now =~= replaced(records, *key, value));
                    assert forall|a: int| 0 <= a < now.len() implies (#[trigger] now[a]).key
                        == records[a].key by {}
                    assert forall|k: CacheKey| #[trigger]
                        tickets(self.index).contains_key(k) implies has_key(now, k) by {
                        let a = choose|a: int|
                            0 <= a < records.len() && (#[trigger] records[a]).key == k;
                        assert(now[a].key == k);
                    }
                }
            },
            None => {
                proof {
                    assert forall|j: int| 0 <= j < records.len() implies records[j] == replaced(
                        records,
                        *key,
                        value,
                    )[j] by {
                        if records[j].key == *key {
                            assert(has_key(records, *key));
                        }
                    }
                    assert(records =~= replaced(records, *key, value));
                }
            },
        }
    }
}

proof fn next_ticket(base: u64, i: int)
    requires
        0 <= i,
    ensures
        ticket(((base + 1) % 0x1_0000_0000_0000_0000) as u64, i) == ticket(base, i + 1),
{
    let m: int = 0x1_0000_0000_0000_0000;
    if base + 1 >= m {
        assert((base + 1) % m == 0);
        assert((base + 1 + i) % m == i % m) by {
            vstd::arithmetic::div_mod::lemma_mod_add_multiples_vanish(i, m);
        }
    }
}

/// Pushing a key that is there changes neither its value nor when it expires.
pub proof fn duplicates_change_nothing<V>(
    records: Seq<ExpiringRecord<V>>,
    key: CacheKey,
    value: V,
    slot: Slot,
    ttl: Slot,
)
    requires
        has_key(swept(records, slot, EVICTION_LIMIT as nat), key),
    ensures
        pushed(records, key, value, slot, ttl) == swept(records, slot, EVICTION_LIMIT as nat),
{
}

/// A push sweeps expired entries and nothing else, from the front, and no more than the
/// limit allows.
pub proof fn sweeps_only_expired<V>(records: Seq<ExpiringRecord<V>>, slot: Slot, budget: nat)
    ensures
        ({
            let left = swept(records, slot, budget);
            let n = records.len() - left.len();
            &&& 0 <= n <= budget
            &&& left == records.skip(n)
            &&& forall|i: int| 0 <= i < n ==> (#[trigger] records[i]).expires <= slot
            &&& n < budget && left.len() > 0 ==> slot < left[0].expires
        }),
    decreases budget,
{
    if budget == 0 || records.len() == 0 || slot < records[0].expires {
        assert(records.skip(0) =~= records);
    } else {
        let rest = records.skip(1);
        sweeps_only_expired(rest, slot, (budget - 1) as nat);
        let left = swept(rest, slot, (budget - 1) as nat);
        let k = rest.len() - left.len();
        assert(rest.skip(k) =~= records.skip(k + 1));
        assert forall|i: int| 0 <= i < k + 1 implies (#[trigger] records[i]).expires <= slot by {
            if i > 0 {
                assert(rest[i - 1] == records[i]);
            }
        }
    }
}

/// An update changes the value of one key and when nothing expires.
pub proof fn updates_keep_expiry<V>(records: Seq<ExpiringRecord<V>>, key: CacheKey, value: V)
    ensures
        replaced(records, key, value).len() == records.len(),
        forall|i: int|
            0 <= i < records.len() ==> (#[trigger] replaced(records, key, value)[i]).expires
                == records[i].expires && replaced(records, key, value)[i].key == records[i].key,
{
}

/// A value that was replaced is found, and every other key has the value that it had: replacing
/// never adds a key.
pub proof fn updates_are_found<V>(
    records: Seq<ExpiringRecord<V>>,
    key: CacheKey,
    value: V,
    other: CacheKey,
)
    requires
        keys_differ(records),
    ensures
        has_key(replaced(records, key, value), other) == has_key(records, other),
        has_key(records, key) ==> value_of(replaced(records, key, value), key) == Some(value),
        other != key ==> value_of(replaced(records, key, value), other) == value_of(records, other),
{
    let after = replaced(records, key, value);
    assert forall|i: int| 0 <= i < records.len() implies (#[trigger] after[i]).key == records[i].key
        && after[i].value == if records[i].key == key {
        value
    } else {
        records[i].value
    } by {}
    if has_key(records, other) {
        let i = choose|i: int| 0 <= i < records.len() && (#[trigger] records[i]).key == other;
        assert(after[i].key == other);
        let k = choose|k: int| 0 <= k < after.len() && (#[trigger] after[k]).key == other;
        assert(records[k].key == other);
        assert(k == i);
    }
    if has_key(after, other) {
        let k = choose|k: int| 0 <= k < after.len() && (#[trigger] after[k]).key == other;
        assert(records[k].key == other);
    }
    if has_key(records, key) {
        let i = choose|i: int| 0 <= i < records.len() && (#[trigger] records[i]).key == key;
        assert(after[i].key == key);
        let k = choose|k: int| 0 <= k < after.len() && (#[trigger] after[k]).key == key;
        assert(records[k].key == key);
        assert(k == i);
    }
}

/// A key that is pushed is found with its value until it expires, which is as many slots later as
/// entries live; every other key that is there keeps its value, and a key that leaves had expired.
pub proof fn pushes_are_found<V>(
    records: Seq<ExpiringRecord<V>>,
    key: CacheKey,
    value: V,
    slot: Slot,
    ttl: Slot,
    i: int,
)
    requires
        keys_differ(records),
        slot + ttl <= u64::MAX,
        !has_key(records, key),
    ensures
        ({
            let after = pushed(records, key, value, slot, ttl);
            &&& after.len() > 0
            &&& after.last().key == key
            &&& after.last().value == value
            &&& after.last().expires == slot + ttl
            &&& value_of(after, key) == Some(value)
            &&& after.len() <= records.len() + 1
            &&& 0 <= i < records.len() ==> after.contains(records[i]) || records[i].expires <= slot
            &&& 0 <= i < after.len() - 1 ==> records.contains(after[i])
        }),
{
    let left = swept(records, slot, EVICTION_LIMIT as nat);
    let after = pushed(records, key, value, slot, ttl);
    sweeps_only_expired(records, slot, EVICTION_LIMIT as nat);
    let n = records.len() - left.len();
    if has_key(left, key) {
        let k = choose|k: int| 0 <= k < left.len() && (#[trigger] left[k]).key == key;
        assert(records[n + k].key == key);
    }
    assert(after == left.push(after.last()));
    assert(after[after.len() - 1].key == key);
    let k = choose|k: int| 0 <= k < after.len() && (#[trigger] after[k]).key == key;
    if k < left.len() {
        assert(left[k].key == key);
    }
    if 0 <= i < records.len() && records[i].expires > slot {
        assert(i >= n);
        assert(after[i - n] == records[i]);
    }
    if 0 <= i < after.len() - 1 {
        assert(records[n + i] == after[i]);
    }
}

/// Number that sixteen bytes spell.
pub open spec fn half(bytes: Seq<u8>) -> u128 {
    be_value(bytes) as u128
}

/// Key of a signature: its first sixteen bytes.
pub open spec fn signature_key(signature: Signature) -> CacheKey {
    (half(signature@.take(16)), 0u128)
}

/// Key of a block hash.
pub open spec fn hash_key(hash: BlockHash) -> CacheKey {
    (half(hash@.take(16)), half(hash@.skip(16)))
}

/// Sixteen bytes spell a number that a half of a key holds.
proof fn half_fits(bytes: Seq<u8>)
    requires
        bytes.len() <= 16,
    ensures
        be_value(bytes) <= u128::MAX,
{
    crate::bytes::be_bytes_of_value(bytes);
    reveal_with_fuel(pow256, 17);
    pow256_grows(bytes.len(), 16);
}

proof fn pow256_grows(a: nat, b: nat)
    requires
        a <= b,
    ensures
        pow256(a) <= pow256(b),
    decreases b,
{
    if a < b {
        pow256_grows(a, (b - 1) as nat);
    }
}

/// Different block hashes have different keys.
pub proof fn hash_keys_identify(a: BlockHash, b: BlockHash)
    ensures
        hash_key(a) == hash_key(b) <==> a == b,
{
    half_fits(a@.take(16));
    half_fits(a@.skip(16));
    half_fits(b@.take(16));
    half_fits(b@.skip(16));
    crate::bytes::be_bytes_of_value(a@.take(16));
    crate::bytes::be_bytes_of_value(a@.skip(16));
    crate::bytes::be_bytes_of_value(b@.take(16));
    crate::bytes::be_bytes_of_value(b@.skip(16));
    if hash_key(a) == hash_key(b) {
        assert(a@ =~= a@.take(16) + a@.skip(16));
        assert(b@ =~= b@.take(16) + b@.skip(16));
        assert(a =~= b);
    }
}

/// Signatures share a key exactly if they begin with the same sixteen bytes.
pub proof fn signature_keys_identify(s: Signature, t: Signature)
    ensures
        signature_key(s) == signature_key(t) <==> s@.take(16) == t@.take(16),
{
    half_fits(s@.take(16));
    half_fits(t@.take(16));
    crate::bytes::be_bytes_of_value(s@.take(16));
    crate::bytes::be_bytes_of_value(t@.take(16));
}

/// Number that the sixteen bytes from `at` on spell.
fn half_at(bytes: &[u8], at: usize) -> (n: u128)
    requires
        at + 16 <= bytes@.len(),
    ensures
        n == half(bytes@.subrange(at as int, at + 16)),
{
    let end: usize = bytes.len();
    let mut n: u128 = 0;
    let mut i: usize = 0;
    assert(bytes@.subrange(at as int, at as int) =~= Seq::<u8>::empty());
    while i < 16
        invariant
            i <= 16,
            end == bytes@.len(),
            at + 16 <= end,
            n == be_value(bytes@.subrange(at as int, at + i)),
        decreases 16 - i,
    {
        let ghost read = bytes@.subrange(at as int, at + i);
        let ghost more = bytes@.subrange(at as int, at + i + 1);
        proof {
            assert(more =~= read.push(bytes@[at + i]));
            crate::bytes::be_value_push(read, bytes@[at + i]);
            half_fits(more);
        }
        n = n * 256 + bytes[at + i] as u128;
        i += 1;
    }
    n
}

/// Key of a signature.
pub fn key_of_signature(signature: &Signature) -> (key: CacheKey)
    ensures
        key == signature_key(*signature),
{
    assert(signature@.subrange(0, 16) =~= signature@.take(16));
    (half_at(signature.as_slice(), 0), 0u128)
}

/// Key of a block hash.
pub fn key_of_hash(hash: &BlockHash) -> (key: CacheKey)
    ensures
        key == hash_key(*hash),
{
    assert(hash@.subrange(0, 16) =~= hash@.take(16));
    assert(hash@.subrange(16, 32) =~= hash@.skip(16));
    (half_at(hash.as_slice(), 0), half_at(hash.as_slice(), 16))
}

} // verus!
