//! Checksum of the persisted accounts.

use vstd::prelude::*;

use twox_hash::XxHash3_64;

use crate::accountsdb::storage::DatabaseMeta;
use crate::accountsdb::store::{place_bytes, place_key, PersistedStore, StoreState};
use crate::accountsdb::AccountsDBError;
use crate::bytes::{le_bytes, lex_lt, u64_to_le};
use crate::types::{Account, AccountView};

verus! {

/// What `twox_hash::XxHash3_64::oneshot` returns for `bytes`.
pub uninterp spec fn xxh3_64(bytes: Seq<u8>) -> u64;

/// Hashes `bytes` with `twox_hash::XxHash3_64::oneshot`, which starts from the default seed
/// and secret, so that the result is a function of the bytes alone.
#[verifier::external_body]
fn hash(bytes: &[u8]) -> (digest: u64)
    ensures
        digest == xxh3_64(bytes@),
{
    XxHash3_64::oneshot(bytes)
}

/// The bytes of an account that enter the checksum.
pub open spec fn storage_bytes(account: AccountView) -> Seq<u8> {
    le_bytes(account.lamports as nat, 8) + account.owner@ + seq![
        account.mode.number(),
        if account.executable {
            1u8
        } else {
            0u8
        },
    ] + le_bytes(account.slot as nat, 8) + account.data
}

/// Keys ascend strictly.
pub open spec fn ascending(keys: Seq<Seq<u8>>) -> bool {
    forall|i: int, j: int|
        0 <= i < j < keys.len() ==> lex_lt(#[trigger] keys[i], #[trigger] keys[j])
}

/// `keys` lists the members of `dom` in ascending order.
pub open spec fn lists_keys(keys: Seq<Seq<u8>>, dom: Set<Seq<u8>>) -> bool {
    &&& ascending(keys)
    &&& forall|key: Seq<u8>| #[trigger] keys.contains(key) <==> dom.contains(key)
}

/// The members of `dom` in ascending order.
pub open spec fn ordered_keys(dom: Set<Seq<u8>>) -> Seq<Seq<u8>> {
    choose|keys: Seq<Seq<u8>>| lists_keys(keys, dom)
}

/// The first `n` accounts, each as its address followed by its bytes.
pub open spec fn account_bytes(
    keys: Seq<Seq<u8>>,
    accounts: Map<Seq<u8>, AccountView>,
    n: nat,
) -> Seq<u8>
    decreases n,
{
    if n == 0 {
        Seq::empty()
    } else {
        account_bytes(keys, accounts, (n - 1) as nat) + keys[n - 1] + storage_bytes(
            accounts[keys[n - 1]],
        )
    }
}

/// What the checksum is taken of: the slot, the superblock, and the accounts by address.
pub open spec fn fingerprint(
    slot: u64,
    superblock: u64,
    accounts: Map<Seq<u8>, AccountView>,
) -> Seq<u8> {
    let keys = ordered_keys(accounts.dom());
    le_bytes(slot as nat, 8) + le_bytes(superblock as nat, 8) + account_bytes(
        keys,
        accounts,
        keys.len(),
    )
}

impl StoreState {
    /// Checksum of the contents.
    pub open spec fn checksum(self) -> u64 {
        xxh3_64(fingerprint(self.meta.slot, self.meta.superblock, self.accounts()))
    }
}

/// There is only one ascending list of a set.
pub proof fn ordered_keys_unique(keys: Seq<Seq<u8>>, dom: Set<Seq<u8>>)
    requires
        lists_keys(keys, dom),
    ensures
        ordered_keys(dom) == keys,
{
    let other = ordered_keys(dom);
    assert(lists_keys(other, dom));
    lists_agree(keys, other, dom);
}

proof fn lists_agree(a: Seq<Seq<u8>>, b: Seq<Seq<u8>>, dom: Set<Seq<u8>>)
    requires
        lists_keys(a, dom),
        lists_keys(b, dom),
    ensures
        a == b,
    decreases a.len(),
{
    if a.len() == 0 {
        if b.len() > 0 {
            assert(b.contains(b[0]));
            assert(a.contains(b[0]));
        }
        assert(a =~= b);
    } else {
        assert(a.contains(a.last()));
        assert(b.contains(a.last()));
        let i = choose|i: int| 0 <= i < b.len() && b[i] == a.last();
        assert(b.contains(b.last()));
        assert(a.contains(b.last()));
        let j = choose|j: int| 0 <= j < a.len() && a[j] == b.last();
        if i < b.len() - 1 {
            assert(lex_lt(b[i], b[b.len() - 1]));
            if j < a.len() - 1 {
                assert(lex_lt(a[j], a[a.len() - 1]));
                crate::bytes::lex_asymmetric(b[i], b.last());
            } else {
                crate::bytes::lex_irreflexive(a.last());
            }
        }
        assert(a.last() == b.last());
        let rest = dom.remove(a.last());
        assert(lists_keys(a.drop_last(), rest)) by {
            drop_last_lists(a, dom);
        }
        assert(lists_keys(b.drop_last(), rest)) by {
            drop_last_lists(b, dom);
        }
        lists_agree(a.drop_last(), b.drop_last(), rest);
        assert(a =~= a.drop_last().push(a.last()));
        assert(b =~= b.drop_last().push(b.last()));
    }
}

proof fn drop_last_lists(a: Seq<Seq<u8>>, dom: Set<Seq<u8>>)
    requires
        lists_keys(a, dom),
        a.len() > 0,
    ensures
        lists_keys(a.drop_last(), dom.remove(a.last())),
{
    let head = a.drop_last();
    assert(ascending(head)) by {
        assert forall|i: int, j: int| 0 <= i < j < head.len() implies lex_lt(
            #[trigger] head[i],
            #[trigger] head[j],
        ) by {
            assert(lex_lt(a[i], a[j]));
        }
    }
    assert forall|key: Seq<u8>| #[trigger] head.contains(key) <==> dom.remove(a.last()).contains(
        key,
    ) by {
        if head.contains(key) {
            let i = choose|i: int| 0 <= i < head.len() && head[i] == key;
            assert(a[i] == key);
            assert(a.contains(key));
            assert(lex_lt(a[i], a[a.len() - 1]));
            crate::bytes::lex_irreflexive(key);
        }
        if dom.remove(a.last()).contains(key) {
            assert(a.contains(key));
            let i = choose|i: int| 0 <= i < a.len() && a[i] == key;
            assert(head[i] == key);
        }
    }
}

/// The checksum depends only on slot, superblock, and account contents: neither on the order
/// in which accounts were stored nor on where their images lie.
pub proof fn checksum_ignores_layout(a: StoreState, b: StoreState)
    requires
        a.meta.slot == b.meta.slot,
        a.meta.superblock == b.meta.superblock,
        a.accounts() == b.accounts(),
    ensures
        a.checksum() == b.checksum(),
{
}

fn push_account(out: &mut Vec<u8>, account: &Account)
    ensures
        final(out)@ == old(out)@ + storage_bytes(account@),
{
    let ghost before = out@;
    out.extend_from_slice(u64_to_le(account.lamports).as_slice());
    out.extend_from_slice(account.owner.as_slice());
    out.push(account.mode.tag());
    out.push(
        if account.executable {
            1u8
        } else {
            0u8
        },
    );
    out.extend_from_slice(u64_to_le(account.slot).as_slice());
    out.extend_from_slice(account.data.as_slice());
    assert(out@ =~= before + storage_bytes(account@));
}

impl PersistedStore {
    /// Computes the checksum over the accounts in address order.
    pub fn checksum(&self) -> (digest: u64)
        requires
            self.wf(),
        ensures
            digest == self.state().checksum(),
    {
        let ghost state = self.state();
        let ghost rows = self.index.accounts.rows@;
        let ghost keys = self.index.accounts.keys();
        proof {
            self.index.accounts.rows_are_entries();
            assert(lists_keys(keys, state.accounts().dom())) by {
                assert forall|i: int, j: int| 0 <= i < j < keys.len() implies lex_lt(
                    #[trigger] keys[i],
                    #[trigger] keys[j],
                ) by {
                    assert(lex_lt(rows[i].0@, rows[j].0@));
                }
                assert forall|key: Seq<u8>| #[trigger]
                    keys.contains(key) <==> state.accounts().dom().contains(key) by {
                    if keys.contains(key) {
                        let i = choose|i: int| 0 <= i < keys.len() && keys[i] == key;
                        assert(rows[i].0@ == key);
                    }
                    if state.located.contains_key(key) {
                        let i = choose|i: int|
                            self.index.accounts.holds(key, i) && self.index.accounts@[key]
                                == rows[i].1;
                        assert(keys[i] == key);
                    }
                }
            }
            ordered_keys_unique(keys, state.accounts().dom());
        }
        let mut input: Vec<u8> = Vec::new();
        input.extend_from_slice(u64_to_le(self.meta.slot).as_slice());
        input.extend_from_slice(u64_to_le(self.meta.superblock).as_slice());
        let ghost head = le_bytes(self.meta.slot as nat, 8) + le_bytes(
            self.meta.superblock as nat,
            8,
        );
        assert(input@ =~= head + account_bytes(keys, state.accounts(), 0));
        let mut i: usize = 0;
        while i < self.index.accounts.rows.len()
            invariant
                self.wf(),
                state == self.state(),
                rows == self.index.accounts.rows@,
                keys == self.index.accounts.keys(),
                i <= rows.len(),
                input@ == head + account_bytes(keys, state.accounts(), i as nat),
                forall|j: int|
                    0 <= j < rows.len() ==> self.index.accounts@.contains_key(
                        (#[trigger] rows[j]).0@,
                    ) && self.index.accounts@[rows[j].0@] == rows[j].1,
            decreases rows.len() - i,
        {
            let ghost before = input@;
            let ghost key = rows[i as int].0@;
            assert(state.located.contains_key(key));
            input.extend_from_slice(self.index.accounts.rows[i].0.as_slice());
            let place = place_bytes(self.index.accounts.rows[i].1.offset);
            if let Some(image) = self.images.get(place.as_slice()) {
                assert(image@ == state.heap[place_key(state.located[key].offset)]);
                push_account(&mut input, &image.account);
            }
            proof {
                assert(keys[i as int] == key);
                assert(state.heap.contains_key(place_key(state.located[key].offset)));
                assert(input@ =~= before + key + storage_bytes(state.accounts()[key]));
                assert(input@ =~= head + account_bytes(keys, state.accounts(), (i + 1) as nat));
            }
            i += 1;
        }
        hash(input.as_slice())
    }

    /// What a backend is told after its checksum was computed as `actual`.
    pub open spec fn verdict(self, actual: u64) -> Result<(), AccountsDBError> {
        if self.meta.version != crate::accountsdb::storage::VERSION {
            Err(AccountsDBError::UnsupportedVersion(self.meta.version))
        } else if !self.meta.fits() {
            Err(AccountsDBError::Corruption)
        } else if self.meta.cursor != 0 && self.meta.checksum != actual {
            Err(AccountsDBError::Corruption)
        } else {
            Ok(())
        }
    }

    /// Compares the recorded checksum with `actual`, after the format was checked. An empty
    /// file has no checksum yet.
    pub fn validate_against(&self, actual: u64) -> (result: Result<(), AccountsDBError>)
        ensures
            result == self.verdict(actual),
    {
        match self.meta.validate() {
            Ok(()) => {},
            Err(e) => {
                return Err(e);
            },
        }
        if self.meta.cursor == 0 {
            return Ok(());
        }
        if self.meta.checksum != actual {
            return Err(AccountsDBError::Corruption);
        }
        Ok(())
    }

    /// Checks format and recorded checksum.
    pub fn validate(&self) -> (result: Result<(), AccountsDBError>)
        requires
            self.wf(),
        ensures
            result == self.verdict(self.state().checksum()),
    {
        self.validate_against(self.checksum())
    }

    /// Records the current checksum, as a synchronous flush does before it writes.
    pub fn record_checksum(&mut self)
        requires
            old(self).wf(),
        ensures
            final(self).wf(),
            final(self).state() == (StoreState {
                meta: DatabaseMeta { checksum: old(self).state().checksum(), ..old(self).meta },
                ..old(self).state()
            }),
            final(self).state().accounts() == old(self).state().accounts(),
            final(self).state().checksum() == final(self).meta.checksum,
    {
        let ghost before = self.state();
        self.meta.checksum = self.checksum();
        proof {
            assert(self.state().linked() == before.linked());
            assert(self.state().tiled() == before.tiled());
            assert(self.state().authoritative() == before.authoritative());
            assert(self.state().accounts() =~= before.accounts());
        }
    }
}

/// Everything that an account holds enters its checksum: accounts that enter it alike have the
/// same balance, owner, mode, remote slot, data, and are both programs or both none.
pub proof fn every_field_is_covered(a: AccountView, b: AccountView)
    requires
        storage_bytes(a) == storage_bytes(b),
    ensures
        a.lamports == b.lamports,
        a.owner@ == b.owner@,
        a.mode == b.mode,
        a.executable == b.executable,
        a.slot == b.slot,
        a.data == b.data,
{
    crate::bytes::widths();
    crate::bytes::le_bytes_spell(a.lamports as nat, 8);
    crate::bytes::le_bytes_spell(b.lamports as nat, 8);
    crate::bytes::le_bytes_spell(a.slot as nat, 8);
    crate::bytes::le_bytes_spell(b.slot as nat, 8);
    let x = storage_bytes(a);
    let y = storage_bytes(b);
    assert(x.take(8) =~= le_bytes(a.lamports as nat, 8));
    assert(y.take(8) =~= le_bytes(b.lamports as nat, 8));
    assert(x.subrange(8, 40) =~= a.owner@);
    assert(y.subrange(8, 40) =~= b.owner@);
    assert(x[40] == a.mode.number() && y[40] == b.mode.number());
    assert(x[41] == y[41]);
    assert(x.subrange(42, 50) =~= le_bytes(a.slot as nat, 8));
    assert(y.subrange(42, 50) =~= le_bytes(b.slot as nat, 8));
    assert(x.skip(50) =~= a.data);
    assert(y.skip(50) =~= b.data);
}

/// Accounts of the same sizes take the same room.
proof fn same_room(
    keys: Seq<Seq<u8>>,
    a: Map<Seq<u8>, AccountView>,
    b: Map<Seq<u8>, AccountView>,
    n: nat,
)
    requires
        n <= keys.len(),
        forall|k: int|
            0 <= k < n ==> a[#[trigger] keys[k]].data.len() == b[keys[k]].data.len(),
    ensures
        account_bytes(keys, a, n).len() == account_bytes(keys, b, n).len(),
    decreases n,
{
    if n > 0 {
        same_room(keys, a, b, (n - 1) as nat);
        let last = keys[n - 1];
        crate::bytes::widths();
        crate::bytes::le_bytes_spell(a[last].lamports as nat, 8);
        crate::bytes::le_bytes_spell(b[last].lamports as nat, 8);
        crate::bytes::le_bytes_spell(a[last].slot as nat, 8);
        crate::bytes::le_bytes_spell(b[last].slot as nat, 8);
    }
}

/// Every account enters the checksum with its address: lists of accounts of the same sizes that
/// enter it alike hold the same at every address.
pub proof fn every_account_is_covered(
    keys: Seq<Seq<u8>>,
    a: Map<Seq<u8>, AccountView>,
    b: Map<Seq<u8>, AccountView>,
    n: nat,
    i: int,
)
    requires
        n <= keys.len(),
        0 <= i < n,
        account_bytes(keys, a, n) == account_bytes(keys, b, n),
        forall|k: int|
            0 <= k < n ==> a[#[trigger] keys[k]].data.len() == b[keys[k]].data.len(),
    ensures
        storage_bytes(a[keys[i]]) == storage_bytes(b[keys[i]]),
    decreases n,
{
    let last = keys[n - 1];
    crate::bytes::widths();
    crate::bytes::le_bytes_spell(a[last].lamports as nat, 8);
    crate::bytes::le_bytes_spell(b[last].lamports as nat, 8);
    crate::bytes::le_bytes_spell(a[last].slot as nat, 8);
    crate::bytes::le_bytes_spell(b[last].slot as nat, 8);
    let x = account_bytes(keys, a, n);
    let y = account_bytes(keys, b, n);
    let p = account_bytes(keys, a, (n - 1) as nat);
    let q = account_bytes(keys, b, (n - 1) as nat);
    let s = storage_bytes(a[last]);
    let t = storage_bytes(b[last]);
    assert(s.len() == t.len());
    same_room(keys, a, b, (n - 1) as nat);
    assert(x.skip((p.len() + last.len()) as int) =~= s);
    assert(y.skip((q.len() + last.len()) as int) =~= t);
    assert(x.take(p.len() as int) =~= p);
    assert(y.take(q.len() as int) =~= q);
    if i < n - 1 {
        every_account_is_covered(keys, a, b, (n - 1) as nat, i);
    }
}

/// The slot and the superblock enter the checksum.
pub proof fn position_is_covered(
    slot: u64,
    superblock: u64,
    accounts: Map<Seq<u8>, AccountView>,
    other_slot: u64,
    other_superblock: u64,
    others: Map<Seq<u8>, AccountView>,
)
    requires
        fingerprint(slot, superblock, accounts) == fingerprint(
            other_slot,
            other_superblock,
            others,
        ),
    ensures
        slot == other_slot,
        superblock == other_superblock,
{
    crate::bytes::widths();
    crate::bytes::le_bytes_spell(slot as nat, 8);
    crate::bytes::le_bytes_spell(superblock as nat, 8);
    crate::bytes::le_bytes_spell(other_slot as nat, 8);
    crate::bytes::le_bytes_spell(other_superblock as nat, 8);
    let x = fingerprint(slot, superblock, accounts);
    let y = fingerprint(other_slot, other_superblock, others);
    assert(x.take(8) =~= le_bytes(slot as nat, 8));
    assert(y.take(8) =~= le_bytes(other_slot as nat, 8));
    assert(x.subrange(8, 16) =~= le_bytes(superblock as nat, 8));
    assert(y.subrange(8, 16) =~= le_bytes(other_superblock as nat, 8));
}

/// A store whose contents are not what they were is told apart by what its checksum is taken of:
/// if an account at one address is another one of the same size, the bytes differ.
pub proof fn changed_accounts_are_noticed(
    slot: u64,
    superblock: u64,
    a: Map<Seq<u8>, AccountView>,
    b: Map<Seq<u8>, AccountView>,
    key: Seq<u8>,
)
    requires
        a.dom() == b.dom(),
        exists|keys: Seq<Seq<u8>>| lists_keys(keys, a.dom()),
        a.contains_key(key),
        forall|k: Seq<u8>| #[trigger] a.contains_key(k) ==> a[k].data.len() == b[k].data.len(),
        a[key].lamports != b[key].lamports || a[key].owner@ != b[key].owner@ || a[key].mode
            != b[key].mode || a[key].executable != b[key].executable || a[key].slot != b[key].slot
            || a[key].data != b[key].data,
    ensures
        fingerprint(slot, superblock, a) != fingerprint(slot, superblock, b),
{
    let keys = ordered_keys(a.dom());
    assert(lists_keys(keys, a.dom()));
    assert(keys.contains(key));
    let i = choose|i: int| 0 <= i < keys.len() && keys[i] == key;
    if fingerprint(slot, superblock, a) == fingerprint(slot, superblock, b) {
        crate::bytes::widths();
        crate::bytes::le_bytes_spell(slot as nat, 8);
        crate::bytes::le_bytes_spell(superblock as nat, 8);
        assert(fingerprint(slot, superblock, a).skip(16) =~= account_bytes(keys, a, keys.len()));
        assert(fingerprint(slot, superblock, b).skip(16) =~= account_bytes(keys, b, keys.len()));
        assert forall|k: int| 0 <= k < keys.len() implies a[#[trigger] keys[k]].data.len()
            == b[keys[k]].data.len() by {
            assert(keys.contains(keys[k]));
            assert(a.contains_key(keys[k]));
        }
        every_account_is_covered(keys, a, b, keys.len(), i);
        every_field_is_covered(a[key], b[key]);
    }
}

} // verus!
