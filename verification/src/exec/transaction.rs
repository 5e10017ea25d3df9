//! Verifying transactions, and composing those that only the engine may send.

use solana_instruction::{AccountMeta as OutsideMeta, Instruction as OutsideInstruction};
use solana_keypair::Keypair;
use solana_message::compiled_instruction::CompiledInstruction as OutsideCompiled;
use solana_message::v1::{Message as OutsideMessage, TransactionConfig};
use solana_message::{MessageHeader, VersionedMessage};
use solana_pubkey::Pubkey as OutsideKey;
use solana_signature::Signature as OutsideSignature;
use solana_signer::Signer;
use solana_transaction::versioned::VersionedTransaction;
use vstd::prelude::*;

use crate::exec::error::EngineError;
use crate::ledger::outcome::TransactionError;
use crate::ledger::schema::CompiledInstruction;
use crate::types::{same_key, BlockHash, Pubkey, Signature};
use crate::view::{sanitize, sanitized_view, TransactionVersion, TransactionView, ViewOf};

verus! {

/// Transaction whose signatures were verified.
#[derive(Debug)]
pub struct VerifiedTransaction(pub TransactionView);

/// What several verified transactions hold.
pub open spec fn verified_views(list: Seq<VerifiedTransaction>) -> Seq<ViewOf> {
    list.map_values(|transaction: VerifiedTransaction| transaction.0@)
}

/// Whether a signature of a key over a message is strictly valid.
pub uninterp spec fn signature_valid(
    signature: Signature,
    key: Seq<u8>,
    message: Seq<u8>,
) -> bool;

/// Verifies one signature, by `solana_signature::Signature::verify`. The answer depends on the
/// signature, the key, and the message alone.
#[verifier::external_body]
fn verify_signature(signature: &Signature, key: &[u8], message: &[u8]) -> (valid: bool)
    ensures
        valid == signature_valid(*signature, key@, message@),
{
    OutsideSignature::from(*signature).verify(key, message)
}

/// One signature with its key and its message.
#[derive(Debug)]
pub struct SignatureItem {
    /// The signature.
    pub signature: Signature,
    /// The key.
    pub key: Pubkey,
    /// The message.
    pub message: Vec<u8>,
}

/// What a signature with its key and its message holds.
pub struct ItemView {
    pub signature: Signature,
    pub key: Pubkey,
    pub message: Seq<u8>,
}

impl View for SignatureItem {
    type V = ItemView;

    open spec fn view(&self) -> ItemView {
        ItemView { signature: self.signature, key: self.key, message: self.message@ }
    }
}

/// What several signatures with their keys and messages hold.
pub open spec fn item_views(items: Seq<SignatureItem>) -> Seq<ItemView> {
    items.map_values(|item: SignatureItem| item@)
}

/// Verifies many signatures at once, by `solana_signature::Signature::batch_verify`. No
/// signature is nothing to refuse, and a single one is verified strictly. Signatures that are
/// all strictly valid are accepted, however many there are: each of them solves the equation
/// exactly that a batch sums up with random factors, so that the sum vanishes whatever the
/// factors are. Whether a batch with another signature is accepted rests on those factors and is
/// not said.
#[verifier::external_body]
fn batch_verify(items: &Vec<SignatureItem>) -> (accepted: bool)
    ensures
        items@.len() == 0 ==> accepted,
        items@.len() == 1 ==> accepted == signature_valid(
            items@[0].signature,
            items@[0].key@,
            items@[0].message@,
        ),
        (forall|i: int|
            0 <= i < items@.len() ==> signature_valid(
                (#[trigger] items@[i]).signature,
                items@[i].key@,
                items@[i].message@,
            )) ==> accepted,
{
    let list: Vec<OutsideSignature> = items.iter().map(|item| item.signature.into()).collect();
    let data = list.iter().zip(items.iter());
    OutsideSignature::batch_verify(data.map(|(s, i)| (s, i.key.as_slice(), i.message.as_slice())))
}

/// Signatures of a transaction with their keys: one for each of its first accounts.
pub open spec fn signature_items(view: ViewOf) -> Seq<ItemView> {
    Seq::new(
        view.signatures.len(),
        |i: int|
            ItemView {
                signature: view.signatures[i],
                key: view.accounts[i],
                message: view.message,
            },
    )
}

/// A transaction that is private to the engine has to be paid by its authority.
pub open spec fn authority_ok(view: ViewOf, authority: Pubkey) -> bool {
    view.version is Magicblock ==> view.accounts[0] == authority
}

/// Refuses a transaction that is private to the engine unless its authority pays it.
pub fn validate_authority(view: &TransactionView, authority: &Pubkey) -> (result: Result<
    (),
    EngineError,
>)
    requires
        view@.ok(),
    ensures
        match result {
            Ok(_) => authority_ok(view@, *authority),
            Err(error) => !authority_ok(view@, *authority) && error
                == EngineError::SignatureVerification,
        },
{
    if view.version == TransactionVersion::Magicblock && !same_key(&view.accounts[0], authority) {
        return Err(EngineError::SignatureVerification);
    }
    Ok(())
}

/// Lists the signatures of a transaction with their keys and the signed message.
pub fn signature_data(view: &TransactionView) -> (items: Vec<SignatureItem>)
    requires
        view@.ok(),
    ensures
        item_views(items@) == signature_items(view@),
{
    let mut items: Vec<SignatureItem> = Vec::new();
    let mut i: usize = 0;
    assert(item_views(items@) =~= signature_items(view@).take(0));
    while i < view.signatures.len()
        invariant
            i <= view.signatures@.len(),
            view@.ok(),
            item_views(items@) == signature_items(view@).take(i as int),
        decreases view.signatures@.len() - i,
    {
        let message = view.message.clone();
        assert(message@ =~= view.message@);
        let item = SignatureItem { signature: view.signatures[i], key: view.accounts[i], message };
        let ghost before = items@;
        items.push(item);
        assert(item_views(items@) =~= item_views(before).push(item@));
        assert(item_views(items@) =~= signature_items(view@).take(i + 1));
        i += 1;
    }
    assert(item_views(items@) =~= signature_items(view@));
    items
}

/// Every signature of a transaction is valid.
pub open spec fn all_valid(view: ViewOf) -> bool {
    forall|i: int|
        0 <= i < view.signatures.len() ==> signature_valid(
            #[trigger] view.signatures[i],
            view.accounts[i]@,
            view.message,
        )
}

/// Verifies every signature of a transaction.
pub fn sigverify(view: &TransactionView) -> (result: Result<(), EngineError>)
    requires
        view@.ok(),
    ensures
        match result {
            Ok(_) => all_valid(view@),
            Err(error) => !all_valid(view@) && error == EngineError::SignatureVerification,
        },
{
    let mut i: usize = 0;
    while i < view.signatures.len()
        invariant
            i <= view.signatures@.len(),
            view@.ok(),
            forall|k: int|
                0 <= k < i ==> signature_valid(
                    #[trigger] view@.signatures[k],
                    view@.accounts[k]@,
                    view@.message,
                ),
        decreases view.signatures@.len() - i,
    {
        let valid = verify_signature(
            &view.signatures[i],
            view.accounts[i].as_slice(),
            view.message.as_slice(),
        );
        if !valid {
            assert(!signature_valid(
                view@.signatures[i as int],
                view@.accounts[i as int]@,
                view@.message,
            ));
            return Err(EngineError::SignatureVerification);
        }
        i += 1;
    }
    Ok(())
}

/// Reads a serialized transaction, and refuses one that is private to the engine unless its
/// authority pays it.
pub open spec fn composed(bytes: Seq<u8>, authority: Pubkey) -> Result<ViewOf, EngineError> {
    match sanitized_view(bytes, true) {
        None => Err(EngineError::Sanitization),
        Some(view) => if authority_ok(view, authority) {
            Ok(view)
        } else {
            Err(EngineError::SignatureVerification)
        },
    }
}

/// Reads a serialized transaction, and refuses one that is private to the engine unless its
/// authority pays it.
pub fn compose(bytes: &[u8], authority: &Pubkey) -> (result: Result<TransactionView, EngineError>)
    ensures
        match result {
            Ok(view) => composed(bytes@, *authority) == Ok::<ViewOf, EngineError>(view@)
                && view@.ok(),
            Err(error) => composed(bytes@, *authority) == Err::<ViewOf, EngineError>(error),
        },
{
    match sanitize(bytes, true) {
        None => Err(EngineError::Sanitization),
        Some(view) => match validate_authority(&view, authority) {
            Ok(_) => Ok(view),
            Err(error) => Err(error),
        },
    }
}

/// Reads a serialized transaction and verifies its signatures.
pub fn admitted(bytes: &[u8], authority: &Pubkey) -> (result: Result<
    VerifiedTransaction,
    EngineError,
>)
    ensures
        match composed(bytes@, *authority) {
            Err(error) => result == Err::<VerifiedTransaction, EngineError>(error),
            Ok(view) => match result {
                Ok(verified) => verified.0@ == view && all_valid(view),
                Err(error) => !all_valid(view) && error == EngineError::SignatureVerification,
            },
        },
{
    match compose(bytes, authority) {
        Err(error) => Err(error),
        Ok(view) => match sigverify(&view) {
            Ok(_) => Ok(VerifiedTransaction(view)),
            Err(error) => Err(error),
        },
    }
}

/// What the first `n` transactions hold, or why one of them is refused.
pub open spec fn composed_all(transactions: Seq<Vec<u8>>, authority: Pubkey, n: nat) -> Result<
    Seq<ViewOf>,
    EngineError,
>
    decreases n,
{
    if n == 0 {
        Ok(Seq::empty())
    } else {
        match composed_all(transactions, authority, (n - 1) as nat) {
            Ok(list) => match composed(transactions[n - 1]@, authority) {
                Ok(view) => Ok(list.push(view)),
                Err(error) => Err(error),
            },
            Err(error) => Err(error),
        }
    }
}

/// Signatures of the first `n` transactions.
pub open spec fn batch_items(views: Seq<ViewOf>, n: nat) -> Seq<ItemView>
    decreases n,
{
    if n == 0 {
        Seq::empty()
    } else {
        batch_items(views, (n - 1) as nat) + signature_items(views[n - 1])
    }
}

/// Every signature that is verified at once is one of a transaction, with its key and message.
proof fn batch_items_come_from(views: Seq<ViewOf>, n: nat, i: int) -> (at: (int, int))
    requires
        n <= views.len(),
        0 <= i < batch_items(views, n).len(),
    ensures
        0 <= at.0 < n,
        0 <= at.1 < views[at.0].signatures.len(),
        batch_items(views, n)[i].signature == views[at.0].signatures[at.1],
        batch_items(views, n)[i].key == views[at.0].accounts[at.1],
        batch_items(views, n)[i].message == views[at.0].message,
    decreases n,
{
    let before = batch_items(views, (n - 1) as nat);
    if i < before.len() {
        batch_items_come_from(views, (n - 1) as nat, i)
    } else {
        (n - 1, i - before.len())
    }
}

/// Every signature of several transactions is valid.
pub open spec fn every_valid(views: Seq<ViewOf>) -> bool {
    forall|k: int, j: int|
        0 <= k < views.len() && 0 <= j < views[k].signatures.len() ==> signature_valid(
            #[trigger] views[k].signatures[j],
            views[k].accounts[j]@,
            views[k].message,
        )
}

proof fn valid_items(views: Seq<ViewOf>, items: Seq<SignatureItem>)
    requires
        item_views(items) == batch_items(views, views.len()),
    ensures
        every_valid(views) ==> forall|i: int|
            0 <= i < items.len() ==> signature_valid(
                (#[trigger] items[i]).signature,
                items[i].key@,
                items[i].message@,
            ),
{
    if every_valid(views) {
        assert forall|i: int| 0 <= i < items.len() implies signature_valid(
            (#[trigger] items[i]).signature,
            items[i].key@,
            items[i].message@,
        ) by {
            assert(item_views(items)[i] == items[i]@);
            let (k, j) = batch_items_come_from(views, views.len(), i);
            assert(views[k].signatures[j] == items[i].signature);
        }
    }
}

/// Every signature of every transaction is verified, with the account at its position as its key
/// and the message of its transaction.
pub proof fn every_signature_is_verified(views: Seq<ViewOf>, n: nat, k: int, j: int)
    requires
        n <= views.len(),
        0 <= k < n,
        0 <= j < views[k].signatures.len(),
    ensures
        exists|i: int|
            0 <= i < batch_items(views, n).len() && #[trigger] batch_items(views, n)[i] == (
            ItemView {
                signature: views[k].signatures[j],
                key: views[k].accounts[j],
                message: views[k].message,
            }),
    decreases n,
{
    let before = batch_items(views, (n - 1) as nat);
    let all = batch_items(views, n);
    if k == n - 1 {
        assert(all[before.len() + j] == signature_items(views[k])[j]);
    } else {
        every_signature_is_verified(views, (n - 1) as nat, k, j);
        let i = choose|i: int|
            0 <= i < before.len() && #[trigger] before[i] == (ItemView {
                signature: views[k].signatures[j],
                key: views[k].accounts[j],
                message: views[k].message,
            });
        assert(all[i] == before[i]);
    }
}

/// One invalid signature is enough to refuse a transaction that comes alone, whichever it is, and
/// one whose signatures are all valid is let in.
pub proof fn one_invalid_signature_refuses(view: ViewOf, j: int)
    requires
        0 <= j < view.signatures.len(),
    ensures
        !signature_valid(view.signatures[j], view.accounts[j]@, view.message) ==> !all_valid(view),
        (forall|i: int|
            0 <= i < view.signatures.len() ==> signature_valid(
                #[trigger] view.signatures[i],
                view.accounts[i]@,
                view.message,
            )) ==> all_valid(view) && every_valid(seq![view]),
        every_valid(seq![view]) ==> all_valid(view),
{
    let one = seq![view];
    if every_valid(one) {
        assert forall|i: int| 0 <= i < view.signatures.len() implies signature_valid(
            #[trigger] view.signatures[i],
            view.accounts[i]@,
            view.message,
        ) by {
            assert(one[0].signatures[i] == view.signatures[i]);
        }
    }
    if all_valid(view) {
        assert forall|k: int, i: int|
            0 <= k < one.len() && 0 <= i < one[k].signatures.len() implies signature_valid(
            #[trigger] one[k].signatures[i],
            one[k].accounts[i]@,
            one[k].message,
        ) by {
            assert(one[k] == view);
            assert(view.signatures[i] == one[k].signatures[i]);
        }
    }
}

/// As many signatures are verified as the transactions carry together.
pub proof fn no_signature_is_added(views: Seq<ViewOf>, n: nat)
    requires
        0 < n <= views.len(),
    ensures
        batch_items(views, n).len() == batch_items(views, (n - 1) as nat).len()
            + views[n - 1].signatures.len(),
        batch_items(views, 0).len() == 0,
{
}

/// A batch is read transaction by transaction: it is accepted exactly if each of its
/// transactions can be read and, where it is private to the engine, is paid by the authority. It
/// holds what each of them holds, in order.
pub proof fn batches_are_read_one_by_one(transactions: Seq<Vec<u8>>, authority: Pubkey, n: nat)
    requires
        n <= transactions.len(),
    ensures
        (composed_all(transactions, authority, n) is Ok) == (forall|i: int|
            0 <= i < n ==> match sanitized_view(#[trigger] transactions[i]@, true) {
                Some(view) => view.version is Magicblock ==> view.accounts[0] == authority,
                None => false,
            }),
        composed_all(transactions, authority, n) matches Ok(views) ==> views.len() == n && forall|
            i: int,
        |
            0 <= i < n ==> Some(#[trigger] views[i]) == sanitized_view(transactions[i]@, true),
    decreases n,
{
    if n > 0 {
        batches_are_read_one_by_one(transactions, authority, (n - 1) as nat);
        let last = transactions[n - 1];
        if composed_all(transactions, authority, n) is Err {
            if composed_all(transactions, authority, (n - 1) as nat) is Ok {
                assert(match sanitized_view(last@, true) {
                    Some(view) => !(view.version is Magicblock ==> view.accounts[0] == authority),
                    None => true,
                });
            }
        }
    }
}

/// The error of a batch is that of its first transaction that is refused: one that cannot be
/// read, or one that is private to the engine and paid by someone else.
pub proof fn first_refusal_decides(
    transactions: Seq<Vec<u8>>,
    authority: Pubkey,
    k: nat,
    n: nat,
)
    requires
        k < n <= transactions.len(),
        composed_all(transactions, authority, k) is Ok,
    ensures
        sanitized_view(transactions[k as int]@, true) is None ==> composed_all(
            transactions,
            authority,
            n,
        ) == Err::<Seq<ViewOf>, EngineError>(EngineError::Sanitization),
        sanitized_view(transactions[k as int]@, true) matches Some(view) ==> view.version is Magicblock
            && view.accounts[0] != authority ==> composed_all(transactions, authority, n) == Err::<
            Seq<ViewOf>,
            EngineError,
        >(EngineError::SignatureVerification),
{
    if let Err(error) = composed_all(transactions, authority, k + 1) {
        refused_all(transactions, authority, k + 1, n, error);
    }
}

/// A transaction that is admitted on its own is handed on in a batch, too, and the other way
/// round for a batch of one with one signature: both read it alike, and both take the same
/// signatures.
pub proof fn admission_is_the_same_in_a_batch(transaction: Vec<u8>, authority: Pubkey)
    ensures
        composed_all(seq![transaction], authority, 1) == match composed(transaction@, authority) {
            Ok(view) => Ok::<Seq<ViewOf>, EngineError>(seq![view]),
            Err(error) => Err(error),
        },
{
    let one = seq![transaction];
    assert(one[0] == transaction);
    reveal_with_fuel(composed_all, 2);
    if let Ok(view) = composed(transaction@, authority) {
        assert(Seq::<ViewOf>::empty().push(view) =~= seq![view]);
    }
}

proof fn refused_all(
    transactions: Seq<Vec<u8>>,
    authority: Pubkey,
    n: nat,
    all: nat,
    error: EngineError,
)
    requires
        n <= all,
        composed_all(transactions, authority, n) == Err::<Seq<ViewOf>, EngineError>(error),
    ensures
        composed_all(transactions, authority, all) == Err::<Seq<ViewOf>, EngineError>(error),
    decreases all,
{
    if n < all {
        refused_all(transactions, authority, n, (all - 1) as nat, error);
    }
}

/// All signatures of several transactions, with their keys and messages: what is handed to the
/// verification of many signatures at once.
pub fn batch_data(list: &Vec<VerifiedTransaction>) -> (items: Vec<SignatureItem>)
    requires
        forall|i: int| 0 <= i < list@.len() ==> (#[trigger] list@[i]).0@.ok(),
    ensures
        item_views(items@) == batch_items(verified_views(list@), list@.len()),
{
    let ghost views = verified_views(list@);
    let mut items: Vec<SignatureItem> = Vec::new();
    let mut i: usize = 0;
    assert(item_views(items@) =~= batch_items(views, 0));
    while i < list.len()
        invariant
            i <= list@.len(),
            views == verified_views(list@),
            forall|k: int| 0 <= k < list@.len() ==> (#[trigger] list@[k]).0@.ok(),
            item_views(items@) == batch_items(views, i as nat),
        decreases list@.len() - i,
    {
        let ghost before = items@;
        let mut more = signature_data(&list[i].0);
        let ghost added = more@;
        items.append(&mut more);
        assert(item_views(items@) =~= item_views(before) + item_views(added));
        assert(views[i as int] == list@[i as int].0@);
        i += 1;
    }
    items
}

/// Verifier of replicated transactions.
#[derive(Clone, Copy, Debug)]
pub struct TransactionVerifier {
    /// Authority of the engine.
    pub authority: Pubkey,
}

impl TransactionVerifier {
    /// A verifier for an authority.
    pub fn new(authority: Pubkey) -> (verifier: TransactionVerifier)
        ensures
            verifier.authority == authority,
    {
        TransactionVerifier { authority }
    }

    /// Reads all transactions, or refuses them all.
    pub fn prepare(&self, transactions: &Vec<Vec<u8>>) -> (result: Result<
        Vec<VerifiedTransaction>,
        EngineError,
    >)
        ensures
            match result {
                Ok(list) => composed_all(transactions@, self.authority, transactions@.len()) == Ok::<
                    Seq<ViewOf>,
                    EngineError,
                >(verified_views(list@)) && forall|i: int|
                    0 <= i < list@.len() ==> (#[trigger] list@[i]).0@.ok(),
                Err(error) => composed_all(transactions@, self.authority, transactions@.len())
                    == Err::<Seq<ViewOf>, EngineError>(error),
            },
    {
        let mut list: Vec<VerifiedTransaction> = Vec::new();
        let mut i: usize = 0;
        assert(verified_views(list@) =~= Seq::<ViewOf>::empty());
        while i < transactions.len()
            invariant
                i <= transactions@.len(),
                composed_all(transactions@, self.authority, i as nat) == Ok::<
                    Seq<ViewOf>,
                    EngineError,
                >(verified_views(list@)),
                forall|k: int| 0 <= k < list@.len() ==> (#[trigger] list@[k]).0@.ok(),
            decreases transactions@.len() - i,
        {
            match compose(transactions[i].as_slice(), &self.authority) {
                Ok(view) => {
                    let ghost before = list@;
                    let verified = VerifiedTransaction(view);
                    list.push(verified);
                    assert(verified_views(list@) =~= verified_views(before).push(verified.0@));
                },
                Err(error) => {
                    proof {
                        refused_all(
                            transactions@,
                            self.authority,
                            (i + 1) as nat,
                            transactions@.len(),
                            error,
                        );
                    }
                    return Err(error);
                },
            }
            i += 1;
        }
        Ok(list)
    }

    /// Hands transactions on if their signatures were accepted.
    pub fn conclude(list: Vec<VerifiedTransaction>, accepted: bool) -> (result: Result<
        Vec<VerifiedTransaction>,
        EngineError,
    >)
        ensures
            result == if accepted {
                Ok(list)
            } else {
                Err(EngineError::SignatureVerification)
            },
    {
        if accepted {
            Ok(list)
        } else {
            Err(EngineError::SignatureVerification)
        }
    }

    /// Reads all transactions and verifies all their signatures at once. Either all of them are
    /// handed on or none is. Transactions whose signatures are all valid are handed on. Whether
    /// several signatures are accepted of which one is not valid rests on random numbers; what
    /// is handed on, and what is refused before, does not.
    pub fn verify(&self, transactions: Vec<Vec<u8>>) -> (result: Result<
        Vec<VerifiedTransaction>,
        EngineError,
    >)
        ensures
            match composed_all(transactions@, self.authority, transactions@.len()) {
                Err(error) => result == Err::<Vec<VerifiedTransaction>, EngineError>(error),
                Ok(views) => {
                    let items = batch_items(views, views.len());
                    &&& match result {
                        Ok(list) => verified_views(list@) == views,
                        Err(error) => error == EngineError::SignatureVerification,
                    }
                    &&& every_valid(views) ==> result is Ok
                    &&& items.len() == 0 ==> result is Ok
                    &&& items.len() == 1 ==> (result is Ok <==> signature_valid(
                        items[0].signature,
                        items[0].key@,
                        items[0].message,
                    ))
                },
            },
    {
        let list = match self.prepare(&transactions) {
            Ok(list) => list,
            Err(error) => {
                return Err(error);
            },
        };
        let items = batch_data(&list);
        let accepted = batch_verify(&items);
        proof {
            if items@.len() == 1 {
                assert(item_views(items@)[0] == items@[0]@);
            }
            assert(item_views(items@).len() == items@.len());
            valid_items(verified_views(list@), items@);
        }
        Self::conclude(list, accepted)
    }
}

/// Account that an instruction names.
#[derive(Clone, Copy, Debug, PartialEq, Eq)]
pub struct AccountMeta {
    /// The account.
    pub pubkey: Pubkey,
    /// Whether it signs.
    pub is_signer: bool,
    /// Whether it may be changed.
    pub is_writable: bool,
}

/// Instruction that is to be sent.
#[derive(Debug)]
pub struct PlainInstruction {
    /// The program.
    pub program: Pubkey,
    /// The accounts.
    pub accounts: Vec<AccountMeta>,
    /// Instruction data.
    pub data: Vec<u8>,
}

/// What an instruction holds.
pub struct PlainView {
    pub program: Pubkey,
    pub accounts: Seq<AccountMeta>,
    pub data: Seq<u8>,
}

impl View for PlainInstruction {
    type V = PlainView;

    open spec fn view(&self) -> PlainView {
        PlainView { program: self.program, accounts: self.accounts@, data: self.data@ }
    }
}

/// What several instructions hold.
pub open spec fn plain_views(list: Seq<PlainInstruction>) -> Seq<PlainView> {
    list.map_values(|ix: PlainInstruction| ix@)
}

/// Compiled message.
#[derive(Debug)]
pub struct CompiledMessage {
    /// Accounts that sign.
    pub required_signatures: u8,
    /// Accounts that sign and may not be changed.
    pub readonly_signed: u8,
    /// Accounts that do not sign and may not be changed.
    pub readonly_unsigned: u8,
    /// The accounts.
    pub accounts: Vec<Pubkey>,
    /// The instructions.
    pub instructions: Vec<CompiledInstruction>,
}

/// What a compiled instruction holds.
pub struct CompiledView {
    pub program_index: u8,
    pub accounts: Seq<u8>,
    pub data: Seq<u8>,
}

/// What a compiled message holds.
pub struct MessageView {
    pub required_signatures: u8,
    pub readonly_signed: u8,
    pub readonly_unsigned: u8,
    pub accounts: Seq<Pubkey>,
    pub instructions: Seq<CompiledView>,
}

/// What several compiled instructions hold.
pub open spec fn compiled_views(list: Seq<CompiledInstruction>) -> Seq<CompiledView> {
    list.map_values(
        |ix: CompiledInstruction|
            CompiledView {
                program_index: ix.program_index,
                accounts: ix.accounts@,
                data: ix.data@,
            },
    )
}

impl View for CompiledMessage {
    type V = MessageView;

    open spec fn view(&self) -> MessageView {
        MessageView {
            required_signatures: self.required_signatures,
            readonly_signed: self.readonly_signed,
            readonly_unsigned: self.readonly_unsigned,
            accounts: self.accounts@,
            instructions: compiled_views(self.instructions@),
        }
    }
}

/// What instructions are compiled to.
pub uninterp spec fn compiled_message(
    payer: Pubkey,
    instructions: Seq<PlainView>,
    blockhash: BlockHash,
) -> Option<MessageView>;

/// Compiles instructions, by `solana_message::v1::Message::try_compile`. The message depends on
/// the payer, the instructions, and the block hash alone.
#[verifier::external_body]
#[allow(deprecated)]
fn compile(payer: Pubkey, instructions: &Vec<PlainInstruction>, blockhash: BlockHash) -> (message:
    Option<CompiledMessage>)
    ensures
        message is Some <==> compiled_message(payer, plain_views(instructions@), blockhash) is Some,
        message matches Some(m) ==> compiled_message(payer, plain_views(instructions@), blockhash)
            == Some(m@),
{
    OutsideMessage::try_compile(&payer.into(), &instructions.iter().map(|ix| OutsideInstruction::new_with_bytes(
        ix.program.into(),
        &ix.data,
        ix.accounts.iter().map(|&AccountMeta { pubkey, is_signer, is_writable }| OutsideMeta { pubkey: pubkey.into(), is_signer, is_writable }).collect()
    )).collect::<Vec<_>>(), blockhash.into()).ok().map(|message| CompiledMessage {
        required_signatures: message.header.num_required_signatures,
        readonly_signed: message.header.num_readonly_signed_accounts,
        readonly_unsigned: message.header.num_readonly_unsigned_accounts,
        accounts: message.account_keys.iter().map(OutsideKey::to_bytes).collect(),
        instructions: message.instructions.into_iter().map(|OutsideCompiled { program_id_index, accounts, data }| CompiledInstruction { program_index: program_id_index, accounts, data }).collect()
    })
}

/// What a message is serialized to, with room for one signature at its end.
pub uninterp spec fn serialized_message(message: MessageView, blockhash: BlockHash) -> Option<
    Seq<u8>,
>;

/// Serializes a message with room for one signature at its end, by `wincode::serialize` of a
/// `solana_transaction::versioned::VersionedTransaction`. The bytes depend on the message and
/// the block hash alone. They begin with a byte for the format.
#[verifier::external_body]
fn serialize(message: &CompiledMessage, blockhash: &BlockHash) -> (bytes: Option<Vec<u8>>)
    ensures
        bytes is Some <==> serialized_message(message@, *blockhash) is Some,
        bytes matches Some(b) ==> serialized_message(message@, *blockhash) == Some(b@) && b@.len()
            > 64,
{
    let instructions = message.instructions.iter().map(|ix| OutsideCompiled {
        program_id_index: ix.program_index, accounts: ix.accounts.clone(), data: ix.data.clone(),
    }).collect();
    let header = MessageHeader {
        num_required_signatures: message.required_signatures,
        num_readonly_signed_accounts: message.readonly_signed,
        num_readonly_unsigned_accounts: message.readonly_unsigned,
    };
    let keys = message.accounts.iter().map(|key| (*key).into()).collect();
    let compiled = OutsideMessage { header, config: TransactionConfig::empty(), lifetime_specifier: (*blockhash).into(), account_keys: keys, instructions };
    let transaction = VersionedTransaction { signatures: vec![Default::default()], message: VersionedMessage::V1(compiled) };
    wincode::serialize(&transaction).ok()
}

/// The signature of a secret key over a message.
pub uninterp spec fn signature_of(secret: Seq<u8>, message: Seq<u8>) -> Signature;

/// Signs a message, by `sign_message` of a `solana_keypair::Keypair`. The signature depends on
/// the secret key and the message alone.
#[verifier::external_body]
fn sign(secret: &[u8; 32], message: &[u8]) -> (signature: Signature)
    ensures
        signature == signature_of(secret@, message@),
{
    Keypair::new_from_array(*secret).sign_message(message).into()
}

/// Limits and format of transactions that are private to the engine.
#[derive(Clone, Copy, Debug, PartialEq, Eq, Structural)]
pub struct MagicblockFormat {
    /// Instructions that one may have.
    pub max_instructions: usize,
    /// Accounts that one, or one of its instructions, may name.
    pub max_accounts: usize,
    /// First byte.
    pub prefix: u8,
}

/// Why a compiled message is too large, if it is.
pub open spec fn excess(message: MessageView, format: MagicblockFormat) -> Option<TransactionError> {
    if message.instructions.len() > format.max_instructions {
        Some(TransactionError::SanitizeFailure)
    } else if message.accounts.len() > format.max_accounts {
        Some(TransactionError::TooManyAccountLocks)
    } else if exists|i: int|
        0 <= i < message.instructions.len() && (#[trigger] message.instructions[i]).accounts.len()
            > format.max_accounts {
        Some(TransactionError::TooManyAccountLocks)
    } else {
        None
    }
}

/// Serialized bytes with another first byte and with the signature over all but the last
/// sixty-four bytes in their place.
pub open spec fn signed_bytes(bytes: Seq<u8>, prefix: u8, secret: Seq<u8>) -> Seq<u8> {
    let signed = bytes.update(0, prefix).take(bytes.len() - 64);
    signed + signature_of(secret, signed)@
}

/// Puts another first byte into serialized bytes, and the signature over all but the last
/// sixty-four bytes into their place.
pub fn seal(bytes: Vec<u8>, prefix: u8, secret: &[u8; 32]) -> (sealed: Vec<u8>)
    requires
        bytes@.len() > 64,
    ensures
        sealed@ == signed_bytes(bytes@, prefix, secret@),
{
    let ghost given = bytes@;
    let end: usize = bytes.len() - 64;
    let mut signed: Vec<u8> = bytes;
    signed.truncate(end);
    signed.set(0, prefix);
    assert(signed@ =~= given.update(0, prefix).take(end as int));
    let signature = sign(secret, signed.as_slice());
    let ghost body = signed@;
    let mut sealed = signed;
    sealed.extend_from_slice(signature.as_slice());
    assert(sealed@ =~= body + signature@);
    sealed
}

/// Checks that a compiled message is within the limits.
pub fn check_limits(message: &CompiledMessage, format: MagicblockFormat) -> (result: Result<
    (),
    EngineError,
>)
    ensures
        match result {
            Ok(_) => excess(message@, format) is None,
            Err(error) => excess(message@, format) matches Some(reason) && error
                == EngineError::TransactionExecution(reason),
        },
{
    if message.instructions.len() > format.max_instructions {
        return Err(EngineError::TransactionExecution(TransactionError::SanitizeFailure));
    }
    if message.accounts.len() > format.max_accounts {
        return Err(EngineError::TransactionExecution(TransactionError::TooManyAccountLocks));
    }
    let mut i: usize = 0;
    while i < message.instructions.len()
        invariant
            i <= message.instructions@.len(),
            message@.instructions.len() <= format.max_instructions,
            message@.accounts.len() <= format.max_accounts,
            forall|k: int|
                0 <= k < i ==> (#[trigger] message@.instructions[k]).accounts.len()
                    <= format.max_accounts,
        decreases message.instructions@.len() - i,
    {
        let ix = &message.instructions[i];
        assert(message@.instructions[i as int].accounts == ix.accounts@);
        if ix.accounts.len() > format.max_accounts {
            return Err(EngineError::TransactionExecution(TransactionError::TooManyAccountLocks));
        }
        i += 1;
    }
    Ok(())
}

/// A transaction that is private to the engine, or why there is none.
pub open spec fn private_transaction(
    instructions: Seq<PlainView>,
    authority: Pubkey,
    secret: Seq<u8>,
    blockhash: BlockHash,
    format: MagicblockFormat,
) -> Result<Seq<u8>, EngineError> {
    match compiled_message(authority, instructions, blockhash) {
        None => Err(EngineError::TransactionCompile),
        Some(message) => match excess(message, format) {
            Some(reason) => Err(EngineError::TransactionExecution(reason)),
            None => match serialized_message(message, blockhash) {
                None => Err(EngineError::Serde),
                Some(bytes) => Ok(signed_bytes(bytes, format.prefix, secret)),
            },
        },
    }
}

/// Composes a transaction that is private to the engine and signs it.
pub fn magicblock(
    instructions: &Vec<PlainInstruction>,
    authority: &Pubkey,
    secret: &[u8; 32],
    blockhash: &BlockHash,
    format: MagicblockFormat,
) -> (result: Result<Vec<u8>, EngineError>)
    ensures
        ({
            let answer = private_transaction(
                plain_views(instructions@),
                *authority,
                secret@,
                *blockhash,
                format,
            );
            match result {
                Ok(bytes) => answer == Ok::<Seq<u8>, EngineError>(bytes@),
                Err(error) => answer == Err::<Seq<u8>, EngineError>(error),
            }
        }),
{
    let message = match compile(*authority, instructions, *blockhash) {
        Some(message) => message,
        None => {
            return Err(EngineError::TransactionCompile);
        },
    };
    match check_limits(&message, format) {
        Ok(_) => {},
        Err(error) => {
            return Err(error);
        },
    }
    match serialize(&message, blockhash) {
        Some(bytes) => Ok(seal(bytes, format.prefix, secret)),
        None => Err(EngineError::Serde),
    }
}

/// A transaction that is private to the engine ends with the signature over everything before,
/// and begins with its own first byte.
pub proof fn private_transactions_are_signed(bytes: Seq<u8>, prefix: u8, secret: Seq<u8>)
    requires
        bytes.len() > 64,
    ensures
        ({
            let sealed = signed_bytes(bytes, prefix, secret);
            let end = sealed.len() - 64;
            &&& sealed.len() == bytes.len()
            &&& sealed[0] == prefix
            &&& sealed.skip(end) == signature_of(secret, sealed.take(end))@
            &&& forall|i: int| 0 < i < end ==> sealed[i] == bytes[i]
        }),
{
    let signed = bytes.update(0, prefix).take(bytes.len() - 64);
    let sealed = signed_bytes(bytes, prefix, secret);
    let end = sealed.len() - 64;
    assert(sealed.take(end) =~= signed);
    assert(sealed.skip(end) =~= signature_of(secret, signed)@);
}

/// A batch is refused as a whole if one of its transactions is malformed, or private to the
/// engine and not paid by its authority.
pub proof fn batches_are_refused_whole(transactions: Seq<Vec<u8>>, authority: Pubkey, i: int)
    requires
        0 <= i < transactions.len(),
        composed(transactions[i]@, authority) is Err,
    ensures
        composed_all(transactions, authority, transactions.len()) is Err,
{
    refused_from(transactions, authority, i, transactions.len());
}

proof fn refused_from(transactions: Seq<Vec<u8>>, authority: Pubkey, i: int, n: nat)
    requires
        0 <= i < n <= transactions.len(),
        composed(transactions[i]@, authority) is Err,
    ensures
        composed_all(transactions, authority, n) is Err,
    decreases n,
{
    if i < n - 1 {
        refused_from(transactions, authority, i, (n - 1) as nat);
    }
}

/// A private transaction is refused for its size exactly if it has more instructions than
/// allowed, or names more accounts than allowed in all or in one of its instructions.
pub proof fn sizes_are_limited(message: MessageView, format: MagicblockFormat)
    ensures
        (excess(message, format) is None) == (message.instructions.len() <= format.max_instructions
            && message.accounts.len() <= format.max_accounts && forall|i: int|
            0 <= i < message.instructions.len() ==> (
            #[trigger] message.instructions[i]).accounts.len() <= format.max_accounts),
        message.instructions.len() > format.max_instructions ==> excess(message, format) == Some(
            TransactionError::SanitizeFailure,
        ),
        message.instructions.len() <= format.max_instructions && message.accounts.len()
            > format.max_accounts ==> excess(message, format) == Some(
            TransactionError::TooManyAccountLocks,
        ),
{
}

/// A private transaction is what its instructions compile to with the authority as its payer on
/// top of the block, serialized, with its own first byte and the signature of the secret key.
pub proof fn private_transactions_are_composed(
    instructions: Seq<PlainView>,
    authority: Pubkey,
    secret: Seq<u8>,
    blockhash: BlockHash,
    format: MagicblockFormat,
)
    ensures
        ({
            let made = private_transaction(instructions, authority, secret, blockhash, format);
            match compiled_message(authority, instructions, blockhash) {
                None => made == Err::<Seq<u8>, EngineError>(EngineError::TransactionCompile),
                Some(message) => {
                    &&& made is Ok ==> message.instructions.len() <= format.max_instructions
                        && message.accounts.len() <= format.max_accounts
                    &&& made is Ok ==> serialized_message(message, blockhash) is Some
                    &&& message.instructions.len() > format.max_instructions ==> made is Err
                    &&& message.accounts.len() > format.max_accounts ==> made is Err
                    &&& excess(message, format) is None && serialized_message(
                        message,
                        blockhash,
                    ) is None ==> made == Err::<Seq<u8>, EngineError>(EngineError::Serde)
                    &&& excess(message, format) is None ==> match serialized_message(
                        message,
                        blockhash,
                    ) {
                        Some(bytes) => bytes.len() > 64 ==> {
                            let body = bytes.update(0, format.prefix).take(bytes.len() - 64);
                            made == Ok::<Seq<u8>, EngineError>(body + signature_of(secret, body)@)
                        },
                        None => true,
                    }
                },
            }
        }),
{
}

} // verus!
