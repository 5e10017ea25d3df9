//! Composing ordinary transactions from instructions, and signing them for the engine.

use solana_instruction::{AccountMeta as OutsideMeta, Instruction as OutsideInstruction};
use solana_keypair::Keypair;
use solana_message::compiled_instruction::CompiledInstruction as OutsideCompiled;
use solana_message::Message as OutsideMessage;
use solana_pubkey::Pubkey as OutsideKey;
use solana_transaction::Transaction as OutsideTransaction;
use vstd::prelude::*;

use crate::exec::error::EngineError;
use crate::exec::transaction::{
    compose, composed, plain_views, AccountMeta, CompiledMessage, MessageView, PlainInstruction,
    PlainView,
};
use crate::ledger::schema::CompiledInstruction;
use crate::types::{same_key, BlockHash, Pubkey, Signature};
use crate::view::{TransactionView, ViewOf};

verus! {

/// Most accounts of one kind that the header of a message can count.
pub const MOST_COUNTED: usize = 255;

/// Longest list that a serialized message can hold.
pub const LONGEST_LIST: usize = 65_535;

/// Every account that the payer and the first `n` instructions name, in their order. The payer
/// signs and may be changed; a program does neither by being called.
pub open spec fn mentions(payer: Pubkey, instructions: Seq<PlainView>, n: nat) -> Seq<AccountMeta>
    decreases n,
{
    if n == 0 {
        seq![AccountMeta { pubkey: payer, is_signer: true, is_writable: true }]
    } else {
        let ix = instructions[n - 1];
        mentions(payer, instructions, (n - 1) as nat).push(
            AccountMeta { pubkey: ix.program, is_signer: false, is_writable: false },
        ) + ix.accounts
    }
}

/// An account signs where it is named somewhere.
pub open spec fn signs(list: Seq<AccountMeta>, key: Pubkey) -> bool {
    exists|i: int| 0 <= i < list.len() && (#[trigger] list[i]).pubkey == key && list[i].is_signer
}

/// An account may be changed where it is named somewhere.
pub open spec fn writes(list: Seq<AccountMeta>, key: Pubkey) -> bool {
    exists|i: int| 0 <= i < list.len() && (#[trigger] list[i]).pubkey == key && list[i].is_writable
}

/// Kinds of accounts that a message counts.
#[derive(Clone, Copy, Debug, PartialEq, Eq, Structural)]
pub enum Kind {
    /// All of them.
    Any,
    /// Those that sign.
    Signer,
    /// Those that neither sign nor may be changed.
    Readonly,
}

/// An account is of a kind.
pub open spec fn of_kind(list: Seq<AccountMeta>, key: Pubkey, kind: Kind) -> bool {
    match kind {
        Kind::Any => true,
        Kind::Signer => signs(list, key),
        Kind::Readonly => !signs(list, key) && !writes(list, key),
    }
}

/// The accounts of a kind that are among the first `n` named ones.
pub open spec fn accounts_of(list: Seq<AccountMeta>, n: int, kind: Kind) -> Set<Pubkey> {
    Set::new(
        |key: Pubkey|
            of_kind(list, key, kind) && exists|i: int|
                0 <= i < n && (#[trigger] list[i]).pubkey == key,
    )
}

/// A message can be made of instructions, and be serialized: its header can count the accounts,
/// and none of its lists is too long.
pub open spec fn compilable(payer: Pubkey, instructions: Seq<PlainView>) -> bool {
    let list = mentions(payer, instructions, instructions.len());
    &&& accounts_of(list, list.len() as int, Kind::Signer).len() <= MOST_COUNTED
    &&& accounts_of(list, list.len() as int, Kind::Readonly).len() <= MOST_COUNTED
    &&& accounts_of(list, list.len() as int, Kind::Any).len() <= LONGEST_LIST
    &&& instructions.len() <= LONGEST_LIST
    &&& forall|i: int|
        0 <= i < instructions.len() ==> (#[trigger] instructions[i]).accounts.len() <= LONGEST_LIST
            && instructions[i].data.len() <= LONGEST_LIST
}

/// A message can be serialized: none of its lists is too long.
pub open spec fn serializable(message: MessageView) -> bool {
    &&& message.accounts.len() <= LONGEST_LIST
    &&& message.instructions.len() <= LONGEST_LIST
    &&& forall|i: int|
        0 <= i < message.instructions.len() ==> (#[trigger] message.instructions[i]).accounts.len()
            <= LONGEST_LIST && message.instructions[i].data.len() <= LONGEST_LIST
}

/// Lists every account that the payer and the instructions name.
fn list_mentions(payer: &Pubkey, instructions: &Vec<PlainInstruction>) -> (list: Vec<AccountMeta>)
    ensures
        list@ == mentions(*payer, plain_views(instructions@), instructions@.len()),
{
    let ghost views = plain_views(instructions@);
    let mut list: Vec<AccountMeta> = Vec::new();
    list.push(AccountMeta { pubkey: *payer, is_signer: true, is_writable: true });
    assert(list@ =~= mentions(*payer, views, 0));
    let mut i: usize = 0;
    while i < instructions.len()
        invariant
            i <= instructions@.len(),
            views == plain_views(instructions@),
            list@ == mentions(*payer, views, i as nat),
        decreases instructions@.len() - i,
    {
        let ix = &instructions[i];
        assert(views[i as int] == ix@);
        list.push(AccountMeta { pubkey: ix.program, is_signer: false, is_writable: false });
        let ghost before = list@;
        let mut j: usize = 0;
        assert(list@ =~= before + ix.accounts@.take(0));
        while j < ix.accounts.len()
            invariant
                j <= ix.accounts@.len(),
                list@ == before + ix.accounts@.take(j as int),
            decreases ix.accounts@.len() - j,
        {
            list.push(ix.accounts[j]);
            assert(list@ =~= before + ix.accounts@.take(j + 1));
            j += 1;
        }
        assert(ix.accounts@.take(j as int) =~= ix.accounts@);
        i += 1;
    }
    list
}

/// Whether an account is of a kind.
fn is_of_kind(list: &Vec<AccountMeta>, key: &Pubkey, kind: Kind) -> (answer: bool)
    ensures
        answer == of_kind(list@, *key, kind),
{
    let mut signer: bool = false;
    let mut writable: bool = false;
    let mut i: usize = 0;
    while i < list.len()
        invariant
            i <= list@.len(),
            signer == exists|j: int|
                0 <= j < i && (#[trigger] list@[j]).pubkey == key && list@[j].is_signer,
            writable == exists|j: int|
                0 <= j < i && (#[trigger] list@[j]).pubkey == key && list@[j].is_writable,
        decreases list@.len() - i,
    {
        if same_key(&list[i].pubkey, key) {
            assert(list@[i as int].pubkey == key);
            signer = signer || list[i].is_signer;
            writable = writable || list[i].is_writable;
        }
        i += 1;
    }
    match kind {
        Kind::Any => true,
        Kind::Signer => signer,
        Kind::Readonly => !signer && !writable,
    }
}

/// One more named account is counted where it is named for the first time.
proof fn one_more(list: Seq<AccountMeta>, n: int, kind: Kind)
    requires
        0 <= n < list.len(),
        accounts_of(list, n, kind).finite(),
    ensures
        ({
            let key = list[n].pubkey;
            let seen = exists|i: int| 0 <= i < n && (#[trigger] list[i]).pubkey == key;
            let more = accounts_of(list, n + 1, kind);
            &&& more.finite()
            &&& more.len() == accounts_of(list, n, kind).len() + if !seen && of_kind(
                list,
                key,
                kind,
            ) {
                1int
            } else {
                0int
            }
        }),
{
    let key = list[n].pubkey;
    let less = accounts_of(list, n, kind);
    let more = accounts_of(list, n + 1, kind);
    if of_kind(list, key, kind) {
        assert(more =~= less.insert(key)) by {
            assert forall|k: Pubkey| more.contains(k) implies less.insert(key).contains(k) by {
                let i = choose|i: int| 0 <= i < n + 1 && (#[trigger] list[i]).pubkey == k;
                assert(i == n || list[i].pubkey == k);
            }
        }
    } else {
        assert(more =~= less) by {
            assert forall|k: Pubkey| more.contains(k) implies less.contains(k) by {
                let i = choose|i: int| 0 <= i < n + 1 && (#[trigger] list[i]).pubkey == k;
                assert(i != n);
            }
        }
    }
}

/// Counts the accounts of a kind.
fn count_of(list: &Vec<AccountMeta>, kind: Kind) -> (count: usize)
    ensures
        count == accounts_of(list@, list@.len() as int, kind).len(),
{
    let mut count: usize = 0;
    let mut i: usize = 0;
    assert(accounts_of(list@, 0, kind) =~= Set::empty());
    while i < list.len()
        invariant
            i <= list@.len(),
            count <= i,
            accounts_of(list@, i as int, kind).finite(),
            count == accounts_of(list@, i as int, kind).len(),
        decreases list@.len() - i,
    {
        let key: Pubkey = list[i].pubkey;
        let mut seen: bool = false;
        let mut j: usize = 0;
        while j < i
            invariant
                j <= i < list@.len(),
                seen == exists|k: int| 0 <= k < j && (#[trigger] list@[k]).pubkey == key,
            decreases i - j,
        {
            if same_key(&list[j].pubkey, &key) {
                assert(list@[j as int].pubkey == key);
                seen = true;
            }
            j += 1;
        }
        proof {
            one_more(list@, i as int, kind);
        }
        if !seen && is_of_kind(list, &key, kind) {
            count += 1;
        }
        i += 1;
    }
    count
}

/// Whether a message can be made of instructions.
pub fn can_compile(payer: &Pubkey, instructions: &Vec<PlainInstruction>) -> (answer: bool)
    ensures
        answer == compilable(*payer, plain_views(instructions@)),
{
    let ghost views = plain_views(instructions@);
    let mut i: usize = 0;
    while i < instructions.len()
        invariant
            i <= instructions@.len(),
            views == plain_views(instructions@),
            forall|k: int|
                0 <= k < i ==> (#[trigger] views[k]).accounts.len() <= LONGEST_LIST
                    && views[k].data.len() <= LONGEST_LIST,
        decreases instructions@.len() - i,
    {
        let ix = &instructions[i];
        assert(views[i as int] == ix@);
        if ix.accounts.len() > LONGEST_LIST || ix.data.len() > LONGEST_LIST {
            return false;
        }
        i += 1;
    }
    let list = list_mentions(payer, instructions);
    instructions.len() <= LONGEST_LIST && count_of(&list, Kind::Signer) <= MOST_COUNTED
        && count_of(&list, Kind::Readonly) <= MOST_COUNTED && count_of(&list, Kind::Any)
        <= LONGEST_LIST
}

/// What instructions are compiled to, for a payer.
pub uninterp spec fn legacy_message(payer: Pubkey, instructions: Seq<PlainView>) -> MessageView;

/// Compiles instructions, by `solana_message::Message::new` with a payer. The message depends on
/// the payer and the instructions alone. It lists every named account once; it has an
/// instruction for each given one, with as many accounts and the same data. The order of the
/// accounts is not said. A message whose header cannot count the accounts is left out: the
/// call panics there.
#[verifier::external_body]
fn compile_legacy(payer: Pubkey, instructions: &Vec<PlainInstruction>) -> (message: CompiledMessage)
    requires
        compilable(payer, plain_views(instructions@)),
    ensures
        message@ == legacy_message(payer, plain_views(instructions@)),
        ({
            let list = mentions(payer, plain_views(instructions@), instructions@.len());
            message@.accounts.len() == accounts_of(list, list.len() as int, Kind::Any).len()
        }),
        message@.instructions.len() == instructions@.len(),
        forall|i: int|
            0 <= i < instructions@.len() ==> (#[trigger] message@.instructions[i]).accounts.len()
                == instructions@[i].accounts@.len() && message@.instructions[i].data
                == instructions@[i].data@,
{
    let message = OutsideMessage::new(&instructions.iter().map(|ix| OutsideInstruction::new_with_bytes(
        ix.program.into(),
        &ix.data,
        ix.accounts.iter().map(|&AccountMeta { pubkey, is_signer, is_writable }| OutsideMeta { pubkey: pubkey.into(), is_signer, is_writable }).collect()
    )).collect::<Vec<_>>(), Some(&payer.into()));
    CompiledMessage {
        required_signatures: message.header.num_required_signatures,
        readonly_signed: message.header.num_readonly_signed_accounts,
        readonly_unsigned: message.header.num_readonly_unsigned_accounts,
        accounts: message.account_keys.iter().map(OutsideKey::to_bytes).collect(),
        instructions: message.instructions.into_iter().map(|OutsideCompiled { program_id_index, accounts, data }| CompiledInstruction { program_index: program_id_index, accounts, data }).collect()
    }
}

/// The signatures of a message on top of a block, or `None` if the secret key is not the only
/// one that has to sign.
pub uninterp spec fn message_signatures(
    message: MessageView,
    secret: Seq<u8>,
    blockhash: BlockHash,
) -> Option<Seq<Signature>>;

/// Signs a message, by `try_sign` of a `solana_transaction::Transaction` that
/// `Transaction::new_unsigned` made. The signatures depend on the message, the secret key and
/// the block hash alone. A message that cannot be serialized is left out: the call panics
/// there.
#[verifier::external_body]
fn sign_message(message: &CompiledMessage, secret: &[u8; 32], blockhash: &BlockHash) -> (signatures:
    Option<Vec<Signature>>)
    requires
        serializable(message@),
    ensures
        signatures is Some <==> message_signatures(message@, secret@, *blockhash) is Some,
        signatures matches Some(list) ==> message_signatures(message@, secret@, *blockhash) == Some(
            list@,
        ),
{
    let instructions = message.instructions.iter().map(|ix| OutsideCompiled {
        program_id_index: ix.program_index, accounts: ix.accounts.clone(), data: ix.data.clone(),
    }).collect();
    let keys = message.accounts.iter().map(|key| (*key).into()).collect();
    let mut transaction = OutsideTransaction::new_unsigned(OutsideMessage::new_with_compiled_instructions(
        message.required_signatures, message.readonly_signed, message.readonly_unsigned, keys, Default::default(), instructions,
    ));
    let signed = transaction.try_sign(&[&Keypair::new_from_array(*secret)], (*blockhash).into());
    signed.ok().map(|_| transaction.signatures.into_iter().map(Into::into).collect())
}

/// What a signed message is serialized to.
pub uninterp spec fn serialized_transaction(
    signatures: Seq<Signature>,
    message: MessageView,
    blockhash: BlockHash,
) -> Option<Seq<u8>>;

/// Serializes a signed message, by `wincode::serialize` of a `solana_transaction::Transaction`.
/// The bytes depend on the signatures, the message and the block hash alone.
#[verifier::external_body]
fn serialize_transaction(
    signatures: &Vec<Signature>,
    message: &CompiledMessage,
    blockhash: &BlockHash,
) -> (bytes: Option<Vec<u8>>)
    ensures
        bytes is Some <==> serialized_transaction(signatures@, message@, *blockhash) is Some,
        bytes matches Some(b) ==> serialized_transaction(signatures@, message@, *blockhash) == Some(
            b@,
        ),
{
    let instructions = message.instructions.iter().map(|ix| OutsideCompiled {
        program_id_index: ix.program_index, accounts: ix.accounts.clone(), data: ix.data.clone(),
    }).collect();
    let keys = message.accounts.iter().map(|key| (*key).into()).collect();
    let compiled = OutsideMessage::new_with_compiled_instructions(
        message.required_signatures, message.readonly_signed, message.readonly_unsigned, keys, (*blockhash).into(), instructions,
    );
    let signatures = signatures.iter().map(|signature| (*signature).into()).collect();
    wincode::serialize(&OutsideTransaction { signatures, message: compiled }).ok()
}

/// Serialized bytes of a signed message, or why there are none.
pub open spec fn transaction_bytes(
    signatures: Seq<Signature>,
    message: MessageView,
    blockhash: BlockHash,
) -> Result<Seq<u8>, EngineError> {
    match serialized_transaction(signatures, message, blockhash) {
        None => Err(EngineError::Serde),
        Some(bytes) => Ok(bytes),
    }
}

/// Serialized bytes of a message that a secret key signs on top of a block, or why there are
/// none.
pub open spec fn message_bytes(message: MessageView, secret: Seq<u8>, blockhash: BlockHash) -> Result<
    Seq<u8>,
    EngineError,
> {
    match message_signatures(message, secret, blockhash) {
        None => Err(EngineError::Signature),
        Some(signatures) => transaction_bytes(signatures, message, blockhash),
    }
}

/// Serialized bytes of a transaction of instructions that the authority pays and signs on top of
/// a block, or why there are none.
pub open spec fn instruction_bytes(
    instructions: Seq<PlainView>,
    authority: Pubkey,
    secret: Seq<u8>,
    blockhash: BlockHash,
) -> Result<Seq<u8>, EngineError> {
    message_bytes(legacy_message(authority, instructions), secret, blockhash)
}

/// The transaction that serialized bytes hold, or why there is none.
pub open spec fn composed_of(bytes: Result<Seq<u8>, EngineError>, authority: Pubkey) -> Result<
    ViewOf,
    EngineError,
> {
    match bytes {
        Ok(bytes) => composed(bytes, authority),
        Err(error) => Err(error),
    }
}

/// Bytes are what was to be serialized.
pub open spec fn spells(
    result: Result<Vec<u8>, EngineError>,
    expected: Result<Seq<u8>, EngineError>,
) -> bool {
    match result {
        Ok(bytes) => expected == Ok::<Seq<u8>, EngineError>(bytes@),
        Err(error) => expected == Err::<Seq<u8>, EngineError>(error),
    }
}

/// A transaction is what was to be composed.
pub open spec fn answers(
    result: Result<TransactionView, EngineError>,
    expected: Result<ViewOf, EngineError>,
) -> bool {
    match result {
        Ok(view) => expected == Ok::<ViewOf, EngineError>(view@) && view@.ok(),
        Err(error) => expected == Err::<ViewOf, EngineError>(error),
    }
}

/// Composes a transaction that was signed elsewhere.
pub fn compose_transaction(
    signatures: &Vec<Signature>,
    message: &CompiledMessage,
    blockhash: &BlockHash,
    authority: &Pubkey,
) -> (result: Result<TransactionView, EngineError>)
    ensures
        answers(
            result,
            composed_of(transaction_bytes(signatures@, message@, *blockhash), *authority),
        ),
{
    match serialize_transaction(signatures, message, blockhash) {
        None => Err(EngineError::Serde),
        Some(bytes) => compose(bytes.as_slice(), authority),
    }
}

/// Signs a message on top of a block, and serializes it.
fn seal_message(message: &CompiledMessage, secret: &[u8; 32], blockhash: &BlockHash) -> (result:
    Result<Vec<u8>, EngineError>)
    requires
        serializable(message@),
    ensures
        spells(result, message_bytes(message@, secret@, *blockhash)),
{
    match sign_message(message, secret, blockhash) {
        None => Err(EngineError::Signature),
        Some(signatures) => match serialize_transaction(&signatures, message, blockhash) {
            None => Err(EngineError::Serde),
            Some(bytes) => Ok(bytes),
        },
    }
}

/// Composes a transaction from a message that the engine signs, on top of a block.
pub fn compose_message(
    message: &CompiledMessage,
    authority: &Pubkey,
    secret: &[u8; 32],
    blockhash: &BlockHash,
) -> (result: Result<TransactionView, EngineError>)
    requires
        serializable(message@),
    ensures
        answers(
            result,
            composed_of(message_bytes(message@, secret@, *blockhash), *authority),
        ),
{
    match seal_message(message, secret, blockhash) {
        Err(error) => Err(error),
        Ok(bytes) => compose(bytes.as_slice(), authority),
    }
}

/// Serializes a transaction of instructions that the authority pays and signs on top of a block.
pub fn sign_instructions(
    instructions: &Vec<PlainInstruction>,
    authority: &Pubkey,
    secret: &[u8; 32],
    blockhash: &BlockHash,
) -> (result: Result<Vec<u8>, EngineError>)
    requires
        compilable(*authority, plain_views(instructions@)),
    ensures
        spells(
            result,
            instruction_bytes(plain_views(instructions@), *authority, secret@, *blockhash),
        ),
{
    let message = compile_legacy(*authority, instructions);
    proof {
        let views = plain_views(instructions@);
        assert forall|i: int| 0 <= i < message@.instructions.len() implies (
        #[trigger] message@.instructions[i]).accounts.len() <= LONGEST_LIST
            && message@.instructions[i].data.len() <= LONGEST_LIST by {
            assert(views[i] == instructions@[i]@);
        }
    }
    seal_message(&message, secret, blockhash)
}

/// Composes a transaction from instructions that the authority pays and signs, on top of a
/// block.
pub fn compose_instructions(
    instructions: &Vec<PlainInstruction>,
    authority: &Pubkey,
    secret: &[u8; 32],
    blockhash: &BlockHash,
) -> (result: Result<TransactionView, EngineError>)
    requires
        compilable(*authority, plain_views(instructions@)),
    ensures
        answers(
            result,
            composed_of(
                instruction_bytes(plain_views(instructions@), *authority, secret@, *blockhash),
                *authority,
            ),
        ),
{
    match sign_instructions(instructions, authority, secret, blockhash) {
        Err(error) => Err(error),
        Ok(bytes) => compose(bytes.as_slice(), authority),
    }
}

/// An account is named exactly if it pays, is a program that is called, or is listed by an
/// instruction.
pub proof fn everyone_named_is_mentioned(
    payer: Pubkey,
    instructions: Seq<PlainView>,
    n: nat,
    key: Pubkey,
)
    requires
        n <= instructions.len(),
    ensures
        ({
            let list = mentions(payer, instructions, n);
            &&& (exists|i: int| 0 <= i < list.len() && (#[trigger] list[i]).pubkey == key) <==> (key
                == payer || (exists|k: int|
                0 <= k < n && (#[trigger] instructions[k]).program == key) || exists|k: int, j: int|
                0 <= k < n && 0 <= j < instructions[k].accounts.len()
                    && (#[trigger] instructions[k].accounts[j]).pubkey == key)
            &&& signs(list, key) <==> (key == payer || exists|k: int, j: int|
                0 <= k < n && 0 <= j < instructions[k].accounts.len()
                    && (#[trigger] instructions[k].accounts[j]).pubkey == key
                    && instructions[k].accounts[j].is_signer)
            &&& writes(list, key) <==> (key == payer || exists|k: int, j: int|
                0 <= k < n && 0 <= j < instructions[k].accounts.len()
                    && (#[trigger] instructions[k].accounts[j]).pubkey == key
                    && instructions[k].accounts[j].is_writable)
        }),
    decreases n,
{
    let list = mentions(payer, instructions, n);
    if n == 0 {
        assert(list[0].pubkey == payer);
    } else {
        everyone_named_is_mentioned(payer, instructions, (n - 1) as nat, key);
        let less = mentions(payer, instructions, (n - 1) as nat);
        let ix = instructions[n - 1];
        assert forall|i: int| 0 <= i < less.len() implies #[trigger] list[i] == less[i] by {}
        assert(list[less.len() as int].pubkey == ix.program);
        assert forall|j: int| 0 <= j < ix.accounts.len() implies list[less.len() + 1 + j]
            == #[trigger] ix.accounts[j] by {}
        assert forall|i: int| less.len() < i < list.len() implies #[trigger] list[i]
            == instructions[n - 1].accounts[i - less.len() - 1] by {}
        if exists|i: int| 0 <= i < less.len() && (#[trigger] less[i]).pubkey == key {
            let i = choose|i: int| 0 <= i < less.len() && (#[trigger] less[i]).pubkey == key;
            assert(list[i].pubkey == key);
        }
        if signs(less, key) {
            let i = choose|i: int|
                0 <= i < less.len() && (#[trigger] less[i]).pubkey == key && less[i].is_signer;
            assert(list[i].pubkey == key && list[i].is_signer);
        }
        if writes(less, key) {
            let i = choose|i: int|
                0 <= i < less.len() && (#[trigger] less[i]).pubkey == key && less[i].is_writable;
            assert(list[i].pubkey == key && list[i].is_writable);
        }
    }
}

/// A transaction of instructions is the message that they compile to with the authority as its
/// payer, signed with the secret key on top of the block, and serialized with those signatures
/// and that block. Where no signature can be made, or nothing serialized, that is the error.
pub proof fn composed_bytes_are_signed(
    instructions: Seq<PlainView>,
    authority: Pubkey,
    secret: Seq<u8>,
    blockhash: BlockHash,
)
    ensures
        ({
            let message = legacy_message(authority, instructions);
            let bytes = instruction_bytes(instructions, authority, secret, blockhash);
            match message_signatures(message, secret, blockhash) {
                None => bytes == Err::<Seq<u8>, EngineError>(EngineError::Signature),
                Some(signatures) => match serialized_transaction(signatures, message, blockhash) {
                    None => bytes == Err::<Seq<u8>, EngineError>(EngineError::Serde),
                    Some(spelled) => bytes == Ok::<Seq<u8>, EngineError>(spelled),
                },
            }
        }),
{
}

/// What is composed is what the serialized bytes are read as, unless they are private to the
/// engine and paid by someone else.
pub proof fn composed_transactions_are_read_back(
    bytes: Seq<u8>,
    authority: Pubkey,
    view: ViewOf,
)
    requires
        composed_of(Ok(bytes), authority) == Ok::<ViewOf, EngineError>(view),
    ensures
        crate::view::sanitized_view(bytes, true) == Some(view),
        view.version is Magicblock ==> view.accounts[0] == authority,
{
}

proof fn no_more_than_named(list: Seq<AccountMeta>, n: int, kind: Kind)
    requires
        0 <= n <= list.len(),
    ensures
        accounts_of(list, n, kind).finite(),
        accounts_of(list, n, kind).len() <= n,
    decreases n,
{
    if n == 0 {
        assert(accounts_of(list, 0, kind) =~= Set::<Pubkey>::empty());
    } else {
        no_more_than_named(list, n - 1, kind);
        one_more(list, n - 1, kind);
    }
}

/// Instructions that name few accounts and carry little data can be made a message; a list that is
/// too long, and data that are too long, cannot.
pub proof fn small_messages_can_be_made(payer: Pubkey, instructions: Seq<PlainView>)
    ensures
        mentions(payer, instructions, instructions.len()).len() <= 255 && instructions.len()
            <= 65_535 && (forall|i: int|
            0 <= i < instructions.len() ==> (#[trigger] instructions[i]).accounts.len() <= 65_535
                && instructions[i].data.len() <= 65_535) ==> compilable(payer, instructions),
        instructions.len() > 65_535 ==> !compilable(payer, instructions),
        (exists|i: int|
            0 <= i < instructions.len() && ((#[trigger] instructions[i]).accounts.len() > 65_535
                || instructions[i].data.len() > 65_535)) ==> !compilable(payer, instructions),
{
    let list = mentions(payer, instructions, instructions.len());
    no_more_than_named(list, list.len() as int, Kind::Any);
    no_more_than_named(list, list.len() as int, Kind::Signer);
    no_more_than_named(list, list.len() as int, Kind::Readonly);
}

/// The payer comes first, signs, and may be changed, whatever the instructions say of it.
pub proof fn payers_sign(payer: Pubkey, instructions: Seq<PlainView>, n: nat)
    requires
        n <= instructions.len(),
    ensures
        signs(mentions(payer, instructions, n), payer),
        writes(mentions(payer, instructions, n), payer),
        mentions(payer, instructions, n).len() > 0,
        mentions(payer, instructions, n)[0] == (AccountMeta {
            pubkey: payer,
            is_signer: true,
            is_writable: true,
        }),
    decreases n,
{
    if n > 0 {
        payers_sign(payer, instructions, (n - 1) as nat);
    }
    let list = mentions(payer, instructions, n);
    assert(list[0].pubkey == payer);
}

} // verus!
