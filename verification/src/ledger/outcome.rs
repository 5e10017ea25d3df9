//! Transaction results and their encoding.

use vstd::prelude::*;

use crate::bytes::{le_bytes, le_value, u32_from_le, u32_to_le};

verus! {

/// Why an instruction failed.
#[derive(Clone, Copy, PartialEq, Eq, Structural, Debug)]
pub enum InstructionError {
    /// Number that the program gave.
    Custom(u32),
    /// Number of a runtime error.
    Numbered(u32),
}

/// Number under which a program's own number follows.
pub const CUSTOM: u32 = 25;

/// Numbers of runtime errors lie below this one.
pub const INSTRUCTION_ERRORS: u32 = 54;

impl InstructionError {
    /// Runtime errors have their own numbers.
    pub open spec fn ok(self) -> bool {
        self matches InstructionError::Numbered(n) ==> n < INSTRUCTION_ERRORS && n != CUSTOM
    }
}

/// Why a transaction was rejected or failed.
#[derive(Clone, Copy, PartialEq, Eq, Structural, Debug)]
pub enum TransactionError {
    /// An account is in use by another transaction.
    AccountInUse,
    /// An account appears twice.
    AccountLoadedTwice,
    /// The account to be debited is not known.
    AccountNotFound,
    /// The program is not known.
    ProgramAccountNotFound,
    /// The balance does not cover the fee.
    InsufficientFundsForFee,
    /// The account may not pay fees.
    InvalidAccountForFee,
    /// The signature was seen before.
    AlreadyProcessed,
    /// The block hash is not recent.
    BlockhashNotFound,
    /// An instruction failed: its position, and why.
    InstructionError(u8, InstructionError),
    /// The loader call chain is too deep.
    CallChainTooDeep,
    /// A fee is due but nobody has signed for it.
    MissingSignatureForFee,
    /// An account reference is out of range.
    InvalidAccountIndex,
    /// A signature is wrong.
    SignatureFailure,
    /// The program may not be executed.
    InvalidProgramForExecution,
    /// The transaction is malformed.
    SanitizeFailure,
    /// Transactions are disabled.
    ClusterMaintenance,
    /// An account was left borrowed.
    AccountBorrowOutstanding,
    /// The block would cost too much.
    WouldExceedMaxBlockCostLimit,
    /// The transaction version is not supported.
    UnsupportedVersion,
    /// A writable account cannot be written.
    InvalidWritableAccount,
    /// An account would cost too much.
    WouldExceedMaxAccountCostLimit,
    /// The block would hold too much account data.
    WouldExceedAccountDataBlockLimit,
    /// Too many accounts are named.
    TooManyAccountLocks,
    /// The lookup table is not known.
    AddressLookupTableNotFound,
    /// The lookup table has the wrong owner.
    InvalidAddressLookupTableOwner,
    /// The lookup table is malformed.
    InvalidAddressLookupTableData,
    /// A lookup is out of range.
    InvalidAddressLookupTableIndex,
    /// An account would fall below the rent minimum.
    InvalidRentPayingAccount,
    /// Votes would cost too much.
    WouldExceedMaxVoteCostLimit,
    /// There would be too much account data.
    WouldExceedAccountDataTotalLimit,
    /// An instruction is repeated: its position.
    DuplicateInstruction(u8),
    /// An account cannot pay its rent: its position.
    InsufficientFundsForRent { account_index: u8 },
    /// Too much account data was loaded.
    MaxLoadedAccountsDataSizeExceeded,
    /// The limit on loaded account data is zero.
    InvalidLoadedAccountsDataSizeLimit,
    /// The transaction has to be sanitized again.
    ResanitizationNeeded,
    /// The program is restricted: its position.
    ProgramExecutionTemporarilyRestricted { account_index: u8 },
    /// Balances do not add up.
    UnbalancedTransaction,
    /// The program cache is full.
    ProgramCacheHitMaxLimit,
    /// The commit was cancelled.
    CommitCancelled,
}

/// Outcome of a transaction.
pub type TransactionResult = Result<(), TransactionError>;

impl TransactionError {
    /// Number of the error.
    pub open spec fn number(self) -> u32 {
        match self {
            TransactionError::AccountInUse => 0,
            TransactionError::AccountLoadedTwice => 1,
            TransactionError::AccountNotFound => 2,
            TransactionError::ProgramAccountNotFound => 3,
            TransactionError::InsufficientFundsForFee => 4,
            TransactionError::InvalidAccountForFee => 5,
            TransactionError::AlreadyProcessed => 6,
            TransactionError::BlockhashNotFound => 7,
            TransactionError::InstructionError(_, _) => 8,
            TransactionError::CallChainTooDeep => 9,
            TransactionError::MissingSignatureForFee => 10,
            TransactionError::InvalidAccountIndex => 11,
            TransactionError::SignatureFailure => 12,
            TransactionError::InvalidProgramForExecution => 13,
            TransactionError::SanitizeFailure => 14,
            TransactionError::ClusterMaintenance => 15,
            TransactionError::AccountBorrowOutstanding => 16,
            TransactionError::WouldExceedMaxBlockCostLimit => 17,
            TransactionError::UnsupportedVersion => 18,
            TransactionError::InvalidWritableAccount => 19,
            TransactionError::WouldExceedMaxAccountCostLimit => 20,
            TransactionError::WouldExceedAccountDataBlockLimit => 21,
            TransactionError::TooManyAccountLocks => 22,
            TransactionError::AddressLookupTableNotFound => 23,
            TransactionError::InvalidAddressLookupTableOwner => 24,
            TransactionError::InvalidAddressLookupTableData => 25,
            TransactionError::InvalidAddressLookupTableIndex => 26,
            TransactionError::InvalidRentPayingAccount => 27,
            TransactionError::WouldExceedMaxVoteCostLimit => 28,
            TransactionError::WouldExceedAccountDataTotalLimit => 29,
            TransactionError::DuplicateInstruction(_) => 30,
            TransactionError::InsufficientFundsForRent { .. } => 31,
            TransactionError::MaxLoadedAccountsDataSizeExceeded => 32,
            TransactionError::InvalidLoadedAccountsDataSizeLimit => 33,
            TransactionError::ResanitizationNeeded => 34,
            TransactionError::ProgramExecutionTemporarilyRestricted { .. } => 35,
            TransactionError::UnbalancedTransaction => 36,
            TransactionError::ProgramCacheHitMaxLimit => 37,
            TransactionError::CommitCancelled => 38,
        }
    }

    /// What follows the number: a position, and the failure of an instruction.
    pub open spec fn details(self) -> Seq<u8> {
        match self {
            TransactionError::InstructionError(at, error) => seq![at] + match error {
                InstructionError::Custom(n) => le_bytes(CUSTOM as nat, 4) + le_bytes(n as nat, 4),
                InstructionError::Numbered(n) => le_bytes(n as nat, 4),
            },
            TransactionError::DuplicateInstruction(at) => seq![at],
            TransactionError::InsufficientFundsForRent { account_index } => seq![account_index],
            TransactionError::ProgramExecutionTemporarilyRestricted { account_index } => {
                seq![account_index]
            },
            _ => Seq::empty(),
        }
    }

    /// Instruction failures have their own numbers.
    pub open spec fn ok(self) -> bool {
        self matches TransactionError::InstructionError(_, error) ==> error.ok()
    }

    /// Number of the error.
    pub fn tag(self) -> (n: u32)
        ensures
            n == self.number(),
    {
        match self {
            TransactionError::AccountInUse => 0,
            TransactionError::AccountLoadedTwice => 1,
            TransactionError::AccountNotFound => 2,
            TransactionError::ProgramAccountNotFound => 3,
            TransactionError::InsufficientFundsForFee => 4,
            TransactionError::InvalidAccountForFee => 5,
            TransactionError::AlreadyProcessed => 6,
            TransactionError::BlockhashNotFound => 7,
            TransactionError::InstructionError(_, _) => 8,
            TransactionError::CallChainTooDeep => 9,
            TransactionError::MissingSignatureForFee => 10,
            TransactionError::InvalidAccountIndex => 11,
            TransactionError::SignatureFailure => 12,
            TransactionError::InvalidProgramForExecution => 13,
            TransactionError::SanitizeFailure => 14,
            TransactionError::ClusterMaintenance => 15,
            TransactionError::AccountBorrowOutstanding => 16,
            TransactionError::WouldExceedMaxBlockCostLimit => 17,
            TransactionError::UnsupportedVersion => 18,
            TransactionError::InvalidWritableAccount => 19,
            TransactionError::WouldExceedMaxAccountCostLimit => 20,
            TransactionError::WouldExceedAccountDataBlockLimit => 21,
            TransactionError::TooManyAccountLocks => 22,
            TransactionError::AddressLookupTableNotFound => 23,
            TransactionError::InvalidAddressLookupTableOwner => 24,
            TransactionError::InvalidAddressLookupTableData => 25,
            TransactionError::InvalidAddressLookupTableIndex => 26,
            TransactionError::InvalidRentPayingAccount => 27,
            TransactionError::WouldExceedMaxVoteCostLimit => 28,
            TransactionError::WouldExceedAccountDataTotalLimit => 29,
            TransactionError::DuplicateInstruction(_) => 30,
            TransactionError::InsufficientFundsForRent { .. } => 31,
            TransactionError::MaxLoadedAccountsDataSizeExceeded => 32,
            TransactionError::InvalidLoadedAccountsDataSizeLimit => 33,
            TransactionError::ResanitizationNeeded => 34,
            TransactionError::ProgramExecutionTemporarilyRestricted { .. } => 35,
            TransactionError::UnbalancedTransaction => 36,
            TransactionError::ProgramCacheHitMaxLimit => 37,
            TransactionError::CommitCancelled => 38,
        }
    }
}

/// The error without details that has number `n`.
pub open spec fn plain_error(n: u32) -> Option<TransactionError> {
    if n == 0 {
        Some(TransactionError::AccountInUse)
    } else if n == 1 {
        Some(TransactionError::AccountLoadedTwice)
    } else if n == 2 {
        Some(TransactionError::AccountNotFound)
    } else if n == 3 {
        Some(TransactionError::ProgramAccountNotFound)
    } else if n == 4 {
        Some(TransactionError::InsufficientFundsForFee)
    } else if n == 5 {
        Some(TransactionError::InvalidAccountForFee)
    } else if n == 6 {
        Some(TransactionError::AlreadyProcessed)
    } else if n == 7 {
        Some(TransactionError::BlockhashNotFound)
    } else if n == 9 {
        Some(TransactionError::CallChainTooDeep)
    } else if n == 10 {
        Some(TransactionError::MissingSignatureForFee)
    } else if n == 11 {
        Some(TransactionError::InvalidAccountIndex)
    } else if n == 12 {
        Some(TransactionError::SignatureFailure)
    } else if n == 13 {
        Some(TransactionError::InvalidProgramForExecution)
    } else if n == 14 {
        Some(TransactionError::SanitizeFailure)
    } else if n == 15 {
        Some(TransactionError::ClusterMaintenance)
    } else if n == 16 {
        Some(TransactionError::AccountBorrowOutstanding)
    } else if n == 17 {
        Some(TransactionError::WouldExceedMaxBlockCostLimit)
    } else if n == 18 {
        Some(TransactionError::UnsupportedVersion)
    } else if n == 19 {
        Some(TransactionError::InvalidWritableAccount)
    } else if n == 20 {
        Some(TransactionError::WouldExceedMaxAccountCostLimit)
    } else if n == 21 {
        Some(TransactionError::WouldExceedAccountDataBlockLimit)
    } else if n == 22 {
        Some(TransactionError::TooManyAccountLocks)
    } else if n == 23 {
        Some(TransactionError::AddressLookupTableNotFound)
    } else if n == 24 {
        Some(TransactionError::InvalidAddressLookupTableOwner)
    } else if n == 25 {
        Some(TransactionError::InvalidAddressLookupTableData)
    } else if n == 26 {
        Some(TransactionError::InvalidAddressLookupTableIndex)
    } else if n == 27 {
        Some(TransactionError::InvalidRentPayingAccount)
    } else if n == 28 {
        Some(TransactionError::WouldExceedMaxVoteCostLimit)
    } else if n == 29 {
        Some(TransactionError::WouldExceedAccountDataTotalLimit)
    } else if n == 32 {
        Some(TransactionError::MaxLoadedAccountsDataSizeExceeded)
    } else if n == 33 {
        Some(TransactionError::InvalidLoadedAccountsDataSizeLimit)
    } else if n == 34 {
        Some(TransactionError::ResanitizationNeeded)
    } else if n == 36 {
        Some(TransactionError::UnbalancedTransaction)
    } else if n == 37 {
        Some(TransactionError::ProgramCacheHitMaxLimit)
    } else if n == 38 {
        Some(TransactionError::CommitCancelled)
    } else {
        None
    }
}

/// The error without details that has number `n`.
fn plain(n: u32) -> (error: Option<TransactionError>)
    ensures
        error == plain_error(n),
{
    if n == 0 {
        Some(TransactionError::AccountInUse)
    } else if n == 1 {
        Some(TransactionError::AccountLoadedTwice)
    } else if n == 2 {
        Some(TransactionError::AccountNotFound)
    } else if n == 3 {
        Some(TransactionError::ProgramAccountNotFound)
    } else if n == 4 {
        Some(TransactionError::InsufficientFundsForFee)
    } else if n == 5 {
        Some(TransactionError::InvalidAccountForFee)
    } else if n == 6 {
        Some(TransactionError::AlreadyProcessed)
    } else if n == 7 {
        Some(TransactionError::BlockhashNotFound)
    } else if n == 9 {
        Some(TransactionError::CallChainTooDeep)
    } else if n == 10 {
        Some(TransactionError::MissingSignatureForFee)
    } else if n == 11 {
        Some(TransactionError::InvalidAccountIndex)
    } else if n == 12 {
        Some(TransactionError::SignatureFailure)
    } else if n == 13 {
        Some(TransactionError::InvalidProgramForExecution)
    } else if n == 14 {
        Some(TransactionError::SanitizeFailure)
    } else if n == 15 {
        Some(TransactionError::ClusterMaintenance)
    } else if n == 16 {
        Some(TransactionError::AccountBorrowOutstanding)
    } else if n == 17 {
        Some(TransactionError::WouldExceedMaxBlockCostLimit)
    } else if n == 18 {
        Some(TransactionError::UnsupportedVersion)
    } else if n == 19 {
        Some(TransactionError::InvalidWritableAccount)
    } else if n == 20 {
        Some(TransactionError::WouldExceedMaxAccountCostLimit)
    } else if n == 21 {
        Some(TransactionError::WouldExceedAccountDataBlockLimit)
    } else if n == 22 {
        Some(TransactionError::TooManyAccountLocks)
    } else if n == 23 {
        Some(TransactionError::AddressLookupTableNotFound)
    } else if n == 24 {
        Some(TransactionError::InvalidAddressLookupTableOwner)
    } else if n == 25 {
        Some(TransactionError::InvalidAddressLookupTableData)
    } else if n == 26 {
        Some(TransactionError::InvalidAddressLookupTableIndex)
    } else if n == 27 {
        Some(TransactionError::InvalidRentPayingAccount)
    } else if n == 28 {
        Some(TransactionError::WouldExceedMaxVoteCostLimit)
    } else if n == 29 {
        Some(TransactionError::WouldExceedAccountDataTotalLimit)
    } else if n == 32 {
        Some(TransactionError::MaxLoadedAccountsDataSizeExceeded)
    } else if n == 33 {
        Some(TransactionError::InvalidLoadedAccountsDataSizeLimit)
    } else if n == 34 {
        Some(TransactionError::ResanitizationNeeded)
    } else if n == 36 {
        Some(TransactionError::UnbalancedTransaction)
    } else if n == 37 {
        Some(TransactionError::ProgramCacheHitMaxLimit)
    } else if n == 38 {
        Some(TransactionError::CommitCancelled)
    } else {
        None
    }
}

/// Encoding of an outcome.
pub open spec fn outcome_bytes(result: TransactionResult) -> Seq<u8> {
    match result {
        Ok(_) => le_bytes(0, 4),
        Err(error) => le_bytes(1, 4) + (le_bytes(error.number() as nat, 4) + error.details()),
    }
}

/// Outcomes that can be encoded.
pub open spec fn outcome_ok(result: TransactionResult) -> bool {
    result matches Err(error) ==> error.ok()
}

/// Four bytes from `at` on, as a number.
pub open spec fn number_at(bytes: Seq<u8>, at: int) -> u32 {
    le_value(bytes.subrange(at, at + 4)) as u32
}

/// The instruction failure that `bytes` begin with, and its length.
pub open spec fn parse_instruction_error(bytes: Seq<u8>) -> Option<(InstructionError, nat)> {
    if bytes.len() < 4 {
        None
    } else if number_at(bytes, 0) == CUSTOM {
        if bytes.len() < 8 {
            None
        } else {
            Some((InstructionError::Custom(number_at(bytes, 4)), 8nat))
        }
    } else if number_at(bytes, 0) < INSTRUCTION_ERRORS {
        Some((InstructionError::Numbered(number_at(bytes, 0)), 4nat))
    } else {
        None
    }
}

/// The error that `bytes` begin with, and its length.
pub open spec fn parse_error(bytes: Seq<u8>) -> Option<(TransactionError, nat)> {
    if bytes.len() < 4 {
        None
    } else {
        let n = number_at(bytes, 0);
        if plain_error(n) is Some {
            Some((plain_error(n)->0, 4nat))
        } else if bytes.len() < 5 {
            None
        } else {
            let at = bytes[4];
            if n == 8 {
                match parse_instruction_error(bytes.skip(5)) {
                    Some((error, k)) => Some(
                        (TransactionError::InstructionError(at, error), (5 + k) as nat),
                    ),
                    None => None,
                }
            } else if n == 30 {
                Some((TransactionError::DuplicateInstruction(at), 5nat))
            } else if n == 31 {
                Some((TransactionError::InsufficientFundsForRent { account_index: at }, 5nat))
            } else if n == 35 {
                Some(
                    (
                        TransactionError::ProgramExecutionTemporarilyRestricted {
                            account_index: at,
                        },
                        5nat,
                    ),
                )
            } else {
                None
            }
        }
    }
}

/// The outcome that `bytes` begin with, and its length.
pub open spec fn parse_outcome(bytes: Seq<u8>) -> Option<(TransactionResult, nat)> {
    if bytes.len() < 4 {
        None
    } else if number_at(bytes, 0) == 0 {
        Some((Ok(()), 4nat))
    } else if number_at(bytes, 0) == 1 {
        match parse_error(bytes.skip(4)) {
            Some((error, k)) => Some((Err(error), (4 + k) as nat)),
            None => None,
        }
    } else {
        None
    }
}

proof fn number_after(head: Seq<u8>, n: u32, tail: Seq<u8>)
    ensures
        (head + le_bytes(n as nat, 4) + tail).len() == head.len() + 4 + tail.len(),
        number_at(head + le_bytes(n as nat, 4) + tail, head.len() as int) == n,
{
    crate::bytes::widths();
    crate::bytes::le_bytes_spell(n as nat, 4);
    let all = head + le_bytes(n as nat, 4) + tail;
    assert(all.subrange(head.len() as int, head.len() as int + 4) =~= le_bytes(n as nat, 4));
}

proof fn parse_error_spelled(error: TransactionError, tail: Seq<u8>)
    requires
        error.ok(),
    ensures
        parse_error(le_bytes(error.number() as nat, 4) + error.details() + tail) == Some(
            (error, (4 + error.details().len()) as nat),
        ),
{
    let none = Seq::<u8>::empty();
    let details = error.details();
    let bytes = le_bytes(error.number() as nat, 4) + details + tail;
    number_after(none, error.number(), details + tail);
    assert(none + le_bytes(error.number() as nat, 4) + (details + tail) =~= bytes);
    match error {
        TransactionError::InstructionError(at, failure) => {
            let rest = bytes.skip(5);
            assert(bytes[4] == at);
            match failure {
                InstructionError::Custom(n) => {
                    let code = le_bytes(CUSTOM as nat, 4);
                    number_after(none, CUSTOM, le_bytes(n as nat, 4) + tail);
                    number_after(code, n, tail);
                    assert(rest =~= none + code + (le_bytes(n as nat, 4) + tail));
                    assert(rest =~= code + le_bytes(n as nat, 4) + tail);
                    crate::bytes::u32_spellings(CUSTOM, n);
                    crate::bytes::u32_spellings(n, n);
                },
                InstructionError::Numbered(n) => {
                    number_after(none, n, tail);
                    assert(rest =~= none + le_bytes(n as nat, 4) + tail);
                    crate::bytes::u32_spellings(n, n);
                },
            }
        },
        TransactionError::DuplicateInstruction(at) => {
            assert(bytes[4] == at);
        },
        TransactionError::InsufficientFundsForRent { account_index } => {
            assert(bytes[4] == account_index);
        },
        TransactionError::ProgramExecutionTemporarilyRestricted { account_index } => {
            assert(bytes[4] == account_index);
        },
        _ => {},
    }
}

/// Decoding gives back what was encoded, whatever follows it.
pub proof fn outcome_roundtrip(result: TransactionResult, tail: Seq<u8>)
    requires
        outcome_ok(result),
    ensures
        parse_outcome(outcome_bytes(result) + tail) == Some((result, outcome_bytes(result).len())),
{
    let none = Seq::<u8>::empty();
    let bytes = outcome_bytes(result) + tail;
    match result {
        Ok(unit) => {
            assert(unit == ());
            number_after(none, 0, tail);
            assert(none + le_bytes(0, 4) + tail =~= bytes);
            crate::bytes::u32_spellings(0, 0);
        },
        Err(error) => {
            let spelled = le_bytes(error.number() as nat, 4) + error.details();
            number_after(none, 1, spelled + tail);
            assert(none + le_bytes(1, 4) + (spelled + tail) =~= bytes);
            crate::bytes::u32_spellings(1, 1);
            crate::bytes::u32_spellings(error.number(), 0);
            assert(bytes.skip(4) =~= spelled + tail);
            parse_error_spelled(error, tail);
        },
    }
}

/// Appends the encoding of an outcome.
pub fn push_outcome(out: &mut Vec<u8>, result: &TransactionResult)
    ensures
        final(out)@ == old(out)@ + outcome_bytes(*result),
{
    let ghost before = out@;
    match result {
        Ok(_) => {
            out.extend_from_slice(u32_to_le(0).as_slice());
        },
        Err(error) => {
            out.extend_from_slice(u32_to_le(1).as_slice());
            out.extend_from_slice(u32_to_le(error.tag()).as_slice());
            match error {
                TransactionError::InstructionError(at, failure) => {
                    out.push(*at);
                    match failure {
                        InstructionError::Custom(n) => {
                            out.extend_from_slice(u32_to_le(CUSTOM).as_slice());
                            out.extend_from_slice(u32_to_le(*n).as_slice());
                        },
                        InstructionError::Numbered(n) => {
                            out.extend_from_slice(u32_to_le(*n).as_slice());
                        },
                    }
                },
                TransactionError::DuplicateInstruction(at) => {
                    out.push(*at);
                },
                TransactionError::InsufficientFundsForRent { account_index } => {
                    out.push(*account_index);
                },
                TransactionError::ProgramExecutionTemporarilyRestricted { account_index } => {
                    out.push(*account_index);
                },
                _ => {},
            }
        },
    }
    assert(out@ =~= before + outcome_bytes(*result));
}

/// Four bytes from `at` on, as a number.
pub fn read_u32(bytes: &[u8], at: usize) -> (n: u32)
    requires
        at + 4 <= bytes@.len(),
    ensures
        n == number_at(bytes@, at as int),
        n == le_value(bytes@.subrange(at as int, at + 4)),
{
    let four: [u8; 4] = [bytes[at], bytes[at + 1], bytes[at + 2], bytes[at + 3]];
    assert(four@ =~= bytes@.subrange(at as int, at + 4));
    u32_from_le(&four)
}

/// Decodes the error that stands at `at`, and says where it ends.
fn read_error(bytes: &[u8], at: usize) -> (read: Option<(TransactionError, usize)>)
    requires
        at <= bytes@.len(),
    ensures
        match parse_error(bytes@.skip(at as int)) {
            Some((error, k)) => read == Some((error, (at + k) as usize)) && at + k
                <= bytes@.len(),
            None => read is None,
        },
{
    let ghost rest = bytes@.skip(at as int);
    let left: usize = bytes.len() - at;
    if left < 4 {
        return None;
    }
    assert(rest.subrange(0, 4) =~= bytes@.subrange(at as int, at + 4));
    let n: u32 = read_u32(bytes, at);
    if let Some(error) = plain(n) {
        return Some((error, at + 4));
    }
    if left < 5 {
        return None;
    }
    let position: u8 = bytes[at + 4];
    if n == 8 {
        let ghost tail = rest.skip(5);
        if left < 9 {
            return None;
        }
        assert(tail.subrange(0, 4) =~= bytes@.subrange(at + 5, at + 9));
        let code: u32 = read_u32(bytes, at + 5);
        if code == CUSTOM {
            if left < 13 {
                return None;
            }
            assert(tail.subrange(4, 8) =~= bytes@.subrange(at + 9, at + 13));
            let own: u32 = read_u32(bytes, at + 9);
            let error = TransactionError::InstructionError(position, InstructionError::Custom(own));
            Some((error, at + 13))
        } else if code < INSTRUCTION_ERRORS {
            let failure = InstructionError::Numbered(code);
            Some((TransactionError::InstructionError(position, failure), at + 9))
        } else {
            None
        }
    } else if n == 30 {
        Some((TransactionError::DuplicateInstruction(position), at + 5))
    } else if n == 31 {
        Some((TransactionError::InsufficientFundsForRent { account_index: position }, at + 5))
    } else if n == 35 {
        let error = TransactionError::ProgramExecutionTemporarilyRestricted {
            account_index: position,
        };
        Some((error, at + 5))
    } else {
        None
    }
}

/// Decodes the outcome that stands at `at`, and says where it ends.
pub fn read_outcome(bytes: &[u8], at: usize) -> (read: Option<(TransactionResult, usize)>)
    requires
        at <= bytes@.len(),
    ensures
        match parse_outcome(bytes@.skip(at as int)) {
            Some((result, k)) => read == Some((result, (at + k) as usize)) && at + k
                <= bytes@.len(),
            None => read is None,
        },
{
    let ghost rest = bytes@.skip(at as int);
    if bytes.len() - at < 4 {
        return None;
    }
    assert(rest.subrange(0, 4) =~= bytes@.subrange(at as int, at + 4));
    let n: u32 = read_u32(bytes, at);
    if n == 0 {
        Some((Ok(()), at + 4))
    } else if n == 1 {
        assert(rest.skip(4) =~= bytes@.skip(at + 4));
        match read_error(bytes, at + 4) {
            Some((error, end)) => Some((Err(error), end)),
            None => None,
        }
    } else {
        None
    }
}

} // verus!
