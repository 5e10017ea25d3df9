//! Sanitized transactions.

use agave_transaction_view::transaction_version::TransactionVersion as AgaveVersion;
use agave_transaction_view::transaction_view::SanitizedTransactionView;
use vstd::prelude::*;

use crate::types::{BlockHash, Pubkey, Signature};

verus! {

/// Format of a serialized transaction.
#[derive(Clone, Copy, PartialEq, Eq, Structural, Debug)]
pub enum TransactionVersion {
    /// Without a version.
    Legacy,
    /// With address lookups.
    V0,
    /// With execution settings.
    V1,
    /// Private to the engine, with larger limits.
    Magicblock,
}

/// What the engine reads of a sanitized transaction.
#[derive(Debug)]
pub struct TransactionView {
    /// Format.
    pub version: TransactionVersion,
    /// Signatures, one for each of the first accounts.
    pub signatures: Vec<Signature>,
    /// Accounts that the transaction names itself; the first one pays.
    pub accounts: Vec<Pubkey>,
    /// Recent block hash.
    pub blockhash: BlockHash,
    /// Signed part of the serialized transaction.
    pub message: Vec<u8>,
}

/// What a sanitized transaction holds.
pub struct ViewOf {
    pub version: TransactionVersion,
    pub signatures: Seq<Signature>,
    pub accounts: Seq<Pubkey>,
    pub blockhash: BlockHash,
    pub message: Seq<u8>,
}

impl View for TransactionView {
    type V = ViewOf;

    open spec fn view(&self) -> ViewOf {
        ViewOf {
            version: self.version,
            signatures: self.signatures@,
            accounts: self.accounts@,
            blockhash: self.blockhash,
            message: self.message@,
        }
    }
}

impl ViewOf {
    /// There is a signature, and an account for each of them.
    pub open spec fn ok(self) -> bool {
        0 < self.signatures.len() <= self.accounts.len()
    }
}

/// What `SanitizedTransactionView::try_new_sanitized` of agave-transaction-view makes of a
/// serialized transaction; the second argument says whether instructions may name only so
/// many accounts.
pub uninterp spec fn sanitized_view(bytes: Seq<u8>, limited: bool) -> Option<ViewOf>;

/// `SanitizedTransactionView::try_new_sanitized` of agave-transaction-view, and what the
/// view that it returns gives as version, signatures, static accounts, recent block hash,
/// and message. The result depends on the bytes and the flag alone. A sanitized transaction
/// has a signature, and no more signatures than static accounts.
#[verifier::external_body]
pub(crate) fn sanitize(bytes: &[u8], limited: bool) -> (view: Option<TransactionView>)
    ensures
        view is Some <==> sanitized_view(bytes@, limited) is Some,
        view matches Some(v) ==> sanitized_view(bytes@, limited) == Some(v@) && v@.ok(),
{
    let view = SanitizedTransactionView::try_new_sanitized(bytes, limited).ok()?;
    Some(TransactionView {
        version: match view.version() {
            AgaveVersion::Legacy => TransactionVersion::Legacy,
            AgaveVersion::V0 => TransactionVersion::V0,
            AgaveVersion::V1 => TransactionVersion::V1,
        },
        signatures: view.signatures().iter().map(|s| *s.as_array()).collect(),
        accounts: view.static_account_keys().iter().map(|k| k.to_bytes()).collect(),
        blockhash: view.recent_blockhash().to_bytes(),
        message: view.message_data().to_vec(),
    })
}

} // verus!
