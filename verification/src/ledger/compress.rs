//! Compression of execution details.

use vstd::prelude::*;

use crate::ledger::error::LedgerError;
use crate::ledger::schema::MAX_EXECUTION_DETAILS_SIZE;

verus! {

/// Effort that is spent on a frame.
pub const COMPRESSION_LEVEL: i32 = 3;

/// Frame that the zstd crate makes of data at a level with a dictionary, whose id the frame
/// names or not.
pub uninterp spec fn zstd_frame(
    level: i32,
    naming: bool,
    data: Seq<u8>,
    dictionary: Seq<u8>,
) -> Option<Seq<u8>>;

/// Data that the zstd crate restores from a frame with a dictionary, if they are no longer
/// than the third argument.
pub uninterp spec fn zstd_data(frame: Seq<u8>, dictionary: Seq<u8>, capacity: nat) -> Option<
    Seq<u8>,
>;

/// Whether a frame names no dictionary: the two lowest bits of the byte behind the magic number
/// give the length of the id that follows.
pub open spec fn names_no_dictionary(frame: Seq<u8>) -> bool {
    frame.len() > 4 && frame[4] % 4 == 0
}

/// `Compressor::with_dictionary`, `Compressor::set_parameter`, and `Compressor::compress` of
/// zstd. The frame depends on the arguments alone, it names no dictionary unless it is asked to,
/// and the same dictionary restores the data from it, given room for them.
#[verifier::external_body]
pub(crate) fn compress(level: i32, naming: bool, data: &[u8], dictionary: &[u8]) -> (frame: Option<
    Vec<u8>,
>)
    ensures
        frame is Some <==> zstd_frame(level, naming, data@, dictionary@) is Some,
        frame matches Some(f) ==> zstd_frame(level, naming, data@, dictionary@) == Some(f@),
        frame matches Some(f) ==> !naming ==> names_no_dictionary(f@),
        frame matches Some(f) ==> forall|capacity: nat|
            capacity >= data@.len() ==> #[trigger] zstd_data(f@, dictionary@, capacity) == Some(
                data@,
            ),
{
    let mut compressor = zstd::bulk::Compressor::with_dictionary(level, dictionary).ok()?;
    compressor.set_parameter(zstd::zstd_safe::CParameter::DictIdFlag(naming)).ok()?;
    compressor.compress(data).ok()
}

/// `Decompressor::with_dictionary` and `Decompressor::decompress` of zstd. The data depend on
/// the frame, the dictionary, and the room for them alone.
#[verifier::external_body]
pub(crate) fn decompress(frame: &[u8], dictionary: &[u8], capacity: usize) -> (data: Option<
    Vec<u8>,
>)
    requires
        capacity <= MAX_EXECUTION_DETAILS_SIZE,
    ensures
        data is Some <==> zstd_data(frame@, dictionary@, capacity as nat) is Some,
        data matches Some(d) ==> zstd_data(frame@, dictionary@, capacity as nat) == Some(d@),
{
    let mut decompressor = zstd::bulk::Decompressor::with_dictionary(dictionary).ok()?;
    decompressor.decompress(frame, capacity).ok()
}

/// Frame of execution details: it does not name the dictionary, which every ledger has.
pub open spec fn details_frame(details: Seq<u8>, dictionary: Seq<u8>) -> Option<Seq<u8>> {
    zstd_frame(COMPRESSION_LEVEL, false, details, dictionary)
}

/// Compresses the encoding of execution details.
pub fn compress_details(details: &[u8], dictionary: &[u8]) -> (result: Result<
    Vec<u8>,
    LedgerError,
>)
    ensures
        match result {
            Ok(frame) => {
                &&& details_frame(details@, dictionary@) == Some(frame@)
                &&& names_no_dictionary(frame@)
                &&& details@.len() <= MAX_EXECUTION_DETAILS_SIZE ==> restored_details(
                    frame@,
                    dictionary@,
                ) == Ok::<Seq<u8>, LedgerError>(details@)
            },
            Err(error) => details_frame(details@, dictionary@) is None && error
                == LedgerError::Compression,
        },
{
    match compress(COMPRESSION_LEVEL, false, details, dictionary) {
        Some(frame) => Ok(frame),
        None => Err(LedgerError::Compression),
    }
}

/// Details that a frame holds.
pub open spec fn restored_details(frame: Seq<u8>, dictionary: Seq<u8>) -> Result<
    Seq<u8>,
    LedgerError,
> {
    match zstd_data(frame, dictionary, MAX_EXECUTION_DETAILS_SIZE as nat) {
        Some(data) => Ok(data),
        None => Err(LedgerError::Compression),
    }
}

/// Restores the encoding of execution details.
pub fn restore_details(frame: &[u8], dictionary: &[u8]) -> (result: Result<Vec<u8>, LedgerError>)
    ensures
        match result {
            Ok(details) => restored_details(frame@, dictionary@) == Ok::<Seq<u8>, LedgerError>(
                details@,
            ),
            Err(error) => restored_details(frame@, dictionary@) == Err::<Seq<u8>, LedgerError>(
                error,
            ),
        },
{
    match decompress(frame, dictionary, MAX_EXECUTION_DETAILS_SIZE) {
        Some(details) => Ok(details),
        None => Err(LedgerError::Compression),
    }
}

} // verus!
