//! The write-producer boundary: complete account tuples flow in; any
//! unrecognised protocol version is rejected with a structured error, never
//! silently misparsed.

use vstd::prelude::*;
use crate::account::{AccountRecord, RecordV, key_from_bytes, KEY_LEN};
use crate::index::ShardedIndex;

verus! {

/// The one producer protocol version this build understands.
pub const SUPPORTED_PRODUCER_VERSION: u32 = 3;

/// Why a producer update was rejected.
#[derive(Clone, Copy, Debug, PartialEq, Eq)]
pub enum ProducerError {
    /// The update used a protocol version this build does not know.
    UnsupportedVersion,
    /// The account key is not exactly a key's width.
    MalformedKey,
    /// The owner key is not exactly a key's width.
    MalformedOwner,
}

/// Apply one producer update to the index: validate the version and both
/// keys, then store the complete record. On any error the index is left
/// untouched and the error says exactly what was wrong.
pub fn ingest_update(
    index: &mut ShardedIndex,
    version: u32,
    key_bytes: &Vec<u8>,
    owner_bytes: &Vec<u8>,
    balance: u64,
    data: Vec<u8>,
    executable: bool,
    rent_epoch: u64,
) -> (r: Result<(), ProducerError>)
    requires
        old(index).wf(),
    ensures
        final(index).wf(),
        (r == Err::<(), ProducerError>(ProducerError::UnsupportedVersion)) <==> version
            != SUPPORTED_PRODUCER_VERSION,
        (r == Err::<(), ProducerError>(ProducerError::MalformedKey)) <==> (version
            == SUPPORTED_PRODUCER_VERSION && key_bytes@.len() != KEY_LEN),
        (r == Err::<(), ProducerError>(ProducerError::MalformedOwner)) <==> (version
            == SUPPORTED_PRODUCER_VERSION && key_bytes@.len() == KEY_LEN && owner_bytes@.len()
            != KEY_LEN),
        r is Err ==> *final(index) == *old(index),
        r is Ok ==> final(index).spec_get(key_bytes@) == Some(
            RecordV {
                owner: owner_bytes@,
                balance,
                data: data@,
                executable,
                rent_epoch,
            },
        ) && forall|k2: Seq<u8>|
            k2 != key_bytes@ ==> final(index).spec_get(k2) == old(index).spec_get(k2),
{
    if version != SUPPORTED_PRODUCER_VERSION {
        return Err(ProducerError::UnsupportedVersion);
    }
    if key_bytes.len() != KEY_LEN {
        return Err(ProducerError::MalformedKey);
    }
    if owner_bytes.len() != KEY_LEN {
        return Err(ProducerError::MalformedOwner);
    }
    let key = key_from_bytes(key_bytes);
    let owner = key_from_bytes(owner_bytes);
    let rec = AccountRecord { owner, balance, data, executable, rent_epoch };
    proof {
        assert(rec@ =~= (RecordV {
            owner: owner_bytes@,
            balance,
            data: rec.data@,
            executable,
            rent_epoch,
        }));
    }
    index.insert(key, rec);
    Ok(())
}

} // verus!
