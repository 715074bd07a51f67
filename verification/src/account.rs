//! Account keys and account records: the values the index stores.

use vstd::prelude::*;
use vstd::array::ArrayAdditionalExecFns;

verus! {

/// Number of bytes in an account key.
pub const KEY_LEN: usize = 32;

/// Fixed-size opaque account identifier; equality and hashing are over the
/// raw bytes and nothing else.
#[derive(Clone, Copy, Debug, PartialEq, Eq, Hash)]
pub struct AccountKey {
    pub bytes: [u8; 32],
}

impl View for AccountKey {
    type V = Seq<u8>;

    open spec fn view(&self) -> Seq<u8> {
        self.bytes@
    }
}

impl AccountKey {
    pub fn new(bytes: [u8; 32]) -> (r: AccountKey)
        ensures
            r@ == bytes@,
    {
        AccountKey { bytes }
    }

    pub fn byte_at(&self, i: usize) -> (r: u8)
        requires
            i < KEY_LEN,
        ensures
            r == self@[i as int],
    {
        self.bytes[i]
    }
}

/// Build a key from a byte vector holding exactly one key's bytes.
pub fn key_from_bytes(v: &Vec<u8>) -> (r: AccountKey)
    requires
        v@.len() == KEY_LEN,
    ensures
        r@ == v@,
{
    let mut bytes = [0u8; 32];
    let mut i: usize = 0;
    while i < KEY_LEN
        invariant
            v@.len() == KEY_LEN,
            i <= KEY_LEN,
            forall|j: int| 0 <= j < i ==> bytes@[j] == v@[j],
        decreases KEY_LEN - i,
    {
        bytes.set(i, v[i]);
        i += 1;
    }
    proof {
        assert(bytes@ =~= v@);
    }
    AccountKey { bytes }
}

/// Byte-wise key equality: true exactly when the two views coincide.
pub fn key_eq(a: &AccountKey, b: &AccountKey) -> (r: bool)
    ensures
        r == (a@ == b@),
{
    let mut i: usize = 0;
    while i < KEY_LEN
        invariant
            i <= KEY_LEN,
            forall|j: int| 0 <= j < i ==> a@[j] == b@[j],
        decreases KEY_LEN - i,
    {
        if a.bytes[i] != b.bytes[i] {
            assert(a@[i as int] != b@[i as int]);
            return false;
        }
        i += 1;
    }
    proof {
        assert(a@ =~= b@);
    }
    true
}

/// The mathematical value of an account record.
#[verifier::ext_equal]
pub struct RecordV {
    pub owner: Seq<u8>,
    pub balance: u64,
    pub data: Seq<u8>,
    pub executable: bool,
    pub rent_epoch: u64,
}

/// A complete account snapshot. Records are immutable values: an update
/// replaces the whole record, never a single field.
#[derive(Debug, PartialEq, Eq)]
pub struct AccountRecord {
    pub owner: AccountKey,
    pub balance: u64,
    pub data: Vec<u8>,
    pub executable: bool,
    pub rent_epoch: u64,
}

impl View for AccountRecord {
    type V = RecordV;

    open spec fn view(&self) -> RecordV {
        RecordV {
            owner: self.owner@,
            balance: self.balance,
            data: self.data@,
            executable: self.executable,
            rent_epoch: self.rent_epoch,
        }
    }
}

impl Clone for AccountRecord {
    fn clone(&self) -> (r: Self)
        ensures
            r@ == self@,
    {
        let data = self.data.clone();
        proof {
            assert(data@ =~= self.data@);
        }
        AccountRecord {
            owner: self.owner,
            balance: self.balance,
            data,
            executable: self.executable,
            rent_epoch: self.rent_epoch,
        }
    }
}

} // verus!
