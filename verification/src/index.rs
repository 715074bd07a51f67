//! The sharded primary index with its advisory owner index.
//!
//! Records are partitioned over a fixed number of shards by a hash of the
//! whole key, so shard selection is a pure, stable function of the full key.
//! A secondary owner index maps an owner to the keys it has ever owned; it is
//! an accelerant only, and every candidate it yields is re-validated against
//! the primary index before being returned.

use vstd::prelude::*;
use crate::account::{AccountKey, AccountRecord, RecordV, key_eq, KEY_LEN};
use crate::filter::{memcmp_matches, byte_range_matches};
use crate::sort::{sorted_desc, sort_by_balance_desc, seq_members_of, lemma_perm_membership};

verus! {

/// Number of shards; a power of two.
pub const SHARD_COUNT: usize = 4096;

/// FNV-1a 64-bit offset basis.
pub const FNV_OFFSET: u64 = 0xcbf29ce484222325;

/// FNV-1a 64-bit prime.
pub const FNV_PRIME: u64 = 0x100000001b3;

/// One FNV-1a round: fold one byte into the running hash.
pub open spec fn spec_fnv1a_step(h: u64, b: u8) -> u64 {
    vstd::wrapping::u64_specs::wrapping_mul(h ^ (b as u64), FNV_PRIME)
}

/// FNV-1a hash of a whole byte sequence.
pub open spec fn spec_fnv1a(bytes: Seq<u8>) -> u64
    decreases bytes.len(),
{
    if bytes.len() == 0 {
        FNV_OFFSET
    } else {
        spec_fnv1a_step(spec_fnv1a(bytes.drop_last()), bytes.last())
    }
}

/// The shard a key belongs to: a function of the full key, never of a prefix.
pub open spec fn spec_shard_of(key: Seq<u8>) -> int {
    spec_fnv1a(key) as int % (SHARD_COUNT as int)
}

/// Deterministic shard selection for a key.
pub fn shard_index_of(key: &AccountKey) -> (r: usize)
    ensures
        r as int == spec_shard_of(key@),
        r < SHARD_COUNT,
{
    let mut h: u64 = FNV_OFFSET;
    let mut i: usize = 0;
    while i < KEY_LEN
        invariant
            i <= KEY_LEN,
            h == spec_fnv1a(key@.take(i as int)),
        decreases KEY_LEN - i,
    {
        let b = key.byte_at(i);
        proof {
            assert(key@.take(i + 1).drop_last() =~= key@.take(i as int));
            assert(key@.take(i + 1).last() == key@[i as int]);
        }
        h = (h ^ (b as u64)).wrapping_mul(FNV_PRIME);
        i += 1;
    }
    proof {
        assert(key@.take(KEY_LEN as int) =~= key@);
    }
    (h % (SHARD_COUNT as u64)) as usize
}

/// Look a key up in one shard, scanning from the front.
pub open spec fn shard_find(s: Seq<(AccountKey, AccountRecord)>, k: Seq<u8>) -> Option<RecordV>
    decreases s.len(),
{
    if s.len() == 0 {
        None
    } else if s.first().0@ == k {
        Some(s.first().1@)
    } else {
        shard_find(s.drop_first(), k)
    }
}

/// All keys of a shard are pairwise distinct.
pub open spec fn shard_keys_distinct(s: Seq<(AccountKey, AccountRecord)>) -> bool {
    forall|i: int, j: int| 0 <= i < j < s.len() ==> s[i].0@ != s[j].0@
}

/// If some position holds `k`, a distinct-key shard resolves `k` to that record.
pub proof fn lemma_shard_find_at(s: Seq<(AccountKey, AccountRecord)>, k: Seq<u8>, i: int)
    requires
        shard_keys_distinct(s),
        0 <= i < s.len(),
        s[i].0@ == k,
    ensures
        shard_find(s, k) == Some(s[i].1@),
    decreases s.len(),
{
    if i == 0 {
    } else {
        assert(s.first().0@ != k);
        lemma_shard_find_at(s.drop_first(), k, i - 1);
    }
}

/// If no position holds `k`, the lookup misses.
pub proof fn lemma_shard_find_absent(s: Seq<(AccountKey, AccountRecord)>, k: Seq<u8>)
    requires
        forall|i: int| 0 <= i < s.len() ==> s[i].0@ != k,
    ensures
        shard_find(s, k) is None,
    decreases s.len(),
{
    if s.len() > 0 {
        lemma_shard_find_absent(s.drop_first(), k);
    }
}

/// A hit always comes from some position of the shard.
pub proof fn lemma_shard_find_some(s: Seq<(AccountKey, AccountRecord)>, k: Seq<u8>)
    requires
        shard_find(s, k) is Some,
    ensures
        exists|i: int|
            0 <= i < s.len() && s[i].0@ == k && shard_find(s, k) == Some(s[i].1@),
    decreases s.len(),
{
    if s.len() > 0 {
        if s.first().0@ == k {
            assert(s[0].0@ == k && shard_find(s, k) == Some(s[0].1@));
        } else {
            lemma_shard_find_some(s.drop_first(), k);
            let i = choose|i: int|
                0 <= i < s.drop_first().len() && s.drop_first()[i].0@ == k
                    && shard_find(s.drop_first(), k) == Some(s.drop_first()[i].1@);
            assert(s[i + 1].0@ == k && shard_find(s, k) == Some(s[i + 1].1@));
        }
    }
}

/// A bucket of the owner index holds `k`.
pub open spec fn bucket_has(b: Seq<AccountKey>, k: Seq<u8>) -> bool {
    exists|i: int| 0 <= i < b.len() && b[i]@ == k
}

/// Look an owner up in the owner index, scanning from the front.
pub open spec fn owner_find(s: Seq<(AccountKey, Vec<AccountKey>)>, o: Seq<u8>) -> Option<
    Seq<AccountKey>,
>
    decreases s.len(),
{
    if s.len() == 0 {
        None
    } else if s.first().0@ == o {
        Some(s.first().1@)
    } else {
        owner_find(s.drop_first(), o)
    }
}

/// If some position holds owner `o`, the owner index resolves `o` to that bucket.
pub proof fn lemma_owner_find_at(s: Seq<(AccountKey, Vec<AccountKey>)>, o: Seq<u8>, i: int)
    requires
        forall|i1: int, j1: int| 0 <= i1 < j1 < s.len() ==> s[i1].0@ != s[j1].0@,
        0 <= i < s.len(),
        s[i].0@ == o,
    ensures
        owner_find(s, o) == Some(s[i].1@),
    decreases s.len(),
{
    if i == 0 {
    } else {
        assert(s.first().0@ != o);
        lemma_owner_find_at(s.drop_first(), o, i - 1);
    }
}

/// A bucket always comes from some position of the owner index.
pub proof fn lemma_owner_find_some(s: Seq<(AccountKey, Vec<AccountKey>)>, o: Seq<u8>)
    requires
        owner_find(s, o) is Some,
    ensures
        exists|i: int|
            0 <= i < s.len() && s[i].0@ == o && owner_find(s, o) == Some(s[i].1@),
    decreases s.len(),
{
    if s.len() > 0 {
        if s.first().0@ == o {
            assert(s[0].0@ == o && owner_find(s, o) == Some(s[0].1@));
        } else {
            lemma_owner_find_some(s.drop_first(), o);
            let i = choose|i: int|
                0 <= i < s.drop_first().len() && s.drop_first()[i].0@ == o
                    && owner_find(s.drop_first(), o) == Some(s.drop_first()[i].1@);
            assert(s[i + 1].0@ == o && owner_find(s, o) == Some(s[i + 1].1@));
        }
    }
}

/// Total number of records over a sequence of shards.
pub open spec fn sum_shard_lens(ss: Seq<Vec<(AccountKey, AccountRecord)>>) -> nat
    decreases ss.len(),
{
    if ss.len() == 0 {
        0
    } else {
        sum_shard_lens(ss.drop_last()) + ss.last()@.len()
    }
}

/// Sum over a shard sequence is touched at one position only.
pub proof fn lemma_sum_update(
    ss: Seq<Vec<(AccountKey, AccountRecord)>>,
    i: int,
    v: Vec<(AccountKey, AccountRecord)>,
)
    requires
        0 <= i < ss.len(),
    ensures
        sum_shard_lens(ss.update(i, v)) + ss[i]@.len() == sum_shard_lens(ss) + v@.len(),
    decreases ss.len(),
{
    if i == ss.len() - 1 {
        assert(ss.update(i, v).drop_last() =~= ss.drop_last());
    } else {
        assert(ss.update(i, v).drop_last() =~= ss.drop_last().update(i, v));
        lemma_sum_update(ss.drop_last(), i, v);
    }
}

/// Position lookup of a key inside one shard.
fn find_pos(shard: &Vec<(AccountKey, AccountRecord)>, key: &AccountKey) -> (r: Option<usize>)
    ensures
        match r {
            Some(i) => i < shard@.len() && shard@[i as int].0@ == key@,
            None => forall|j: int| 0 <= j < shard@.len() ==> shard@[j].0@ != key@,
        },
{
    let mut i: usize = 0;
    while i < shard.len()
        invariant
            i <= shard@.len(),
            forall|j: int| 0 <= j < i ==> shard@[j].0@ != key@,
        decreases shard@.len() - i,
    {
        if key_eq(&shard[i].0, key) {
            return Some(i);
        }
        i += 1;
    }
    None
}

/// Position lookup of an owner inside the owner index.
fn find_owner_pos(owners: &Vec<(AccountKey, Vec<AccountKey>)>, owner: &AccountKey) -> (r: Option<
    usize,
>)
    ensures
        match r {
            Some(i) => i < owners@.len() && owners@[i as int].0@ == owner@,
            None => forall|j: int| 0 <= j < owners@.len() ==> owners@[j].0@ != owner@,
        },
{
    let mut i: usize = 0;
    while i < owners.len()
        invariant
            i <= owners@.len(),
            forall|j: int| 0 <= j < i ==> owners@[j].0@ != owner@,
        decreases owners@.len() - i,
    {
        if key_eq(&owners[i].0, owner) {
            return Some(i);
        }
        i += 1;
    }
    None
}

/// Membership test in one owner bucket.
fn bucket_contains(bucket: &Vec<AccountKey>, key: &AccountKey) -> (r: bool)
    ensures
        r == bucket_has(bucket@, key@),
{
    let mut i: usize = 0;
    while i < bucket.len()
        invariant
            i <= bucket@.len(),
            forall|j: int| 0 <= j < i ==> bucket@[j]@ != key@,
        decreases bucket@.len() - i,
    {
        if key_eq(&bucket[i], key) {
            assert(bucket_has(bucket@, key@));
            return true;
        }
        i += 1;
    }
    false
}

/// What `insert` does: the new record is stored under its key, nothing else
/// moves, the owner index gains the key under the record's owner, and it
/// keeps everything it already had.
pub open spec fn insert_effect(
    pre: ShardedIndex,
    post: ShardedIndex,
    key: AccountKey,
    rec: RecordV,
) -> bool {
    &&& post.wf()
    &&& post.spec_get(key@) == Some(rec)
    &&& forall|k: Seq<u8>| k != key@ ==> post.spec_get(k) == pre.spec_get(k)
    &&& post.spec_len() == if pre.spec_get(key@) is Some {
        pre.spec_len()
    } else {
        pre.spec_len() + 1
    }
    &&& post.spec_owner_has_key(rec.owner, key@)
    &&& forall|o: Seq<u8>, k: Seq<u8>|
        pre.spec_owner_has_key(o, k) ==> post.spec_owner_has_key(o, k)
}

/// Every element of `r` is a snapshot of an entry among the first `j` of `shard`.
pub open spec fn entries_from(
    r: Seq<(AccountKey, AccountRecord)>,
    shard: Seq<(AccountKey, AccountRecord)>,
    j: int,
) -> bool {
    forall|t: int|
        #![trigger r[t]]
        0 <= t < r.len() ==> exists|p: int|
            #![trigger shard[p]]
            0 <= p < j && r[t].0 == shard[p].0 && r[t].1@ == shard[p].1@
}

/// Collect the entries of one shard whose record is owned by `owner`.
#[verifier::rlimit(100)]
fn scan_shard_for_owner(shard: &Vec<(AccountKey, AccountRecord)>, owner: &AccountKey) -> (r: Vec<
    (AccountKey, AccountRecord),
>)
    requires
        shard_keys_distinct(shard@),
    ensures
        entries_from(r@, shard@, shard@.len() as int),
        forall|t: int| 0 <= t < r@.len() ==> (#[trigger] r@[t]).1@.owner == owner@,
        forall|p: int|
            0 <= p < shard@.len() ==> ((#[trigger] shard@[p]).1.owner@ == owner@ ==> exists|t: int|
                0 <= t < r@.len() && r@[t].0@ == shard@[p].0@),
        forall|t1: int, t2: int| 0 <= t1 < t2 < r@.len() ==> r@[t1].0@ != r@[t2].0@,
{
    let mut out: Vec<(AccountKey, AccountRecord)> = Vec::new();
    let mut j: usize = 0;
    while j < shard.len()
        invariant
            shard_keys_distinct(shard@),
            j <= shard@.len(),
            entries_from(out@, shard@, j as int),
            forall|t: int| 0 <= t < out@.len() ==> (#[trigger] out@[t]).1@.owner == owner@,
            forall|p: int|
                0 <= p < j ==> ((#[trigger] shard@[p]).1.owner@ == owner@ ==> exists|t: int|
                    0 <= t < out@.len() && out@[t].0@ == shard@[p].0@),
            forall|t1: int, t2: int| 0 <= t1 < t2 < out@.len() ==> out@[t1].0@ != out@[t2].0@,
        decreases shard@.len() - j,
    {
        let ghost prev_out = out@;
        if key_eq(&shard[j].1.owner, owner) {
            let e_key = shard[j].0;
            let rec = shard[j].1.clone();
            proof {
                assert forall|t: int| 0 <= t < out@.len() implies out@[t].0@ != e_key@ by {
                    assert(0 <= t < out@.len() && out@[t] == out@[t]);
                    let p = choose|p: int|
                        #![trigger shard@[p]]
                        0 <= p < j && out@[t].0 == shard@[p].0 && out@[t].1@ == shard@[p].1@;
                    assert(shard@[p].0@ != shard@[j as int].0@);
                }
            }
            out.push((e_key, rec));
            proof {
                assert(out@[out@.len() - 1].0 == shard@[j as int].0);
                assert(out@[out@.len() - 1].1@ == shard@[j as int].1@);
                assert(entries_from(out@, shard@, j + 1)) by {
                    assert forall|t: int| #![trigger out@[t]] 0 <= t < out@.len()
                        implies exists|p: int|
                        #![trigger shard@[p]]
                        0 <= p < j + 1 && out@[t].0 == shard@[p].0 && out@[t].1@
                            == shard@[p].1@ by {
                        if t < out@.len() - 1 {
                            assert(prev_out[t] == out@[t]);
                            let p = choose|p: int|
                                #![trigger shard@[p]]
                                0 <= p < j && prev_out[t].0 == shard@[p].0 && prev_out[t].1@
                                    == shard@[p].1@;
                            assert(0 <= p < j + 1 && out@[t].0 == shard@[p].0 && out@[t].1@
                                == shard@[p].1@);
                        } else {
                            assert(0 <= j < j + 1 && out@[t].0 == shard@[j as int].0
                                && out@[t].1@ == shard@[j as int].1@);
                        }
                    }
                }
            }
        }
        proof {
            assert forall|p: int|
                0 <= p < j + 1 implies ((#[trigger] shard@[p]).1.owner@ == owner@
                    ==> exists|t: int| 0 <= t < out@.len() && out@[t].0@ == shard@[p].0@) by {
                if shard@[p].1.owner@ == owner@ {
                    if p < j {
                        let t = choose|t: int|
                            0 <= t < prev_out.len() && prev_out[t].0@ == shard@[p].0@;
                        assert(out@[t].0@ == shard@[p].0@);
                    } else {
                        assert(out@[out@.len() - 1].0@ == shard@[p].0@);
                    }
                }
            }
        }
        j += 1;
    }
    proof {
        assert(j == shard@.len());
    }
    out
}

/// What an owner query returns: exactly the live records whose current owner
/// is `owner`, each a faithful snapshot, with no duplicate keys.
pub open spec fn owner_query_post(
    idx: ShardedIndex,
    owner: Seq<u8>,
    r: Seq<(AccountKey, AccountRecord)>,
) -> bool {
    &&& forall|i: int|
        0 <= i < r.len() ==> {
            &&& idx.spec_get(#[trigger] r[i].0@) == Some(r[i].1@)
            &&& r[i].1@.owner == owner
        }
    &&& forall|k: Seq<u8>|
        #![trigger idx.spec_get(k)]
        (match idx.spec_get(k) {
            Some(rec) => rec.owner == owner ==> exists|i: int|
                0 <= i < r.len() && r[i].0@ == k,
            None => true,
        })
    &&& forall|i: int, j: int| 0 <= i < j < r.len() ==> r[i].0@ != r[j].0@
}

/// What a top-by-balance query returns: at most `limit` records, sorted by
/// balance descending, all owned by `owner` and matching the byte-range
/// predicate; and every matching record left out lost to records at least as
/// large, with the result full.
pub open spec fn top_query_post(
    idx: ShardedIndex,
    owner: Seq<u8>,
    off: int,
    expected: Seq<u8>,
    limit: int,
    r: Seq<(AccountKey, AccountRecord)>,
) -> bool {
    &&& r.len() <= limit
    &&& sorted_desc(r)
    &&& forall|i: int|
        0 <= i < r.len() ==> {
            &&& idx.spec_get(#[trigger] r[i].0@) == Some(r[i].1@)
            &&& r[i].1@.owner == owner
            &&& memcmp_matches(r[i].1@.data, off, expected)
        }
    &&& forall|i: int, j: int| 0 <= i < j < r.len() ==> r[i].0@ != r[j].0@
    &&& forall|k: Seq<u8>|
        #![trigger idx.spec_get(k)]
        (match idx.spec_get(k) {
            Some(rec) => (rec.owner == owner && memcmp_matches(rec.data, off, expected) && !(
            exists|i: int| 0 <= i < r.len() && r[i].0@ == k)) ==> (r.len() == limit && forall|
                i: int,
            |
                0 <= i < r.len() ==> (#[trigger] r[i]).1@.balance >= rec.balance),
            None => true,
        })
}

/// Sharded primary index plus the advisory owner index.
pub struct ShardedIndex {
    shards: Vec<Vec<(AccountKey, AccountRecord)>>,
    owners: Vec<(AccountKey, Vec<AccountKey>)>,
}

impl ShardedIndex {
    /// Well-formedness: the shard array has its fixed size, every entry sits
    /// in the shard its key hashes to, keys are unique within a shard, owners
    /// are unique in the owner index, buckets hold no duplicates, and every
    /// stored record's key appears in the bucket of its owner.
    pub closed spec fn wf(self) -> bool {
        &&& self.shards@.len() == SHARD_COUNT
        &&& forall|si: int| #![trigger self.shards@[si]]
            0 <= si < self.shards@.len() ==> {
                &&& shard_keys_distinct(self.shards@[si]@)
                &&& forall|j: int|
                    0 <= j < self.shards@[si]@.len() ==> spec_shard_of(
                        #[trigger] self.shards@[si]@[j].0@,
                    ) == si
            }
        &&& forall|i: int, j: int|
            0 <= i < j < self.owners@.len() ==> self.owners@[i].0@ != self.owners@[j].0@
        &&& forall|i: int, j1: int, j2: int| #![trigger self.owners@[i].1@[j1], self.owners@[i].1@[j2]]
            0 <= i < self.owners@.len() && 0 <= j1 < j2 < self.owners@[i].1@.len()
                ==> self.owners@[i].1@[j1]@ != self.owners@[i].1@[j2]@
        &&& forall|si: int, j: int| #![trigger self.shards@[si]@[j]]
            0 <= si < self.shards@.len() && 0 <= j < self.shards@[si]@.len()
                ==> self.spec_owner_has_key(
                self.shards@[si]@[j].1.owner@,
                self.shards@[si]@[j].0@,
            )
    }

    /// The record currently stored under `k`, if any.
    pub closed spec fn spec_get(self, k: Seq<u8>) -> Option<RecordV> {
        if 0 <= spec_shard_of(k) < self.shards@.len() {
            shard_find(self.shards@[spec_shard_of(k)]@, k)
        } else {
            None
        }
    }

    /// Number of records stored.
    pub closed spec fn spec_len(self) -> nat {
        sum_shard_lens(self.shards@)
    }

    /// The owner index has a bucket for `o` that mentions `k`.
    pub closed spec fn spec_owner_has_key(self, o: Seq<u8>, k: Seq<u8>) -> bool {
        match owner_find(self.owners@, o) {
            Some(b) => bucket_has(b, k),
            None => false,
        }
    }

    /// The owner index has a bucket for `o` at all.
    pub closed spec fn spec_owner_known(self, o: Seq<u8>) -> bool {
        owner_find(self.owners@, o) is Some
    }

    /// A fresh, empty index.
    pub fn new() -> (r: ShardedIndex)
        ensures
            r.wf(),
            forall|k: Seq<u8>| r.spec_get(k) is None,
            r.spec_len() == 0,
            forall|o: Seq<u8>, k: Seq<u8>| !r.spec_owner_has_key(o, k),
    {
        let mut shards: Vec<Vec<(AccountKey, AccountRecord)>> = Vec::new();
        while shards.len() < SHARD_COUNT
            invariant
                shards@.len() <= SHARD_COUNT,
                forall|i: int| 0 <= i < shards@.len() ==> #[trigger] shards@[i]@.len() == 0,
                sum_shard_lens(shards@) == 0,
            decreases SHARD_COUNT - shards.len(),
        {
            let fresh: Vec<(AccountKey, AccountRecord)> = Vec::new();
            proof {
                assert(shards@.push(fresh).drop_last() =~= shards@);
            }
            shards.push(fresh);
        }
        let r = ShardedIndex { shards, owners: Vec::new() };
        proof {
            assert forall|k: Seq<u8>| r.spec_get(k) is None by {
                if 0 <= spec_shard_of(k) < r.shards@.len() {
                    assert(r.shards@[spec_shard_of(k)]@.len() == 0);
                }
            }
        }
        r
    }

    /// Shard-local lookup of a complete record snapshot.
    pub fn get(&self, key: &AccountKey) -> (r: Option<AccountRecord>)
        requires
            self.wf(),
        ensures
            match r {
                Some(rec) => self.spec_get(key@) == Some(rec@),
                None => self.spec_get(key@) is None,
            },
    {
        let idx = shard_index_of(key);
        let shard = &self.shards[idx];
        match find_pos(shard, key) {
            Some(i) => {
                proof {
                    lemma_shard_find_at(shard@, key@, i as int);
                }
                Some(shard[i].1.clone())
            },
            None => {
                proof {
                    lemma_shard_find_absent(shard@, key@);
                }
                None
            },
        }
    }

    /// Insert or wholesale-replace the record stored under `key`, and append
    /// the key to its owner's bucket if it is not there yet.
    pub fn insert(&mut self, key: AccountKey, rec: AccountRecord)
        requires
            old(self).wf(),
        ensures
            insert_effect(*old(self), *final(self), key, rec@),
    {
        let ghost pre = *self;
        let ghost recv = rec@;
        let owner = rec.owner;
        let idx = shard_index_of(&key);

        // Primary shard: replace in place or append.
        let mut shard: Vec<(AccountKey, AccountRecord)> = Vec::new();
        core::mem::swap(&mut shard, &mut self.shards[idx]);
        let ghost old_shard = shard@;
        let pos = find_pos(&shard, &key);
        let ghost replaced = pos is Some;
        let ghost mut ni: int = 0;
        match pos {
            Some(i) => {
                shard[i] = (key, rec);
                proof {
                    ni = i as int;
                    assert(shard@ =~= old_shard.update(ni, (key, pre.shards@[idx as int]@[ni].1)).update(ni, shard@[ni]));
                }
            },
            None => {
                shard.push((key, rec));
                proof {
                    ni = old_shard.len() as int;
                }
            },
        }
        let ghost new_shard = shard@;
        proof {
            assert(0 <= ni < new_shard.len());
            assert(new_shard[ni] == (key, rec));
            assert(new_shard.len() == old_shard.len() + if replaced { 0int } else { 1int });
            assert(forall|j: int| 0 <= j < old_shard.len() && j != ni ==> new_shard[j] == old_shard[j]);
            // Keys stay distinct and keep hashing to this shard.
            assert(shard_keys_distinct(new_shard)) by {
                assert forall|p: int, q: int| 0 <= p < q < new_shard.len() implies new_shard[p].0@
                    != new_shard[q].0@ by {
                    if replaced {
                        assert(old_shard[ni].0@ == key@);
                    } else {
                        if q == old_shard.len() {
                            assert(old_shard[p].0@ != key@);
                        }
                    }
                }
            }
            assert forall|j: int| 0 <= j < new_shard.len() implies spec_shard_of(
                #[trigger] new_shard[j].0@,
            ) == idx as int by {
                if j == ni {
                    assert(new_shard[j].0@ == key@);
                } else {
                    assert(new_shard[j] == old_shard[j]);
                    assert(spec_shard_of(old_shard[j].0@) == idx as int);
                }
            }
            // The key now resolves to the new record.
            lemma_shard_find_at(new_shard, key@, ni);
            assert(shard_find(new_shard, key@) == Some(recv));
            // Every other key resolves as before.
            assert forall|k: Seq<u8>| k != key@ implies shard_find(new_shard, k) == shard_find(
                old_shard,
                k,
            ) by {
                if shard_find(old_shard, k) is Some {
                    lemma_shard_find_some(old_shard, k);
                    let p = choose|p: int|
                        0 <= p < old_shard.len() && old_shard[p].0@ == k && shard_find(
                            old_shard,
                            k,
                        ) == Some(old_shard[p].1@);
                    assert(p != ni);
                    assert(new_shard[p] == old_shard[p]);
                    lemma_shard_find_at(new_shard, k, p);
                } else {
                    assert forall|p: int| 0 <= p < old_shard.len() implies old_shard[p].0@
                        != k by {
                        if old_shard[p].0@ == k {
                            lemma_shard_find_at(old_shard, k, p);
                        }
                    }
                    lemma_shard_find_absent(new_shard, k);
                }
            }
            // Whether this was a replacement is visible in the old lookup.
            assert(replaced == (shard_find(old_shard, key@) is Some)) by {
                if replaced {
                    lemma_shard_find_at(old_shard, key@, ni);
                } else {
                    lemma_shard_find_absent(old_shard, key@);
                }
            }
        }
        self.shards[idx] = shard;
        proof {
            assert(self.shards@ =~= pre.shards@.update(idx as int, self.shards@[idx as int]));
            lemma_sum_update(pre.shards@, idx as int, self.shards@[idx as int]);
        }
        let ghost mid = *self;

        // Owner index: append the key to the owner's bucket, de-duplicated.
        match find_owner_pos(&self.owners, &owner) {
            Some(oi) => {
                let mut entry: (AccountKey, Vec<AccountKey>) = (owner, Vec::new());
                core::mem::swap(&mut entry, &mut self.owners[oi]);
                let ghost old_entry = entry;
                if !bucket_contains(&entry.1, &key) {
                    entry.1.push(key);
                }
                let ghost new_entry = entry;
                self.owners[oi] = entry;
                proof {
                    assert(self.owners@ =~= pre.owners@.update(oi as int, new_entry));
                    assert(new_entry.0 == old_entry.0);
                    assert(forall|j: int| 0 <= j < old_entry.1@.len() ==> new_entry.1@[j] == old_entry.1@[j]);
                    assert(bucket_has(new_entry.1@, key@)) by {
                        if bucket_has(old_entry.1@, key@) {
                            let bi = choose|bi: int| 0 <= bi < old_entry.1@.len() && old_entry.1@[bi]@ == key@;
                            assert(new_entry.1@[bi]@ == key@);
                        } else {
                            assert(new_entry.1@[old_entry.1@.len() as int]@ == key@);
                        }
                    }
                    // Bucket keys stay pairwise distinct.
                    assert forall|j1: int, j2: int| 0 <= j1 < j2 < new_entry.1@.len()
                        implies new_entry.1@[j1]@ != new_entry.1@[j2]@ by {
                        if j2 < old_entry.1@.len() {
                            assert(old_entry.1@[j1]@ != old_entry.1@[j2]@);
                        } else {
                            assert(!bucket_has(old_entry.1@, key@));
                            assert(old_entry.1@[j1]@ != key@);
                        }
                    }
                    lemma_owner_find_at(self.owners@, owner@, oi as int);
                    assert(self.spec_owner_has_key(owner@, key@));
                    assert forall|o: Seq<u8>, k: Seq<u8>| pre.spec_owner_has_key(o, k)
                        implies self.spec_owner_has_key(o, k) by {
                        lemma_owner_find_some(pre.owners@, o);
                        let p = choose|p: int|
                            0 <= p < pre.owners@.len() && pre.owners@[p].0@ == o && owner_find(
                                pre.owners@,
                                o,
                            ) == Some(pre.owners@[p].1@);
                        lemma_owner_find_at(self.owners@, o, p);
                        if p == oi as int {
                            let bi = choose|bi: int|
                                0 <= bi < old_entry.1@.len() && old_entry.1@[bi]@ == k;
                            assert(new_entry.1@[bi]@ == k);
                        }
                    }
                }
            },
            None => {
                let mut bucket: Vec<AccountKey> = Vec::new();
                bucket.push(key);
                self.owners.push((owner, bucket));
                proof {
                    assert(self.owners@ =~= pre.owners@.push((owner, bucket)));
                    lemma_owner_find_at(self.owners@, owner@, pre.owners@.len() as int);
                    assert(bucket_has(bucket@, key@)) by {
                        assert(bucket@[0]@ == key@);
                    }
                    assert(self.spec_owner_has_key(owner@, key@));
                    assert forall|o: Seq<u8>, k: Seq<u8>| pre.spec_owner_has_key(o, k)
                        implies self.spec_owner_has_key(o, k) by {
                        lemma_owner_find_some(pre.owners@, o);
                        let p = choose|p: int|
                            0 <= p < pre.owners@.len() && pre.owners@[p].0@ == o && owner_find(
                                pre.owners@,
                                o,
                            ) == Some(pre.owners@[p].1@);
                        lemma_owner_find_at(self.owners@, o, p);
                    }
                }
            },
        }

        proof {
            assert(self.shards@ == mid.shards@);
            assert(forall|o: Seq<u8>, k: Seq<u8>|
                pre.spec_owner_has_key(o, k) ==> self.spec_owner_has_key(o, k));
            assert(self.spec_owner_has_key(owner@, key@));
            // Lookup effects.
            assert(self.spec_get(key@) == Some(recv));
            assert forall|k: Seq<u8>| k != key@ implies self.spec_get(k) == pre.spec_get(k) by {
                if spec_shard_of(k) == idx as int {
                    assert(shard_find(new_shard, k) == shard_find(old_shard, k));
                } else {
                    assert(self.shards@[spec_shard_of(k)] == pre.shards@[spec_shard_of(k)]);
                }
            }
            // Size effect.
            assert(self.spec_len() == if pre.spec_get(key@) is Some {
                pre.spec_len()
            } else {
                pre.spec_len() + 1
            });
            // Coverage: every stored entry has its key in its owner's bucket.
            assert forall|si: int, j: int|
                0 <= si < self.shards@.len() && 0 <= j < self.shards@[si]@.len()
                    implies self.spec_owner_has_key(
                #[trigger] self.shards@[si]@[j].1.owner@,
                self.shards@[si]@[j].0@,
            ) by {
                let e = self.shards@[si]@[j];
                if si == idx as int {
                    if j == ni {
                        assert(e == (key, rec));
                    } else {
                        assert(e == old_shard[j]);
                        assert(pre.spec_owner_has_key(e.1.owner@, e.0@));
                    }
                } else {
                    assert(self.shards@[si] == pre.shards@[si]);
                    assert(pre.spec_owner_has_key(e.1.owner@, e.0@));
                }
            }
            assert(self.wf());
            assert(insert_effect(pre, *self, key, recv));
        }
    }

    /// Delete the record under `key` from its primary shard. Owner-index
    /// buckets are left as they are: stale entries are filtered lazily at
    /// read time, never scrubbed eagerly.
    pub fn remove(&mut self, key: &AccountKey)
        requires
            old(self).wf(),
        ensures
            final(self).wf(),
            final(self).spec_get(key@) is None,
            forall|k: Seq<u8>| k != key@ ==> final(self).spec_get(k) == old(self).spec_get(k),
            final(self).spec_len() == if old(self).spec_get(key@) is Some {
                (old(self).spec_len() - 1) as nat
            } else {
                old(self).spec_len()
            },
            forall|o: Seq<u8>, k: Seq<u8>|
                final(self).spec_owner_has_key(o, k) == old(self).spec_owner_has_key(o, k),
            forall|o: Seq<u8>|
                final(self).spec_owner_known(o) == old(self).spec_owner_known(o),
    {
        let ghost pre = *self;
        let idx = shard_index_of(key);
        let mut shard: Vec<(AccountKey, AccountRecord)> = Vec::new();
        core::mem::swap(&mut shard, &mut self.shards[idx]);
        let ghost old_shard = shard@;
        let pos = find_pos(&shard, key);
        let ghost removed = pos is Some;
        let ghost mut ni: int = 0;
        match pos {
            Some(i) => {
                shard.remove(i);
                proof {
                    ni = i as int;
                }
            },
            None => {},
        }
        let ghost new_shard = shard@;
        proof {
            if removed {
                assert(new_shard == old_shard.remove(ni));
                assert(forall|j: int| 0 <= j < ni ==> new_shard[j] == old_shard[j]);
                assert(forall|j: int|
                    ni <= j < new_shard.len() ==> new_shard[j] == old_shard[j + 1]);
            } else {
                assert(new_shard == old_shard);
            }
            // Keys stay distinct and keep hashing to this shard.
            assert(shard_keys_distinct(new_shard)) by {
                assert forall|p: int, q: int| 0 <= p < q < new_shard.len() implies new_shard[p].0@
                    != new_shard[q].0@ by {
                    if removed {
                        let p0: int = if p < ni { p } else { p + 1 };
                        let q0: int = if q < ni { q } else { q + 1 };
                        assert(new_shard[p] == old_shard[p0]);
                        assert(new_shard[q] == old_shard[q0]);
                    }
                }
            }
            assert forall|j: int| 0 <= j < new_shard.len() implies spec_shard_of(
                #[trigger] new_shard[j].0@,
            ) == idx as int by {
                let j0: int = if removed && j >= ni { j + 1 } else { j };
                assert(new_shard[j] == old_shard[j0]);
                assert(spec_shard_of(old_shard[j0].0@) == idx as int);
            }
            // The removed key no longer resolves.
            assert forall|j: int| 0 <= j < new_shard.len() implies new_shard[j].0@ != key@ by {
                if removed {
                    let j0: int = if j >= ni { j + 1 } else { j };
                    assert(new_shard[j] == old_shard[j0]);
                    assert(old_shard[ni].0@ == key@);
                }
            }
            lemma_shard_find_absent(new_shard, key@);
            // Every other key resolves as before.
            assert forall|k: Seq<u8>| k != key@ implies shard_find(new_shard, k) == shard_find(
                old_shard,
                k,
            ) by {
                if shard_find(old_shard, k) is Some {
                    lemma_shard_find_some(old_shard, k);
                    let p = choose|p: int|
                        0 <= p < old_shard.len() && old_shard[p].0@ == k && shard_find(
                            old_shard,
                            k,
                        ) == Some(old_shard[p].1@);
                    if removed {
                        assert(p != ni);
                        let pn: int = if p < ni { p } else { p - 1 };
                        assert(new_shard[pn] == old_shard[p]);
                        lemma_shard_find_at(new_shard, k, pn);
                    }
                } else {
                    assert forall|p: int| 0 <= p < old_shard.len() implies old_shard[p].0@
                        != k by {
                        if old_shard[p].0@ == k {
                            lemma_shard_find_at(old_shard, k, p);
                        }
                    }
                    assert forall|p: int| 0 <= p < new_shard.len() implies new_shard[p].0@
                        != k by {
                        let p0: int = if removed && p >= ni { p + 1 } else { p };
                        assert(new_shard[p] == old_shard[p0]);
                    }
                    lemma_shard_find_absent(new_shard, k);
                }
            }
            // Whether anything was removed is visible in the old lookup.
            assert(removed == (shard_find(old_shard, key@) is Some)) by {
                if removed {
                    lemma_shard_find_at(old_shard, key@, ni);
                } else {
                    lemma_shard_find_absent(old_shard, key@);
                }
            }
        }
        self.shards[idx] = shard;
        proof {
            assert(self.shards@ =~= pre.shards@.update(idx as int, self.shards@[idx as int]));
            lemma_sum_update(pre.shards@, idx as int, self.shards@[idx as int]);
            assert forall|k: Seq<u8>| k != key@ implies self.spec_get(k) == pre.spec_get(k) by {
                if spec_shard_of(k) == idx as int {
                    assert(shard_find(new_shard, k) == shard_find(old_shard, k));
                } else {
                    assert(self.shards@[spec_shard_of(k)] == pre.shards@[spec_shard_of(k)]);
                }
            }
            // Coverage carries over: the remaining entries were all present before.
            assert forall|si: int, j: int|
                0 <= si < self.shards@.len() && 0 <= j < self.shards@[si]@.len()
                    implies self.spec_owner_has_key(
                #[trigger] self.shards@[si]@[j].1.owner@,
                self.shards@[si]@[j].0@,
            ) by {
                let e = self.shards@[si]@[j];
                if si == idx as int {
                    let j0: int = if removed && j >= ni { j + 1 } else { j };
                    assert(e == old_shard[j0]);
                    assert(pre.spec_owner_has_key(e.1.owner@, e.0@));
                } else {
                    assert(self.shards@[si] == pre.shards@[si]);
                    assert(pre.spec_owner_has_key(e.1.owner@, e.0@));
                }
            }
            assert(self.wf());
        }
    }

    /// All live records owned by `owner`. If the owner index has a bucket,
    /// each candidate is resolved through the primary index and re-validated
    /// (stale entries are skipped silently); otherwise the whole index is
    /// scanned, so the query is answered correctly even for owners the owner
    /// index has never seen.
    pub fn get_program_accounts(&self, owner: &AccountKey) -> (r: Vec<(AccountKey, AccountRecord)>)
        requires
            self.wf(),
        ensures
            owner_query_post(*self, owner@, r@),
    {
        match find_owner_pos(&self.owners, owner) {
            Some(oi) => {
                proof {
                    lemma_owner_find_at(self.owners@, owner@, oi as int);
                }
                let bucket = &self.owners[oi].1;
                let mut out: Vec<(AccountKey, AccountRecord)> = Vec::new();
                let mut i: usize = 0;
                while i < bucket.len()
                    invariant
                        self.wf(),
                        oi < self.owners@.len(),
                        bucket == &self.owners@[oi as int].1,
                        owner_find(self.owners@, owner@) == Some(bucket@),
                        i <= bucket@.len(),
                        forall|t: int|
                            0 <= t < out@.len() ==> {
                                &&& self.spec_get(#[trigger] out@[t].0@) == Some(out@[t].1@)
                                &&& out@[t].1@.owner == owner@
                            },
                        forall|b: int|
                            0 <= b < i ==> (match self.spec_get(#[trigger] bucket@[b]@) {
                                Some(rec) => rec.owner == owner@ ==> exists|t: int|
                                    0 <= t < out@.len() && out@[t].0@ == bucket@[b]@,
                                None => true,
                            }),
                        forall|t: int|
                            0 <= t < out@.len() ==> exists|b: int|
                                0 <= b < i && bucket@[b]@ == #[trigger] out@[t].0@,
                        forall|t1: int, t2: int|
                            0 <= t1 < t2 < out@.len() ==> out@[t1].0@ != out@[t2].0@,
                    decreases bucket@.len() - i,
                {
                    let k = bucket[i];
                    let ghost prev_out = out@;
                    match self.get(&k) {
                        Some(rec) => {
                            if key_eq(&rec.owner, owner) {
                                proof {
                                    // The bucket has no duplicates, so this key is new.
                                    assert forall|t: int| 0 <= t < out@.len()
                                        implies out@[t].0@ != k@ by {
                                        let b = choose|b: int|
                                            0 <= b < i && bucket@[b]@ == out@[t].0@;
                                        assert(self.owners@[oi as int].1@[b]@ != self.owners@[
                                            oi as int].1@[i as int]@);
                                    }
                                }
                                out.push((k, rec));
                                proof {
                                    assert(out@[out@.len() - 1].0@ == bucket@[i as int]@);
                                }
                            } else {
                                proof {
                                    assert(self.spec_get(bucket@[i as int]@) == Some(rec@));
                                    assert(rec@.owner != owner@);
                                }
                            }
                        },
                        None => {
                            proof {
                                assert(self.spec_get(bucket@[i as int]@) is None);
                            }
                        },
                    }
                    proof {
                        assert forall|b: int| 0 <= b < i + 1 implies (match self.spec_get(
                            #[trigger] bucket@[b]@,
                        ) {
                            Some(rec) => rec.owner == owner@ ==> exists|t: int|
                                0 <= t < out@.len() && out@[t].0@ == bucket@[b]@,
                            None => true,
                        }) by {
                            if b < i {
                                if self.spec_get(bucket@[b]@) is Some
                                    && self.spec_get(bucket@[b]@)->Some_0.owner == owner@ {
                                    let t = choose|t: int|
                                        0 <= t < prev_out.len() && prev_out[t].0@ == bucket@[b]@;
                                    assert(out@[t].0@ == bucket@[b]@);
                                }
                            }
                        }
                    }
                    i += 1;
                }
                proof {
                    assert forall|k: Seq<u8>|
                        #![trigger self.spec_get(k)]
                        (match self.spec_get(k) {
                            Some(rec) => rec.owner == owner@ ==> exists|t: int|
                                0 <= t < out@.len() && out@[t].0@ == k,
                            None => true,
                        }) by {
                        if self.spec_get(k) is Some {
                            let rec = self.spec_get(k)->Some_0;
                            if rec.owner == owner@ {
                                let sh = spec_shard_of(k);
                                lemma_shard_find_some(self.shards@[sh]@, k);
                                let p = choose|p: int|
                                    0 <= p < self.shards@[sh]@.len() && self.shards@[sh]@[p].0@
                                        == k && shard_find(self.shards@[sh]@, k) == Some(
                                        self.shards@[sh]@[p].1@,
                                    );
                                assert(self.spec_owner_has_key(
                                    self.shards@[sh]@[p].1.owner@,
                                    self.shards@[sh]@[p].0@,
                                ));
                                assert(bucket_has(bucket@, k));
                            }
                        }
                    }
                }
                out
            },
            None => self.scan_by_owner(owner),
        }
    }

    /// Sequential scan of every shard, filtering by the record's owner: the
    /// correctness backstop for owners with no bucket.
    #[verifier::rlimit(100)]
    fn scan_by_owner(&self, owner: &AccountKey) -> (r: Vec<(AccountKey, AccountRecord)>)
        requires
            self.wf(),
        ensures
            owner_query_post(*self, owner@, r@),
    {
        let mut out: Vec<(AccountKey, AccountRecord)> = Vec::new();
        let mut si: usize = 0;
        while si < self.shards.len()
            invariant
                self.wf(),
                si <= self.shards@.len(),
                forall|t: int|
                    0 <= t < out@.len() ==> {
                        &&& self.spec_get(#[trigger] out@[t].0@) == Some(out@[t].1@)
                        &&& out@[t].1@.owner == owner@
                    },
                forall|k: Seq<u8>|
                    #![trigger self.spec_get(k)]
                    spec_shard_of(k) < si ==> (match self.spec_get(k) {
                        Some(rec) => rec.owner == owner@ ==> exists|t: int|
                            0 <= t < out@.len() && out@[t].0@ == k,
                        None => true,
                    }),
                forall|t: int|
                    0 <= t < out@.len() ==> spec_shard_of(#[trigger] out@[t].0@) < si,
                forall|t1: int, t2: int|
                    0 <= t1 < t2 < out@.len() ==> out@[t1].0@ != out@[t2].0@,
            decreases self.shards@.len() - si,
        {
            let ghost old_out = out@;
            let ghost shardv = self.shards@[si as int]@;
            let mut part = scan_shard_for_owner(&self.shards[si], owner);
            let ghost partv = part@;
            out.append(&mut part);
            proof {
                // The appended entries are live records of this shard.
                assert forall|t: int| old_out.len() <= t < out@.len() implies {
                    &&& self.spec_get(#[trigger] out@[t].0@) == Some(out@[t].1@)
                    &&& out@[t].1@.owner == owner@
                    &&& spec_shard_of(out@[t].0@) == si as int
                } by {
                    let tp = t - old_out.len();
                    assert(out@[t] == partv[tp]);
                    let p = choose|p: int|
                        #![trigger shardv[p]]
                        0 <= p < shardv.len() && partv[tp].0 == shardv[p].0 && partv[tp].1@
                            == shardv[p].1@;
                    assert(spec_shard_of(shardv[p].0@) == si as int);
                    lemma_shard_find_at(shardv, shardv[p].0@, p);
                }
                // Matching records of this shard all made it into the result.
                assert forall|k: Seq<u8>|
                    #![trigger self.spec_get(k)]
                    spec_shard_of(k) < si + 1 implies (match self.spec_get(k) {
                    Some(rec) => rec.owner == owner@ ==> exists|t: int|
                        0 <= t < out@.len() && out@[t].0@ == k,
                    None => true,
                }) by {
                    if spec_shard_of(k) < si {
                        if self.spec_get(k) is Some && self.spec_get(k)->Some_0.owner
                            == owner@ {
                            let t = choose|t: int|
                                0 <= t < old_out.len() && old_out[t].0@ == k;
                            assert(out@[t].0@ == k);
                        }
                    } else if spec_shard_of(k) == si as int && self.spec_get(k) is Some {
                        let rec = self.spec_get(k)->Some_0;
                        if rec.owner == owner@ {
                            lemma_shard_find_some(shardv, k);
                            let p = choose|p: int|
                                0 <= p < shardv.len() && shardv[p].0@ == k && shard_find(
                                    shardv,
                                    k,
                                ) == Some(shardv[p].1@);
                            assert(shardv[p].1.owner@ == owner@);
                            let tp = choose|tp: int|
                                0 <= tp < partv.len() && partv[tp].0@ == shardv[p].0@;
                            assert(out@[old_out.len() + tp].0@ == k);
                        }
                    }
                }
                // No key appears twice.
                assert forall|t1: int, t2: int| 0 <= t1 < t2 < out@.len() implies out@[t1].0@
                    != out@[t2].0@ by {
                    if t1 < old_out.len() && t2 >= old_out.len() {
                        assert(spec_shard_of(out@[t1].0@) < si as int);
                        assert(spec_shard_of(out@[t2].0@) == si as int);
                    } else if t1 >= old_out.len() {
                        assert(partv[t1 - old_out.len()].0@ != partv[t2 - old_out.len()].0@);
                    }
                }
            }
            si += 1;
        }
        out
    }

    /// The records owned by `owner` whose data matches the byte-range
    /// predicate, sorted by balance descending and truncated to `limit`.
    #[verifier::rlimit(100)]
    #[verifier::loop_isolation(false)]
    pub fn top_by_predicate(
        &self,
        owner: &AccountKey,
        offset: usize,
        expected: &Vec<u8>,
        limit: usize,
    ) -> (r: Vec<(AccountKey, AccountRecord)>)
        requires
            self.wf(),
        ensures
            top_query_post(*self, owner@, offset as int, expected@, limit as int, r@),
    {
        let mut cand = self.get_program_accounts(owner);
        let ghost candv = cand@;
        let mut kept: Vec<(AccountKey, AccountRecord)> = Vec::new();
        while cand.len() > 0
            invariant
                cand@ == candv.subrange(0, cand@.len() as int),
                cand@.len() <= candv.len(),
                forall|t: int|
                    0 <= t < kept@.len() ==> exists|c: int|
                        #![trigger candv[c]]
                        cand@.len() <= c < candv.len() && candv[c] == #[trigger] kept@[t],
                forall|t: int|
                    0 <= t < kept@.len() ==> memcmp_matches(
                        (#[trigger] kept@[t]).1@.data,
                        offset as int,
                        expected@,
                    ),
                forall|c: int|
                    cand@.len() <= c < candv.len() ==> (memcmp_matches(
                        (#[trigger] candv[c]).1@.data,
                        offset as int,
                        expected@,
                    ) ==> exists|t: int| 0 <= t < kept@.len() && kept@[t] == candv[c]),
                forall|t1: int, t2: int|
                    0 <= t1 < t2 < kept@.len() ==> kept@[t1].0@ != kept@[t2].0@,
            decreases cand@.len(),
        {
            let ghost nc = cand@.len() - 1;
            let ghost prev_kept = kept@;
            let e = cand.pop().unwrap();
            proof {
                assert(e == candv[nc]);
                assert(cand@ =~= candv.subrange(0, nc));
            }
            let matched = byte_range_matches(offset, expected, &e.1.data);
            if matched {
                proof {
                    assert forall|t: int| 0 <= t < kept@.len() implies kept@[t].0@ != e.0@ by {
                        let c = choose|c: int|
                            #![trigger candv[c]]
                            nc + 1 <= c < candv.len() && candv[c] == kept@[t];
                        assert(candv[nc].0@ != candv[c].0@);
                    }
                }
                kept.push(e);
            }
            proof {
                assert forall|c: int| nc <= c < candv.len() implies (memcmp_matches(
                    (#[trigger] candv[c]).1@.data,
                    offset as int,
                    expected@,
                ) ==> exists|t: int| 0 <= t < kept@.len() && kept@[t] == candv[c]) by {
                    if memcmp_matches(candv[c].1@.data, offset as int, expected@) {
                        if c == nc {
                            assert(matched);
                            assert(kept@[kept@.len() - 1] == candv[nc]);
                        } else {
                            let t = choose|t: int|
                                0 <= t < prev_kept.len() && prev_kept[t] == candv[c];
                            assert(kept@[t] == candv[c]);
                        }
                    }
                }
            }
        }
        let ghost keptv = kept@;
        let sorted = sort_by_balance_desc(kept);
        let ghost sortedv = sorted@;
        let mut r = sorted;
        r.truncate(limit);
        proof {
            lemma_perm_membership(sortedv, keptv);
            lemma_perm_membership(keptv, sortedv);
            assert(keptv.no_duplicates()) by {
                assert forall|t1: int, t2: int|
                    0 <= t1 < keptv.len() && 0 <= t2 < keptv.len() && t1 != t2 implies keptv[t1]
                    != keptv[t2] by {
                    if t1 < t2 {
                        assert(keptv[t1].0@ != keptv[t2].0@);
                    } else {
                        assert(keptv[t2].0@ != keptv[t1].0@);
                    }
                }
            }
            keptv.lemma_multiset_has_no_duplicates();
            sortedv.lemma_multiset_has_no_duplicates_conv();
            // The result is the first `limit` entries of the sorted sequence.
            assert(r@ == if limit as int <= sortedv.len() {
                sortedv.subrange(0, limit as int)
            } else {
                sortedv
            });
            assert(r@.len() == if limit as int <= sortedv.len() {
                limit as int
            } else {
                sortedv.len() as int
            });
            assert(forall|i: int| 0 <= i < r@.len() ==> #[trigger] r@[i] == sortedv[i]);
            assert(sorted_desc(r@));
            // Each returned entry is a live matching record.
            assert forall|i: int| 0 <= i < r@.len() implies {
                &&& self.spec_get(#[trigger] r@[i].0@) == Some(r@[i].1@)
                &&& r@[i].1@.owner == owner@
                &&& memcmp_matches(r@[i].1@.data, offset as int, expected@)
            } by {
                assert(keptv.contains(sortedv[i]));
                let t = choose|t: int| 0 <= t < keptv.len() && keptv[t] == sortedv[i];
                let c = choose|c: int|
                    #![trigger candv[c]]
                    0 <= c < candv.len() && candv[c] == keptv[t];
                assert(self.spec_get(candv[c].0@) == Some(candv[c].1@));
            }
            // No key appears twice.
            assert forall|i: int, j: int| 0 <= i < j < r@.len() implies r@[i].0@ != r@[j].0@ by {
                assert(sortedv[i] != sortedv[j]);
                assert(keptv.contains(sortedv[i]));
                assert(keptv.contains(sortedv[j]));
                let t1 = choose|t1: int| 0 <= t1 < keptv.len() && keptv[t1] == sortedv[i];
                let t2 = choose|t2: int| 0 <= t2 < keptv.len() && keptv[t2] == sortedv[j];
                assert(t1 != t2);
                if t1 < t2 {
                    assert(keptv[t1].0@ != keptv[t2].0@);
                } else {
                    assert(keptv[t2].0@ != keptv[t1].0@);
                }
            }
            // Anything matching that was left out lost to a full result of
            // at-least-as-large balances.
            assert forall|k: Seq<u8>|
                #![trigger self.spec_get(k)]
                (match self.spec_get(k) {
                Some(rec) => (rec.owner == owner@ && memcmp_matches(
                    rec.data,
                    offset as int,
                    expected@,
                ) && !(exists|i: int| 0 <= i < r@.len() && r@[i].0@ == k)) ==> (r@.len()
                    == limit as int && forall|i: int|
                    0 <= i < r@.len() ==> (#[trigger] r@[i]).1@.balance >= rec.balance),
                None => true,
            }) by {
                if self.spec_get(k) is Some {
                    let rec = self.spec_get(k)->Some_0;
                    if rec.owner == owner@ && memcmp_matches(rec.data, offset as int, expected@)
                        && !(exists|i: int| 0 <= i < r@.len() && r@[i].0@ == k) {
                        let c = choose|c: int| 0 <= c < candv.len() && candv[c].0@ == k;
                        assert(self.spec_get(candv[c].0@) == Some(candv[c].1@));
                        assert(candv[c].1@ == rec);
                        assert(memcmp_matches(candv[c].1@.data, offset as int, expected@));
                        let t = choose|t: int| 0 <= t < keptv.len() && keptv[t] == candv[c];
                        assert(sortedv.contains(keptv[t]));
                        let t0 = choose|t0: int|
                            0 <= t0 < sortedv.len() && sortedv[t0] == keptv[t];
                        assert(sortedv[t0].0@ == k);
                        if t0 < r@.len() {
                            assert(r@[t0].0@ == k);
                        }
                        assert(t0 >= r@.len());
                        assert(r@.len() == limit as int);
                        assert forall|i: int| 0 <= i < r@.len() implies (#[trigger] r@[i]).1@
                            .balance >= rec.balance by {
                            assert(sortedv[i].1@.balance >= sortedv[t0].1@.balance);
                        }
                    }
                }
            }
        }
        r
    }

    /// Absorb a payload fetched from the overflow tier after a local miss:
    /// decode it and, when sound, repopulate the local shard and the owner
    /// index, returning the record. A corrupt payload is an ordinary miss,
    /// never an error, and leaves the index untouched.
    pub fn absorb_overflow(&mut self, key: AccountKey, payload: &Vec<u8>) -> (r: Option<
        AccountRecord,
    >)
        requires
            old(self).wf(),
        ensures
            final(self).wf(),
            match r {
                Some(rec) => crate::codec::lz4_inflate(payload@) matches Some(f)
                    && crate::frame::parse_frame_spec(f) == Some(rec@) && insert_effect(
                    *old(self),
                    *final(self),
                    key,
                    rec@,
                ),
                None => *final(self) == *old(self) && (crate::codec::lz4_inflate(payload@)
                    matches Some(f) ==> crate::frame::parse_frame_spec(f) is None),
            },
    {
        match crate::frame::decode_overflow(payload) {
            Some(rec) => {
                let dup = rec.clone();
                self.insert(key, rec);
                Some(dup)
            },
            None => None,
        }
    }

    /// Number of records cached, saturating at the machine limit; used for
    /// health checks and metrics.
    pub fn len(&self) -> (r: usize)
        ensures
            r as nat == if self.spec_len() <= usize::MAX as nat {
                self.spec_len()
            } else {
                usize::MAX as nat
            },
    {
        let mut total: usize = 0;
        let mut i: usize = 0;
        while i < self.shards.len()
            invariant
                i <= self.shards@.len(),
                total as nat == if sum_shard_lens(self.shards@.take(i as int)) <= usize::MAX as nat {
                    sum_shard_lens(self.shards@.take(i as int))
                } else {
                    usize::MAX as nat
                },
            decreases self.shards@.len() - i,
        {
            let l = self.shards[i].len();
            proof {
                assert(self.shards@.take(i + 1).drop_last() =~= self.shards@.take(i as int));
                assert(self.shards@.take(i + 1).last() == self.shards@[i as int]);
            }
            if total > usize::MAX - l {
                total = usize::MAX;
            } else {
                total = total + l;
            }
            i += 1;
        }
        proof {
            assert(self.shards@.take(self.shards@.len() as int) =~= self.shards@);
        }
        total
    }
}

impl Default for ShardedIndex {
    /// Same as `ShardedIndex::new`.
    fn default() -> (r: Self)
        ensures
            r.wf(),
            forall|k: Seq<u8>| r.spec_get(k) is None,
            r.spec_len() == 0,
    {
        ShardedIndex::new()
    }
}

/// Inserts under keys of two different shards commute: every observable of
/// the index (lookups and the total count) is the same whichever write
/// landed first, so neither write is lost.
pub proof fn lemma_insert_commutes(
    pre: ShardedIndex,
    mid1: ShardedIndex,
    post1: ShardedIndex,
    mid2: ShardedIndex,
    post2: ShardedIndex,
    k1: AccountKey,
    r1: RecordV,
    k2: AccountKey,
    r2: RecordV,
)
    requires
        spec_shard_of(k1@) != spec_shard_of(k2@),
        insert_effect(pre, mid1, k1, r1),
        insert_effect(mid1, post1, k2, r2),
        insert_effect(pre, mid2, k2, r2),
        insert_effect(mid2, post2, k1, r1),
    ensures
        forall|k: Seq<u8>| post1.spec_get(k) == post2.spec_get(k),
        post1.spec_len() == post2.spec_len(),
{
    assert(k1@ != k2@);
    assert forall|k: Seq<u8>| post1.spec_get(k) == post2.spec_get(k) by {
        if k == k1@ {
            assert(post1.spec_get(k) == mid1.spec_get(k1@));
        } else if k == k2@ {
            assert(post2.spec_get(k) == mid2.spec_get(k2@));
        } else {
            assert(post1.spec_get(k) == pre.spec_get(k));
            assert(post2.spec_get(k) == pre.spec_get(k));
        }
    }
    assert(mid1.spec_get(k2@) == pre.spec_get(k2@));
    assert(mid2.spec_get(k1@) == pre.spec_get(k1@));
}

} // verus!
