use fractal::account::{key_eq, AccountKey, AccountRecord};
use fractal::index::{shard_index_of, ShardedIndex};

fn key(tag: u8) -> AccountKey {
    let mut b = [0u8; 32];
    b[0] = tag;
    b[31] = tag.wrapping_mul(7);
    AccountKey::new(b)
}

fn record(owner: AccountKey, balance: u64, data: Vec<u8>) -> AccountRecord {
    AccountRecord { owner, balance, data, executable: false, rent_epoch: 361 }
}

#[test]
fn shard_selection_is_stable() {
    let k = key(42);
    let first = shard_index_of(&k);
    for _ in 0..10 {
        assert_eq!(shard_index_of(&k), first);
    }
    let same_bytes = key(42);
    assert_eq!(shard_index_of(&same_bytes), first);
}

#[test]
fn shard_selection_uses_late_bytes() {
    // Two keys sharing a long prefix and differing only in the last byte
    // land in different shards here: the hash reads the full key.
    let mut a = [7u8; 32];
    let mut b = [7u8; 32];
    a[31] = 1;
    b[31] = 2;
    assert_ne!(
        shard_index_of(&AccountKey::new(a)),
        shard_index_of(&AccountKey::new(b))
    );
}

#[test]
fn insert_then_get_returns_deep_equal_record() {
    let mut idx = ShardedIndex::new();
    let k = key(1);
    let owner = key(9);
    let rec = AccountRecord {
        owner,
        balance: 1_000_000,
        data: vec![1, 2, 3, 4, 5],
        executable: true,
        rent_epoch: 250,
    };
    idx.insert(k, rec.clone());
    let got = idx.get(&k).expect("present");
    assert_eq!(got, rec);
    assert!(key_eq(&got.owner, &owner));
    assert_eq!(idx.len(), 1);
}

#[test]
fn insert_replaces_wholesale() {
    let mut idx = ShardedIndex::new();
    let k = key(2);
    idx.insert(k, record(key(9), 10, vec![1]));
    idx.insert(k, record(key(8), 20, vec![2, 2]));
    let got = idx.get(&k).expect("present");
    assert_eq!(got.balance, 20);
    assert_eq!(got.data, vec![2, 2]);
    assert!(key_eq(&got.owner, &key(8)));
    assert_eq!(idx.len(), 1);
}

#[test]
fn remove_deletes_only_its_key() {
    let mut idx = ShardedIndex::new();
    idx.insert(key(1), record(key(9), 1, vec![]));
    idx.insert(key(2), record(key(9), 2, vec![]));
    idx.remove(&key(1));
    assert!(idx.get(&key(1)).is_none());
    assert!(idx.get(&key(2)).is_some());
    assert_eq!(idx.len(), 1);
}

#[test]
fn removed_key_is_excluded_from_owner_lookup() {
    // The owner bucket still references the removed key internally; the
    // lookup filters it out lazily.
    let mut idx = ShardedIndex::new();
    let owner = key(9);
    idx.insert(key(1), record(owner, 1, vec![]));
    idx.insert(key(2), record(owner, 2, vec![]));
    idx.remove(&key(1));
    let got = idx.get_program_accounts(&owner);
    assert_eq!(got.len(), 1);
    assert!(key_eq(&got[0].0, &key(2)));
}

#[test]
fn owner_lookup_tracks_owner_changes() {
    let mut idx = ShardedIndex::new();
    let k = key(3);
    idx.insert(k, record(key(10), 5, vec![]));
    idx.insert(k, record(key(11), 5, vec![]));
    assert_eq!(idx.get_program_accounts(&key(10)).len(), 0);
    assert_eq!(idx.get_program_accounts(&key(11)).len(), 1);
}

#[test]
fn owner_lookup_unknown_owner_is_empty() {
    let mut idx = ShardedIndex::new();
    idx.insert(key(1), record(key(9), 1, vec![]));
    assert!(idx.get_program_accounts(&key(77)).is_empty());
}

#[test]
fn distinct_shard_inserts_commute() {
    // The sequential core of lost-write freedom: applying two writes whose
    // keys hash to different shards in either order leaves the same
    // observable index.
    let ka = key(1);
    let kb = key(2);
    assert_ne!(shard_index_of(&ka), shard_index_of(&kb));
    let ra = record(key(9), 111, vec![1]);
    let rb = record(key(9), 222, vec![2]);

    let mut one = ShardedIndex::new();
    one.insert(ka, ra.clone());
    one.insert(kb, rb.clone());

    let mut two = ShardedIndex::new();
    two.insert(kb, rb.clone());
    two.insert(ka, ra.clone());

    assert_eq!(one.get(&ka), two.get(&ka));
    assert_eq!(one.get(&kb), two.get(&kb));
    assert_eq!(one.len(), two.len());
}

#[test]
fn top_by_predicate_sorts_and_truncates() {
    let mut idx = ShardedIndex::new();
    let owner = key(9);
    let mint = key(5);
    let mut mint_data = Vec::new();
    for i in 0..32 {
        mint_data.push(mint.bytes[i]);
    }
    for (tag, balance) in [(1u8, 50u64), (2, 300), (3, 100), (4, 200)] {
        idx.insert(key(tag), record(owner, balance, mint_data.clone()));
    }
    // One record under the same owner with different leading bytes.
    idx.insert(key(6), record(owner, 999, vec![0u8; 40]));

    let top = idx.top_by_predicate(&owner, 0, &mint_data, 3);
    assert_eq!(top.len(), 3);
    let balances: Vec<u64> = top.iter().map(|e| e.1.balance).collect();
    assert_eq!(balances, vec![300, 200, 100]);

    // The set of returned keys is deterministic for a fixed snapshot.
    let again = idx.top_by_predicate(&owner, 0, &mint_data, 3);
    let mut keys1: Vec<[u8; 32]> = top.iter().map(|e| e.0.bytes).collect();
    let mut keys2: Vec<[u8; 32]> = again.iter().map(|e| e.0.bytes).collect();
    keys1.sort();
    keys2.sort();
    assert_eq!(keys1, keys2);
}

#[test]
fn absorb_overflow_rejects_corrupt_payload() {
    let mut idx = ShardedIndex::new();
    let got = idx.absorb_overflow(key(1), &vec![1, 2, 3]);
    assert!(got.is_none());
    assert_eq!(idx.len(), 0);
}

#[test]
fn absorb_overflow_repopulates_from_encoded_record() {
    let rec = record(key(9), 77, vec![5, 6, 7]);
    let payload = fractal::frame::encode_overflow(&rec).expect("compresses");
    let mut idx = ShardedIndex::new();
    let got = idx.absorb_overflow(key(1), &payload).expect("decodes");
    assert_eq!(got, rec);
    assert_eq!(idx.get(&key(1)).expect("repopulated"), rec);
}
