use fractal::account::{key_eq, AccountKey, AccountRecord};
use fractal::dispatch::{
    check_api_key, get_by_owner_and_secondary, get_program_accounts, health, lookup_many,
    lookup_one, paginate, top_by_secondary, QueryError, QueryMetrics,
};
use fractal::filter::{all_match, filter_matches, Filter};
use fractal::index::ShardedIndex;

fn key(tag: u8) -> AccountKey {
    let mut b = [0u8; 32];
    b[0] = tag;
    b[31] = tag.wrapping_mul(7);
    AccountKey::new(b)
}

fn record(owner: AccountKey, balance: u64, data: Vec<u8>) -> AccountRecord {
    AccountRecord { owner, balance, data, executable: false, rent_epoch: 361 }
}

#[test]
fn lookup_many_preserves_length_and_order() {
    let mut idx = ShardedIndex::new();
    let a = key(1);
    let b = key(2);
    let c = key(3);
    idx.insert(a, record(key(9), 10, vec![1]));
    idx.insert(c, record(key(9), 30, vec![3]));
    let got = lookup_many(&idx, &None, &None, &vec![a, b, c]).expect("authorized");
    assert_eq!(got.len(), 3);
    assert_eq!(got[0].as_ref().map(|r| r.balance), Some(10));
    assert!(got[1].is_none());
    assert_eq!(got[2].as_ref().map(|r| r.balance), Some(30));
}

#[test]
fn lookup_one_finds_and_misses() {
    let mut idx = ShardedIndex::new();
    idx.insert(key(1), record(key(9), 10, vec![]));
    assert!(lookup_one(&idx, &None, &None, &key(1)).unwrap().is_some());
    assert!(lookup_one(&idx, &None, &None, &key(2)).unwrap().is_none());
}

#[test]
fn auth_rejects_missing_or_wrong_secret() {
    let required = Some(b"letmein".to_vec());
    assert!(!check_api_key(&required, &None));
    assert!(!check_api_key(&required, &Some(b"wrong".to_vec())));
    assert!(check_api_key(&required, &required.clone()));
    assert!(check_api_key(&None, &None));

    let idx = ShardedIndex::new();
    let err = lookup_one(&idx, &required, &None, &key(1));
    assert_eq!(err, Err(QueryError::Unauthorized));
    let err = lookup_many(&idx, &required, &Some(b"no".to_vec()), &vec![key(1)]);
    assert_eq!(err, Err(QueryError::Unauthorized));
    let err = get_program_accounts(&idx, &required, &None, &key(1), &Vec::new(), None, None);
    assert_eq!(err, Err(QueryError::Unauthorized));
}

#[test]
fn pagination_offset_past_end_is_empty() {
    let mut idx = ShardedIndex::new();
    let owner = key(9);
    for tag in 1..=3u8 {
        idx.insert(key(tag), record(owner, tag as u64, vec![]));
    }
    let v = get_program_accounts(&idx, &None, &None, &owner, &Vec::new(), Some(3), None)
        .expect("authorized");
    assert!(v.is_empty());
    let v = get_program_accounts(&idx, &None, &None, &owner, &Vec::new(), Some(100), Some(2))
        .expect("authorized");
    assert!(v.is_empty());
}

#[test]
fn pagination_never_exceeds_limit() {
    let mut idx = ShardedIndex::new();
    let owner = key(9);
    for tag in 1..=5u8 {
        idx.insert(key(tag), record(owner, tag as u64, vec![]));
    }
    for offset in [0usize, 1, 4, 9] {
        let v = get_program_accounts(
            &idx,
            &None,
            &None,
            &owner,
            &Vec::new(),
            Some(offset),
            Some(2),
        )
        .expect("authorized");
        assert!(v.len() <= 2);
    }
}

#[test]
fn paginate_takes_offset_before_limit() {
    let mut idx = ShardedIndex::new();
    let owner = key(9);
    for tag in 1..=4u8 {
        idx.insert(key(tag), record(owner, tag as u64, vec![]));
    }
    let full = idx.get_program_accounts(&owner);
    assert_eq!(full.len(), 4);
    let page = paginate(full.clone(), 1, 2);
    assert_eq!(page.len(), 2);
    assert!(key_eq(&page[0].0, &full[1].0));
    assert!(key_eq(&page[1].0, &full[2].0));
}

#[test]
fn filters_are_conjunctive() {
    let data = vec![1u8, 2, 3, 4];
    let range_ok = || Filter::ByteRange { offset: 1, expected: vec![2, 3] };
    let size_ok = Filter::DataSize { size: 4 };
    let size_bad = Filter::DataSize { size: 5 };
    assert!(all_match(&vec![], &data));
    assert!(all_match(&vec![range_ok()], &data));
    assert!(!all_match(&vec![range_ok(), size_bad], &data));
    assert!(all_match(&vec![range_ok(), size_ok], &data));
}

#[test]
fn out_of_range_byte_filter_excludes() {
    let data = vec![1u8, 2, 3];
    let over = Filter::ByteRange { offset: 2, expected: vec![3, 0] };
    assert!(!filter_matches(&over, &data));
    let exact = Filter::ByteRange { offset: 2, expected: vec![3] };
    assert!(filter_matches(&exact, &data));
}

#[test]
fn three_records_one_filtered() {
    // Three records owned by the same program, one matching the byte filter.
    let mut idx = ShardedIndex::new();
    let owner = key(9);
    idx.insert(key(1), record(owner, 1, vec![0xaa, 0x01]));
    idx.insert(key(2), record(owner, 2, vec![0xbb, 0x02]));
    idx.insert(key(3), record(owner, 3, vec![0xcc, 0x03]));
    let f = Filter::ByteRange { offset: 0, expected: vec![0xbb] };
    let v = get_program_accounts(&idx, &None, &None, &owner, &vec![f], None, None)
        .expect("authorized");
    assert_eq!(v.len(), 1);
    assert!(key_eq(&v[0].0, &key(2)));

    // limit 2, offset 1 returns items 2 and 3 of the full 3-item result.
    let full = get_program_accounts(&idx, &None, &None, &owner, &Vec::new(), None, None)
        .expect("authorized");
    assert_eq!(full.len(), 3);
    let page = get_program_accounts(&idx, &None, &None, &owner, &Vec::new(), Some(1), Some(2))
        .expect("authorized");
    assert_eq!(page.len(), 2);
    assert!(key_eq(&page[0].0, &full[1].0));
    assert!(key_eq(&page[1].0, &full[2].0));
}

#[test]
fn secondary_filter_reads_leading_bytes() {
    let mut idx = ShardedIndex::new();
    let owner = key(9);
    let mint = key(5);
    let mut mint_data: Vec<u8> = mint.bytes.to_vec();
    mint_data.push(77);
    idx.insert(key(1), record(owner, 1, mint_data.clone()));
    idx.insert(key(2), record(owner, 2, vec![0u8; 40]));
    let v = get_by_owner_and_secondary(&idx, &None, &None, &owner, &Some(mint), None, None)
        .expect("authorized");
    assert_eq!(v.len(), 1);
    assert!(key_eq(&v[0].0, &key(1)));
    let all = get_by_owner_and_secondary(&idx, &None, &None, &owner, &None, None, None)
        .expect("authorized");
    assert_eq!(all.len(), 2);
}

#[test]
fn top_by_secondary_sorts_descending() {
    let mut idx = ShardedIndex::new();
    let token_owner = key(9);
    let mint = key(5);
    let mint_data: Vec<u8> = mint.bytes.to_vec();
    for (tag, balance) in [(1u8, 5u64), (2, 50), (3, 20)] {
        idx.insert(key(tag), record(token_owner, balance, mint_data.clone()));
    }
    let v = top_by_secondary(&idx, &None, &None, &token_owner, &mint, Some(2))
        .expect("authorized");
    assert_eq!(v.len(), 2);
    assert_eq!(v[0].1.balance, 50);
    assert_eq!(v[1].1.balance, 20);
}

#[test]
fn health_reflects_occupancy() {
    let mut idx = ShardedIndex::new();
    assert!(!health(&idx));
    idx.insert(key(1), record(key(9), 1, vec![]));
    assert!(health(&idx));
}

#[test]
fn metrics_count_outcomes() {
    let mut m = QueryMetrics::new();
    m.note(true, 3);
    m.note(true, 4);
    m.note(false, 4);
    assert_eq!(m.served, 2);
    assert_eq!(m.unauthorized, 1);
    assert_eq!(m.cache_size, 4);
}
