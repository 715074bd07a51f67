use fractal::account::{AccountKey, AccountRecord};
use fractal::codec::{b64_decode, b64_encode, compress, decompress};
use fractal::feed::{event_passes, ChangeFeed, Event, SubFilter};
use fractal::frame::{decode_overflow, encode_overflow, frame_record, parse_record};
use fractal::index::ShardedIndex;
use fractal::ingest::{ingest_update, ProducerError, SUPPORTED_PRODUCER_VERSION};

fn key(tag: u8) -> AccountKey {
    let mut b = [0u8; 32];
    b[0] = tag;
    b[31] = tag.wrapping_mul(7);
    AccountKey::new(b)
}

fn record(owner: AccountKey, balance: u64, data: Vec<u8>) -> AccountRecord {
    AccountRecord { owner, balance, data, executable: false, rent_epoch: 361 }
}

#[test]
fn compress_roundtrip_including_empty() {
    for data in [vec![], vec![0u8], vec![7u8; 1000], (0..=255u8).collect::<Vec<u8>>()] {
        let c = compress(&data).expect("compresses");
        let back = decompress(&c).expect("decompresses");
        assert_eq!(back, data);
    }
}

#[test]
fn compress_is_not_the_identity() {
    let data = vec![1u8, 2, 3];
    let c = compress(&data).expect("compresses");
    // An LZ4 frame starts with its magic number, not with the input.
    assert_eq!(c[0], 0x04);
    assert_ne!(c, data);
}

#[test]
fn decompress_rejects_garbage() {
    // A stream long enough to be read but with a wrong magic number.
    assert!(decompress(&vec![9u8; 20]).is_none());
}

#[test]
fn frame_roundtrip_all_fields() {
    let rec = AccountRecord {
        owner: key(9),
        balance: u64::MAX,
        data: vec![0, 1, 255],
        executable: true,
        rent_epoch: 0,
    };
    let framed = frame_record(&rec);
    let back = parse_record(&framed).expect("parses");
    assert_eq!(back, rec);
}

#[test]
fn frame_rejects_short_and_malformed() {
    assert!(parse_record(&vec![0u8; 10]).is_none());
    let rec = record(key(9), 1, vec![]);
    let mut framed = frame_record(&rec);
    framed[48] = 7; // executable byte must be strictly 0 or 1
    assert!(parse_record(&framed).is_none());
}

#[test]
fn overflow_entry_roundtrip() {
    let rec = record(key(9), 123, vec![1, 2, 3, 4]);
    let payload = encode_overflow(&rec).expect("encodes");
    assert_eq!(decode_overflow(&payload).expect("decodes"), rec);
}

#[test]
fn base64_known_values() {
    assert_eq!(b64_encode(&b"hi".to_vec()), "aGk=");
    assert_eq!(b64_encode(&Vec::new()), "");
    assert_eq!(b64_decode("aGk="), Some(b"hi".to_vec()));
    assert!(b64_decode("!!!").is_none());
}

#[test]
fn ingest_rejects_bad_version_and_keys() {
    let mut idx = ShardedIndex::new();
    let good = key(1).bytes.to_vec();
    let r = ingest_update(&mut idx, 99, &good, &good, 1, vec![], false, 0);
    assert_eq!(r, Err(ProducerError::UnsupportedVersion));
    let r = ingest_update(
        &mut idx,
        SUPPORTED_PRODUCER_VERSION,
        &vec![1, 2],
        &good,
        1,
        vec![],
        false,
        0,
    );
    assert_eq!(r, Err(ProducerError::MalformedKey));
    let r = ingest_update(
        &mut idx,
        SUPPORTED_PRODUCER_VERSION,
        &good,
        &vec![],
        1,
        vec![],
        false,
        0,
    );
    assert_eq!(r, Err(ProducerError::MalformedOwner));
    assert_eq!(idx.len(), 0);

    let r = ingest_update(
        &mut idx,
        SUPPORTED_PRODUCER_VERSION,
        &good,
        &key(9).bytes.to_vec(),
        5,
        vec![1],
        true,
        2,
    );
    assert_eq!(r, Ok(()));
    let got = idx.get(&key(1)).expect("stored");
    assert_eq!(got.balance, 5);
    assert!(got.executable);
}

#[test]
fn subscriber_with_owner_filter_sees_only_its_owner() {
    let mut idx = ShardedIndex::new();
    let owner = key(9);
    let other = key(10);
    idx.insert(key(1), record(owner, 1, vec![]));
    idx.insert(key(2), record(other, 2, vec![]));

    let mut feed = ChangeFeed::new();
    let id = feed.subscribe(8, SubFilter::ByOwner(owner));
    feed.publish(Event::AccountUpdated { key: key(1), balance: 1, slot: 5 });
    feed.publish(Event::AccountUpdated { key: key(2), balance: 2, slot: 6 });

    let first = feed.poll(&idx, id).expect("one event passes");
    match first {
        Event::AccountUpdated { key: k, slot, .. } => {
            assert_eq!(k.bytes, key(1).bytes);
            assert_eq!(slot, 5);
        }
        _ => panic!("expected an account update"),
    }
    assert!(feed.poll(&idx, id).is_none());
}

#[test]
fn slot_events_always_pass() {
    let idx = ShardedIndex::new();
    let e = Event::SlotUpdated { slot: 1 };
    assert!(event_passes(&idx, &SubFilter::ByOwner(key(1)), &e));
    assert!(event_passes(&idx, &SubFilter::ByKey(key(1)), &e));
    assert!(event_passes(&idx, &SubFilter::Unfiltered, &e));
}

#[test]
fn key_filter_compares_without_lookup() {
    let idx = ShardedIndex::new();
    let e = Event::AccountUpdated { key: key(1), balance: 0, slot: 0 };
    assert!(event_passes(&idx, &SubFilter::ByKey(key(1)), &e));
    assert!(!event_passes(&idx, &SubFilter::ByKey(key(2)), &e));
}

#[test]
fn full_queue_drops_oldest_for_that_subscriber_only() {
    let idx = ShardedIndex::new();
    let mut feed = ChangeFeed::new();
    let small = feed.subscribe(1, SubFilter::Unfiltered);
    let large = feed.subscribe(8, SubFilter::Unfiltered);
    feed.publish(Event::SlotUpdated { slot: 1 });
    feed.publish(Event::SlotUpdated { slot: 2 });

    // The bounded subscriber lost the oldest event.
    match feed.poll(&idx, small).expect("has one") {
        Event::SlotUpdated { slot } => assert_eq!(slot, 2),
        _ => panic!("expected a slot update"),
    }
    assert!(feed.poll(&idx, small).is_none());

    // The roomy subscriber saw both, in FIFO order.
    match feed.poll(&idx, large).expect("first") {
        Event::SlotUpdated { slot } => assert_eq!(slot, 1),
        _ => panic!("expected a slot update"),
    }
    match feed.poll(&idx, large).expect("second") {
        Event::SlotUpdated { slot } => assert_eq!(slot, 2),
        _ => panic!("expected a slot update"),
    }
}
