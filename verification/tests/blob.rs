use ringfire::blob::{look_at_blob, settle_blob};
use ringfire::{
    BlobConsumer, BlobProducer, BlobProducerBuilder, BlobRecvStatus, LayoutSignature,
    RingfireError,
};

const ME: u32 = 4711;
const LIVE: [u32; 1] = [ME];

#[derive(Debug, Clone, Copy, PartialEq, Eq)]
struct OrderBookHeader {
    symbol_id: u32,
    seq_num: u64,
    bids_count: u32,
    asks_count: u32,
}

impl LayoutSignature for OrderBookHeader {
    const FULL_NAME: &'static str = "blob::OrderBookHeader";
}

#[test]
fn test_blob_producer_consumer_roundtrip() {
    let (mut producer, mut ring) = BlobProducer::<u64>::create(64, 65536).unwrap();
    let mut consumer =
        BlobConsumer::<u64>::attach_with_name(&mut ring, "test_cons", ME, &LIVE).unwrap();

    let mut out = [0u8; 1024];
    let mut meta = 0u64;

    assert_eq!(consumer.recv(&mut ring, &mut meta, &mut out).unwrap(), None);

    let payload1 = b"Hello from Ringfire PayloadArena!";
    producer.push(&mut ring, 101, payload1).unwrap();

    let payload2 = vec![0xFEu8; 512];
    producer.push(&mut ring, 102, &payload2).unwrap();

    let len1 = consumer.recv(&mut ring, &mut meta, &mut out).unwrap().unwrap();
    assert_eq!(meta, 101);
    assert_eq!(&out[..len1], payload1);

    let len2 = consumer.recv(&mut ring, &mut meta, &mut out).unwrap().unwrap();
    assert_eq!(meta, 102);
    assert_eq!(&out[..len2], &payload2[..]);

    assert_eq!(consumer.recv(&mut ring, &mut meta, &mut out).unwrap(), None);
}

#[test]
fn test_blob_view_in_place() {
    let (mut producer, mut ring) = BlobProducer::<()>::create(64, 65536).unwrap();
    let mut consumer = BlobConsumer::<()>::attach(&mut ring, ME, &LIVE).unwrap();

    let payload = b"In-place inspection test data";
    producer.push_payload(&mut ring, payload).unwrap();

    let inspected_len = consumer
        .view(&mut ring, |_: &(), slice: &[u8]| {
            assert_eq!(slice, payload);
            slice.len()
        })
        .unwrap();

    assert_eq!(inspected_len, payload.len());
}

#[test]
fn test_blob_producer_consumer_multi_sizes() {
    let (mut producer, mut ring) =
        BlobProducer::<OrderBookHeader>::create(128, 512 * 1024).unwrap();
    let mut consumer =
        BlobConsumer::<OrderBookHeader>::attach_with_name(&mut ring, "market_eval", ME, &LIVE)
            .unwrap();

    let mut meta = OrderBookHeader { symbol_id: 0, seq_num: 0, bids_count: 0, asks_count: 0 };
    let mut out_buf = vec![0u8; 65536];

    // Empty check
    assert_eq!(consumer.recv(&mut ring, &mut meta, &mut out_buf).unwrap(), None);

    // Test multiple varying payload sizes
    let sizes = [16, 64, 256, 1024, 8192, 32768];
    for (i, &sz) in sizes.iter().enumerate() {
        let sent_meta = OrderBookHeader {
            symbol_id: 42,
            seq_num: (i + 1) as u64,
            bids_count: sz as u32 / 16,
            asks_count: sz as u32 / 16,
        };

        let sent_payload: Vec<u8> = (0..sz).map(|b| ((b * 7 + i) & 0xFF) as u8).collect();
        let (seq, _wake) = producer.push(&mut ring, sent_meta, &sent_payload).unwrap();
        assert_eq!(seq, (i + 1) as u64);

        let received_len = consumer.recv(&mut ring, &mut meta, &mut out_buf).unwrap().unwrap();
        assert_eq!(received_len, sz);
        assert_eq!(meta, sent_meta);
        assert_eq!(&out_buf[..received_len], &sent_payload[..]);
    }

    // Must be empty again
    assert_eq!(consumer.recv(&mut ring, &mut meta, &mut out_buf).unwrap(), None);
}

#[test]
fn test_blob_zero_copy_push_and_view() {
    let (mut producer, mut ring) = BlobProducer::<u32>::create(64, 65536).unwrap();
    let mut consumer = BlobConsumer::<u32>::attach(&mut ring, ME, &LIVE).unwrap();

    let target_len = 1000;
    let (seq, res_code, _wake) = producer
        .push_with(&mut ring, 999, target_len, |buf: &mut [u8]| {
            buf.fill(0x5A);
            42 // Custom return value from closure
        })
        .unwrap();

    assert_eq!(seq, 1);
    assert_eq!(res_code, 42);

    let inspected = consumer
        .view(&mut ring, |meta: &u32, slice: &[u8]| {
            assert_eq!(*meta, 999);
            assert_eq!(slice.len(), target_len);
            assert!(slice.iter().all(|&b| b == 0x5A));
            true
        })
        .unwrap();

    assert!(inspected);
}

#[test]
fn test_reader_registry_multi_reader_monitoring() {
    let (mut producer, mut ring) = BlobProducer::<()>::create(128, 65536).unwrap();

    let mut c1 = BlobConsumer::<()>::attach_with_name(&mut ring, "fast_reader", ME, &LIVE).unwrap();
    let mut c2 = BlobConsumer::<()>::attach_with_name(&mut ring, "slow_reader", ME, &LIVE).unwrap();

    // Push 20 messages
    for i in 1..=20 {
        producer.push_payload(&mut ring, &[i as u8]).unwrap();
    }

    assert_eq!(producer.sequence(), 20);

    // c1 drains all 20 messages
    let mut buf = [0u8; 16];
    for _ in 1..=20 {
        assert!(c1.recv_payload(&mut ring, &mut buf).unwrap().is_some());
    }

    // c2 only drains 5 messages
    for _ in 1..=5 {
        assert!(c2.recv_payload(&mut ring, &mut buf).unwrap().is_some());
    }

    // c1 cursor is 21, c2 cursor is 6
    assert_eq!(c1.cursor(), 21);
    assert_eq!(c2.cursor(), 6);

    // Min reader seq must reflect the slowest reader (c2 at 6)
    assert_eq!(producer.min_reader_seq(&mut ring, &LIVE), Some(6));
    assert_eq!(producer.reader_lag(&mut ring, &LIVE), 14); // 20 - 6 = 14 messages behind
    assert_eq!(producer.headroom(&mut ring, &LIVE), 128 - 14);

    let active = producer.active_readers(&mut ring, &LIVE);
    assert_eq!(active.len(), 2);
    let names: Vec<String> = active.iter().map(|r| r.name.clone()).collect();
    assert!(names.contains(&"fast_reader".to_string()));
    assert!(names.contains(&"slow_reader".to_string()));

    // Drop c2
    let registration = c2.registration.unwrap();
    registration.release(ring.ring.registry.as_mut().unwrap());

    // Now only c1 is active (cursor at 21, lag = 0)
    assert_eq!(producer.min_reader_seq(&mut ring, &LIVE), Some(21));
    assert_eq!(producer.reader_lag(&mut ring, &LIVE), 0);
    assert_eq!(producer.headroom(&mut ring, &LIVE), 128);
}

#[test]
fn test_blob_arena_lapping_behavior() {
    let capacity = 32;
    let arena_capacity = 32 * 1024; // 32 KB arena
    let (mut producer, mut ring) = BlobProducer::<u32>::create(capacity, arena_capacity).unwrap();
    let mut consumer = BlobConsumer::<u32>::attach(&mut ring, ME, &LIVE).unwrap();

    let chunk = vec![0xABu8; 256];

    // Push 100 messages into a 32-capacity queue, lapping the reader
    for i in 1..=100 {
        producer.push(&mut ring, i as u32, &chunk).unwrap();
    }

    let mut meta = 0u32;
    let mut out = vec![0u8; 512];

    let status = consumer.recv_status(&mut ring, &mut meta, &mut out).unwrap();
    match status {
        BlobRecvStatus::Lapped { skipped, payload_len } => {
            assert_eq!(skipped, 68); // 100 - 32 = 68
            assert_eq!(payload_len, 256);
            assert_eq!(meta, 69);
            assert_eq!(&out[..256], &chunk[..]);
        }
        other => panic!("Expected BlobRecvStatus::Lapped, got {:?}", other),
    }

    assert_eq!(consumer.lapped_count(), 68);
}

#[test]
fn r2_blob_consumer_skips_arena_lap() {
    let (mut producer, mut ring) = BlobProducer::<u64>::create(64, 4096).unwrap();
    let mut consumer = BlobConsumer::<u64>::attach(&mut ring, ME, &LIVE).unwrap();
    for i in 0..20u64 {
        producer.push(&mut ring, i, &[i as u8; 1000]).unwrap();
    }
    let mut meta = 0u64;
    let mut out = [0u8; 2048];
    let mut seen = Vec::new();
    while let Some(len) = consumer.recv(&mut ring, &mut meta, &mut out).unwrap() {
        assert!(out[..len].iter().all(|&b| b == meta as u8), "payload of {} corrupted", meta);
        seen.push(meta);
    }
    // 4 KiB arena holds the last four 1 KiB blobs.
    assert_eq!(seen, vec![16, 17, 18, 19]);
    assert_eq!(consumer.lapped_count(), 16);
}

#[test]
fn blob_errors_leave_the_ring_alone() {
    let (mut producer, mut ring) = BlobProducer::<u64>::create(16, 1024).unwrap();
    assert!(matches!(
        producer.push(&mut ring, 1, &[0u8; 2000]),
        Err(RingfireError::ArenaPayloadTooLarge { len: 2000, max_capacity: 1024 })
    ));
    assert_eq!(producer.sequence(), 0);
    let mut consumer = BlobConsumer::<u64>::attach(&mut ring, ME, &LIVE).unwrap();
    producer.push(&mut ring, 5, b"0123456789").unwrap();
    assert_eq!(consumer.lag(&ring), 1);
    let mut meta = 0;
    let mut short = [0u8; 4];
    assert!(matches!(
        consumer.recv(&mut ring, &mut meta, &mut short),
        Err(RingfireError::BufferTooSmall { required: 10, provided: 4 })
    ));
    let mut out = [0u8; 16];
    assert_eq!(consumer.recv(&mut ring, &mut meta, &mut out).unwrap(), Some(10));
    assert_eq!(meta, 5);
    assert_eq!(&out[..10], b"0123456789");
}

#[test]
fn blob_rings_need_powers_of_two() {
    assert!(matches!(
        BlobProducerBuilder::new(10, 1024).build::<u64>(),
        Err(RingfireError::InvalidCapacity(10))
    ));
    assert!(matches!(
        BlobProducerBuilder::new(16, 1000).build::<u64>(),
        Err(RingfireError::InvalidCapacity(1000))
    ));
}

#[test]
fn empty_messages_survive_a_wrapped_arena() {
    let (mut producer, mut ring) = BlobProducer::<u64>::create(16, 64).unwrap();
    let mut consumer = BlobConsumer::<u64>::attach(&mut ring, ME, &LIVE).unwrap();
    producer.push(&mut ring, 1, &[1u8; 64]).unwrap();
    producer.push(&mut ring, 2, &[]).unwrap();
    producer.push(&mut ring, 3, &[3u8; 64]).unwrap();
    producer.push(&mut ring, 4, &[]).unwrap();
    let mut meta = 0u64;
    let mut out = [0u8; 64];
    let mut seen = Vec::new();
    while let Some(len) = consumer.recv(&mut ring, &mut meta, &mut out).unwrap() {
        seen.push((meta, len));
    }
    assert_eq!(seen, vec![(2, 0), (3, 64), (4, 0)]);
    assert_eq!(consumer.lapped_count(), 1);
}

#[test]
fn a_blob_is_delivered_only_if_it_was_in_place_at_both_looks() {
    let (mut producer, mut ring) = BlobProducer::<u64>::create(16, 64).unwrap();
    let consumer = BlobConsumer::<u64>::attach(&mut ring, ME, &LIVE).unwrap();
    producer.push(&mut ring, 1, &[1u8; 64]).unwrap();
    let blob = ring.ring.slots[1].data.unwrap().blob_ref;
    let before = ring.arena.header;

    let mut head = consumer.head;
    assert!(look_at_blob(&mut head, &before, blob));
    assert_eq!(head.cursor, 1);
    assert!(settle_blob(&mut head, &before, &before, blob));
    assert_eq!((head.cursor, head.lapped_total), (2, 0));

    // The producer wraps around between the two looks.
    producer.push(&mut ring, 2, &[2u8; 64]).unwrap();
    let after = ring.arena.header;
    let mut head = consumer.head;
    assert!(look_at_blob(&mut head, &before, blob));
    assert!(!settle_blob(&mut head, &before, &after, blob));
    assert_eq!((head.cursor, head.lapped_total), (2, 1));

    let mut head = consumer.head;
    assert!(!look_at_blob(&mut head, &after, blob));
    assert_eq!((head.cursor, head.lapped_total), (2, 1));
}

#[test]
fn an_unsound_arena_is_refused_whatever_its_size() {
    assert!(matches!(
        BlobProducer::<()>::create(8, usize::MAX),
        Err(RingfireError::InvalidCapacity(n)) if n == usize::MAX as u64
    ));
    assert!(matches!(
        BlobProducer::<()>::create(7, usize::MAX),
        Err(RingfireError::InvalidCapacity(7))
    ));
}
