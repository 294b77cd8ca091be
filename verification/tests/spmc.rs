use ringfire::spmc::{headroom_pause, HeadroomPause, PushOutcome};
use ringfire::{
    CleanupMode, ConsumerStartMode, FlowControl, FutexWait, LayoutSignature, OffsetCheckpoint,
    RecvStatus, Ring, RingConsumer, RingConsumerBuilder, RingProducer, RingProducerBuilder,
    RingfireError,
};
use std::time::Instant;

const ME: u32 = 4711;
const LIVE: [u32; 1] = [ME];

#[derive(Debug, Clone, Copy, PartialEq, Eq)]
struct TestTrade {
    time_ns: u64,
    px: u64,
    sz: u64,
    side: u8,
}

impl LayoutSignature for TestTrade {
    const FULL_NAME: &'static str = "spmc::TestTrade";
}

#[derive(Debug, Clone, Copy, PartialEq, Eq)]
struct TradeMsg {
    id: u64,
    price: u64,
    qty: u32,
    side: u8,
}

impl LayoutSignature for TradeMsg {
    const FULL_NAME: &'static str = "spmc::TradeMsg";
}

#[derive(Debug, Clone, Copy, PartialEq, Eq)]
struct OrderBookHeader {
    symbol_id: u32,
    seq_num: u64,
    bids_count: u32,
    asks_count: u32,
}

impl LayoutSignature for OrderBookHeader {
    const FULL_NAME: &'static str = "spmc::OrderBookHeader";
}

#[derive(Debug, Clone, Copy, PartialEq, Eq)]
struct IncompatibleHeader {
    symbol_id: u64,
    seq_num: u64,
    exchange_flags: u64,
}

impl LayoutSignature for IncompatibleHeader {
    const FULL_NAME: &'static str = "spmc::IncompatibleHeader";
}

fn put<T: Copy>(p: &mut RingProducer<T>, ring: &mut Ring<T>, item: T) {
    assert!(matches!(p.push(ring, item), PushOutcome::Published { .. }));
}

fn ring_of(capacity: u64) -> (RingProducer<u64>, Ring<u64>) {
    RingProducer::<u64>::create(capacity).unwrap()
}

#[test]
fn test_ring_buffer_push_and_recv() {
    let (mut producer, mut ring) = RingProducer::<TestTrade>::create(1024).unwrap();
    let mut consumer = RingConsumer::<TestTrade>::attach(&mut ring, ME, &LIVE).unwrap();

    assert_eq!(consumer.try_recv(&mut ring), None);

    let t1 = TestTrade { time_ns: 100, px: 81200, sz: 15, side: b'B' };
    let t2 = TestTrade { time_ns: 200, px: 81205, sz: 20, side: b'S' };

    put(&mut producer, &mut ring, t1);
    put(&mut producer, &mut ring, t2);

    assert_eq!(consumer.try_recv(&mut ring), Some(t1));
    assert_eq!(consumer.try_recv(&mut ring), Some(t2));
    assert_eq!(consumer.try_recv(&mut ring), None);
}

#[test]
fn test_ring_buffer_batch_recv() {
    let (mut producer, mut ring) = ring_of(1024);
    let mut consumer = RingConsumer::<u64>::attach(&mut ring, ME, &LIVE).unwrap();

    let items: Vec<u64> = (1..=50).collect();
    assert_eq!(producer.push_batch(&mut ring, &items).0, 50);

    let mut buf = [0u64; 32];
    let n1 = consumer.recv_batch(&mut ring, &mut buf);
    assert_eq!(n1, 32);
    assert_eq!(&buf[..], &(1..=32).collect::<Vec<u64>>()[..]);

    let n2 = consumer.recv_batch(&mut ring, &mut buf);
    assert_eq!(n2, 18);
    assert_eq!(&buf[..18], &(33..=50).collect::<Vec<u64>>()[..]);

    assert_eq!(consumer.recv_batch(&mut ring, &mut buf), 0);
}

#[test]
fn lapped_consumer_continues_at_the_oldest_retained() {
    let (mut producer, mut ring) = ring_of(64);
    let mut consumer = RingConsumer::<u64>::attach(&mut ring, ME, &LIVE).unwrap();
    for i in 1..=150 {
        put(&mut producer, &mut ring, i);
    }
    assert_eq!(consumer.recv_status(&mut ring), RecvStatus::Lapped { skipped: 86, item: 87 });
    assert_eq!(consumer.lapped_count(), 86);
    for expected in 88..=150 {
        assert_eq!(consumer.recv_status(&mut ring), RecvStatus::Item(expected));
    }
    assert_eq!(consumer.recv_status(&mut ring), RecvStatus::Empty);
}

#[test]
fn test_wait_strategy_yield_and_futex() {
    let (mut producer, mut ring) = ring_of(1024);
    let mut consumer = RingConsumer::<u64>::attach(&mut ring, ME, &LIVE).unwrap();
    let mut wait = FutexWait::default();
    assert!(consumer.recv_blocking(&mut ring, &mut wait).is_err());
    let val = 424242u64;
    put(&mut producer, &mut ring, val);
    let res = consumer.recv_blocking(&mut ring, &mut wait).unwrap();
    assert_eq!(res, val);
}

#[test]
fn test_spmc_broadcast_to_multiple_consumers() {
    let capacity = 4096;
    let (mut producer, mut ring) = RingProducer::<TradeMsg>::create(capacity).unwrap();

    let num_consumers = 4;
    let msg_count = 2000;
    let mut consumers: Vec<_> = (0..num_consumers)
        .map(|_| RingConsumer::<TradeMsg>::attach(&mut ring, ME, &LIVE).unwrap())
        .collect();

    for i in 1..=msg_count {
        let msg = TradeMsg {
            id: i,
            price: i * 100,
            qty: 10,
            side: if i % 2 == 0 { b'B' } else { b'S' },
        };
        put(&mut producer, &mut ring, msg);
    }

    for (cid, consumer) in consumers.iter_mut().enumerate() {
        let mut received = 0;
        let mut last_id = 0;
        while let Some(msg) = consumer.try_recv(&mut ring) {
            assert_eq!(msg.id, last_id + 1, "Consumer {} sequence discontinuity", cid);
            assert_eq!(msg.price, (last_id + 1) * 100);
            last_id = msg.id;
            received += 1;
        }
        assert_eq!(received, msg_count);
    }
}

#[test]
fn test_consumer_start_mode_latest_and_head() {
    let (mut producer, mut ring) = ring_of(1024);
    // Publish 10 items
    for i in 1..=10 {
        put(&mut producer, &mut ring, i);
    }

    // 1. Latest mode: jumps directly to the latest published item (10), then reads subsequent items
    let mut cons_latest = RingConsumer::<u64>::attach_latest(&mut ring, ME, &LIVE).unwrap();
    assert_eq!(cons_latest.try_recv(&mut ring), Some(10));
    assert_eq!(cons_latest.try_recv(&mut ring), None);

    // 2. Head mode: strictly waits for future items (arriving after attach)
    let mut cons_head = RingConsumer::<u64>::builder()
        .start_from_head()
        .attach(&mut ring, None, ME, &LIVE)
        .unwrap();
    assert_eq!(cons_head.try_recv(&mut ring), None);

    // Push new items 11 and 12
    put(&mut producer, &mut ring, 11);
    put(&mut producer, &mut ring, 12);

    assert_eq!(cons_latest.try_recv(&mut ring), Some(11));
    assert_eq!(cons_latest.try_recv(&mut ring), Some(12));

    assert_eq!(cons_head.try_recv(&mut ring), Some(11));
    assert_eq!(cons_head.try_recv(&mut ring), Some(12));
}

#[test]
fn test_consumer_start_mode_oldest() {
    let (mut producer, mut ring) = ring_of(1024);
    for i in 1..=10 {
        put(&mut producer, &mut ring, i);
    }

    // Oldest mode (default for attach) replays from item 1
    let mut cons = RingConsumer::<u64>::attach(&mut ring, ME, &LIVE).unwrap();
    for i in 1..=10 {
        assert_eq!(cons.try_recv(&mut ring), Some(i));
    }
    assert_eq!(cons.try_recv(&mut ring), None);
}

#[test]
fn test_shm_offset_checkpoint_crash_and_resume() {
    let offset_path = "/dev/shm/test_spmc_resume_offset.offset";
    let (mut producer, mut ring) = ring_of(1024);
    for i in 1..=50 {
        put(&mut producer, &mut ring, i);
    }

    // Consumer 1: processes items 1..=25 and commits its offset
    let cp = OffsetCheckpoint::open_or_create(&[], offset_path, "worker_a", ME, 1).unwrap();
    let mut cons1 = RingConsumer::<u64>::builder()
        .offset_shm(offset_path)
        .consumer_name("worker_a")
        .start_from_oldest()
        .attach(&mut ring, Some(cp), ME, &LIVE)
        .unwrap();

    for i in 1..=25 {
        assert_eq!(cons1.try_recv(&mut ring), Some(i));
    }
    assert_eq!(cons1.last_processed_sequence(), 25);
    cons1.commit_offset(&mut ring, 2).unwrap();
    let saved = cons1.checkpoint().unwrap().slot.encode();
    drop(cons1);

    // Consumer 2: starts with same offset file. Must resume strictly from 26!
    let cp = OffsetCheckpoint::open_or_create(&saved, offset_path, "worker_a", ME, 3).unwrap();
    let mut cons2 = RingConsumer::<u64>::builder()
        .offset_shm(offset_path)
        .consumer_name("worker_a")
        .attach(&mut ring, Some(cp), ME, &LIVE)
        .unwrap();

    for i in 26..=50 {
        assert_eq!(cons2.try_recv(&mut ring), Some(i), "Discontinuity during resume at {}", i);
    }
    assert_eq!(cons2.try_recv(&mut ring), None);
    assert_eq!(cons2.last_processed_sequence(), 50);
    cons2.commit_offset(&mut ring, 4).unwrap();
}

#[test]
fn test_shm_offset_lapping_recovery() {
    let offset_path = "/dev/shm/test_spmc_lap_rec_offset.offset";
    let capacity = 32;
    let (mut producer, mut ring) = ring_of(capacity);
    for i in 1..=10 {
        put(&mut producer, &mut ring, i);
    }

    // Commit offset at sequence 5
    let cp = OffsetCheckpoint::open_or_create(&[], offset_path, "slow_worker", ME, 1).unwrap();
    let mut cons1 = RingConsumer::<u64>::builder()
        .offset_shm(offset_path)
        .consumer_name("slow_worker")
        .start_from_oldest()
        .attach(&mut ring, Some(cp), ME, &LIVE)
        .unwrap();
    for i in 1..=5 {
        assert_eq!(cons1.try_recv(&mut ring), Some(i));
    }
    cons1.commit_offset(&mut ring, 2).unwrap();
    let saved = cons1.checkpoint().unwrap().slot.encode();
    drop(cons1);

    // Producer laps consumer by writing up to 100 in capacity 32 buffer
    for i in 11..=100 {
        put(&mut producer, &mut ring, i);
    }

    // Surviving range in buffer is: 100 - 32 + 1 = 69..=100.
    let cp = OffsetCheckpoint::open_or_create(&saved, offset_path, "slow_worker", ME, 3).unwrap();
    let mut cons2 = RingConsumer::<u64>::builder()
        .offset_shm(offset_path)
        .consumer_name("slow_worker")
        .attach(&mut ring, Some(cp), ME, &LIVE)
        .unwrap();

    assert_eq!(cons2.lapped_count(), 69 - 6); // 63 messages skipped
    assert_eq!(cons2.try_recv(&mut ring), Some(69));
    for i in 70..=100 {
        assert_eq!(cons2.try_recv(&mut ring), Some(i));
    }
    assert_eq!(cons2.try_recv(&mut ring), None);
}

#[test]
fn test_schema_signature_mismatch_detection() {
    let (_producer, mut ring) = RingProducer::<OrderBookHeader>::create(64).unwrap();

    // Consumer with identical schema should attach successfully
    let valid_consumer = RingConsumer::<OrderBookHeader>::attach(&mut ring, ME, &LIVE);
    assert!(valid_consumer.is_ok());

    // Consumer with altered schema struct must be rejected
    let mut foreign = Ring::<IncompatibleHeader> {
        header: ring.header,
        len: ring.len,
        registry: None,
        slots: Vec::new(),
    };
    let invalid_consumer = RingConsumer::<IncompatibleHeader>::attach(&mut foreign, ME, &LIVE);
    match invalid_consumer {
        Err(RingfireError::SchemaMismatch { expected, actual, name }) => {
            assert_eq!(expected, OrderBookHeader::layout_signature());
            assert_eq!(actual, IncompatibleHeader::layout_signature());
            assert!(name.contains("IncompatibleHeader"));
        }
        other => panic!("Expected SchemaMismatch, got {:?}", other),
    }
}

#[test]
fn r4_push_batch_respects_backpressure() {
    let (mut producer, mut ring) = RingProducerBuilder::new(8)
        .flow_control(FlowControl::LosslessBackpressure)
        .build::<u64>()
        .unwrap();
    let mut consumer = RingConsumerBuilder::<u64>::new()
        .start_from_head()
        .attach(&mut ring, None, ME, &LIVE)
        .unwrap();
    let items: Vec<u64> = (1..=1000).collect();
    let mut got = Vec::new();
    for chunk in items.chunks(37) {
        let mut rest = chunk;
        while !rest.is_empty() {
            let (n, _wake) = producer.push_batch(&mut ring, rest);
            rest = &rest[n..];
            while let Some(v) = consumer.try_recv(&mut ring) {
                got.push(v);
            }
        }
    }
    assert_eq!(consumer.lapped_count(), 0);
    assert_eq!(got, items);
}

#[test]
fn r12_lossless_registry_full_is_an_error() {
    let (_producer, mut ring) = RingProducerBuilder::new(16)
        .flow_control(FlowControl::LosslessBackpressure)
        .max_readers(1)
        .build::<u64>()
        .unwrap();
    let _first = RingConsumer::<u64>::attach(&mut ring, ME, &LIVE).unwrap();
    assert!(matches!(
        RingConsumer::<u64>::attach(&mut ring, ME, &LIVE),
        Err(RingfireError::NoAvailableReaderSlots)
    ));
}

#[test]
fn r13_attach_validates_layout() {
    let (_producer, mut ring) = RingProducerBuilder::new(1024)
        .cleanup_mode(CleanupMode::Persistent)
        .build::<u64>()
        .unwrap();
    let full = ring.len;
    ring.len = full / 2;
    assert!(matches!(
        RingConsumer::<u64>::attach(&mut ring, ME, &LIVE),
        Err(RingfireError::CorruptLayout(_))
    ));

    ring.len = 16;
    assert!(matches!(
        RingConsumer::<u64>::attach(&mut ring, ME, &LIVE),
        Err(RingfireError::CorruptLayout(_))
    ));
}

#[test]
fn r14_sequence_zero_is_not_lapped() {
    let (mut producer, mut ring) = ring_of(16);
    put(&mut producer, &mut ring, 9);
    let mut consumer = RingConsumerBuilder::<u64>::new()
        .start_from_sequence(0)
        .attach(&mut ring, None, ME, &LIVE)
        .unwrap();
    assert_eq!(consumer.try_recv(&mut ring), Some(9));
    assert_eq!(consumer.lapped_count(), 0);
}

fn push_recv_ns(
    mut producer: RingProducer<u64>,
    mut ring: Ring<u64>,
    mut consumer: RingConsumer<u64>,
) -> f64 {
    let n = 200_000u64;
    let start = Instant::now();
    for i in 0..n {
        put(&mut producer, &mut ring, i);
        assert_eq!(consumer.try_recv(&mut ring), Some(i));
    }
    start.elapsed().as_nanos() as f64 / n as f64
}

#[test]
fn r8_lossless_push_cost() {
    let from_head = || RingConsumerBuilder::<u64>::new().start_from_head();
    let (p, mut ring) = ring_of(1 << 16);
    let c = from_head().attach(&mut ring, None, ME, &LIVE).unwrap();
    let lossy = push_recv_ns(p, ring, c);
    let (p, mut ring) = RingProducerBuilder::new(1 << 16)
        .flow_control(FlowControl::LosslessBackpressure)
        .build::<u64>()
        .unwrap();
    let c = from_head().attach(&mut ring, None, ME, &LIVE).unwrap();
    let lossless = push_recv_ns(p, ring, c);
    assert!(lossless < lossy * 3.0 + 20.0, "lossless {:.0} ns vs lossy {:.0} ns", lossless, lossy);
}

#[test]
fn capacity_is_a_power_of_two() {
    assert!(matches!(
        RingProducer::<u64>::create(100),
        Err(RingfireError::InvalidCapacity(100))
    ));
    assert!(matches!(RingProducer::<u64>::create(0), Err(RingfireError::InvalidCapacity(0))));
}

#[test]
fn lossless_producer_never_overwrites_an_unread_message() {
    let (mut producer, mut ring) = RingProducerBuilder::new(4)
        .flow_control(FlowControl::LosslessBackpressure)
        .build::<u64>()
        .unwrap();
    let mut consumer = RingConsumer::<u64>::attach(&mut ring, ME, &LIVE).unwrap();
    let mut published = 0;
    while matches!(producer.push(&mut ring, published + 1), PushOutcome::Published { .. }) {
        published += 1;
        assert!(published < 100);
    }
    assert!(matches!(
        producer.try_push(&mut ring, 77, &LIVE),
        Err(RingfireError::BackpressureBufferFull)
    ));
    for i in 1..=published {
        assert_eq!(consumer.try_recv(&mut ring), Some(i));
    }
    assert!(producer.try_push(&mut ring, 77, &LIVE).is_ok());
    assert_eq!(consumer.try_recv(&mut ring), Some(77));
    assert_eq!(consumer.lapped_count(), 0);
}

#[test]
fn dead_readers_do_not_block_the_producer() {
    let (mut producer, mut ring) = RingProducerBuilder::new(4)
        .flow_control(FlowControl::LosslessBackpressure)
        .build::<u64>()
        .unwrap();
    let _dead = RingConsumer::<u64>::attach(&mut ring, 99, &[99]).unwrap();
    let mut refused = 0;
    for i in 0..20 {
        while producer.try_push(&mut ring, i, &LIVE).is_err() {
            refused += 1;
        }
    }
    // Every 1024th refusal clears the slots of dead readers.
    assert_eq!(refused, 1023);
    assert_eq!(producer.sequence(), 20);
    assert_eq!(producer.next_sequence(), 21);
    assert_eq!(producer.published_sequence(&ring), 20);
}

#[test]
fn seek_and_jumps_move_forward() {
    let (mut producer, mut ring) = ring_of(16);
    for i in 1..=10 {
        put(&mut producer, &mut ring, i);
    }
    let mut consumer = RingConsumer::<u64>::attach(&mut ring, ME, &LIVE).unwrap();
    assert_eq!(consumer.lag(&ring), 10);
    consumer.seek(&mut ring, 5);
    assert_eq!(consumer.try_recv(&mut ring), Some(5));
    consumer.jump_to_latest(&mut ring);
    assert_eq!(consumer.try_recv(&mut ring), Some(10));
    assert_eq!(consumer.cursor(), 11);
    assert_eq!(consumer.capacity(), 16);
    assert_eq!(consumer.jump_to_oldest(&mut ring), 0);
}

#[test]
fn offset_needs_a_file() {
    let (_producer, mut ring) = ring_of(16);
    let mut consumer = RingConsumer::<u64>::attach(&mut ring, ME, &LIVE).unwrap();
    assert!(matches!(
        consumer.commit_offset(&mut ring, 1),
        Err(RingfireError::NoOffsetFileConfigured)
    ));
    assert!(consumer.checkpoint().is_none());
    assert!(consumer.offset_path().is_none());
}

#[test]
fn start_from_sequence_beyond_the_window_counts_what_is_lost() {
    let (mut producer, mut ring) = ring_of(8);
    for i in 1..=20 {
        put(&mut producer, &mut ring, i);
    }
    let mut consumer = RingConsumer::<u64>::builder()
        .start_mode(ConsumerStartMode::Sequence(3))
        .attach(&mut ring, None, ME, &LIVE)
        .unwrap();
    assert_eq!(consumer.lapped_count(), 10);
    assert_eq!(consumer.try_recv(&mut ring), Some(13));
}

#[test]
fn blocked_producer_spins_before_it_yields() {
    assert_eq!(headroom_pause(0).0, HeadroomPause::Spin);
    let (pause, next) = headroom_pause(u32::MAX);
    assert!(pause != HeadroomPause::Spin);
    assert!(next <= u32::MAX);
}

#[test]
fn reader_lag_counts_unread_messages() {
    let (mut p, mut ring) =
        RingProducerBuilder::new(8).max_readers(1).build::<u64>().unwrap();
    let mut c = RingConsumerBuilder::<u64>::new()
        .start_from_head()
        .attach(&mut ring, None, ME, &LIVE)
        .unwrap();
    assert_eq!(c.cursor(), 1);
    assert_eq!(p.reader_lag(&mut ring, &LIVE), 0);
    put(&mut p, &mut ring, 7);
    assert_eq!(p.reader_lag(&mut ring, &LIVE), 1);
    assert_eq!(c.lag(&ring), 1);
    put(&mut p, &mut ring, 8);
    assert_eq!(p.reader_lag(&mut ring, &LIVE), 2);
    assert_eq!(c.try_recv(&mut ring), Some(7));
    assert_eq!(c.try_recv(&mut ring), Some(8));
    assert_eq!(p.reader_lag(&mut ring, &LIVE), 0);
}

#[test]
fn a_full_lossless_ring_refuses_until_the_reader_moves() {
    let (mut p, mut ring) = RingProducerBuilder::new(4)
        .flow_control(FlowControl::LosslessBackpressure)
        .build::<u64>()
        .unwrap();
    let mut c = RingConsumerBuilder::<u64>::new()
        .start_from_head()
        .attach(&mut ring, None, ME, &LIVE)
        .unwrap();
    for i in 1..=4 {
        assert!(p.try_push(&mut ring, i, &LIVE).is_ok());
    }
    assert!(matches!(
        p.try_push(&mut ring, 5, &LIVE),
        Err(RingfireError::BackpressureBufferFull)
    ));
    assert_eq!(p.sequence(), 4);
    assert_eq!(p.push_batch(&mut ring, &[5, 6]).0, 0);
    assert_eq!(c.try_recv(&mut ring), Some(1));
    assert!(p.try_push(&mut ring, 5, &LIVE).is_ok());
    assert_eq!(p.sequence(), 5);
    assert_eq!(c.try_recv(&mut ring), Some(2));
    assert_eq!(c.try_recv(&mut ring), Some(3));
    assert_eq!(p.push_batch(&mut ring, &[6, 7, 8, 9]).0, 2);
    for i in 4..=7 {
        assert_eq!(c.try_recv(&mut ring), Some(i));
    }
    assert_eq!(c.lapped_count(), 0);
}

#[test]
fn headroom_is_what_the_reader_leaves() {
    let (mut p, mut ring) =
        RingProducerBuilder::new(8).max_readers(1).build::<u64>().unwrap();
    assert_eq!(p.headroom(&mut ring, &LIVE), 8);
    let mut c = RingConsumerBuilder::<u64>::new()
        .start_from_head()
        .attach(&mut ring, None, ME, &LIVE)
        .unwrap();
    assert_eq!(p.headroom(&mut ring, &LIVE), 8);
    put(&mut p, &mut ring, 7);
    assert_eq!(p.headroom(&mut ring, &LIVE), 7);
    for i in 0..7 {
        put(&mut p, &mut ring, i);
    }
    assert_eq!(p.headroom(&mut ring, &LIVE), 0);
    assert_eq!(p.reader_lag(&mut ring, &LIVE), 8);
    assert_eq!(c.try_recv(&mut ring), Some(7));
    assert_eq!(p.headroom(&mut ring, &LIVE), 1);
    assert_eq!(c.lapped_count(), 0);
}
