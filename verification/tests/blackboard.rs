use ringfire::blackboard::{begin_write, open_board, BoardAsk, BoardEvent, BoardRead};
use ringfire::{BlackboardConsumer, BlackboardHeader, BlackboardProducer, RingfireError};

#[derive(Debug, Clone, Copy, PartialEq, Eq)]
struct BboSnapshot {
    bid_px: u64,
    ask_px: u64,
    bid_sz: u64,
    ask_sz: u64,
}

#[test]
fn test_blackboard_read_write() {
    let (mut producer, mut board) = BlackboardProducer::<BboSnapshot>::create(256).unwrap();
    let consumer = BlackboardConsumer::<BboSnapshot>::attach(&board).unwrap();

    assert_eq!(consumer.read(&board, 0).unwrap(), None);

    let bbo_btc = BboSnapshot { bid_px: 82100_00, ask_px: 82100_50, bid_sz: 500, ask_sz: 300 };

    producer.write(&mut board, 1, bbo_btc).unwrap();

    let read_val = consumer.read(&board, 1).unwrap().unwrap();
    assert_eq!(read_val, bbo_btc);
}

#[test]
fn r11_blackboard_stalled_writer() {
    let (mut producer, mut board) = BlackboardProducer::<u64>::create(4).unwrap();
    producer.write(&mut board, 0, 5).unwrap();
    let consumer = BlackboardConsumer::<u64>::attach(&board).unwrap();
    // Simulate a writer that crashed after marking slot 0 odd.
    board.slots[0].seqlock = 3;
    let res = consumer.read(&board, 0).map_err(|e| e.message());
    assert!(res.unwrap_err().contains("mid-write"));
    // The next write takes the slot back.
    producer.write(&mut board, 0, 6).unwrap();
    assert_eq!(consumer.read(&board, 0).unwrap(), Some(6));
}

#[test]
fn keys_are_range_checked() {
    let (mut producer, mut board) = BlackboardProducer::<u64>::create(2).unwrap();
    let consumer = BlackboardConsumer::<u64>::attach(&board).unwrap();
    assert!(matches!(
        producer.write(&mut board, 2, 1),
        Err(RingfireError::KeyOutOfRange { key: 2, capacity: 2 })
    ));
    assert!(matches!(
        consumer.read(&board, 9),
        Err(RingfireError::KeyOutOfRange { key: 9, capacity: 2 })
    ));
    assert_eq!(producer.slot_count(), 2);
    assert_eq!(consumer.slot_count(), 2);
}

#[test]
fn a_write_touches_one_key() {
    let (mut producer, mut board) = BlackboardProducer::<u64>::create(3).unwrap();
    let consumer = BlackboardConsumer::<u64>::attach(&board).unwrap();
    for k in 0..3 {
        producer.write(&mut board, k, k as u64).unwrap();
    }
    producer.write(&mut board, 1, 77).unwrap();
    let mut out = 0;
    assert!(consumer.read_copy(&board, 0, &mut out).unwrap());
    assert_eq!(out, 0);
    assert!(consumer.read_copy(&board, 1, &mut out).unwrap());
    assert_eq!(out, 77);
    assert!(consumer.read_copy(&board, 2, &mut out).unwrap());
    assert_eq!(out, 2);
}

#[test]
fn seqlock_goes_odd_then_even() {
    assert_eq!(begin_write(0), 1);
    assert_eq!(begin_write(2), 3);
    assert_eq!(begin_write(3), 5);
}

#[test]
fn foreign_tables_are_refused() {
    let (_producer, board) = BlackboardProducer::<u64>::create(4).unwrap();
    let mut region = board.header.encode();
    region.resize(board.len, 0);
    let header = open_board(&region, 8, 64).unwrap();
    assert_eq!(header.slot_count, 4);
    assert!(matches!(
        open_board(&region, 16, 64),
        Err(RingfireError::ValueSizeMismatch { expected: 8, actual: 16 })
    ));
    assert!(matches!(open_board(&region, 8, 128), Err(RingfireError::CorruptLayout(_))));
    assert!(matches!(open_board(&region[..200], 8, 64), Err(RingfireError::CorruptLayout(_))));
    assert!(matches!(open_board(&region[..20], 8, 64), Err(RingfireError::CorruptLayout(_))));
    region[8] = 77;
    assert!(matches!(open_board(&region, 8, 64), Err(RingfireError::VersionMismatch { .. })));
    region[0] = 0;
    assert!(matches!(open_board(&region, 8, 64), Err(RingfireError::InvalidMagic { .. })));
    assert_eq!(BlackboardHeader::decode(&board.header.encode()).value_size, 8);
}

#[test]
fn reader_gives_up_on_a_stalled_writer_after_100_ms() {
    let mut read = BoardRead::new();
    let mut spins = 0;
    loop {
        match read.step(BoardEvent::Lock(3)) {
            BoardAsk::Spin => spins += 1,
            BoardAsk::ReadClock => break,
            other => panic!("{:?}", other),
        }
    }
    assert_eq!(spins, 9_999);
    assert_eq!(read.step(BoardEvent::Clock { now_ns: 1_000 }), BoardAsk::Yield);
    assert_eq!(read.step(BoardEvent::Clock { now_ns: 100_001_000 }), BoardAsk::Yield);
    assert_eq!(read.step(BoardEvent::Clock { now_ns: 100_001_001 }), BoardAsk::Stalled);
}

#[test]
fn reader_copies_again_when_the_writer_raced_it() {
    let mut read = BoardRead::new();
    assert_eq!(read.step(BoardEvent::Lock(4)), BoardAsk::Copy { lock: 4 });
    assert_eq!(read.step(BoardEvent::Copied { lock: 4, again: 6 }), BoardAsk::Spin);
    assert_eq!(read.step(BoardEvent::Lock(6)), BoardAsk::Copy { lock: 6 });
    assert_eq!(read.step(BoardEvent::Copied { lock: 6, again: 6 }), BoardAsk::Value);
    assert_eq!(read.step(BoardEvent::Lock(0)), BoardAsk::Unwritten);
}

#[test]
fn reads_give_the_last_write_from_the_start() {
    let (mut producer, mut board) = BlackboardProducer::<u64>::create(3).unwrap();
    let consumer = BlackboardConsumer::attach(&board).unwrap();
    for key in 0..3 {
        assert_eq!(consumer.read(&board, key).unwrap(), None);
        assert_eq!(board.slots[key].seqlock, 0);
    }
    for (key, value) in [(0, 10), (2, 20), (0, 11)] {
        producer.write(&mut board, key, value).unwrap();
    }
    assert_eq!(consumer.read(&board, 0).unwrap(), Some(11));
    assert_eq!(consumer.read(&board, 1).unwrap(), None);
    assert_eq!(consumer.read(&board, 2).unwrap(), Some(20));
}
