use ringfire::raw::{raw_slot_size, read_code, BlackboardRaw, RingConsumerRaw, RingProducerRaw};
use ringfire::blackboard::BoardAsk;
use ringfire::spmc::PushOutcome;
use ringfire::{FlowControl, Ring, RingProducerBuilder, Slot};

#[test]
fn r9_ffi_consumer_on_registry_ring() {
    let (mut producer, mut ring) = RingProducerBuilder::new(16)
        .flow_control(FlowControl::LosslessBackpressure)
        .build::<u64>()
        .unwrap();
    for v in [11u64, 22, 33] {
        assert!(matches!(producer.push(&mut ring, v), PushOutcome::Published { .. }));
    }
    let raw = Ring {
        header: ring.header,
        len: ring.len,
        registry: None,
        slots: ring
            .slots
            .iter()
            .map(|s| Slot { seq: s.seq, data: s.data.map(|v| v.to_le_bytes().to_vec()) })
            .collect(),
    };
    let mut cons = RingConsumerRaw::attach(&raw, 8).unwrap();
    let mut out = Vec::new();
    for v in [11u64, 22, 33] {
        assert_eq!(cons.try_recv(&raw, &mut out), 1);
        assert_eq!(out, v.to_le_bytes());
    }
    assert_eq!(cons.try_recv(&raw, &mut out), 0);
}

#[test]
fn slot_sizes_are_multiples_of_eight() {
    assert_eq!(raw_slot_size(1), 16);
    assert_eq!(raw_slot_size(8), 16);
    assert_eq!(raw_slot_size(9), 24);
}

#[test]
fn invalid_arguments_create_nothing() {
    assert!(RingProducerRaw::create(12, 8).is_none());
    assert!(RingProducerRaw::create(16, 0).is_none());
    assert!(BlackboardRaw::create(0, 8).is_none());
    assert!(BlackboardRaw::create(8, 0).is_none());
}

#[test]
fn lapped_raw_consumer_skips_and_counts() {
    let (mut producer, mut ring) = RingProducerRaw::create(8, 1).unwrap();
    let mut cons = RingConsumerRaw::attach(&ring, 1).unwrap();
    for v in 1..=20u8 {
        producer.push(&mut ring, &[v]);
    }
    let got: Vec<u8> = cons.recv_batch(&ring, 5).iter().map(|r| r[0]).collect();
    assert_eq!(got, vec![13, 14, 15, 16, 17]);
    assert_eq!(cons.lapped_count(), 12);
    assert_eq!(cons.recv_batch(&ring, 5).len(), 3);
    assert!(cons.recv_batch(&ring, 5).is_empty());
    // Another record size is refused; one that shares the stride is not told apart.
    assert!(RingConsumerRaw::attach(&ring, 9).is_none());
    assert!(RingConsumerRaw::attach(&ring, 0).is_none());
    // A consumer that attaches late starts at the oldest retained message.
    let mut late = RingConsumerRaw::attach(&ring, 1).unwrap();
    let mut out = Vec::new();
    assert_eq!(late.try_recv(&ring, &mut out), 1);
    assert_eq!(out, vec![13]);
    assert_eq!(late.lapped_count(), 0);
}

#[test]
fn raw_tables_report_codes() {
    let (raw, mut board) = BlackboardRaw::create(2, 3).unwrap();
    assert!(raw.is_producer);
    assert_eq!(raw.slot_size, 64);
    let reader = BlackboardRaw::attach(&board.header, board.len, 3).unwrap();
    assert!(!reader.is_producer);
    assert!(BlackboardRaw::attach(&board.header, board.len, 4).is_none());
    assert!(BlackboardRaw::attach(&board.header, board.len - 1, 3).is_none());
    assert!(BlackboardRaw::attach(&board.header, 12, 3).is_none());
    let mut out = Vec::new();
    assert_eq!(reader.read(&board, 0, &mut out), 0);
    assert_eq!(raw.write(&mut board, 0, b"abc"), 0);
    assert_eq!(raw.write(&mut board, 2, b"abc"), -1);
    assert_eq!(reader.read(&board, 0, &mut out), 1);
    assert_eq!(out, b"abc");
    assert_eq!(reader.read(&board, 2, &mut out), -1);
    board.slots[0].seqlock = 3;
    assert_eq!(reader.read(&board, 0, &mut out), -2);
    assert_eq!(read_code(BoardAsk::Stalled), -2);
    assert_eq!(read_code(BoardAsk::Value), 1);
}
