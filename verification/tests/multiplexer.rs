use ringfire::async_ring::IdlePause;
use ringfire::multiplexer::PollRound;
use ringfire::spmc::PushOutcome;
use ringfire::{
    AsyncRingConsumer, AsyncRingMultiplexer, LayoutSignature, Ring, RingMultiplexer, RingProducer,
};

const ME: u32 = 4711;
const LIVE: [u32; 1] = [ME];

#[derive(Debug, Clone, Copy, PartialEq, Eq)]
struct OrderEvent {
    order_id: u64,
    symbol_id: u32,
    price: u64,
}

impl LayoutSignature for OrderEvent {
    const FULL_NAME: &'static str = "multiplexer::OrderEvent";
}

fn put<T: Copy>(p: &mut RingProducer<T>, ring: &mut Ring<T>, item: T) {
    assert!(matches!(p.push(ring, item), PushOutcome::Published { .. }));
}

#[test]
fn test_multiplexer_round_robin_fairness() {
    let (mut prod_btc, ring_btc) = RingProducer::<OrderEvent>::create(64).unwrap();
    let (mut prod_eth, ring_eth) = RingProducer::<OrderEvent>::create(64).unwrap();
    let (mut prod_sol, ring_sol) = RingProducer::<OrderEvent>::create(64).unwrap();
    let mut rings = vec![ring_btc, ring_eth, ring_sol];

    let mut mux = RingMultiplexer::<OrderEvent>::new();
    let idx_btc = mux.attach_named("BTC".to_string(), &mut rings[0], ME, &LIVE).unwrap();
    let idx_eth = mux.attach_named("ETH".to_string(), &mut rings[1], ME, &LIVE).unwrap();
    let idx_sol = mux.attach_named("SOL".to_string(), &mut rings[2], ME, &LIVE).unwrap();

    assert_eq!(mux.len(), 3);
    assert_eq!(mux.channel_name(idx_btc), Some("BTC"));
    assert_eq!(mux.channel_name(idx_eth), Some("ETH"));
    assert_eq!(mux.channel_name(idx_sol), Some("SOL"));

    // Push items into each ring
    put(&mut prod_btc, &mut rings[0], OrderEvent { order_id: 1, symbol_id: 1, price: 65000 });
    put(&mut prod_btc, &mut rings[0], OrderEvent { order_id: 2, symbol_id: 1, price: 65010 });

    put(&mut prod_eth, &mut rings[1], OrderEvent { order_id: 10, symbol_id: 2, price: 3500 });
    put(&mut prod_eth, &mut rings[1], OrderEvent { order_id: 20, symbol_id: 2, price: 3510 });

    put(&mut prod_sol, &mut rings[2], OrderEvent { order_id: 100, symbol_id: 3, price: 150 });

    // Round-robin polling must alternate fairly across channels
    let (ch1, msg1) = mux.try_recv_any(&mut rings).unwrap();
    assert_eq!(ch1, idx_btc);
    assert_eq!(msg1.order_id, 1);

    let (ch2, msg2) = mux.try_recv_any(&mut rings).unwrap();
    assert_eq!(ch2, idx_eth);
    assert_eq!(msg2.order_id, 10);

    let (ch3, msg3) = mux.try_recv_any(&mut rings).unwrap();
    assert_eq!(ch3, idx_sol);
    assert_eq!(msg3.order_id, 100);

    // Loops back to BTC
    let (ch4, msg4) = mux.try_recv_any(&mut rings).unwrap();
    assert_eq!(ch4, idx_btc);
    assert_eq!(msg4.order_id, 2);

    // Then ETH
    let (ch5, msg5) = mux.try_recv_any(&mut rings).unwrap();
    assert_eq!(ch5, idx_eth);
    assert_eq!(msg5.order_id, 20);

    // All drained
    assert_eq!(mux.try_recv_any(&mut rings), None);

    // Test batch drain across multiple channels
    put(&mut prod_btc, &mut rings[0], OrderEvent { order_id: 3, symbol_id: 1, price: 65020 });
    put(&mut prod_sol, &mut rings[2], OrderEvent { order_id: 101, symbol_id: 3, price: 151 });
    let batch = mux.recv_batch_any(&mut rings, 10);
    assert_eq!(batch.len(), 2);
}

#[test]
fn test_multiplexer_priority_ordering() {
    let (mut prod_high, ring_high) = RingProducer::<u64>::create(64).unwrap();
    let (mut prod_low, ring_low) = RingProducer::<u64>::create(64).unwrap();
    let mut rings = vec![ring_high, ring_low];

    let mut mux = RingMultiplexer::<u64>::new();
    let idx_high = mux.attach_named("HIGH_PRIO".to_string(), &mut rings[0], ME, &LIVE).unwrap();
    let idx_low = mux.attach_named("LOW_PRIO".to_string(), &mut rings[1], ME, &LIVE).unwrap();

    // Push to both channels
    for i in 1..=5 {
        put(&mut prod_low, &mut rings[1], i);
    }
    for i in 101..=103 {
        put(&mut prod_high, &mut rings[0], i);
    }

    // Priority polling should completely drain high-priority channel before low
    for expected in 101..=103 {
        let (ch, msg) = mux.try_recv_priority(&mut rings).unwrap();
        assert_eq!(ch, idx_high);
        assert_eq!(msg, expected);
    }

    // Once high is empty, low is serviced
    let (ch, msg) = mux.try_recv_priority(&mut rings).unwrap();
    assert_eq!(ch, idx_low);
    assert_eq!(msg, 1);
}

#[test]
fn async_multiplexer_hands_out_everything() {
    let (mut prod1, ring1) = RingProducer::<u64>::create(1024).unwrap();
    let (mut prod2, ring2) = RingProducer::<u64>::create(1024).unwrap();
    let mut rings = vec![ring1, ring2];

    let mut mux = AsyncRingMultiplexer::<u64>::new();
    mux.attach_named("STREAM_1".to_string(), &mut rings[0], ME, &LIVE).unwrap();
    mux.attach_named("STREAM_2".to_string(), &mut rings[1], ME, &LIVE).unwrap();
    let mut idle = mux.backoff();
    assert!(mux.recv_any(&mut rings, &mut idle).is_err());
    for i in 1..=50 {
        put(&mut prod1, &mut rings[0], i);
        put(&mut prod2, &mut rings[1], i * 100);
    }

    let mut received_count = 0;
    let mut sum_ch1 = 0u64;
    let mut sum_ch2 = 0u64;
    while let Ok((ch, val)) = mux.recv_any(&mut rings, &mut idle) {
        // The channels take turns.
        assert_eq!(ch, received_count % 2);
        if ch == 0 {
            sum_ch1 += val;
        } else {
            sum_ch2 += val;
        }
        received_count += 1;
    }

    assert_eq!(received_count, 100);
    assert_eq!(sum_ch1, (1..=50).sum::<u64>());
    assert_eq!(sum_ch2, (1..=50).map(|x| x * 100).sum::<u64>());
}

#[test]
fn async_consumer_receives_in_order_and_backs_off() {
    let (mut producer, mut ring) = RingProducer::<u64>::create(1024).unwrap();
    let mut consumer = AsyncRingConsumer::<u64>::attach(&mut ring, ME, &LIVE)
        .unwrap()
        .with_spins(2)
        .with_yields(1)
        .with_idle_sleep(50_000_000);
    let mut idle = consumer.backoff();
    let mut pauses = Vec::new();
    for _ in 0..5 {
        pauses.push(consumer.recv(&mut ring, &mut idle).unwrap_err());
    }
    let sleep = IdlePause::Sleep { ns: 50_000_000 };
    assert_eq!(
        pauses,
        vec![IdlePause::Spin, IdlePause::Spin, IdlePause::Yield, sleep, IdlePause::Spin]
    );
    let mut msgs = Vec::new();
    for val in 1..=5 {
        put(&mut producer, &mut ring, val);
        msgs.push(consumer.recv(&mut ring, &mut idle).unwrap());
    }
    assert_eq!(msgs, vec![1, 2, 3, 4, 5]);
    assert_eq!(consumer.lag(&ring), 0);
    assert_eq!(consumer.cursor(), 6);
}

#[test]
fn empty_multiplexer_has_no_channels() {
    let mux = RingMultiplexer::<u64>::new();
    assert!(mux.is_empty());
    assert_eq!(mux.channel_name(0), None);
    assert!(mux.consumer(0).is_none());
}

#[test]
fn a_round_looks_at_each_channel_once() {
    let mut round = PollRound::starting_at(2, 3);
    let mut seen = Vec::new();
    while let Some(idx) = round.channel() {
        seen.push(idx);
        round.missed();
    }
    assert_eq!(seen, vec![2, 0, 1]);
    assert_eq!(PollRound::starting_at(2, 3).hit(), 0);
    assert_eq!(PollRound::starting_at(1, 3).hit(), 2);
}
