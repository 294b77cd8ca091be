use ringfire::spmc::PushOutcome;
use ringfire::wait::{announce_sleep, end_sleep, nothing_new, wake_futex, WaitAction};
use ringfire::{
    BusySpin, FutexWait, MpmcProducer, MpmcQueueConsumer, RingConsumer, RingHeader, RingProducer,
    WaitStrategy, YieldBackoff,
};

#[test]
fn busy_spin_always_spins() {
    let (_p, ring) = RingProducer::<u64>::create(8).unwrap();
    let mut w = BusySpin::default();
    for _ in 0..100 {
        assert_eq!(w.wait(&ring.header, 1), WaitAction::Spin);
    }
    w.reset();
}

#[test]
fn yield_backoff_spins_then_yields() {
    let (_p, ring) = RingProducer::<u64>::create(8).unwrap();
    let mut w = YieldBackoff::new(2);
    assert_eq!(w.wait(&ring.header, 1), WaitAction::Spin);
    assert_eq!(w.wait(&ring.header, 1), WaitAction::Spin);
    assert_eq!(w.wait(&ring.header, 1), WaitAction::Yield);
    w.reset();
    assert_eq!(w.wait(&ring.header, 1), WaitAction::Spin);
    assert_eq!(YieldBackoff::default().max_spins, 64);
}

#[test]
fn futex_wait_sleeps_only_without_news() {
    let (mut p, mut ring) = RingProducer::<u64>::create(8).unwrap();
    let mut w = FutexWait::new(0, None);
    ring.header.futex_word = 9;
    assert_eq!(
        w.wait(&ring.header, 1),
        WaitAction::Sleep { expected: 9, timeout_ns: 10_000_000 }
    );
    assert!(matches!(p.push(&mut ring, 1), PushOutcome::Published { wake: None }));
    assert_eq!(w.wait(&ring.header, 1), WaitAction::Retry);
    assert_eq!(FutexWait::default().timeout_ns, Some(50_000_000));
}

#[test]
fn a_publish_after_the_announcement_wakes_the_sleeper() {
    let (mut p, mut ring) = RingProducer::<u64>::create(8).unwrap();
    let expected = ring.header.futex_word;
    announce_sleep(&mut ring.header);
    assert!(nothing_new(&ring.header, 1));
    let outcome = p.push(&mut ring, 5);
    assert_eq!(outcome, PushOutcome::Published { wake: Some(i32::MAX) });
    assert_ne!(ring.header.futex_word, expected);
    assert!(!nothing_new(&ring.header, 1));
    end_sleep(&mut ring.header);
    assert_eq!(ring.header.waiting_consumers, 0);
    assert_eq!(wake_futex(&mut ring.header, 1), None);
}

/// Yields, and remembers what it was asked.
struct Recorder {
    asked: Vec<(u64, u64)>,
    resets: u32,
}

impl WaitStrategy for Recorder {
    fn wait(&mut self, header: &RingHeader, cursor: u64) -> WaitAction {
        self.asked.push((header.write_seq, cursor));
        WaitAction::Yield
    }

    fn reset(&mut self) {
        self.resets += 1;
    }
}

#[test]
fn a_blocking_receive_waits_as_its_strategy_says() {
    let (mut producer, mut ring) = RingProducer::<u64>::create(8).unwrap();
    let mut consumer = RingConsumer::<u64>::attach(&mut ring, 1, &[1]).unwrap();
    let mut wait = Recorder { asked: Vec::new(), resets: 0 };
    assert_eq!(consumer.recv_blocking(&mut ring, &mut wait), Err(WaitAction::Yield));
    assert!(matches!(producer.push(&mut ring, 5), PushOutcome::Published { .. }));
    assert_eq!(consumer.recv_blocking(&mut ring, &mut wait), Ok(5));
    assert_eq!(consumer.recv_blocking(&mut ring, &mut wait), Err(WaitAction::Yield));
    assert_eq!(wait.asked, vec![(0, 1), (1, 2)]);
    assert_eq!(wait.resets, 1);

    let (producer, mut ring) = MpmcProducer::<u64>::create(8).unwrap();
    let mut worker = MpmcQueueConsumer::<u64>::attach(&ring).unwrap();
    let mut wait = Recorder { asked: Vec::new(), resets: 0 };
    assert_eq!(worker.recv_blocking(&mut ring, &mut wait), Err(WaitAction::Yield));
    producer.push(&mut ring, 6);
    assert_eq!(worker.recv_blocking(&mut ring, &mut wait), Ok(6));
    assert_eq!(wait.asked, vec![(0, 1)]);
    assert_eq!(wait.resets, 1);
}

#[test]
fn other_sleepers_do_not_cost_a_wake_up() {
    let (mut p, mut ring) = RingProducer::<u64>::create(8).unwrap();
    let mut w = FutexWait::new(0, None);
    let expected = match w.wait(&ring.header, 1) {
        WaitAction::Sleep { expected, .. } => expected,
        other => panic!("{:?}", other),
    };
    announce_sleep(&mut ring.header);
    announce_sleep(&mut ring.header);
    end_sleep(&mut ring.header);
    assert!(nothing_new(&ring.header, 1));
    let outcome = p.push(&mut ring, 5);
    assert_eq!(outcome, PushOutcome::Published { wake: Some(i32::MAX) });
    assert_ne!(ring.header.futex_word, expected);
}
