use ringfire::mpmc::{ClaimAction, ClaimEvent, SlotClaim};
use ringfire::{BusySpin, MpmcProducer, MpmcQueueConsumer, RingConsumer, RingfireError};

const ME: u32 = 4711;
const LIVE: [u32; 1] = [ME];

#[test]
fn test_mpmc_producers() {
    let (p1, mut ring) = MpmcProducer::<u64>::create(1024).unwrap();
    let p2 = MpmcProducer::<u64>::attach(&ring).unwrap();
    let mut consumer = RingConsumer::<u64>::attach(&mut ring, ME, &LIVE).unwrap();

    p1.push(&mut ring, 100);
    p2.push(&mut ring, 200);

    let v1 = consumer.try_recv(&mut ring).unwrap();
    let v2 = consumer.try_recv(&mut ring).unwrap();

    assert_eq!(v1 + v2, 300);
}

#[test]
fn r5_mpmc_queue_consumer_survives_overrun() {
    let (producer, mut ring) = MpmcProducer::<u64>::create(8).unwrap();
    let mut consumer = MpmcQueueConsumer::<u64>::attach(&ring).unwrap();
    for i in 0..20 {
        producer.push(&mut ring, i);
    }
    let mut got = Vec::new();
    while let Some(v) = consumer.try_recv(&mut ring) {
        got.push(v);
    }
    assert_eq!(got, (12..20).collect::<Vec<u64>>());
    assert_eq!(consumer.dropped_count(), 12);
}

#[test]
fn test_mpmc_competing_worker_consumers() {
    let capacity = 8192;
    let (producer, mut ring) = MpmcProducer::<u64>::create(capacity).unwrap();

    let total_tasks = 4000u64;
    let num_workers = 4;
    for task_id in 1..=total_tasks {
        producer.push(&mut ring, task_id);
    }
    let mut workers: Vec<_> =
        (0..num_workers).map(|_| MpmcQueueConsumer::<u64>::attach(&ring).unwrap()).collect();
    let mut seen = vec![0u32; total_tasks as usize + 1];
    let mut sum_work = 0;
    let mut turn = 0;
    while let Some(task) = workers[turn % num_workers].try_recv(&mut ring) {
        seen[task as usize] += 1;
        sum_work += 1;
        turn += 1;
    }
    assert_eq!(sum_work, total_tasks as usize);
    // Every task went to exactly one worker.
    assert!(seen[1..].iter().all(|&n| n == 1));
}

#[test]
fn queue_consumer_waits_when_there_is_nothing() {
    let (producer, mut ring) = MpmcProducer::<u64>::create(8).unwrap();
    let mut consumer = MpmcQueueConsumer::<u64>::attach(&ring).unwrap();
    let mut wait = BusySpin::new();
    assert!(consumer.recv_blocking(&mut ring, &mut wait).is_err());
    let (seq, _wake) = producer.push(&mut ring, 5);
    assert_eq!(seq, 1);
    assert_eq!(producer.capacity(), 8);
    assert_eq!(consumer.recv_blocking(&mut ring, &mut wait).unwrap(), 5);
}

#[test]
fn mpmc_capacity_is_a_power_of_two() {
    assert!(matches!(
        MpmcProducer::<u64>::create(12),
        Err(RingfireError::InvalidCapacity(12))
    ));
}

#[test]
fn a_marked_slot_is_never_taken_over() {
    let mut claim = SlotClaim::new(9, 8);
    let action = claim.step(ClaimEvent::Word(u64::MAX));
    assert!(!matches!(action, ClaimAction::Swap { .. }));
}
