use ringfire::registry::{read_name, ReaderRegistry};
use ringfire::RingfireError;

const ME: u32 = 4711;
const LIVE: [u32; 1] = [ME];

#[test]
fn test_reader_registry_lifecycle() {
    let count = 4;
    let mut registry = ReaderRegistry::init(count);

    assert_eq!(registry.min_reader_seq(&LIVE), None);

    let reg1 = registry.register("worker-1", 100, ME, &LIVE).unwrap();
    assert_eq!(registry.min_reader_seq(&LIVE), Some(100));

    let reg2 = registry.register("worker-2", 150, ME, &LIVE).unwrap();
    assert_eq!(registry.min_reader_seq(&LIVE), Some(100));

    reg1.update_cursor(&mut registry, 120);
    assert_eq!(registry.min_reader_seq(&LIVE), Some(120));

    assert_eq!(registry.reader_lag(200, &LIVE), 80);
    assert_eq!(registry.headroom(200, 1024, &LIVE), 1024 - 80);

    reg1.release(&mut registry);
    // worker-1 dropped, so min is now worker-2 at 150
    assert_eq!(registry.min_reader_seq(&LIVE), Some(150));
    reg2.release(&mut registry);
    assert_eq!(registry.min_reader_seq(&LIVE), None);
}

#[test]
fn full_registry_refuses_readers() {
    let mut registry = ReaderRegistry::init(1);
    assert_eq!(registry.capacity(), 1);
    let _reg = registry.register("a", 1, ME, &LIVE).unwrap();
    assert!(matches!(
        registry.register("b", 1, ME, &LIVE),
        Err(RingfireError::NoAvailableReaderSlots)
    ));
}

#[test]
fn slots_of_dead_processes_are_reclaimed() {
    let mut registry = ReaderRegistry::init(2);
    let _dead = registry.register("gone", 5, 99, &[99, ME]).unwrap();
    let _mine = registry.register("mine", 9, ME, &LIVE).unwrap();
    // The dead reader's slot was taken over.
    assert_eq!(registry.min_reader_seq(&LIVE), Some(9));
    let infos = registry.active_readers(12, &LIVE);
    assert_eq!(infos.len(), 1);
    assert_eq!(infos[0].name, "mine");
    assert_eq!(infos[0].lag, 3);
    assert_eq!(registry.prune_dead_readers(&[]), 1);
    assert_eq!(registry.min_cursor(), None);
}

#[test]
fn sweeping_twice_changes_nothing() {
    let mut registry = ReaderRegistry::init(3);
    let _a = registry.register("a", 7, 1, &[1, 2]).unwrap();
    let _b = registry.register("b", 3, 2, &[1, 2]).unwrap();
    assert_eq!(registry.min_reader_seq(&[1]), Some(7));
    assert_eq!(registry.min_reader_seq(&[1]), Some(7));
    assert_eq!(registry.min_cursor(), Some(7));
}

#[test]
fn names_read_back() {
    let mut registry = ReaderRegistry::init(2);
    let _a = registry.register("zażółć", 1, ME, &LIVE).unwrap();
    let long = "abcdefghijklmnopqrstuvwxyz0123456789";
    let _b = registry.register(long, 1, ME, &LIVE).unwrap();
    let infos = registry.active_readers(1, &LIVE);
    assert_eq!(infos[0].name, "zażółć");
    assert_eq!(infos[1].name, &long[..31]);
    assert_eq!(read_name(&[0xFF, b'a', 0, b'b']), "\u{FFFD}a");
}

#[test]
fn live_registrations_never_share_a_slot() {
    const OTHER: u32 = 4712;
    let both = [ME, OTHER];
    let mut registry = ReaderRegistry::init(3);
    let first = registry.register("first", 1, ME, &both).unwrap();
    let second = registry.register("second", 1, OTHER, &both).unwrap();
    assert_eq!((first.slot_index(), second.slot_index()), (0, 1));
    first.update_cursor(&mut registry, 5);
    // The other process dies, and its slot goes to the next reader.
    assert_eq!(registry.min_reader_seq(&LIVE), Some(5));
    let third = registry.register("third", 1, ME, &LIVE).unwrap();
    assert_eq!(third.slot_index(), 1);
    assert_eq!(registry.prune_dead_readers(&LIVE), 0);
    let fourth = registry.register("fourth", 1, ME, &LIVE).unwrap();
    assert_eq!(fourth.slot_index(), 2);
    assert!(registry.register("fifth", 1, ME, &LIVE).is_err());
    assert_eq!(first.slot_index(), 0);
}
