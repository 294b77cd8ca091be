use ringfire::checkpoint::{consumer_offset_path, OffsetFault, ShmOffsetSlot};
use ringfire::{OffsetCheckpoint, RingConsumer, RingProducer, RingfireError};

#[test]
fn test_shm_offset_checkpoint_roundtrip() {
    let file_path = "/dev/shm/test_ringfire_shm_offset.shm";

    let mut cp = OffsetCheckpoint::open_or_create(&[], file_path, "test_bot", 1, 10).unwrap();
    assert_eq!(cp.load(), None);
    assert_eq!(cp.name(), "test_bot");

    cp.save(123456, 20);
    assert_eq!(cp.load(), Some(123456));
    assert!(cp.updated_nanos() > 0);
    let contents = cp.slot.encode();

    // Re-open from existing file to simulate consumer crash recovery
    let mut cp2 = OffsetCheckpoint::open_or_create(&contents, file_path, "test_bot", 2, 30).unwrap();
    assert_eq!(cp2.load(), Some(123456));

    cp2.save(123457, 40);
    assert_eq!(cp2.load(), Some(123457));
    assert_eq!(cp2.pid(), 2);
}

#[test]
fn test_shm_offset_for_consumer_path() {
    let ring_path = "/tmp/hl_market_data.shm";
    let cp = OffsetCheckpoint::for_consumer(&[], ring_path, "recorder_v2", 1, 1).unwrap();
    assert!(cp.path().contains("hl_market_data_recorder_v2.offset"));
}

#[test]
fn offset_paths_are_sanitized() {
    assert_eq!(
        consumer_offset_path("/dev/shm/feed.shm", "desk/a b"),
        "/dev/shm/feed_desk_a_b.offset"
    );
}

#[test]
fn names_are_trimmed() {
    let cp = OffsetCheckpoint::open_or_create(&[], "/x/y.offset", "  bot ", 1, 1).unwrap();
    assert_eq!(cp.name(), "bot");
    assert_eq!(&cp.slot.name[..4], b"bot\0");
}

#[test]
fn foreign_files_are_refused() {
    let mut bytes = vec![0xEEu8; 64];
    match OffsetCheckpoint::open_or_create(&bytes, "/x\n", "n", 1, 1) {
        Err(RingfireError::Io(text)) => {
            assert!(text.starts_with("Invalid magic in shared memory offset \"/x\\n\": expected 0x"));
            assert!(text.ends_with("got 0xEEEEEEEEEEEEEEEE"));
        }
        other => panic!("{:?}", other),
    }
    let cp = OffsetCheckpoint::open_or_create(&[], "/x", "n", 1, 1).unwrap();
    bytes = cp.slot.encode();
    assert_eq!(ShmOffsetSlot::decode(&bytes).name, cp.slot.name);
    bytes[8] = 9;
    match OffsetCheckpoint::open_or_create(&bytes, "/x", "n", 1, 1) {
        Err(RingfireError::Io(text)) => {
            assert_eq!(text, "Version mismatch in shared memory offset \"/x\": expected 1, got 9");
        }
        other => panic!("{:?}", other),
    }
}

#[test]
fn committed_offsets_can_be_opened_again() {
    let (_producer, mut ring) = RingProducer::<u64>::create(8).unwrap();
    let consumer = RingConsumer::<u64>::attach(&mut ring, 1, &[1]).unwrap();
    let cp = consumer.commit_offset_to(&mut ring, &[], "/p", "desk", 7, 99).unwrap();
    let bytes = cp.slot.encode();
    let again = OffsetCheckpoint::for_consumer(&bytes, "/dev/shm/ring", "desk", 8, 100).unwrap();
    assert_eq!((again.load(), again.pid(), again.updated_nanos()), (None, 8, 99));
    assert_eq!(again.slot.name, cp.slot.name);
    let mut broken = bytes.clone();
    broken[0] ^= 1;
    let e = consumer.commit_offset_to(&mut ring, &broken, "/p", "desk", 7, 99).unwrap_err();
    assert!(e.message().contains("Invalid magic in shared memory offset \"/p\""));
}

#[test]
fn files_open_under_exactly_the_given_name() {
    let cp = OffsetCheckpoint::open_named(&[], "/x", " n ", 5, 6).unwrap();
    assert_eq!(cp.name(), " n ");
    assert_eq!(&cp.slot.name[..4], b" n \0");
    assert_eq!((cp.pid(), cp.updated_nanos(), cp.load()), (5, 6, None));
    let fault = OffsetCheckpoint::open_named(&[0u8; 64], "/x", "n", 1, 1).unwrap_err();
    assert_eq!(fault, OffsetFault::Magic(0));
    assert_eq!(
        fault.message("<x>"),
        "Invalid magic in shared memory offset <x>: expected 0x53484D5F4F464653, got 0x0000000000000000"
    );
    let mut bytes = cp.slot.encode();
    bytes[8] = 2;
    let fault = OffsetCheckpoint::open_named(&bytes, "/x", "n", 1, 1).unwrap_err();
    assert_eq!(fault, OffsetFault::Version(2));
}

#[test]
fn refusals_show_the_path_as_paths_are_shown() {
    let path = "/x'y \"z\"\t";
    match OffsetCheckpoint::open_or_create(&[0u8; 64], path, "n", 1, 1) {
        Err(RingfireError::Io(text)) => {
            let shown = format!("{:?}", std::path::Path::new(path));
            assert!(text.contains(&format!("offset {}: expected", shown)));
        }
        other => panic!("{:?}", other),
    }
}
