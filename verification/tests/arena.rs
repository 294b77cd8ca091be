use ringfire::arena::{ArenaHeader, BlobRef, PayloadArena};
use ringfire::RingfireError;

#[test]
fn test_arena_contiguous_wraparound() {
    let capacity = 1024;
    let mut arena = PayloadArena::init(capacity).unwrap();

    // Write 900 bytes
    let data1 = vec![0xAAu8; 900];
    let ref1 = arena.write_blob(&data1, 1).unwrap();
    assert_eq!(ref1.len, 900);
    assert_eq!(ref1.offset, 0);

    let mut read_buf = vec![0u8; 900];
    arena.read_blob(ref1, &mut read_buf).unwrap();
    assert_eq!(read_buf, data1);

    // Writing 200 bytes would overflow 900 + 200 > 1024 -> must wrap to index 0!
    let data2 = vec![0xBBu8; 200];
    let ref2 = arena.write_blob(&data2, 2).unwrap();
    assert_eq!(ref2.len, 200);
    // Offset must be aligned to next cycle (1024)
    assert_eq!(ref2.offset, 1024);

    let mut read_buf2 = vec![0u8; 200];
    arena.read_blob(ref2, &mut read_buf2).unwrap();
    assert_eq!(read_buf2, data2);
}

#[test]
fn arena_capacity_is_a_power_of_two() {
    assert!(matches!(PayloadArena::init(1000), Err(RingfireError::InvalidCapacity(1000))));
    assert_eq!(PayloadArena::init(64).unwrap().capacity(), 64);
}

#[test]
fn payload_beyond_the_arena_is_refused() {
    let mut arena = PayloadArena::init(64).unwrap();
    assert!(matches!(
        arena.write_blob(&[0u8; 65], 0),
        Err(RingfireError::ArenaPayloadTooLarge { len: 65, max_capacity: 64 })
    ));
}

#[test]
fn short_buffer_is_refused() {
    let mut arena = PayloadArena::init(64).unwrap();
    let r = arena.write_blob(b"abcdef", 0).unwrap();
    let mut out = [0u8; 3];
    assert!(matches!(
        arena.read_blob(r, &mut out),
        Err(RingfireError::BufferTooSmall { required: 6, provided: 3 })
    ));
}

#[test]
fn payload_is_intact_until_a_whole_arena_later() {
    let mut arena = PayloadArena::init(256).unwrap();
    let first = arena.write_blob(&[1u8; 64], 0).unwrap();
    for i in 0..3u8 {
        arena.write_blob(&[i; 64], 0).unwrap();
    }
    assert!(!arena.is_lapped(first));
    assert_eq!(arena.bytes(first), &[1u8; 64][..]);
    arena.write_blob(&[9u8; 1], 0).unwrap();
    assert!(arena.is_lapped(first));
}

#[test]
fn descriptors_are_bounds_checked() {
    let header = ArenaHeader { capacity: 128, mask: 127, reserved: 0 };
    let inside = BlobRef { offset: 64, len: 64, flags: 0 };
    let outside = BlobRef { offset: 64, len: 65, flags: 0 };
    assert!(header.is_in_bounds(inside));
    assert!(!header.is_in_bounds(outside));
    assert!(BlobRef::empty().is_empty());
}

#[test]
fn placement_never_straddles_the_end() {
    assert_eq!(PayloadArena::place(1024, 0, 900).0, 0);
    assert_eq!(PayloadArena::place(1024, 900, 200).0, 1024);
    assert_eq!(PayloadArena::place(1024, 64, 64).0, 64);
}

#[test]
fn payload_can_be_written_and_viewed_in_place() {
    let mut arena = PayloadArena::init(64).unwrap();
    let (r, code) = arena
        .write_blob_with(8, 3, |buf: &mut [u8]| {
            buf.fill(7);
            buf.len()
        })
        .unwrap();
    assert_eq!(code, 8);
    assert_eq!(r.flags, 3);
    assert_eq!(arena.view_blob(r, |b: &[u8]| b.to_vec()), vec![7u8; 8]);
}

#[test]
fn an_empty_payload_is_never_lapped() {
    let mut arena = PayloadArena::init(64).unwrap();
    let first = arena.write_blob(&[1u8; 64], 0).unwrap();
    arena.write_blob(&[2u8; 64], 0).unwrap();
    let empty = arena.write_blob(&[], 0).unwrap();
    assert!(arena.is_lapped(first));
    assert!(!arena.is_lapped(empty));
}

#[test]
fn blobs_read_back_where_the_counter_starts_over() {
    let mut arena = PayloadArena::init(128).unwrap();
    arena.header.reserved = u64::MAX - 63;
    let first = arena.write_blob(&[1u8; 40], 0).unwrap();
    assert_eq!(first.offset, u64::MAX - 63);
    assert_eq!(arena.header.reserved, 0);
    assert!(!arena.is_lapped(first));
    let second = arena.write_blob(&[2u8; 64], 0).unwrap();
    assert_eq!(second.offset, 0);
    let mut out = [9u8; 48];
    assert_eq!(arena.read_blob(first, &mut out).unwrap(), 40);
    assert_eq!(&out[..40], &[1u8; 40][..]);
    assert_eq!(&out[40..], &[9u8; 8][..]);
    assert_eq!(arena.bytes(second), &[2u8; 64][..]);
    assert_eq!(arena.capacity(), 128);
}

#[test]
fn a_lapped_blob_stays_lapped() {
    let mut arena = PayloadArena::init(128).unwrap();
    let first = arena.write_blob(&[1u8; 64], 0).unwrap();
    arena.write_blob(&[2u8; 64], 0).unwrap();
    assert!(!arena.is_lapped(first));
    assert_eq!(arena.bytes(first), &[1u8; 64][..]);
    for _ in 0..5 {
        arena.write_blob(&[3u8; 30], 0).unwrap();
        assert!(arena.is_lapped(first));
        assert_eq!(arena.capacity(), 128);
        assert_eq!(arena.header.open().unwrap(), 128);
    }
}

#[test]
fn claims_name_the_place_and_the_next_counter() {
    let header = ArenaHeader { capacity: 1024, mask: 1023, reserved: 960 };
    let (blob, next) = PayloadArena::claim(&header, 200, 7).unwrap();
    assert_eq!(blob, BlobRef { offset: 1024, len: 200, flags: 7 });
    assert_eq!(next, 1024 + 256);
    assert_eq!(PayloadArena::claim(&header, 0, 7).unwrap(), (BlobRef::empty(), 960));
    assert!(matches!(
        PayloadArena::claim(&header, 1025, 0),
        Err(RingfireError::ArenaPayloadTooLarge { len: 1025, max_capacity: 1024 })
    ));
}
