use ringfire::header::{check_schema, validate_ring};
use ringfire::ring::{oldest_retained, slot_align_of, slot_size_of};
use ringfire::slot::{confirm, probe, read_slot, write_slot, SlotProbe, SlotRead};
use ringfire::text::{decimal_text, json_str, parse_number, push_hex, push_hex_number, push_padded};
use ringfire::{
    CycleStamp, RingHeader, RingProducer, RingfireError, Slot, RINGFIRE_MAGIC, RINGFIRE_VERSION,
};

#[test]
fn json_strings_are_escaped() {
    assert_eq!(json_str("a\"b\\c\n\u{1f}é"), "\"a\\\"b\\\\c\\u000a\\u001fé\"");
    assert_eq!(json_str(""), "\"\"");
}

#[test]
fn numbers_as_text() {
    assert_eq!(decimal_text(0), "0");
    assert_eq!(decimal_text(u64::MAX), "18446744073709551615");
    let mut s = String::new();
    push_hex(&mut s, 0xBEEF, 8, true);
    push_hex(&mut s, 0xBEEF, 2, false);
    assert_eq!(s, "0000BEEFef");
    let mut s = String::new();
    push_hex_number(&mut s, 1023);
    push_padded(&mut s, "é", 3);
    push_padded(&mut s, "long", 2);
    assert_eq!(s, "3FFé  long");
}

#[test]
fn text_as_numbers() {
    assert_eq!(parse_number("42", u64::MAX), Some(42));
    assert_eq!(parse_number("+7", u64::MAX), Some(7));
    assert_eq!(parse_number("007", u64::MAX), Some(7));
    assert_eq!(parse_number("", u64::MAX), None);
    assert_eq!(parse_number("+", u64::MAX), None);
    assert_eq!(parse_number("-1", u64::MAX), None);
    assert_eq!(parse_number("12x", u64::MAX), None);
    assert_eq!(parse_number("18446744073709551615", u64::MAX), Some(u64::MAX));
    assert_eq!(parse_number("18446744073709551616", u64::MAX), None);
    assert_eq!(parse_number("101", 100), None);
}

#[test]
fn errors_describe_themselves() {
    let cases: Vec<(RingfireError, &str)> = vec![
        (RingfireError::Io("no".to_string()), "I/O error: no"),
        (RingfireError::InvalidCapacity(3), "Capacity 3 is invalid: must be a power of two"),
        (
            RingfireError::InvalidMagic { expected: 1, actual: 0xAB },
            "Invalid magic header: expected 0x0000000000000001, got 0x00000000000000AB",
        ),
        (
            RingfireError::VersionMismatch { expected: 2, actual: 1 },
            "Version mismatch: expected 2, got 1",
        ),
        (
            RingfireError::ElementSizeMismatch { expected: 16, actual: 24 },
            "Element size mismatch: expected 16 bytes, got 24 bytes",
        ),
        (
            RingfireError::KeyOutOfRange { key: 4, capacity: 2 },
            "Blackboard key 4 out of range (capacity: 2)",
        ),
        (
            RingfireError::BufferTooSmall { required: 9, provided: 4 },
            "Output buffer too small: required 9 bytes, provided 4 bytes",
        ),
        (
            RingfireError::CorruptLayout("x"),
            "Corrupt shared memory layout: x",
        ),
        (
            RingfireError::WriterStalled { key: 1 },
            "Blackboard key 1 stayed mid-write: writer stalled or crashed",
        ),
        (RingfireError::Unsupported("x"), "Unsupported: x"),
        (RingfireError::Protocol("x"), "Replication protocol error: x"),
    ];
    for (e, text) in cases {
        assert_eq!(e.message(), text);
    }
}

#[test]
fn headers_survive_encoding() {
    let (_p, ring) = RingProducer::<u64>::create(8).unwrap();
    let mut region = ring.header.encode();
    assert_eq!(region.len(), 128);
    region.resize(ring.len, 0);
    let h = RingHeader::decode(&region);
    assert_eq!(h.magic, RINGFIRE_MAGIC);
    assert_eq!(h.version, RINGFIRE_VERSION);
    assert_eq!(h.schema_sig, ring.header.schema_sig);
    let view = validate_ring(&region, Some(16), 8).unwrap();
    assert_eq!((view.capacity, view.mask, view.slot_size, view.slots_offset), (8, 7, 16, 128));
    assert!(check_schema(&h, h.schema_sig, "u64".to_string()).is_ok());
    assert!(check_schema(&h, 1, "u64".to_string()).is_err());
}

#[test]
fn damaged_headers_are_refused() {
    let (_p, ring) = RingProducer::<u64>::create(8).unwrap();
    let mut region = ring.header.encode();
    region.resize(ring.len, 0);
    assert!(matches!(validate_ring(&region[..100], None, 8), Err(RingfireError::CorruptLayout(_))));
    assert!(matches!(
        validate_ring(&region, Some(24), 8),
        Err(RingfireError::ElementSizeMismatch { expected: 24, actual: 16 })
            | Err(RingfireError::ElementSizeMismatch { expected: 16, actual: 24 })
    ));
    let mut odd = ring.header;
    odd.mask = 6;
    let mut bytes = odd.encode();
    bytes.resize(ring.len, 0);
    assert!(matches!(validate_ring(&bytes, None, 8), Err(RingfireError::CorruptLayout(_))));
    let mut old = ring.header;
    old.version = 1;
    let mut bytes = old.encode();
    bytes.resize(ring.len, 0);
    assert!(matches!(validate_ring(&bytes, None, 8), Err(RingfireError::VersionMismatch { .. })));
    region[0] ^= 1;
    assert!(matches!(validate_ring(&region, None, 8), Err(RingfireError::InvalidMagic { .. })));
}

#[test]
fn slot_protocol() {
    assert_eq!(probe(5, 5), SlotProbe::Copy);
    assert_eq!(probe(u64::MAX, 5), SlotProbe::Pending);
    assert_eq!(probe(4, 5), SlotProbe::Pending);
    assert_eq!(probe(13, 5), SlotProbe::Overwritten(13));
    assert_eq!(confirm(5, 5), None);
    assert_eq!(confirm(u64::MAX, 5), Some(0));
    assert_eq!(confirm(13, 5), Some(13));
    let mut slot = Slot { seq: 0, data: None };
    assert!(matches!(read_slot::<u64>(&slot, 1), SlotRead::Pending));
    write_slot(&mut slot, 1, 77u64);
    assert!(matches!(read_slot(&slot, 1), SlotRead::Item(77)));
    write_slot(&mut slot, 9, 78u64);
    assert!(matches!(read_slot(&slot, 1), SlotRead::Overwritten(9)));
}

#[test]
fn slot_sizes_match_the_layout_of_a_word_and_a_record() {
    assert_eq!(slot_size_of::<u64>(), 16);
    assert_eq!(slot_size_of::<u8>(), 16);
    assert_eq!(slot_size_of::<[u64; 4]>(), 40);
    assert_eq!(slot_align_of::<u8>(), 8);
    assert_eq!(oldest_retained(0, 8), 1);
    assert_eq!(oldest_retained(7, 8), 1);
    assert_eq!(oldest_retained(8, 8), 1);
    assert_eq!(oldest_retained(9, 8), 2);
}

#[test]
fn cycle_stamps_tell_core_and_node() {
    let a = CycleStamp::from_counter(100, (3 << 12) | 17);
    assert_eq!((a.tsc, a.core_id, a.numa_node), (100, 17, 3));
    let b = CycleStamp::from_counter(150, 0);
    assert_eq!(b.diff_cycles(&a), 50);
    assert_eq!(a.elapsed_cycles(&b), 50);
    assert_eq!(a.diff_cycles(&b), 0);
}
