use ringfire::cli::{parse_args, Command};
use ringfire::header::{ReaderSlot, FLAG_WITH_ARENA};
use ringfire::inspect::{
    arena_use, blackboard_stat, dump_range, dump_row, dump_title, extent, file_kind, is_dead,
    prune_readers, published_since, read_readers, registry_slots, retained_window, ring_status,
    FileKind, Rates, Ratios,
};
use ringfire::spmc::PushOutcome;
use ringfire::{
    BlackboardProducer, RingConsumer, RingHeader, RingProducer, RingProducerBuilder,
    BLACKBOARD_MAGIC, RINGFIRE_MAGIC,
};

const ME: u32 = 4711;
const LIVE: [u32; 1] = [ME];

fn args(words: &[&str]) -> Vec<String> {
    words.iter().map(|w| w.to_string()).collect()
}

fn ratios() -> Ratios {
    Ratios {
        file_mb: "0.02".to_string(),
        slots_mb: "0.01".to_string(),
        filled: "4.9".to_string(),
        arena_mb: "0.00".to_string(),
        arena_filled: "0.0".to_string(),
    }
}

/// The bytes of a ring of `u64`, as mapped.
fn image(ring: &ringfire::Ring<u64>) -> Vec<u8> {
    let mut out = ring.header.encode();
    if let Some(reg) = &ring.registry {
        for s in &reg.slots {
            out.extend_from_slice(&s.pid.to_le_bytes());
            out.extend_from_slice(&s.active.to_le_bytes());
            out.extend_from_slice(&s.cursor_seq.to_le_bytes());
            out.extend_from_slice(&s.heartbeat_tsc.to_le_bytes());
            out.extend_from_slice(&s.name);
            out.extend_from_slice(&[0u8; 8]);
        }
    }
    out.resize(ring.header.slots_offset as usize, 0);
    for s in &ring.slots {
        out.extend_from_slice(&s.seq.to_le_bytes());
        out.extend_from_slice(&s.data.unwrap_or(0).to_le_bytes());
    }
    assert_eq!(out.len(), ring.len);
    out
}

fn dump(ring: &ringfire::Ring<u64>, tail: u64, hex: bool) -> String {
    let h = &ring.header;
    let range = dump_range(h.write_seq, h.capacity, tail);
    let mut out = dump_title(range, h.capacity);
    if let Some((first, last)) = range {
        for seq in first..=last {
            let i = ring.slot_index(seq);
            let data = ring.slots[i].data.unwrap_or(0).to_le_bytes();
            out.push_str(&dump_row(seq, i as u64, ring.slots[i].seq, &data, hex));
        }
    }
    out
}

#[test]
fn test_cli_stat_and_dump_spmc() {
    // Create a ring buffer and write some messages
    let (mut producer, mut ring) = RingProducer::<u64>::create(1024).unwrap();
    let mut consumer = RingConsumer::<u64>::attach(&mut ring, ME, &LIVE).unwrap();

    for i in 1..=50 {
        assert!(matches!(producer.push(&mut ring, i), PushOutcome::Published { .. }));
    }
    // Read 20 items so consumer has cursor at 21, lag 30
    for _ in 0..20 {
        let _ = consumer.try_recv(&mut ring);
    }

    let region = image(&ring);
    assert_eq!(file_kind(region.len() as u64, ring.header.magic).unwrap(), FileKind::Ring);
    let header = RingHeader::decode(&region);
    let status = ring_status("/dev/shm/test".to_string(), &region, header, &LIVE);

    // 1. Test `stat` (human readable)
    let stdout = status.to_text(&ratios());
    assert!(stdout.contains("ringfire Shared Memory Ring Buffer Status"));
    assert!(stdout.contains("Capacity (Slots):    1024"));
    assert!(stdout.contains("Write Sequence:    50"));
    assert!(stdout.contains("Registered Readers"));

    // 2. Test `stat --json`
    let stdout_json = status.to_json("4.88");
    assert!(stdout_json.contains("\"capacity\": 1024"));
    assert!(stdout_json.contains("\"write_seq\": 50"));
    assert!(stdout_json.contains("\"readers\": ["));

    // 3. Test `dump`
    let stdout_dump = dump(&ring, 5, false);
    assert!(stdout_dump.contains("Dumping slots from seq 46 to seq 50"));

    // 4. Test `dump --hex`
    let stdout_hex = dump(&ring, 3, true);
    assert!(stdout_hex.contains("hex: ["));

    // 5. Test `prune`
    let mut slots = registry_slots(&region, &header);
    assert!(prune_readers(&mut slots, &LIVE).contains("Successfully pruned 0"));
}

#[test]
fn test_cli_stat_blackboard() {
    let (_bb, board) = BlackboardProducer::<[u8; 32]>::create(128).unwrap();
    assert_eq!(file_kind(board.len as u64, board.header.magic).unwrap(), FileKind::Blackboard);

    // Human readable
    let stdout = blackboard_stat("/dev/shm/bb", board.len as u64, &board.header, false);
    assert!(stdout.contains("Blackboard"));
    assert!(stdout.contains("Slots Count:  128"));

    // JSON
    let stdout_json = blackboard_stat("/dev/shm/bb", board.len as u64, &board.header, true);
    assert!(stdout_json.contains("\"type\": \"Blackboard\""));
    assert!(stdout_json.contains("\"slot_count\": 128"));
}

#[test]
fn r6_cli_dump_reads_real_slots() {
    let (mut p1, mut plain) = RingProducer::<u64>::create(16).unwrap();
    let (mut p2, mut odd) = RingProducerBuilder::new(16).max_readers(3).build::<u64>().unwrap();
    for i in 1..=5u64 {
        assert!(matches!(p1.push(&mut plain, i * 111), PushOutcome::Published { .. }));
        assert!(matches!(p2.push(&mut odd, i * 111), PushOutcome::Published { .. }));
    }
    for ring in [&plain, &odd] {
        let text = dump(ring, 5, false);
        let rows: Vec<Vec<String>> = text
            .lines()
            .filter(|l| l.chars().next().is_some_and(|c| c.is_ascii_digit()))
            .map(|l| l.split_whitespace().map(str::to_string).collect())
            .collect();
        assert_eq!(rows.len(), 5);
        for row in rows {
            assert_eq!(row[0], row[2], "dump row shows the wrong slot: {:?}", row);
        }
    }
}

#[test]
fn commands_are_parsed() {
    assert!(matches!(parse_args(&args(&["ringfire"])), Command::Nothing));
    assert!(matches!(parse_args(&args(&["ringfire", "--help"])), Command::Help));
    assert!(matches!(parse_args(&args(&["ringfire", "-V", "x"])), Command::Version));
    match parse_args(&args(&["ringfire", "stat"])) {
        Command::PathMissing { subcommand } => assert_eq!(subcommand, "stat"),
        other => panic!("{:?}", other),
    }
    match parse_args(&args(&["ringfire", "frob", "x"])) {
        Command::Unknown { subcommand } => assert_eq!(subcommand, "frob"),
        other => panic!("{:?}", other),
    }
    match parse_args(&args(&["ringfire", "stat", "/p", "--json"])) {
        Command::Stat { path, json } => assert_eq!((path.as_str(), json), ("/p", true)),
        other => panic!("{:?}", other),
    }
    match parse_args(&args(&["ringfire", "top", "/p", "--interval-ms", "20"])) {
        Command::Top { interval_ms, .. } => assert_eq!(interval_ms, 20),
        other => panic!("{:?}", other),
    }
    match parse_args(&args(&["ringfire", "top", "/p", "--interval-ms", "x"])) {
        Command::Top { interval_ms, .. } => assert_eq!(interval_ms, 500),
        other => panic!("{:?}", other),
    }
    match parse_args(&args(&["ringfire", "dump", "/p", "--hex", "--tail", "3"])) {
        Command::Dump { tail, hex, .. } => assert_eq!((tail, hex), (3, true)),
        other => panic!("{:?}", other),
    }
    match parse_args(&args(&["ringfire", "serve", "/p", "--bind", "0.0.0.0:7400"])) {
        Command::Serve { path, bind } => {
            assert_eq!((path.as_str(), bind.as_str()), ("/p", "0.0.0.0:7400"))
        }
        other => panic!("{:?}", other),
    }
    assert!(matches!(parse_args(&args(&["ringfire", "serve", "/p"])), Command::BindMissing));
    match parse_args(&args(&["ringfire", "mirror", "host:7400", "/p"])) {
        Command::Mirror { source, path } => {
            assert_eq!((source.as_str(), path.as_str()), ("host:7400", "/p"))
        }
        other => panic!("{:?}", other),
    }
    assert!(matches!(
        parse_args(&args(&["ringfire", "mirror", "host:7400"])),
        Command::PathMissing { .. }
    ));
    match parse_args(&args(&["ringfire", "prune", "/p"])) {
        Command::Prune { path } => assert_eq!(path, "/p"),
        other => panic!("{:?}", other),
    }
}

#[test]
fn windows_and_extents() {
    assert_eq!(retained_window(0, 8), None);
    assert_eq!(retained_window(5, 8), Some((1, 5)));
    assert_eq!(retained_window(20, 8), Some((13, 20)));
    assert_eq!(extent(None), (0, 0));
    assert_eq!(extent(Some((13, 20))), (13, 8));
    assert_eq!(dump_range(20, 8, 3), Some((18, 20)));
    assert_eq!(dump_range(20, 8, 0), Some((20, 20)));
    assert_eq!(dump_range(20, 8, 100), Some((13, 20)));
    assert_eq!(published_since(5, 3), 2);
    assert_eq!(published_since(3, 5), 0);
    assert_eq!(dump_title(None, 8), "Ring is empty: nothing published yet (capacity 8).\n");
}

#[test]
fn dump_rows_are_exact() {
    assert_eq!(
        dump_row(46, 46, 46, b"ab\x00", false),
        "46        46        46          \"ab.\" (3 bytes)\n"
    );
    assert_eq!(
        dump_row(7, 7, u64::MAX, &[0xAB, 0x01], true),
        "7         7         WRITING     hex: [AB 01]\n"
    );
    assert!(dump_row(1, 1, 1, &[0u8; 17], true).ends_with("00]...\n"));
}

#[test]
fn readers_are_reported() {
    let (mut producer, mut ring) =
        RingProducerBuilder::new(16).max_readers(2).build::<u64>().unwrap();
    let mut consumer = RingConsumer::<u64>::builder()
        .consumer_name("desk \"a\"")
        .attach(&mut ring, None, ME, &LIVE)
        .unwrap();
    for i in 1..=5 {
        assert!(matches!(producer.push(&mut ring, i), PushOutcome::Published { .. }));
    }
    consumer.try_recv(&mut ring);
    consumer.try_recv(&mut ring);
    let region = image(&ring);
    let slots = registry_slots(&region, &ring.header);
    assert_eq!(slots.len(), 2);
    let readers = read_readers(&slots, 5, &[]);
    assert_eq!(readers.len(), 1);
    assert_eq!(readers[0].cursor_seq, 3);
    assert_eq!(readers[0].lag, 3);
    assert!(!readers[0].alive);
    let status = ring_status("/r".to_string(), &region, ring.header, &LIVE);
    let json = status.to_json("31.25");
    assert!(json.contains("\"name\": \"desk \\\"a\\\"\""));
    assert!(json.contains("\"alive\": true\n    }\n  ]\n}\n"));
    let rates = Rates {
        messages: "       1.0".to_string(),
        megabytes: "   0.00".to_string(),
        filled: " 31.3".to_string(),
    };
    let top = status.to_top(&rates);
    assert!(top.starts_with("ringfire top - /r [SPMC] | Flow: LatestWins\nWrite Seq: 5            | "));
    assert!(top.contains("Buffer:    5            / 16 slots ( 31.3%) | Window: [1 .. 5]\n"));
    assert!(top.contains("0     4711      desk \"a\"              3             3           ALIVE   \n"));
    assert!(status.to_text(&ratios()).contains("Registered Readers (1 active / 2 max):"));
}

#[test]
fn pruning_strikes_off_dead_owners() {
    let mut name = [0u8; 32];
    name[..4].copy_from_slice(b"gone");
    let dead = ReaderSlot { pid: 99, active: 1, cursor_seq: 4, heartbeat_tsc: 0, name };
    let alive = ReaderSlot { pid: ME, ..dead };
    let mut slots = vec![alive, dead];
    assert_eq!(
        prune_readers(&mut slots, &LIVE),
        "Pruning dead reader slot 1: PID 99 (gone)\nSuccessfully pruned 1 dead reader slot(s).\n"
    );
    assert_eq!((slots[0].pid, slots[1].pid, slots[1].active), (ME, 0, 1));
    assert!(is_dead(99, &LIVE));
    assert!(!is_dead(0, &LIVE));
    assert!(!is_dead(ME, &LIVE));
}

#[test]
fn foreign_files_are_told_apart() {
    assert_eq!(
        file_kind(3, RINGFIRE_MAGIC).unwrap_err(),
        "File too small (3 bytes) to contain RingHeader"
    );
    let text = file_kind(4096, 0x12).unwrap_err();
    assert!(text.starts_with("Invalid magic signature 0x0000000000000012 (expected RINGFIRE 0x"));
    assert_eq!(file_kind(128, BLACKBOARD_MAGIC).unwrap(), FileKind::Blackboard);
}

#[test]
fn arena_use_is_read_from_the_mapping() {
    let (_p, mut ring) = RingProducer::<u64>::create(8).unwrap();
    let mut region = image(&ring);
    ring.header.arena_offset = region.len() as u64;
    region.extend_from_slice(&1024u64.to_le_bytes());
    region.extend_from_slice(&1023u64.to_le_bytes());
    region.extend_from_slice(&3000u64.to_le_bytes());
    assert_eq!(arena_use(&region, &ring.header), (0, 0));
    ring.header.flags |= FLAG_WITH_ARENA;
    assert_eq!(arena_use(&region, &ring.header), (1024, 3000));
    let status = ring_status("/r".to_string(), &region, ring.header, &LIVE);
    assert!(status.to_text(&ratios()).contains("Reserved Bytes:    3000 (0.0% wrapped cycles: 2)"));
    assert!(status.to_json("0.00").contains("\"arena_reserved\": 3000,\n"));
}
