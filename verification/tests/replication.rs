use ringfire::head::ReadHead;
use ringfire::header::{validate_header, FLAG_SPARSE, FLAG_WITH_ARENA};
use ringfire::raw::RingProducerRaw;
use ringfire::replication::{
    adopt, create_mirror_ring, hello_body, hello_bytes, hello_header, open_source, read_record,
    start_position, Frame, Geometry, Mirror, MirrorAction, MirrorBuilder, MirrorStart, RawRead,
    ReplicaServer, ServePause, ServeSession, FRAME_HEADER_LEN, GEOMETRY_LEN, GEOMETRY_RESET,
    HELLO_LATEST, HELLO_OLDEST, KIND_DATA, KIND_GAP, KIND_GEOMETRY, KIND_HEARTBEAT,
};
use ringfire::slot::{probe, SlotProbe};
use ringfire::{Ring, RingfireError};

/// Bytes of a tick: seq, px, qty, side.
fn nth(seq: u64) -> Vec<u8> {
    let mut b = Vec::new();
    b.extend_from_slice(&seq.to_le_bytes());
    b.extend_from_slice(&(seq * 3).to_le_bytes());
    b.extend_from_slice(&(seq as u32).to_le_bytes());
    b.extend_from_slice(&[(seq % 2) as u8, 0, 0, 0]);
    b
}

fn source(capacity: u64) -> (RingProducerRaw, Ring<Vec<u8>>) {
    RingProducerRaw::create(capacity, 24).unwrap()
}

fn push(p: &mut RingProducerRaw, ring: &mut Ring<Vec<u8>>, seqs: std::ops::RangeInclusive<u64>) {
    for seq in seqs {
        p.push(ring, &nth(seq));
    }
}

fn geometry_of(ring: &Ring<Vec<u8>>) -> Geometry {
    open_source(&ring.header, ring.len).unwrap().1
}

struct Link {
    session: ServeSession,
    mirror: Mirror,
    copy: Ring<Vec<u8>>,
}

fn connect(
    src: &Ring<Vec<u8>>,
    builder: MirrorBuilder,
    existing: Option<Ring<Vec<u8>>>,
    batch: usize,
) -> Link {
    let adopted = match &existing {
        Some(ring) => adopt(&ring.header, ring.len),
        None => None,
    };
    let hello = hello_bytes(builder.wanted(&adopted));
    let wanted = hello_header(&hello[..16]).unwrap();
    hello_body(&hello[16..]).unwrap();
    let geometry = geometry_of(src);
    let (session, greeting) =
        ServeSession::open(&geometry, wanted, src.header.write_seq, batch, false, 0);
    let frame = MirrorBuilder::geometry_header(&greeting[..FRAME_HEADER_LEN]).unwrap();
    let mirror = builder.connect(&frame, &greeting[FRAME_HEADER_LEN..], adopted).unwrap();
    let copy = match existing {
        Some(ring) if mirror.resumed() => ring,
        _ => create_mirror_ring(&mirror.geometry()),
    };
    Link { session, mirror, copy }
}

impl Link {
    fn deliver(&mut self, bytes: &[u8]) {
        let frame = Frame::decode(&bytes[..FRAME_HEADER_LEN]);
        match self.mirror.step(&frame).unwrap() {
            MirrorAction::Records { len } => {
                let records = &bytes[FRAME_HEADER_LEN..];
                assert_eq!(records.len(), len);
                self.mirror.apply(&mut self.copy, &frame, records);
            }
            MirrorAction::Next => assert_eq!(bytes.len(), FRAME_HEADER_LEN),
        }
    }

    /// Copies until the session finds nothing more.
    fn pump(&mut self, src: &Ring<Vec<u8>>) {
        loop {
            self.session.collect(src);
            let data = self.session.data(0);
            let mut busy = data.is_some();
            if let Some(b) = data {
                self.deliver(&b);
            }
            if self.session.lapped.is_some() {
                if let Some(b) = self.session.resync(src.header.write_seq) {
                    self.deliver(&b);
                    busy = true;
                }
            }
            if !busy {
                return;
            }
        }
    }
}

fn expect(copy: &Ring<Vec<u8>>, seqs: std::ops::RangeInclusive<u64>) {
    for seq in seqs {
        match read_record(copy, seq) {
            RawRead::Item(p) => assert_eq!(p, nth(seq), "record {} does not match", seq),
            other => panic!("record {}: {:?}", seq, other),
        }
    }
}

#[test]
fn mirror_replicates_every_record_in_order_and_byte_for_byte() {
    let (mut producer, mut src) = source(8192);
    let mut link = connect(&src, Mirror::builder().start(MirrorStart::Oldest), None, 256);
    assert_eq!(link.copy.header.flags & FLAG_SPARSE, FLAG_SPARSE);
    let n = 5000u64;
    push(&mut producer, &mut src, 1..=n);
    link.pump(&src);
    expect(&link.copy, 1..=n);

    // Every retained slot of the mirror equals the source's, including sequence words.
    assert_eq!(src.len, link.copy.len);
    assert_eq!(src.slots.len(), link.copy.slots.len());
    for (a, b) in src.slots.iter().zip(link.copy.slots.iter()) {
        assert_eq!(a.seq, b.seq);
        assert_eq!(a.data, b.data, "slot regions differ");
    }
    assert_eq!(link.mirror.sequence(), n);
    assert_eq!(link.mirror.gaps(), 0);
    assert_eq!(link.mirror.source_sequence(), n);
    assert_eq!(link.mirror.frames(), 20);
}

#[test]
fn late_mirror_starts_from_oldest_retained() {
    let (mut producer, mut src) = source(256);
    push(&mut producer, &mut src, 1..=100);
    let mut link = connect(&src, Mirror::builder().start(MirrorStart::Oldest), None, 256);
    assert_eq!(link.mirror.first_sequence(), 1);
    link.pump(&src);
    expect(&link.copy, 1..=100);
    push(&mut producer, &mut src, 101..=120);
    link.pump(&src);
    expect(&link.copy, 101..=120);
    assert_eq!(link.mirror.gaps(), 0);
}

#[test]
fn latest_mirror_skips_history_and_readers_skip_the_hole() {
    let (mut producer, mut src) = source(1024);
    push(&mut producer, &mut src, 1..=100);
    let mut link = connect(&src, Mirror::builder().start(MirrorStart::Latest), None, 256);
    assert_eq!(link.mirror.first_sequence(), 101);

    // Attached to an empty mirror: its cursor starts at 1, a sequence this ring never gets.
    let mut head = ReadHead {
        capacity: 1024,
        mask: 1023,
        cursor: 1,
        lapped_total: 0,
        multi_producer: false,
        sparse: true,
        empty_polls: 0,
    };
    push(&mut producer, &mut src, 101..=150);
    link.pump(&src);
    // The reader works on a view of the mirror whose payloads are the first words.
    let view = Ring {
        header: link.copy.header,
        len: link.copy.len,
        registry: None,
        slots: link
            .copy
            .slots
            .iter()
            .map(|s| ringfire::Slot {
                seq: s.seq,
                data: s.data.as_ref().map(|d| u64::from_le_bytes(d[..8].try_into().unwrap())),
            })
            .collect(),
    };
    let mut got = Vec::new();
    for _ in 0..200 {
        if let (Some(v), _) = head.poll(&view) {
            got.push(v);
            head.accept();
        }
    }
    assert_eq!(got, (101..=150).collect::<Vec<u64>>());
    assert_eq!(head.lapped_total, 100, "the hole 1..=100 is reported as skipped");
}

#[test]
fn resume_continues_after_reconnect_without_duplicates() {
    let (mut producer, mut src) = source(1024);
    let mut link = connect(&src, Mirror::builder().start(MirrorStart::Oldest), None, 256);
    push(&mut producer, &mut src, 1..=100);
    link.pump(&src);
    expect(&link.copy, 1..=100);
    assert_eq!(link.mirror.sequence(), 100);

    // Messages published while the mirror was down are recovered from the source ring.
    push(&mut producer, &mut src, 101..=200);
    let builder = Mirror::builder().start(MirrorStart::Resume);
    let mut link = connect(&src, builder, Some(link.copy), 256);
    assert!(link.mirror.resumed());
    assert_eq!(link.mirror.first_sequence(), 101);
    push(&mut producer, &mut src, 201..=250);
    link.pump(&src);
    expect(&link.copy, 101..=250);
    assert_eq!((link.mirror.sequence(), link.mirror.gaps()), (250, 0));
}

#[test]
fn resume_ahead_of_a_restarted_source_starts_over() {
    let (mut producer, mut src) = source(256);
    let mut link = connect(&src, Mirror::builder().start(MirrorStart::Oldest), None, 256);
    push(&mut producer, &mut src, 1..=50);
    link.pump(&src);
    expect(&link.copy, 1..=50);

    // The source ring is recreated from sequence 1: the mirror must not wait for 51.
    let (mut producer, mut src) = source(256);
    let builder = Mirror::builder().start(MirrorStart::Resume);
    let mut link = connect(&src, builder, Some(link.copy), 256);
    assert!(!link.mirror.resumed());
    assert_eq!(link.mirror.first_sequence(), 1);
    push(&mut producer, &mut src, 1..=20);
    link.pump(&src);
    expect(&link.copy, 1..=20);
}

#[test]
fn lapped_source_resynchronizes_without_torn_records() {
    // A tiny ring and a producer that never waits: the server-side reader is lapped
    // constantly. Every record the mirror delivers must still be intact and in order.
    let (mut producer, mut src) = source(16);
    let mut link = connect(&src, Mirror::builder().start(MirrorStart::Oldest), None, 256);
    let n = 200_000u64;
    let mut seq = 0;
    while seq < n {
        let burst = 1 + seq % 37;
        let to = (seq + burst).min(n);
        push(&mut producer, &mut src, seq + 1..=to);
        seq = to;
        link.pump(&src);
        expect(&link.copy, seq..=seq);
    }
    assert_eq!(link.mirror.sequence(), n);
    assert!(link.mirror.gaps() > 0);
    expect(&link.copy, n - 15..=n);
}

#[test]
fn a_mirror_can_be_served_again() {
    let (mut producer, mut src) = source(64);
    let mut hub = connect(&src, Mirror::builder().start(MirrorStart::Oldest), None, 16);
    push(&mut producer, &mut src, 1..=40);
    hub.pump(&src);
    let mut leaf = connect(&hub.copy, Mirror::builder().start(MirrorStart::Oldest), None, 16);
    leaf.pump(&hub.copy);
    expect(&leaf.copy, 1..=40);
}

#[test]
fn frames_and_geometries_survive_the_wire() {
    let f = Frame { kind: 3, flags: 1, count: 513, len: 77, seq: 0x0102_0304_0506_0708 };
    let bytes = f.encode();
    assert_eq!(bytes, vec![3, 1, 1, 2, 77, 0, 0, 0, 8, 7, 6, 5, 4, 3, 2, 1]);
    assert_eq!(Frame::decode(&bytes), f);
    let g = Geometry {
        capacity: 8,
        element_size: 32,
        flags: 5,
        schema_sig: 9,
        registry_count: 2,
        slots_offset: 256,
    };
    assert_eq!(Geometry::decode(&g.encode()).unwrap(), g);
    assert_eq!(g.payload_len(), 24);
    assert!(g.same_layout(&Geometry { flags: 0, ..g }));
    assert!(!g.same_layout(&Geometry { capacity: 16, ..g }));
}

#[test]
fn bad_geometries_are_refused() {
    let g = Geometry {
        capacity: 8,
        element_size: 32,
        flags: 0,
        schema_sig: 0,
        registry_count: 0,
        slots_offset: 128,
    };
    let why = |g: Geometry| match Geometry::decode(&g.encode()) {
        Err(RingfireError::Protocol(w)) => w,
        other => panic!("{:?}", other),
    };
    assert_eq!(why(Geometry { capacity: 9, ..g }), "geometry capacity is not a power of two");
    assert_eq!(
        why(Geometry { element_size: 12, ..g }),
        "geometry element size is not a multiple of 8"
    );
    assert_eq!(
        why(Geometry { element_size: 0, ..g }),
        "geometry element size is not a multiple of 8"
    );
    assert_eq!(why(Geometry { slots_offset: 64, ..g }), "geometry slots offset is misplaced");
    assert_eq!(why(Geometry { registry_count: 1, ..g }), "geometry slots offset is misplaced");
    assert_eq!(why(Geometry { capacity: 1 << 63, ..g }), "geometry does not fit in memory");
}

#[test]
fn handshake_errors() {
    let hello = hello_bytes(7);
    assert_eq!(hello.len(), 32);
    assert_eq!(hello_header(&hello[..16]).unwrap(), 7);
    let other = Frame::control(KIND_GAP, 7).encode();
    assert!(matches!(hello_header(&other), Err(RingfireError::Protocol("expected HELLO"))));
    let mut body = hello[16..].to_vec();
    body[8] = 2;
    assert!(matches!(
        hello_body(&body),
        Err(RingfireError::Protocol("unsupported replication protocol version"))
    ));
    body[0] = 0;
    assert!(matches!(hello_body(&body), Err(RingfireError::Protocol("bad HELLO magic"))));
    assert!(matches!(
        MirrorBuilder::geometry_header(&other),
        Err(RingfireError::Protocol("expected GEOMETRY"))
    ));
    let frame = Frame { kind: KIND_GEOMETRY, flags: 0, count: 0, len: 32, seq: 1 };
    assert_eq!(MirrorBuilder::geometry_header(&frame.encode()).unwrap(), frame);
    assert!(MirrorBuilder::new().connect(&frame, &[0u8; GEOMETRY_LEN], None).is_err());
}

#[test]
fn sources_choose_where_to_start() {
    assert_eq!(start_position(HELLO_LATEST, 100, 64), (101, 0));
    assert_eq!(start_position(HELLO_OLDEST, 100, 64), (37, 0));
    assert_eq!(start_position(50, 100, 64), (50, 0));
    assert_eq!(start_position(5, 100, 64), (37, 0));
    assert_eq!(start_position(101, 100, 64), (101, 0));
    assert_eq!(start_position(102, 100, 64), (101, GEOMETRY_RESET));
}

#[test]
fn mirrors_choose_what_to_ask_for() {
    assert_eq!(MirrorBuilder::new().wanted(&None), HELLO_LATEST);
    assert_eq!(MirrorBuilder::new().start(MirrorStart::Oldest).wanted(&None), HELLO_OLDEST);
    assert_eq!(MirrorBuilder::new().start(MirrorStart::Resume).wanted(&None), HELLO_OLDEST);
    assert_eq!(MirrorBuilder::new().start(MirrorStart::Sequence(0)).wanted(&None), 1);
    assert_eq!(MirrorBuilder::new().start(MirrorStart::Sequence(9)).wanted(&None), 9);
    let b = MirrorBuilder::default().spin(true).file_mode(0o600);
    assert!(b.spin);
    assert_eq!(b.file_mode, 0o600);
    assert_eq!(MirrorStart::default(), MirrorStart::Latest);
}

#[test]
fn arena_rings_are_not_mirrored() {
    let (_producer, mut ring) = source(8);
    ring.header.flags |= FLAG_WITH_ARENA;
    assert!(matches!(
        open_source(&ring.header, ring.len),
        Err(RingfireError::Unsupported("rings with a payload arena cannot be mirrored"))
    ));
    assert!(adopt(&ring.header, ring.len).is_none());
    ring.header.flags = 0;
    assert!(open_source(&ring.header, 10).is_err());
    assert!(adopt(&ring.header, 10).is_none());
    assert_eq!(adopt(&ring.header, ring.len).unwrap().next_seq, 1);
}

#[test]
fn mirrors_check_their_frames() {
    let (_producer, src) = source(8);
    let mut link = connect(&src, Mirror::builder().start(MirrorStart::Oldest), None, 4);
    let bad = Frame { kind: KIND_DATA, flags: 0, count: 2, len: 47, seq: 1 };
    assert!(matches!(
        link.mirror.step(&bad),
        Err(RingfireError::Protocol("DATA length does not match its record count"))
    ));
    let none = Frame { kind: KIND_DATA, flags: 0, count: 0, len: 0, seq: 1 };
    assert!(link.mirror.step(&none).is_err());
    assert!(matches!(
        link.mirror.step(&Frame::control(9, 1)),
        Err(RingfireError::Protocol("unexpected frame kind"))
    ));
    assert_eq!(link.mirror.step(&Frame::control(KIND_HEARTBEAT, 70)).unwrap(), MirrorAction::Next);
    assert_eq!(link.mirror.source_sequence(), 70);
    assert_eq!(link.mirror.step(&Frame::control(KIND_GAP, 5)).unwrap(), MirrorAction::Next);
    assert_eq!((link.mirror.sequence(), link.mirror.gaps()), (4, 1));
    assert_eq!(link.mirror.step(&Frame::control(KIND_GAP, 3)).unwrap(), MirrorAction::Next);
    assert_eq!((link.mirror.sequence(), link.mirror.gaps()), (4, 1));
    assert_eq!(link.mirror.frames(), 6);
}

#[test]
fn a_source_that_restarts_replaces_the_ring() {
    let (mut producer, mut src) = source(8);
    let mut link = connect(&src, Mirror::builder().start(MirrorStart::Oldest), None, 4);
    push(&mut producer, &mut src, 1..=6);
    link.pump(&src);
    let mut bytes =
        Frame { kind: KIND_DATA, flags: 0, count: 1, len: 24, seq: 2 }.encode();
    bytes.extend_from_slice(&nth(2));
    link.deliver(&bytes);
    assert_eq!((link.mirror.sequence(), link.mirror.gaps()), (2, 1));
    expect(&link.copy, 2..=2);
    assert!(matches!(read_record(&link.copy, 6), RawRead::Pending));
    assert_eq!(link.copy.slots.iter().filter(|s| s.seq != 0).count(), 1);
}

#[test]
fn idle_sources_back_off_and_beat() {
    let (_producer, src) = source(8);
    let (mut session, _) = ServeSession::open(&geometry_of(&src), 0, 0, 0, false, 1_000);
    assert_eq!(session.batch, 1);
    let mut pauses = Vec::new();
    for _ in 0..4_001 {
        pauses.push(session.pause());
    }
    assert_eq!(pauses[0], ServePause::Spin);
    assert_eq!(pauses[1_998], ServePause::Spin);
    assert_eq!(pauses[1_999], ServePause::Yield);
    assert_eq!(pauses[3_999], ServePause::Sleep { micros: 50 });
    assert!(session.heartbeat(200_000_999, 5).is_none());
    let beat = session.heartbeat(200_001_000, 5).unwrap();
    assert_eq!(Frame::decode(&beat), Frame::control(KIND_HEARTBEAT, 5));
    assert!(session.heartbeat(200_001_001, 5).is_none());
}

#[test]
fn server_settings() {
    let s = ReplicaServer::new("/dev/shm/x".to_string());
    assert_eq!((s.batch, s.spin), (256, false));
    let s = s.batch(0).spin(true);
    assert_eq!((s.batch, s.spin), (1, true));
    assert_eq!(s.batch(1 << 20).batch, 65535);
    assert_eq!(ReplicaServer::new("p".to_string()).ring_path(), "p");
}

#[test]
fn mirror_rings_are_valid_rings() {
    let (_producer, src) = source(8);
    let ring = create_mirror_ring(&Geometry { registry_count: 3, slots_offset: 320, ..geometry_of(&src) });
    let view = validate_header(&ring.header, ring.len, Some(32), 8).unwrap();
    assert_eq!((view.capacity, view.slot_size, view.slots_offset), (8, 32, 320));
    assert_eq!(ring.registry.unwrap().slots.len(), 3);
    assert_eq!(probe(ring.slots[0].seq, 1), SlotProbe::Pending);
}

#[test]
fn batches_stay_within_what_a_frame_counts() {
    let geometry = Geometry { element_size: 0x1000_0008, ..geometry_of(&source(8).1) };
    let (session, _) = ServeSession::open(&geometry, 0, 0, 256, false, 0);
    assert_eq!((session.payload_len, session.batch), (0x1000_0000, 15));
    let geometry = Geometry { element_size: u32::MAX, ..geometry };
    let (session, _) = ServeSession::open(&geometry, 0, 0, 256, false, 0);
    assert_eq!(session.batch, 1);
    let (session, _) = ServeSession::open(&geometry_of(&source(8).1), 0, 0, 256, false, 0);
    assert_eq!(session.batch, 256);
}
