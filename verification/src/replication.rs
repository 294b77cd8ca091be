//! # Ring replication over the network
//!
//! Mirrors a ring published on one host (the *source*) into rings with the same geometry
//! and the same sequence numbers on other hosts (*mirrors*). A mirror is an ordinary ring:
//! local readers attach exactly as they would on the source host, and never touch the
//! network themselves.
//!
//! * Records travel as raw slot payloads tagged with the source's sequence numbers, so a
//!   message keeps the same sequence number on every host.
//! * Delivery is in order and gap-free while the server-side reader keeps up with the
//!   source ring. If it is lapped, it resynchronizes at the oldest retained message and the
//!   mirror receives a `GAP`. Local readers then observe a lapping, just as a slow reader on
//!   the source host would.
//! * A mirror ring is a single-writer broadcast ring whose sequence numbers may have holes:
//!   the mirror writer never waits for local readers.
//! * Rings with a payload arena are not supported.
//!
//! ## Wire protocol (version 1)
//!
//! Little-endian. Every frame starts with a 16-byte header:
//!
//! ```text
//! kind u8 | flags u8 | count u16 | len u32 | seq u64 | payload[len]
//! ```
//!
//! | kind | direction | `seq` | payload |
//! |---|---|---|---|
//! | `HELLO` 1 | mirror to source | first wanted sequence: `0` = only new messages, `u64::MAX` = oldest retained, otherwise resume from there | magic u64, version u32, pad u32 |
//! | `GEOMETRY` 2 | source to mirror | first sequence that will be sent; flag bit 0 = the wanted sequence was ahead of the source (restart) | capacity u64, element_size u32, flags u32, schema_sig u64, registry_count u32, slots_offset u32 |
//! | `DATA` 3 | source to mirror | sequence of the first record | `count` records of `element_size - 8` bytes |
//! | `GAP` 4 | source to mirror | next sequence that will be sent | none |
//! | `HEARTBEAT` 5 | source to mirror | last sequence published by the source | none |
//!
//! `HEARTBEAT` is sent while the ring is idle so a mirror can tell a quiet source from a
//! dead link.
//!
//! The sockets are the caller's: the functions here take and give bytes.
use crate::bytes::{
    bytes16, bytes32, bytes64, le16, le32, le64, push_u16, push_u32, push_u64, read_u16, read_u32,
    read_u64,
};
use crate::error::RingfireError;
use crate::header::{
    fresh_header, valid_header, validate_header, RingHeader, RingLayout, RingView, Slot,
    FLAG_MODE_SPMC, FLAG_POLICY_LATEST_WINS, FLAG_SPARSE, FLAG_WITH_ARENA, FLAG_WITH_REGISTRY,
    READER_SLOT_SIZE, RINGFIRE_MAGIC, RING_HEADER_SIZE, SLOT_WRITING,
};
use crate::math::{is_pow2, larger, lemma_distinct_slots, lemma_mask_is_mod, max_of};
use crate::registry::{blank, ReaderRegistry};
use crate::ring::{oldest_of, oldest_retained, slot_ok, Ring, LAST_SEQ};
use crate::slot::{probe, probe_spec, SlotProbe};
use crate::spmc::{empty_slots, published_header, wake_for};
use crate::wait::wake_futex;
use vstd::bytes::{
    lemma_auto_spec_u16_to_from_le_bytes, lemma_auto_spec_u32_to_from_le_bytes,
    lemma_auto_spec_u64_to_from_le_bytes,
};
use vstd::arithmetic::div_mod::lemma_fundamental_div_mod;
use vstd::prelude::*;
use vstd::slice::{slice_subrange, slice_to_vec};

verus! {

/// Magic carried by `HELLO` ("RINGMIRR").
pub const REPLICATION_MAGIC: u64 = 0x5249_4E47_4D49_5252;

/// Wire protocol version.
pub const REPLICATION_VERSION: u32 = 1;

/// `HELLO` sequence asking for new messages only.
pub const HELLO_LATEST: u64 = 0;

/// `HELLO` sequence asking for everything the source still retains.
pub const HELLO_OLDEST: u64 = 0xFFFF_FFFF_FFFF_FFFF;

pub const FRAME_HEADER_LEN: usize = 16;

pub const HELLO_LEN: usize = 16;

pub const GEOMETRY_LEN: usize = 32;

pub const KIND_HELLO: u8 = 1;

pub const KIND_GEOMETRY: u8 = 2;

pub const KIND_DATA: u8 = 3;

pub const KIND_GAP: u8 = 4;

pub const KIND_HEARTBEAT: u8 = 5;

/// `GEOMETRY` flag: the mirror asked for a sequence the source has not reached.
pub const GEOMETRY_RESET: u8 = 0x01;

/// Pause between heartbeats of an idle source, in nanoseconds.
pub const HEARTBEAT_INTERVAL_NS: u64 = 200_000_000;

pub const DEFAULT_BATCH: usize = 256;

/// Most records in one `DATA` frame.
pub const MAX_BATCH: usize = 65535;

/// Geometry of a ring as exchanged during the handshake: everything a mirror needs to
/// create an identical ring.
#[derive(Debug, Clone, Copy, PartialEq, Eq, Structural)]
pub struct Geometry {
    pub capacity: u64,
    pub element_size: u32,
    pub flags: u32,
    pub schema_sig: u64,
    pub registry_count: u32,
    pub slots_offset: u32,
}

/// The geometry that 32 bytes spell out.
pub open spec fn geometry_at(s: Seq<u8>) -> Geometry {
    Geometry {
        capacity: le64(s, 0),
        element_size: le32(s, 8),
        flags: le32(s, 12),
        schema_sig: le64(s, 16),
        registry_count: le32(s, 24),
        slots_offset: le32(s, 28),
    }
}

impl Geometry {
    /// The 32 bytes of this geometry.
    pub open spec fn image(self) -> Seq<u8> {
        bytes64(self.capacity) + bytes32(self.element_size) + bytes32(self.flags) + bytes64(
            self.schema_sig,
        ) + bytes32(self.registry_count) + bytes32(self.slots_offset)
    }

    /// The slots lie behind the header and the registry.
    pub open spec fn placed(self) -> bool {
        self.slots_offset >= RING_HEADER_SIZE + self.registry_count * READER_SLOT_SIZE
            && self.slots_offset % 64 == 0
    }

    /// Slots are whole words.
    pub open spec fn sized(self) -> bool {
        self.element_size >= 8 && self.element_size % 8 == 0
    }

    /// Bytes of a ring of this geometry.
    pub open spec fn total(self) -> int {
        self.capacity * self.element_size + self.slots_offset
    }

    /// A ring of this geometry can be created.
    pub open spec fn valid(self) -> bool {
        &&& is_pow2(self.capacity as nat)
        &&& self.sized()
        &&& self.placed()
        &&& self.total() <= usize::MAX
    }

    /// What refuses a geometry that is not valid.
    pub open spec fn refusal(self, e: RingfireError) -> bool {
        e matches RingfireError::Protocol(w) && w@ == (if !is_pow2(self.capacity as nat) {
            "geometry capacity is not a power of two"@
        } else if !self.sized() {
            "geometry element size is not a multiple of 8"@
        } else if !self.placed() {
            "geometry slots offset is misplaced"@
        } else {
            "geometry does not fit in memory"@
        })
    }

    /// Rings of the two geometries have the same slots.
    pub open spec fn same_slots(self, other: Geometry) -> bool {
        &&& self.capacity == other.capacity
        &&& self.element_size == other.element_size
        &&& self.schema_sig == other.schema_sig
        &&& self.registry_count == other.registry_count
        &&& self.slots_offset == other.slots_offset
    }

    /// Flags of a mirror of this geometry.
    pub open spec fn flags_of_mirror(self) -> u32 {
        FLAG_MODE_SPMC | FLAG_POLICY_LATEST_WINS | FLAG_SPARSE | (if self.registry_count > 0 {
            FLAG_WITH_REGISTRY
        } else {
            0
        })
    }

    /// The geometry of a ring.
    pub open spec fn of(h: RingHeader, v: RingView) -> Geometry {
        Geometry {
            capacity: v.capacity,
            element_size: v.slot_size as u32,
            flags: h.flags,
            schema_sig: h.schema_sig,
            registry_count: h.reader_registry_count,
            slots_offset: v.slots_offset as u32,
        }
    }

    /// The geometry of a ring.
    pub fn from_header(header: &RingHeader, view: &RingView) -> (g: Self)
        ensures
            g == Self::of(*header, *view),
    {
        Geometry {
            capacity: view.capacity,
            element_size: view.slot_size as u32,
            flags: header.flags,
            schema_sig: header.schema_sig,
            registry_count: header.reader_registry_count,
            slots_offset: view.slots_offset as u32,
        }
    }

    /// Bytes of payload per record (the slot minus its sequence word).
    pub fn payload_len(&self) -> (n: usize)
        requires
            self.element_size >= 8,
        ensures
            n == self.element_size - 8,
    {
        self.element_size as usize - 8
    }

    /// Same slot layout: a ring with this layout can hold this geometry's records.
    pub fn same_layout(&self, other: &Geometry) -> (r: bool)
        ensures
            r == self.same_slots(*other),
    {
        self.capacity == other.capacity && self.element_size == other.element_size
            && self.schema_sig == other.schema_sig && self.registry_count == other.registry_count
            && self.slots_offset == other.slots_offset
    }

    /// Flags of a mirror of this geometry.
    pub fn mirror_flags(&self) -> (r: u32)
        ensures
            r == self.flags_of_mirror(),
    {
        FLAG_MODE_SPMC | FLAG_POLICY_LATEST_WINS | FLAG_SPARSE | if self.registry_count > 0 {
            FLAG_WITH_REGISTRY
        } else {
            0
        }
    }

    /// The 32 bytes of this geometry.
    pub fn encode(&self) -> (out: Vec<u8>)
        ensures
            out@ == self.image(),
            out@.len() == GEOMETRY_LEN,
    {
        let mut out: Vec<u8> = Vec::new();
        push_u64(&mut out, self.capacity);
        push_u32(&mut out, self.element_size);
        push_u32(&mut out, self.flags);
        push_u64(&mut out, self.schema_sig);
        push_u32(&mut out, self.registry_count);
        push_u32(&mut out, self.slots_offset);
        proof {
            lemma_geometry_round_trip(*self);
        }
        out
    }

    /// Reads a geometry from its 32 bytes and checks that a ring of it can be created.
    pub fn decode(b: &[u8]) -> (r: Result<Self, RingfireError>)
        requires
            b@.len() == GEOMETRY_LEN,
        ensures
            r is Ok <==> geometry_at(b@).valid(),
            match r {
                Ok(g) => g == geometry_at(b@),
                Err(e) => geometry_at(b@).refusal(e),
            },
    {
        let g = Geometry {
            capacity: read_u64(b, 0),
            element_size: read_u32(b, 8),
            flags: read_u32(b, 12),
            schema_sig: read_u64(b, 16),
            registry_count: read_u32(b, 24),
            slots_offset: read_u32(b, 28),
        };
        if !g.capacity.is_power_of_two() {
            return Err(RingfireError::Protocol("geometry capacity is not a power of two"));
        }
        if g.element_size < 8 || g.element_size % 8 != 0 {
            return Err(RingfireError::Protocol("geometry element size is not a multiple of 8"));
        }
        let registry_size: u64 = g.registry_count as u64 * 64;
        let min_offset: u64 = 128 + registry_size;
        if (g.slots_offset as u64) < min_offset || g.slots_offset % 64 != 0 {
            return Err(RingfireError::Protocol("geometry slots offset is misplaced"));
        }
        proof {
            assert(g.capacity * g.element_size <= u64::MAX * u32::MAX) by (nonlinear_arith)
                requires
                    g.capacity <= u64::MAX,
                    g.element_size <= u32::MAX,
            ;
        }
        let total: u128 = g.capacity as u128 * g.element_size as u128 + g.slots_offset as u128;
        if total > usize::MAX as u128 {
            return Err(RingfireError::Protocol("geometry does not fit in memory"));
        }
        Ok(g)
    }
}

/// Reading back the bytes of a geometry gives that geometry.
pub proof fn lemma_geometry_round_trip(g: Geometry)
    ensures
        g.image().len() == GEOMETRY_LEN,
        geometry_at(g.image()) == g,
{
    lemma_auto_spec_u32_to_from_le_bytes();
    lemma_auto_spec_u64_to_from_le_bytes();
    let s = g.image();
    assert(s.subrange(0, 8) =~= bytes64(g.capacity));
    assert(s.subrange(8, 12) =~= bytes32(g.element_size));
    assert(s.subrange(12, 16) =~= bytes32(g.flags));
    assert(s.subrange(16, 24) =~= bytes64(g.schema_sig));
    assert(s.subrange(24, 28) =~= bytes32(g.registry_count));
    assert(s.subrange(28, 32) =~= bytes32(g.slots_offset));
}

/// Header of a frame.
#[derive(Debug, Clone, Copy, PartialEq, Eq, Structural)]
pub struct Frame {
    pub kind: u8,
    pub flags: u8,
    pub count: u16,
    pub len: u32,
    pub seq: u64,
}

/// The frame header that 16 bytes spell out.
pub open spec fn frame_at(s: Seq<u8>) -> Frame {
    Frame { kind: s[0], flags: s[1], count: le16(s, 2), len: le32(s, 4), seq: le64(s, 8) }
}

/// A frame without payload.
pub open spec fn control_frame(kind: u8, seq: u64) -> Frame {
    Frame { kind, flags: 0, count: 0, len: 0, seq }
}

impl Frame {
    /// The 16 bytes of this header.
    pub open spec fn image(self) -> Seq<u8> {
        seq![self.kind, self.flags] + bytes16(self.count) + bytes32(self.len) + bytes64(self.seq)
    }

    /// A frame without payload.
    pub fn control(kind: u8, seq: u64) -> (f: Self)
        ensures
            f == control_frame(kind, seq),
    {
        Frame { kind, flags: 0, count: 0, len: 0, seq }
    }

    /// The 16 bytes of this header.
    pub fn encode(&self) -> (out: Vec<u8>)
        ensures
            out@ == self.image(),
            out@.len() == FRAME_HEADER_LEN,
    {
        let mut out: Vec<u8> = Vec::new();
        out.push(self.kind);
        out.push(self.flags);
        assert(out@ =~= seq![self.kind, self.flags]);
        push_u16(&mut out, self.count);
        push_u32(&mut out, self.len);
        push_u64(&mut out, self.seq);
        proof {
            lemma_frame_round_trip(*self);
        }
        out
    }

    /// Reads a header from its 16 bytes.
    pub fn decode(b: &[u8]) -> (f: Self)
        requires
            b@.len() >= FRAME_HEADER_LEN,
        ensures
            f == frame_at(b@),
    {
        Frame {
            kind: b[0],
            flags: b[1],
            count: read_u16(b, 2),
            len: read_u32(b, 4),
            seq: read_u64(b, 8),
        }
    }
}

/// Reading back the bytes of a frame header gives that header.
pub proof fn lemma_frame_round_trip(f: Frame)
    ensures
        f.image().len() == FRAME_HEADER_LEN,
        frame_at(f.image()) == f,
{
    lemma_auto_spec_u16_to_from_le_bytes();
    lemma_auto_spec_u32_to_from_le_bytes();
    lemma_auto_spec_u64_to_from_le_bytes();
    let s = f.image();
    assert(s.subrange(2, 4) =~= bytes16(f.count));
    assert(s.subrange(4, 8) =~= bytes32(f.len));
    assert(s.subrange(8, 16) =~= bytes64(f.seq));
}

// ---------------------------------------------------------------------------------------
// Handshake
// ---------------------------------------------------------------------------------------

/// The `HELLO` of a mirror that wants to start at `wanted`.
pub open spec fn hello_image(wanted: u64) -> Seq<u8> {
    Frame { kind: KIND_HELLO, flags: 0, count: 0, len: 16, seq: wanted }.image() + bytes64(
        REPLICATION_MAGIC,
    ) + bytes32(REPLICATION_VERSION) + bytes32(0)
}

/// The `HELLO` of a mirror that wants to start at `wanted`.
pub fn hello_bytes(wanted: u64) -> (out: Vec<u8>)
    ensures
        out@ == hello_image(wanted),
{
    let frame = Frame { kind: KIND_HELLO, flags: 0, count: 0, len: HELLO_LEN as u32, seq: wanted };
    let mut out = frame.encode();
    push_u64(&mut out, REPLICATION_MAGIC);
    push_u32(&mut out, REPLICATION_VERSION);
    push_u32(&mut out, 0);
    out
}

/// Checks the header of a mirror's first frame. Returns the sequence that it wants.
pub fn hello_header(hdr: &[u8]) -> (r: Result<u64, RingfireError>)
    requires
        hdr@.len() == FRAME_HEADER_LEN,
    ensures
        ({
            let f = frame_at(hdr@);
            match r {
                Ok(wanted) => f.kind == KIND_HELLO && f.len == HELLO_LEN && wanted == f.seq,
                Err(e) => (f.kind != KIND_HELLO || f.len != HELLO_LEN) && (
                e matches RingfireError::Protocol(w) && w@ == "expected HELLO"@),
            }
        }),
{
    let hello = Frame::decode(hdr);
    if hello.kind != KIND_HELLO || hello.len as usize != HELLO_LEN {
        return Err(RingfireError::Protocol("expected HELLO"));
    }
    Ok(hello.seq)
}

/// Checks the payload of a `HELLO`.
pub fn hello_body(body: &[u8]) -> (r: Result<(), RingfireError>)
    requires
        body@.len() == HELLO_LEN,
    ensures
        r is Ok <==> le64(body@, 0) == REPLICATION_MAGIC && le32(body@, 8) == REPLICATION_VERSION,
        r matches Err(e) ==> (e matches RingfireError::Protocol(w) && w@ == (if le64(body@, 0)
            != REPLICATION_MAGIC {
            "bad HELLO magic"@
        } else {
            "unsupported replication protocol version"@
        })),
{
    if read_u64(body, 0) != REPLICATION_MAGIC {
        return Err(RingfireError::Protocol("bad HELLO magic"));
    }
    if read_u32(body, 8) != REPLICATION_VERSION {
        return Err(RingfireError::Protocol("unsupported replication protocol version"));
    }
    Ok(())
}

/// A source accepts the `HELLO` that a mirror sends, and learns what it wants.
pub proof fn lemma_hello_accepted(wanted: u64)
    ensures
        ({
            let s = hello_image(wanted);
            let hdr = s.subrange(0, 16);
            let body = s.subrange(16, 32);
            &&& s.len() == 32
            &&& frame_at(hdr).kind == KIND_HELLO
            &&& frame_at(hdr).len == HELLO_LEN
            &&& frame_at(hdr).seq == wanted
            &&& le64(body, 0) == REPLICATION_MAGIC
            &&& le32(body, 8) == REPLICATION_VERSION
        }),
{
    lemma_auto_spec_u32_to_from_le_bytes();
    lemma_auto_spec_u64_to_from_le_bytes();
    let f = Frame { kind: KIND_HELLO, flags: 0, count: 0, len: 16, seq: wanted };
    lemma_frame_round_trip(f);
    let s = hello_image(wanted);
    let hdr = s.subrange(0, 16);
    let body = s.subrange(16, 32);
    assert(hdr =~= f.image());
    assert(body.subrange(0, 8) =~= bytes64(REPLICATION_MAGIC));
    assert(body.subrange(8, 12) =~= bytes32(REPLICATION_VERSION));
}

/// The first sequence that a source sends to a mirror that wants `wanted`, and the flags of
/// its `GEOMETRY`.
pub open spec fn serve_from(wanted: u64, write_seq: u64, capacity: u64) -> (u64, u8) {
    let oldest = oldest_of(write_seq, capacity);
    if wanted == HELLO_LATEST {
        ((write_seq + 1) as u64, 0)
    } else if wanted == HELLO_OLDEST {
        (oldest, 0)
    } else if wanted > write_seq + 1 {
        ((write_seq + 1) as u64, GEOMETRY_RESET)
    } else {
        (max_of(wanted, oldest), 0)
    }
}

/// The first sequence that a source sends to a mirror that wants `wanted`, and the flags of
/// its `GEOMETRY`.
pub fn start_position(wanted: u64, write_seq: u64, capacity: u64) -> (r: (u64, u8))
    requires
        capacity > 0,
        write_seq <= LAST_SEQ,
    ensures
        r == serve_from(wanted, write_seq, capacity),
        1 <= r.0 <= write_seq + 1,
        r.0 >= oldest_of(write_seq, capacity),
{
    let oldest: u64 = oldest_retained(write_seq, capacity);
    if wanted == HELLO_LATEST {
        (write_seq + 1, 0)
    } else if wanted == HELLO_OLDEST {
        (oldest, 0)
    } else if wanted > write_seq + 1 {
        (write_seq + 1, GEOMETRY_RESET)
    } else {
        (larger(wanted, oldest), 0)
    }
}

/// Validates a ring to be mirrored and returns its geometry.
pub fn open_source(header: &RingHeader, len: usize) -> (r: Result<
    (RingView, Geometry),
    RingfireError,
>)
    ensures
        r is Ok <==> valid_header(*header, len as int, None, 8) && !header.has(FLAG_WITH_ARENA),
        match r {
            Ok((v, g)) => v == crate::header::view_of(*header) && g == Geometry::of(*header, v),
            Err(e) => if !valid_header(*header, len as int, None, 8) {
                crate::header::header_refusal(*header, len as int, None, 8, e)
            } else {
                e matches RingfireError::Unsupported(w) && w@
                    == "rings with a payload arena cannot be mirrored"@
            },
        },
{
    let view = match validate_header(header, len, None, 8) {
        Ok(v) => v,
        Err(e) => return Err(e),
    };
    if header.flags & FLAG_WITH_ARENA != 0 {
        return Err(
            RingfireError::Unsupported("rings with a payload arena cannot be mirrored"),
        );
    }
    Ok((view, Geometry::from_header(header, &view)))
}

// ---------------------------------------------------------------------------------------
// Source side
// ---------------------------------------------------------------------------------------

/// What came of reading one record of the source ring.
#[derive(Debug)]
pub enum RawRead {
    /// The record's payload, copied without interference.
    Item(Vec<u8>),
    /// The record is not published yet.
    Pending,
    /// The record was overwritten; carries the newer sequence observed (0 if unknown).
    Overwritten(u64),
}

/// Payload of message `n` of a ring of raw records.
pub open spec fn payload_of(ring: &Ring<Vec<u8>>, n: u64) -> Seq<u8> {
    ring.message(n)@
}

/// Every record of the ring has `len` bytes.
pub open spec fn records_sized(ring: &Ring<Vec<u8>>, len: int) -> bool {
    forall|i: int|
        0 <= i < ring.slots@.len() && (#[trigger] ring.slots@[i]).data is Some
            ==> ring.slots@[i].data->0@.len() == len
}

/// Reads record `want` of a source ring that nobody is writing to.
pub fn read_record(ring: &Ring<Vec<u8>>, want: u64) -> (r: RawRead)
    requires
        ring.wf(),
        1 <= want < SLOT_WRITING,
    ensures
        match r {
            RawRead::Item(p) => ring.present(want) && p@ == payload_of(ring, want),
            RawRead::Pending => probe_spec(ring.word(want), want) is Pending,
            RawRead::Overwritten(seen) => probe_spec(ring.word(want), want)
                == SlotProbe::Overwritten(seen),
        },
{
    let i: usize = ring.slot_index(want);
    assert(slot_ok(ring.slots@[i as int], i as int, ring.header.capacity));
    match probe(ring.slots[i].seq, want) {
        SlotProbe::Copy => match &ring.slots[i].data {
            Some(p) => RawRead::Item(slice_to_vec(p.as_slice())),
            None => RawRead::Pending,
        },
        SlotProbe::Pending => RawRead::Pending,
        SlotProbe::Overwritten(seen) => RawRead::Overwritten(seen),
    }
}

/// How a source with nothing to send passes the time.
#[derive(Debug, Clone, Copy, PartialEq, Eq, Structural)]
pub enum ServePause {
    /// Hint the processor that this is a spin loop.
    Spin,
    /// Give the rest of the time slice to another thread.
    Yield,
    /// Sleep that long.
    Sleep { micros: u64 },
}

/// The source side of one mirror's connection, after the handshake.
///
/// The caller works in turns. It reads records from [`ServeSession::wanted`] on and hands
/// each outcome to [`ServeSession::record`] until that returns false; sends what
/// [`ServeSession::data`] gives; if the session was lapped, sends what
/// [`ServeSession::resync`] gives and starts the next turn; if nothing was read, pauses as
/// [`ServeSession::pause`] says and sends what [`ServeSession::heartbeat`] gives.
#[derive(Debug)]
pub struct ServeSession {
    pub capacity: u64,
    pub payload_len: usize,
    /// Next sequence to send
    pub cursor: u64,
    pub batch: usize,
    pub spin: bool,
    pub idle: u32,
    pub last_beat_ns: u64,
    /// Records collected in this turn
    pub count: usize,
    pub records: Vec<u8>,
    /// A newer sequence observed where the next record should have been
    pub lapped: Option<u64>,
}

/// A batch size within the protocol's limits.
pub open spec fn batch_size(batch: usize) -> usize {
    if batch < 1 {
        1
    } else if batch > MAX_BATCH {
        MAX_BATCH
    } else {
        batch
    }
}

/// A batch size within the protocol's limits.
pub fn clamp_batch(batch: usize) -> (r: usize)
    ensures
        r == batch_size(batch),
{
    if batch < 1 {
        1
    } else if batch > MAX_BATCH {
        MAX_BATCH
    } else {
        batch
    }
}

/// How many records of `len` bytes a frame takes at most: their bytes are counted in 32 bits.
pub open spec fn frame_room(len: int) -> int {
    if len <= 0 {
        MAX_BATCH as int
    } else {
        u32::MAX as int / len
    }
}

/// The batch size of a session that sends records of `len` bytes.
pub open spec fn session_batch(batch: usize, len: int) -> int {
    if batch_size(batch) <= frame_room(len) {
        batch_size(batch) as int
    } else {
        frame_room(len)
    }
}

/// The batch size of a session that sends records of `len` bytes: as many as asked for, as
/// far as they fit a frame.
pub fn clamp_session_batch(batch: usize, len: u32) -> (r: usize)
    ensures
        r == session_batch(batch, len as int),
        1 <= r <= MAX_BATCH,
        r * len <= u32::MAX,
{
    let asked: usize = clamp_batch(batch);
    if len == 0 {
        assert(asked * len == 0) by (nonlinear_arith)
            requires
                len == 0,
        ;
        return asked;
    }
    let room: u32 = u32::MAX / len;
    proof {
        lemma_fundamental_div_mod(u32::MAX as int, len as int);
        let rest = u32::MAX as int % len as int;
        assert(room * len <= u32::MAX) by (nonlinear_arith)
            requires
                u32::MAX == len * room + rest,
                rest >= 0,
        ;
        assert(room >= 1) by (nonlinear_arith)
            requires
                u32::MAX == len * room + rest,
                0 <= rest < len,
                len <= u32::MAX,
        ;
    }
    if asked as u64 <= room as u64 {
        assert(asked * len <= room * len) by (nonlinear_arith)
            requires
                asked <= room,
                0 <= len,
        ;
        asked
    } else {
        room as usize
    }
}

/// Record `i` of a batch of records of `len` bytes.
pub open spec fn record_at(records: Seq<u8>, len: int, i: int) -> Seq<u8> {
    records.subrange(i * len, i * len + len)
}

/// The ring holds record `i` of a batch that starts at `first`, under its number.
pub open spec fn carries(
    ring: &Ring<Vec<u8>>,
    records: Seq<u8>,
    len: int,
    first: u64,
    i: int,
) -> bool {
    let n = (first + i) as u64;
    ring.word(n) == n && payload_of(ring, n) == record_at(records, len, i)
}

/// The first `count` records of a batch that starts at `first` are messages of the ring.
pub open spec fn collected(
    ring: &Ring<Vec<u8>>,
    records: Seq<u8>,
    len: int,
    first: u64,
    count: int,
) -> bool {
    forall|i: int| 0 <= i < count ==> #[trigger] carries(ring, records, len, first, i)
}

proof fn lemma_record_bounds(len: int, i: int, count: int)
    requires
        0 <= len,
        0 <= i < count,
    ensures
        0 <= i * len,
        i * len + len <= count * len,
{
    assert(0 <= i * len) by (nonlinear_arith)
        requires
            0 <= len,
            0 <= i,
    ;
    assert(i * len + len <= count * len) by (nonlinear_arith)
        requires
            0 <= len,
            i + 1 <= count,
    ;
}

/// Appending a record leaves the records before it as they are.
proof fn lemma_append_record(a: Seq<u8>, b: Seq<u8>, len: int, count: int, p: Seq<u8>)
    requires
        0 <= len,
        0 <= count,
        a.len() == count * len,
        p.len() == len,
        b == a + p,
    ensures
        b.len() == (count + 1) * len,
        record_at(b, len, count) == p,
        forall|i: int| 0 <= i < count ==> #[trigger] record_at(b, len, i) == record_at(a, len, i),
{
    assert((count + 1) * len == count * len + len) by (nonlinear_arith);
    assert(record_at(b, len, count) =~= p);
    assert forall|i: int| 0 <= i < count implies #[trigger] record_at(b, len, i) == record_at(
        a,
        len,
        i,
    ) by {
        lemma_record_bounds(len, i, count);
        assert(record_at(b, len, i) =~= record_at(a, len, i));
    }
}

impl ServeSession {
    /// The session has collected `count` records and can go on.
    pub open spec fn wf(&self) -> bool {
        &&& self.capacity >= 1
        &&& 1 <= self.batch <= MAX_BATCH
        &&& self.batch * self.payload_len <= u32::MAX
        &&& self.count <= self.batch
        &&& 1 <= self.cursor
        &&& self.cursor + MAX_BATCH <= LAST_SEQ
        &&& self.records@.len() == self.count * self.payload_len
    }

    /// Opens the session of a mirror that wants to start at `wanted`. Returns the session and
    /// the `GEOMETRY` to send.
    pub fn open(
        geometry: &Geometry,
        wanted: u64,
        write_seq: u64,
        batch: usize,
        spin: bool,
        now_ns: u64,
    ) -> (r: (Self, Vec<u8>))
        requires
            geometry.element_size >= 8,
            geometry.capacity > 0,
            write_seq + MAX_BATCH < LAST_SEQ,
        ensures
            ({
                let start = serve_from(wanted, write_seq, geometry.capacity);
                &&& r.0.wf()
                &&& r.0.capacity == geometry.capacity
                &&& r.0.payload_len == geometry.element_size - 8
                &&& r.0.cursor == start.0
                &&& r.0.batch == session_batch(batch, geometry.element_size - 8)
                &&& r.0.spin == spin
                &&& r.0.idle == 0
                &&& r.0.last_beat_ns == now_ns
                &&& r.0.count == 0
                &&& r.0.lapped is None
                &&& r.1@ == (Frame {
                    kind: KIND_GEOMETRY,
                    flags: start.1,
                    count: 0,
                    len: 32,
                    seq: start.0,
                }).image() + geometry.image()
            }),
    {
        let (cursor, flags) = start_position(wanted, write_seq, geometry.capacity);
        let frame = Frame {
            kind: KIND_GEOMETRY,
            flags,
            count: 0,
            len: GEOMETRY_LEN as u32,
            seq: cursor,
        };
        let mut out = frame.encode();
        let mut body = geometry.encode();
        out.append(&mut body);
        let session = ServeSession {
            capacity: geometry.capacity,
            payload_len: geometry.payload_len(),
            cursor,
            batch: clamp_session_batch(batch, geometry.element_size - 8),
            spin,
            idle: 0,
            last_beat_ns: now_ns,
            count: 0,
            records: Vec::new(),
            lapped: None,
        };
        (session, out)
    }

    /// The sequence of the record to read next.
    pub fn wanted(&self) -> (seq: u64)
        requires
            self.wf(),
        ensures
            seq == self.cursor + self.count,
    {
        self.cursor + self.count as u64
    }

    /// Takes the outcome of reading the wanted record. Returns whether to read on.
    pub fn record(&mut self, r: RawRead) -> (more: bool)
        requires
            old(self).wf(),
            old(self).count < old(self).batch,
            r matches RawRead::Item(p) ==> p@.len() == old(self).payload_len,
        ensures
            final(self).wf(),
            ({
                let n = old(self).count as int;
                let len = old(self).payload_len as int;
                match r {
                    RawRead::Item(p) => {
                        &&& final(self).count == n + 1
                        &&& final(self).records@ == old(self).records@ + p@
                        &&& record_at(final(self).records@, len, n) == p@
                        &&& forall|i: int|
                            0 <= i < n ==> #[trigger] record_at(final(self).records@, len, i)
                                == record_at(old(self).records@, len, i)
                        &&& final(self).lapped == old(self).lapped
                        &&& more == (n + 1 < old(self).batch)
                    },
                    RawRead::Pending => !more && *final(self) == *old(self),
                    RawRead::Overwritten(seen) => !more && *final(self) == (ServeSession {
                        lapped: Some(seen),
                        ..*old(self)
                    }),
                }
            }),
            final(self).same_but_batch(old(self)),
    {
        match r {
            RawRead::Item(p) => {
                let mut p = p;
                let ghost before = self.records@;
                let ghost bytes = p@;
                self.records.append(&mut p);
                proof {
                    lemma_append_record(
                        before,
                        self.records@,
                        self.payload_len as int,
                        self.count as int,
                        bytes,
                    );
                }
                self.count = self.count + 1;
                self.count < self.batch
            },
            RawRead::Pending => false,
            RawRead::Overwritten(seen) => {
                self.lapped = Some(seen);
                false
            },
        }
    }

    /// All but the batch in the making is the same.
    pub open spec fn same_but_batch(&self, other: &Self) -> bool {
        &&& self.capacity == other.capacity
        &&& self.payload_len == other.payload_len
        &&& self.cursor == other.cursor
        &&& self.batch == other.batch
        &&& self.spin == other.spin
        &&& self.idle == other.idle
        &&& self.last_beat_ns == other.last_beat_ns
    }

    /// Collects a batch from a source ring that nobody is writing to: the longest run of
    /// published records from the cursor on, as far as the batch size allows.
    pub fn collect(&mut self, source: &Ring<Vec<u8>>)
        requires
            old(self).wf(),
            old(self).count == 0,
            old(self).lapped is None,
            source.wf(),
            records_sized(source, old(self).payload_len as int),
        ensures
            final(self).wf(),
            final(self).same_but_batch(old(self)),
            collected(
                source,
                final(self).records@,
                old(self).payload_len as int,
                old(self).cursor,
                final(self).count as int,
            ),
            final(self).count < old(self).batch ==> {
                let next = (old(self).cursor + final(self).count) as u64;
                &&& !source.present(next)
                &&& final(self).lapped == (match probe_spec(source.word(next), next) {
                    SlotProbe::Overwritten(seen) => Some(seen),
                    _ => None,
                })
            },
            final(self).count == old(self).batch ==> final(self).lapped is None,
    {
        let mut more: bool = true;
        while more
            invariant
                source.wf(),
                records_sized(source, self.payload_len as int),
                self.wf(),
                self.same_but_batch(old(self)),
                more ==> self.count < self.batch && self.lapped is None,
                collected(
                    source,
                    self.records@,
                    self.payload_len as int,
                    self.cursor,
                    self.count as int,
                ),
                !more ==> {
                    let next = (old(self).cursor + self.count) as u64;
                    &&& self.count < self.batch ==> !source.present(next) && self.lapped == (
                    match probe_spec(source.word(next), next) {
                        SlotProbe::Overwritten(seen) => Some(seen),
                        _ => None,
                    })
                    &&& self.count == self.batch ==> self.lapped is None
                },
            decreases
                    self.batch - self.count,
                    if more {
                        1int
                    } else {
                        0int
                    },
        {
            let want: u64 = self.wanted();
            let r = read_record(source, want);
            proof {
                let i = source.index(want);
                assert(0 <= i < source.slots@.len());
                assert(slot_ok(source.slots@[i], i, source.header.capacity));
            }
            let ghost before = *self;
            more = self.record(r);
            proof {
                assert forall|i: int| 0 <= i < self.count implies #[trigger] carries(
                    source,
                    self.records@,
                    self.payload_len as int,
                    self.cursor,
                    i,
                ) by {
                    if i < before.count {
                        assert(carries(
                            source,
                            before.records@,
                            self.payload_len as int,
                            self.cursor,
                            i,
                        ));
                    }
                }
            }
        }
    }

    /// The `DATA` frame of the records collected in this turn, if there are any. The cursor
    /// moves past them.
    pub fn data(&mut self, now_ns: u64) -> (out: Option<Vec<u8>>)
        requires
            old(self).wf(),
            old(self).cursor + old(self).count + MAX_BATCH <= LAST_SEQ,
        ensures
            final(self).wf(),
            final(self).lapped == old(self).lapped,
            final(self).count == 0,
            if old(self).count > 0 {
                &&& out is Some
                &&& out->0@ == data_frame(*old(self)).image() + old(self).records@
                &&& final(self).cursor == old(self).cursor + old(self).count
                &&& final(self).idle == 0
                &&& final(self).last_beat_ns == now_ns
            } else {
                &&& out is None
                &&& final(self).cursor == old(self).cursor
                &&& final(self).idle == old(self).idle
                &&& final(self).last_beat_ns == old(self).last_beat_ns
            },
            final(self).capacity == old(self).capacity,
            final(self).payload_len == old(self).payload_len,
            final(self).batch == old(self).batch,
            final(self).spin == old(self).spin,
    {
        if self.count == 0 {
            assert(0 * self.payload_len == 0) by (nonlinear_arith);
            return None;
        }
        let frame = Frame {
            kind: KIND_DATA,
            flags: 0,
            count: self.count as u16,
            len: self.records.len() as u32,
            seq: self.cursor,
        };
        let mut out = frame.encode();
        out.append(&mut self.records);
        self.cursor = self.cursor + self.count as u64;
        self.count = 0;
        self.idle = 0;
        self.last_beat_ns = now_ns;
        assert(0 * self.payload_len == 0) by (nonlinear_arith);
        Some(out)
    }

    /// If the reader was lapped: moves on to the oldest message still retained, now that the
    /// newest one is `write_seq`, and returns the `GAP` that tells the mirror so, if there is
    /// anything to skip.
    pub fn resync(&mut self, write_seq: u64) -> (out: Option<Vec<u8>>)
        requires
            old(self).wf(),
            write_seq + MAX_BATCH < LAST_SEQ,
            old(self).lapped matches Some(seen) ==> seen + MAX_BATCH < LAST_SEQ,
        ensures
            final(self).wf(),
            final(self).lapped is None,
            match old(self).lapped {
                Some(seen) => {
                    let o = oldest_of(max_of(write_seq, seen), old(self).capacity);
                    &&& final(self).cursor == max_of(old(self).cursor, o)
                    &&& match out {
                        Some(b) => o > old(self).cursor && b@ == control_frame(
                            KIND_GAP,
                            o,
                        ).image(),
                        None => o <= old(self).cursor,
                    }
                },
                None => out is None && final(self).cursor == old(self).cursor,
            },
            final(self).capacity == old(self).capacity,
            final(self).payload_len == old(self).payload_len,
            final(self).batch == old(self).batch,
            final(self).spin == old(self).spin,
            final(self).idle == old(self).idle,
            final(self).last_beat_ns == old(self).last_beat_ns,
            final(self).count == old(self).count,
            final(self).records == old(self).records,
    {
        match self.lapped {
            None => None,
            Some(seen) => {
                self.lapped = None;
                let resync: u64 = oldest_retained(larger(write_seq, seen), self.capacity);
                if resync > self.cursor {
                    self.cursor = resync;
                    Some(Frame::control(KIND_GAP, resync).encode())
                } else {
                    None
                }
            },
        }
    }

    /// How to pass the time after a turn that found nothing.
    pub fn pause(&mut self) -> (p: ServePause)
        ensures
            if old(self).spin {
                p == ServePause::Spin && *final(self) == *old(self)
            } else {
                let idle = old(self).idle.saturating_add(1);
                &&& *final(self) == (ServeSession { idle, ..*old(self) })
                &&& p == (if idle < 2000 {
                    ServePause::Spin
                } else if idle < 4000 {
                    ServePause::Yield
                } else {
                    ServePause::Sleep { micros: 50 }
                })
            },
    {
        if self.spin {
            return ServePause::Spin;
        }
        self.idle = self.idle.saturating_add(1);
        if self.idle < 2000 {
            ServePause::Spin
        } else if self.idle < 4000 {
            ServePause::Yield
        } else {
            ServePause::Sleep { micros: 50 }
        }
    }

    /// The `HEARTBEAT` to send at `now_ns`, if the last frame is long enough ago.
    pub fn heartbeat(&mut self, now_ns: u64, write_seq: u64) -> (out: Option<Vec<u8>>)
        ensures
            if now_ns - old(self).last_beat_ns >= HEARTBEAT_INTERVAL_NS {
                &&& out is Some
                &&& out->0@ == control_frame(KIND_HEARTBEAT, write_seq).image()
                &&& *final(self) == (ServeSession { last_beat_ns: now_ns, ..*old(self) })
            } else {
                out is None && *final(self) == *old(self)
            },
    {
        if now_ns >= self.last_beat_ns && now_ns - self.last_beat_ns >= HEARTBEAT_INTERVAL_NS {
            self.last_beat_ns = now_ns;
            Some(Frame::control(KIND_HEARTBEAT, write_seq).encode())
        } else {
            None
        }
    }
}

/// Header of the `DATA` frame of the records that a session has collected.
pub open spec fn data_frame(s: ServeSession) -> Frame {
    Frame {
        kind: KIND_DATA,
        flags: 0,
        count: s.count as u16,
        len: s.records@.len() as u32,
        seq: s.cursor,
    }
}

// ---------------------------------------------------------------------------------------
// Mirror side
// ---------------------------------------------------------------------------------------

/// Where a mirror starts in the source's stream.
#[derive(Debug, Clone, Copy, PartialEq, Eq, Structural)]
pub enum MirrorStart {
    /// Only messages published after the connection.
    Latest,
    /// Everything the source still retains, then live.
    Oldest,
    /// Continue after the last sequence in the existing mirror ring at the path (falls
    /// back to `Oldest` when there is none).
    Resume,
    /// From this sequence (clamped to what the source retains).
    Sequence(u64),
}

impl Default for MirrorStart {
    fn default() -> (s: Self)
        ensures
            s == MirrorStart::Latest,
    {
        MirrorStart::Latest
    }
}

/// Configures a [`Mirror`].
#[derive(Debug, Clone, Copy)]
pub struct MirrorBuilder {
    pub start: MirrorStart,
    pub spin: bool,
    pub file_mode: u32,
}

impl Default for MirrorBuilder {
    fn default() -> (b: Self)
        ensures
            b == (MirrorBuilder { start: MirrorStart::Latest, spin: false, file_mode: 0o660 }),
    {
        Self::new()
    }
}

/// An existing mirror ring that can be continued.
#[derive(Debug, Clone, Copy)]
pub struct Adopted {
    pub geometry: Geometry,
    pub next_seq: u64,
}

/// Looks at an existing ring with the header `header`, mapped as `len` bytes: a mirror can
/// continue it unless it is no valid ring or has an arena.
pub fn adopt(header: &RingHeader, len: usize) -> (r: Option<Adopted>)
    requires
        header.write_seq < u64::MAX,
    ensures
        r is Some <==> valid_header(*header, len as int, None, 8) && !header.has(FLAG_WITH_ARENA),
        r matches Some(a) ==> a.geometry == Geometry::of(
            *header,
            crate::header::view_of(*header),
        ) && a.next_seq == header.write_seq + 1,
{
    let view = match validate_header(header, len, None, 8) {
        Ok(v) => v,
        Err(_) => return None,
    };
    if header.flags & FLAG_WITH_ARENA != 0 {
        return None;
    }
    Some(
        Adopted {
            geometry: Geometry::from_header(header, &view),
            next_seq: header.write_seq + 1,
        },
    )
}

/// The sequence that a mirror asks for.
pub open spec fn wanted_by(start: MirrorStart, adopted: Option<Adopted>) -> u64 {
    match start {
        MirrorStart::Latest => HELLO_LATEST,
        MirrorStart::Oldest => HELLO_OLDEST,
        MirrorStart::Sequence(seq) => max_of(seq, 1),
        MirrorStart::Resume => match adopted {
            Some(a) => a.next_seq,
            None => HELLO_OLDEST,
        },
    }
}

impl MirrorBuilder {
    pub fn new() -> (b: Self)
        ensures
            b == (MirrorBuilder { start: MirrorStart::Latest, spin: false, file_mode: 0o660 }),
    {
        MirrorBuilder { start: MirrorStart::Latest, spin: false, file_mode: 0o660 }
    }

    pub fn start(self, start: MirrorStart) -> (b: Self)
        ensures
            b == (MirrorBuilder { start, ..self }),
    {
        MirrorBuilder { start, ..self }
    }

    /// Busy-poll the socket instead of blocking in the kernel: lowest latency, one core.
    pub fn spin(self, spin: bool) -> (b: Self)
        ensures
            b == (MirrorBuilder { spin, ..self }),
    {
        MirrorBuilder { spin, ..self }
    }

    /// Permission bits of the mirror ring file (default `0o660`).
    pub fn file_mode(self, mode: u32) -> (b: Self)
        ensures
            b == (MirrorBuilder { file_mode: mode, ..self }),
    {
        MirrorBuilder { file_mode: mode, ..self }
    }

    /// The sequence to ask for in the `HELLO`, given the existing ring that is to be
    /// continued, if there is one.
    pub fn wanted(&self, adopted: &Option<Adopted>) -> (seq: u64)
        ensures
            seq == wanted_by(self.start, *adopted),
    {
        match self.start {
            MirrorStart::Latest => HELLO_LATEST,
            MirrorStart::Oldest => HELLO_OLDEST,
            MirrorStart::Sequence(seq) => larger(seq, 1),
            MirrorStart::Resume => match adopted {
                Some(a) => a.next_seq,
                None => HELLO_OLDEST,
            },
        }
    }

    /// Checks the header of the source's answer to the `HELLO`.
    pub fn geometry_header(hdr: &[u8]) -> (r: Result<Frame, RingfireError>)
        requires
            hdr@.len() == FRAME_HEADER_LEN,
        ensures
            ({
                let f = frame_at(hdr@);
                match r {
                    Ok(g) => g == f && f.kind == KIND_GEOMETRY && f.len == GEOMETRY_LEN,
                    Err(e) => (f.kind != KIND_GEOMETRY || f.len != GEOMETRY_LEN) && (
                    e matches RingfireError::Protocol(w) && w@ == "expected GEOMETRY"@),
                }
            }),
    {
        let frame = Frame::decode(hdr);
        if frame.kind != KIND_GEOMETRY || frame.len as usize != GEOMETRY_LEN {
            return Err(RingfireError::Protocol("expected GEOMETRY"));
        }
        Ok(frame)
    }

    /// Concludes the handshake: `frame` is the header of the source's answer and `body` its
    /// payload. An existing ring is continued if it has the source's layout and the source
    /// did not restart; otherwise the mirror starts with a fresh ring
    /// ([`create_mirror_ring`]).
    pub fn connect(&self, frame: &Frame, body: &[u8], adopted: Option<Adopted>) -> (r: Result<
        Mirror,
        RingfireError,
    >)
        requires
            body@.len() == GEOMETRY_LEN,
        ensures
            r is Ok <==> geometry_at(body@).valid(),
            match r {
                Ok(m) => {
                    let g = geometry_at(body@);
                    let resumes = adopted is Some && frame.flags & GEOMETRY_RESET == 0
                        && adopted->0.geometry.same_slots(g);
                    &&& m.geometry == g
                    &&& m.resumed == resumes
                    &&& m.next_seq == (if resumes {
                        adopted->0.next_seq
                    } else {
                        max_of(1, frame.seq)
                    })
                    &&& m.first_seq == frame.seq
                    &&& m.source_seq == (if frame.seq > 0 {
                        frame.seq - 1
                    } else {
                        0
                    })
                    &&& m.frames == 0
                    &&& m.gaps == 0
                },
                Err(e) => geometry_at(body@).refusal(e),
            },
    {
        let geometry = match Geometry::decode(body) {
            Ok(g) => g,
            Err(e) => return Err(e),
        };
        let reset: bool = frame.flags & GEOMETRY_RESET != 0;
        let mut next_seq: u64 = larger(1, frame.seq);
        let mut resumed: bool = false;
        if let Some(a) = adopted {
            if !reset && a.geometry.same_layout(&geometry) {
                next_seq = a.next_seq;
                resumed = true;
            }
        }
        Ok(
            Mirror {
                geometry,
                next_seq,
                first_seq: frame.seq,
                resumed,
                source_seq: frame.seq.saturating_sub(1),
                frames: 0,
                gaps: 0,
            },
        )
    }
}

/// Where the parts of a mirror ring go.
pub open spec fn mirror_layout(g: Geometry) -> RingLayout {
    RingLayout {
        capacity: g.capacity,
        slot_size: g.element_size as usize,
        flags: g.flags_of_mirror(),
        schema_sig: g.schema_sig,
        claim_seq: 0,
        read_seq: 0,
        registry_offset: if g.registry_count > 0 {
            RING_HEADER_SIZE
        } else {
            0
        },
        registry_count: g.registry_count as usize,
        slots_offset: g.slots_offset as usize,
        arena_offset: 0,
        arena_size: 0,
    }
}

/// The registry of a mirror ring of geometry `g` that no reader has registered in yet.
pub open spec fn fresh_readers(g: Geometry, registry: Option<ReaderRegistry>) -> bool {
    &&& registry is Some <==> g.registry_count > 0
    &&& registry matches Some(r) ==> r.slots@.len() == g.registry_count && forall|i: int|
        0 <= i < r.slots@.len() ==> blank(#[trigger] r.slots@[i])
}

/// `ring` is an empty mirror ring of geometry `g`.
pub open spec fn fresh_mirror(g: Geometry, ring: &Ring<Vec<u8>>) -> bool {
    &&& ring.wf()
    &&& ring.header == (RingHeader { magic: RINGFIRE_MAGIC, ..fresh_header(mirror_layout(g)) })
    &&& ring.len == g.total()
    &&& fresh_readers(g, ring.registry)
    &&& forall|i: int|
        0 <= i < ring.slots@.len() ==> (#[trigger] ring.slots@[i]).seq == 0
            && ring.slots@[i].data is None
}

/// Creates a fresh mirror ring with `geometry`.
pub fn create_mirror_ring(geometry: &Geometry) -> (ring: Ring<Vec<u8>>)
    requires
        geometry.valid(),
    ensures
        fresh_mirror(*geometry, &ring),
        valid_header(ring.header, ring.len as int, Some(geometry.element_size as usize), 8),
{
    let capacity: u64 = geometry.capacity;
    let slot_size: usize = geometry.element_size as usize;
    let slots_offset: usize = geometry.slots_offset as usize;
    let registry_count: usize = geometry.registry_count as usize;
    proof {
        lemma_mask_is_mod(0, capacity);
        assert(capacity * slot_size >= capacity) by (nonlinear_arith)
            requires
                slot_size >= 8,
                capacity >= 1,
        ;
    }
    let total: usize = slots_offset + capacity as usize * slot_size;
    let layout = RingLayout {
        capacity,
        slot_size,
        flags: geometry.mirror_flags(),
        schema_sig: geometry.schema_sig,
        claim_seq: 0,
        read_seq: 0,
        registry_offset: if registry_count > 0 {
            RING_HEADER_SIZE
        } else {
            0
        },
        registry_count,
        slots_offset,
        arena_offset: 0,
        arena_size: 0,
    };
    let mut header = RingHeader::initialize(&layout);
    let registry = if registry_count > 0 {
        Some(ReaderRegistry::init(registry_count))
    } else {
        None
    };
    let slots = empty_slots::<Vec<u8>>(capacity as usize);
    header.publish();
    proof {
        assert(geometry.slots_offset as int % 8 == 0) by (nonlinear_arith)
            requires
                geometry.slots_offset % 64 == 0,
        ;
        assert(capacity * slot_size >= 0) by (nonlinear_arith);
        assert(header.capacity * header.element_size == geometry.capacity * geometry.element_size);
    }
    Ring { header, len: total, registry, slots }
}

/// The state of a mirror: receives records from a source and writes them into a local ring
/// under the source's sequence numbers.
#[derive(Debug, Clone, Copy)]
pub struct Mirror {
    pub geometry: Geometry,
    /// Sequence the next record must carry.
    pub next_seq: u64,
    pub first_seq: u64,
    pub resumed: bool,
    pub source_seq: u64,
    pub frames: u64,
    pub gaps: u64,
}

/// What a mirror does with a frame.
#[derive(Debug, Clone, Copy, PartialEq, Eq, Structural)]
pub enum MirrorAction {
    /// Read that many bytes of records, then call [`Mirror::take_records`].
    Records { len: usize },
    /// Go on with the next frame.
    Next,
}

/// Where the records of a `DATA` frame go.
#[derive(Debug, Clone, Copy, PartialEq, Eq, Structural)]
pub struct RecordPlan {
    /// The source restarted its numbering: replace the ring by a fresh one first.
    pub restart: bool,
    /// Sequence of the first record.
    pub first: u64,
    /// Number of records.
    pub count: usize,
}

impl Mirror {
    pub fn builder() -> (b: MirrorBuilder)
        ensures
            b == (MirrorBuilder { start: MirrorStart::Latest, spin: false, file_mode: 0o660 }),
    {
        MirrorBuilder::new()
    }

    pub fn geometry(&self) -> (g: Geometry)
        ensures
            g == self.geometry,
    {
        self.geometry
    }

    /// First sequence the source agreed to send.
    pub fn first_sequence(&self) -> (r: u64)
        ensures
            r == self.first_seq,
    {
        self.first_seq
    }

    /// Whether an existing mirror ring was continued instead of created.
    pub fn resumed(&self) -> (r: bool)
        ensures
            r == self.resumed,
    {
        self.resumed
    }

    /// Last sequence written into the mirror ring.
    pub fn sequence(&self) -> (r: u64)
        requires
            self.next_seq >= 1,
        ensures
            r == self.next_seq - 1,
    {
        self.next_seq - 1
    }

    /// Last sequence the source reported (from data or heartbeats).
    pub fn source_sequence(&self) -> (r: u64)
        ensures
            r == self.source_seq,
    {
        self.source_seq
    }

    /// Number of times the stream jumped forward (source lapped the server-side reader,
    /// or messages were missed while disconnected).
    pub fn gaps(&self) -> (r: u64)
        ensures
            r == self.gaps,
    {
        self.gaps
    }

    /// Frames received.
    pub fn frames(&self) -> (r: u64)
        ensures
            r == self.frames,
    {
        self.frames
    }

    /// A `DATA` frame whose length matches its record count.
    pub open spec fn data_ok(&self, f: Frame) -> bool {
        f.count > 0 && f.len == f.count * (self.geometry.element_size - 8)
    }

    /// The mirror after the header of a frame.
    pub open spec fn counted(self) -> Mirror {
        Mirror { frames: self.frames.wrapping_add(1), ..self }
    }

    /// The mirror after it moved forward to `seq`, leaving a hole.
    pub open spec fn gapped(self, seq: u64) -> Mirror {
        if seq > self.next_seq {
            Mirror { gaps: self.gaps.wrapping_add(1), next_seq: seq, ..self }
        } else {
            self
        }
    }

    /// Takes the header of the source's next frame.
    pub fn step(&mut self, frame: &Frame) -> (r: Result<MirrorAction, RingfireError>)
        requires
            old(self).geometry.element_size >= 8,
        ensures
            ({
                let m = old(self).counted();
                let f = *frame;
                if f.kind == KIND_DATA {
                    &&& *final(self) == m
                    &&& if m.data_ok(f) {
                        r == Ok::<MirrorAction, RingfireError>(
                            MirrorAction::Records { len: f.len as usize },
                        )
                    } else {
                        r matches Err(RingfireError::Protocol(w)) && w@
                            == "DATA length does not match its record count"@
                    }
                } else if f.kind == KIND_GAP {
                    &&& r == Ok::<MirrorAction, RingfireError>(MirrorAction::Next)
                    &&& *final(self) == m.gapped(f.seq)
                } else if f.kind == KIND_HEARTBEAT {
                    &&& r == Ok::<MirrorAction, RingfireError>(MirrorAction::Next)
                    &&& *final(self) == (Mirror { source_seq: max_of(m.source_seq, f.seq), ..m })
                } else {
                    &&& *final(self) == m
                    &&& r matches Err(RingfireError::Protocol(w)) && w@
                        == "unexpected frame kind"@
                }
            }),
    {
        self.frames = self.frames.wrapping_add(1);
        if frame.kind == KIND_DATA {
            let payload_len: usize = self.geometry.payload_len();
            let count: u64 = frame.count as u64;
            proof {
                assert(count * payload_len <= u16::MAX * u32::MAX) by (nonlinear_arith)
                    requires
                        count <= u16::MAX,
                        payload_len <= u32::MAX,
                ;
                assert(count * payload_len == frame.count * (self.geometry.element_size - 8));
            }
            if count == 0 || frame.len as u64 != count * payload_len as u64 {
                return Err(RingfireError::Protocol("DATA length does not match its record count"));
            }
            Ok(MirrorAction::Records { len: frame.len as usize })
        } else if frame.kind == KIND_GAP {
            if frame.seq > self.next_seq {
                self.gaps = self.gaps.wrapping_add(1);
                self.next_seq = frame.seq;
            }
            Ok(MirrorAction::Next)
        } else if frame.kind == KIND_HEARTBEAT {
            self.source_seq = larger(self.source_seq, frame.seq);
            Ok(MirrorAction::Next)
        } else {
            Err(RingfireError::Protocol("unexpected frame kind"))
        }
    }

    /// The mirror after the records of a `DATA` frame: it stands behind the last of them,
    /// and counts a gap where they did not follow on what it had.
    pub open spec fn after_records(self, f: Frame) -> Mirror {
        let last = (f.seq + f.count - 1) as u64;
        Mirror {
            gaps: if f.seq != self.next_seq {
                self.gaps.wrapping_add(1)
            } else {
                self.gaps
            },
            next_seq: (f.seq + f.count) as u64,
            source_seq: max_of(self.source_seq, last),
            ..self
        }
    }

    /// Where the records of a `DATA` frame go.
    pub open spec fn plan_for(self, f: Frame) -> RecordPlan {
        RecordPlan { restart: f.seq < self.next_seq, first: f.seq, count: f.count as usize }
    }

    /// Takes the records of a `DATA` frame: returns where the caller writes them, one after
    /// the other, before it publishes the last one.
    pub fn take_records(&mut self, frame: &Frame) -> (p: RecordPlan)
        requires
            frame.seq + frame.count <= LAST_SEQ,
            frame.count > 0,
        ensures
            p == old(self).plan_for(*frame),
            *final(self) == old(self).after_records(*frame),
    {
        let next: u64 = self.next_seq;
        let restart: bool = frame.seq < next;
        if frame.seq != next {
            self.gaps = self.gaps.wrapping_add(1);
        }
        self.next_seq = frame.seq + frame.count as u64;
        self.source_seq = larger(self.source_seq, self.next_seq - 1);
        RecordPlan { restart, first: frame.seq, count: frame.count as usize }
    }

    /// Takes the records of a `DATA` frame into a mirror ring that nobody is reading from:
    /// `records` are the frame's payload. Returns how many consumers the kernel is to wake.
    pub fn apply(&mut self, ring: &mut Ring<Vec<u8>>, frame: &Frame, records: &[u8]) -> (wake:
        Option<i32>)
        requires
            old(self).geometry.valid(),
            old(ring).wf(),
            old(ring).header.capacity == old(self).geometry.capacity,
            frame.seq + frame.count <= LAST_SEQ,
            old(self).data_ok(*frame),
            records@.len() == frame.len,
        ensures
            final(ring).wf(),
            final(ring).header.capacity == old(self).geometry.capacity,
            *final(self) == old(self).after_records(*frame),
            final(ring).header.write_seq == frame.seq + frame.count - 1,
            mirrored(
                final(ring),
                records@,
                old(self).geometry.element_size - 8,
                frame.seq,
                frame.count as int,
            ),
            frame.seq >= old(self).next_seq ==> {
                &&& kept(old(ring), final(ring), frame.seq, frame.count as int)
                &&& batch_slots(old(ring), final(ring), frame.seq, frame.count as int)
                &&& final(ring).registry == old(ring).registry
                &&& final(ring).len == old(ring).len
                &&& final(ring).header == published_header(
                    old(ring).header,
                    (frame.seq + frame.count - 1) as u64,
                )
                &&& wake == wake_for(old(ring).header)
            },
            frame.seq < old(self).next_seq ==> {
                let g = old(self).geometry;
                let last = (frame.seq + frame.count - 1) as u64;
                &&& wake is None
                &&& final(ring).header == published_header(
                    RingHeader { magic: RINGFIRE_MAGIC, ..fresh_header(mirror_layout(g)) },
                    last,
                )
                &&& final(ring).len == g.total()
                &&& fresh_readers(g, final(ring).registry)
                &&& forall|j: int|
                    0 <= j < final(ring).slots@.len() && !in_batch(
                        final(ring),
                        j,
                        frame.seq,
                        frame.count as int,
                    ) ==> (#[trigger] final(ring).slots@[j]).seq == 0
                        && final(ring).slots@[j].data is None
                &&& forall|n: u64| #[trigger]
                    final(ring).present(n) ==> frame.seq <= n <= last
            },
    {
        let plan = self.take_records(frame);
        if plan.restart {
            // The source restarted its numbering underneath us: start over.
            *ring = create_mirror_ring(&self.geometry);
        }
        let len: usize = self.geometry.payload_len();
        let ghost start = *ring;
        let ghost cap = ring.header.capacity as int;
        let n: usize = plan.count;
        let _bytes: usize = records.len();
        assert(n * len == frame.count * (old(self).geometry.element_size - 8));
        let mut i: usize = 0;
        while i < n
            invariant
                i <= n,
                n == frame.count,
                frame.seq + frame.count <= LAST_SEQ,
                n * len == records@.len(),
                records@.len() <= usize::MAX,
                plan.first == frame.seq,
                start.wf(),
                cap == start.header.capacity,
                ring.wf(),
                ring.header == start.header,
                ring.registry == start.registry,
                ring.len == start.len,
                mirrored(ring, records@, len as int, frame.seq, i as int),
                kept(&start, ring, frame.seq, i as int),
                batch_slots(&start, ring, frame.seq, i as int),
            decreases n - i,
        {
            proof {
                lemma_record_bounds(len as int, i as int, n as int);
            }
            let seq: u64 = plan.first + i as u64;
            let at: usize = i * len;
            let payload: Vec<u8> = slice_to_vec(slice_subrange(records, at, at + len));
            let k: usize = ring.slot_index(seq);
            let ghost before = *ring;
            ring.slots.set(k, Slot { seq, data: Some(payload) });
            proof {
                assert forall|j: int| 0 <= j < ring.slots@.len() implies slot_ok(
                    #[trigger] ring.slots@[j],
                    j,
                    ring.header.capacity,
                ) by {
                    assert(slot_ok(before.slots@[j], j, before.header.capacity));
                }
                lemma_batch_one(&start, &before, ring, frame.seq, i as int);
                lemma_mirror_one(
                    &start,
                    &before,
                    ring,
                    records@,
                    len as int,
                    frame.seq,
                    i as int,
                );
            }
            i = i + 1;
        }
        let ghost written = *ring;
        ring.header.write_seq = plan.first + (n as u64 - 1);
        let wake = wake_futex(&mut ring.header, i32::MAX);
        proof {
            lemma_mirrored_header(&written, ring, records@, len as int, frame.seq, n as int);
            assert forall|j: int| 0 <= j < ring.slots@.len() implies in_batch(
                ring,
                j,
                frame.seq,
                n as int,
            ) == #[trigger] in_batch(&start, j, frame.seq, n as int) by {
                if in_batch(ring, j, frame.seq, n as int) {
                    lemma_same_batch(ring, &start, j, frame.seq, n as int);
                }
                if in_batch(&start, j, frame.seq, n as int) {
                    lemma_same_batch(&start, ring, j, frame.seq, n as int);
                }
            }
            assert forall|j: int| #![trigger ring.slots@[j]] 0 <= j < ring.slots@.len() implies if in_batch(
                &start,
                j,
                frame.seq,
                n as int,
            ) {
                frame.seq <= ring.slots@[j].seq < frame.seq + n
            } else {
                ring.slots@[j] == start.slots@[j]
            } by {
                assert(written.slots@[j] == ring.slots@[j]);
            }
            if plan.restart {
                assert forall|m: u64| #[trigger] ring.present(m) implies frame.seq <= m
                    <= frame.seq + frame.count - 1 by {
                    let j = ring.index(m);
                    assert(0 <= j < ring.slots@.len());
                    assert(ring.slots@[j].seq == m);
                }
            }
            if !plan.restart {
                assert(kept(old(ring), ring, frame.seq, frame.count as int)) by {
                    assert forall|m: u64| #[trigger]
                        outlives(old(ring), m, frame.seq, frame.count as int) implies ring.word(m)
                        == old(ring).word(m) && ring.message(m) == old(ring).message(m) by {
                        assert(outlives(&start, m, frame.seq, n as int));
                    }
                }
            }
        }
        wake
    }
}

/// The ring holds the records of a batch under the numbers from `first` on, each with its
/// payload; of a batch larger than the ring, the last ones.
pub open spec fn mirrored(
    ring: &Ring<Vec<u8>>,
    records: Seq<u8>,
    len: int,
    first: u64,
    count: int,
) -> bool {
    forall|i: int|
        0 <= i < count && count - i <= ring.header.capacity ==> #[trigger] carries(
            ring,
            records,
            len,
            first,
            i,
        )
}

/// Message `m` of the ring is not among the numbers from `first` on, nor a full ring behind
/// the last of them.
pub open spec fn outlives(ring: &Ring<Vec<u8>>, m: u64, first: u64, count: int) -> bool {
    m < first && first + count - m <= ring.header.capacity
}

/// Slot `j` of the ring belongs to one of the `count` numbers from `first` on.
pub open spec fn in_batch(ring: &Ring<Vec<u8>>, j: int, first: u64, count: int) -> bool {
    exists|n: u64| first <= n < first + count && #[trigger] ring.index(n) == j
}

/// The slots of a batch hold numbers of that batch, the other slots are as they were.
pub open spec fn batch_slots(
    a: &Ring<Vec<u8>>,
    b: &Ring<Vec<u8>>,
    first: u64,
    count: int,
) -> bool {
    &&& b.slots@.len() == a.slots@.len()
    &&& forall|j: int| #![trigger b.slots@[j]]
        0 <= j < b.slots@.len() ==> if in_batch(a, j, first, count) {
            first <= b.slots@[j].seq < first + count
        } else {
            b.slots@[j] == a.slots@[j]
        }
}

proof fn lemma_same_batch(
    a: &Ring<Vec<u8>>,
    b: &Ring<Vec<u8>>,
    j: int,
    first: u64,
    count: int,
)
    requires
        a.header.capacity == b.header.capacity,
        in_batch(a, j, first, count),
    ensures
        in_batch(b, j, first, count),
{
    let n = choose|n: u64| first <= n < first + count && #[trigger] a.index(n) == j;
    assert(b.index(n) == j);
}

proof fn lemma_batch_one(
    start: &Ring<Vec<u8>>,
    before: &Ring<Vec<u8>>,
    after: &Ring<Vec<u8>>,
    first: u64,
    i: int,
)
    requires
        0 <= i,
        first + i < LAST_SEQ,
        before.wf(),
        before.header.capacity == start.header.capacity,
        batch_slots(start, before, first, i),
        after.slots@ == before.slots@.update(
            before.index((first + i) as u64),
            after.slots@[before.index((first + i) as u64)],
        ),
        after.slots@[before.index((first + i) as u64)].seq == first + i,
    ensures
        batch_slots(start, after, first, i + 1),
{
    let seq = (first + i) as u64;
    let k = before.index(seq);
    assert(start.index(seq) == k);
    assert(after.slots@.len() == before.slots@.len());
    assert forall|j: int| #![trigger after.slots@[j]] 0 <= j < after.slots@.len() implies if in_batch(
        start,
        j,
        first,
        i + 1,
    ) {
        first <= after.slots@[j].seq < first + (i + 1)
    } else {
        after.slots@[j] == start.slots@[j]
    } by {
        if j == k {
            assert(0 <= k < before.slots@.len());
            assert(in_batch(start, j, first, i + 1));
        } else {
            assert(after.slots@[j] == before.slots@[j]);
            if in_batch(start, j, first, i + 1) {
                let n = choose|n: u64| first <= n < first + (i + 1) && #[trigger] start.index(n)
                    == j;
                assert(n != seq);
                assert(in_batch(start, j, first, i));
            }
        }
    }
}

/// Messages that a batch does not overwrite are as they were.
pub open spec fn kept(a: &Ring<Vec<u8>>, b: &Ring<Vec<u8>>, first: u64, count: int) -> bool {
    forall|m: u64| #[trigger]
        outlives(a, m, first, count) ==> b.word(m) == a.word(m) && b.message(m) == a.message(m)
}

proof fn lemma_mirror_one(
    start: &Ring<Vec<u8>>,
    before: &Ring<Vec<u8>>,
    after: &Ring<Vec<u8>>,
    records: Seq<u8>,
    len: int,
    first: u64,
    i: int,
)
    requires
        before.wf(),
        start.header.capacity == before.header.capacity,
        after.header == before.header,
        first + i < LAST_SEQ,
        0 <= i,
        mirrored(before, records, len, first, i),
        kept(start, before, first, i),
        after.slots@.len() == before.slots@.len(),
        after.slots@ == before.slots@.update(
            before.index((first + i) as u64),
            after.slots@[before.index((first + i) as u64)],
        ),
        after.slots@[before.index((first + i) as u64)].seq == first + i,
        after.slots@[before.index((first + i) as u64)].data is Some,
        after.slots@[before.index((first + i) as u64)].data->0@ == record_at(records, len, i),
    ensures
        mirrored(after, records, len, first, i + 1),
        kept(start, after, first, i + 1),
{
    let seq = (first + i) as u64;
    let cap = before.header.capacity as int;
    assert(0 <= before.index(seq) < cap);
    assert forall|j: int|
        0 <= j < i + 1 && i + 1 - j <= after.header.capacity implies #[trigger] carries(
        after,
        records,
        len,
        first,
        j,
    ) by {
        if j < i {
            let n = (first + j) as u64;
            assert(carries(before, records, len, first, j));
            lemma_distinct_slots(seq as int, n as int, cap);
            assert(0 <= before.index(n) < cap);
        }
    }
    assert forall|m: u64| #[trigger] outlives(start, m, first, i + 1) implies after.word(m)
        == start.word(m) && after.message(m) == start.message(m) by {
        assert(outlives(start, m, first, i));
        lemma_distinct_slots(seq as int, m as int, cap);
        assert(0 <= before.index(m) < cap);
    }
}

proof fn lemma_mirrored_header(
    a: &Ring<Vec<u8>>,
    b: &Ring<Vec<u8>>,
    records: Seq<u8>,
    len: int,
    first: u64,
    count: int,
)
    requires
        b.slots == a.slots,
        b.header.capacity == a.header.capacity,
        mirrored(a, records, len, first, count),
    ensures
        mirrored(b, records, len, first, count),
{
    assert forall|i: int|
        0 <= i < count && count - i <= b.header.capacity implies #[trigger] carries(
        b,
        records,
        len,
        first,
        i,
    ) by {
        assert(carries(a, records, len, first, i));
    }
}

/// A mirror holds what its source holds. Where a session collected `count` records of the
/// source from `first` on, and a mirror took them from the session's frame, every one of
/// them that the mirror's ring retains has the same number and the same payload as on the
/// source.
pub proof fn lemma_mirror_equals_source(
    source: &Ring<Vec<u8>>,
    mirror: &Ring<Vec<u8>>,
    records: Seq<u8>,
    len: int,
    first: u64,
    count: int,
    n: u64,
)
    requires
        1 <= first,
        first + count <= LAST_SEQ,
        collected(source, records, len, first, count),
        mirrored(mirror, records, len, first, count),
        first <= n < first + count,
        first + count - n <= mirror.header.capacity,
    ensures
        source.present(n),
        mirror.present(n),
        payload_of(mirror, n) == payload_of(source, n),
{
    let i = n - first;
    assert(carries(source, records, len, first, i));
    assert(carries(mirror, records, len, first, i));
}

/// The records that a session collects always fit a frame.
pub proof fn lemma_batch_fits_frame(s: ServeSession)
    requires
        s.wf(),
    ensures
        s.records@.len() <= u32::MAX,
        data_frame(s).len == s.count * s.payload_len,
{
    assert(s.count * s.payload_len <= s.batch * s.payload_len) by (nonlinear_arith)
        requires
            s.count <= s.batch,
            0 <= s.payload_len,
    ;
}

/// The frame that a session sends is one that a mirror of the same geometry accepts: its
/// length matches its record count, and it carries the session's numbers.
pub proof fn lemma_data_frame_accepted(s: ServeSession, m: Mirror)
    requires
        s.wf(),
        s.count > 0,
        m.geometry.element_size >= 8,
        s.payload_len == m.geometry.element_size - 8,
    ensures
        ({
            let f = frame_at((data_frame(s).image() + s.records@).subrange(0, 16));
            &&& f == data_frame(s)
            &&& f.kind == KIND_DATA
            &&& m.data_ok(f)
            &&& f.seq == s.cursor
            &&& f.count == s.count
        }),
{
    let f = data_frame(s);
    lemma_frame_round_trip(f);
    lemma_batch_fits_frame(s);
    assert((f.image() + s.records@).subrange(0, 16) =~= f.image());
}

/// A mirror never goes back: while the source does not restart its numbering, the number of
/// the next record only rises, whatever frames arrive.
pub proof fn lemma_mirror_moves_forward(m: Mirror, f: Frame)
    requires
        f.seq + f.count <= LAST_SEQ,
        f.kind == KIND_DATA ==> f.seq >= m.next_seq,
    ensures
        f.kind == KIND_DATA ==> m.counted().after_records(f).next_seq >= m.next_seq,
        f.kind == KIND_GAP ==> m.counted().gapped(f.seq).next_seq >= m.next_seq,
{
}

/// A mirror that resumes picks up where it left off: if the source still retains the next
/// message, or has not published it yet, the source starts there, and the first `DATA` frame
/// follows on what the mirror has, without a gap and without a duplicate. If the source is
/// behind, it says so, and the mirror starts over.
pub proof fn lemma_resume_is_seamless(next: u64, write_seq: u64, capacity: u64, m: Mirror, f: Frame)
    requires
        capacity >= 1,
        1 <= next < HELLO_OLDEST,
        write_seq <= LAST_SEQ,
        m.next_seq == next,
        f.seq == serve_from(next, write_seq, capacity).0,
    ensures
        oldest_of(write_seq, capacity) <= next <= write_seq + 1 ==> {
            &&& serve_from(next, write_seq, capacity) == (next, 0u8)
            &&& !m.plan_for(f).restart
            &&& m.after_records(f).gaps == m.gaps
        },
        next > write_seq + 1 ==> serve_from(next, write_seq, capacity).1 == GEOMETRY_RESET,
{
}

/// Settings of a replica server.
#[derive(Debug)]
pub struct ReplicaServer {
    pub ring_path: String,
    pub batch: usize,
    pub spin: bool,
}

impl ReplicaServer {
    /// A server of the ring at `ring_path`.
    pub fn new(ring_path: String) -> (s: Self)
        ensures
            s.ring_path@ == ring_path@,
            s.batch == DEFAULT_BATCH,
            !s.spin,
    {
        ReplicaServer { ring_path, batch: DEFAULT_BATCH, spin: false }
    }

    /// Maximum records per `DATA` frame (default 256, at most 65535).
    pub fn batch(self, records: usize) -> (s: Self)
        ensures
            s == (ReplicaServer { batch: batch_size(records), ..self }),
    {
        ReplicaServer { batch: clamp_batch(records), ..self }
    }

    /// Busy-poll the ring: lowest latency, one core per mirror.
    pub fn spin(self, spin: bool) -> (s: Self)
        ensures
            s == (ReplicaServer { spin, ..self }),
    {
        ReplicaServer { spin, ..self }
    }

    pub fn ring_path(&self) -> (p: &String)
        ensures
            *p == self.ring_path,
    {
        &self.ring_path
    }
}

/// Where the numbers of a frame header, of a geometry and of a `HELLO` stand on the wire.
pub proof fn lemma_wire_layout(f: Frame, g: Geometry, wanted: u64)
    ensures
        ({
            let s = f.image();
            &&& s.len() == 16
            &&& s[0] == f.kind
            &&& s[1] == f.flags
            &&& le16(s, 2) == f.count
            &&& le32(s, 4) == f.len
            &&& le64(s, 8) == f.seq
        }),
        ({
            let s = g.image();
            &&& s.len() == 32
            &&& le64(s, 0) == g.capacity
            &&& le32(s, 8) == g.element_size
            &&& le32(s, 12) == g.flags
            &&& le64(s, 16) == g.schema_sig
            &&& le32(s, 24) == g.registry_count
            &&& le32(s, 28) == g.slots_offset
        }),
        ({
            let s = hello_image(wanted);
            &&& s.len() == 32
            &&& s[0] == 1
            &&& s[1] == 0
            &&& le32(s, 4) == 16
            &&& le64(s, 8) == wanted
            &&& le64(s, 16) == 0x5249_4E47_4D49_5252
            &&& le32(s, 24) == 1
            &&& le32(s, 28) == 0
        }),
{
    lemma_frame_round_trip(f);
    lemma_geometry_round_trip(g);
    lemma_auto_spec_u32_to_from_le_bytes();
    lemma_auto_spec_u64_to_from_le_bytes();
    let h = Frame { kind: KIND_HELLO, flags: 0, count: 0, len: 16, seq: wanted };
    lemma_frame_round_trip(h);
    let s = hello_image(wanted);
    assert(s[0] == h.image()[0] && s[1] == h.image()[1]);
    assert(s.subrange(4, 8) =~= h.image().subrange(4, 8));
    assert(s.subrange(8, 16) =~= h.image().subrange(8, 16));
    assert(s.subrange(16, 24) =~= bytes64(REPLICATION_MAGIC));
    assert(s.subrange(24, 28) =~= bytes32(REPLICATION_VERSION));
    assert(s.subrange(28, 32) =~= bytes32(0));
}

/// Which geometries a mirror accepts: those whose capacity is a power of two, whose slots are
/// whole words behind the header and the registry, and which fit the address space.
pub proof fn lemma_geometry_acceptance(g: Geometry)
    ensures
        g.valid() <==> {
            &&& is_pow2(g.capacity as nat)
            &&& g.element_size >= 8
            &&& g.element_size % 8 == 0
            &&& g.slots_offset >= 128 + g.registry_count * 64
            &&& g.slots_offset % 64 == 0
            &&& g.slots_offset + g.capacity * g.element_size <= usize::MAX
        },
{
}

/// A geometry describes the ring that it was taken from, and two rings can share records
/// exactly if nothing in their layout differs.
pub proof fn lemma_geometry_of_ring(h: RingHeader, v: RingView, a: Geometry, b: Geometry)
    requires
        v.slot_size <= u32::MAX,
        v.slots_offset <= u32::MAX,
    ensures
        ({
            let g = Geometry::of(h, v);
            &&& g.capacity == v.capacity
            &&& g.element_size == v.slot_size
            &&& g.flags == h.flags
            &&& g.schema_sig == h.schema_sig
            &&& g.registry_count == h.reader_registry_count
            &&& g.slots_offset == v.slots_offset
        }),
        a.same_slots(b) <==> a == (Geometry { flags: a.flags, ..b }),
{
}

/// A mirror ring has one writer, never waits for readers and may have holes; it has a registry
/// exactly if its source has one.
pub proof fn lemma_mirror_ring_flags(g: Geometry)
    ensures
        g.flags_of_mirror() & FLAG_MODE_SPMC != 0,
        g.flags_of_mirror() & FLAG_POLICY_LATEST_WINS != 0,
        g.flags_of_mirror() & FLAG_SPARSE != 0,
        g.flags_of_mirror() & FLAG_WITH_ARENA == 0,
        g.flags_of_mirror() & FLAG_WITH_REGISTRY != 0 <==> g.registry_count > 0,
{
    assert(forall|r: u32|
        r == FLAG_WITH_REGISTRY || r == 0 ==> {
            let f = #[trigger] (FLAG_MODE_SPMC | FLAG_POLICY_LATEST_WINS | FLAG_SPARSE | r);
            &&& f & FLAG_MODE_SPMC != 0
            &&& f & FLAG_POLICY_LATEST_WINS != 0
            &&& f & FLAG_SPARSE != 0
            &&& f & FLAG_WITH_ARENA == 0
            &&& f & FLAG_WITH_REGISTRY != 0 <==> r != 0
        }) by (bit_vector);
}

/// A fresh mirror ring has the layout of its source and holds nothing.
pub proof fn lemma_fresh_mirror_is_empty(g: Geometry, ring: &Ring<Vec<u8>>, n: u64)
    requires
        g.valid(),
        fresh_mirror(g, ring),
        1 <= n < SLOT_WRITING,
    ensures
        ring.header.capacity == g.capacity,
        ring.header.element_size == g.element_size,
        ring.header.schema_sig == g.schema_sig,
        ring.header.slots_offset == g.slots_offset,
        ring.header.reader_registry_count == g.registry_count,
        ring.header.reader_registry_offset == (if g.registry_count > 0 {
            128u32
        } else {
            0
        }),
        ring.header.flags == g.flags_of_mirror(),
        ring.header.write_seq == 0,
        ring.header.arena_size == 0,
        ring.len == g.slots_offset + g.capacity * g.element_size,
        ring.slots@[n as int % g.capacity as int].seq == 0,
        !ring.present(n),
        g.registry_count > 0 ==> ring.registry is Some && ring.registry->0.slots@.len()
            == g.registry_count,
{
    let i = ring.index(n);
    assert(0 <= i < ring.slots@.len());
    assert(ring.slots@[i].seq == 0);
}

/// Where a source starts: a mirror that wants only what is new gets the message after the
/// newest one; one that wants everything, the oldest message retained; one that names a
/// message gets it or, if it is gone, the oldest one retained. Only one that is ahead of the
/// source is told to start over, at the message after the newest one.
pub proof fn lemma_source_starts(wanted: u64, write_seq: u64, capacity: u64)
    requires
        capacity >= 1,
        write_seq <= LAST_SEQ,
    ensures
        ({
            let (first, flags) = serve_from(wanted, write_seq, capacity);
            &&& wanted == 0 ==> first == write_seq + 1 && flags == 0
            &&& wanted == u64::MAX && write_seq < capacity ==> first == 1 && flags == 0
            &&& wanted == u64::MAX && write_seq >= capacity ==> first == write_seq - capacity + 1
                && flags == 0
            &&& 0 < wanted < u64::MAX && wanted > write_seq + 1 ==> first == write_seq + 1
                && flags == 1
            &&& 0 < wanted <= write_seq + 1 && wanted + capacity > write_seq ==> first == wanted
                && flags == 0
            &&& 0 < wanted && wanted + capacity <= write_seq ==> first == write_seq - capacity + 1
                && flags == 0
        }),
{
}

/// A session sends as many records in one frame as it was asked to, but at least one, and no
/// more than the record count and the length of a frame can tell.
pub proof fn lemma_session_batch_is_largest(batch: usize, len: int, n: int)
    requires
        0 <= len <= u32::MAX,
    ensures
        ({
            let b = session_batch(batch, len);
            &&& 1 <= b <= 65535
            &&& b * len <= u32::MAX
            &&& batch >= 1 ==> b <= batch
            &&& 1 <= n <= batch && n <= 65535 && n * len <= u32::MAX ==> n <= b
        }),
{
    let b = session_batch(batch, len);
    if len == 0 {
        assert(b * len == 0) by (nonlinear_arith)
            requires
                len == 0,
        ;
    } else {
        let room = u32::MAX as int / len;
        lemma_fundamental_div_mod(u32::MAX as int, len);
        let rest = u32::MAX as int % len;
        assert(room >= 1) by (nonlinear_arith)
            requires
                u32::MAX == len * room + rest,
                0 <= rest < len,
                len <= u32::MAX,
        ;
        assert(b * len <= u32::MAX) by (nonlinear_arith)
            requires
                u32::MAX == len * room + rest,
                0 <= rest,
                b <= room,
                len > 0,
        ;
        if n * len <= u32::MAX {
            assert(n <= room) by (nonlinear_arith)
                requires
                    n * len <= len * room + rest,
                    0 <= rest < len,
            ;
        }
    }
}

/// The records of a batch follow each other: record `i` starts behind the `i` records before
/// it, and its byte `k` is the batch's byte there.
pub proof fn lemma_record_bytes(records: Seq<u8>, len: int, count: int, i: int, k: int)
    requires
        0 <= i < count,
        0 <= k < len,
        records.len() == count * len,
    ensures
        record_at(records, len, i).len() == len,
        record_at(records, len, i)[k] == records[i * len + k],
{
    lemma_record_bounds(len, i, count);
}

/// A batch that was taken into a ring stands in its slots: the record of message `n` is in the
/// slot of `n`, under that number.
pub proof fn lemma_batch_in_mirror_slots(
    ring: &Ring<Vec<u8>>,
    records: Seq<u8>,
    len: int,
    first: u64,
    count: int,
    n: u64,
)
    requires
        ring.wf(),
        1 <= first,
        first + count <= LAST_SEQ,
        mirrored(ring, records, len, first, count),
        first <= n < first + count,
        first + count - n <= ring.header.capacity,
    ensures
        ({
            let slot = ring.slots@[n as int % ring.header.capacity as int];
            &&& slot.seq == n
            &&& slot.data is Some
            &&& slot.data->0@ == records.subrange((n - first) * len, (n - first) * len + len)
        }),
{
    let i = n - first;
    assert(carries(ring, records, len, first, i));
    let j = ring.index(n);
    assert(0 <= j < ring.slots@.len());
    assert(slot_ok(ring.slots@[j], j, ring.header.capacity));
}

/// Taking a batch leaves alone what it does not replace: a message within a ring's length of
/// the batch's end, and every slot that no number of the batch belongs to.
pub proof fn lemma_batch_spares_others(
    a: &Ring<Vec<u8>>,
    b: &Ring<Vec<u8>>,
    first: u64,
    count: int,
    m: u64,
    j: int,
)
    requires
        a.wf(),
        b.wf(),
        a.header.capacity == b.header.capacity,
        kept(a, b, first, count),
        batch_slots(a, b, first, count),
        m < first,
        first + count - m <= a.header.capacity,
        0 <= j < a.slots@.len(),
        forall|n: int|
            first <= n < first + count ==> #[trigger] (n % a.header.capacity as int) != j,
    ensures
        b.slots@[m as int % a.header.capacity as int].seq == a.slots@[m as int
            % a.header.capacity as int].seq,
        b.message(m) == a.message(m),
        b.slots@[j] == a.slots@[j],
{
    assert(outlives(a, m, first, count));
    assert(0 <= a.index(m) < a.slots@.len());
    if in_batch(a, j, first, count) {
        let n = choose|n: u64| first <= n < first + count && #[trigger] a.index(n) == j;
        assert(n as int % a.header.capacity as int == j);
    }
}

/// How a mirror moves: it stands behind the last record that it took; it counts a gap exactly
/// when a batch does not start at the number it waits for, or when a source skips ahead; it
/// starts over exactly when the source's numbers fall back; it remembers the newest number
/// that the source told; and its geometry and its first number stay.
pub proof fn lemma_mirror_moves(m: Mirror, f: Frame)
    requires
        f.count >= 1,
        f.seq + f.count <= LAST_SEQ,
        m.gaps < u64::MAX,
        m.frames < u64::MAX,
    ensures
        ({
            let r = m.after_records(f);
            &&& r.next_seq == f.seq + f.count
            &&& r.gaps - m.gaps == (if f.seq == m.next_seq {
                0int
            } else {
                1
            })
            &&& r.source_seq >= f.seq + f.count - 1
            &&& r.source_seq >= m.source_seq
            &&& r.source_seq == m.source_seq || r.source_seq == f.seq + f.count - 1
            &&& r.geometry == m.geometry
            &&& r.first_seq == m.first_seq
            &&& r.resumed == m.resumed
            &&& r.frames == m.frames
        }),
        ({
            let p = m.plan_for(f);
            &&& p.restart <==> f.seq < m.next_seq
            &&& p.first == f.seq
            &&& p.count == f.count
        }),
        ({
            let r = m.gapped(f.seq);
            &&& f.seq <= m.next_seq ==> r == m
            &&& f.seq > m.next_seq ==> r.next_seq == f.seq && r.gaps == m.gaps + 1
            &&& r.source_seq == m.source_seq
            &&& r.geometry == m.geometry
            &&& r.first_seq == m.first_seq
            &&& r.resumed == m.resumed
            &&& r.frames == m.frames
        }),
        m.counted().frames == m.frames + 1,
        m.counted().next_seq == m.next_seq,
        m.counted().gaps == m.gaps,
        m.counted().source_seq == m.source_seq,
        m.counted().geometry == m.geometry,
        m.data_ok(f) <==> f.len == f.count * (m.geometry.element_size - 8),
{
}

/// What a mirror asks for.
pub proof fn lemma_what_mirror_wants(adopted: Option<Adopted>, seq: u64)
    ensures
        wanted_by(MirrorStart::Latest, adopted) == 0,
        wanted_by(MirrorStart::Oldest, adopted) == u64::MAX,
        seq >= 1 ==> wanted_by(MirrorStart::Sequence(seq), adopted) == seq,
        wanted_by(MirrorStart::Sequence(0), adopted) == 1,
        adopted matches Some(a) ==> wanted_by(MirrorStart::Resume, adopted) == a.next_seq,
        adopted is None ==> wanted_by(MirrorStart::Resume, adopted) == u64::MAX,
{
}

/// A turn of a session sends all that there is: from a ring that holds a log and still retains
/// the session's next message, it collects every message from there on, as far as one frame
/// takes them, in order and unchanged, and nothing counts as lapped.
#[verifier::rlimit(50)]
pub proof fn lemma_collect_takes_all(
    source: &Ring<Vec<u8>>,
    log: Seq<Vec<u8>>,
    s: ServeSession,
    len: int,
)
    requires
        source.wf(),
        source.holds_log(log),
        s.wf(),
        log.len() <= LAST_SEQ,
        log.len() < s.cursor + source.header.capacity,
        s.cursor <= log.len() + 1,
        len == s.payload_len,
        collected(source, s.records@, len, s.cursor, s.count as int),
        s.count < s.batch ==> !source.present((s.cursor + s.count) as u64),
    ensures
        s.count == s.batch && s.batch <= log.len() + 1 - s.cursor || s.count == log.len() + 1
            - s.cursor,
        forall|i: int|
            0 <= i < s.count ==> #[trigger] record_at(s.records@, len, i) == log[s.cursor - 1
                + i]@,
{
    assert forall|i: int| 0 <= i < s.count implies s.cursor + i <= log.len() && #[trigger] record_at(
        s.records@,
        len,
        i,
    ) == log[s.cursor - 1 + i]@ by {
        assert(carries(source, s.records@, len, s.cursor, i));
        let n = (s.cursor + i) as u64;
        let j = source.index(n);
        assert(0 <= j < source.slots@.len());
        assert(slot_ok(source.slots@[j], j, source.header.capacity));
        assert(source.slots@[j].seq <= log.len());
        assert(source.word(n) == n && source.message(n) == log[n - 1]);
    }
    if s.count > 0 {
        assert(s.cursor + (s.count - 1) <= log.len()) by {
            assert(record_at(s.records@, len, s.count - 1) == record_at(
                s.records@,
                len,
                s.count - 1,
            ));
        }
    }
    let next = (s.cursor + s.count) as u64;
    if s.count < s.batch && next <= log.len() {
        assert(source.word(next) == next);
    }
}

/// A frame without payload says so: it has its kind and its number, and no records.
pub proof fn lemma_control_frame(kind: u8, seq: u64)
    ensures
        ({
            let s = control_frame(kind, seq).image();
            &&& s.len() == 16
            &&& s[0] == kind
            &&& s[1] == 0
            &&& le16(s, 2) == 0
            &&& le32(s, 4) == 0
            &&& le64(s, 8) == seq
        }),
{
    lemma_frame_round_trip(control_frame(kind, seq));
}

/// The frame that a session sends has the records that it collected, numbered from its cursor,
/// and nothing about a session changes while it collects but the batch in the making.
pub proof fn lemma_session_frame(s: ServeSession, t: ServeSession)
    requires
        s.wf(),
        t.same_but_batch(&s),
    ensures
        ({
            let f = data_frame(s);
            &&& f.kind == 3
            &&& f.flags == 0
            &&& f.count == s.count
            &&& f.len == s.count * s.payload_len
            &&& f.seq == s.cursor
        }),
        t.capacity == s.capacity,
        t.payload_len == s.payload_len,
        t.cursor == s.cursor,
        t.batch == s.batch,
        t.spin == s.spin,
        t.idle == s.idle,
        t.last_beat_ns == s.last_beat_ns,
{
    lemma_batch_fits_frame(s);
}

/// A geometry is refused for the first thing that is wrong with it.
pub proof fn lemma_geometry_refused_for_first_fault(g: Geometry, e: RingfireError)
    requires
        g.refusal(e),
    ensures
        e is Protocol,
        !is_pow2(g.capacity as nat) ==> e->Protocol_0@ == "geometry capacity is not a power of two"@,
        is_pow2(g.capacity as nat) && (g.element_size < 8 || g.element_size % 8 != 0)
            ==> e->Protocol_0@ == "geometry element size is not a multiple of 8"@,
        is_pow2(g.capacity as nat) && g.element_size >= 8 && g.element_size % 8 == 0 && (
        g.slots_offset < 128 + g.registry_count * 64 || g.slots_offset % 64 != 0)
            ==> e->Protocol_0@ == "geometry slots offset is misplaced"@,
{
}

/// A slot that a batch replaces holds a message of that batch.
pub proof fn lemma_batch_fills_its_slots(
    a: &Ring<Vec<u8>>,
    b: &Ring<Vec<u8>>,
    first: u64,
    count: int,
    n: u64,
)
    requires
        a.wf(),
        batch_slots(a, b, first, count),
        first <= n < first + count,
    ensures
        b.slots@.len() == a.slots@.len(),
        ({
            let s = b.slots@[n as int % a.header.capacity as int];
            first <= s.seq < first + count
        }),
{
    let j = a.index(n);
    assert(0 <= j < b.slots@.len());
    assert(in_batch(a, j, first, count));
}

} // verus!
