//! Headers and slots of the shared memory regions, and the validation of a mapped region.
use crate::bytes::{bytes32, bytes64, le32, le64, push_u32, push_u64, push_zeros, read_u32, read_u64};
use crate::error::RingfireError;
use crate::math::{is_pow2, lemma_mask_is_mod};
use vstd::bytes::{
    lemma_auto_spec_u32_to_from_le_bytes, lemma_auto_spec_u64_to_from_le_bytes,
};
use vstd::prelude::*;

verus! {

/// "RINGFIRE" in ASCII.
pub const RINGFIRE_MAGIC: u64 = 0x5249_4E47_4649_5245;

/// Wire protocol version.
///
/// v2: slots are published with a write-in-progress marker ([`SLOT_WRITING`]) and the
/// header carries an explicit `slots_offset`. v1 readers must not attach to v2 rings.
pub const RINGFIRE_VERSION: u32 = 2;

/// "RINGBBOR" in ASCII.
pub const BLACKBOARD_MAGIC: u64 = 0x5249_4E47_4242_4F52;

pub const BLACKBOARD_VERSION: u32 = 1;

pub const FLAG_POLICY_LATEST_WINS: u32 = 0x0001;

pub const FLAG_POLICY_LOSSLESS_BACKPRESSURE: u32 = 0x0002;

pub const FLAG_MODE_SPMC: u32 = 0x0010;

pub const FLAG_MODE_MPMC: u32 = 0x0020;

pub const FLAG_WITH_ARENA: u32 = 0x0100;

pub const FLAG_WITH_REGISTRY: u32 = 0x0200;

/// Sequence numbers may have holes (rings written by a mirror).
pub const FLAG_SPARSE: u32 = 0x0400;

/// Slot sequence value stored while a writer is overwriting the slot payload.
///
/// Writers store it before touching the payload and replace it with the real sequence
/// afterwards, so a reader that observes the same non-marker sequence before and after
/// copying the payload knows the copy is not torn.
pub const SLOT_WRITING: u64 = 0xFFFF_FFFF_FFFF_FFFF;

/// Bytes of a ring header.
pub const RING_HEADER_SIZE: usize = 128;

/// Bytes of one entry of the reader registry.
pub const READER_SLOT_SIZE: usize = 64;

/// Bytes of the header of a payload arena.
pub const ARENA_HEADER_SIZE: usize = 64;

/// Bytes of a blackboard header.
pub const BLACKBOARD_HEADER_SIZE: usize = 128;

/// Header stored at the beginning of the ring buffer shared memory region.
#[derive(Debug, Clone, Copy)]
pub struct RingHeader {
    /// Magic signature bytes ("RINGFIRE"); written last, once the region is initialized
    pub magic: u64,
    /// Protocol version
    pub version: u32,
    /// Slot size in bytes
    pub element_size: u32,
    /// Buffer capacity (number of slots, power of 2)
    pub capacity: u64,
    /// Bitmask for modulo indexing (capacity - 1)
    pub mask: u64,
    /// Highest published sequence number
    pub write_seq: u64,
    /// Highest claimed sequence number (for MPMC producers)
    pub claim_seq: u64,
    /// Operational flags
    pub flags: u32,
    /// Futex notification word for idle consumers
    pub futex_word: u32,
    /// Count of consumers currently sleeping on the futex
    pub waiting_consumers: u32,
    /// Shared read sequence for MPMC work-queue mode
    pub read_seq: u64,
    /// Schema signature / type fingerprint (0 = unverified)
    pub schema_sig: u64,
    /// Byte offset to the payload arena from the start of the mapping (0 = no arena)
    pub arena_offset: u64,
    /// Total capacity of the payload arena in bytes (0 = no arena)
    pub arena_size: u64,
    /// Byte offset to the reader registry from the start of the mapping (0 = disabled)
    pub reader_registry_offset: u32,
    /// Maximum number of readers in registry
    pub reader_registry_count: u32,
    /// Byte offset to the first slot from the start of the mapping
    pub slots_offset: u64,
}

/// Parameters describing a ring region, used to initialize its header.
#[derive(Debug, Clone, Copy)]
pub struct RingLayout {
    pub capacity: u64,
    pub slot_size: usize,
    pub flags: u32,
    pub schema_sig: u64,
    pub claim_seq: u64,
    pub read_seq: u64,
    pub registry_offset: usize,
    pub registry_count: usize,
    pub slots_offset: usize,
    pub arena_offset: usize,
    pub arena_size: usize,
}

/// The header of a region that is laid out as `l`, not yet published.
pub open spec fn fresh_header(l: RingLayout) -> RingHeader {
    RingHeader {
        magic: 0,
        version: RINGFIRE_VERSION,
        element_size: l.slot_size as u32,
        capacity: l.capacity,
        mask: (l.capacity - 1) as u64,
        write_seq: 0,
        claim_seq: l.claim_seq,
        flags: l.flags,
        futex_word: 0,
        waiting_consumers: 0,
        read_seq: l.read_seq,
        schema_sig: l.schema_sig,
        arena_offset: l.arena_offset as u64,
        arena_size: l.arena_size as u64,
        reader_registry_offset: l.registry_offset as u32,
        reader_registry_count: l.registry_count as u32,
        slots_offset: l.slots_offset as u64,
    }
}

/// The header that the first bytes of a region spell out.
pub open spec fn header_at(s: Seq<u8>) -> RingHeader {
    RingHeader {
        magic: le64(s, 0),
        version: le32(s, 8),
        element_size: le32(s, 12),
        capacity: le64(s, 16),
        mask: le64(s, 24),
        write_seq: le64(s, 32),
        claim_seq: le64(s, 40),
        flags: le32(s, 48),
        futex_word: le32(s, 52),
        waiting_consumers: le32(s, 56),
        read_seq: le64(s, 64),
        schema_sig: le64(s, 72),
        arena_offset: le64(s, 80),
        arena_size: le64(s, 88),
        reader_registry_offset: le32(s, 96),
        reader_registry_count: le32(s, 100),
        slots_offset: le64(s, 104),
    }
}

impl RingHeader {
    /// The 128 bytes of this header.
    pub open spec fn image(self) -> Seq<u8> {
        bytes64(self.magic) + bytes32(self.version) + bytes32(self.element_size) + bytes64(
            self.capacity,
        ) + bytes64(self.mask) + bytes64(self.write_seq) + bytes64(self.claim_seq) + bytes32(
            self.flags,
        ) + bytes32(self.futex_word) + bytes32(self.waiting_consumers) + bytes32(0) + bytes64(
            self.read_seq,
        ) + bytes64(self.schema_sig) + bytes64(self.arena_offset) + bytes64(self.arena_size)
            + bytes32(self.reader_registry_offset) + bytes32(self.reader_registry_count) + bytes64(
            self.slots_offset,
        ) + Seq::new(16, |i: int| 0u8)
    }

    /// Whether flag `f` is set.
    pub open spec fn has(self, f: u32) -> bool {
        self.flags & f != 0
    }

    /// The header of a region laid out as `l`, with `magic = 0`. Call
    /// [`RingHeader::publish`] once the rest of the region (slots, registry, arena) is
    /// initialized so attaching readers never observe a half-initialized ring.
    pub fn initialize(l: &RingLayout) -> (h: RingHeader)
        requires
            l.capacity > 0,
        ensures
            h == fresh_header(*l),
    {
        RingHeader {
            magic: 0,
            version: RINGFIRE_VERSION,
            element_size: l.slot_size as u32,
            capacity: l.capacity,
            mask: l.capacity - 1,
            write_seq: 0,
            claim_seq: l.claim_seq,
            flags: l.flags,
            futex_word: 0,
            waiting_consumers: 0,
            read_seq: l.read_seq,
            schema_sig: l.schema_sig,
            arena_offset: l.arena_offset as u64,
            arena_size: l.arena_size as u64,
            reader_registry_offset: l.registry_offset as u32,
            reader_registry_count: l.registry_count as u32,
            slots_offset: l.slots_offset as u64,
        }
    }

    /// Makes an initialized ring visible to attaching readers by storing its magic.
    pub fn publish(&mut self)
        ensures
            *final(self) == (RingHeader { magic: RINGFIRE_MAGIC, ..*old(self) }),
    {
        self.magic = RINGFIRE_MAGIC;
    }

    /// Writes this header out as the 128 bytes that start a region.
    pub fn encode(&self) -> (out: Vec<u8>)
        ensures
            out@ == self.image(),
            out@.len() == RING_HEADER_SIZE,
            header_at(out@) == *self,
    {
        let mut out: Vec<u8> = Vec::new();
        push_u64(&mut out, self.magic);
        push_u32(&mut out, self.version);
        push_u32(&mut out, self.element_size);
        push_u64(&mut out, self.capacity);
        push_u64(&mut out, self.mask);
        push_u64(&mut out, self.write_seq);
        push_u64(&mut out, self.claim_seq);
        push_u32(&mut out, self.flags);
        push_u32(&mut out, self.futex_word);
        push_u32(&mut out, self.waiting_consumers);
        push_u32(&mut out, 0);
        push_u64(&mut out, self.read_seq);
        push_u64(&mut out, self.schema_sig);
        push_u64(&mut out, self.arena_offset);
        push_u64(&mut out, self.arena_size);
        push_u32(&mut out, self.reader_registry_offset);
        push_u32(&mut out, self.reader_registry_count);
        push_u64(&mut out, self.slots_offset);
        proof {
            lemma_image_parses(*self);
            lemma_auto_spec_u32_to_from_le_bytes();
            lemma_auto_spec_u64_to_from_le_bytes();
        }
        push_zeros(&mut out, 16);
        out
    }

    /// Reads the header that starts a region.
    pub fn decode(region: &[u8]) -> (h: RingHeader)
        requires
            region@.len() >= RING_HEADER_SIZE,
        ensures
            h == header_at(region@),
    {
        RingHeader {
            magic: read_u64(region, 0),
            version: read_u32(region, 8),
            element_size: read_u32(region, 12),
            capacity: read_u64(region, 16),
            mask: read_u64(region, 24),
            write_seq: read_u64(region, 32),
            claim_seq: read_u64(region, 40),
            flags: read_u32(region, 48),
            futex_word: read_u32(region, 52),
            waiting_consumers: read_u32(region, 56),
            read_seq: read_u64(region, 64),
            schema_sig: read_u64(region, 72),
            arena_offset: read_u64(region, 80),
            arena_size: read_u64(region, 88),
            reader_registry_offset: read_u32(region, 96),
            reader_registry_count: read_u32(region, 100),
            slots_offset: read_u64(region, 104),
        }
    }
}

/// Reading back the bytes of a header gives that header.
pub proof fn lemma_image_parses(h: RingHeader)
    ensures
        h.image().len() == RING_HEADER_SIZE,
        header_at(h.image()) == h,
{
    lemma_auto_spec_u32_to_from_le_bytes();
    lemma_auto_spec_u64_to_from_le_bytes();
    let s = h.image();
    assert(s.subrange(0, 8) =~= bytes64(h.magic));
    assert(s.subrange(8, 12) =~= bytes32(h.version));
    assert(s.subrange(12, 16) =~= bytes32(h.element_size));
    assert(s.subrange(16, 24) =~= bytes64(h.capacity));
    assert(s.subrange(24, 32) =~= bytes64(h.mask));
    assert(s.subrange(32, 40) =~= bytes64(h.write_seq));
    assert(s.subrange(40, 48) =~= bytes64(h.claim_seq));
    assert(s.subrange(48, 52) =~= bytes32(h.flags));
    assert(s.subrange(52, 56) =~= bytes32(h.futex_word));
    assert(s.subrange(56, 60) =~= bytes32(h.waiting_consumers));
    assert(s.subrange(64, 72) =~= bytes64(h.read_seq));
    assert(s.subrange(72, 80) =~= bytes64(h.schema_sig));
    assert(s.subrange(80, 88) =~= bytes64(h.arena_offset));
    assert(s.subrange(88, 96) =~= bytes64(h.arena_size));
    assert(s.subrange(96, 100) =~= bytes32(h.reader_registry_offset));
    assert(s.subrange(100, 104) =~= bytes32(h.reader_registry_count));
    assert(s.subrange(104, 112) =~= bytes64(h.slots_offset));
}

/// Validated location of the parts of a mapped ring region.
#[derive(Debug, Clone, Copy)]
pub struct RingView {
    pub capacity: u64,
    pub mask: u64,
    pub slot_size: usize,
    pub slots_offset: usize,
}

/// The capacity is a power of two and the mask belongs to it.
pub open spec fn capacity_ok(h: RingHeader) -> bool {
    is_pow2(h.capacity as nat) && h.mask == h.capacity - 1
}

/// The slots start behind the header, at a multiple of `align` and of 8.
pub open spec fn slots_placed(h: RingHeader, align: usize) -> bool {
    h.slots_offset >= RING_HEADER_SIZE && h.slots_offset as int % (if align >= 8 {
        align as int
    } else {
        8
    }) == 0
}

/// The slots end inside a mapping of `len` bytes.
pub open spec fn slots_inside(h: RingHeader, len: int) -> bool {
    h.capacity * h.element_size + h.slots_offset <= len
}

/// The reader registry, if there is one, is aligned and inside a mapping of `len` bytes.
pub open spec fn registry_inside(h: RingHeader, len: int) -> bool {
    h.reader_registry_offset != 0 ==> h.reader_registry_offset as int % 64 == 0
        && h.reader_registry_offset + h.reader_registry_count * READER_SLOT_SIZE <= len
}

/// The payload arena, if there is one, is aligned and inside a mapping of `len` bytes.
pub open spec fn arena_inside(h: RingHeader, len: int) -> bool {
    h.arena_offset != 0 ==> h.arena_offset as int % 64 == 0 && h.arena_offset + ARENA_HEADER_SIZE
        + h.arena_size <= len
}

/// Every part of a ring with header `h` lies inside a mapping of `len` bytes.
pub open spec fn ring_inside(h: RingHeader, len: int, align: usize) -> bool {
    &&& h.element_size >= 8
    &&& capacity_ok(h)
    &&& slots_placed(h, align)
    &&& slots_inside(h, len)
    &&& registry_inside(h, len)
    &&& arena_inside(h, len)
}

/// `h` is the header of a well-formed, published ring whose slots have the expected size
/// and whose parts lie inside a mapping of `len` bytes.
pub open spec fn valid_header(
    h: RingHeader,
    len: int,
    expected: Option<usize>,
    align: usize,
) -> bool {
    &&& h.magic == RINGFIRE_MAGIC
    &&& h.version == RINGFIRE_VERSION
    &&& expected is Some ==> h.element_size == expected->0
    &&& ring_inside(h, len, align)
}

/// The mapped bytes hold a well-formed, published ring whose slots have the expected size.
pub open spec fn valid_ring(region: Seq<u8>, expected: Option<usize>, align: usize) -> bool {
    region.len() >= RING_HEADER_SIZE && valid_header(
        header_at(region),
        region.len() as int,
        expected,
        align,
    )
}

/// The error that a header which is not that of a valid ring is refused with.
pub open spec fn header_refusal(
    h: RingHeader,
    len: int,
    expected: Option<usize>,
    align: usize,
    e: RingfireError,
) -> bool {
    if h.magic != RINGFIRE_MAGIC {
        e == (RingfireError::InvalidMagic { expected: RINGFIRE_MAGIC, actual: h.magic })
    } else if h.version != RINGFIRE_VERSION {
        e == (RingfireError::VersionMismatch { expected: RINGFIRE_VERSION, actual: h.version })
    } else if expected is Some && h.element_size != expected->0 {
        e == (RingfireError::ElementSizeMismatch {
            expected: h.element_size as usize,
            actual: expected->0,
        })
    } else if h.element_size < 8 {
        e matches RingfireError::CorruptLayout(w) && w@
            == "slot size smaller than its sequence word"@
    } else if !capacity_ok(h) {
        e matches RingfireError::CorruptLayout(w) && w@
            == "capacity is not a power of two or mask mismatch"@
    } else if !slots_placed(h, align) {
        e matches RingfireError::CorruptLayout(w) && w@ == "misplaced or misaligned slots"@
    } else if !slots_inside(h, len) {
        e matches RingfireError::CorruptLayout(w) && w@
            == "slots extend past the end of the mapping"@
    } else if !registry_inside(h, len) {
        e matches RingfireError::CorruptLayout(w) && w@ == "reader registry outside the mapping"@
    } else {
        e matches RingfireError::CorruptLayout(w) && w@ == "payload arena outside the mapping"@
    }
}

/// The error that a region which is not a valid ring is refused with.
pub open spec fn ring_refusal(
    region: Seq<u8>,
    expected: Option<usize>,
    align: usize,
    e: RingfireError,
) -> bool {
    if region.len() < RING_HEADER_SIZE {
        e matches RingfireError::CorruptLayout(w) && w@ == "mapping smaller than the ring header"@
    } else {
        header_refusal(header_at(region), region.len() as int, expected, align, e)
    }
}

/// The view of a ring with header `h`.
pub open spec fn view_of(h: RingHeader) -> RingView {
    RingView {
        capacity: h.capacity,
        mask: h.mask,
        slot_size: h.element_size as usize,
        slots_offset: h.slots_offset as usize,
    }
}

/// Validates that a mapped region holds a well-formed ring whose slots are
/// `expected_slot_size` bytes (or whatever the header says, if `None`) and
/// `slot_align`-aligned, and that every region the header points to lies inside the mapping.
pub fn validate_ring(region: &[u8], expected_slot_size: Option<usize>, slot_align: usize) -> (r:
    Result<RingView, RingfireError>)
    ensures
        r is Ok <==> valid_ring(region@, expected_slot_size, slot_align),
        r matches Ok(v) ==> v == view_of(header_at(region@)) && v.slots_offset == header_at(
            region@,
        ).slots_offset,
        r matches Err(e) ==> ring_refusal(region@, expected_slot_size, slot_align, e),
{
    let len: usize = region.len();
    if len < RING_HEADER_SIZE {
        return Err(RingfireError::CorruptLayout("mapping smaller than the ring header"));
    }
    let header = RingHeader::decode(region);
    validate_header(&header, len, expected_slot_size, slot_align)
}

/// Validates the header of a ring that is mapped as `len` bytes.
pub fn validate_header(
    header: &RingHeader,
    len: usize,
    expected_slot_size: Option<usize>,
    slot_align: usize,
) -> (r: Result<RingView, RingfireError>)
    ensures
        r is Ok <==> valid_header(*header, len as int, expected_slot_size, slot_align),
        r matches Ok(v) ==> v == view_of(*header) && v.slots_offset == header.slots_offset,
        r matches Err(e) ==> header_refusal(*header, len as int, expected_slot_size, slot_align, e),
{
    if header.magic != RINGFIRE_MAGIC {
        return Err(
            RingfireError::InvalidMagic { expected: RINGFIRE_MAGIC, actual: header.magic },
        );
    }
    if header.version != RINGFIRE_VERSION {
        return Err(
            RingfireError::VersionMismatch { expected: RINGFIRE_VERSION, actual: header.version },
        );
    }
    let slot_size: usize = header.element_size as usize;
    if let Some(expected) = expected_slot_size {
        if slot_size != expected {
            return Err(
                RingfireError::ElementSizeMismatch { expected: slot_size, actual: expected },
            );
        }
    }
    if slot_size < 8 {
        return Err(RingfireError::CorruptLayout("slot size smaller than its sequence word"));
    }
    let capacity: u64 = header.capacity;
    let pow2: bool = capacity.is_power_of_two();
    proof {
        if pow2 {
            lemma_mask_is_mod(0, capacity);
        }
    }
    if !pow2 || header.mask != capacity - 1 {
        return Err(
            RingfireError::CorruptLayout("capacity is not a power of two or mask mismatch"),
        );
    }
    let align: u64 = if slot_align >= 8 {
        slot_align as u64
    } else {
        8
    };
    if header.slots_offset < RING_HEADER_SIZE as u64 || header.slots_offset % align != 0 {
        return Err(RingfireError::CorruptLayout("misplaced or misaligned slots"));
    }
    proof {
        assert(capacity * header.element_size <= u64::MAX * u32::MAX) by (nonlinear_arith)
            requires
                capacity <= u64::MAX,
                header.element_size <= u32::MAX,
        ;
    }
    let slots_end: u128 = capacity as u128 * header.element_size as u128
        + header.slots_offset as u128;
    if slots_end > len as u128 {
        return Err(RingfireError::CorruptLayout("slots extend past the end of the mapping"));
    }
    if header.reader_registry_offset != 0 {
        let off: u64 = header.reader_registry_offset as u64;
        let end: u64 = off + header.reader_registry_count as u64 * READER_SLOT_SIZE as u64;
        if off % 64 != 0 || end > len as u64 {
            return Err(RingfireError::CorruptLayout("reader registry outside the mapping"));
        }
    }
    if header.arena_offset != 0 {
        let off: u64 = header.arena_offset;
        let end: u128 = header.arena_size as u128 + off as u128 + ARENA_HEADER_SIZE as u128;
        if off % 64 != 0 || end > len as u128 {
            return Err(RingfireError::CorruptLayout("payload arena outside the mapping"));
        }
    }
    proof {
        assert(capacity * header.element_size >= 0) by (nonlinear_arith)
            requires
                capacity >= 0,
                header.element_size >= 0,
        ;
    }
    Ok(
        RingView {
            capacity,
            mask: capacity - 1,
            slot_size,
            slots_offset: header.slots_offset as usize,
        },
    )
}

/// Checks the header's schema signature against `expected` (0 in the header = unverified).
pub fn check_schema(header: &RingHeader, expected: u64, name: String) -> (r: Result<
    (),
    RingfireError,
>)
    ensures
        r is Ok <==> header.schema_sig == 0 || header.schema_sig == expected,
        r matches Err(e) ==> e == (RingfireError::SchemaMismatch {
            expected: header.schema_sig,
            actual: expected,
            name,
        }),
{
    if header.schema_sig != 0 && header.schema_sig != expected {
        return Err(
            RingfireError::SchemaMismatch { expected: header.schema_sig, actual: expected, name },
        );
    }
    Ok(())
}

/// An entry in the shared-memory ReaderRegistry.
#[derive(Debug, Clone, Copy)]
pub struct ReaderSlot {
    /// PID of the registered reader process (0 = free slot)
    pub pid: u32,
    /// Active state flag (1 = active, 0 = inactive/departed)
    pub active: u32,
    /// Current read sequence cursor of this reader
    pub cursor_seq: u64,
    /// Last heartbeat timestamp (monotonic / TSC cycles)
    pub heartbeat_tsc: u64,
    /// Human-readable reader process/thread name
    pub name: [u8; 32],
}

/// An individual slot in the ring buffer.
#[derive(Debug, Clone, Copy)]
pub struct Slot<T> {
    /// Sequence number of this slot (0 = unwritten, [`SLOT_WRITING`] = being overwritten,
    /// N = holds message N)
    pub seq: u64,
    /// Generic fixed-size payload; `None` until the first write.
    pub data: Option<T>,
}

/// Header stored at the beginning of a Blackboard shared memory region.
#[derive(Debug, Clone, Copy)]
pub struct BlackboardHeader {
    pub magic: u64,
    pub version: u32,
    pub value_size: u32,
    pub slot_size: u32,
    pub slot_count: u32,
}

/// An individual slot in the Blackboard state table.
#[derive(Debug, Clone, Copy)]
pub struct BlackboardSlot<V> {
    /// Seqlock sequence: even = idle/consistent, odd = write in progress
    pub seqlock: u64,
    /// Fixed-size value; `None` until the first write.
    pub value: Option<V>,
}

/// Where the numbers of a header stand in its 128 bytes.
pub proof fn lemma_header_bytes(h: RingHeader)
    ensures
        ({
            let s = h.image();
            &&& s.len() == 128
            &&& le64(s, 0) == h.magic
            &&& le32(s, 8) == h.version
            &&& le32(s, 12) == h.element_size
            &&& le64(s, 16) == h.capacity
            &&& le64(s, 24) == h.mask
            &&& le64(s, 32) == h.write_seq
            &&& le64(s, 40) == h.claim_seq
            &&& le32(s, 48) == h.flags
            &&& le32(s, 52) == h.futex_word
            &&& le32(s, 56) == h.waiting_consumers
            &&& le64(s, 64) == h.read_seq
            &&& le64(s, 72) == h.schema_sig
            &&& le64(s, 80) == h.arena_offset
            &&& le64(s, 88) == h.arena_size
            &&& le32(s, 96) == h.reader_registry_offset
            &&& le32(s, 100) == h.reader_registry_count
            &&& le64(s, 104) == h.slots_offset
        }),
{
    lemma_image_parses(h);
}

/// When a ring is accepted: it is published and of this version, its slots have the expected
/// size, its capacity is a power of two that its mask belongs to, and its slots, its registry and
/// its arena are aligned and end inside the mapping; and only then.
pub proof fn lemma_header_acceptance(
    h: RingHeader,
    len: int,
    expected: Option<usize>,
    align: usize,
)
    ensures
        valid_header(h, len, expected, align) <==> {
            let a = if align >= 8 {
                align as int
            } else {
                8
            };
            &&& h.magic == RINGFIRE_MAGIC
            &&& h.version == 2
            &&& expected matches Some(n) ==> h.element_size == n
            &&& h.element_size >= 8
            &&& is_pow2(h.capacity as nat)
            &&& h.mask == h.capacity - 1
            &&& h.slots_offset >= 128
            &&& h.slots_offset as int % a == 0
            &&& h.slots_offset + h.capacity * h.element_size <= len
            &&& h.reader_registry_offset != 0 ==> h.reader_registry_offset as int % 64 == 0
                && h.reader_registry_offset + h.reader_registry_count * 64 <= len
            &&& h.arena_offset != 0 ==> h.arena_offset as int % 64 == 0 && h.arena_offset + 64
                + h.arena_size <= len
        },
{
}

/// Every slot of an accepted ring, and every slot of its registry, lies inside the mapping.
pub proof fn lemma_accepted_parts_inside(
    h: RingHeader,
    len: int,
    expected: Option<usize>,
    align: usize,
    i: int,
    j: int,
)
    requires
        valid_header(h, len, expected, align),
        0 <= i < h.capacity,
        h.reader_registry_offset != 0 ==> 0 <= j < h.reader_registry_count,
    ensures
        128 <= h.slots_offset + i * h.element_size,
        h.slots_offset + i * h.element_size + h.element_size <= len,
        view_of(h).slots_offset == h.slots_offset || h.slots_offset > usize::MAX,
        view_of(h).capacity == h.capacity,
        view_of(h).slot_size == h.element_size || h.element_size > usize::MAX,
        h.reader_registry_offset != 0 ==> h.reader_registry_offset + j * 64 + 64 <= len,
{
    assert(i * h.element_size + h.element_size <= h.capacity * h.element_size && 0 <= i
        * h.element_size) by (nonlinear_arith)
        requires
            0 <= i,
            i + 1 <= h.capacity,
            h.element_size >= 0,
    ;
}

/// A header that is not accepted is refused for the first thing that is wrong with it.
pub proof fn lemma_header_refused_for_first_fault(
    h: RingHeader,
    len: int,
    expected: Option<usize>,
    align: usize,
    e: RingfireError,
)
    requires
        header_refusal(h, len, expected, align, e),
    ensures
        h.magic != RINGFIRE_MAGIC ==> e == (RingfireError::InvalidMagic {
            expected: RINGFIRE_MAGIC,
            actual: h.magic,
        }),
        h.magic == RINGFIRE_MAGIC && h.version != 2 ==> e == (RingfireError::VersionMismatch {
            expected: 2,
            actual: h.version,
        }),
        h.magic == RINGFIRE_MAGIC && h.version == 2 && expected is Some && h.element_size
            != expected->0 ==> e == (RingfireError::ElementSizeMismatch {
            expected: h.element_size as usize,
            actual: expected->0,
        }),
        h.magic == RINGFIRE_MAGIC && h.version == 2 && (expected matches Some(n) ==> h.element_size
            == n) ==> e is CorruptLayout,
{
}

/// A new header describes the region that it was made for, with nothing published.
pub proof fn lemma_new_header(l: RingLayout)
    requires
        l.capacity >= 1,
        l.slot_size <= u32::MAX,
        l.registry_offset <= u32::MAX,
        l.registry_count <= u32::MAX,
    ensures
        ({
            let h = fresh_header(l);
            &&& h.magic == 0
            &&& h.version == 2
            &&& h.capacity == l.capacity
            &&& h.mask == l.capacity - 1
            &&& h.element_size == l.slot_size
            &&& h.write_seq == 0
            &&& h.claim_seq == l.claim_seq
            &&& h.read_seq == l.read_seq
            &&& h.flags == l.flags
            &&& h.futex_word == 0
            &&& h.waiting_consumers == 0
            &&& h.schema_sig == l.schema_sig
            &&& h.reader_registry_offset == l.registry_offset
            &&& h.reader_registry_count == l.registry_count
            &&& h.slots_offset == l.slots_offset
            &&& h.arena_offset == l.arena_offset
            &&& h.arena_size == l.arena_size
        }),
{
}

/// A damaged layout is reported by the part that is damaged: the slot size, the capacity, where
/// the slots start, where they end, the registry, and only else the arena.
pub proof fn lemma_damaged_part_is_named(
    h: RingHeader,
    len: int,
    expected: Option<usize>,
    align: usize,
    e: RingfireError,
)
    requires
        header_refusal(h, len, expected, align, e),
        h.magic == RINGFIRE_MAGIC,
        h.version == 2,
        expected matches Some(n) ==> h.element_size == n,
    ensures
        ({
            let a = if align >= 8 {
                align as int
            } else {
                8
            };
            let sized = h.element_size >= 8;
            let capacity = is_pow2(h.capacity as nat) && h.mask == h.capacity - 1;
            let start = h.slots_offset >= 128 && h.slots_offset as int % a == 0;
            let end = h.slots_offset + h.capacity * h.element_size <= len;
            let registry = h.reader_registry_offset == 0 || (h.reader_registry_offset as int % 64
                == 0 && h.reader_registry_offset + h.reader_registry_count * 64 <= len);
            let w = e->CorruptLayout_0@;
            &&& e is CorruptLayout
            &&& !sized ==> w == "slot size smaller than its sequence word"@
            &&& sized && !capacity ==> w == "capacity is not a power of two or mask mismatch"@
            &&& sized && capacity && !start ==> w == "misplaced or misaligned slots"@
            &&& sized && capacity && start && !end ==> w
                == "slots extend past the end of the mapping"@
            &&& sized && capacity && start && end && !registry ==> w
                == "reader registry outside the mapping"@
            &&& sized && capacity && start && end && registry ==> w
                == "payload arena outside the mapping"@
        }),
{
}

} // verus!
