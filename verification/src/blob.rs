//! Rings of variable-sized binary payloads: fixed-size slots carry metadata and a descriptor,
//! the bytes live in a payload arena.
use crate::arena::{
    lemma_placement, lemma_unlapped_payload_intact, overlay, ArenaHeader, BlobRef, PayloadArena,
};
use crate::consumer::{lemma_lapped_adds, lemma_one_poll, reported, schema_ok, signature};
use crate::error::RingfireError;
use crate::head::{
    lemma_receive_accounts, lemma_receive_from_log, receive, ReadHead, Received,
};
use crate::header::{
    check_schema, fresh_header, header_refusal, valid_header, validate_header, RingHeader,
    RingLayout, ARENA_HEADER_SIZE, FLAG_MODE_SPMC, FLAG_POLICY_LATEST_WINS, FLAG_WITH_ARENA,
    FLAG_WITH_REGISTRY, READER_SLOT_SIZE, RINGFIRE_MAGIC, RING_HEADER_SIZE,
};
use crate::math::{is_pow2, lemma_mask_is_mod, lemma_round_up, max_of, round_up, round_up_size};
use crate::registry::{
    available, blank, counted_indices, lag_behind, registered, reports, slowest, swept,
    ReaderInfo, ReaderRegistration, ReaderRegistry, DEFAULT_MAX_READERS,
};
use crate::ring::{
    oldest_of, oldest_retained, slot_align, slot_align_of, slot_bytes_for, slot_ok, Ring, LAST_SEQ,
};
use crate::signature::LayoutSignature;
use crate::slot::write_slot;
use crate::spmc::{
    empty_slots, lemma_store_extends_log, published_header, stored, wake_for, CleanupMode,
};
use crate::wait::wake_futex;
use core::marker::PhantomData;
use vstd::prelude::*;
use vstd::string::StringExecFns;
use vstd::utf8::encode_utf8;

verus! {

/// Descriptor stored in each ring buffer slot.
#[derive(Debug, Clone, Copy)]
pub struct BlobPacket<M> {
    pub meta: M,
    pub blob_ref: BlobRef,
}

/// Status returned by `BlobConsumer::recv_status`.
#[derive(Debug, Clone, Copy, PartialEq, Eq, Structural)]
pub enum BlobRecvStatus {
    /// New blob payload successfully received with `payload_len` bytes.
    Item { payload_len: usize },
    /// Queue is currently empty (no new blobs).
    Empty,
    /// Consumer was lapped by writer; skipped `skipped` messages and caught up.
    Lapped { skipped: u64, payload_len: usize },
}

/// Builder for configuring and creating a `BlobProducer`.
#[derive(Debug, Clone, Copy)]
pub struct BlobProducerBuilder {
    pub capacity: u64,
    pub arena_capacity: usize,
    pub max_readers: usize,
    pub cleanup_mode: CleanupMode,
    pub mode: u32,
    pub exclusive_lock: bool,
}

/// The options of a blob ring of which only the two sizes are chosen.
pub open spec fn default_options(capacity: u64, arena_capacity: usize) -> BlobProducerBuilder {
    BlobProducerBuilder {
        capacity,
        arena_capacity,
        max_readers: DEFAULT_MAX_READERS,
        cleanup_mode: CleanupMode::UnlinkOnDrop,
        mode: 0o660,
        exclusive_lock: true,
    }
}

impl BlobProducerBuilder {
    pub fn new(capacity: u64, arena_capacity: usize) -> (b: Self)
        ensures
            b == default_options(capacity, arena_capacity),
    {
        BlobProducerBuilder {
            capacity,
            arena_capacity,
            max_readers: DEFAULT_MAX_READERS,
            cleanup_mode: CleanupMode::UnlinkOnDrop,
            mode: 0o660,
            exclusive_lock: true,
        }
    }

    pub fn max_readers(self, count: usize) -> (b: Self)
        ensures
            b == (BlobProducerBuilder { max_readers: count, ..self }),
    {
        BlobProducerBuilder { max_readers: count, ..self }
    }

    pub fn cleanup_mode(self, mode: CleanupMode) -> (b: Self)
        ensures
            b == (BlobProducerBuilder { cleanup_mode: mode, ..self }),
    {
        BlobProducerBuilder { cleanup_mode: mode, ..self }
    }

    pub fn file_mode(self, mode: u32) -> (b: Self)
        ensures
            b == (BlobProducerBuilder { mode, ..self }),
    {
        BlobProducerBuilder { mode, ..self }
    }

    pub fn exclusive_lock(self, lock: bool) -> (b: Self)
        ensures
            b == (BlobProducerBuilder { exclusive_lock: lock, ..self }),
    {
        BlobProducerBuilder { exclusive_lock: lock, ..self }
    }

    /// Creates the ring that these options describe.
    pub fn build<M: Copy + LayoutSignature>(self) -> (r: Result<
        (BlobProducer<M>, BlobRing<M>),
        RingfireError,
    >)
        requires
            blob_slot_fits::<M>(),
            blob_options_ok(self) ==> blob_ring_size::<M>(self) <= usize::MAX,
        ensures
            blob_created(self, r),
    {
        BlobProducer::create_with_options(self)
    }
}

/// Bytes of a slot's packet: the metadata, then the 16-byte descriptor.
pub open spec fn packet_bytes<M>() -> int {
    round_up(round_up(vstd::layout::size_of::<M>() as int, 8) + 16, slot_align::<M>() as int)
}

/// Bytes of a slot of a blob ring.
pub open spec fn blob_slot_bytes<M>() -> int {
    slot_bytes_for(packet_bytes::<M>() as nat, slot_align::<M>())
}

/// A slot of a blob ring fits the address space.
pub open spec fn blob_slot_fits<M>() -> bool {
    blob_slot_bytes::<M>() <= usize::MAX
}

/// Bytes of a slot of a blob ring.
pub fn blob_slot_size_of<M>() -> (n: usize)
    requires
        blob_slot_fits::<M>(),
    ensures
        n == blob_slot_bytes::<M>(),
        n >= 8,
{
    let size: usize = core::mem::size_of::<M>();
    let align: usize = slot_align_of::<M>();
    proof {
        lemma_round_up(size as int, 8);
        lemma_round_up(round_up(size as int, 8) + 16, align as int);
        lemma_round_up(8, align as int);
        lemma_round_up(round_up(8, align as int) + packet_bytes::<M>(), align as int);
    }
    let meta: usize = round_up_size(size, 8);
    let packet: usize = round_up_size(meta + 16, align);
    let start: usize = round_up_size(8, align);
    round_up_size(start + packet, align)
}

/// The capacities are sound.
pub open spec fn blob_options_ok(o: BlobProducerBuilder) -> bool {
    is_pow2(o.capacity as nat) && is_pow2(o.arena_capacity as nat) && o.arena_capacity >= 64
}

/// Byte offset of the first slot.
pub open spec fn blob_slots_start(o: BlobProducerBuilder) -> int {
    round_up(RING_HEADER_SIZE + o.max_readers * READER_SLOT_SIZE, 128)
}

/// Byte offset of the arena.
pub open spec fn blob_arena_start<M>(o: BlobProducerBuilder) -> int {
    round_up(blob_slots_start(o) + o.capacity * blob_slot_bytes::<M>(), 128)
}

/// Bytes of the whole region.
pub open spec fn blob_ring_size<M>(o: BlobProducerBuilder) -> int {
    blob_arena_start::<M>(o) + ARENA_HEADER_SIZE + o.arena_capacity
}

/// Where the parts of the region go.
pub open spec fn blob_layout<M: LayoutSignature>(o: BlobProducerBuilder) -> RingLayout {
    RingLayout {
        capacity: o.capacity,
        slot_size: blob_slot_bytes::<M>() as usize,
        flags: FLAG_POLICY_LATEST_WINS | FLAG_MODE_SPMC | FLAG_WITH_ARENA | FLAG_WITH_REGISTRY,
        schema_sig: signature::<M>(),
        claim_seq: 0,
        read_seq: 0,
        registry_offset: RING_HEADER_SIZE,
        registry_count: o.max_readers,
        slots_offset: blob_slots_start(o) as usize,
        arena_offset: blob_arena_start::<M>(o) as usize,
        arena_size: o.arena_capacity,
    }
}

/// A ring of packets with its payload arena.
#[derive(Debug)]
pub struct BlobRing<M> {
    pub ring: Ring<BlobPacket<M>>,
    pub arena: PayloadArena,
}

/// The descriptor and the metadata in `p` stand for the message `e` in the arena `a`: as
/// long as the payload is not lapped, its bytes are there.
pub open spec fn packet_ok<M>(a: &PayloadArena, p: BlobPacket<M>, e: (M, Seq<u8>)) -> bool {
    &&& p.meta == e.0
    &&& p.blob_ref.len == e.1.len()
    &&& a.holds(p.blob_ref)
    &&& p.blob_ref.offset + p.blob_ref.len <= a.header.reserved
    &&& !a.lapped(p.blob_ref) ==> a.payload(p.blob_ref) == e.1
}

impl<M> BlobRing<M> {
    pub open spec fn wf(&self) -> bool {
        &&& self.ring.wf()
        &&& self.arena.wf()
    }

    /// The ring holds the tail of `packets`, which stand for the messages `log`.
    pub open spec fn holds_as(&self, packets: Seq<BlobPacket<M>>, log: Seq<(M, Seq<u8>)>) -> bool {
        &&& packets.len() == log.len()
        &&& self.ring.holds_log(packets)
        &&& forall|k: int|
            0 <= k < log.len() ==> packet_ok(&self.arena, #[trigger] packets[k], log[k])
    }

    /// The ring holds the tail of `log`, the messages published so far.
    pub open spec fn holds_blobs(&self, log: Seq<(M, Seq<u8>)>) -> bool {
        exists|packets: Seq<BlobPacket<M>>| #[trigger] self.holds_as(packets, log)
    }

    /// The packet of message `seq` can be delivered: its payload lies in the arena and has
    /// not been lapped.
    pub open spec fn readable(&self, seq: u64) -> bool {
        let r = self.ring.message(seq).blob_ref;
        self.arena.holds(r) && !self.arena.lapped(r)
    }
}

/// What a consumer at `h` finds: like [`receive`], but messages whose payload was already
/// overwritten, or whose descriptor is bogus, are skipped and counted.
pub open spec fn deliver<M>(h: ReadHead, b: &BlobRing<M>) -> Received
    decreases u64::MAX - h.cursor,
{
    let end = receive(h, &b.ring);
    if end.item && !b.readable(end.head.cursor) && h.cursor <= end.head.cursor < u64::MAX {
        deliver(end.head.skipped_to((end.head.cursor + 1) as u64), b)
    } else {
        end
    }
}

/// What creating a blob ring gives.
pub open spec fn blob_created<M: LayoutSignature>(
    o: BlobProducerBuilder,
    r: Result<(BlobProducer<M>, BlobRing<M>), RingfireError>,
) -> bool {
    match r {
        Ok((p, b)) => {
            &&& blob_options_ok(o)
            &&& b.wf()
            &&& b.ring.header == (RingHeader {
                magic: RINGFIRE_MAGIC,
                ..fresh_header(blob_layout::<M>(o))
            })
            &&& b.ring.len == blob_ring_size::<M>(o)
            &&& b.ring.registry is Some
            &&& b.ring.registry->0.slots@.len() == o.max_readers
            &&& forall|i: int|
                0 <= i < o.max_readers ==> blank(#[trigger] b.ring.registry->0.slots@[i])
            &&& b.arena.header.capacity == o.arena_capacity
            &&& b.arena.header.reserved == 0
            &&& b.holds_blobs(Seq::empty())
            &&& p.writes(&b)
            &&& p.seq == 1
            &&& p.cleanup_mode == o.cleanup_mode
            &&& blob_slot_bytes::<M>() <= u32::MAX && o.max_readers <= u32::MAX && slot_align::<
                M,
            >() <= 128 ==> valid_header(
                b.ring.header,
                b.ring.len as int,
                Some(blob_slot_bytes::<M>() as usize),
                slot_align::<M>() as usize,
            )
        },
        Err(e) => {
            &&& !blob_options_ok(o)
            &&& e == RingfireError::InvalidCapacity(
                if !is_pow2(o.capacity as nat) {
                    o.capacity
                } else {
                    o.arena_capacity as u64
                },
            )
        },
    }
}

/// Producer for variable-sized binary blobs and metadata.
#[derive(Debug)]
pub struct BlobProducer<M> {
    pub capacity: u64,
    pub mask: u64,
    pub seq: u64,
    pub cleanup_mode: CleanupMode,
    pub marker: PhantomData<M>,
}

/// A slot that is aligned to at most 128 bytes is aligned to a divisor of 128.
proof fn lemma_small_slot_align<M>()
    requires
        slot_align::<M>() <= 128,
    ensures
        ({
            let s = slot_align::<M>();
            s == 8 || s == 16 || s == 32 || s == 64 || s == 128
        }),
{
    broadcast use vstd::layout::align_properties;

    reveal_with_fuel(vstd::arithmetic::power2::is_pow2, 9);
    let a = vstd::layout::align_of::<M>() as int;
    assert(a == 1 || a == 2 || a == 4 || a == 8 || a == 16 || a == 32 || a == 64 || a == 128);
}

proof fn lemma_fresh_blob_ring_valid<M: LayoutSignature>(o: BlobProducerBuilder, h: RingHeader)
    requires
        blob_slot_fits::<M>(),
        blob_slot_bytes::<M>() >= 8,
        blob_options_ok(o),
        blob_ring_size::<M>(o) <= usize::MAX,
        slot_align::<M>() <= usize::MAX,
        h == (RingHeader { magic: RINGFIRE_MAGIC, ..fresh_header(blob_layout::<M>(o)) }),
        blob_slot_bytes::<M>() <= u32::MAX,
        o.max_readers <= u32::MAX,
        slot_align::<M>() <= 128,
    ensures
        valid_header(
            h,
            blob_ring_size::<M>(o),
            Some(blob_slot_bytes::<M>() as usize),
            slot_align::<M>() as usize,
        ),
{
    lemma_round_up(RING_HEADER_SIZE + o.max_readers * READER_SLOT_SIZE, 128);
    assert(o.capacity * blob_slot_bytes::<M>() >= 0) by (nonlinear_arith)
        requires
            blob_slot_bytes::<M>() >= 8,
            o.capacity >= 0,
    ;
    lemma_round_up(blob_slots_start(o) + o.capacity * blob_slot_bytes::<M>(), 128);
    lemma_mask_is_mod(0, o.capacity);
    let start = blob_slots_start(o);
    assert(start % slot_align::<M>() as int == 0) by {
        lemma_small_slot_align::<M>();
        assert(start % 8 == 0 && start % 16 == 0 && start % 32 == 0 && start % 64 == 0);
    }
}

impl<M> BlobProducer<M> {
    /// The producer belongs to the ring.
    pub open spec fn writes(&self, b: &BlobRing<M>) -> bool {
        &&& self.capacity == b.ring.header.capacity
        &&& self.mask == b.ring.header.mask
        &&& self.seq >= 1
    }
}

impl<M: Copy + LayoutSignature> BlobProducer<M> {
    /// Creates a new blob ring with default options.
    /// `capacity` is the number of ring slots (power of 2).
    /// `arena_capacity` is the byte capacity of the payload arena (power of 2, e.g. 16MB).
    pub fn create(capacity: u64, arena_capacity: usize) -> (r: Result<
        (Self, BlobRing<M>),
        RingfireError,
    >)
        requires
            blob_slot_fits::<M>(),
            blob_options_ok(default_options(capacity, arena_capacity)) ==> blob_ring_size::<M>(
                default_options(capacity, arena_capacity),
            ) <= usize::MAX,
        ensures
            blob_created(default_options(capacity, arena_capacity), r),
    {
        BlobProducerBuilder::new(capacity, arena_capacity).build()
    }

    /// Creates a new blob ring with custom builder options.
    pub fn create_with_options(options: BlobProducerBuilder) -> (r: Result<
        (Self, BlobRing<M>),
        RingfireError,
    >)
        requires
            blob_slot_fits::<M>(),
            blob_options_ok(options) ==> blob_ring_size::<M>(options) <= usize::MAX,
        ensures
            blob_created(options, r),
    {
        let capacity: u64 = options.capacity;
        let arena_capacity: usize = options.arena_capacity;
        let max_readers: usize = options.max_readers;

        if !capacity.is_power_of_two() {
            return Err(RingfireError::InvalidCapacity(capacity));
        }
        if !(arena_capacity as u64).is_power_of_two() || arena_capacity < 64 {
            return Err(RingfireError::InvalidCapacity(arena_capacity as u64));
        }
        // [header: 128 B] [registry: max_readers * 64 B] [slots] [arena: 64 B header + bytes]
        let slot_size: usize = blob_slot_size_of::<M>();
        let align: usize = slot_align_of::<M>();
        proof {
            lemma_mask_is_mod(0, capacity);
            lemma_round_up(RING_HEADER_SIZE + max_readers * READER_SLOT_SIZE, 128);
            assert(capacity * slot_size >= capacity) by (nonlinear_arith)
                requires
                    slot_size >= 8,
                    capacity >= 1,
            ;
            lemma_round_up(blob_slots_start(options) + capacity * slot_size, 128);
        }
        let slots_offset: usize = round_up_size(
            RING_HEADER_SIZE + max_readers * READER_SLOT_SIZE,
            128,
        );
        let slots_size: usize = capacity as usize * slot_size;
        let arena_offset: usize = round_up_size(slots_offset + slots_size, 128);
        let total: usize = arena_offset + ARENA_HEADER_SIZE + arena_capacity;

        let layout = RingLayout {
            capacity,
            slot_size,
            flags: FLAG_POLICY_LATEST_WINS | FLAG_MODE_SPMC | FLAG_WITH_ARENA | FLAG_WITH_REGISTRY,
            schema_sig: M::layout_signature(),
            claim_seq: 0,
            read_seq: 0,
            registry_offset: RING_HEADER_SIZE,
            registry_count: max_readers,
            slots_offset,
            arena_offset,
            arena_size: arena_capacity,
        };
        let mut header = RingHeader::initialize(&layout);
        let registry = Some(ReaderRegistry::init(max_readers));
        let slots = empty_slots::<BlobPacket<M>>(capacity as usize);
        let arena = match PayloadArena::init(arena_capacity) {
            Ok(a) => a,
            Err(e) => return Err(e),
        };
        header.publish();
        let b = BlobRing { ring: Ring { header, len: total, registry, slots }, arena };
        proof {
            if blob_slot_bytes::<M>() <= u32::MAX && max_readers <= u32::MAX && slot_align::<M>()
                <= 128 {
                lemma_fresh_blob_ring_valid::<M>(options, b.ring.header);
            }
            assert(b.holds_as(Seq::empty(), Seq::empty()));
        }
        Ok(
            (
                BlobProducer {
                    capacity,
                    mask: capacity - 1,
                    seq: 1,
                    cleanup_mode: options.cleanup_mode,
                    marker: PhantomData,
                },
                b,
            ),
        )
    }
}

/// Message `log.len() + 1` extends the log that a blob ring holds, once its payload is in
/// the arena and its packet is published.
proof fn lemma_push_extends_blobs<M>(
    a: &BlobRing<M>,
    b: &BlobRing<M>,
    log: Seq<(M, Seq<u8>)>,
    p: BlobPacket<M>,
    payload: Seq<u8>,
)
    requires
        a.wf(),
        a.holds_blobs(log),
        log.len() < LAST_SEQ,
        stored(&a.ring, &b.ring, (log.len() + 1) as u64, p),
        b.ring.header.capacity == a.ring.header.capacity,
        b.ring.header.write_seq == log.len() + 1,
        payload.len() <= u32::MAX,
        a.arena.counts(payload.len()),
        a.arena.written(&b.arena, payload, 0, p.blob_ref),
    ensures
        b.holds_blobs(log.push((p.meta, payload))),
{
    let packets = choose|packets: Seq<BlobPacket<M>>| #[trigger] a.holds_as(packets, log);
    lemma_store_extends_log(&a.ring, &b.ring, packets, p);
    let new_packets = packets.push(p);
    let new_log = log.push((p.meta, payload));
    let cap = a.arena.header.capacity as int;
    let res = a.arena.header.reserved as int;
    let n = payload.len() as int;
    if n > 0 {
        lemma_placement(res, n, cap);
    }
    assert forall|k: int| 0 <= k < new_log.len() implies packet_ok(
        &b.arena,
        #[trigger] new_packets[k],
        new_log[k],
    ) by {
        if k < log.len() {
            let r = packets[k].blob_ref;
            assert(packet_ok(&a.arena, packets[k], log[k]));
            if !b.arena.lapped(r) && n > 0 && r.len > 0 {
                lemma_unlapped_payload_intact(
                    a.arena.data@,
                    cap,
                    res,
                    r.offset as int,
                    r.len as int,
                    payload,
                );
            } else if n == 0 {
                assert(b.arena.data@ =~= a.arena.data@);
            }
        }
    }
    assert(b.holds_as(new_packets, new_log));
}

impl<M: Copy> BlobProducer<M> {
    /// Stores and publishes a packet. Returns its sequence number and how many consumers the
    /// kernel is to wake.
    fn publish_packet(&mut self, ring: &mut Ring<BlobPacket<M>>, packet: BlobPacket<M>) -> (r: (
        u64,
        Option<i32>,
    ))
        requires
            old(ring).wf(),
            old(self).capacity == old(ring).header.capacity,
            old(self).mask == old(ring).header.mask,
            1 <= old(self).seq < LAST_SEQ,
        ensures
            final(ring).wf(),
            stored(old(ring), final(ring), old(self).seq, packet),
            final(ring).header == published_header(old(ring).header, old(self).seq),
            final(ring).registry == old(ring).registry,
            *final(self) == (BlobProducer { seq: (old(self).seq + 1) as u64, ..*old(self) }),
            r == (old(self).seq, wake_for(old(ring).header)),
    {
        let seq: u64 = self.seq;
        let i: usize = ring.slot_index(seq);
        let mut slot = ring.slots[i];
        write_slot(&mut slot, seq, packet);
        ring.slots.set(i, slot);
        proof {
            assert forall|j: int| 0 <= j < ring.slots@.len() implies slot_ok(
                #[trigger] ring.slots@[j],
                j,
                ring.header.capacity,
            ) by {
                assert(slot_ok(old(ring).slots@[j], j, old(ring).header.capacity));
            }
        }
        ring.header.write_seq = seq;
        let wake = wake_futex(&mut ring.header, i32::MAX);
        self.seq = self.seq + 1;
        (seq, wake)
    }

    /// Publishes a message with metadata and binary payload. Returns the assigned sequence
    /// number and how many consumers the kernel is to wake.
    pub fn push(&mut self, b: &mut BlobRing<M>, meta: M, payload: &[u8]) -> (r: Result<
        (u64, Option<i32>),
        RingfireError,
    >)
        requires
            old(b).wf(),
            old(self).writes(old(b)),
            old(self).seq < LAST_SEQ,
            payload@.len() <= u32::MAX || payload@.len() > old(b).arena.header.capacity,
        ensures
            final(b).wf(),
            final(self).writes(final(b)),
            final(b).ring.registry == old(b).ring.registry,
            final(b).ring.len == old(b).ring.len,
            r is Ok <==> payload@.len() <= old(b).arena.header.capacity,
            match r {
                Ok(out) => {
                    let packet = final(b).ring.message(old(self).seq);
                    &&& out == (old(self).seq, wake_for(old(b).ring.header))
                    &&& *final(self) == (BlobProducer {
                        seq: (old(self).seq + 1) as u64,
                        ..*old(self)
                    })
                    &&& packet.meta == meta
                    &&& old(b).arena.written(&final(b).arena, payload@, 0, packet.blob_ref)
                    &&& stored(&old(b).ring, &final(b).ring, old(self).seq, packet)
                    &&& final(b).ring.header == published_header(
                        old(b).ring.header,
                        old(self).seq,
                    )
                    &&& forall|log: Seq<(M, Seq<u8>)>|
                        old(b).arena.counts(payload@.len()) && old(b).holds_blobs(log) && log.len() + 1
                            == old(self).seq ==> #[trigger] final(b).holds_blobs(log.push((meta, payload@)))
                },
                Err(e) => {
                    &&& e == (RingfireError::ArenaPayloadTooLarge {
                        len: payload@.len() as usize,
                        max_capacity: old(b).arena.header.capacity as usize,
                    })
                    &&& *final(self) == *old(self)
                    &&& *final(b) == *old(b)
                },
            },
    {
        let _n: usize = payload.len();
        let blob_ref = match b.arena.write_blob(payload, 0) {
            Ok(r) => r,
            Err(e) => return Err(e),
        };
        let out = self.publish_packet(&mut b.ring, BlobPacket { meta, blob_ref });
        proof {
            assert forall|log: Seq<(M, Seq<u8>)>|
                old(b).arena.counts(payload@.len()) && old(b).holds_blobs(log) && log.len() + 1
                    == old(self).seq implies
            #[trigger] b.holds_blobs(log.push((meta, payload@))) by {
                lemma_push_extends_blobs(
                    old(b),
                    b,
                    log,
                    BlobPacket { meta, blob_ref },
                    payload@,
                );
            }
        }
        Ok(out)
    }

    /// Publishes with writing directly into the payload arena.
    pub fn push_with<F, R>(&mut self, b: &mut BlobRing<M>, meta: M, len: usize, f: F) -> (r:
        Result<(u64, R, Option<i32>), RingfireError>) where F: FnOnce(&mut [u8]) -> R
        requires
            old(b).wf(),
            old(self).writes(old(b)),
            old(self).seq < LAST_SEQ,
            len <= u32::MAX || len > old(b).arena.header.capacity,
            forall|m: &mut [u8]| #[trigger] m@.len() == len ==> f.requires((m,)),
            forall|m: &mut [u8], out: R| #[trigger]
                f.ensures((m,), out) ==> final(m)@.len() == m@.len(),
        ensures
            final(b).wf(),
            final(self).writes(final(b)),
            final(b).ring.registry == old(b).ring.registry,
            final(b).ring.len == old(b).ring.len,
            r is Ok <==> len <= old(b).arena.header.capacity,
            r matches Ok(out) ==> {
                let packet = final(b).ring.message(old(self).seq);
                &&& out.0 == old(self).seq
                &&& out.2 == wake_for(old(b).ring.header)
                &&& *final(self) == (BlobProducer { seq: (old(self).seq + 1) as u64, ..*old(self) })
                &&& packet.meta == meta
                &&& final(b).arena.payload(packet.blob_ref).len() == len
                &&& old(b).arena.written(
                    &final(b).arena,
                    final(b).arena.payload(packet.blob_ref),
                    0,
                    packet.blob_ref,
                )
                &&& stored(&old(b).ring, &final(b).ring, old(self).seq, packet)
                &&& final(b).ring.header == published_header(old(b).ring.header, old(self).seq)
                &&& forall|log: Seq<(M, Seq<u8>)>|
                    old(b).arena.counts(len as nat) && old(b).holds_blobs(log) && log.len() + 1
                        == old(self).seq ==> #[trigger] final(b).holds_blobs(
                        log.push((meta, final(b).arena.payload(packet.blob_ref))),
                    )
            },
            r matches Ok(out) ==> exists|m: &mut [u8]| #[trigger]
                f.ensures((m,), out.1) && m@ == old(b).arena.payload(
                    final(b).ring.message(old(self).seq).blob_ref,
                ) && final(m)@ == final(b).arena.payload(
                    final(b).ring.message(old(self).seq).blob_ref,
                ),
            r matches Err(e) ==> e == (RingfireError::ArenaPayloadTooLarge {
                len,
                max_capacity: old(b).arena.header.capacity as usize,
            }) && *final(self) == *old(self) && *final(b) == *old(b),
    {
        let written = b.arena.write_blob_with(len, 0, f);
        let ghost w = written;
        let ghost filled = b.arena;
        let (blob_ref, result) = match written {
            Ok(r) => r,
            Err(e) => return Err(e),
        };
        proof {
            assert(w matches Ok((x, out)) && x == blob_ref && out == result);
            assert(exists|m: &mut [u8]| #[trigger]
                f.ensures((m,), result) && m@ == old(b).arena.payload(blob_ref) && final(m)@
                    == filled.payload(blob_ref));
        }
        let (seq, wake) = self.publish_packet(&mut b.ring, BlobPacket { meta, blob_ref });
        let r: Result<(u64, R, Option<i32>), RingfireError> = Ok((seq, result, wake));
        proof {
            assert(b.ring.message(old(self).seq).blob_ref == blob_ref);
            assert(r->Ok_0.1 == result);
            let payload = b.arena.payload(blob_ref);
            assert forall|log: Seq<(M, Seq<u8>)>|
                old(b).arena.counts(len as nat) && old(b).holds_blobs(log) && log.len() + 1
                    == old(self).seq implies
            #[trigger] b.holds_blobs(log.push((meta, payload))) by {
                lemma_push_extends_blobs(
                    old(b),
                    b,
                    log,
                    BlobPacket { meta, blob_ref },
                    payload,
                );
            }
            assert(exists|m: &mut [u8]| #[trigger]
                f.ensures((m,), r->Ok_0.1) && m@ == old(b).arena.payload(blob_ref) && final(m)@
                    == filled.payload(blob_ref));
        }
        r
    }

    /// Minimum sequence across all currently living registered readers.
    pub fn min_reader_seq(&self, b: &mut BlobRing<M>, live: &[u32]) -> (m: Option<u64>)
        requires
            old(b).ring.registry is Some,
        ensures
            slowest(old(b).ring.registry->0.slots@, live@, m),
            registry_swept(old(b), final(b), live@),
    {
        if let Some(reg) = &mut b.ring.registry {
            reg.min_reader_seq(live)
        } else {
            None
        }
    }

    /// Maximum lag across registered readers: how far the last published message is ahead of
    /// the cursor of the slowest one.
    pub fn reader_lag(&self, b: &mut BlobRing<M>, live: &[u32]) -> (n: u64)
        requires
            old(b).ring.registry is Some,
            self.seq >= 1,
        ensures
            exists|m: Option<u64>| #[trigger]
                slowest(old(b).ring.registry->0.slots@, live@, m) && n == (match m {
                    Some(v) => lag_behind((self.seq - 1) as u64, v),
                    None => 0,
                }),
            registry_swept(old(b), final(b), live@),
    {
        if let Some(reg) = &mut b.ring.registry {
            reg.reader_lag(self.seq - 1, live)
        } else {
            0
        }
    }

    /// Remaining write headroom before the slowest reader is lapped: the capacity, less the
    /// maximum lag.
    pub fn headroom(&self, b: &mut BlobRing<M>, live: &[u32]) -> (n: u64)
        requires
            old(b).ring.registry is Some,
            self.seq >= 1,
        ensures
            exists|m: Option<u64>| #[trigger]
                slowest(old(b).ring.registry->0.slots@, live@, m) && n == (match m {
                    Some(v) => lag_behind(self.capacity, lag_behind((self.seq - 1) as u64, v)),
                    None => self.capacity,
                }),
            registry_swept(old(b), final(b), live@),
    {
        if let Some(reg) = &mut b.ring.registry {
            reg.headroom(self.seq - 1, self.capacity, live)
        } else {
            self.capacity
        }
    }

    /// Status of all registered active readers.
    pub fn active_readers(&self, b: &mut BlobRing<M>, live: &[u32]) -> (out: Vec<ReaderInfo>)
        requires
            old(b).ring.registry is Some,
            self.seq >= 1,
        ensures
            reports(
                out@,
                counted_indices(old(b).ring.registry->0.slots@, live@),
                old(b).ring.registry->0.slots@,
                (self.seq - 1) as u64,
            ),
            registry_swept(old(b), final(b), live@),
    {
        if let Some(reg) = &mut b.ring.registry {
            reg.active_readers(self.seq - 1, live)
        } else {
            Vec::new()
        }
    }

    /// Current sequence number of the producer.
    pub fn sequence(&self) -> (r: u64)
        requires
            self.seq >= 1,
        ensures
            r == self.seq - 1,
    {
        self.seq - 1
    }
}

/// Convenience methods for producers with no metadata (`M = ()`).
impl BlobProducer<()> {
    /// Publishes a payload without metadata.
    pub fn push_payload(&mut self, b: &mut BlobRing<()>, payload: &[u8]) -> (r: Result<
        (u64, Option<i32>),
        RingfireError,
    >)
        requires
            old(b).wf(),
            old(self).writes(old(b)),
            old(self).seq < LAST_SEQ,
            payload@.len() <= u32::MAX || payload@.len() > old(b).arena.header.capacity,
        ensures
            final(b).wf(),
            final(self).writes(final(b)),
            final(b).ring.registry == old(b).ring.registry,
            final(b).ring.len == old(b).ring.len,
            r is Ok <==> payload@.len() <= old(b).arena.header.capacity,
            r matches Ok(out) ==> {
                let packet = final(b).ring.message(old(self).seq);
                &&& out == (old(self).seq, wake_for(old(b).ring.header))
                &&& *final(self) == (BlobProducer { seq: (old(self).seq + 1) as u64, ..*old(self) })
                &&& old(b).arena.written(&final(b).arena, payload@, 0, packet.blob_ref)
                &&& stored(&old(b).ring, &final(b).ring, old(self).seq, packet)
                &&& final(b).ring.header == published_header(old(b).ring.header, old(self).seq)
                &&& forall|log: Seq<((), Seq<u8>)>|
                    old(b).arena.counts(payload@.len()) && old(b).holds_blobs(log) && log.len() + 1
                        == old(self).seq ==> #[trigger] final(b).holds_blobs(log.push(((), payload@)))
            },
            r matches Err(e) ==> e == (RingfireError::ArenaPayloadTooLarge {
                len: payload@.len() as usize,
                max_capacity: old(b).arena.header.capacity as usize,
            }) && *final(self) == *old(self) && *final(b) == *old(b),
    {
        self.push(b, (), payload)
    }
}

/// The registry of `after` is that of `before` without the readers of dead processes.
pub open spec fn registry_swept<M>(before: &BlobRing<M>, after: &BlobRing<M>, live: Seq<u32>) -> bool {
    &&& after.ring.header == before.ring.header
    &&& after.ring.slots == before.ring.slots
    &&& after.ring.len == before.ring.len
    &&& after.arena == before.arena
    &&& after.ring.registry is Some
    &&& after.ring.registry->0.slots@ == swept(before.ring.registry->0.slots@, live)
}

/// Consumer for reading variable-sized binary blobs and metadata.
#[derive(Debug)]
pub struct BlobConsumer<M> {
    pub head: ReadHead,
    pub registration: Option<ReaderRegistration>,
    pub marker: PhantomData<M>,
}

/// A blob ring with this header and arena, in a mapping of `len` bytes, can be attached to.
pub open spec fn blob_attachable<M: LayoutSignature>(
    h: RingHeader,
    a: ArenaHeader,
    len: int,
) -> bool {
    &&& valid_header(h, len, Some(blob_slot_bytes::<M>() as usize), slot_align::<M>() as usize)
    &&& schema_ok::<M>(h)
    &&& h.arena_offset != 0
    &&& is_pow2(a.capacity as nat) && a.capacity >= 64
    &&& a.capacity == h.arena_size
}

/// What refuses a blob ring that cannot be attached to.
pub open spec fn blob_refusal<M: LayoutSignature>(
    h: RingHeader,
    a: ArenaHeader,
    len: int,
    e: RingfireError,
) -> bool {
    let slot = Some(blob_slot_bytes::<M>() as usize);
    let align = slot_align::<M>() as usize;
    if !valid_header(h, len, slot, align) {
        header_refusal(h, len, slot, align, e)
    } else if !schema_ok::<M>(h) {
        e matches RingfireError::SchemaMismatch { expected, actual, name } && expected
            == h.schema_sig && actual == signature::<M>() && name@ == M::FULL_NAME@
    } else if h.arena_offset == 0 {
        e matches RingfireError::CorruptLayout(w) && w@
            == "shared memory queue does not contain a PayloadArena"@
    } else if !(is_pow2(a.capacity as nat) && a.capacity >= 64) {
        e == RingfireError::InvalidCapacity(a.capacity)
    } else {
        e matches RingfireError::CorruptLayout(w) && w@
            == "arena header disagrees with ring header"@
    }
}

/// The read head of a consumer that starts at the oldest retained blob.
pub open spec fn blob_head(h: RingHeader) -> ReadHead {
    ReadHead {
        capacity: h.capacity,
        mask: h.mask,
        cursor: oldest_of(h.write_seq, h.capacity),
        lapped_total: 0,
        multi_producer: false,
        sparse: false,
        empty_polls: 0,
    }
}

/// Checks a blob ring's header and arena, in a mapping of `len` bytes, and places a read head
/// at the oldest retained blob.
pub fn open_blob_head<M: LayoutSignature>(
    header: &RingHeader,
    arena: &ArenaHeader,
    len: usize,
) -> (r: Result<ReadHead, RingfireError>)
    requires
        blob_slot_fits::<M>(),
    ensures
        r is Ok <==> blob_attachable::<M>(*header, *arena, len as int),
        match r {
            Ok(head) => head == blob_head(*header),
            Err(e) => blob_refusal::<M>(*header, *arena, len as int, e),
        },
{
    let slot_size: usize = blob_slot_size_of::<M>();
    let align: usize = slot_align_of::<M>();
    let view = match validate_header(header, len, Some(slot_size), align) {
        Ok(v) => v,
        Err(e) => return Err(e),
    };
    match check_schema(header, M::layout_signature(), String::from_str(M::FULL_NAME)) {
        Ok(_) => {},
        Err(e) => return Err(e),
    }
    if header.arena_offset == 0 {
        return Err(
            RingfireError::CorruptLayout("shared memory queue does not contain a PayloadArena"),
        );
    }
    let arena_capacity: u64 = match arena.open() {
        Ok(n) => n,
        Err(e) => return Err(e),
    };
    if arena_capacity != header.arena_size {
        return Err(RingfireError::CorruptLayout("arena header disagrees with ring header"));
    }
    Ok(
        ReadHead {
            capacity: view.capacity,
            mask: view.mask,
            cursor: oldest_retained(header.write_seq, view.capacity),
            lapped_total: 0,
            multi_producer: false,
            sparse: false,
            empty_polls: 0,
        },
    )
}

impl<M> BlobConsumer<M> {
    /// The consumer belongs to the ring.
    pub open spec fn attached(&self, b: &BlobRing<M>) -> bool {
        &&& self.head.reads(&b.ring)
        &&& self.registration matches Some(reg) ==> b.ring.registry is Some && reg.slot_index
            < b.ring.registry->0.slots@.len()
    }
}

impl<M: Copy + LayoutSignature> BlobConsumer<M> {
    /// Attach to an existing blob ring buffer.
    pub fn attach(b: &mut BlobRing<M>, pid: u32, live: &[u32]) -> (r: Result<Self, RingfireError>)
        requires
            old(b).ring.wf(),
            blob_slot_fits::<M>(),
        ensures
            blob_attached("anonymous"@, pid, live@, old(b), final(b), r),
    {
        Self::attach_with_name(b, "anonymous", pid, live)
    }

    /// Attach to an existing blob ring buffer and register in the `ReaderRegistry`.
    pub fn attach_with_name(
        b: &mut BlobRing<M>,
        reader_name: &str,
        pid: u32,
        live: &[u32],
    ) -> (r: Result<Self, RingfireError>)
        requires
            old(b).ring.wf(),
            blob_slot_fits::<M>(),
        ensures
            blob_attached(reader_name@, pid, live@, old(b), final(b), r),
    {
        let head = match open_blob_head::<M>(&b.ring.header, &b.arena.header, b.ring.len) {
            Ok(h) => h,
            Err(e) => return Err(e),
        };
        let registration = if let Some(registry) = &mut b.ring.registry {
            match registry.register(reader_name, head.cursor, pid, live) {
                Ok(handle) => Some(handle),
                Err(_) => None,
            }
        } else {
            None
        };
        Ok(BlobConsumer { head, registration, marker: PhantomData })
    }
}

/// What attaching to a blob ring gives.
pub open spec fn blob_attached<M: LayoutSignature>(
    name: Seq<char>,
    pid: u32,
    live: Seq<u32>,
    before: &BlobRing<M>,
    after: &BlobRing<M>,
    r: Result<BlobConsumer<M>, RingfireError>,
) -> bool {
    let h = before.ring.header;
    let cursor = oldest_of(h.write_seq, h.capacity);
    let full = before.ring.registry is Some && forall|j: int|
        0 <= j < before.ring.registry->0.slots@.len() ==> !available(
            #[trigger] before.ring.registry->0.slots@[j],
            live,
        );
    &&& after.ring.header == before.ring.header
    &&& after.ring.slots == before.ring.slots
    &&& after.ring.len == before.ring.len
    &&& after.arena == before.arena
    &&& r is Ok <==> blob_attachable::<M>(h, before.arena.header, before.ring.len as int)
    &&& match r {
        Ok(c) => {
            &&& c.attached(after)
            &&& c.head == blob_head(h)
            &&& c.registration is Some <==> before.ring.registry is Some && !full
            &&& match c.registration {
                None => after.ring.registry == before.ring.registry,
                Some(reg) => registered(
                    before.ring.registry->0.slots@,
                    after.ring.registry->0.slots@,
                    reg.slot_index as int,
                    encode_utf8(name),
                    cursor,
                    pid,
                    live,
                ),
            }
        },
        Err(e) => after.ring.registry == before.ring.registry && blob_refusal::<M>(
            h,
            before.arena.header,
            before.ring.len as int,
            e,
        ),
    }
}

/// What receiving a blob leaves unchanged.
pub open spec fn only_registry_changed<M>(before: &BlobRing<M>, after: &BlobRing<M>) -> bool {
    &&& after.ring.header == before.ring.header
    &&& after.ring.slots == before.ring.slots
    &&& after.ring.len == before.ring.len
    &&& after.arena == before.arena
}

/// The payload that `r` refers to lies in the arena and has not been lapped.
pub open spec fn in_place(a: ArenaHeader, r: BlobRef) -> bool {
    a.holds(r) && !a.lapped(r)
}

/// The read head once it has given up the message at its cursor.
pub open spec fn passed_over(h: ReadHead) -> ReadHead {
    h.skipped_to((h.cursor + 1) as u64)
}

/// The first look at the arena, before the payload of the message at the cursor is read:
/// `true` means that it may be read. If not, it was overwritten or its descriptor is bogus,
/// and the head has moved on past it.
pub fn look_at_blob(head: &mut ReadHead, arena: &ArenaHeader, r: BlobRef) -> (read: bool)
    requires
        arena.wf(),
        old(head).cursor <= LAST_SEQ,
    ensures
        read == in_place(*arena, r),
        *final(head) == (if read {
            *old(head)
        } else {
            passed_over(*old(head))
        }),
{
    if arena.is_in_bounds(r) && !arena.is_lapped(r) {
        return true;
    }
    let next: u64 = head.cursor + 1;
    let _one: u64 = head.skip_to(next);
    false
}

/// The second look at the arena, once the payload of the message at the cursor was read:
/// `before` is the arena at the first look, `after` the arena now. `true` means that what was
/// read is delivered: it was in place at both looks. If not, it is dropped and counted, and
/// the head has moved on past it as well.
pub fn settle_blob(
    head: &mut ReadHead,
    before: &ArenaHeader,
    after: &ArenaHeader,
    r: BlobRef,
) -> (delivered: bool)
    requires
        before.wf(),
        after.wf(),
        old(head).cursor <= LAST_SEQ,
    ensures
        delivered == (in_place(*before, r) && in_place(*after, r)),
        *final(head) == (if delivered {
            old(head).accepted()
        } else {
            passed_over(*old(head))
        }),
{
    let held: bool = before.is_in_bounds(r) && after.is_in_bounds(r);
    if held && !before.is_lapped(r) && !after.is_lapped(r) {
        head.accept();
        return true;
    }
    let next: u64 = head.cursor + 1;
    let _one: u64 = head.skip_to(next);
    false
}

impl<M: Copy> BlobConsumer<M> {
    /// Finds the next message whose payload can be read, skipping over lapped ones. The
    /// cursor stays at the message.
    fn next_blob(&mut self, b: &BlobRing<M>) -> (r: Option<BlobPacket<M>>)
        requires
            b.wf(),
            old(self).attached(b),
        ensures
            final(self).attached(b),
            final(self).registration == old(self).registration,
            final(self).head.cursor >= old(self).head.cursor,
            ({
                let end = deliver(old(self).head, b);
                &&& final(self).head == end.head
                &&& r == (if end.item {
                    Some(b.ring.message(end.head.cursor))
                } else {
                    None
                })
                &&& end.item ==> b.readable(end.head.cursor) && end.head.cursor <= LAST_SEQ
            }),
    {
        loop
            invariant
                b.wf(),
                self.attached(b),
                self.registration == old(self).registration,
                self.head.cursor >= old(self).head.cursor,
                deliver(old(self).head, b) == deliver(self.head, b),
            decreases u64::MAX - self.head.cursor,
        {
            proof {
                lemma_receive_accounts(self.head, &b.ring);
            }
            let (item, _skipped) = self.head.poll(&b.ring);
            match item {
                None => return None,
                Some(packet) => {
                    if look_at_blob(&mut self.head, &b.arena.header, packet.blob_ref) {
                        return Some(packet);
                    }
                },
            }
        }
    }

    /// Takes the message at the cursor as read and reports the new cursor. Nobody writes to
    /// the arena: it is the same at both looks.
    fn finish(&mut self, b: &mut BlobRing<M>, r: BlobRef)
        requires
            old(b).wf(),
            old(self).attached(old(b)),
            old(self).head.cursor <= LAST_SEQ,
            in_place(old(b).arena.header, r),
        ensures
            final(b).wf(),
            final(self).attached(final(b)),
            final(self).registration == old(self).registration,
            final(self).head == old(self).head.accepted(),
            only_registry_changed(old(b), final(b)),
            reported(
                old(b).ring.registry,
                final(b).ring.registry,
                old(self).registration,
                final(self).head.cursor,
            ),
    {
        let _delivered: bool = settle_blob(
            &mut self.head,
            &b.arena.header,
            &b.arena.header,
            r,
        );
        if let Some(reg) = &self.registration {
            if let Some(registry) = &mut b.ring.registry {
                reg.update_cursor(registry, self.head.cursor);
            }
        }
    }

    /// Read next blob message with explicit status.
    ///
    /// Messages whose payload was already overwritten in the arena are skipped and
    /// counted as lapped. Returns `BufferTooSmall` (without consuming the message) if
    /// `out` cannot hold the payload.
    pub fn recv_status(&mut self, b: &mut BlobRing<M>, meta: &mut M, out: &mut [u8]) -> (r: Result<
        BlobRecvStatus,
        RingfireError,
    >)
        requires
            old(b).wf(),
            old(self).attached(old(b)),
        ensures
            final(b).wf(),
            final(self).attached(final(b)),
            final(self).registration == old(self).registration,
            only_registry_changed(old(b), final(b)),
            final(out)@.len() == old(out)@.len(),
            ({
                let end = deliver(old(self).head, old(b));
                let p = old(b).ring.message(end.head.cursor);
                let len = p.blob_ref.len as usize;
                let skipped = (end.head.cursor - old(self).head.cursor) as u64;
                if !end.item {
                    &&& r == Ok::<BlobRecvStatus, RingfireError>(BlobRecvStatus::Empty)
                    &&& final(self).head == end.head
                    &&& *final(meta) == *old(meta)
                    &&& final(out)@ == old(out)@
                    &&& final(b).ring.registry == old(b).ring.registry
                } else if old(out)@.len() < len {
                    &&& r == Err::<BlobRecvStatus, RingfireError>(
                        RingfireError::BufferTooSmall {
                            required: len,
                            provided: old(out)@.len() as usize,
                        },
                    )
                    &&& final(self).head == end.head
                    &&& *final(meta) == *old(meta)
                    &&& final(out)@ == old(out)@
                    &&& final(b).ring.registry == old(b).ring.registry
                } else {
                    &&& r == Ok::<BlobRecvStatus, RingfireError>(
                        if skipped == 0 {
                            BlobRecvStatus::Item { payload_len: len }
                        } else {
                            BlobRecvStatus::Lapped { skipped, payload_len: len }
                        },
                    )
                    &&& final(self).head == end.head.accepted()
                    &&& *final(meta) == p.meta
                    &&& final(out)@ == overlay(old(out)@, 0, old(b).arena.payload(p.blob_ref))
                    &&& reported(
                        old(b).ring.registry,
                        final(b).ring.registry,
                        old(self).registration,
                        final(self).head.cursor,
                    )
                }
            }),
            forall|log: Seq<(M, Seq<u8>)>| #[trigger]
                old(b).holds_blobs(log) ==> {
                    let end = deliver(old(self).head, old(b));
                    let n = end.head.cursor;
                    end.item ==> 1 <= n <= log.len() && old(b).ring.message(n).meta == log[n
                        - 1].0 && old(b).arena.payload(old(b).ring.message(n).blob_ref) == log[n
                        - 1].1
                },
    {
        let start: u64 = self.head.cursor;
        proof {
            assert forall|log: Seq<(M, Seq<u8>)>| #[trigger] old(b).holds_blobs(log) implies ({
                let end = deliver(old(self).head, old(b));
                let n = end.head.cursor;
                end.item ==> 1 <= n <= log.len() && old(b).ring.message(n).meta == log[n - 1].0
                    && old(b).arena.payload(old(b).ring.message(n).blob_ref) == log[n - 1].1
            }) by {
                lemma_deliver_from_log(old(self).head, old(b), log);
            }
        }
        let packet = match self.next_blob(b) {
            None => return Ok(BlobRecvStatus::Empty),
            Some(p) => p,
        };
        let len: usize = match b.arena.read_blob(packet.blob_ref, out) {
            Ok(n) => n,
            Err(e) => return Err(e),
        };
        let skipped: u64 = self.head.cursor - start;
        *meta = packet.meta;
        self.finish(b, packet.blob_ref);
        if skipped == 0 {
            Ok(BlobRecvStatus::Item { payload_len: len })
        } else {
            Ok(BlobRecvStatus::Lapped { skipped, payload_len: len })
        }
    }

    /// Non-blocking receive returning `Ok(Some(payload_bytes))` or `Ok(None)`.
    pub fn recv(&mut self, b: &mut BlobRing<M>, meta: &mut M, out: &mut [u8]) -> (r: Result<
        Option<usize>,
        RingfireError,
    >)
        requires
            old(b).wf(),
            old(self).attached(old(b)),
        ensures
            final(b).wf(),
            final(self).attached(final(b)),
            final(self).registration == old(self).registration,
            only_registry_changed(old(b), final(b)),
            final(out)@.len() == old(out)@.len(),
            ({
                let end = deliver(old(self).head, old(b));
                let p = old(b).ring.message(end.head.cursor);
                let len = p.blob_ref.len as usize;
                if !end.item {
                    &&& r == Ok::<Option<usize>, RingfireError>(None)
                    &&& final(self).head == end.head
                    &&& *final(meta) == *old(meta)
                    &&& final(out)@ == old(out)@
                    &&& final(b).ring.registry == old(b).ring.registry
                } else if old(out)@.len() < len {
                    &&& r == Err::<Option<usize>, RingfireError>(
                        RingfireError::BufferTooSmall {
                            required: len,
                            provided: old(out)@.len() as usize,
                        },
                    )
                    &&& final(self).head == end.head
                    &&& *final(meta) == *old(meta)
                    &&& final(out)@ == old(out)@
                    &&& final(b).ring.registry == old(b).ring.registry
                } else {
                    &&& r == Ok::<Option<usize>, RingfireError>(Some(len))
                    &&& final(self).head == end.head.accepted()
                    &&& *final(meta) == p.meta
                    &&& final(out)@ == overlay(old(out)@, 0, old(b).arena.payload(p.blob_ref))
                    &&& reported(
                        old(b).ring.registry,
                        final(b).ring.registry,
                        old(self).registration,
                        final(self).head.cursor,
                    )
                }
            }),
    {
        match self.recv_status(b, meta, out) {
            Ok(BlobRecvStatus::Item { payload_len }) => Ok(Some(payload_len)),
            Ok(BlobRecvStatus::Lapped { payload_len, .. }) => Ok(Some(payload_len)),
            Ok(BlobRecvStatus::Empty) => Ok(None),
            Err(e) => Err(e),
        }
    }

    /// Inspect next blob payload in-place inside the arena closure.
    pub fn view<R, F: FnOnce(&M, &[u8]) -> R>(&mut self, b: &mut BlobRing<M>, f: F) -> (r: Option<
        R,
    >)
        requires
            old(b).wf(),
            old(self).attached(old(b)),
            forall|m: &M, s: &[u8]| f.requires((m, s)),
        ensures
            final(b).wf(),
            final(self).attached(final(b)),
            final(self).registration == old(self).registration,
            only_registry_changed(old(b), final(b)),
            r is Some <==> deliver(old(self).head, old(b)).item,
            r is None ==> final(self).head == deliver(old(self).head, old(b)).head
                && final(b).ring.registry == old(b).ring.registry,
            r is Some ==> final(self).head == deliver(old(self).head, old(b)).head.accepted()
                && reported(
                old(b).ring.registry,
                final(b).ring.registry,
                old(self).registration,
                final(self).head.cursor,
            ),
            r matches Some(out) ==> exists|m: &M, s: &[u8]| #[trigger]
                f.ensures((m, s), out) && *m == old(b).ring.message(
                    deliver(old(self).head, old(b)).head.cursor,
                ).meta && s@ == old(b).arena.payload(
                    old(b).ring.message(deliver(old(self).head, old(b)).head.cursor).blob_ref,
                ),
    {
        let packet = match self.next_blob(b) {
            None => return None,
            Some(p) => p,
        };
        let bytes = b.arena.bytes(packet.blob_ref);
        let ghost seen = bytes;
        let out = f(&packet.meta, bytes);
        self.finish(b, packet.blob_ref);
        let r = Some(out);
        proof {
            let n = deliver(old(self).head, old(b)).head.cursor;
            assert(f.ensures((&packet.meta, seen), r->0));
            assert(exists|m: &M, s: &[u8]| #[trigger]
                f.ensures((m, s), r->0) && *m == old(b).ring.message(n).meta && s@ == old(
                    b,
                ).arena.payload(old(b).ring.message(n).blob_ref));
        }
        r
    }

    /// Current consumer sequence cursor.
    pub fn cursor(&self) -> (r: u64)
        ensures
            r == self.head.cursor,
    {
        self.head.cursor
    }

    /// Total messages skipped due to writer buffer lapping.
    pub fn lapped_count(&self) -> (r: u64)
        ensures
            r == self.head.lapped_total,
    {
        self.head.lapped_total
    }

    /// Number of available messages waiting to be read.
    pub fn lag(&self, b: &BlobRing<M>) -> (r: u64)
        ensures
            r == lag_behind(
                b.ring.header.write_seq,
                if self.head.cursor >= 1 {
                    (self.head.cursor - 1) as u64
                } else {
                    0
                },
            ),
    {
        b.ring.header.write_seq.saturating_sub(self.head.cursor.saturating_sub(1))
    }

    /// Access the reader registry if enabled.
    pub fn registry<'a>(&self, b: &'a BlobRing<M>) -> (r: Option<&'a ReaderRegistry>)
        ensures
            r == (match b.ring.registry {
                Some(g) => Some(&g),
                None => None,
            }),
    {
        match &b.ring.registry {
            Some(g) => Some(g),
            None => None,
        }
    }
}

/// Convenience methods for consumers with no metadata (`M = ()`).
impl BlobConsumer<()> {
    /// Non-blocking receive of a payload without metadata.
    pub fn recv_payload(&mut self, b: &mut BlobRing<()>, out: &mut [u8]) -> (r: Result<
        Option<usize>,
        RingfireError,
    >)
        requires
            old(b).wf(),
            old(self).attached(old(b)),
        ensures
            final(b).wf(),
            final(self).attached(final(b)),
            final(self).registration == old(self).registration,
            only_registry_changed(old(b), final(b)),
            final(out)@.len() == old(out)@.len(),
            ({
                let end = deliver(old(self).head, old(b));
                let p = old(b).ring.message(end.head.cursor);
                let len = p.blob_ref.len as usize;
                if !end.item {
                    &&& r == Ok::<Option<usize>, RingfireError>(None)
                    &&& final(self).head == end.head
                    &&& final(out)@ == old(out)@
                    &&& final(b).ring.registry == old(b).ring.registry
                } else if old(out)@.len() < len {
                    &&& r == Err::<Option<usize>, RingfireError>(
                        RingfireError::BufferTooSmall {
                            required: len,
                            provided: old(out)@.len() as usize,
                        },
                    )
                    &&& final(self).head == end.head
                    &&& final(out)@ == old(out)@
                    &&& final(b).ring.registry == old(b).ring.registry
                } else {
                    &&& r == Ok::<Option<usize>, RingfireError>(Some(len))
                    &&& final(self).head == end.head.accepted()
                    &&& final(out)@ == overlay(old(out)@, 0, old(b).arena.payload(p.blob_ref))
                    &&& reported(
                        old(b).ring.registry,
                        final(b).ring.registry,
                        old(self).registration,
                        final(self).head.cursor,
                    )
                }
            }),
    {
        let mut meta: () = ();
        self.recv(b, &mut meta, out)
    }
}

/// A consumer of a blob ring that holds the tail of `log` gets only messages of that log,
/// each under its own number, with exactly its metadata and the payload that was pushed with
/// it; and every retained message that it passes over was lapped in the arena.
pub proof fn lemma_deliver_from_log<M>(h: ReadHead, b: &BlobRing<M>, log: Seq<(M, Seq<u8>)>)
    requires
        h.reads(&b.ring),
        b.wf(),
        b.holds_blobs(log),
    ensures
        ({
            let end = deliver(h, b);
            let n = end.head.cursor;
            &&& n >= h.cursor
            &&& end.item ==> {
                &&& 1 <= n <= log.len()
                &&& b.ring.present(n)
                &&& b.ring.message(n).meta == log[n - 1].0
                &&& b.arena.payload(b.ring.message(n).blob_ref) == log[n - 1].1
            }
            &&& forall|k: u64|
                max_of(h.cursor, oldest_of(b.ring.header.write_seq, h.capacity)) <= k < n && k
                    <= log.len() ==> b.arena.lapped((#[trigger] b.ring.message(k)).blob_ref)
        }),
    decreases u64::MAX - h.cursor,
{
    let packets = choose|packets: Seq<BlobPacket<M>>| #[trigger] b.holds_as(packets, log);
    lemma_receive_from_log(h, &b.ring, packets);
    lemma_receive_accounts(h, &b.ring);
    let end = receive(h, &b.ring);
    let c = end.head.cursor;
    if end.item {
        assert(b.ring.message(c) == packets[c - 1]);
        assert(packet_ok(&b.arena, packets[c - 1], log[c - 1]));
        if !b.readable(c) {
            let next = end.head.skipped_to((c + 1) as u64);
            lemma_deliver_from_log(next, b, log);
        }
    }
}

/// What a consumer of any blob ring gets is in its slot under its number, with its payload inside
/// the arena and not lapped. What its cursor passed on the way is counted as lapped. It gets
/// nothing only if its next message is not there, and where the message at its cursor is there
/// with its payload in place, it gets that one.
pub proof fn lemma_deliver_accounts<M>(h: ReadHead, b: &BlobRing<M>)
    requires
        h.reads(&b.ring),
        b.wf(),
    ensures
        ({
            let end = deliver(h, b);
            let cap = b.ring.header.capacity as int;
            let here = b.ring.slots@[h.cursor as int % cap];
            let slot = b.ring.slots@[end.head.cursor as int % cap];
            &&& end.head.reads(&b.ring)
            &&& end.head.cursor >= h.cursor
            &&& end.head.lapped_total == (h.lapped_total + (end.head.cursor - h.cursor))
                % 0x1_0000_0000_0000_0000
            &&& end.head.sparse == h.sparse
            &&& end.head.multi_producer == h.multi_producer
            &&& end.item <==> slot.seq == end.head.cursor
            &&& end.item ==> b.arena.holds(slot.data->0.blob_ref) && !b.arena.lapped(
                slot.data->0.blob_ref,
            )
            &&& here.seq == h.cursor && b.arena.holds(here.data->0.blob_ref) && !b.arena.lapped(
                here.data->0.blob_ref,
            ) ==> end.item && end.head == h
        }),
    decreases u64::MAX - h.cursor,
{
    lemma_one_poll(h, &b.ring);
    let one = receive(h, &b.ring);
    let c = one.head.cursor;
    if one.item && !b.readable(c) {
        let next = one.head.skipped_to((c + 1) as u64);
        lemma_deliver_accounts(next, b);
        let end = deliver(next, b);
        assert(deliver(h, b) == end);
        lemma_lapped_adds(h.lapped_total, one.head.lapped_total, c - h.cursor, 1);
        lemma_lapped_adds(
            h.lapped_total,
            next.lapped_total,
            next.cursor - h.cursor,
            end.head.cursor - next.cursor,
        );
    }
}

/// The consumer of a blob ring that holds the tail of `log` gets the first message, from its
/// cursor or from the oldest retained number on, whose payload is not lapped. It gets nothing
/// only if there is none, and then it stands behind the log.
#[verifier::rlimit(50)]
pub proof fn lemma_deliver_first_left<M>(h: ReadHead, b: &BlobRing<M>, log: Seq<(M, Seq<u8>)>)
    requires
        h.reads(&b.ring),
        b.wf(),
        b.holds_blobs(log),
    ensures
        ({
            let end = deliver(h, b);
            let n = end.head.cursor;
            let last = log.len() as int;
            let to = if h.cursor + b.ring.header.capacity <= last {
                last - b.ring.header.capacity + 1
            } else {
                h.cursor as int
            };
            &&& n >= to
            &&& end.item ==> n <= last && !b.arena.lapped(b.ring.message(n).blob_ref)
                && b.ring.message(n).meta == log[n - 1].0 && b.arena.payload(
                b.ring.message(n).blob_ref,
            ) == log[n - 1].1
            &&& !end.item ==> n == (if h.cursor > last {
                h.cursor as int
            } else {
                last + 1
            })
            &&& forall|k: u64|
                to <= k < n && k <= last ==> b.arena.lapped(
                    (#[trigger] b.ring.message(k)).blob_ref,
                )
        }),
    decreases u64::MAX - h.cursor,
{
    lemma_deliver_from_log(h, b, log);
    let packets = choose|packets: Seq<BlobPacket<M>>| #[trigger] b.holds_as(packets, log);
    lemma_receive_from_log(h, &b.ring, packets);
    lemma_receive_accounts(h, &b.ring);
    lemma_deliver_accounts(h, b);
    let end = receive(h, &b.ring);
    let c = end.head.cursor;
    if end.item {
        assert(b.ring.message(c) == packets[c - 1]);
        assert(packet_ok(&b.arena, packets[c - 1], log[c - 1]));
        if !b.readable(c) {
            lemma_deliver_first_left(end.head.skipped_to((c + 1) as u64), b, log);
        }
    }
}

/// The numbers of the messages that a consumer gets in up to `n` receives, and where it stands
/// then.
pub open spec fn blobs_read<M>(h: ReadHead, b: &BlobRing<M>, n: nat) -> (ReadHead, Seq<u64>)
    decreases n,
{
    let end = deliver(h, b);
    if n == 0 {
        (h, Seq::empty())
    } else if !end.item {
        (end.head, Seq::empty())
    } else {
        let rest = blobs_read(end.head.accepted(), b, (n - 1) as nat);
        (rest.0, seq![end.head.cursor] + rest.1)
    }
}

/// Receiving again and again gives every retained message from the consumer's position on whose
/// payload is not lapped, in order, and no other, until there is none left.
pub proof fn lemma_blobs_read_in_order<M>(
    h: ReadHead,
    b: &BlobRing<M>,
    log: Seq<(M, Seq<u8>)>,
    n: nat,
)
    requires
        h.reads(&b.ring),
        b.wf(),
        b.holds_blobs(log),
    ensures
        ({
            let (end, at) = blobs_read(h, b, n);
            let last = log.len() as int;
            let to = if h.cursor + b.ring.header.capacity <= last {
                last - b.ring.header.capacity + 1
            } else {
                h.cursor as int
            };
            &&& at.len() <= n
            &&& end.cursor >= h.cursor
            &&& forall|i: int, j: int| 0 <= i < j < at.len() ==> at[i] < at[j]
            &&& forall|i: int|
                0 <= i < at.len() ==> to <= (#[trigger] at[i]) < end.cursor && at[i] <= last
                    && !b.arena.lapped(b.ring.message(at[i]).blob_ref)
            &&& forall|k: u64|
                to <= k < end.cursor && k <= last && !b.arena.lapped(
                    (#[trigger] b.ring.message(k)).blob_ref,
                ) ==> at.contains(k)
            &&& at.len() < n ==> end.cursor > last
        }),
    decreases n,
{
    lemma_deliver_first_left(h, b, log);
    lemma_deliver_accounts(h, b);
    let one = deliver(h, b);
    if n > 0 && one.item {
        let c = one.head.cursor;
        let next = one.head.accepted();
        lemma_blobs_read_in_order(next, b, log, (n - 1) as nat);
        let (end, rest) = blobs_read(next, b, (n - 1) as nat);
        let at = seq![c] + rest;
        assert(blobs_read(h, b, n) == (end, at));
        let last = log.len() as int;
        let to = if h.cursor + b.ring.header.capacity <= last {
            last - b.ring.header.capacity + 1
        } else {
            h.cursor as int
        };
        assert forall|i: int| 0 <= i < at.len() implies to <= (#[trigger] at[i]) < end.cursor
            && at[i] <= last && !b.arena.lapped(b.ring.message(at[i]).blob_ref) by {
            if i > 0 {
                assert(at[i] == rest[i - 1]);
            }
        }
        assert forall|i: int, j: int| 0 <= i < j < at.len() implies at[i] < at[j] by {
            assert(at[j] == rest[j - 1]);
            if i > 0 {
                assert(at[i] == rest[i - 1]);
            }
        }
        assert forall|k: u64|
            to <= k < end.cursor && k <= last && !b.arena.lapped(
                (#[trigger] b.ring.message(k)).blob_ref,
            ) implies at.contains(k) by {
            if k == c {
                assert(at[0] == k);
            } else {
                assert(k > c);
                assert(rest.contains(k));
                let i = choose|i: int| 0 <= i < rest.len() && rest[i] == k;
                assert(at[i + 1] == k);
            }
        }
    }
}

/// A consumer that attaches to a blob ring which holds the tail of a log gets every retained
/// message whose payload is still in the arena, beginning with the oldest: it starts at the
/// oldest number that the ring retains, which is the first one in a ring that never wrapped, with
/// nothing counted as lapped, and its slot in the registry says so.
#[verifier::rlimit(50)]
pub proof fn lemma_attached_blob_consumer_replays<M: LayoutSignature>(
    name: Seq<char>,
    pid: u32,
    live: Seq<u32>,
    before: &BlobRing<M>,
    after: &BlobRing<M>,
    c: BlobConsumer<M>,
    log: Seq<(M, Seq<u8>)>,
    n: nat,
    k: u64,
)
    requires
        before.wf(),
        before.holds_blobs(log),
        blob_attached(name, pid, live, before, after, Ok(c)),
        n > before.ring.header.capacity,
    ensures
        ({
            let h = before.ring.header;
            let (end, at) = blobs_read(c.head, after, n);
            &&& c.head.cursor == (if log.len() > h.capacity {
                log.len() - h.capacity + 1
            } else {
                1
            })
            &&& c.head.lapped_total == 0
            &&& c.head.capacity == h.capacity
            &&& !c.head.sparse && !c.head.multi_producer
            &&& c.registration matches Some(reg) ==> after.ring.registry is Some
                && after.ring.registry->0.slots@[reg.slot_index as int].cursor_seq
                == c.head.cursor
            &&& end.cursor == log.len() + 1
            &&& at.contains(k) <==> 1 <= k <= log.len() && k + h.capacity > log.len()
                && !before.arena.lapped(before.ring.message(k).blob_ref)
            &&& forall|i: int, j: int| 0 <= i < j < at.len() ==> at[i] < at[j]
        }),
{
    lemma_same_blobs(before, after, log);
    let (end, at) = blobs_read(c.head, after, n);
    lemma_blobs_read_in_order(c.head, after, log, n);
    lemma_blobs_read_bounded(c.head, after, log, n);
    assert(after.ring.message(k) == before.ring.message(k));
}

/// A consumer gets at most as many messages as there are between its cursor and the end of the
/// log.
proof fn lemma_blobs_read_bounded<M>(
    h: ReadHead,
    b: &BlobRing<M>,
    log: Seq<(M, Seq<u8>)>,
    n: nat,
)
    requires
        h.reads(&b.ring),
        b.wf(),
        b.holds_blobs(log),
        h.cursor <= log.len() + 1,
    ensures
        h.cursor + blobs_read(h, b, n).1.len() <= log.len() + 1,
        blobs_read(h, b, n).0.cursor <= log.len() + 1,
    decreases n,
{
    lemma_deliver_first_left(h, b, log);
    lemma_deliver_accounts(h, b);
    let one = deliver(h, b);
    if n > 0 && one.item {
        lemma_blobs_read_bounded(one.head.accepted(), b, log, (n - 1) as nat);
    }
}

proof fn lemma_same_blobs<M>(a: &BlobRing<M>, b: &BlobRing<M>, log: Seq<(M, Seq<u8>)>)
    requires
        a.wf(),
        a.holds_blobs(log),
        b.ring.header == a.ring.header,
        b.ring.slots == a.ring.slots,
        b.arena == a.arena,
    ensures
        b.wf(),
        b.holds_blobs(log),
{
    let packets = choose|packets: Seq<BlobPacket<M>>| #[trigger] a.holds_as(packets, log);
    assert forall|n: u64|
        oldest_of(b.ring.header.write_seq, b.ring.header.capacity) <= n <= packets.len() implies (
    #[trigger] b.ring.word(n)) == n && b.ring.message(n) == packets[n - 1] by {
        assert(a.ring.word(n) == n);
    }
    assert(b.holds_as(packets, log));
}

/// What a new blob ring is: empty, of the capacities that were asked for. The registry, the
/// slots and the arena follow the header in this order, none reaches into the next one, and the
/// region ends with the arena. Its producer starts at message 1.
#[verifier::rlimit(50)]
pub proof fn lemma_created_blob_ring<M: LayoutSignature>(
    o: BlobProducerBuilder,
    p: BlobProducer<M>,
    b: BlobRing<M>,
    i: int,
)
    requires
        blob_created(o, Ok((p, b))),
        blob_slot_bytes::<M>() <= u32::MAX,
        o.max_readers <= u32::MAX,
        blob_ring_size::<M>(o) <= usize::MAX,
        0 <= i < o.capacity,
    ensures
        is_pow2(o.capacity as nat),
        is_pow2(o.arena_capacity as nat),
        o.arena_capacity >= 64,
        ({
            let h = b.ring.header;
            &&& h.magic == RINGFIRE_MAGIC
            &&& h.capacity == o.capacity
            &&& h.write_seq == 0
            &&& h.element_size == blob_slot_bytes::<M>()
            &&& h.schema_sig == signature::<M>()
            &&& h.reader_registry_offset == 128
            &&& h.reader_registry_count == o.max_readers
            &&& h.slots_offset % 128 == 0
            &&& 0 <= h.slots_offset - (128 + o.max_readers * 64) < 128
            &&& h.arena_offset % 128 == 0
            &&& 0 <= h.arena_offset - (h.slots_offset + h.capacity * h.element_size) < 128
            &&& h.arena_size == o.arena_capacity
            &&& b.ring.len == h.arena_offset + 64 + o.arena_capacity
            &&& h.flags & FLAG_WITH_ARENA != 0
            &&& h.flags & FLAG_WITH_REGISTRY != 0
            &&& h.flags & FLAG_MODE_SPMC != 0
        }),
        b.ring.slots@.len() == o.capacity,
        b.ring.slots@[i].seq == 0,
        b.arena.header.capacity == o.arena_capacity,
        b.arena.header.reserved == 0,
        b.ring.registry is Some,
        b.ring.registry->0.slots@.len() == o.max_readers,
        p.seq == 1,
{
    let slot = blob_slot_bytes::<M>();
    lemma_blob_slot_size::<M>();
    lemma_round_up(RING_HEADER_SIZE + o.max_readers * READER_SLOT_SIZE, 128);
    let start = blob_slots_start(o);
    assert(0 <= o.capacity * slot) by (nonlinear_arith)
        requires
            slot >= 0,
    ;
    lemma_round_up(start + o.capacity * slot, 128);
    assert((FLAG_POLICY_LATEST_WINS | FLAG_MODE_SPMC | FLAG_WITH_ARENA | FLAG_WITH_REGISTRY)
        & FLAG_WITH_ARENA != 0 && (FLAG_POLICY_LATEST_WINS | FLAG_MODE_SPMC | FLAG_WITH_ARENA
        | FLAG_WITH_REGISTRY) & FLAG_WITH_REGISTRY != 0 && (FLAG_POLICY_LATEST_WINS
        | FLAG_MODE_SPMC | FLAG_WITH_ARENA | FLAG_WITH_REGISTRY) & FLAG_MODE_SPMC != 0)
        by (bit_vector);
    let packets = choose|packets: Seq<BlobPacket<M>>| #[trigger] b.holds_as(packets, Seq::empty());
    assert(b.ring.slots@[i].seq <= packets.len());
}

/// A slot of a blob ring has room for the sequence word, the metadata and the descriptor.
pub proof fn lemma_blob_slot_size<M>()
    ensures
        packet_bytes::<M>() >= vstd::layout::size_of::<M>() + 16,
        packet_bytes::<M>() % slot_align::<M>() as int == 0,
        blob_slot_bytes::<M>() >= 8 + packet_bytes::<M>(),
        blob_slot_bytes::<M>() % slot_align::<M>() as int == 0,
{
    let size = vstd::layout::size_of::<M>() as int;
    let align = slot_align::<M>() as int;
    lemma_round_up(size, 8);
    lemma_round_up(round_up(size, 8) + 16, align);
    lemma_round_up(8, align);
    lemma_round_up(round_up(8, align) + packet_bytes::<M>(), align);
}

/// When a blob ring is refused: it is created exactly if both capacities are powers of two and
/// the arena has at least 64 bytes, and the refusal names the capacity at fault.
pub proof fn lemma_blob_ring_refused<M: LayoutSignature>(
    o: BlobProducerBuilder,
    r: Result<(BlobProducer<M>, BlobRing<M>), RingfireError>,
)
    requires
        blob_created(o, r),
    ensures
        r is Ok <==> is_pow2(o.capacity as nat) && is_pow2(o.arena_capacity as nat)
            && o.arena_capacity >= 64,
        !is_pow2(o.capacity as nat) ==> r->Err_0 == RingfireError::InvalidCapacity(o.capacity),
        is_pow2(o.capacity as nat) && r is Err ==> r->Err_0 == RingfireError::InvalidCapacity(
            o.arena_capacity as u64,
        ),
{
}

/// Which blob rings can be attached to: valid rings of the same record type, with an arena whose
/// own header agrees with the ring's. The refusal names the first fault.
pub proof fn lemma_blob_ring_acceptance<M: LayoutSignature>(
    h: RingHeader,
    a: ArenaHeader,
    len: int,
    e: RingfireError,
)
    ensures
        ({
            let slot = Some(blob_slot_bytes::<M>() as usize);
            let align = slot_align::<M>() as usize;
            let fits = valid_header(h, len, slot, align);
            let same = h.schema_sig == 0 || h.schema_sig == signature::<M>();
            let sound = is_pow2(a.capacity as nat) && a.capacity >= 64;
            &&& blob_attachable::<M>(h, a, len) <==> fits && same && h.arena_offset != 0 && sound
                && a.capacity == h.arena_size
            &&& blob_refusal::<M>(h, a, len, e) && fits ==> {
                &&& !same ==> e is SchemaMismatch && e->SchemaMismatch_expected == h.schema_sig
                    && e->SchemaMismatch_actual == signature::<M>()
                &&& same && h.arena_offset == 0 ==> e is CorruptLayout
                &&& same && h.arena_offset != 0 && !sound ==> e == RingfireError::InvalidCapacity(
                    a.capacity,
                )
                &&& same && h.arena_offset != 0 && sound ==> e is CorruptLayout
            }
            &&& blob_refusal::<M>(h, a, len, e) && !fits ==> header_refusal(h, len, slot, align, e)
        }),
{
}

/// A payload is read only while it lies in the arena and the writer has not reserved a full
/// arena beyond its start; a message that is given up counts as lapped, and the reader goes on
/// at the next one.
pub proof fn lemma_when_blob_is_read(a: ArenaHeader, r: BlobRef, h: ReadHead)
    requires
        a.wf(),
        h.cursor < u64::MAX,
    ensures
        in_place(a, r) <==> {
            &&& r.offset as int % a.capacity as int + r.len <= a.capacity
            &&& r.len == 0 || a.reserved - r.offset <= a.capacity
        },
        passed_over(h).cursor == h.cursor + 1,
        passed_over(h).lapped_total == (h.lapped_total + 1) % 0x1_0000_0000_0000_0000,
        passed_over(h).capacity == h.capacity,
{
}

/// What attaching gives: a reader at the oldest message retained, with nothing lapped. It is
/// registered, with its process and that position, exactly if the ring has a registry with a
/// slot to spare; no message and no payload changes.
pub proof fn lemma_attached_blob_reader<M: LayoutSignature>(
    name: Seq<char>,
    pid: u32,
    live: Seq<u32>,
    before: &BlobRing<M>,
    after: &BlobRing<M>,
    c: BlobConsumer<M>,
)
    requires
        blob_attached(name, pid, live, before, after, Ok(c)),
        before.ring.wf(),
    ensures
        ({
            let w = before.ring.header.write_seq;
            let cap = before.ring.header.capacity;
            &&& w < cap ==> c.head.cursor == 1
            &&& w >= cap ==> c.head.cursor == w - cap + 1
            &&& c.head.lapped_total == 0
            &&& c.head.capacity == cap
            &&& after.ring.slots == before.ring.slots
            &&& after.ring.header == before.ring.header
            &&& after.arena == before.arena
            &&& c.registration matches Some(reg) ==> {
                let s = after.ring.registry->0.slots@[reg.slot_index as int];
                &&& s.pid == pid
                &&& s.cursor_seq == c.head.cursor
            }
            &&& c.registration is None && before.ring.registry is Some ==> forall|j: int|
                0 <= j < before.ring.registry->0.slots@.len() ==> !available(
                    #[trigger] before.ring.registry->0.slots@[j],
                    live,
                )
            &&& before.ring.registry is None ==> c.registration is None
        }),
{
}

/// Neither receiving nor looking at the readers changes a message, a payload or a counter of
/// the ring; sweeping out dead readers changes the registry alone.
pub proof fn lemma_blob_bookkeeping<M>(
    a: &BlobRing<M>,
    b: &BlobRing<M>,
    live: Seq<u32>,
    i: int,
)
    requires
        only_registry_changed(a, b) || registry_swept(a, b, live),
    ensures
        b.ring.slots == a.ring.slots,
        b.ring.header == a.ring.header,
        b.ring.len == a.ring.len,
        b.arena == a.arena,
        registry_swept(a, b, live) && 0 <= i < a.ring.registry->0.slots@.len() && live.contains(
            a.ring.registry->0.slots@[i].pid,
        ) ==> b.ring.registry->0.slots@[i] == a.ring.registry->0.slots@[i],
{
}

} // verus!
