//! Single-producer rings: policies and the write side.
//!
//! The shared memory region is a [`Ring`] value here. Where a live region is mapped, the
//! caller performs the loads and stores, and the same decisions are taken by
//! [`RingProducer::refresh_gate`], [`RingProducer::may_write`] and
//! [`RingProducer::advance`].
use crate::error::RingfireError;
use crate::header::{
    fresh_header, valid_header, RingHeader, RingLayout, Slot, FLAG_MODE_MPMC,
    FLAG_MODE_SPMC, FLAG_POLICY_LATEST_WINS, FLAG_POLICY_LOSSLESS_BACKPRESSURE, FLAG_WITH_REGISTRY,
    READER_SLOT_SIZE, RINGFIRE_MAGIC, RING_HEADER_SIZE,
};
use crate::math::{
    is_pow2, lemma_distinct_slots, lemma_mask_is_mod, lemma_round_up, round_up, round_up_size,
};
use crate::registry::{
    dead_slots, lag_behind, lemma_min_active, min_active, pruned, slowest, swept, ReaderRegistry,
    DEFAULT_MAX_READERS,
};
use crate::ring::{
    lemma_slot_aligned, lemma_slot_size, oldest_of, slot_align, slot_align_of, slot_bytes,
    slot_fits, slot_ok, slot_size_of, Ring, LAST_SEQ,
};
use crate::signature::{signature_of, LayoutSignature};
use crate::slot::write_slot;
use crate::wait::wake_futex;
use core::marker::PhantomData;
use vstd::prelude::*;

verus! {

/// Cleanup behavior for the shared memory file when the producer is dropped.
#[derive(Debug, Clone, Copy, PartialEq, Eq, Structural)]
pub enum CleanupMode {
    /// Automatically remove the file when the producer is dropped.
    UnlinkOnDrop,
    /// Keep the file across process termination.
    Persistent,
}

/// Flow control policy for ring buffer publishing.
#[derive(Debug, Clone, Copy, PartialEq, Eq, Structural)]
pub enum FlowControl {
    /// Writer always writes; lagging readers are lapped (LatestWins, lossy).
    LossyLatestWins,
    /// Writer paces itself and waits if writing would overwrite the slowest active
    /// registered reader (guaranteed delivery).
    LosslessBackpressure,
}

/// Status returned by `RingConsumer::recv_status`.
#[derive(Debug, Clone, Copy, PartialEq, Eq)]
pub enum RecvStatus<T> {
    /// New item successfully received.
    Item(T),
    /// No new items currently available.
    Empty,
    /// Consumer was lapped by writer; skipped `skipped` messages and caught up to `item`.
    Lapped { skipped: u64, item: T },
}

/// The message that a receive gave, if any.
pub open spec fn item_of<T>(status: RecvStatus<T>) -> Option<T> {
    match status {
        RecvStatus::Item(item) => Some(item),
        RecvStatus::Lapped { item, .. } => Some(item),
        RecvStatus::Empty => None,
    }
}

/// Builder for configuring and creating a `RingProducer`.
#[derive(Debug, Clone, Copy)]
pub struct RingProducerBuilder {
    pub capacity: u64,
    pub cleanup_mode: CleanupMode,
    pub flow_control: FlowControl,
    pub max_readers: usize,
    pub mode: u32,
    pub exclusive_lock: bool,
}

/// The options of a ring of which only the capacity is chosen.
pub open spec fn plain_options(capacity: u64) -> RingProducerBuilder {
    RingProducerBuilder {
        capacity,
        cleanup_mode: CleanupMode::UnlinkOnDrop,
        flow_control: FlowControl::LossyLatestWins,
        max_readers: 0,
        mode: 0o660,
        exclusive_lock: true,
    }
}

impl RingProducerBuilder {
    pub fn new(capacity: u64) -> (b: Self)
        ensures
            b == plain_options(capacity),
    {
        RingProducerBuilder {
            capacity,
            cleanup_mode: CleanupMode::UnlinkOnDrop,
            flow_control: FlowControl::LossyLatestWins,
            max_readers: 0,
            mode: 0o660,
            exclusive_lock: true,
        }
    }

    pub fn cleanup_mode(self, mode: CleanupMode) -> (b: Self)
        ensures
            b == (RingProducerBuilder { cleanup_mode: mode, ..self }),
    {
        RingProducerBuilder { cleanup_mode: mode, ..self }
    }

    /// Sets the flow control policy; the lossless one brings a reader registry.
    pub fn flow_control(self, flow_control: FlowControl) -> (b: Self)
        ensures
            b == (RingProducerBuilder {
                flow_control,
                max_readers: if flow_control == FlowControl::LosslessBackpressure
                    && self.max_readers == 0 {
                    DEFAULT_MAX_READERS
                } else {
                    self.max_readers
                },
                ..self
            }),
    {
        let max_readers: usize = if flow_control == FlowControl::LosslessBackpressure
            && self.max_readers == 0 {
            DEFAULT_MAX_READERS
        } else {
            self.max_readers
        };
        RingProducerBuilder { flow_control, max_readers, ..self }
    }

    pub fn max_readers(self, max: usize) -> (b: Self)
        ensures
            b == (RingProducerBuilder { max_readers: max, ..self }),
    {
        RingProducerBuilder { max_readers: max, ..self }
    }

    pub fn file_mode(self, mode: u32) -> (b: Self)
        ensures
            b == (RingProducerBuilder { mode, ..self }),
    {
        RingProducerBuilder { mode, ..self }
    }

    pub fn exclusive_lock(self, lock: bool) -> (b: Self)
        ensures
            b == (RingProducerBuilder { exclusive_lock: lock, ..self }),
    {
        RingProducerBuilder { exclusive_lock: lock, ..self }
    }

    /// Number of registry slots of the ring: a lossless ring always has a registry.
    pub open spec fn readers(self) -> usize {
        if self.flow_control == FlowControl::LosslessBackpressure && self.max_readers == 0 {
            DEFAULT_MAX_READERS
        } else {
            self.max_readers
        }
    }

    /// Creates the ring that these options describe.
    pub fn build<T: Copy + LayoutSignature>(self) -> (r: Result<
        (RingProducer<T>, Ring<T>),
        RingfireError,
    >)
        requires
            slot_fits::<T>(),
            is_pow2(self.capacity as nat) ==> ring_size::<T>(self) <= usize::MAX,
        ensures
            created(self, r),
    {
        RingProducer::create_with_options(self)
    }
}

/// Byte offset of the first slot.
pub open spec fn slots_start<T>(o: RingProducerBuilder) -> int {
    round_up(
        RING_HEADER_SIZE + o.readers() * READER_SLOT_SIZE,
        if slot_align::<T>() >= 64 {
            slot_align::<T>() as int
        } else {
            64
        },
    )
}

/// Bytes of the whole region.
pub open spec fn ring_size<T>(o: RingProducerBuilder) -> int {
    slots_start::<T>(o) + o.capacity * slot_bytes::<T>()
}

/// Flags of a single-producer ring.
pub open spec fn spmc_flags(o: RingProducerBuilder) -> u32 {
    (match o.flow_control {
        FlowControl::LossyLatestWins => FLAG_POLICY_LATEST_WINS,
        FlowControl::LosslessBackpressure => FLAG_POLICY_LOSSLESS_BACKPRESSURE,
    }) | FLAG_MODE_SPMC | (if o.readers() > 0 {
        FLAG_WITH_REGISTRY
    } else {
        0
    })
}

/// Where the parts of the region go.
pub open spec fn spmc_layout<T: LayoutSignature>(o: RingProducerBuilder) -> RingLayout {
    RingLayout {
        capacity: o.capacity,
        slot_size: slot_bytes::<T>() as usize,
        flags: spmc_flags(o),
        schema_sig: signature_of(
            T::FULL_NAME@,
            vstd::layout::size_of::<T>() as u64,
            vstd::layout::align_of::<T>() as u64,
        ),
        claim_seq: 0,
        read_seq: 0,
        registry_offset: if o.readers() > 0 {
            RING_HEADER_SIZE
        } else {
            0
        },
        registry_count: o.readers(),
        slots_offset: slots_start::<T>(o) as usize,
        arena_offset: 0,
        arena_size: 0,
    }
}

/// What creating a ring with the options `o` gives: an empty, published ring and a producer
/// at message 1, or a refusal of a capacity that is not a power of two.
pub open spec fn created<T: LayoutSignature>(
    o: RingProducerBuilder,
    r: Result<(RingProducer<T>, Ring<T>), RingfireError>,
) -> bool {
    match r {
        Ok((p, ring)) => {
            &&& is_pow2(o.capacity as nat)
            &&& ring.wf()
            &&& ring.header == (RingHeader {
                magic: RINGFIRE_MAGIC,
                ..fresh_header(spmc_layout::<T>(o))
            })
            &&& ring.len == ring_size::<T>(o)
            &&& ring.registry is Some <==> o.readers() > 0
            &&& ring.registry matches Some(g) ==> g.slots@.len() == o.readers() && forall|i: int|
                0 <= i < g.slots@.len() ==> crate::registry::blank(#[trigger] g.slots@[i])
            &&& forall|i: int|
                0 <= i < ring.slots@.len() ==> (#[trigger] ring.slots@[i]).seq == 0
            &&& ring.holds_log(Seq::empty())
            &&& p.writes(&ring)
            &&& p.seq == 1
            &&& p.gate_limit == 0
            &&& p.blocked_polls == 0
            &&& p.cleanup_mode == o.cleanup_mode
            &&& p.flow_control == o.flow_control
            &&& slot_bytes::<T>() <= u32::MAX && o.readers() <= u32::MAX ==> valid_header(
                ring.header,
                ring.len as int,
                Some(slot_bytes::<T>() as usize),
                slot_align::<T>() as usize,
            )
        },
        Err(e) => !is_pow2(o.capacity as nat) && e == RingfireError::InvalidCapacity(o.capacity),
    }
}

/// What came of publishing a message: the kernel may have to wake sleeping consumers.
#[derive(Debug, Clone, Copy, PartialEq, Eq)]
pub enum PushOutcome {
    /// The message is published.
    Published { wake: Option<i32> },
    /// Nothing was written: the slowest reader has not caught up. Everything published so
    /// far is visible; pause as [`headroom_pause`] says and try again.
    Blocked { wake: Option<i32> },
}

/// How a producer that is blocked by a slow reader passes the time.
#[derive(Debug, Clone, Copy, PartialEq, Eq, Structural)]
pub enum HeadroomPause {
    /// Hint the processor that this is a spin loop.
    Spin,
    /// Give the rest of the time slice to another thread.
    Yield,
    /// Clear the slots of dead readers, then sleep that long.
    PruneAndSleep { micros: u64 },
}

/// How the producer passes its next wait, after `spins` waits in a row, and the number of
/// waits then: 99 times it spins, up to the 999th time it yields, then it sleeps.
pub fn headroom_pause(spins: u32) -> (r: (HeadroomPause, u32))
    ensures
        r.1 == (if spins < u32::MAX {
            spins + 1
        } else {
            spins as int
        }),
        r.0 == (if spins < 99 {
            HeadroomPause::Spin
        } else if spins < 999 {
            HeadroomPause::Yield
        } else {
            HeadroomPause::PruneAndSleep { micros: 10 }
        }),
{
    let spins: u32 = spins.saturating_add(1);
    if spins < 100 {
        (HeadroomPause::Spin, spins)
    } else if spins < 1000 {
        (HeadroomPause::Yield, spins)
    } else {
        (HeadroomPause::PruneAndSleep { micros: 10 }, spins)
    }
}

/// How far ahead a producer may write before it looks for new readers: half a ring.
pub open spec fn rescan_window(capacity: u64) -> int {
    if capacity / 2 >= 1 {
        (capacity / 2) as int
    } else {
        1
    }
}

/// The first number that a lossless producer may not publish after a scan that found the
/// slowest reader at `min`: a full ring ahead of that reader, or half a ring ahead of the
/// producer, whichever comes first.
pub open spec fn gate_after(seq: u64, capacity: u64, min: Option<u64>) -> int {
    let window = seq + rescan_window(capacity);
    match min {
        Some(m) => if m + capacity <= window {
            m + capacity
        } else {
            window
        },
        None => window,
    }
}

/// The header once message `seq` is published: sleeping consumers find a new futex word.
pub open spec fn published_header(h: RingHeader, seq: u64) -> RingHeader {
    RingHeader {
        write_seq: seq,
        futex_word: if h.waiting_consumers > 0 {
            h.futex_word.wrapping_add(1)
        } else {
            h.futex_word
        },
        ..h
    }
}

/// Whether the kernel is to wake consumers that sleep on the ring.
pub open spec fn wake_for(h: RingHeader) -> Option<i32> {
    if h.waiting_consumers > 0 {
        Some(i32::MAX)
    } else {
        None
    }
}

/// `b` is the ring `a` with message `seq` stored and published.
pub open spec fn stored<T>(a: &Ring<T>, b: &Ring<T>, seq: u64, item: T) -> bool {
    &&& b.slots@ == a.slots@.update(a.index(seq), Slot { seq, data: Some(item) })
    &&& b.len == a.len
}

/// Single-producer ring buffer writer.
#[derive(Debug)]
pub struct RingProducer<T> {
    pub capacity: u64,
    pub mask: u64,
    /// Number of the next message
    pub seq: u64,
    /// Lossless mode: `seq` may be published without consulting the registry while
    /// `seq < gate_limit`. Derived from the slowest reader's cursor at the last scan.
    pub gate_limit: u64,
    pub blocked_polls: u32,
    pub cleanup_mode: CleanupMode,
    pub flow_control: FlowControl,
    pub marker: PhantomData<T>,
}

/// Storing message `log.len() + 1` in its slot and publishing it appends it to the log that
/// the ring holds.
pub proof fn lemma_store_extends_log<T>(a: &Ring<T>, b: &Ring<T>, log: Seq<T>, item: T)
    requires
        a.wf(),
        a.holds_log(log),
        log.len() < LAST_SEQ,
        stored(a, b, (log.len() + 1) as u64, item),
        b.header.capacity == a.header.capacity,
        b.header.write_seq == log.len() + 1,
    ensures
        b.holds_log(log.push(item)),
{
    let seq = (log.len() + 1) as u64;
    let cap = a.header.capacity as int;
    let i = a.index(seq);
    assert(0 <= i < cap);
    let new_log = log.push(item);
    assert forall|n: u64|
        oldest_of(b.header.write_seq, b.header.capacity) <= n <= new_log.len() implies (
    #[trigger] b.word(n)) == n && b.message(n) == new_log[n - 1] by {
        if n == seq {
            assert(b.word(n) == n);
        } else {
            lemma_distinct_slots(seq as int, n as int, cap);
            assert(b.index(n) != i);
            assert(oldest_of(a.header.write_seq, a.header.capacity) <= n <= log.len());
            assert(a.word(n) == n);
            assert(a.word(n) == n && a.message(n) == log[n - 1]);
        }
    }
    assert forall|j: int| 0 <= j < b.slots@.len() implies (#[trigger] b.slots@[j]).seq
        <= new_log.len() by {
        assert(a.slots@[j].seq <= log.len());
    }
}

impl<T> RingProducer<T> {
    /// The producer belongs to the ring.
    pub open spec fn writes(&self, ring: &Ring<T>) -> bool {
        &&& self.capacity == ring.header.capacity
        &&& self.mask == ring.header.mask
        &&& self.seq >= 1
    }

    /// There are numbers left for `n` more messages.
    pub open spec fn numbers_left(&self, n: int) -> bool {
        self.seq + n + self.capacity <= LAST_SEQ
    }

    /// The next message is within the write limit: no look at the registry is needed.
    pub open spec fn gate_open(&self) -> bool {
        self.flow_control != FlowControl::LosslessBackpressure || self.seq < self.gate_limit
    }

    /// The next message may be written, given the reader registry.
    pub open spec fn admits(&self, registry: Option<ReaderRegistry>) -> bool {
        self.gate_open() || registry is None || self.seq < gate_after(
            self.seq,
            self.capacity,
            min_active(registry->0.slots@),
        )
    }

    /// The write limit once the producer has decided whether it may write.
    pub open spec fn gate_checked(&self, registry: Option<ReaderRegistry>) -> int {
        if self.gate_open() || registry is None {
            self.gate_limit as int
        } else {
            gate_after(self.seq, self.capacity, min_active(registry->0.slots@))
        }
    }

    /// How many of `n` messages are written one after the other before the producer is blocked,
    /// and the producer then.
    pub open spec fn pushes(self, registry: Option<ReaderRegistry>, n: nat) -> (nat, Self)
        decreases n,
    {
        let checked = RingProducer { gate_limit: self.gate_checked(registry) as u64, ..self };
        if n == 0 {
            (0, self)
        } else if !self.admits(registry) {
            (0, checked)
        } else {
            let rest = RingProducer { seq: (self.seq + 1) as u64, ..checked }.pushes(
                registry,
                (n - 1) as nat,
            );
            (rest.0 + 1, rest.1)
        }
    }

    /// Whether the next message may be written without consulting the registry.
    pub fn may_write(&self) -> (r: bool)
        ensures
            r == self.gate_open(),
    {
        self.flow_control != FlowControl::LosslessBackpressure || self.seq < self.gate_limit
    }

    /// Counts a refused push; `true` means that dead readers are due to be cleared: every
    /// 1024th refusal.
    pub fn count_refusal(&mut self) -> (sweep: bool)
        ensures
            *final(self) == (RingProducer {
                blocked_polls: old(self).blocked_polls.wrapping_add(1),
                ..*old(self)
            }),
            sweep == (old(self).blocked_polls.wrapping_add(1) % 1024 == 0),
    {
        self.blocked_polls = self.blocked_polls.wrapping_add(1);
        self.blocked_polls % 1024 == 0
    }

    /// Recomputes the write limit after a scan of the registry that found the slowest active reader
    /// at `min`. Returns whether the next message may be published now.
    ///
    /// The limit is also capped at half a ring ahead so readers registering later are
    /// picked up within `capacity / 2` messages.
    pub fn refresh_gate(&mut self, min: Option<u64>) -> (r: bool)
        requires
            old(self).numbers_left(0),
        ensures
            *final(self) == (RingProducer {
                gate_limit: gate_after(old(self).seq, old(self).capacity, min) as u64,
                ..*old(self)
            }),
            final(self).gate_limit == gate_after(old(self).seq, old(self).capacity, min),
            r == (old(self).seq < gate_after(old(self).seq, old(self).capacity, min)),
    {
        let half: u64 = self.capacity / 2;
        let window: u64 = self.seq + if half >= 1 {
            half
        } else {
            1
        };
        self.gate_limit = match min {
            Some(min_cursor) => {
                let ahead: u64 = min_cursor.saturating_add(self.capacity);
                if ahead <= window {
                    ahead
                } else {
                    window
                }
            },
            None => window,
        };
        self.seq < self.gate_limit
    }

    /// Counts the message just written.
    pub fn advance(&mut self)
        requires
            old(self).seq < u64::MAX,
        ensures
            *final(self) == (RingProducer { seq: (old(self).seq + 1) as u64, ..*old(self) }),
    {
        self.seq = self.seq + 1;
    }
}

impl<T: Copy + LayoutSignature> RingProducer<T> {
    /// Creates a new ring buffer with `capacity` slots. `capacity` must be a power of two.
    pub fn create(capacity: u64) -> (r: Result<(Self, Ring<T>), RingfireError>)
        requires
            slot_fits::<T>(),
            is_pow2(capacity as nat) ==> ring_size::<T>(plain_options(capacity)) <= usize::MAX,
        ensures
            created(plain_options(capacity), r),
    {
        RingProducerBuilder::new(capacity).build()
    }

    /// Creates a new ring buffer with custom builder options.
    pub fn create_with_options(options: RingProducerBuilder) -> (r: Result<
        (Self, Ring<T>),
        RingfireError,
    >)
        requires
            slot_fits::<T>(),
            is_pow2(options.capacity as nat) ==> ring_size::<T>(options) <= usize::MAX,
        ensures
            created(options, r),
    {
        broadcast use vstd::layout::align_nonzero;

        let capacity: u64 = options.capacity;
        if !capacity.is_power_of_two() {
            return Err(RingfireError::InvalidCapacity(capacity));
        }
        let max_readers: usize = if options.flow_control == FlowControl::LosslessBackpressure
            && options.max_readers == 0 {
            DEFAULT_MAX_READERS
        } else {
            options.max_readers
        };
        let slot_size: usize = slot_size_of::<T>();
        let align: usize = slot_align_of::<T>();
        let slot_align: usize = if align >= 64 {
            align
        } else {
            64
        };
        let ghost head = RING_HEADER_SIZE + max_readers * READER_SLOT_SIZE;
        proof {
            lemma_mask_is_mod(0, capacity);
            lemma_round_up(head, slot_align as int);
            assert(capacity * slot_size >= capacity) by (nonlinear_arith)
                requires
                    slot_size >= 8,
                    capacity >= 1,
            ;
        }
        let parts: usize = RING_HEADER_SIZE + max_readers * READER_SLOT_SIZE;
        let slots_offset: usize = round_up_size(parts, slot_align);
        assert(slots_offset == slots_start::<T>(options));
        let total: usize = slots_offset + capacity as usize * slot_size;

        let policy: u32 = match options.flow_control {
            FlowControl::LossyLatestWins => FLAG_POLICY_LATEST_WINS,
            FlowControl::LosslessBackpressure => FLAG_POLICY_LOSSLESS_BACKPRESSURE,
        };
        let flags: u32 = policy | FLAG_MODE_SPMC | if max_readers > 0 {
            FLAG_WITH_REGISTRY
        } else {
            0
        };
        let layout = RingLayout {
            capacity,
            slot_size,
            flags,
            schema_sig: T::layout_signature(),
            claim_seq: 0,
            read_seq: 0,
            registry_offset: if max_readers > 0 {
                RING_HEADER_SIZE
            } else {
                0
            },
            registry_count: max_readers,
            slots_offset,
            arena_offset: 0,
            arena_size: 0,
        };
        let mut header = RingHeader::initialize(&layout);
        let registry = if max_readers > 0 {
            Some(ReaderRegistry::init(max_readers))
        } else {
            None
        };
        let slots = empty_slots::<T>(capacity as usize);
        header.publish();
        let ring = Ring { header, len: total, registry, slots };
        let producer = RingProducer {
            capacity,
            mask: capacity - 1,
            seq: 1,
            gate_limit: 0,
            blocked_polls: 0,
            cleanup_mode: options.cleanup_mode,
            flow_control: options.flow_control,
            marker: PhantomData,
        };
        proof {
            lemma_fresh_ring_valid::<T>(options, ring);
        }
        Ok((producer, ring))
    }
}

/// The ring that creation lays out is one that attaching accepts.
proof fn lemma_fresh_ring_valid<T: LayoutSignature>(o: RingProducerBuilder, ring: Ring<T>)
    requires
        slot_fits::<T>(),
        slot_bytes::<T>() >= 8,
        slot_align::<T>() <= usize::MAX,
        is_pow2(o.capacity as nat),
        o.capacity >= 1,
        ring_size::<T>(o) <= usize::MAX,
        ring.header == (RingHeader { magic: RINGFIRE_MAGIC, ..fresh_header(spmc_layout::<T>(o)) }),
        ring.len == ring_size::<T>(o),
    ensures
        slot_bytes::<T>() <= u32::MAX && o.readers() <= u32::MAX ==> valid_header(
            ring.header,
            ring.len as int,
            Some(slot_bytes::<T>() as usize),
            slot_align::<T>() as usize,
        ),
{
    broadcast use vstd::layout::align_nonzero;

    let outer = if slot_align::<T>() >= 64 {
        slot_align::<T>() as int
    } else {
        64
    };
    lemma_round_up(RING_HEADER_SIZE + o.readers() * READER_SLOT_SIZE, outer);
    lemma_slot_aligned::<T>(slots_start::<T>(o));
    assert(o.capacity * slot_bytes::<T>() >= 0) by (nonlinear_arith)
        requires
            slot_bytes::<T>() >= 8,
            o.capacity >= 1,
    ;
}

/// `n` slots that hold nothing.
pub fn empty_slots<T>(n: usize) -> (slots: Vec<Slot<T>>)
    ensures
        slots@.len() == n,
        forall|i: int| 0 <= i < n ==> #[trigger] slots@[i] == (Slot { seq: 0, data: None::<T> }),
{
    let mut slots: Vec<Slot<T>> = Vec::new();
    let mut i: usize = 0;
    while i < n
        invariant
            i <= n,
            slots@.len() == i,
            forall|j: int|
                0 <= j < i ==> #[trigger] slots@[j] == (Slot { seq: 0, data: None::<T> }),
        decreases n - i,
    {
        slots.push(Slot { seq: 0, data: None });
        i = i + 1;
    }
    slots
}

impl<T: Copy> RingProducer<T> {
    /// Stores `item` in the slot of the next message. It becomes visible with
    /// [`RingProducer::publish_progress`].
    fn write_one(&mut self, ring: &mut Ring<T>, item: T)
        requires
            old(ring).wf(),
            old(self).writes(old(ring)),
            old(self).seq <= LAST_SEQ,
        ensures
            final(ring).wf(),
            stored(old(ring), final(ring), old(self).seq, item),
            final(ring).header == old(ring).header,
            final(ring).registry == old(ring).registry,
            *final(self) == (RingProducer { seq: (old(self).seq + 1) as u64, ..*old(self) }),
    {
        let i: usize = ring.slot_index(self.seq);
        let mut slot = ring.slots[i];
        write_slot(&mut slot, self.seq, item);
        ring.slots.set(i, slot);
        self.advance();
        proof {
            assert forall|j: int| 0 <= j < ring.slots@.len() implies slot_ok(
                #[trigger] ring.slots@[j],
                j,
                ring.header.capacity,
            ) by {
                assert(slot_ok(old(ring).slots@[j], j, old(ring).header.capacity));
            }
        }
    }

    /// Makes everything written so far visible. Returns how many consumers the kernel is to
    /// wake, if any.
    fn publish_progress(&self, ring: &mut Ring<T>) -> (wake: Option<i32>)
        requires
            old(ring).wf(),
            1 <= self.seq <= LAST_SEQ + 1,
        ensures
            final(ring).wf(),
            final(ring).header == published_header(old(ring).header, (self.seq - 1) as u64),
            final(ring).slots == old(ring).slots,
            final(ring).registry == old(ring).registry,
            final(ring).len == old(ring).len,
            wake == wake_for(old(ring).header),
    {
        ring.header.write_seq = self.seq - 1;
        wake_futex(&mut ring.header, i32::MAX)
    }

    /// Checks that there is room to write without overwriting the slowest active registered
    /// reader. If there is none, everything published so far is made visible, or a producer
    /// blocked mid-batch and a sleeping reader would wait on each other; the caller pauses
    /// as [`headroom_pause`] says and checks again.
    pub fn wait_for_headroom(&mut self, ring: &mut Ring<T>) -> (r: Result<(), Option<i32>>)
        requires
            old(ring).wf(),
            old(self).writes(old(ring)),
            old(self).numbers_left(0),
        ensures
            final(ring).wf(),
            final(ring).slots == old(ring).slots,
            final(ring).registry == old(ring).registry,
            final(ring).len == old(ring).len,
            match old(ring).registry {
                None => r is Ok && *final(self) == *old(self) && *final(ring) == *old(ring),
                Some(reg) => {
                    let gate = gate_after(
                        old(self).seq,
                        old(self).capacity,
                        min_active(reg.slots@),
                    );
                    &&& *final(self) == (RingProducer { gate_limit: gate as u64, ..*old(self) })
                    &&& final(self).gate_limit == gate
                    &&& r is Ok <==> old(self).seq < gate
                    &&& match r {
                        Ok(_) => final(ring).header == old(ring).header,
                        Err(wake) => {
                            &&& final(ring).header == published_header(
                                old(ring).header,
                                (old(self).seq - 1) as u64,
                            )
                            &&& wake == wake_for(old(ring).header)
                        },
                    }
                },
            },
    {
        let min = match &ring.registry {
            None => return Ok(()),
            Some(reg) => reg.min_cursor(),
        };
        if self.refresh_gate(min) {
            return Ok(());
        }
        Err(self.publish_progress(ring))
    }

    /// Publishes a message into the ring buffer.
    ///
    /// Under `FlowControl::LosslessBackpressure`, a message that would overwrite the slowest
    /// active registered reader is not written: the outcome is then `Blocked`.
    pub fn push(&mut self, ring: &mut Ring<T>, item: T) -> (r: PushOutcome)
        requires
            old(ring).wf(),
            old(self).writes(old(ring)),
            old(self).numbers_left(1),
        ensures
            final(ring).wf(),
            final(self).writes(final(ring)),
            final(ring).registry == old(ring).registry,
            final(ring).len == old(ring).len,
            final(self).gate_limit == old(self).gate_checked(old(ring).registry),
            r is Published <==> old(self).admits(old(ring).registry),
            match r {
                PushOutcome::Published { wake } => {
                    &&& stored(old(ring), final(ring), old(self).seq, item)
                    &&& final(ring).header == published_header(old(ring).header, old(self).seq)
                    &&& wake == wake_for(old(ring).header)
                    &&& *final(self) == (RingProducer {
                        seq: (old(self).seq + 1) as u64,
                        gate_limit: final(self).gate_limit,
                        ..*old(self)
                    })
                    &&& forall|log: Seq<T>|
                        old(ring).holds_log(log) && log.len() + 1 == old(self).seq
                            ==> #[trigger] final(ring).holds_log(log.push(item))
                },
                PushOutcome::Blocked { wake } => {
                    &&& final(ring).slots == old(ring).slots
                    &&& final(ring).header == published_header(
                        old(ring).header,
                        (old(self).seq - 1) as u64,
                    )
                    &&& wake == wake_for(old(ring).header)
                    &&& *final(self) == (RingProducer {
                        gate_limit: final(self).gate_limit,
                        ..*old(self)
                    })
                },
            },
    {
        if !self.may_write() {
            match self.wait_for_headroom(ring) {
                Ok(_) => {},
                Err(wake) => return PushOutcome::Blocked { wake },
            }
        }
        self.write_one(ring, item);
        let wake = self.publish_progress(ring);
        proof {
            assert forall|log: Seq<T>|
                old(ring).holds_log(log) && log.len() + 1 == old(self).seq implies
            #[trigger] ring.holds_log(log.push(item)) by {
                lemma_store_extends_log(old(ring), ring, log, item);
            }
        }
        PushOutcome::Published { wake }
    }

    /// Attempts to publish a message into the ring buffer without blocking.
    ///
    /// Under `FlowControl::LosslessBackpressure`, returns
    /// `Err(RingfireError::BackpressureBufferFull)` if the buffer is full and would
    /// overwrite the slowest reader. Every 1024th refusal first clears the slots of dead
    /// readers; `live` are the pids of the running processes.
    pub fn try_push(&mut self, ring: &mut Ring<T>, item: T, live: &[u32]) -> (r: Result<
        Option<i32>,
        RingfireError,
    >)
        requires
            old(ring).wf(),
            old(self).writes(old(ring)),
            old(self).numbers_left(1),
        ensures
            final(ring).wf(),
            final(self).writes(final(ring)),
            final(ring).len == old(ring).len,
            final(self).flow_control == old(self).flow_control,
            final(self).cleanup_mode == old(self).cleanup_mode,
            ({
                let reg = old(ring).registry;
                let first = old(self).admits(reg);
                let polls = old(self).blocked_polls.wrapping_add(1);
                let prunes = !first && polls % 1024 == 0 && reg is Some;
                let cleared = pruned(reg->0.slots@, live@);
                let second = prunes && dead_slots(reg->0.slots@, live@) > 0 && old(self).seq
                    < gate_after(old(self).seq, old(self).capacity, min_active(cleared));
                &&& r is Ok <==> first || second
                &&& final(self).blocked_polls == (if first {
                    old(self).blocked_polls
                } else {
                    polls
                })
                &&& final(self).gate_limit == (if old(self).gate_open() {
                    old(self).gate_limit as int
                } else if prunes && dead_slots(reg->0.slots@, live@) > 0 {
                    gate_after(old(self).seq, old(self).capacity, min_active(cleared))
                } else {
                    gate_after(
                        old(self).seq,
                        old(self).capacity,
                        match reg {
                            Some(g) => min_active(g.slots@),
                            None => None,
                        },
                    )
                })
                &&& if prunes {
                    final(ring).registry is Some && final(ring).registry->0.slots@ == cleared
                } else {
                    final(ring).registry == reg
                }
                &&& match r {
                    Ok(wake) => {
                        &&& stored(old(ring), final(ring), old(self).seq, item)
                        &&& final(ring).header == published_header(
                            old(ring).header,
                            old(self).seq,
                        )
                        &&& wake == wake_for(old(ring).header)
                        &&& final(self).seq == old(self).seq + 1
                        &&& forall|log: Seq<T>|
                            old(ring).holds_log(log) && log.len() + 1 == old(self).seq
                                ==> #[trigger] final(ring).holds_log(log.push(item))
                    },
                    Err(e) => {
                        &&& e == RingfireError::BackpressureBufferFull
                        &&& final(ring).slots == old(ring).slots
                        &&& final(ring).header == old(ring).header
                        &&& final(self).seq == old(self).seq
                    },
                }
            }),
    {
        if !self.may_write() {
            let min = match &ring.registry {
                None => None,
                Some(reg) => reg.min_cursor(),
            };
            if !self.refresh_gate(min) {
                let mut admitted: bool = false;
                if self.count_refusal() {
                    if let Some(reg) = &mut ring.registry {
                        let n: usize = reg.prune_dead_readers(live);
                        if n > 0 {
                            let min = reg.min_cursor();
                            admitted = self.refresh_gate(min);
                        }
                    }
                }
                if !admitted {
                    return Err(RingfireError::BackpressureBufferFull);
                }
            }
        }
        self.write_one(ring, item);
        let wake = self.publish_progress(ring);
        proof {
            assert forall|log: Seq<T>|
                old(ring).holds_log(log) && log.len() + 1 == old(self).seq implies
            #[trigger] ring.holds_log(log.push(item)) by {
                lemma_store_extends_log(old(ring), ring, log, item);
            }
        }
        Ok(wake)
    }

    /// Publishes a batch of messages consecutively into the ring buffer, updating the header
    /// once. Honors `FlowControl::LosslessBackpressure` per message: stops at the first
    /// message for which there is no room, with everything before it visible. Returns how
    /// many messages were published and how many consumers the kernel is to wake.
    pub fn push_batch(&mut self, ring: &mut Ring<T>, items: &[T]) -> (r: (usize, Option<i32>))
        requires
            old(ring).wf(),
            old(self).writes(old(ring)),
            old(self).numbers_left(items@.len() as int),
        ensures
            final(ring).wf(),
            final(self).writes(final(ring)),
            final(ring).registry == old(ring).registry,
            final(ring).len == old(ring).len,
            r.0 <= items@.len(),
            final(self).seq == old(self).seq + r.0,
            final(self).flow_control == old(self).flow_control,
            final(self).cleanup_mode == old(self).cleanup_mode,
            final(self).blocked_polls == old(self).blocked_polls,
            items@.len() == 0 ==> *final(self) == *old(self) && *final(ring) == *old(ring)
                && r.1 is None,
            items@.len() > 0 ==> final(ring).header == published_header(
                old(ring).header,
                (final(self).seq - 1) as u64,
            ) && r.1 == wake_for(old(ring).header),
            final(ring).slots@ == stored_all(old(ring), old(self).seq, items@.take(r.0 as int)),
            (r.0 as nat, *final(self)) == old(self).pushes(old(ring).registry, items@.len()),
            r.0 < items@.len() ==> !final(self).admits(final(ring).registry),
            old(self).flow_control == FlowControl::LosslessBackpressure && old(ring).registry
                is Some ==> {
                let m = min_active(old(ring).registry->0.slots@);
                let cap = old(self).capacity;
                &&& r.0 > 0 ==> final(self).seq <= old(self).gate_limit || (m is Some
                    ==> final(self).seq <= m->0 + cap)
                &&& final(self).gate_limit <= old(self).gate_limit || (m is Some
                    ==> final(self).gate_limit <= m->0 + cap)
            },
            old(self).flow_control != FlowControl::LosslessBackpressure ==> r.0 == items@.len(),
            forall|log: Seq<T>|
                old(ring).holds_log(log) && log.len() + 1 == old(self).seq
                    ==> #[trigger] final(ring).holds_log(log + items@.take(r.0 as int)),
    {
        if items.len() == 0 {
            proof {
                assert(items@.take(0) =~= Seq::<T>::empty());
                assert forall|log: Seq<T>|
                    old(ring).holds_log(log) && log.len() + 1 == old(self).seq implies
                #[trigger] ring.holds_log(log + items@.take(0)) by {
                    assert(log + items@.take(0) =~= log);
                }
            }
            return (0, None);
        }
        let ghost first = self.seq;
        let mut i: usize = 0;
        let mut blocked: bool = false;
        while i < items.len()
            invariant_except_break
                !blocked,
                i > 0 && self.flow_control == FlowControl::LosslessBackpressure && ring.registry
                    is Some ==> self.seq <= self.gate_limit,
            invariant
                i <= items@.len(),
                ring.wf(),
                self.writes(ring),
                ring.header == old(ring).header,
                ring.registry == old(ring).registry,
                ring.len == old(ring).len,
                first == old(self).seq,
                self.seq == first + i,
                self.numbers_left(items@.len() - i),
                self.capacity == old(self).capacity,
                self.flow_control == old(self).flow_control,
                self.cleanup_mode == old(self).cleanup_mode,
                self.blocked_polls == old(self).blocked_polls,
                ring.slots@ == stored_all(old(ring), first, items@.take(i as int)),
                old(self).pushes(old(ring).registry, items@.len()) == ({
                    let rest = self.pushes(old(ring).registry, (items@.len() - i) as nat);
                    (i as nat + rest.0, rest.1)
                }),
                self.flow_control == FlowControl::LosslessBackpressure && ring.registry
                    is Some ==> {
                    let m = min_active(ring.registry->0.slots@);
                    let cap = self.capacity;
                    &&& i > 0 ==> self.seq <= old(self).gate_limit || (m is Some ==> self.seq
                        <= m->0 + cap)
                    &&& self.gate_limit <= old(self).gate_limit || (m is Some
                        ==> self.gate_limit <= m->0 + cap)
                },
                forall|log: Seq<T>|
                    old(ring).holds_log(log) && log.len() + 1 == first
                        ==> #[trigger] with_write_seq(*ring, (first + i - 1) as u64).holds_log(
                        log + items@.take(i as int),
                    ),
            ensures
                blocked ==> i < items@.len() && !self.admits(ring.registry),
                !blocked ==> i == items@.len(),
                old(self).pushes(old(ring).registry, items@.len()) == (i as nat, *self),
            decreases items@.len() - i,
        {
            if !self.may_write() {
                let min = match &ring.registry {
                    None => None,
                    Some(reg) => reg.min_cursor(),
                };
                let has_registry: bool = ring.registry.is_some();
                if has_registry && !self.refresh_gate(min) {
                    blocked = true;
                    break;
                }
            }
            let ghost before = *ring;
            self.write_one(ring, items[i]);
            proof {
                let seq = (first + i) as u64;
                assert(items@.take(i + 1).drop_last() =~= items@.take(i as int));
                assert(items@.take(i + 1).last() == items@[i as int]);
                assert forall|log: Seq<T>|
                    old(ring).holds_log(log) && log.len() + 1 == first implies
                #[trigger] with_write_seq(*ring, (first + (i + 1) - 1) as u64).holds_log(
                    log + items@.take(i + 1),
                ) by {
                    let l = log + items@.take(i as int);
                    assert(log + items@.take(i + 1) =~= l.push(items@[i as int]));
                    lemma_store_extends_log(
                        &with_write_seq(before, (first + i - 1) as u64),
                        &with_write_seq(*ring, seq),
                        l,
                        items@[i as int],
                    );
                }
            }
            i = i + 1;
        }
        let ghost written = *ring;
        let wake = self.publish_progress(ring);
        proof {
            assert forall|log: Seq<T>|
                old(ring).holds_log(log) && log.len() + 1 == old(self).seq implies
            #[trigger] ring.holds_log(log + items@.take(i as int)) by {
                let w = with_write_seq(written, (first + i - 1) as u64);
                assert(w.holds_log(log + items@.take(i as int)));
                lemma_same_log(&w, ring, log + items@.take(i as int));
            }
        }
        (i, wake)
    }

    /// Returns the configured flow control mode.
    pub fn flow_control(&self) -> (r: FlowControl)
        ensures
            r == self.flow_control,
    {
        self.flow_control
    }

    /// Returns a reference to the ring's `ReaderRegistry` if enabled.
    pub fn registry<'a>(&self, ring: &'a Ring<T>) -> (r: Option<&'a ReaderRegistry>)
        ensures
            r == (match ring.registry {
                Some(g) => Some(&g),
                None => None,
            }),
    {
        match &ring.registry {
            Some(g) => Some(g),
            None => None,
        }
    }

    /// Available write headroom (number of messages before the slowest active reader is
    /// lapped): the capacity, less what that reader has not read yet.
    pub fn headroom(&self, ring: &mut Ring<T>, live: &[u32]) -> (n: u64)
        ensures
            match old(ring).registry {
                None => n == self.capacity && *final(ring) == *old(ring),
                Some(reg) => {
                    &&& exists|m: Option<u64>| #[trigger]
                        slowest(reg.slots@, live@, m) && n == (match m {
                            Some(v) => lag_behind(self.capacity, lag_behind(self.seq, v)),
                            None => self.capacity,
                        })
                    &&& final(ring).registry is Some
                    &&& final(ring).registry->0.slots@ == swept(reg.slots@, live@)
                },
            },
            final(ring).header == old(ring).header,
            final(ring).slots == old(ring).slots,
            final(ring).len == old(ring).len,
    {
        if let Some(reg) = &mut ring.registry {
            reg.headroom(self.seq, self.capacity, live)
        } else {
            self.capacity
        }
    }

    /// Unread message count of the slowest active reader. A reader's cursor is the next
    /// message that it reads, so it has read everything once its cursor is `seq`.
    pub fn reader_lag(&self, ring: &mut Ring<T>, live: &[u32]) -> (n: u64)
        ensures
            match old(ring).registry {
                None => n == 0 && *final(ring) == *old(ring),
                Some(reg) => {
                    &&& exists|m: Option<u64>| #[trigger]
                        slowest(reg.slots@, live@, m) && n == (match m {
                            Some(v) => lag_behind(self.seq, v),
                            None => 0,
                        })
                    &&& final(ring).registry is Some
                    &&& final(ring).registry->0.slots@ == swept(reg.slots@, live@)
                },
            },
            final(ring).header == old(ring).header,
            final(ring).slots == old(ring).slots,
            final(ring).len == old(ring).len,
    {
        if let Some(reg) = &mut ring.registry {
            reg.reader_lag(self.seq, live)
        } else {
            0
        }
    }

    /// Sequence number of the last published message (0 if no messages pushed yet).
    pub fn sequence(&self) -> (r: u64)
        requires
            self.seq >= 1,
        ensures
            r == self.seq - 1,
    {
        self.seq - 1
    }

    /// Sequence number that will be assigned to the next pushed message.
    pub fn next_sequence(&self) -> (r: u64)
        ensures
            r == self.seq,
    {
        self.seq
    }

    /// Current sequence published in the header visible to consumers.
    pub fn published_sequence(&self, ring: &Ring<T>) -> (r: u64)
        ensures
            r == ring.header.write_seq,
    {
        ring.header.write_seq
    }

    /// Capacity of the ring buffer.
    pub fn capacity(&self) -> (r: u64)
        ensures
            r == self.capacity,
    {
        self.capacity
    }
}

/// The ring with another `write_seq` in its header.
pub open spec fn with_write_seq<T>(r: Ring<T>, write_seq: u64) -> Ring<T> {
    Ring { header: RingHeader { write_seq, ..r.header }, ..r }
}

/// The slots once `items` are stored as messages `seq`, `seq + 1` and so on.
pub open spec fn stored_all<T>(a: &Ring<T>, seq: u64, items: Seq<T>) -> Seq<Slot<T>>
    decreases items.len(),
{
    if items.len() == 0 {
        a.slots@
    } else {
        let n = (seq + items.len() - 1) as u64;
        stored_all(a, seq, items.drop_last()).update(
            a.index(n),
            Slot { seq: n, data: Some(items.last()) },
        )
    }
}

proof fn lemma_same_log<T>(a: &Ring<T>, b: &Ring<T>, log: Seq<T>)
    requires
        a.holds_log(log),
        b.slots == a.slots,
        b.header.capacity == a.header.capacity,
        b.header.write_seq == a.header.write_seq,
    ensures
        b.holds_log(log),
{
    assert forall|n: u64|
        oldest_of(b.header.write_seq, b.header.capacity) <= n <= log.len() implies (
    #[trigger] b.word(n)) == n && b.message(n) == log[n - 1] by {
        assert(a.word(n) == n);
    }
}

/// Lossless delivery. A producer that publishes message `seq` within the write limit of a
/// scan made at `scan_seq` overwrites message `seq - capacity`, and every reader that was active
/// in that scan, with its cursor at `cursor` then or further now, is past it: nothing unread
/// is lost.
pub proof fn lemma_gate_protects_readers(
    slots: Seq<crate::header::ReaderSlot>,
    i: int,
    scan_seq: u64,
    seq: u64,
    capacity: u64,
    cursor_now: u64,
)
    requires
        0 <= i < slots.len(),
        slots[i].active == 1,
        slots[i].cursor_seq <= cursor_now,
        seq < gate_after(scan_seq, capacity, min_active(slots)),
    ensures
        seq - capacity < cursor_now,
{
    crate::registry::lemma_min_active(slots);
}

/// Lossless delivery. While the slowest reader waits for message `m`, a producer whose write
/// limit comes from scans that found that reader writes up to a full ring ahead of it, and
/// is refused from there on, until the reader moves.
pub proof fn lemma_full_ring_refuses<T>(p: RingProducer<T>, registry: ReaderRegistry, m: u64)
    requires
        p.flow_control == FlowControl::LosslessBackpressure,
        p.capacity >= 1,
        min_active(registry.slots@) == Some(m),
        p.gate_limit <= m + p.capacity,
    ensures
        p.admits(Some(registry)) <==> p.seq < m + p.capacity,
        p.gate_checked(Some(registry)) <= m + p.capacity,
{
}

/// Lossless delivery of batches. While the slowest reader waits for message `m`, `n` pushes
/// in a row store exactly as many messages as there is room for up to a full ring ahead of
/// that reader.
pub proof fn lemma_batch_never_laps<T>(
    p: RingProducer<T>,
    registry: ReaderRegistry,
    m: u64,
    n: nat,
)
    requires
        p.flow_control == FlowControl::LosslessBackpressure,
        p.capacity >= 1,
        p.numbers_left(n as int),
        min_active(registry.slots@) == Some(m),
        p.gate_limit <= m + p.capacity,
    ensures
        ({
            let (count, end) = p.pushes(Some(registry), n);
            let room = m + p.capacity - p.seq;
            &&& count == (if room <= 0 {
                0
            } else if room <= n {
                room
            } else {
                n as int
            })
            &&& end.seq == p.seq + count
            &&& end.gate_limit <= m + p.capacity
        }),
    decreases n,
{
    lemma_full_ring_refuses(p, registry, m);
    if n > 0 && p.admits(Some(registry)) {
        let next = RingProducer {
            seq: (p.seq + 1) as u64,
            gate_limit: p.gate_checked(Some(registry)) as u64,
            ..p
        };
        lemma_batch_never_laps(next, registry, m, (n - 1) as nat);
    }
}

/// A reader that registers after a scan is noticed soon: the write limit of a scan is at
/// most half a ring (at least one message) ahead of where it was made.
pub proof fn lemma_new_readers_noticed(scan_seq: u64, capacity: u64, min: Option<u64>)
    requires
        capacity >= 1,
    ensures
        gate_after(scan_seq, capacity, min) <= scan_seq + (if capacity >= 2 {
            (capacity / 2) as int
        } else {
            1
        }),
{
}

/// The headroom is exact: a producer whose next message is `seq` can publish that many more,
/// and no more, before the ring no longer retains the next message `v` of its slowest reader.
/// What the reader has not read yet makes up the rest of the capacity.
pub proof fn lemma_headroom_is_exact(seq: u64, capacity: u64, v: u64, n: int)
    requires
        capacity >= 1,
        1 <= v <= seq,
        seq - v <= capacity,
        0 <= n,
        seq - 1 + n <= u64::MAX,
    ensures
        v >= oldest_of((seq - 1 + n) as u64, capacity) <==> n <= lag_behind(
            capacity,
            lag_behind(seq, v),
        ),
        lag_behind(capacity, lag_behind(seq, v)) + lag_behind(seq, v) == capacity,
{
}

/// Only lossless producers wait, and only for readers: a lossy one may always write, and so may
/// any producer of a ring without a registry, or whose registry has no active reader. A lossless
/// one may write up to a full ring ahead of an active reader.
pub proof fn lemma_who_may_write<T>(p: RingProducer<T>, registry: Option<ReaderRegistry>, i: int)
    requires
        p.capacity >= 1,
    ensures
        p.flow_control == FlowControl::LossyLatestWins ==> p.admits(registry)
            && p.gate_checked(registry) == p.gate_limit,
        registry is None ==> p.admits(registry),
        registry is Some && (forall|j: int|
            0 <= j < registry->0.slots@.len() ==> (#[trigger] registry->0.slots@[j]).active != 1)
            ==> p.admits(registry),
        registry is Some && (forall|j: int|
            0 <= j < registry->0.slots@.len() && (#[trigger] registry->0.slots@[j]).active == 1
                ==> p.seq < registry->0.slots@[j].cursor_seq + p.capacity) ==> p.admits(registry),
        registry is Some && 0 <= i < registry->0.slots@.len() && registry->0.slots@[i].active
            == 1 && p.flow_control == FlowControl::LosslessBackpressure && p.seq >= p.gate_limit
            && p.admits(registry) ==> p.seq < registry->0.slots@[i].cursor_seq + p.capacity
            && p.gate_checked(registry) <= registry->0.slots@[i].cursor_seq + p.capacity,
{
    if let Some(g) = registry {
        lemma_min_active(g.slots@);
    }
}

/// Publishing sets the newest number and, where consumers sleep, moves the futex word on and
/// asks the kernel to wake them all. Nothing else in the header changes.
pub proof fn lemma_publish_changes_only(h: RingHeader, seq: u64)
    ensures
        ({
            let p = published_header(h, seq);
            &&& p.write_seq == seq
            &&& p == (RingHeader { write_seq: seq, futex_word: p.futex_word, ..h })
            &&& h.waiting_consumers == 0 ==> p.futex_word == h.futex_word && wake_for(h) is None
            &&& h.waiting_consumers > 0 ==> p.futex_word == (h.futex_word + 1) % 0x1_0000_0000
                && wake_for(h) == Some(i32::MAX)
        }),
{
}

/// Storing a message touches exactly one slot, the one that its number has modulo the capacity.
pub proof fn lemma_store_touches_one_slot<T>(a: &Ring<T>, b: &Ring<T>, seq: u64, item: T, j: int)
    requires
        a.wf(),
        stored(a, b, seq, item),
        0 <= j < a.slots@.len(),
    ensures
        b.slots@.len() == a.slots@.len(),
        b.len == a.len,
        b.slots@[j] == (if j == seq as int % a.header.capacity as int {
            Slot { seq, data: Some(item) }
        } else {
            a.slots@[j]
        }),
{
}

/// A batch of which `items` were written from number `seq` on leaves each of the last `capacity`
/// of them in its slot, under its number; a slot that no number of the batch falls on is as it
/// was.
#[verifier::rlimit(50)]
pub proof fn lemma_batch_in_slots<T>(a: &Ring<T>, seq: u64, items: Seq<T>, i: int, j: int)
    requires
        a.wf(),
        1 <= seq,
        seq + items.len() <= LAST_SEQ + 1,
        0 <= i < items.len(),
        i + a.header.capacity >= items.len(),
        0 <= j < a.slots@.len(),
    ensures
        stored_all(a, seq, items).len() == a.slots@.len(),
        stored_all(a, seq, items)[(seq + i) % a.header.capacity as int] == (Slot {
            seq: (seq + i) as u64,
            data: Some(items[i]),
        }),
        (forall|k: int|
            0 <= k < items.len() ==> #[trigger] batch_slot(seq, k, a.header.capacity) != j)
            ==> stored_all(a, seq, items)[j] == a.slots@[j],
    decreases items.len(),
{
    let cap = a.header.capacity as int;
    let n = (seq + items.len() - 1) as u64;
    let rest = items.drop_last();
    lemma_batch_len(a, seq, rest);
    assert(0 <= a.index(n) < cap);
    assert(0 <= (seq + i) % cap < cap);
    assert(batch_slot(seq, items.len() - 1, a.header.capacity) == a.index(n));
    if i < items.len() - 1 {
        lemma_distinct_slots(n as int, seq + i, cap);
        lemma_batch_in_slots(a, seq, rest, i, j);
    } else if rest.len() > 0 {
        lemma_batch_in_slots(a, seq, rest, rest.len() - 1, j);
    }
    assert forall|k: int|
        (forall|m: int|
            0 <= m < items.len() ==> #[trigger] batch_slot(seq, m, a.header.capacity) != j) && 0
            <= k < rest.len() implies #[trigger] batch_slot(seq, k, a.header.capacity) != j by {}
}

/// The slot of the `k`-th message of a batch that starts at number `seq`.
pub open spec fn batch_slot(seq: u64, k: int, capacity: u64) -> int {
    (seq + k) % capacity as int
}

proof fn lemma_batch_len<T>(a: &Ring<T>, seq: u64, items: Seq<T>)
    requires
        a.wf(),
    ensures
        stored_all(a, seq, items).len() == a.slots@.len(),
    decreases items.len(),
{
    if items.len() > 0 {
        lemma_batch_len(a, seq, items.drop_last());
        assert(0 <= a.index((seq + items.len() - 1) as u64) < a.slots@.len());
    }
}

/// What a new ring is: empty, of the capacity that was asked for, with the policy that was asked
/// for, marked as written by one producer; a lossless ring always has room to register readers,
/// 32 of them if no number was given. Its producer starts at message 1 and looks at the registry
/// before its first message, if it is lossless.
pub proof fn lemma_created_ring_is_empty<T: LayoutSignature>(
    o: RingProducerBuilder,
    p: RingProducer<T>,
    ring: Ring<T>,
    i: int,
)
    requires
        created(o, Ok((p, ring))),
        0 <= i < o.capacity,
    ensures
        is_pow2(o.capacity as nat),
        ring.header.capacity == o.capacity,
        ring.slots@.len() == o.capacity,
        ring.slots@[i].seq == 0,
        ring.header.write_seq == 0,
        ring.header.magic == RINGFIRE_MAGIC,
        ring.header.waiting_consumers == 0,
        ring.header.flags & FLAG_MODE_MPMC == 0,
        ring.header.flags & FLAG_POLICY_LOSSLESS_BACKPRESSURE != 0 <==> o.flow_control
            == FlowControl::LosslessBackpressure,
        ring.header.flags & FLAG_POLICY_LATEST_WINS != 0 <==> o.flow_control
            == FlowControl::LossyLatestWins,
        ring.header.schema_sig == crate::consumer::signature::<T>(),
        match ring.registry {
            None => o.max_readers == 0 && o.flow_control == FlowControl::LossyLatestWins,
            Some(g) => {
                &&& g.slots@.len() == (if o.max_readers == 0 {
                    32
                } else {
                    o.max_readers as int
                })
                &&& forall|j: int|
                    0 <= j < g.slots@.len() ==> (#[trigger] g.slots@[j]).active == 0
                        && g.slots@[j].pid == 0
            },
        },
        p.seq == 1,
        p.capacity == o.capacity,
        p.flow_control == o.flow_control,
        p.cleanup_mode == o.cleanup_mode,
        o.flow_control == FlowControl::LosslessBackpressure ==> p.seq >= p.gate_limit,
{
    assert(forall|a: u32, b: u32|
        (a == 1 || a == 2) && (b == 0 || b == 0x200) ==> (#[trigger] (a | 0x10u32 | b)) & 0x20u32
            == 0 && ((a | 0x10u32 | b) & 1u32 != 0 <==> a == 1) && ((a | 0x10u32 | b) & 2u32 != 0
            <==> a == 2)) by (bit_vector);
}

/// Where the parts of a new ring lie: the registry, if there is one, right behind the header,
/// the slots behind both at the next aligned offset, and the region ends with the slots. A
/// capacity that is no power of two is refused, and nothing else is.
pub proof fn lemma_created_ring_layout<T: LayoutSignature>(
    o: RingProducerBuilder,
    r: Result<(RingProducer<T>, Ring<T>), RingfireError>,
)
    requires
        created(o, r),
        slot_bytes::<T>() <= u32::MAX,
        o.max_readers <= u32::MAX,
        ring_size::<T>(o) <= usize::MAX,
    ensures
        r is Ok <==> is_pow2(o.capacity as nat),
        r matches Err(e) ==> e == RingfireError::InvalidCapacity(o.capacity),
        r matches Ok((p, ring)) ==> {
            let h = ring.header;
            let readers = if ring.registry is Some {
                ring.registry->0.slots@.len() as int
            } else {
                0
            };
            let align = if slot_align::<T>() >= 64 {
                slot_align::<T>() as int
            } else {
                64
            };
            &&& h.reader_registry_count == readers
            &&& h.reader_registry_offset == (if readers > 0 {
                128int
            } else {
                0
            })
            &&& h.flags & FLAG_WITH_REGISTRY != 0 <==> readers > 0
            &&& h.slots_offset as int % align == 0
            &&& 0 <= h.slots_offset - (128 + readers * 64) < align
            &&& h.element_size == slot_bytes::<T>()
            &&& ring.len == h.slots_offset + h.capacity * h.element_size
            &&& h.arena_offset == 0
            &&& h.arena_size == 0
        },
{
    if r is Ok {
        let align = if slot_align::<T>() >= 64 {
            slot_align::<T>() as int
        } else {
            64
        };
        let slot = slot_bytes::<T>();
        lemma_slot_size::<T>();
        lemma_round_up(RING_HEADER_SIZE + o.readers() * READER_SLOT_SIZE, align);
        assert(0 <= o.capacity * slot) by (nonlinear_arith)
            requires
                slot >= 0,
        ;
        assert(forall|a: u32, b: u32|
            (a == FLAG_POLICY_LATEST_WINS || a == FLAG_POLICY_LOSSLESS_BACKPRESSURE) && (b == 0 || b
                == FLAG_WITH_REGISTRY) ==> ((#[trigger] (a | FLAG_MODE_SPMC | b))
                & FLAG_WITH_REGISTRY != 0 <==> b != 0)) by (bit_vector);
    }
}

} // verus!
