//! The read side of single- and multi-producer rings.
use crate::checkpoint::{
    consumer_offset_path, offset_file_ok, offset_path_text, offset_refusal, offset_slot_opened,
    trimmed, OffsetCheckpoint, ShmOffsetSlot, SHM_OFFSET_MAGIC, SHM_OFFSET_VERSION,
};
use crate::error::RingfireError;
use crate::head::{
    lemma_present_is_received, lemma_receive_accounts, lemma_receive_from_log,
    lemma_receive_skips_only_lost, receive, ReadHead,
};
use crate::header::{
    check_schema, header_refusal, valid_header, validate_header, ReaderSlot, RingHeader,
    FLAG_MODE_MPMC, FLAG_POLICY_LOSSLESS_BACKPRESSURE, FLAG_SPARSE, SLOT_WRITING,
};
use crate::math::{larger, lemma_mask_is_mod, max_of};
use crate::registry::{available, registered, ReaderRegistration, ReaderRegistry};
use crate::ring::{
    oldest_of, oldest_retained, slot_align, slot_align_of, slot_bytes, slot_fits, slot_size_of,
    Ring, LAST_SEQ,
};
use crate::signature::{signature_of, LayoutSignature};
use crate::spmc::{created, item_of, stored, RecvStatus, RingProducer, RingProducerBuilder};
use crate::wait::{WaitAction, WaitStrategy};
use core::marker::PhantomData;
use vstd::prelude::*;
use vstd::string::StringExecFns;
use vstd::utf8::encode_utf8;

verus! {

/// Initial cursor positioning strategy when attaching a consumer to a ring buffer.
#[derive(Debug, Clone, Copy, PartialEq, Eq, Structural)]
pub enum ConsumerStartMode {
    /// Start reading from the latest published sequence in the buffer.
    ///
    /// Jumps directly to the head of the stream for live execution without
    /// reading historical backlog.
    Latest,
    /// Start reading from the next sequence to be published (strictly future messages).
    Head,
    /// Start reading from the oldest available message surviving in the buffer.
    ///
    /// Replays all retained messages (up to buffer capacity).
    Oldest,
    /// Start reading from a specific sequence number.
    ///
    /// If the sequence has already been overwritten due to buffer wraparound,
    /// the consumer automatically catches up to the oldest available sequence
    /// and tracks the lapped count.
    Sequence(u64),
}

/// Where a consumer that wants message `target` starts, and how many messages it has
/// already lost.
pub open spec fn catch_up(target: u64, oldest: u64) -> (u64, u64) {
    if target < oldest {
        (oldest, (oldest - target) as u64)
    } else {
        (target, 0)
    }
}

/// Where a consumer starts in a ring whose newest message is `write_seq`, and how many
/// messages it has already lost.
pub open spec fn start_of(mode: ConsumerStartMode, write_seq: u64, capacity: u64) -> (u64, u64) {
    let oldest = oldest_of(write_seq, capacity);
    match mode {
        ConsumerStartMode::Latest => (max_of(write_seq, 1), 0),
        ConsumerStartMode::Head => ((write_seq + 1) as u64, 0),
        ConsumerStartMode::Oldest => (oldest, 0),
        ConsumerStartMode::Sequence(seq) => catch_up(max_of(seq, 1), oldest),
    }
}

/// Where a consumer starts whose checkpoint, if it has one, holds `saved`: behind the last
/// message that was processed, or where its start mode says.
pub open spec fn resume_at(
    mode: ConsumerStartMode,
    saved: Option<u64>,
    write_seq: u64,
    capacity: u64,
) -> (u64, u64) {
    match saved {
        Some(seq) => catch_up((seq + 1) as u64, oldest_of(write_seq, capacity)),
        None => start_of(mode, write_seq, capacity),
    }
}

/// The start position is a sequence number.
pub open spec fn start_ok(mode: ConsumerStartMode, saved: Option<u64>) -> bool {
    match saved {
        Some(seq) => seq <= LAST_SEQ,
        None => mode matches ConsumerStartMode::Sequence(seq) ==> seq < SLOT_WRITING,
    }
}

/// Where a consumer starts, and how many messages it has already lost.
pub fn resolve_start(
    mode: ConsumerStartMode,
    saved: Option<u64>,
    write_seq: u64,
    capacity: u64,
) -> (r: (u64, u64))
    requires
        capacity > 0,
        write_seq <= LAST_SEQ,
        start_ok(mode, saved),
    ensures
        r == resume_at(mode, saved, write_seq, capacity),
        1 <= r.0 < SLOT_WRITING,
        r.0 >= oldest_of(write_seq, capacity),
{
    let oldest: u64 = oldest_retained(write_seq, capacity);
    let target: u64 = match saved {
        Some(seq) => seq + 1,
        None => match mode {
            ConsumerStartMode::Latest => return (larger(write_seq, 1), 0),
            ConsumerStartMode::Head => return (write_seq + 1, 0),
            ConsumerStartMode::Oldest => return (oldest, 0),
            ConsumerStartMode::Sequence(seq) => larger(seq, 1),
        },
    };
    if target < oldest {
        (oldest, oldest - target)
    } else {
        (target, 0)
    }
}

/// Builder for configuring and attaching a `RingConsumer`.
#[derive(Debug)]
pub struct RingConsumerBuilder<T> {
    pub start_mode: ConsumerStartMode,
    pub offset_file: Option<String>,
    pub consumer_name: Option<String>,
    pub marker: PhantomData<T>,
}

impl<T> Default for RingConsumerBuilder<T> {
    fn default() -> (b: Self)
        ensures
            b.start_mode == ConsumerStartMode::Latest,
            b.offset_file is None,
            b.consumer_name is None,
    {
        Self::new()
    }
}

impl<T> RingConsumerBuilder<T> {
    /// Creates a new `RingConsumerBuilder` defaulting to `ConsumerStartMode::Latest`.
    pub fn new() -> (b: Self)
        ensures
            b.start_mode == ConsumerStartMode::Latest,
            b.offset_file is None,
            b.consumer_name is None,
    {
        RingConsumerBuilder {
            start_mode: ConsumerStartMode::Latest,
            offset_file: None,
            consumer_name: None,
            marker: PhantomData,
        }
    }

    /// Sets the initial start mode when no offset file is present.
    pub fn start_mode(self, mode: ConsumerStartMode) -> (b: Self)
        ensures
            b == (RingConsumerBuilder { start_mode: mode, ..self }),
    {
        RingConsumerBuilder { start_mode: mode, ..self }
    }

    /// Configure consumer to start from the latest message published in the buffer.
    pub fn start_from_latest(self) -> (b: Self)
        ensures
            b == (RingConsumerBuilder { start_mode: ConsumerStartMode::Latest, ..self }),
    {
        self.start_mode(ConsumerStartMode::Latest)
    }

    /// Configure consumer to start from the next message to be published (head).
    pub fn start_from_head(self) -> (b: Self)
        ensures
            b == (RingConsumerBuilder { start_mode: ConsumerStartMode::Head, ..self }),
    {
        self.start_mode(ConsumerStartMode::Head)
    }

    /// Configure consumer to start from the oldest message available in the buffer.
    pub fn start_from_oldest(self) -> (b: Self)
        ensures
            b == (RingConsumerBuilder { start_mode: ConsumerStartMode::Oldest, ..self }),
    {
        self.start_mode(ConsumerStartMode::Oldest)
    }

    /// Configure consumer to start from a specific sequence number.
    pub fn start_from_sequence(self, seq: u64) -> (b: Self)
        ensures
            b == (RingConsumerBuilder { start_mode: ConsumerStartMode::Sequence(seq), ..self }),
    {
        self.start_mode(ConsumerStartMode::Sequence(seq))
    }

    /// Sets an explicit shared memory path for persisting and loading consumer offsets.
    pub fn offset_file(self, path: &str) -> (b: Self)
        ensures
            b.offset_file matches Some(p) && p@ == path@,
            b.start_mode == self.start_mode,
            b.consumer_name == self.consumer_name,
    {
        RingConsumerBuilder { offset_file: Some(String::from_str(path)), ..self }
    }

    /// Alias for `offset_file` targeting shared memory paths.
    pub fn offset_shm(self, path: &str) -> (b: Self)
        ensures
            b.offset_file matches Some(p) && p@ == path@,
            b.start_mode == self.start_mode,
            b.consumer_name == self.consumer_name,
    {
        self.offset_file(path)
    }

    /// Identifies this consumer with a human-readable name.
    ///
    /// If no explicit `offset_file` is specified, the offsets go to a file of their own,
    /// next to the ring: `{ring_basename}_{consumer_name}.offset`.
    pub fn consumer_name(self, name: &str) -> (b: Self)
        ensures
            b.consumer_name matches Some(n) && n@ == name@,
            b.start_mode == self.start_mode,
            b.offset_file == self.offset_file,
    {
        RingConsumerBuilder { consumer_name: Some(String::from_str(name)), ..self }
    }

    /// The consumer keeps its offset in a file.
    pub open spec fn checkpointed(&self) -> bool {
        self.offset_file is Some || self.consumer_name is Some
    }

    /// The consumer's name, `consumer` if none was given.
    pub open spec fn name_text(&self) -> Seq<char> {
        match self.consumer_name {
            Some(n) => n@,
            None => "consumer"@,
        }
    }

    /// The consumer's name, `consumer` if none was given.
    pub fn name(&self) -> (r: &str)
        ensures
            r@ == self.name_text(),
    {
        match &self.consumer_name {
            Some(n) => n.as_str(),
            None => "consumer",
        }
    }

    /// Path of the consumer's offset file for the ring at `ring_path`, if it keeps one.
    pub fn checkpoint_path(&self, ring_path: &str) -> (r: Option<String>)
        ensures
            match r {
                Some(p) => self.checkpointed() && p@ == (match self.offset_file {
                    Some(f) => f@,
                    None => offset_path_text(ring_path@, self.name_text()),
                }),
                None => !self.checkpointed(),
            },
    {
        match &self.offset_file {
            Some(f) => Some(f.clone()),
            None => match &self.consumer_name {
                Some(n) => Some(consumer_offset_path(ring_path, n.as_str())),
                None => None,
            },
        }
    }
}

impl<T: Copy + LayoutSignature> RingConsumerBuilder<T> {
    /// Attaches to a ring with these options.
    pub fn attach(
        self,
        ring: &mut Ring<T>,
        checkpoint: Option<OffsetCheckpoint>,
        pid: u32,
        live: &[u32],
    ) -> (r: Result<RingConsumer<T>, RingfireError>)
        requires
            old(ring).wf(),
            slot_fits::<T>(),
            checkpoint is Some <==> self.checkpointed(),
            start_ok(self.start_mode, saved_in(checkpoint)),
        ensures
            attached_as(self, checkpoint, pid, live@, old(ring), final(ring), r),
    {
        RingConsumer::attach_with_options(ring, self, checkpoint, pid, live)
    }
}

/// The offset that a checkpoint holds.
pub open spec fn saved_in(checkpoint: Option<OffsetCheckpoint>) -> Option<u64> {
    match checkpoint {
        Some(cp) => cp.saved(),
        None => None,
    }
}

/// The signature of the record type `T`.
pub open spec fn signature<T: LayoutSignature>() -> u64 {
    signature_of(
        T::FULL_NAME@,
        vstd::layout::size_of::<T>() as u64,
        vstd::layout::align_of::<T>() as u64,
    )
}

/// The ring carries records of type `T`.
pub open spec fn schema_ok<T: LayoutSignature>(h: RingHeader) -> bool {
    h.schema_sig == 0 || h.schema_sig == signature::<T>()
}

/// A ring of records of type `T` can be attached to.
pub open spec fn attachable<T: LayoutSignature>(h: RingHeader, len: int) -> bool {
    valid_header(h, len, Some(slot_bytes::<T>() as usize), slot_align::<T>() as usize)
        && schema_ok::<T>(h)
}

/// What refuses a ring that cannot be attached to.
pub open spec fn attach_refusal<T: LayoutSignature>(
    h: RingHeader,
    len: int,
    e: RingfireError,
) -> bool {
    if !valid_header(h, len, Some(slot_bytes::<T>() as usize), slot_align::<T>() as usize) {
        header_refusal(
            h,
            len,
            Some(slot_bytes::<T>() as usize),
            slot_align::<T>() as usize,
            e,
        )
    } else {
        e matches RingfireError::SchemaMismatch { expected, actual, name } && expected
            == h.schema_sig && actual == signature::<T>() && name@ == T::FULL_NAME@
    }
}

/// The read head of a consumer that starts at `start.0`, `start.1` messages too late.
pub open spec fn head_at(h: RingHeader, start: (u64, u64)) -> ReadHead {
    ReadHead {
        capacity: h.capacity,
        mask: h.mask,
        cursor: start.0,
        lapped_total: start.1,
        multi_producer: h.has(FLAG_MODE_MPMC),
        sparse: h.has(FLAG_SPARSE),
        empty_polls: 0,
    }
}

/// Validates a ring's header for records of type `T` and positions a read head in it.
pub fn open_head<T: LayoutSignature>(
    header: &RingHeader,
    len: usize,
    mode: ConsumerStartMode,
    saved: Option<u64>,
) -> (r: Result<ReadHead, RingfireError>)
    requires
        slot_fits::<T>(),
        header.write_seq <= LAST_SEQ,
        start_ok(mode, saved),
    ensures
        r is Ok <==> attachable::<T>(*header, len as int),
        match r {
            Ok(head) => {
                &&& head == head_at(
                    *header,
                    resume_at(mode, saved, header.write_seq, header.capacity),
                )
                &&& head.wf()
                &&& head.cursor >= oldest_of(header.write_seq, header.capacity)
            },
            Err(e) => attach_refusal::<T>(*header, len as int, e),
        },
{
    let slot_size: usize = slot_size_of::<T>();
    let align: usize = slot_align_of::<T>();
    let view = match validate_header(header, len, Some(slot_size), align) {
        Ok(v) => v,
        Err(e) => return Err(e),
    };
    match check_schema(header, T::layout_signature(), String::from_str(T::FULL_NAME)) {
        Ok(_) => {},
        Err(e) => return Err(e),
    }
    proof {
        lemma_mask_is_mod(0, view.capacity);
    }
    let (cursor, lapped) = resolve_start(mode, saved, header.write_seq, view.capacity);
    Ok(
        ReadHead {
            capacity: view.capacity,
            mask: view.mask,
            cursor,
            lapped_total: lapped,
            multi_producer: header.flags & FLAG_MODE_MPMC != 0,
            sparse: header.flags & FLAG_SPARSE != 0,
            empty_polls: 0,
        },
    )
}

/// What attaching with the options `o` gives.
pub open spec fn attached_as<T: LayoutSignature>(
    o: RingConsumerBuilder<T>,
    checkpoint: Option<OffsetCheckpoint>,
    pid: u32,
    live: Seq<u32>,
    before: &Ring<T>,
    after: &Ring<T>,
    r: Result<RingConsumer<T>, RingfireError>,
) -> bool {
    let h = before.header;
    let len = before.len as int;
    let start = resume_at(o.start_mode, saved_in(checkpoint), h.write_seq, h.capacity);
    let full = before.registry is Some && forall|j: int|
        0 <= j < before.registry->0.slots@.len() ==> !available(
            #[trigger] before.registry->0.slots@[j],
            live,
        );
    let lossless = h.has(FLAG_POLICY_LOSSLESS_BACKPRESSURE);
    &&& after.header == before.header
    &&& after.slots == before.slots
    &&& after.len == before.len
    &&& r is Ok <==> attachable::<T>(h, len) && !(full && lossless)
    &&& match r {
        Ok(c) => {
            &&& c.attached(after)
            &&& c.head == head_at(h, start)
            &&& c.checkpoint == checkpoint
            &&& c.registration is Some <==> before.registry is Some && !full
            &&& match c.registration {
                None => after.registry == before.registry,
                Some(reg) => registered(
                    before.registry->0.slots@,
                    after.registry->0.slots@,
                    reg.slot_index as int,
                    encode_utf8(o.name_text()),
                    start.0,
                    pid,
                    live,
                ),
            }
        },
        Err(e) => {
            &&& after.registry == before.registry
            &&& if attachable::<T>(h, len) {
                e == RingfireError::NoAvailableReaderSlots
            } else {
                attach_refusal::<T>(h, len, e)
            }
        },
    }
}

/// Multi-consumer ring buffer reader.
#[derive(Debug)]
pub struct RingConsumer<T> {
    pub head: ReadHead,
    pub checkpoint: Option<OffsetCheckpoint>,
    pub registration: Option<ReaderRegistration>,
    pub marker: PhantomData<T>,
}

/// The registry once the consumer has reported `cursor`, if it is registered.
pub open spec fn reported(
    before: Option<ReaderRegistry>,
    after: Option<ReaderRegistry>,
    registration: Option<ReaderRegistration>,
    cursor: u64,
) -> bool {
    match (registration, before) {
        (Some(reg), Some(g)) => after is Some && after->0.slots@ == g.slots@.update(
            reg.slot_index as int,
            ReaderSlot { cursor_seq: cursor, ..g.slots@[reg.slot_index as int] },
        ),
        _ => after == before,
    }
}

/// One poll of a consumer: `r` is the message that it found, if any; the cursor stands behind
/// that message, or behind what was lost; where it moved, it was reported. Nothing else
/// changed.
pub open spec fn polled<T>(
    c: &RingConsumer<T>,
    d: &RingConsumer<T>,
    a: &Ring<T>,
    b: &Ring<T>,
    r: Option<T>,
) -> bool {
    let end = receive(c.head, a);
    &&& b.header == a.header
    &&& b.slots == a.slots
    &&& b.len == a.len
    &&& d.checkpoint == c.checkpoint
    &&& d.registration == c.registration
    &&& if end.item {
        &&& r == Some(a.message(end.head.cursor))
        &&& d.head == end.head.accepted()
    } else {
        &&& r is None
        &&& d.head == end.head
    }
    &&& if end.item || end.head.cursor > c.head.cursor {
        reported(a.registry, b.registry, c.registration, d.head.cursor)
    } else {
        b.registry == a.registry
    }
}

/// Of two reports in a row the last one counts.
proof fn lemma_report_again(
    a: Option<ReaderRegistry>,
    b: Option<ReaderRegistry>,
    c: Option<ReaderRegistry>,
    registration: Option<ReaderRegistration>,
    first: u64,
    second: u64,
)
    requires
        reported(a, b, registration, first),
        reported(b, c, registration, second),
        registration is Some && a is Some ==> registration->0.slot_index < a->0.slots@.len(),
    ensures
        reported(a, c, registration, second),
{
    if registration is Some && a is Some {
        let i = registration->0.slot_index as int;
        assert(c->0.slots@ =~= a->0.slots@.update(
            i,
            ReaderSlot { cursor_seq: second, ..a->0.slots@[i] },
        ));
    }
}

/// Messages that a consumer at `h` reads from the ring, at most `n` of them, and the head
/// then.
pub open spec fn drained<T>(h: ReadHead, r: &Ring<T>, n: nat) -> (ReadHead, Seq<T>)
    decreases n,
{
    let end = receive(h, r);
    if n == 0 {
        (h, Seq::empty())
    } else if !end.item {
        (end.head, Seq::empty())
    } else {
        let rest = drained(end.head.accepted(), r, (n - 1) as nat);
        (rest.0, seq![r.message(end.head.cursor)] + rest.1)
    }
}

/// Some polls of a consumer: the cursor did not go back, and where it moved, it was reported.
/// Nothing else changed but the read position.
pub open spec fn moved<T>(
    c: &RingConsumer<T>,
    d: &RingConsumer<T>,
    a: &Ring<T>,
    b: &Ring<T>,
) -> bool {
    &&& b.header == a.header
    &&& b.slots == a.slots
    &&& b.len == a.len
    &&& d.checkpoint == c.checkpoint
    &&& d.registration == c.registration
    &&& d.head.cursor >= c.head.cursor
    &&& if d.head.cursor > c.head.cursor {
        reported(a.registry, b.registry, c.registration, d.head.cursor)
    } else {
        b.registry == a.registry
    }
}

pub(crate) proof fn lemma_polled_moves<T>(
    c: &RingConsumer<T>,
    d: &RingConsumer<T>,
    a: &Ring<T>,
    b: &Ring<T>,
    r: Option<T>,
)
    requires
        a.wf(),
        c.attached(a),
        d.attached(b),
        polled(c, d, a, b, r),
    ensures
        moved(c, d, a, b),
{
    lemma_receive_accounts(c.head, a);
}

pub(crate) proof fn lemma_moves_compose<T>(
    c: &RingConsumer<T>,
    d: &RingConsumer<T>,
    e: &RingConsumer<T>,
    r: &Ring<T>,
    s: &Ring<T>,
    t: &Ring<T>,
)
    requires
        c.attached(r),
        moved(c, d, r, s),
        moved(d, e, s, t),
    ensures
        moved(c, e, r, t),
{
    if d.head.cursor > c.head.cursor && e.head.cursor > d.head.cursor {
        lemma_report_again(
            r.registry,
            s.registry,
            t.registry,
            c.registration,
            d.head.cursor,
            e.head.cursor,
        );
    }
}

impl<T> RingConsumer<T> {
    /// The consumer belongs to the ring.
    pub open spec fn attached(&self, ring: &Ring<T>) -> bool {
        &&& self.head.reads(ring)
        &&& self.registration matches Some(reg) ==> ring.registry is Some && reg.slot_index
            < ring.registry->0.slots@.len()
    }

    /// Stores the cursor in the consumer's registration, if it has one.
    fn report(&self, ring: &mut Ring<T>)
        requires
            self.attached(old(ring)),
        ensures
            reported(
                old(ring).registry,
                final(ring).registry,
                self.registration,
                self.head.cursor,
            ),
            final(ring).header == old(ring).header,
            final(ring).slots == old(ring).slots,
            final(ring).len == old(ring).len,
            self.attached(final(ring)),
    {
        if let Some(reg) = &self.registration {
            if let Some(registry) = &mut ring.registry {
                reg.update_cursor(registry, self.head.cursor);
            }
        }
    }
}

impl<T: Copy + LayoutSignature> RingConsumer<T> {
    /// Returns a new `RingConsumerBuilder` for configuring attach options.
    pub fn builder() -> (b: RingConsumerBuilder<T>)
        ensures
            b.start_mode == ConsumerStartMode::Latest,
            b.offset_file is None,
            b.consumer_name is None,
    {
        RingConsumerBuilder::new()
    }

    /// Attaches to an existing ring buffer, starting from the oldest available message.
    pub fn attach(ring: &mut Ring<T>, pid: u32, live: &[u32]) -> (r: Result<Self, RingfireError>)
        requires
            old(ring).wf(),
            slot_fits::<T>(),
        ensures
            attached_plainly(ConsumerStartMode::Oldest, pid, live@, old(ring), final(ring), r),
    {
        let options = Self::builder().start_from_oldest();
        let r = options.attach(ring, None, pid, live);
        proof {
            lemma_plain(options, pid, live@, old(ring), ring, r);
        }
        r
    }

    /// Attaches to an existing ring buffer, starting from the latest published message.
    ///
    /// Skips historical messages to connect immediately to live data.
    pub fn attach_latest(ring: &mut Ring<T>, pid: u32, live: &[u32]) -> (r: Result<
        Self,
        RingfireError,
    >)
        requires
            old(ring).wf(),
            slot_fits::<T>(),
        ensures
            attached_plainly(ConsumerStartMode::Latest, pid, live@, old(ring), final(ring), r),
    {
        let options = Self::builder().start_from_latest();
        let r = options.attach(ring, None, pid, live);
        proof {
            lemma_plain(options, pid, live@, old(ring), ring, r);
        }
        r
    }

    /// Attaches to an existing ring buffer, resuming from an offset file.
    ///
    /// If nothing was ever committed to it, starts from the latest published message.
    pub fn attach_from_offset(
        ring: &mut Ring<T>,
        checkpoint: OffsetCheckpoint,
        pid: u32,
        live: &[u32],
    ) -> (r: Result<Self, RingfireError>)
        requires
            old(ring).wf(),
            slot_fits::<T>(),
            checkpoint.slot.offset_seq <= LAST_SEQ,
        ensures
            exists|o: RingConsumerBuilder<T>|
                {
                    &&& o.start_mode == ConsumerStartMode::Latest
                    &&& o.consumer_name is None
                    &&& #[trigger] attached_as(
                        o,
                        Some(checkpoint),
                        pid,
                        live@,
                        old(ring),
                        final(ring),
                        r,
                    )
                },
    {
        let options = Self::builder().offset_file(checkpoint.path()).start_from_latest();
        let r = options.attach(ring, Some(checkpoint), pid, live);
        assert(attached_as(options, Some(checkpoint), pid, live@, old(ring), ring, r));
        r
    }

    /// Attaches to an existing ring buffer with custom builder options. `checkpoint` is the
    /// offset file at [`RingConsumerBuilder::checkpoint_path`], opened; `pid` is this
    /// process, `live` are the pids of the running processes.
    pub fn attach_with_options(
        ring: &mut Ring<T>,
        options: RingConsumerBuilder<T>,
        checkpoint: Option<OffsetCheckpoint>,
        pid: u32,
        live: &[u32],
    ) -> (r: Result<Self, RingfireError>)
        requires
            old(ring).wf(),
            slot_fits::<T>(),
            checkpoint is Some <==> options.checkpointed(),
            start_ok(options.start_mode, saved_in(checkpoint)),
        ensures
            attached_as(options, checkpoint, pid, live@, old(ring), final(ring), r),
    {
        let saved = match &checkpoint {
            Some(cp) => cp.load(),
            None => None,
        };
        let head = match open_head::<T>(&ring.header, ring.len, options.start_mode, saved) {
            Ok(h) => h,
            Err(e) => return Err(e),
        };
        let lossless: bool = ring.header.flags & FLAG_POLICY_LOSSLESS_BACKPRESSURE != 0;
        let registration = if let Some(registry) = &mut ring.registry {
            match registry.register(options.name(), head.cursor, pid, live) {
                Ok(handle) => Some(handle),
                Err(e) => {
                    // A lossless ring cannot protect an unregistered reader: refuse instead
                    // of silently degrading to lossy delivery.
                    if lossless {
                        return Err(e);
                    }
                    None
                },
            }
        } else {
            None
        };
        let mut consumer = RingConsumer { head, checkpoint, registration, marker: PhantomData };
        // The producer may have overwritten the start position between computing it and
        // registering: from here on the registration protects us, so re-check once.
        if consumer.registration.is_some() {
            let skipped: u64 = consumer.head.skip_overwritten(ring.header.write_seq, 0);
            if skipped > 0 {
                consumer.report(ring);
            }
        }
        Ok(consumer)
    }
}

/// What attaching without an offset file and under no name gives.
pub open spec fn attached_plainly<T: LayoutSignature>(
    mode: ConsumerStartMode,
    pid: u32,
    live: Seq<u32>,
    before: &Ring<T>,
    after: &Ring<T>,
    r: Result<RingConsumer<T>, RingfireError>,
) -> bool {
    attached_as(
        RingConsumerBuilder {
            start_mode: mode,
            offset_file: None,
            consumer_name: None,
            marker: PhantomData,
        },
        None,
        pid,
        live,
        before,
        after,
        r,
    )
}

proof fn lemma_plain<T: LayoutSignature>(
    o: RingConsumerBuilder<T>,
    pid: u32,
    live: Seq<u32>,
    before: &Ring<T>,
    after: &Ring<T>,
    r: Result<RingConsumer<T>, RingfireError>,
)
    requires
        o.offset_file is None,
        o.consumer_name is None,
        attached_as(o, None, pid, live, before, after, r),
    ensures
        attached_plainly(o.start_mode, pid, live, before, after, r),
{
}

impl<T: Copy> RingConsumer<T> {
    /// Reads the next message, skipping over lapped ones. Returns the item (if any) and
    /// the number of messages skipped on the way.
    fn next_item(&mut self, ring: &mut Ring<T>) -> (r: (Option<T>, u64))
        requires
            old(ring).wf(),
            old(self).attached(old(ring)),
        ensures
            final(ring).wf(),
            final(self).attached(final(ring)),
            final(ring).header == old(ring).header,
            final(ring).slots == old(ring).slots,
            final(ring).len == old(ring).len,
            final(self).checkpoint == old(self).checkpoint,
            final(self).registration == old(self).registration,
            ({
                let end = receive(old(self).head, old(ring));
                &&& r.1 == end.head.cursor - old(self).head.cursor
                &&& if end.item {
                    &&& r.0 == Some(old(ring).message(end.head.cursor))
                    &&& final(self).head == end.head.accepted()
                    &&& end.head.cursor <= LAST_SEQ
                } else {
                    &&& r.0 is None
                    &&& final(self).head == end.head
                }
                &&& if end.item || r.1 > 0 {
                    reported(
                        old(ring).registry,
                        final(ring).registry,
                        old(self).registration,
                        final(self).head.cursor,
                    )
                } else {
                    final(ring).registry == old(ring).registry
                }
            }),
    {
        let (item, skipped) = self.head.poll(ring);
        if item.is_some() {
            self.head.accept();
        }
        if item.is_some() || skipped > 0 {
            self.report(ring);
        }
        (item, skipped)
    }

    /// Attempts to read the next message with explicit status (Item, Empty, or Lapped).
    pub fn recv_status(&mut self, ring: &mut Ring<T>) -> (r: RecvStatus<T>)
        requires
            old(ring).wf(),
            old(self).attached(old(ring)),
        ensures
            final(ring).wf(),
            final(self).attached(final(ring)),
            polled(old(self), final(self), old(ring), final(ring), item_of(r)),
            ({
                let end = receive(old(self).head, old(ring));
                &&& end.head.cursor >= old(self).head.cursor
                &&& r == (if !end.item {
                    RecvStatus::<T>::Empty
                } else if end.head.cursor > old(self).head.cursor {
                    RecvStatus::Lapped {
                        skipped: (end.head.cursor - old(self).head.cursor) as u64,
                        item: old(ring).message(end.head.cursor),
                    }
                } else {
                    RecvStatus::Item(old(ring).message(end.head.cursor))
                })
            }),
            forall|log: Seq<T>| #[trigger]
                old(ring).holds_log(log) ==> {
                    let c = old(self).head.cursor;
                    let to = max_of(c, oldest_of(old(ring).header.write_seq, old(self).head.capacity));
                    if c <= log.len() {
                        &&& final(self).head.cursor == to + 1
                        &&& final(self).head.lapped_total == (old(self).head.lapped_total + (to
                            - c)) % 0x1_0000_0000_0000_0000
                        &&& r == (if to > c {
                            RecvStatus::Lapped { skipped: (to - c) as u64, item: log[to - 1] }
                        } else {
                            RecvStatus::Item(log[to - 1])
                        })
                    } else {
                        r == RecvStatus::<T>::Empty && final(self).head.cursor == c
                    }
                },
    {
        let (item, skipped) = self.next_item(ring);
        proof {
            lemma_receive_accounts(old(self).head, old(ring));
            assert forall|log: Seq<T>| #[trigger] old(ring).holds_log(log) implies ({
                let c = old(self).head.cursor;
                let to = max_of(
                    c,
                    oldest_of(old(ring).header.write_seq, old(self).head.capacity),
                );
                let end = receive(old(self).head, old(ring));
                if c <= log.len() {
                    end.item && end.head.cursor == to && old(ring).message(to) == log[to - 1]
                } else {
                    !end.item && end.head.cursor == c
                }
            }) by {
                lemma_receive_from_log(old(self).head, old(ring), log);
            }
        }
        match item {
            Some(data) => {
                if skipped > 0 {
                    RecvStatus::Lapped { skipped, item: data }
                } else {
                    RecvStatus::Item(data)
                }
            },
            None => RecvStatus::Empty,
        }
    }

    /// Attempts to read the next available message without blocking.
    /// Returns `Some(T)` if a new message was published (even if lapped), or `None` if
    /// caught up.
    pub fn try_recv(&mut self, ring: &mut Ring<T>) -> (r: Option<T>)
        requires
            old(ring).wf(),
            old(self).attached(old(ring)),
        ensures
            final(ring).wf(),
            final(self).attached(final(ring)),
            polled(old(self), final(self), old(ring), final(ring), r),
            forall|log: Seq<T>| #[trigger]
                old(ring).holds_log(log) ==> {
                    let c = old(self).head.cursor;
                    let to = max_of(c, oldest_of(old(ring).header.write_seq, old(self).head.capacity));
                    if c <= log.len() {
                        r == Some(log[to - 1]) && final(self).head.cursor == to + 1
                    } else {
                        r is None && final(self).head.cursor == c
                    }
                },
    {
        proof {
            lemma_receive_accounts(self.head, ring);
        }
        match self.recv_status(ring) {
            RecvStatus::Item(item) => Some(item),
            RecvStatus::Lapped { item, .. } => Some(item),
            RecvStatus::Empty => None,
        }
    }

    /// Reads up to `buf.len()` available messages into the provided slice.
    /// Returns the number of messages read.
    pub fn recv_batch(&mut self, ring: &mut Ring<T>, buf: &mut [T]) -> (n: usize)
        requires
            old(ring).wf(),
            old(self).attached(old(ring)),
        ensures
            final(ring).wf(),
            final(self).attached(final(ring)),
            moved(old(self), final(self), old(ring), final(ring)),
            final(buf)@.len() == old(buf)@.len(),
            n <= old(buf)@.len(),
            final(buf)@.skip(n as int) == old(buf)@.skip(n as int),
            (final(self).head, final(buf)@.take(n as int)) == drained(
                old(self).head,
                old(ring),
                old(buf)@.len(),
            ),
    {
        let mut count: usize = 0;
        let ghost total = buf@.len();
        let ghost whole = drained(old(self).head, old(ring), total);
        assert(buf@.take(0) =~= Seq::<T>::empty());
        while count < buf.len()
            invariant_except_break
                whole == (
                    drained(self.head, old(ring), (total - count) as nat).0,
                    buf@.take(count as int) + drained(
                        self.head,
                        old(ring),
                        (total - count) as nat,
                    ).1,
                ),
            invariant
                count <= buf@.len(),
                buf@.len() == total,
                total == old(buf)@.len(),
                whole == drained(old(self).head, old(ring), total),
                old(ring).wf(),
                old(self).attached(old(ring)),
                ring.wf(),
                self.attached(ring),
                ring.header == old(ring).header,
                ring.slots == old(ring).slots,
                ring.len == old(ring).len,
                self.checkpoint == old(self).checkpoint,
                self.registration == old(self).registration,
                self.head.cursor >= old(self).head.cursor,
                buf@.skip(count as int) == old(buf)@.skip(count as int),
                if self.head.cursor > old(self).head.cursor {
                    reported(
                        old(ring).registry,
                        ring.registry,
                        self.registration,
                        self.head.cursor,
                    )
                } else {
                    ring.registry == old(ring).registry
                },
            ensures
                whole == (self.head, buf@.take(count as int)),
            decreases buf@.len() - count,
        {
            let ghost before = *self;
            let ghost ring_before = *ring;
            proof {
                lemma_receive_same(self.head, old(ring), ring);
                lemma_receive_accounts(self.head, ring);
                assert(buf@.take(count as int) + Seq::<T>::empty() =~= buf@.take(count as int));
            }
            let (item, _skipped) = self.next_item(ring);
            proof {
                if before.head.cursor > old(self).head.cursor && self.head.cursor
                    > before.head.cursor {
                    lemma_report_again(
                        old(ring).registry,
                        ring_before.registry,
                        ring.registry,
                        self.registration,
                        before.head.cursor,
                        self.head.cursor,
                    );
                }
            }
            match item {
                Some(data) => {
                    let ghost old_buf = buf@;
                    buf[count] = data;
                    proof {
                        let k = (total - count) as nat;
                        let rest = drained(self.head, old(ring), (k - 1) as nat);
                        assert(buf@.take(count + 1) =~= old_buf.take(count as int).push(data));
                        assert(old_buf.take(count as int) + (seq![data] + rest.1) =~= buf@.take(
                            count + 1,
                        ) + rest.1);
                        let rest_new = buf@.skip(count + 1);
                        let rest_old = old(buf)@.skip(count + 1);
                        assert forall|j: int| 0 <= j < rest_new.len() implies #[trigger] rest_new[j]
                            == rest_old[j] by {
                            assert(old_buf.skip(count as int)[j + 1] == old(buf)@.skip(
                                count as int,
                            )[j + 1]);
                        }
                        assert(rest_new =~= rest_old);
                    }
                    count = count + 1;
                },
                None => break,
            }
        }
        count
    }

    /// One turn of a blocking receive: the next message, or what the strategy does before
    /// the next turn.
    pub fn recv_blocking<W: WaitStrategy>(&mut self, ring: &mut Ring<T>, wait: &mut W) -> (r:
        Result<T, WaitAction>)
        requires
            old(ring).wf(),
            old(self).attached(old(ring)),
        ensures
            final(ring).wf(),
            final(self).attached(final(ring)),
            polled(old(self), final(self), old(ring), final(ring), r.ok()),
            match r {
                Ok(_) => *final(wait) == old(wait).rested(),
                Err(action) => (*final(wait), action) == old(wait).decision(
                    old(ring).header,
                    final(self).head.cursor,
                ),
            },
    {
        if let Some(item) = self.try_recv(ring) {
            wait.reset();
            return Ok(item);
        }
        Err(wait.wait(&ring.header, self.head.cursor))
    }

    /// Moves the cursor forward to `to`, counting the messages in between as lapped.
    fn jump(&mut self, ring: &mut Ring<T>, to: u64) -> (skipped: u64)
        requires
            old(ring).wf(),
            old(self).attached(old(ring)),
            to < SLOT_WRITING,
        ensures
            final(ring).wf(),
            final(self).attached(final(ring)),
            jumped(old(self), final(self), old(ring), final(ring), to, skipped),
    {
        if to > self.head.cursor {
            let skipped: u64 = self.head.skip_to(to);
            self.report(ring);
            skipped
        } else {
            0
        }
    }

    /// Jumps cursor directly to the latest published sequence, skipping any backlog.
    /// Returns the count of skipped messages.
    pub fn jump_to_latest(&mut self, ring: &mut Ring<T>) -> (skipped: u64)
        requires
            old(ring).wf(),
            old(self).attached(old(ring)),
        ensures
            final(ring).wf(),
            final(self).attached(final(ring)),
            jumped(
                old(self),
                final(self),
                old(ring),
                final(ring),
                old(ring).header.write_seq,
                skipped,
            ),
    {
        let to: u64 = ring.header.write_seq;
        self.jump(ring, to)
    }

    /// Jumps cursor to the oldest message still surviving in the buffer.
    /// Returns the count of skipped messages.
    pub fn jump_to_oldest(&mut self, ring: &mut Ring<T>) -> (skipped: u64)
        requires
            old(ring).wf(),
            old(self).attached(old(ring)),
        ensures
            final(ring).wf(),
            final(self).attached(final(ring)),
            jumped(
                old(self),
                final(self),
                old(ring),
                final(ring),
                oldest_of(old(ring).header.write_seq, old(self).head.capacity),
                skipped,
            ),
    {
        let to: u64 = oldest_retained(ring.header.write_seq, self.head.capacity);
        self.jump(ring, to)
    }

    /// Returns the total count of messages skipped due to writer lapping.
    pub fn lapped_count(&self) -> (r: u64)
        ensures
            r == self.head.lapped_total,
    {
        self.head.lapped_total
    }

    /// Current reader cursor sequence number.
    pub fn cursor(&self) -> (r: u64)
        ensures
            r == self.head.cursor,
    {
        self.head.cursor
    }

    /// Ring buffer capacity.
    pub fn capacity(&self) -> (r: u64)
        ensures
            r == self.head.capacity,
    {
        self.head.capacity
    }

    /// Number of published messages currently pending for this consumer.
    pub fn lag(&self, ring: &Ring<T>) -> (r: u64)
        requires
            self.head.cursor >= 1,
        ensures
            r == (if ring.header.write_seq >= self.head.cursor {
                ring.header.write_seq - self.head.cursor + 1
            } else {
                0
            }),
    {
        let write_seq: u64 = ring.header.write_seq;
        if write_seq >= self.head.cursor {
            write_seq - self.head.cursor + 1
        } else {
            0
        }
    }

    /// Seeks reader cursor to a specific sequence number.
    ///
    /// If `target_seq` is older than the oldest surviving message in the ring,
    /// cursor automatically advances to the oldest available sequence and returns
    /// the number of skipped messages.
    pub fn seek(&mut self, ring: &mut Ring<T>, target_seq: u64) -> (skipped: u64)
        requires
            old(ring).wf(),
            old(self).attached(old(ring)),
            target_seq < SLOT_WRITING,
        ensures
            final(ring).wf(),
            final(self).attached(final(ring)),
            final(ring).header == old(ring).header,
            final(ring).slots == old(ring).slots,
            final(ring).len == old(ring).len,
            final(self).checkpoint == old(self).checkpoint,
            final(self).registration == old(self).registration,
            ({
                let to = catch_up(
                    max_of(target_seq, 1),
                    oldest_of(old(ring).header.write_seq, old(self).head.capacity),
                );
                &&& skipped == to.1
                &&& final(self).head == (ReadHead {
                    cursor: to.0,
                    lapped_total: old(self).head.lapped_total.wrapping_add(to.1),
                    ..old(self).head
                })
            }),
            reported(
                old(ring).registry,
                final(ring).registry,
                old(self).registration,
                final(self).head.cursor,
            ),
    {
        let oldest: u64 = oldest_retained(ring.header.write_seq, self.head.capacity);
        let target: u64 = larger(target_seq, 1);
        let skipped: u64 = if target < oldest {
            let s: u64 = oldest - target;
            self.head.lapped_total = self.head.lapped_total.wrapping_add(s);
            self.head.cursor = oldest;
            s
        } else {
            self.head.cursor = target;
            0
        };
        self.report(ring);
        skipped
    }

    /// Reference to the attached offset checkpoint, if configured.
    pub fn checkpoint(&self) -> (r: Option<&OffsetCheckpoint>)
        ensures
            r == (match self.checkpoint {
                Some(cp) => Some(&cp),
                None => None,
            }),
    {
        match &self.checkpoint {
            Some(cp) => Some(cp),
            None => None,
        }
    }

    /// Path to the offset file, if configured.
    pub fn offset_path(&self) -> (r: Option<&str>)
        ensures
            match r {
                Some(p) => self.checkpoint is Some && p@ == self.checkpoint->0.path@,
                None => self.checkpoint is None,
            },
    {
        match &self.checkpoint {
            Some(cp) => Some(cp.path()),
            None => None,
        }
    }

    /// Reference to the ReaderRegistry, if enabled in the ring.
    pub fn registry<'a>(&self, ring: &'a Ring<T>) -> (r: Option<&'a ReaderRegistry>)
        ensures
            r == (match ring.registry {
                Some(g) => Some(&g),
                None => None,
            }),
    {
        match &ring.registry {
            Some(g) => Some(g),
            None => None,
        }
    }

    /// Reference to this consumer's ReaderRegistration, if registered.
    pub fn registration(&self) -> (r: Option<&ReaderRegistration>)
        ensures
            r == (match self.registration {
                Some(g) => Some(&g),
                None => None,
            }),
    {
        match &self.registration {
            Some(g) => Some(g),
            None => None,
        }
    }

    /// Persists the last processed sequence number (`cursor - 1`) in the consumer's offset
    /// file.
    pub fn commit_offset(&mut self, ring: &mut Ring<T>, now_ns: u64) -> (r: Result<
        (),
        RingfireError,
    >)
        requires
            old(self).attached(old(ring)),
        ensures
            final(self).head == old(self).head,
            final(self).registration == old(self).registration,
            final(ring).header == old(ring).header,
            final(ring).slots == old(ring).slots,
            final(ring).len == old(ring).len,
            final(self).attached(final(ring)),
            r is Ok <==> old(self).checkpoint is Some,
            match r {
                Ok(_) => {
                    &&& final(self).checkpoint is Some
                    &&& final(self).checkpoint->0.slot == (ShmOffsetSlot {
                        offset_seq: (old(self).head.cursor - 1) as u64,
                        updated_ns: now_ns,
                        ..old(self).checkpoint->0.slot
                    })
                    &&& final(self).checkpoint->0.path == old(self).checkpoint->0.path
                    &&& final(self).checkpoint->0.name == old(self).checkpoint->0.name
                    &&& reported(
                        old(ring).registry,
                        final(ring).registry,
                        old(self).registration,
                        old(self).head.cursor,
                    )
                },
                Err(e) => {
                    &&& e == RingfireError::NoOffsetFileConfigured
                    &&& *final(self) == *old(self)
                    &&& *final(ring) == *old(ring)
                },
            },
    {
        let seq: u64 = self.last_processed_sequence();
        if let Some(cp) = &mut self.checkpoint {
            cp.save(seq, now_ns);
        } else {
            return Err(RingfireError::NoOffsetFileConfigured);
        }
        self.report(ring);
        Ok(())
    }

    /// Persists the last processed sequence number (`cursor - 1`) in another offset file, at
    /// `path`, whose bytes are `contents`. Returns the file's new checkpoint.
    pub fn commit_offset_to(
        &self,
        ring: &mut Ring<T>,
        contents: &[u8],
        path: &str,
        consumer_name: &str,
        pid: u32,
        now_ns: u64,
    ) -> (r: Result<OffsetCheckpoint, RingfireError>)
        requires
            self.attached(old(ring)),
        ensures
            final(ring).header == old(ring).header,
            final(ring).slots == old(ring).slots,
            final(ring).len == old(ring).len,
            r is Ok <==> offset_file_ok(contents@),
            match r {
                Ok(cp) => {
                    &&& cp.path@ == path@
                    &&& cp.name@ == trimmed(consumer_name@)
                    &&& exists|opened: ShmOffsetSlot| #[trigger]
                        offset_slot_opened(
                            contents@,
                            trimmed(consumer_name@),
                            pid,
                            now_ns,
                            opened,
                        ) && cp.slot == (ShmOffsetSlot {
                            offset_seq: (self.head.cursor - 1) as u64,
                            updated_ns: now_ns,
                            ..opened
                        })
                    &&& cp.slot.offset_seq == self.head.cursor - 1
                    &&& cp.slot.updated_ns == now_ns
                    &&& cp.slot.pid == pid
                    &&& cp.slot.magic == SHM_OFFSET_MAGIC
                    &&& cp.slot.version == SHM_OFFSET_VERSION
                    &&& reported(
                        old(ring).registry,
                        final(ring).registry,
                        self.registration,
                        self.head.cursor,
                    )
                },
                Err(e) => offset_refusal(contents@, path@, e) && *final(ring) == *old(ring),
            },
    {
        let mut cp = match OffsetCheckpoint::open_or_create(
            contents,
            path,
            consumer_name,
            pid,
            now_ns,
        ) {
            Ok(cp) => cp,
            Err(e) => return Err(e),
        };
        let ghost opened = cp.slot;
        cp.save(self.last_processed_sequence(), now_ns);
        self.report(ring);
        assert(offset_slot_opened(contents@, trimmed(consumer_name@), pid, now_ns, opened));
        Ok(cp)
    }

    /// Sequence number of the last successfully processed message (`cursor - 1`).
    pub fn last_processed_sequence(&self) -> (r: u64)
        ensures
            r == (if self.head.cursor >= 1 {
                self.head.cursor - 1
            } else {
                0
            }),
    {
        self.head.cursor.saturating_sub(1)
    }
}

/// The consumer has moved forward to `to`, if that is ahead of it, and reported it.
pub open spec fn jumped<T>(
    c: &RingConsumer<T>,
    d: &RingConsumer<T>,
    before: &Ring<T>,
    after: &Ring<T>,
    to: u64,
    skipped: u64,
) -> bool {
    &&& after.header == before.header
    &&& after.slots == before.slots
    &&& after.len == before.len
    &&& d.checkpoint == c.checkpoint
    &&& d.registration == c.registration
    &&& if to > c.head.cursor {
        &&& skipped == to - c.head.cursor
        &&& d.head == c.head.skipped_to(to)
        &&& reported(before.registry, after.registry, c.registration, to)
    } else {
        &&& skipped == 0
        &&& d.head == c.head
        &&& after.registry == before.registry
    }
}

/// What a consumer finds depends on the header and the slots only.
pub proof fn lemma_receive_same<T>(h: ReadHead, a: &Ring<T>, b: &Ring<T>)
    requires
        b.header == a.header,
        b.slots == a.slots,
    ensures
        receive(h, b) == receive(h, a),
    decreases u64::MAX - h.cursor,
{
    let w = a.header.write_seq;
    let word = a.word(h.cursor);
    let from = max_of(oldest_of(w, h.capacity), (h.cursor + 1) as u64);
    lemma_scan_same(a, b, from, w);
    let n = crate::head::next_present(a, from, w);
    let seen = word;
    let o1 = oldest_of(max_of(w, seen), h.capacity);
    let o2 = oldest_of(w, h.capacity);
    if o1 > h.cursor {
        lemma_receive_same(h.skipped_to(o1), a, b);
    }
    if o2 > h.cursor {
        lemma_receive_same(h.skipped_to(o2), a, b);
    }
    if n > h.cursor {
        lemma_receive_same(h.polled().skipped_to(n), a, b);
    }
}

proof fn lemma_scan_same<T>(a: &Ring<T>, b: &Ring<T>, from: u64, w: u64)
    requires
        b.header == a.header,
        b.slots == a.slots,
    ensures
        crate::head::next_present(b, from, w) == crate::head::next_present(a, from, w),
    decreases w + 1 - from,
{
    if !(from > w || from == u64::MAX || a.word(from) == from) {
        lemma_scan_same(a, b, (from + 1) as u64, w);
    }
}

/// A pushed message is received: a consumer that waits for message `seq` gets it as soon as
/// the producer has stored it.
pub proof fn lemma_pushed_message_is_received<T>(
    before: &Ring<T>,
    after: &Ring<T>,
    seq: u64,
    item: T,
    h: ReadHead,
)
    requires
        before.wf(),
        stored(before, after, seq, item),
        after.header.capacity == before.header.capacity,
        h.cursor == seq,
    ensures
        receive(h, after).item,
        receive(h, after).head == h,
        after.message(seq) == item,
{
    assert(0 <= before.index(seq) < before.slots@.len());
    lemma_present_is_received(h, after);
}

/// A ring that was created for records of type `T` can be attached to by consumers of `T`.
pub proof fn lemma_created_ring_attaches<T: LayoutSignature>(
    o: RingProducerBuilder,
    r: Result<(RingProducer<T>, Ring<T>), RingfireError>,
)
    requires
        created(o, r),
        r is Ok,
        slot_bytes::<T>() <= u32::MAX,
        o.readers() <= u32::MAX,
    ensures
        attachable::<T>(r->Ok_0.1.header, r->Ok_0.1.len as int),
{
}

/// A consumer that comes back after a crash goes on right behind the last message that it
/// committed, neither missing nor repeating one, if the next one is retained. If not, it
/// goes on with the oldest message retained, and the messages in between count as lapped.
pub proof fn lemma_resume_behind_commit(
    mode: ConsumerStartMode,
    committed: u64,
    write_seq: u64,
    capacity: u64,
)
    requires
        capacity >= 1,
        committed <= write_seq <= LAST_SEQ,
    ensures
        ({
            let (cursor, lapped) = resume_at(mode, Some(committed), write_seq, capacity);
            &&& lapped == cursor - (committed + 1)
            &&& if write_seq - committed <= capacity {
                cursor == committed + 1
            } else {
                cursor == oldest_of(write_seq, capacity)
            }
        }),
{
}

/// Where the messages of a batch came from: `at` are their numbers, each later than the one
/// before it, from `from` on and before `to`, and each message stood in the slot of its number.
pub open spec fn taken_in_order<T>(
    r: &Ring<T>,
    items: Seq<T>,
    at: Seq<u64>,
    from: u64,
    to: u64,
) -> bool {
    &&& at.len() == items.len()
    &&& forall|i: int|
        #![trigger at[i]]
        0 <= i < at.len() ==> {
            let slot = r.slots@[at[i] as int % r.header.capacity as int];
            &&& from <= at[i] < to
            &&& slot.seq == at[i]
            &&& slot.data == Some(items[i])
        }
    &&& forall|i: int, j: int| 0 <= i < j < at.len() ==> at[i] < at[j]
}

/// What one poll comes to.
pub(crate) proof fn lemma_one_poll<T>(h: ReadHead, r: &Ring<T>)
    requires
        h.reads(r),
        r.wf(),
    ensures
        ({
            let end = receive(h, r);
            let c = end.head.cursor;
            let slot = r.slots@[c as int % r.header.capacity as int];
            &&& end.head.reads(r)
            &&& h.cursor <= c
            &&& end.head.lapped_total == (h.lapped_total + (c - h.cursor))
                % 0x1_0000_0000_0000_0000
            &&& end.head.sparse == h.sparse
            &&& end.head.multi_producer == h.multi_producer
            &&& end.item ==> slot.seq == c && slot.data == Some(r.message(c)) && c <= LAST_SEQ
            &&& !end.item ==> slot.seq != c
            &&& r.slots@[h.cursor as int % r.header.capacity as int].seq == h.cursor ==> end.item
                && end.head == h
        }),
{
    lemma_receive_accounts(h, r);
    lemma_receive_skips_only_lost(h, r);
    let c = receive(h, r).head.cursor;
    let k = r.index(c);
    assert(0 <= k < r.slots@.len());
    assert(crate::ring::slot_ok(r.slots@[k], k, r.header.capacity));
}

/// A message in front of messages that were taken in order.
proof fn lemma_taken_before<T>(
    r: &Ring<T>,
    item: T,
    c: u64,
    items: Seq<T>,
    at: Seq<u64>,
    from: u64,
    to: u64,
)
    requires
        from <= c < to,
        c < u64::MAX,
        r.slots@[c as int % r.header.capacity as int].seq == c,
        r.slots@[c as int % r.header.capacity as int].data == Some(item),
        taken_in_order(r, items, at, (c + 1) as u64, to),
    ensures
        taken_in_order(r, seq![item] + items, seq![c] + at, from, to),
{
    let all = seq![item] + items;
    let all_at = seq![c] + at;
    assert forall|i: int| #![trigger all_at[i]] 0 <= i < all_at.len() implies {
        let slot = r.slots@[all_at[i] as int % r.header.capacity as int];
        &&& from <= all_at[i] < to
        &&& slot.seq == all_at[i]
        &&& slot.data == Some(all[i])
    } by {
        if i > 0 {
            assert(all_at[i] == at[i - 1]);
            assert(all[i] == items[i - 1]);
        }
    }
    assert forall|i: int, j: int| 0 <= i < j < all_at.len() implies all_at[i] < all_at[j] by {
        assert(all_at[j] == at[j - 1]);
        if i > 0 {
            assert(all_at[i] == at[i - 1]);
        }
    }
}

/// Adding twice modulo 2^64 is adding once.
pub(crate) proof fn lemma_lapped_adds(total: u64, mid: u64, a: int, b: int)
    requires
        mid == (total + a) % 0x1_0000_0000_0000_0000,
    ensures
        (mid + b) % 0x1_0000_0000_0000_0000 == (total + (a + b)) % 0x1_0000_0000_0000_0000,
{
}

/// A batch accounts for every number that it passes: what was not delivered was counted as
/// lapped. The messages are messages of the ring, in order, none twice, and a batch is short
/// only if the next message is not there.
pub proof fn lemma_batch_accounts<T>(h: ReadHead, r: &Ring<T>, n: nat) -> (at: Seq<u64>)
    requires
        h.reads(r),
        r.wf(),
    ensures
        ({
            let (end, items) = drained(h, r, n);
            &&& items.len() <= n
            &&& end.reads(r)
            &&& end.cursor >= h.cursor + items.len()
            &&& end.lapped_total == (h.lapped_total + (end.cursor - h.cursor - items.len()))
                % 0x1_0000_0000_0000_0000
            &&& taken_in_order(r, items, at, h.cursor, end.cursor)
            &&& items.len() < n ==> r.slots@[end.cursor as int % r.header.capacity as int].seq
                != end.cursor
            &&& n > 0 && r.slots@[h.cursor as int % r.header.capacity as int].seq == h.cursor
                ==> items.len() > 0 && at[0] == h.cursor
        }),
    decreases n,
{
    let one = receive(h, r);
    if n == 0 {
        Seq::empty()
    } else if !one.item {
        lemma_one_poll(h, r);
        Seq::empty()
    } else {
        lemma_one_poll(h, r);
        let c = one.head.cursor;
        let next = one.head.accepted();
        let rest_at = lemma_batch_accounts(next, r, (n - 1) as nat);
        let (end, rest) = drained(next, r, (n - 1) as nat);
        assert(drained(h, r, n) == (end, seq![r.message(c)] + rest));
        lemma_taken_before(r, r.message(c), c, rest, rest_at, h.cursor, end.cursor);
        lemma_lapped_adds(
            h.lapped_total,
            next.lapped_total,
            c - h.cursor,
            end.cursor - next.cursor - rest.len(),
        );
        seq![c] + rest_at
    }
}

/// A batch of `a + b` messages is a batch of `a` messages and then one of `b`.
pub proof fn lemma_batches_add_up<T>(h: ReadHead, r: &Ring<T>, a: nat, b: nat)
    requires
        drained(h, r, a).1.len() == a,
    ensures
        drained(h, r, a + b) == (
            drained(drained(h, r, a).0, r, b).0,
            drained(h, r, a).1 + drained(drained(h, r, a).0, r, b).1,
        ),
    decreases a,
{
    if a == 0 {
        assert(drained(h, r, a).1 + drained(h, r, b).1 =~= drained(h, r, b).1);
    } else {
        let next = receive(h, r).head.accepted();
        lemma_batches_add_up(next, r, (a - 1) as nat, b);
        let first = drained(next, r, (a - 1) as nat);
        assert(drained(h, r, a + b).1 =~= drained(h, r, a).1 + drained(first.0, r, b).1);
    }
}

/// Batches follow the log. In a ring that holds the tail of `log`, a batch of at most `n`
/// messages starts at the consumer's next message, or at the oldest one of the last `capacity`
/// if that is gone, and gives the messages from there on, in order, without a gap: `n` of them,
/// or all that there are. The cursor ends right behind the last one, and exactly the messages
/// that were gone are counted as lapped.
#[verifier::rlimit(50)]
pub proof fn lemma_batch_from_log<T>(h: ReadHead, r: &Ring<T>, log: Seq<T>, n: nat)
    requires
        h.reads(r),
        r.wf(),
        r.holds_log(log),
        n > 0,
    ensures
        ({
            let (end, items) = drained(h, r, n);
            let last = log.len() as int;
            let to = if h.cursor + r.header.capacity <= last {
                last - r.header.capacity + 1
            } else {
                h.cursor as int
            };
            if h.cursor <= last {
                let k = if n <= last - to + 1 {
                    n as int
                } else {
                    last - to + 1
                };
                &&& items == log.subrange(to - 1, to - 1 + k)
                &&& end.cursor == to + k
                &&& end.lapped_total == (h.lapped_total + (to - h.cursor))
                    % 0x1_0000_0000_0000_0000
            } else {
                &&& items.len() == 0
                &&& end.cursor == h.cursor
                &&& end.lapped_total == h.lapped_total
            }
        }),
    decreases n,
{
    lemma_receive_from_log(h, r, log);
    lemma_receive_accounts(h, r);
    let one = receive(h, r);
    let last = log.len() as int;
    if h.cursor <= last {
        let to = one.head.cursor as int;
        let next = one.head.accepted();
        let (end, items) = drained(h, r, n);
        if n == 1 {
            assert(drained(next, r, 0).1 =~= Seq::<T>::empty());
            assert(items =~= log.subrange(to - 1, to));
        } else {
            lemma_batch_from_log(next, r, log, (n - 1) as nat);
            let rest = drained(next, r, (n - 1) as nat).1;
            let k = if n <= last - to + 1 {
                n as int
            } else {
                last - to + 1
            };
            if next.cursor <= last {
                assert(rest == log.subrange(to, to + (k - 1)));
            }
            assert(items =~= log.subrange(to - 1, to - 1 + k));
        }
    }
}

/// Where consumers start, in a ring of `capacity` slots whose newest message is `write_seq`.
///
/// - Oldest: at a message that is retained, while the one before it, if there is one, is not;
///   nothing is counted as lapped.
/// - Latest: at the newest message, or at the first one of a ring that is still empty.
/// - Head: behind the newest message.
/// - At a sequence number: there, if that message is retained or still to come; else at the
///   oldest message retained, and what is gone is counted as lapped.
/// - With a saved offset: behind the saved message, whatever the mode, in the same way.
pub proof fn lemma_start_positions(
    mode: ConsumerStartMode,
    saved: Option<u64>,
    write_seq: u64,
    capacity: u64,
)
    requires
        capacity >= 1,
        write_seq <= LAST_SEQ,
        start_ok(mode, saved),
    ensures
        ({
            let (cursor, lapped) = resume_at(mode, saved, write_seq, capacity);
            let wanted = match saved {
                Some(seq) => Some(seq + 1),
                None => match mode {
                    ConsumerStartMode::Sequence(seq) => Some(
                        if seq == 0 {
                            1
                        } else {
                            seq as int
                        },
                    ),
                    _ => None,
                },
            };
            match wanted {
                Some(want) => if want + capacity > write_seq {
                    cursor == want && lapped == 0
                } else {
                    cursor + capacity == write_seq + 1 && lapped == cursor - want
                },
                None => lapped == 0 && match mode {
                    ConsumerStartMode::Oldest => 1 <= cursor && cursor + capacity > write_seq
                        && (cursor == 1 || cursor - 1 + capacity <= write_seq),
                    ConsumerStartMode::Latest => if write_seq == 0 {
                        cursor == 1
                    } else {
                        cursor == write_seq
                    },
                    ConsumerStartMode::Head => cursor == write_seq + 1,
                    ConsumerStartMode::Sequence(_) => false,
                },
            }
        }),
{
}

/// What attaching leaves: the consumer stands where [`lemma_start_positions`] says, knows its
/// ring's capacity and kind, and where it is registered, its slot in the registry shows its
/// cursor and its process.
pub proof fn lemma_attached_consumer_stands<T: LayoutSignature>(
    o: RingConsumerBuilder<T>,
    checkpoint: Option<OffsetCheckpoint>,
    pid: u32,
    live: Seq<u32>,
    before: &Ring<T>,
    after: &Ring<T>,
    c: RingConsumer<T>,
)
    requires
        attached_as(o, checkpoint, pid, live, before, after, Ok(c)),
    ensures
        ({
            let h = before.header;
            let start = resume_at(o.start_mode, saved_in(checkpoint), h.write_seq, h.capacity);
            &&& c.head.cursor == start.0
            &&& c.head.lapped_total == start.1
            &&& c.head.capacity == h.capacity
            &&& c.head.multi_producer <==> h.flags & FLAG_MODE_MPMC != 0
            &&& c.head.sparse <==> h.flags & FLAG_SPARSE != 0
            &&& c.head.empty_polls == 0
            &&& after.header == before.header
            &&& after.slots == before.slots
            &&& c.registration matches Some(reg) ==> after.registry is Some && {
                let slot = after.registry->0.slots@[reg.slot_index as int];
                slot.cursor_seq == c.head.cursor && slot.active == 1 && slot.pid == pid
            }
        }),
{
}

/// Attaching at the oldest message replays everything that is retained: in a ring that holds
/// the tail of `log`, whether or not it has wrapped, the consumer receives all of the last
/// `capacity` messages (all there are, if there are fewer), in order, and none counts as
/// lapped.
pub proof fn lemma_oldest_replays_retained<T: LayoutSignature>(
    pid: u32,
    live: Seq<u32>,
    before: &Ring<T>,
    after: &Ring<T>,
    c: RingConsumer<T>,
    log: Seq<T>,
    n: nat,
)
    requires
        before.wf(),
        before.holds_log(log),
        attached_plainly(ConsumerStartMode::Oldest, pid, live, before, after, Ok(c)),
        n >= before.header.capacity,
    ensures
        ({
            let (end, items) = drained(c.head, after, n);
            let kept = if log.len() <= before.header.capacity {
                log.len() as int
            } else {
                before.header.capacity as int
            };
            &&& items == log.skip(log.len() - kept)
            &&& end.lapped_total == 0
            &&& c.head.cursor == log.len() - kept + 1
            &&& end.cursor == log.len() + 1
        }),
{
    lemma_start_positions(
        ConsumerStartMode::Oldest,
        None,
        before.header.write_seq,
        before.header.capacity,
    );
    lemma_same_messages(before, after, log);
    lemma_batch_from_log(c.head, after, log, n);
    let kept = if log.len() <= before.header.capacity {
        log.len() as int
    } else {
        before.header.capacity as int
    };
    assert(drained(c.head, after, n).1 =~= log.skip(log.len() - kept));
}

/// Attaching at the latest message starts with that message, and attaching at the head starts
/// with the next one that is published.
pub proof fn lemma_latest_and_head_skip_history<T: LayoutSignature>(
    mode: ConsumerStartMode,
    pid: u32,
    live: Seq<u32>,
    before: &Ring<T>,
    after: &Ring<T>,
    c: RingConsumer<T>,
    log: Seq<T>,
    n: nat,
)
    requires
        before.wf(),
        before.holds_log(log),
        attached_plainly(mode, pid, live, before, after, Ok(c)),
        mode is Latest || mode is Head,
        n > 0,
    ensures
        mode is Latest ==> drained(c.head, after, n).1 == (if log.len() > 0 {
            seq![log.last()]
        } else {
            Seq::empty()
        }),
        mode is Head ==> drained(c.head, after, n).1 == Seq::<T>::empty() && c.head.cursor
            == log.len() + 1,
        drained(c.head, after, n).0.lapped_total == 0,
{
    lemma_start_positions(mode, None, before.header.write_seq, before.header.capacity);
    lemma_same_messages(before, after, log);
    lemma_batch_from_log(c.head, after, log, n);
    if mode is Latest && log.len() > 0 {
        assert(drained(c.head, after, n).1 =~= seq![log.last()]);
    } else {
        assert(drained(c.head, after, n).1 =~= Seq::<T>::empty());
    }
}

proof fn lemma_same_messages<T>(a: &Ring<T>, b: &Ring<T>, log: Seq<T>)
    requires
        a.wf(),
        a.holds_log(log),
        b.header == a.header,
        b.slots == a.slots,
    ensures
        b.wf(),
        b.holds_log(log),
{
    assert forall|n: u64|
        oldest_of(b.header.write_seq, b.header.capacity) <= n <= log.len() implies (
    #[trigger] b.word(n)) == n && b.message(n) == log[n - 1] by {
        assert(a.word(n) == n);
    }
}

/// A report reaches the consumer's own slot of the registry, and no other, and changes nothing
/// there but the cursor.
pub proof fn lemma_report_reaches_own_slot(
    before: ReaderRegistry,
    after: Option<ReaderRegistry>,
    reg: ReaderRegistration,
    cursor: u64,
    j: int,
)
    requires
        reported(Some(before), after, Some(reg), cursor),
        reg.slot_index < before.slots@.len(),
        0 <= j < before.slots@.len(),
    ensures
        after is Some,
        after->0.slots@.len() == before.slots@.len(),
        after->0.slots@[reg.slot_index as int].cursor_seq == cursor,
        after->0.slots@[j].pid == before.slots@[j].pid,
        after->0.slots@[j].active == before.slots@[j].active,
        after->0.slots@[j].name == before.slots@[j].name,
        j != reg.slot_index ==> after->0.slots@[j] == before.slots@[j],
{
}

/// One poll, in full: where the message at the consumer's cursor is there, it is delivered and
/// the cursor moves by one; whatever is delivered stood in the ring under its number, right
/// before the new cursor, and what was passed over is counted; where the cursor moved, a
/// registered consumer has reported it.
pub proof fn lemma_poll_delivers<T>(
    c: &RingConsumer<T>,
    d: &RingConsumer<T>,
    a: &Ring<T>,
    b: &Ring<T>,
    r: Option<T>,
)
    requires
        a.wf(),
        c.attached(a),
        polled(c, d, a, b, r),
    ensures
        ({
            let cap = a.header.capacity as int;
            let here = a.slots@[c.head.cursor as int % cap];
            let last = a.slots@[(d.head.cursor - 1) % cap];
            &&& here.seq == c.head.cursor ==> r == here.data && r is Some && d.head.cursor
                == c.head.cursor + 1 && d.head.lapped_total == c.head.lapped_total
            &&& r is Some ==> d.head.cursor > c.head.cursor && last.seq == d.head.cursor - 1
                && last.data == r && d.head.lapped_total == (c.head.lapped_total + (
            d.head.cursor - 1 - c.head.cursor)) % 0x1_0000_0000_0000_0000
            &&& r is None ==> d.head.lapped_total == (c.head.lapped_total + (d.head.cursor
                - c.head.cursor)) % 0x1_0000_0000_0000_0000 && a.slots@[d.head.cursor as int
                % cap].seq != d.head.cursor && d.head.cursor >= c.head.cursor
            &&& c.registration matches Some(reg) ==> b.registry is Some
                && b.registry->0.slots@[reg.slot_index as int].cursor_seq == (
            if d.head.cursor > c.head.cursor {
                d.head.cursor
            } else {
                a.registry->0.slots@[reg.slot_index as int].cursor_seq
            })
        }),
{
    lemma_receive_accounts(c.head, a);
    lemma_receive_skips_only_lost(c.head, a);
    let end = receive(c.head, a);
    let k = a.index(end.head.cursor);
    assert(0 <= k < a.slots@.len());
    assert(crate::ring::slot_ok(a.slots@[k], k, a.header.capacity));
}

/// A jump goes forward only and accounts for what it passes: the cursor ends at `to`, or stays
/// where it was if that is ahead; the messages in between are returned and counted as lapped;
/// no message, and no other reader's place in the registry, changes.
pub proof fn lemma_jump_accounts<T>(
    c: &RingConsumer<T>,
    d: &RingConsumer<T>,
    a: &Ring<T>,
    b: &Ring<T>,
    to: u64,
    skipped: u64,
    i: int,
)
    requires
        jumped(c, d, a, b, to, skipped),
        c.registration is Some && a.registry is Some ==> c.registration->0.slot_index
            < a.registry->0.slots@.len(),
    ensures
        d.head.cursor >= to,
        d.head.cursor >= c.head.cursor,
        d.head.cursor == to || d.head.cursor == c.head.cursor,
        skipped == d.head.cursor - c.head.cursor,
        d.head.lapped_total == (c.head.lapped_total + skipped) % 0x1_0000_0000_0000_0000,
        d.head.capacity == c.head.capacity,
        b.slots == a.slots,
        b.header == a.header,
        a.registry is Some && 0 <= i < a.registry->0.slots@.len() ==> {
            &&& b.registry is Some
            &&& c.registration is Some && i == c.registration->0.slot_index && skipped > 0
                ==> b.registry->0.slots@[i].cursor_seq == d.head.cursor
            &&& b.registry->0.slots@[i].pid == a.registry->0.slots@[i].pid
            &&& c.registration is None || i != c.registration->0.slot_index
                ==> b.registry->0.slots@[i] == a.registry->0.slots@[i]
        },
{
}

/// Which rings a consumer attaches to: valid rings whose slots have the size of its record type,
/// and whose signature, if they have one, is that of its record type. The refusal names the
/// first fault, with both signatures if they differ.
pub proof fn lemma_ring_acceptance<T: LayoutSignature>(h: RingHeader, len: int, e: RingfireError)
    ensures
        ({
            let slot = Some(slot_bytes::<T>() as usize);
            let align = slot_align::<T>() as usize;
            let fits = valid_header(h, len, slot, align);
            &&& attachable::<T>(h, len) <==> fits && (h.schema_sig == 0 || h.schema_sig
                == signature::<T>())
            &&& attach_refusal::<T>(h, len, e) && !fits ==> header_refusal(h, len, slot, align, e)
            &&& attach_refusal::<T>(h, len, e) && fits ==> e is SchemaMismatch
                && e->SchemaMismatch_expected == h.schema_sig && e->SchemaMismatch_actual
                == signature::<T>()
        }),
{
}

/// Reading leaves everything else alone: whether a consumer polls once or takes a batch, the
/// ring's header, messages and size stay, so do the consumer's offset file and its
/// registration, and of the registry only its own slot changes, to show its new cursor.
pub proof fn lemma_reading_leaves_rest<T>(
    c: &RingConsumer<T>,
    d: &RingConsumer<T>,
    a: &Ring<T>,
    b: &Ring<T>,
    r: Option<T>,
    i: int,
)
    requires
        a.wf(),
        c.attached(a),
        polled(c, d, a, b, r) || moved(c, d, a, b),
    ensures
        b.header == a.header,
        b.slots == a.slots,
        b.len == a.len,
        d.checkpoint == c.checkpoint,
        d.registration == c.registration,
        d.head.cursor >= c.head.cursor,
        a.registry is None <==> b.registry is None,
        a.registry is Some && 0 <= i < a.registry->0.slots@.len() ==> {
            let was = a.registry->0.slots@[i];
            let now = b.registry->0.slots@[i];
            let own = c.registration is Some && c.registration->0.slot_index == i;
            &&& b.registry->0.slots@.len() == a.registry->0.slots@.len()
            &&& own && d.head.cursor > c.head.cursor ==> now == (ReaderSlot {
                cursor_seq: d.head.cursor,
                ..was
            })
            &&& !own || d.head.cursor == c.head.cursor ==> now == was
        },
{
    lemma_receive_accounts(c.head, a);
}

/// When attaching succeeds and whom it registers: a ring that can be attached to is refused only
/// if it is lossless and no slot of its registry is to be had, and then for that reason. A
/// consumer is registered exactly if there is such a slot; otherwise, and where it is refused,
/// the registry stays as it was. Messages never change, and the offset file is the one given.
pub proof fn lemma_attach_outcomes<T: LayoutSignature>(
    o: RingConsumerBuilder<T>,
    checkpoint: Option<OffsetCheckpoint>,
    pid: u32,
    live: Seq<u32>,
    before: &Ring<T>,
    after: &Ring<T>,
    r: Result<RingConsumer<T>, RingfireError>,
    j: int,
)
    requires
        attached_as(o, checkpoint, pid, live, before, after, r),
    ensures
        after.header == before.header,
        after.slots == before.slots,
        after.len == before.len,
        r is Ok ==> attachable::<T>(before.header, before.len as int),
        attachable::<T>(before.header, before.len as int) && (before.registry is None
            || before.header.flags & FLAG_POLICY_LOSSLESS_BACKPRESSURE == 0) ==> r is Ok,
        before.registry is Some && 0 <= j < before.registry->0.slots@.len() && available(
            before.registry->0.slots@[j],
            live,
        ) && attachable::<T>(before.header, before.len as int) ==> r is Ok
            && r->Ok_0.registration is Some,
        r matches Err(e) ==> after.registry == before.registry && (attachable::<T>(
            before.header,
            before.len as int,
        ) ==> e is NoAvailableReaderSlots),
        r matches Ok(c) ==> c.checkpoint == checkpoint && (c.registration is None
            ==> after.registry == before.registry),
{
}

} // verus!
