//! Rings with several producers, and consumers that compete for the messages of one ring.
//!
//! Producers claim sequence numbers from a shared counter and own a slot by a
//! compare-and-swap of its sequence word. Queue consumers claim tickets from another counter
//! in the same way.
use crate::consumer::{attach_refusal, attachable, signature};
use crate::error::RingfireError;
use crate::header::{
    check_schema, fresh_header, valid_header, validate_header, RingHeader, RingLayout, RingView,
    FLAG_MODE_MPMC, FLAG_POLICY_LATEST_WINS, RINGFIRE_MAGIC, RING_HEADER_SIZE, SLOT_WRITING,
};
use crate::math::{is_pow2, larger, lemma_mask_is_mod, lemma_round_up, max_of, round_up,
    round_up_size};
use crate::ring::{
    lemma_slot_size, slot_align, slot_align_of, slot_bytes, slot_fits, slot_ok, slot_size_of, Ring,
    LAST_SEQ,
};
use crate::signature::LayoutSignature;
use crate::slot::write_slot;
use crate::spmc::{
    empty_slots, lemma_store_extends_log, published_header, stored, wake_for, CleanupMode,
};
use crate::wait::{wake_futex, WaitAction, WaitStrategy};
use core::marker::PhantomData;
use vstd::prelude::*;
use vstd::string::StringExecFns;

verus! {

/// Spins before a producer waiting on its slot starts checking the clock.
pub const SLOT_SPINS_BEFORE_CLOCK: u32 = 4096;

/// How long a producer waits for the previous lap of its slot before taking it over
/// (older lap) or dropping its own message (slot mid-write), in nanoseconds.
pub const SLOT_STALL_DEADLINE_NS: u64 = 10_000_000;

/// A producer on its way into its slot.
#[derive(Debug, Clone, Copy)]
pub struct SlotClaim {
    /// The claimed sequence number
    pub seq: u64,
    /// What the slot holds when the previous lap is published
    pub prev_lap: u64,
    pub spins: u32,
    /// When the producer's patience ends, once it has looked at the clock
    pub deadline_ns: Option<u64>,
    /// The deadline has passed while the slot held an older lap
    pub stalled: bool,
}

/// What a producer makes of its slot's sequence word.
#[derive(Debug, Clone, Copy, PartialEq, Eq, Structural)]
pub enum SlotVerdict {
    /// A later lap already owns the slot: the message is obsolete.
    Obsolete,
    /// The slot is there for the taking.
    Take,
    /// The previous lap is not finished.
    Wait,
}

/// The access or pause that a producer asks for.
#[derive(Debug, Clone, Copy, PartialEq, Eq, Structural)]
pub enum ClaimAction {
    /// Compare-and-swap the slot's sequence word from `expected` to the marker.
    Swap { expected: u64 },
    /// Hint the processor that this is a spin loop, then load the word again.
    Spin,
    /// Read the clock.
    ReadClock { word: u64 },
    /// Give the rest of the time slice to another thread, then load the word again.
    Yield,
    /// The slot is owned: store the payload, then the sequence number, raise `write_seq` to
    /// it and wake consumers.
    Write,
    /// Give the message up.
    Drop,
}

/// What happened to a producer on its way into its slot.
#[derive(Debug, Clone, Copy, PartialEq, Eq, Structural)]
pub enum ClaimEvent {
    /// The slot's sequence word was loaded.
    Word(u64),
    /// The compare-and-swap from `word` succeeded or not.
    Swapped { word: u64, won: bool },
    /// The clock shows `now_ns`; the slot's word was `word`.
    Clock { word: u64, now_ns: u64 },
}

/// What a producer of message `seq` makes of the word `word`.
pub open spec fn verdict(word: u64, seq: u64, prev_lap: u64, stalled: bool) -> SlotVerdict {
    if word != SLOT_WRITING && word > seq {
        SlotVerdict::Obsolete
    } else if word == prev_lap || (stalled && word != SLOT_WRITING) {
        SlotVerdict::Take
    } else {
        SlotVerdict::Wait
    }
}

impl SlotClaim {
    /// A producer that has just claimed `seq`.
    pub fn new(seq: u64, capacity: u64) -> (c: Self)
        ensures
            c == (SlotClaim {
                seq,
                prev_lap: if seq >= capacity {
                    (seq - capacity) as u64
                } else {
                    0
                },
                spins: 0,
                deadline_ns: None,
                stalled: false,
            }),
    {
        SlotClaim {
            seq,
            prev_lap: seq.saturating_sub(capacity),
            spins: 0,
            deadline_ns: None,
            stalled: false,
        }
    }

    /// Judges the slot's sequence word.
    pub fn judge(&self, word: u64) -> (v: SlotVerdict)
        ensures
            v == verdict(word, self.seq, self.prev_lap, self.stalled),
    {
        if word != SLOT_WRITING && word > self.seq {
            SlotVerdict::Obsolete
        } else if word == self.prev_lap || (self.stalled && word != SLOT_WRITING) {
            SlotVerdict::Take
        } else {
            SlotVerdict::Wait
        }
    }

    /// The claim after one more vain look at its slot, and how it passes the time.
    pub open spec fn waited(self, word: u64) -> (SlotClaim, ClaimAction) {
        let spins = self.spins.wrapping_add(1);
        let c = SlotClaim { spins, ..self };
        if spins >= SLOT_SPINS_BEFORE_CLOCK && spins % 64 == 0 {
            (c, ClaimAction::ReadClock { word })
        } else {
            (c, ClaimAction::Spin)
        }
    }

    /// The claim after an event, and what comes next.
    pub open spec fn after(self, e: ClaimEvent) -> (SlotClaim, ClaimAction) {
        match e {
            ClaimEvent::Word(word) => match verdict(
                word,
                self.seq,
                self.prev_lap,
                self.stalled,
            ) {
                SlotVerdict::Obsolete => (self, ClaimAction::Drop),
                SlotVerdict::Take => (self, ClaimAction::Swap { expected: word }),
                SlotVerdict::Wait => self.waited(word),
            },
            ClaimEvent::Swapped { word, won } => if won {
                (self, ClaimAction::Write)
            } else {
                self.waited(word)
            },
            ClaimEvent::Clock { word, now_ns } => {
                let limit = match self.deadline_ns {
                    Some(ns) => ns as int,
                    None => now_ns + SLOT_STALL_DEADLINE_NS,
                };
                let timed = SlotClaim {
                    deadline_ns: Some(
                        if limit <= u64::MAX {
                            limit as u64
                        } else {
                            u64::MAX
                        },
                    ),
                    ..self
                };
                if now_ns < timed.deadline_ns->0 {
                    (timed, ClaimAction::Yield)
                } else if word == SLOT_WRITING {
                    (timed, ClaimAction::Drop)
                } else {
                    (SlotClaim { stalled: true, ..timed }, ClaimAction::Yield)
                }
            },
        }
    }

    fn wait(&mut self, word: u64) -> (a: ClaimAction)
        ensures
            (*final(self), a) == old(self).waited(word),
    {
        self.spins = self.spins.wrapping_add(1);
        if self.spins >= SLOT_SPINS_BEFORE_CLOCK && self.spins % 64 == 0 {
            ClaimAction::ReadClock { word }
        } else {
            ClaimAction::Spin
        }
    }

    /// Takes what happened and returns what the producer does next. It starts by loading
    /// its slot's sequence word.
    ///
    /// A slot left at an older lap past the deadline (its producer died between claim and
    /// publish) is taken over. A slot that stays [`SLOT_WRITING`] is never taken over: its
    /// writer may only be descheduled, and two writers would tear the payload. After the
    /// deadline this message is dropped instead; readers skip the hole.
    pub fn step(&mut self, e: ClaimEvent) -> (a: ClaimAction)
        ensures
            (*final(self), a) == old(self).after(e),
    {
        match e {
            ClaimEvent::Word(word) => match self.judge(word) {
                SlotVerdict::Obsolete => ClaimAction::Drop,
                SlotVerdict::Take => ClaimAction::Swap { expected: word },
                SlotVerdict::Wait => self.wait(word),
            },
            ClaimEvent::Swapped { word, won } => {
                if won {
                    ClaimAction::Write
                } else {
                    self.wait(word)
                }
            },
            ClaimEvent::Clock { word, now_ns } => {
                let limit: u64 = match self.deadline_ns {
                    Some(ns) => ns,
                    None => now_ns.saturating_add(SLOT_STALL_DEADLINE_NS),
                };
                self.deadline_ns = Some(limit);
                if now_ns < limit {
                    return ClaimAction::Yield;
                }
                if word == SLOT_WRITING {
                    return ClaimAction::Drop;
                }
                self.stalled = true;
                ClaimAction::Yield
            },
        }
    }
}

/// A producer never touches a slot that a later lap owns, and never takes over a slot that
/// another producer is writing to: it only ever swaps out an older lap, and it writes only
/// after the swap succeeded.
pub proof fn lemma_claim_respects_owner(c: SlotClaim, e: ClaimEvent)
    requires
        c.prev_lap <= c.seq < SLOT_WRITING,
    ensures
        c.after(e).1 matches ClaimAction::Swap { expected } ==> e == ClaimEvent::Word(expected)
            && expected != SLOT_WRITING && expected <= c.seq,
        c.after(e).1 is Write ==> (e matches ClaimEvent::Swapped { word, won } && won),
        c.after(e).0.seq == c.seq,
        c.after(e).0.prev_lap == c.prev_lap,
{
}

/// Two producers never write to one slot at a time. In any sequence of slot states in which
/// each compare-and-swap that a claim asks for succeeds only where the word is as expected,
/// a slot that is marked stays with its owner until the owner publishes: no claim can win it.
pub proof fn lemma_marked_slot_cannot_be_won(c: SlotClaim, e: ClaimEvent, word_now: u64)
    requires
        c.prev_lap != SLOT_WRITING,
        c.after(e).1 is Swap,
        word_now == SLOT_WRITING,
    ensures
        c.after(e).1->expected != word_now,
{
}

/// Multi-producer writer for a ring buffer.
/// Allows multiple concurrent processes to publish messages into the same ring buffer.
#[derive(Debug)]
pub struct MpmcProducer<T> {
    pub capacity: u64,
    pub mask: u64,
    pub cleanup_mode: CleanupMode,
    pub marker: PhantomData<T>,
}

/// Byte offset of the first slot.
pub open spec fn mpmc_slots_start<T>() -> int {
    round_up(RING_HEADER_SIZE as int, slot_align::<T>() as int)
}

/// Bytes of the whole region.
pub open spec fn mpmc_size<T>(capacity: u64) -> int {
    mpmc_slots_start::<T>() + capacity * slot_bytes::<T>()
}

/// Where the parts of the region go; numbers and tickets start at 1.
pub open spec fn mpmc_layout<T: LayoutSignature>(capacity: u64) -> RingLayout {
    RingLayout {
        capacity,
        slot_size: slot_bytes::<T>() as usize,
        flags: FLAG_POLICY_LATEST_WINS | FLAG_MODE_MPMC,
        schema_sig: signature::<T>(),
        claim_seq: 1,
        read_seq: 1,
        registry_offset: 0,
        registry_count: 0,
        slots_offset: mpmc_slots_start::<T>() as usize,
        arena_offset: 0,
        arena_size: 0,
    }
}

/// The header once message `seq` is published by one of several producers: `write_seq` only
/// rises.
pub open spec fn raised_header(h: RingHeader, seq: u64) -> RingHeader {
    published_header(h, max_of(h.write_seq, seq))
}

impl<T> MpmcProducer<T> {
    /// The producer belongs to the ring.
    pub open spec fn writes(&self, ring: &Ring<T>) -> bool {
        self.capacity == ring.header.capacity && self.mask == ring.header.mask
    }
}

/// Validates a ring's header for records of type `T`.
fn open_ring<T: LayoutSignature>(header: &RingHeader, len: usize) -> (r: Result<
    RingView,
    RingfireError,
>)
    requires
        slot_fits::<T>(),
    ensures
        r is Ok <==> attachable::<T>(*header, len as int),
        match r {
            Ok(v) => v.capacity == header.capacity && v.mask == header.mask,
            Err(e) => attach_refusal::<T>(*header, len as int, e),
        },
{
    let slot_size: usize = slot_size_of::<T>();
    let align: usize = slot_align_of::<T>();
    let view = match validate_header(header, len, Some(slot_size), align) {
        Ok(v) => v,
        Err(e) => return Err(e),
    };
    match check_schema(header, T::layout_signature(), String::from_str(T::FULL_NAME)) {
        Ok(_) => Ok(view),
        Err(e) => Err(e),
    }
}

impl<T: Copy + LayoutSignature> MpmcProducer<T> {
    /// Creates a new MPMC ring buffer; further producers join with
    /// [`MpmcProducer::attach`].
    pub fn create(capacity: u64) -> (r: Result<(Self, Ring<T>), RingfireError>)
        requires
            slot_fits::<T>(),
            is_pow2(capacity as nat) ==> mpmc_size::<T>(capacity) <= usize::MAX,
        ensures
            r is Ok <==> is_pow2(capacity as nat),
            match r {
                Ok((p, ring)) => {
                    &&& ring.wf()
                    &&& ring.header == (RingHeader {
                        magic: RINGFIRE_MAGIC,
                        ..fresh_header(mpmc_layout::<T>(capacity))
                    })
                    &&& ring.len == mpmc_size::<T>(capacity)
                    &&& ring.registry is None
                    &&& ring.holds_log(Seq::empty())
                    &&& p.writes(&ring)
                    &&& p.cleanup_mode == CleanupMode::UnlinkOnDrop
                    &&& slot_bytes::<T>() <= u32::MAX ==> valid_header(
                        ring.header,
                        ring.len as int,
                        Some(slot_bytes::<T>() as usize),
                        slot_align::<T>() as usize,
                    )
                },
                Err(e) => e == RingfireError::InvalidCapacity(capacity),
            },
    {
        if !capacity.is_power_of_two() {
            return Err(RingfireError::InvalidCapacity(capacity));
        }
        let slot_size: usize = slot_size_of::<T>();
        let align: usize = slot_align_of::<T>();
        proof {
            lemma_mask_is_mod(0, capacity);
            lemma_round_up(RING_HEADER_SIZE as int, align as int);
            assert(capacity * slot_size >= capacity) by (nonlinear_arith)
                requires
                    slot_size >= 8,
                    capacity >= 1,
            ;
        }
        let slots_offset: usize = round_up_size(RING_HEADER_SIZE, align);
        let total: usize = slots_offset + capacity as usize * slot_size;
        let layout = RingLayout {
            capacity,
            slot_size,
            flags: FLAG_POLICY_LATEST_WINS | FLAG_MODE_MPMC,
            schema_sig: T::layout_signature(),
            claim_seq: 1,
            read_seq: 1,
            registry_offset: 0,
            registry_count: 0,
            slots_offset,
            arena_offset: 0,
            arena_size: 0,
        };
        let mut header = RingHeader::initialize(&layout);
        let slots = empty_slots::<T>(capacity as usize);
        header.publish();
        let ring = Ring { header, len: total, registry: None, slots };
        Ok(
            (
                MpmcProducer {
                    capacity,
                    mask: capacity - 1,
                    cleanup_mode: CleanupMode::UnlinkOnDrop,
                    marker: PhantomData,
                },
                ring,
            ),
        )
    }

    /// Attaches an additional producer to an existing MPMC ring buffer.
    pub fn attach(ring: &Ring<T>) -> (r: Result<Self, RingfireError>)
        requires
            slot_fits::<T>(),
        ensures
            r is Ok <==> attachable::<T>(ring.header, ring.len as int),
            match r {
                Ok(p) => p.writes(ring) && p.cleanup_mode == CleanupMode::Persistent,
                Err(e) => attach_refusal::<T>(ring.header, ring.len as int, e),
            },
    {
        let view = match open_ring::<T>(&ring.header, ring.len) {
            Ok(v) => v,
            Err(e) => return Err(e),
        };
        Ok(
            MpmcProducer {
                capacity: view.capacity,
                mask: view.mask,
                cleanup_mode: CleanupMode::Persistent,
                marker: PhantomData,
            },
        )
    }
}

impl<T: Copy> MpmcProducer<T> {
    /// Sets the cleanup mode when this producer is dropped.
    pub fn set_cleanup_mode(&mut self, mode: CleanupMode)
        ensures
            *final(self) == (MpmcProducer { cleanup_mode: mode, ..*old(self) }),
    {
        self.cleanup_mode = mode;
    }

    /// Publishes a message into the ring buffer using ticket claiming. Returns the sequence
    /// number assigned to the message and how many consumers the kernel is to wake.
    ///
    /// A producer that finds a newer lap already in its slot drops its (stale) message, as
    /// does one whose slot stays mid-write by another producer.
    pub fn push(&self, ring: &mut Ring<T>, item: T) -> (r: (u64, Option<i32>))
        requires
            old(ring).wf(),
            self.writes(old(ring)),
            1 <= old(ring).header.claim_seq <= LAST_SEQ,
        ensures
            final(ring).wf(),
            final(ring).registry == old(ring).registry,
            final(ring).len == old(ring).len,
            r.0 == old(ring).header.claim_seq,
            ({
                let seq = old(ring).header.claim_seq;
                let word = old(ring).word(seq);
                let claimed = RingHeader { claim_seq: (seq + 1) as u64, ..old(ring).header };
                if word != SLOT_WRITING && word <= seq {
                    &&& stored(old(ring), final(ring), seq, item)
                    &&& final(ring).header == raised_header(claimed, seq)
                    &&& r.1 == wake_for(claimed)
                } else {
                    &&& final(ring).slots == old(ring).slots
                    &&& final(ring).header == claimed
                    &&& r.1 is None
                }
            }),
            forall|log: Seq<T>|
                old(ring).holds_log(log) && log.len() + 1 == old(ring).header.claim_seq
                    ==> #[trigger] final(ring).holds_log(log.push(item)),
    {
        let seq: u64 = ring.header.claim_seq;
        ring.header.claim_seq = seq + 1;
        let mut claim = SlotClaim::new(seq, self.capacity);
        // Nobody else is at work on this ring: a slot that is not ready stays as it is until
        // the deadline has passed.
        claim.stalled = true;
        let word: u64 = ring.load_word(seq);
        match claim.judge(word) {
            SlotVerdict::Take => {
                let i: usize = ring.slot_index(seq);
                let mut slot = ring.slots[i];
                write_slot(&mut slot, seq, item);
                ring.slots.set(i, slot);
                proof {
                    assert forall|j: int| 0 <= j < ring.slots@.len() implies slot_ok(
                        #[trigger] ring.slots@[j],
                        j,
                        ring.header.capacity,
                    ) by {
                        assert(slot_ok(old(ring).slots@[j], j, old(ring).header.capacity));
                    }
                }
                ring.header.write_seq = larger(ring.header.write_seq, seq);
                let wake = wake_futex(&mut ring.header, i32::MAX);
                proof {
                    assert forall|log: Seq<T>|
                        old(ring).holds_log(log) && log.len() + 1 == seq implies
                    #[trigger] ring.holds_log(log.push(item)) by {
                        lemma_store_extends_log(old(ring), ring, log, item);
                    }
                }
                (seq, wake)
            },
            _ => {
                proof {
                    let i = old(ring).index(seq);
                    assert(0 <= i < old(ring).slots@.len());
                    assert forall|log: Seq<T>|
                        old(ring).holds_log(log) && log.len() + 1 == seq implies
                    #[trigger] ring.holds_log(log.push(item)) by {
                        assert(old(ring).slots@[i].seq <= log.len());
                    }
                }
                (seq, None)
            },
        }
    }

    /// Returns ring buffer capacity.
    pub fn capacity(&self) -> (r: u64)
        ensures
            r == self.capacity,
    {
        self.capacity
    }
}

/// A competing queue consumer: each delivered item is consumed by exactly one consumer.
#[derive(Debug, Clone, Copy)]
pub struct QueueHead {
    pub capacity: u64,
    pub mask: u64,
    /// Ticket claimed from `read_seq` whose message was not published yet.
    pub pending: Option<u64>,
    /// Items found overwritten before they could be read
    pub dropped: u64,
}

/// What a queue consumer is about to learn.
#[derive(Debug, Clone, Copy, PartialEq, Eq, Structural)]
pub enum QueuePhase {
    /// Whether the slot of its ticket holds the message.
    Probe { ticket: u64 },
    /// Whether the copy just made stands.
    Confirm { ticket: u64 },
    /// Whether producers are a full lap past its ticket.
    Overrun { ticket: u64 },
    /// Which ticket comes next.
    NextTicket,
    /// How many tickets there are; the next one is `read_seq`.
    Supply { read_seq: u64 },
    /// Whether it has moved the queue on to `floor`.
    Skip { read_seq: u64, floor: u64 },
    /// Whether it has got the ticket `read_seq`.
    Claim { read_seq: u64 },
}

/// The access that a queue consumer asks for.
#[derive(Debug, Clone, Copy, PartialEq, Eq, Structural)]
pub enum QueueAsk {
    /// Load the sequence word of the slot of message `of`.
    Word { of: u64 },
    /// Copy the payload of the slot of message `of`, then load its sequence word.
    Copy { of: u64 },
    /// Load the header's `claim_seq`.
    ClaimSeq,
    /// Load the header's `read_seq`.
    ReadSeq,
    /// Compare-and-swap the header's `read_seq`; hand back 1 if it succeeded, else 0.
    Swap { from: u64, to: u64 },
    /// Nothing more: there is no item now.
    Empty,
    /// Nothing more: the copy is the item.
    Item,
}

/// Producers are more than a lap past `ticket`.
pub open spec fn overrun(claim_seq: u64, ticket: u64, capacity: u64) -> bool {
    claim_seq > ticket + capacity
}

/// The oldest ticket that producers have not overrun.
pub open spec fn ticket_floor(claim_seq: u64, capacity: u64) -> u64 {
    if claim_seq >= capacity {
        (claim_seq - capacity) as u64
    } else {
        0
    }
}

/// What the fate of a ticket can be.
#[derive(Debug, Clone, Copy, PartialEq, Eq, Structural)]
pub enum TicketFate {
    Ready,
    NotYet,
    Lost,
}

/// The fate of a ticket in a ring.
pub open spec fn ticket_fate<T>(r: &Ring<T>, ticket: u64) -> TicketFate {
    let word = r.word(ticket);
    if word == ticket {
        TicketFate::Ready
    } else if word != SLOT_WRITING && word > ticket || overrun(
        r.header.claim_seq,
        ticket,
        r.header.capacity,
    ) {
        TicketFate::Lost
    } else {
        TicketFate::NotYet
    }
}

/// Where a dequeue ends: the consumer and the queue's next ticket then, and the ticket whose
/// item was taken, if any.
pub struct Dequeued {
    pub head: QueueHead,
    pub read_seq: u64,
    pub ticket: Option<u64>,
}

/// What a consumer at `q` takes from the queue `r` whose next ticket is `read_seq`.
///
/// A ticket that it holds comes first: its item if it is there; nothing while it is still
/// being published; if it is lost it counts as dropped. Without a ticket it claims the next
/// one; tickets more than a ring behind the producers are skipped in one step, and counted.
pub open spec fn dequeue<T>(q: QueueHead, read_seq: u64, r: &Ring<T>) -> Dequeued
    decreases
        u64::MAX - read_seq,
        if q.pending is Some {
            1int
        } else {
            0int
        },
{
    let claim = r.header.claim_seq;
    match q.pending {
        Some(ticket) => match ticket_fate(r, ticket) {
            TicketFate::Ready => Dequeued {
                head: QueueHead { pending: None, ..q },
                read_seq,
                ticket: Some(ticket),
            },
            TicketFate::NotYet => Dequeued { head: q, read_seq, ticket: None },
            TicketFate::Lost => dequeue(q.lost(), read_seq, r),
        },
        None => {
            let floor = ticket_floor(claim, q.capacity);
            if read_seq >= claim {
                Dequeued { head: q, read_seq, ticket: None }
            } else if read_seq < floor {
                dequeue(q.skipped((floor - read_seq) as u64), floor, r)
            } else {
                dequeue(QueueHead { pending: Some(read_seq), ..q }, (read_seq + 1) as u64, r)
            }
        },
    }
}

impl QueueHead {
    /// The consumer after its ticket turned out to be lost.
    pub open spec fn lost(self) -> QueueHead {
        QueueHead { pending: None, dropped: self.dropped.wrapping_add(1), ..self }
    }

    /// The consumer after it skipped `n` tickets.
    pub open spec fn skipped(self, n: u64) -> QueueHead {
        QueueHead { dropped: self.dropped.wrapping_add(n), ..self }
    }

    /// The capacity is sound.
    pub open spec fn wf(self) -> bool {
        &&& is_pow2(self.capacity as nat)
        &&& self.capacity >= 1
        &&& self.mask == self.capacity - 1
    }

    /// The consumer belongs to a ring.
    pub open spec fn reads<T>(self, r: &Ring<T>) -> bool {
        &&& self.wf()
        &&& self.capacity == r.header.capacity
        &&& self.mask == r.header.mask
        &&& self.pending matches Some(t) ==> 1 <= t < SLOT_WRITING
    }

    /// The first access of a dequeue.
    pub open spec fn first(self) -> (QueuePhase, QueueAsk) {
        match self.pending {
            Some(ticket) => (QueuePhase::Probe { ticket }, QueueAsk::Word { of: ticket }),
            None => (QueuePhase::NextTicket, QueueAsk::ReadSeq),
        }
    }

    /// What the consumer makes of the word `loaded`.
    pub open spec fn after(self, phase: QueuePhase, loaded: u64) -> (
        QueueHead,
        QueuePhase,
        QueueAsk,
    ) {
        let next = (QueuePhase::NextTicket, QueueAsk::ReadSeq);
        match phase {
            QueuePhase::Probe { ticket } => if loaded == ticket {
                (self, QueuePhase::Confirm { ticket }, QueueAsk::Copy { of: ticket })
            } else if loaded != SLOT_WRITING && loaded > ticket {
                (self.lost(), next.0, next.1)
            } else {
                (self, QueuePhase::Overrun { ticket }, QueueAsk::ClaimSeq)
            },
            QueuePhase::Confirm { ticket } => if loaded == ticket {
                (QueueHead { pending: None, ..self }, next.0, QueueAsk::Item)
            } else {
                (self.lost(), next.0, next.1)
            },
            QueuePhase::Overrun { ticket } => if overrun(loaded, ticket, self.capacity) {
                (self.lost(), next.0, next.1)
            } else {
                (self, phase, QueueAsk::Empty)
            },
            QueuePhase::NextTicket => (
                self,
                QueuePhase::Supply { read_seq: loaded },
                QueueAsk::ClaimSeq,
            ),
            QueuePhase::Supply { read_seq } => {
                let floor = ticket_floor(loaded, self.capacity);
                if read_seq >= loaded {
                    (self, phase, QueueAsk::Empty)
                } else if read_seq < floor {
                    (
                        self,
                        QueuePhase::Skip { read_seq, floor },
                        QueueAsk::Swap { from: read_seq, to: floor },
                    )
                } else {
                    (
                        self,
                        QueuePhase::Claim { read_seq },
                        QueueAsk::Swap { from: read_seq, to: (read_seq + 1) as u64 },
                    )
                }
            },
            QueuePhase::Skip { read_seq, floor } => if loaded == 1 {
                (self.skipped((floor - read_seq) as u64), next.0, next.1)
            } else {
                (self, next.0, next.1)
            },
            QueuePhase::Claim { read_seq } => if loaded == 1 {
                (
                    QueueHead { pending: Some(read_seq), ..self },
                    QueuePhase::Probe { ticket: read_seq },
                    QueueAsk::Word { of: read_seq },
                )
            } else {
                (self, next.0, next.1)
            },
        }
    }

    /// The first access of a dequeue.
    pub fn start(&self) -> (r: (QueuePhase, QueueAsk))
        ensures
            r == self.first(),
    {
        match self.pending {
            Some(ticket) => (QueuePhase::Probe { ticket }, QueueAsk::Word { of: ticket }),
            None => (QueuePhase::NextTicket, QueueAsk::ReadSeq),
        }
    }

    fn lose(&mut self) -> (r: (QueuePhase, QueueAsk))
        ensures
            *final(self) == old(self).lost(),
            r == (QueuePhase::NextTicket, QueueAsk::ReadSeq),
    {
        self.pending = None;
        self.dropped = self.dropped.wrapping_add(1);
        (QueuePhase::NextTicket, QueueAsk::ReadSeq)
    }

    /// One step of a dequeue: takes the word that the last access loaded (for a swap 1 if it
    /// succeeded, else 0), and returns what the consumer is about to learn and the access
    /// for that.
    pub fn step(&mut self, phase: QueuePhase, loaded: u64) -> (r: (QueuePhase, QueueAsk))
        requires
            phase matches QueuePhase::Skip { read_seq, floor } ==> read_seq <= floor,
        ensures
            (*final(self), r.0, r.1) == old(self).after(phase, loaded),
            r.0 matches QueuePhase::Skip { read_seq, floor } ==> read_seq <= floor,
    {
        match phase {
            QueuePhase::Probe { ticket } => {
                if loaded == ticket {
                    (QueuePhase::Confirm { ticket }, QueueAsk::Copy { of: ticket })
                } else if loaded != SLOT_WRITING && loaded > ticket {
                    self.lose()
                } else {
                    (QueuePhase::Overrun { ticket }, QueueAsk::ClaimSeq)
                }
            },
            QueuePhase::Confirm { ticket } => {
                if loaded == ticket {
                    self.pending = None;
                    (QueuePhase::NextTicket, QueueAsk::Item)
                } else {
                    self.lose()
                }
            },
            QueuePhase::Overrun { ticket } => {
                // Producers a full lap past this ticket: its slot was (or is being) reused,
                // or its producer died before publishing.
                if loaded > self.capacity && loaded - self.capacity > ticket {
                    self.lose()
                } else {
                    (phase, QueueAsk::Empty)
                }
            },
            QueuePhase::NextTicket => (
                QueuePhase::Supply { read_seq: loaded },
                QueueAsk::ClaimSeq,
            ),
            QueuePhase::Supply { read_seq } => {
                if read_seq >= loaded {
                    return (phase, QueueAsk::Empty);
                }
                // Tickets more than a ring behind the producers are gone: skip them in one
                // step.
                let floor: u64 = loaded.saturating_sub(self.capacity);
                if read_seq < floor {
                    (
                        QueuePhase::Skip { read_seq, floor },
                        QueueAsk::Swap { from: read_seq, to: floor },
                    )
                } else {
                    (
                        QueuePhase::Claim { read_seq },
                        QueueAsk::Swap { from: read_seq, to: read_seq + 1 },
                    )
                }
            },
            QueuePhase::Skip { read_seq, floor } => {
                if loaded == 1 {
                    self.dropped = self.dropped.wrapping_add(floor - read_seq);
                }
                (QueuePhase::NextTicket, QueueAsk::ReadSeq)
            },
            QueuePhase::Claim { read_seq } => {
                if loaded == 1 {
                    self.pending = Some(read_seq);
                    (QueuePhase::Probe { ticket: read_seq }, QueueAsk::Word { of: read_seq })
                } else {
                    (QueuePhase::NextTicket, QueueAsk::ReadSeq)
                }
            },
        }
    }
}

/// Multi-consumer worker queue reader: multiple consumers compete for items.
#[derive(Debug)]
pub struct MpmcQueueConsumer<T> {
    pub head: QueueHead,
    pub marker: PhantomData<T>,
}

/// What is left of a dequeue in the middle of it.
spec fn dequeue_rest<T>(q: QueueHead, phase: QueuePhase, r: &Ring<T>) -> Dequeued {
    let read = r.header.read_seq;
    let claim = r.header.claim_seq;
    match phase {
        QueuePhase::Probe { ticket } => dequeue(q, read, r),
        QueuePhase::Confirm { ticket } => Dequeued {
            head: QueueHead { pending: None, ..q },
            read_seq: read,
            ticket: Some(ticket),
        },
        QueuePhase::Overrun { ticket } => dequeue(q, read, r),
        QueuePhase::NextTicket => dequeue(q, read, r),
        QueuePhase::Supply { read_seq } => dequeue(q, read, r),
        QueuePhase::Skip { read_seq, floor } => dequeue(
            q.skipped((floor - read_seq) as u64),
            floor,
            r,
        ),
        QueuePhase::Claim { read_seq } => dequeue(
            QueueHead { pending: Some(read_seq), ..q },
            (read_seq + 1) as u64,
            r,
        ),
    }
}

/// The phase is one that a dequeue from `r` can be in.
spec fn queue_phase_ok<T>(q: QueueHead, phase: QueuePhase, r: &Ring<T>) -> bool {
    let read = r.header.read_seq;
    let claim = r.header.claim_seq;
    match phase {
        QueuePhase::Probe { ticket } => q.pending == Some(ticket),
        QueuePhase::Confirm { ticket } => q.pending == Some(ticket) && r.word(ticket) == ticket,
        QueuePhase::Overrun { ticket } => {
            let word = r.word(ticket);
            q.pending == Some(ticket) && word != ticket && (word == SLOT_WRITING || word <= ticket)
        },
        QueuePhase::NextTicket => q.pending is None,
        QueuePhase::Supply { read_seq } => q.pending is None && read_seq == read,
        QueuePhase::Skip { read_seq, floor } => q.pending is None && read_seq == read && read
            < floor && floor == ticket_floor(claim, q.capacity) && read < claim,
        QueuePhase::Claim { read_seq } => q.pending is None && read_seq == read && read < claim
            && read >= ticket_floor(claim, q.capacity),
    }
}

spec fn queue_rank(phase: QueuePhase) -> nat {
    match phase {
        QueuePhase::Probe { .. } => 7,
        QueuePhase::Confirm { .. } => 6,
        QueuePhase::Overrun { .. } => 5,
        QueuePhase::NextTicket => 4,
        QueuePhase::Supply { .. } => 3,
        QueuePhase::Skip { .. } => 2,
        QueuePhase::Claim { .. } => 1,
    }
}

impl<T: Copy + LayoutSignature> MpmcQueueConsumer<T> {
    /// Attaches to an MPMC ring buffer as a competing queue consumer.
    pub fn attach(ring: &Ring<T>) -> (r: Result<Self, RingfireError>)
        requires
            slot_fits::<T>(),
        ensures
            r is Ok <==> attachable::<T>(ring.header, ring.len as int),
            match r {
                Ok(c) => {
                    &&& c.head == (QueueHead {
                        capacity: ring.header.capacity,
                        mask: ring.header.mask,
                        pending: None,
                        dropped: 0,
                    })
                    &&& c.head.reads(ring)
                },
                Err(e) => attach_refusal::<T>(ring.header, ring.len as int, e),
            },
    {
        let view = match open_ring::<T>(&ring.header, ring.len) {
            Ok(v) => v,
            Err(e) => return Err(e),
        };
        proof {
            lemma_mask_is_mod(0, view.capacity);
        }
        Ok(
            MpmcQueueConsumer {
                head: QueueHead {
                    capacity: view.capacity,
                    mask: view.mask,
                    pending: None,
                    dropped: 0,
                },
                marker: PhantomData,
            },
        )
    }
}

/// The numbers of a queue are in order.
pub open spec fn queue_numbers<T>(r: &Ring<T>) -> bool {
    1 <= r.header.read_seq && r.header.claim_seq <= LAST_SEQ
}

impl<T: Copy> MpmcQueueConsumer<T> {
    /// Items this consumer found overwritten before it could read them.
    pub fn dropped_count(&self) -> (r: u64)
        ensures
            r == self.head.dropped,
    {
        self.head.dropped
    }

    /// Attempts to dequeue the next item. Never blocks: returns `None` when the queue is
    /// empty or the claimed item is still being published.
    pub fn try_recv(&mut self, ring: &mut Ring<T>) -> (r: Option<T>)
        requires
            old(ring).wf(),
            old(self).head.reads(old(ring)),
            queue_numbers(old(ring)),
        ensures
            final(ring).wf(),
            final(self).head.reads(final(ring)),
            queue_numbers(final(ring)),
            final(ring).slots == old(ring).slots,
            final(ring).registry == old(ring).registry,
            final(ring).len == old(ring).len,
            ({
                let end = dequeue(old(self).head, old(ring).header.read_seq, old(ring));
                &&& final(self).head == end.head
                &&& final(ring).header == (RingHeader {
                    read_seq: end.read_seq,
                    ..old(ring).header
                })
                &&& match end.ticket {
                    Some(t) => r == Some(old(ring).message(t)) && old(ring).present(t),
                    None => r is None,
                }
            }),
    {
        let (mut phase, mut ask) = self.head.start();
        let mut copy: Option<T> = None;
        loop
            invariant
                ring.wf(),
                self.head.reads(ring),
                queue_numbers(ring),
                ring.slots == old(ring).slots,
                ring.registry == old(ring).registry,
                ring.len == old(ring).len,
                ring.header == (RingHeader {
                    read_seq: ring.header.read_seq,
                    ..old(ring).header
                }),
                queue_phase_ok(self.head, phase, ring),
                dequeue(old(self).head, old(ring).header.read_seq, old(ring)) == dequeue_rest(
                    self.head,
                    phase,
                    ring,
                ),
                match phase {
                    QueuePhase::Probe { ticket } => ask == (QueueAsk::Word { of: ticket }),
                    QueuePhase::Confirm { ticket } => ask == (QueueAsk::Copy { of: ticket }),
                    QueuePhase::Overrun { ticket } => ask == QueueAsk::ClaimSeq,
                    QueuePhase::NextTicket => ask == QueueAsk::ReadSeq,
                    QueuePhase::Supply { read_seq } => ask == QueueAsk::ClaimSeq,
                    QueuePhase::Skip { read_seq, floor } => ask == (QueueAsk::Swap {
                        from: read_seq,
                        to: floor,
                    }),
                    QueuePhase::Claim { read_seq } => ask == (QueueAsk::Swap {
                        from: read_seq,
                        to: (read_seq + 1) as u64,
                    }),
                },
            decreases u64::MAX - ring.header.read_seq, queue_rank(phase),
        {
            let ghost before = *ring;
            let loaded: u64 = match ask {
                QueueAsk::Word { of } => ring.load_word(of),
                QueueAsk::Copy { of } => {
                    let i: usize = ring.slot_index(of);
                    copy = ring.slots[i].data;
                    ring.load_word(of)
                },
                QueueAsk::ClaimSeq => ring.header.claim_seq,
                QueueAsk::Swap { from, to } => {
                    ring.header.read_seq = to;
                    1
                },
                _ => ring.header.read_seq,
            };
            proof {
                if let QueueAsk::Copy { of } = ask {
                    let i = ring.index(of);
                    assert(0 <= i < ring.slots@.len());
                    assert(slot_ok(ring.slots@[i], i, ring.header.capacity));
                }
                lemma_dequeue_same(self.head, &before, ring);
            }
            let (next_phase, next_ask) = self.head.step(phase, loaded);
            proof {
                assert forall|q: QueueHead, n: u64| #[trigger] dequeue(q, n, ring) == dequeue(
                    q,
                    n,
                    &before,
                ) by {
                    lemma_dequeue_same_at(q, n, &before, ring);
                }
            }
            match next_ask {
                QueueAsk::Item => return copy,
                QueueAsk::Empty => return None,
                _ => {},
            }
            phase = next_phase;
            ask = next_ask;
        }
    }

    /// One turn of a blocking receive: the next item, or what the strategy does before the
    /// next turn.
    pub fn recv_blocking<W: WaitStrategy>(&mut self, ring: &mut Ring<T>, wait: &mut W) -> (r:
        Result<T, WaitAction>)
        requires
            old(ring).wf(),
            old(self).head.reads(old(ring)),
            queue_numbers(old(ring)),
        ensures
            final(ring).wf(),
            final(self).head.reads(final(ring)),
            queue_numbers(final(ring)),
            final(ring).slots == old(ring).slots,
            final(ring).registry == old(ring).registry,
            final(ring).len == old(ring).len,
            ({
                let end = dequeue(old(self).head, old(ring).header.read_seq, old(ring));
                &&& final(self).head == end.head
                &&& final(ring).header == (RingHeader {
                    read_seq: end.read_seq,
                    ..old(ring).header
                })
                &&& match end.ticket {
                    Some(t) => {
                        &&& r == Ok::<T, WaitAction>(old(ring).message(t))
                        &&& *final(wait) == old(wait).rested()
                    },
                    None => {
                        &&& r is Err
                        &&& (*final(wait), r->Err_0) == old(wait).decision(
                            final(ring).header,
                            match end.head.pending {
                                Some(t) => t,
                                None => end.read_seq,
                            },
                        )
                    },
                }
            }),
    {
        if let Some(item) = self.try_recv(ring) {
            wait.reset();
            return Ok(item);
        }
        let target: u64 = match self.head.pending {
            Some(t) => t,
            None => ring.header.read_seq,
        };
        Err(wait.wait(&ring.header, target))
    }
}

/// What is dequeued depends on the slots and the producers' counter only.
proof fn lemma_dequeue_same_at<T>(q: QueueHead, n: u64, a: &Ring<T>, b: &Ring<T>)
    requires
        b.slots == a.slots,
        b.header.claim_seq == a.header.claim_seq,
        b.header.capacity == a.header.capacity,
    ensures
        dequeue(q, n, b) == dequeue(q, n, a),
    decreases
        u64::MAX - n,
        if q.pending is Some {
            1int
        } else {
            0int
        },
{
    match q.pending {
        Some(t) => {
            if ticket_fate(a, t) is Lost {
                lemma_dequeue_same_at(q.lost(), n, a, b);
            }
        },
        None => {
            let claim = a.header.claim_seq;
            let floor = ticket_floor(claim, q.capacity);
            if n >= claim {
            } else if n < floor {
                lemma_dequeue_same_at(q.skipped((floor - n) as u64), floor, a, b);
            } else {
                lemma_dequeue_same_at(
                    QueueHead { pending: Some(n), ..q },
                    (n + 1) as u64,
                    a,
                    b,
                );
            }
        },
    }
}

proof fn lemma_dequeue_same<T>(q: QueueHead, a: &Ring<T>, b: &Ring<T>)
    requires
        b.slots == a.slots,
        b.header.claim_seq == a.header.claim_seq,
        b.header.capacity == a.header.capacity,
    ensures
        dequeue(q, a.header.read_seq, b) == dequeue(q, a.header.read_seq, a),
{
    lemma_dequeue_same_at(q, a.header.read_seq, a, b);
}

/// Each item goes to at most one consumer. A dequeue never moves the queue back, and the
/// ticket that it takes is either the one that this consumer held already or one that the
/// queue had not handed out yet and has handed out now; the same holds of a ticket that it
/// keeps waiting for.
pub proof fn lemma_ticket_taken_once<T>(q: QueueHead, read_seq: u64, r: &Ring<T>)
    ensures
        ({
            let end = dequeue(q, read_seq, r);
            &&& end.read_seq >= read_seq
            &&& end.ticket matches Some(t) ==> end.head.pending is None && (q.pending == Some(t)
                || read_seq <= t < end.read_seq)
            &&& end.head.pending matches Some(t) ==> end.ticket is None && (q.pending == Some(t)
                || read_seq <= t < end.read_seq)
        }),
    decreases
        u64::MAX - read_seq,
        if q.pending is Some {
            1int
        } else {
            0int
        },
{
    match q.pending {
        Some(t) => {
            if ticket_fate(r, t) is Lost {
                lemma_ticket_taken_once(q.lost(), read_seq, r);
            }
        },
        None => {
            let claim = r.header.claim_seq;
            let floor = ticket_floor(claim, q.capacity);
            if read_seq >= claim {
            } else if read_seq < floor {
                lemma_ticket_taken_once(q.skipped((floor - read_seq) as u64), floor, r);
            } else {
                lemma_ticket_taken_once(
                    QueueHead { pending: Some(read_seq), ..q },
                    (read_seq + 1) as u64,
                    r,
                );
            }
        },
    }
}

/// Among all consumers of a queue, no ticket is handed out twice: successful swaps of the
/// queue's counter happen one after the other, each from the value that the one before it
/// left, and each raises the counter, so no two of them start from the same ticket.
pub proof fn lemma_swaps_hand_out_distinct_tickets(swaps: Seq<(u64, u64)>, i: int, j: int)
    requires
        forall|k: int| 0 <= k < swaps.len() ==> (#[trigger] swaps[k]).0 < swaps[k].1,
        forall|k: int|
            0 <= k && k + 1 < swaps.len() ==> (#[trigger] swaps[k]).1 == swaps[k + 1].0,
        0 <= i < j < swaps.len(),
    ensures
        swaps[i].0 < swaps[j].0,
    decreases j - i,
{
    assert(swaps[i].1 == swaps[i + 1].0);
    if i + 1 < j {
        lemma_swaps_hand_out_distinct_tickets(swaps, i + 1, j);
    }
}

/// The swaps that a consumer asks for raise the queue's counter.
pub proof fn lemma_queue_swaps_rise(q: QueueHead, phase: QueuePhase, loaded: u64)
    requires
        q.wf(),
    ensures
        q.after(phase, loaded).2 matches QueueAsk::Swap { from, to } ==> from < to,
{
}

/// The slot of `ticket` holds a later message.
pub open spec fn overwritten<T>(r: &Ring<T>, ticket: int) -> bool {
    let word = r.slots@[ticket % r.header.capacity as int].seq;
    ticket < word < SLOT_WRITING
}

/// The message of `ticket` stands in its slot.
pub open spec fn stands<T>(r: &Ring<T>, ticket: int) -> bool {
    r.slots@[ticket % r.header.capacity as int].seq == ticket
}

/// No item is lost while it is being published: a worker lets go of a ticket that it holds only
/// if its item is returned, or its slot holds a later message, or the producers' counter is more
/// than a full ring past it. Its item, if it stands in its slot, is returned first of all. A
/// ticket that is neither there nor gone stays with the worker; nothing is counted as dropped,
/// and the queue does not move.
#[verifier::rlimit(50)]
pub proof fn lemma_held_ticket_kept<T>(q: QueueHead, read_seq: u64, r: &Ring<T>, t: u64)
    requires
        q.pending == Some(t),
        q.capacity == r.header.capacity,
    ensures
        ({
            let end = dequeue(q, read_seq, r);
            &&& stands(r, t as int) ==> end.ticket == Some(t) && end.head == (QueueHead {
                pending: None,
                ..q
            }) && end.read_seq == read_seq
            &&& !stands(r, t as int) && !overwritten(r, t as int) && r.header.claim_seq <= t
                + r.header.capacity ==> end.ticket is None && end.head == q && end.read_seq
                == read_seq
            &&& end.ticket != Some(t) && end.head.pending != Some(t) ==> !stands(r, t as int) && (
            overwritten(r, t as int) || r.header.claim_seq > t + r.header.capacity)
            &&& !stands(r, t as int) && (overwritten(r, t as int) || r.header.claim_seq > t
                + r.header.capacity) ==> end == dequeue(
                QueueHead { pending: None, dropped: q.dropped.wrapping_add(1), ..q },
                read_seq,
                r,
            )
        }),
{
    if !stands(r, t as int) && !overwritten(r, t as int) && r.header.claim_seq <= t
        + r.header.capacity {
        assert(dequeue(q, read_seq, r).head == q);
    }
}

/// A worker without a ticket gets the first message that the queue has left: the tickets before
/// it, and only those, are gone (overwritten, or more than a full ring behind the producers'
/// counter), and exactly those are counted as dropped. If that message is still being published,
/// the worker holds its ticket. If there is none, every ticket that was ever claimed is handed
/// out.
#[verifier::rlimit(50)]
pub proof fn lemma_first_ticket_left<T>(q: QueueHead, read_seq: u64, r: &Ring<T>)
    requires
        q.pending is None,
        q.capacity == r.header.capacity,
        q.capacity >= 1,
    ensures
        ({
            let end = dequeue(q, read_seq, r);
            let cap = r.header.capacity;
            let claim = r.header.claim_seq;
            let got = match end.ticket {
                Some(t) => Some(t),
                None => end.head.pending,
            };
            let passed = match got {
                Some(t) => t - read_seq,
                None => end.read_seq - read_seq,
            };
            &&& end.head.capacity == q.capacity
            &&& end.head.mask == q.mask
            &&& passed >= 0
            &&& end.head.dropped == (q.dropped + passed) % 0x1_0000_0000_0000_0000
            &&& forall|m: int|
                read_seq <= m < read_seq + passed ==> #[trigger] overwritten(r, m) || claim > m
                    + cap
            &&& match got {
                Some(t) => {
                    &&& read_seq <= t < claim
                    &&& claim <= t + cap
                    &&& !overwritten(r, t as int)
                    &&& end.read_seq == t + 1
                    &&& end.ticket is Some <==> stands(r, t as int)
                    &&& end.ticket is Some ==> end.head.pending is None
                },
                None => end.read_seq == (if read_seq >= claim {
                    read_seq
                } else {
                    claim
                }),
            }
        }),
    decreases u64::MAX - read_seq,
{
    let claim = r.header.claim_seq;
    let cap = r.header.capacity;
    let floor = ticket_floor(claim, q.capacity);
    let end = dequeue(q, read_seq, r);
    if read_seq >= claim {
    } else if read_seq < floor {
        let next = q.skipped((floor - read_seq) as u64);
        lemma_first_ticket_left(next, floor, r);
        assert forall|m: int| read_seq <= m < floor implies #[trigger] overwritten(r, m) || claim
            > m + cap by {}
    } else {
        let held = QueueHead { pending: Some(read_seq), ..q };
        let n = (read_seq + 1) as u64;
        lemma_held_ticket_kept(held, n, r, read_seq);
        assert(end == dequeue(held, n, r));
        if !stands(r, read_seq as int) && overwritten(r, read_seq as int) {
            let next = QueueHead {
                pending: None,
                dropped: q.dropped.wrapping_add(1),
                ..held
            };
            lemma_first_ticket_left(next, n, r);
            assert(end == dequeue(next, n, r));
            assert forall|m: int|
                read_seq <= m < n implies #[trigger] overwritten(r, m) || claim > m + cap by {}
        }
    }
}

/// A worker that left with a ticket gets its message as soon as it is there: whatever happened
/// in between, if message `t` stands in its slot at a later call, that call returns message `t`,
/// the count of dropped messages is as it was, and the queue has not moved.
#[verifier::rlimit(50)]
pub proof fn lemma_held_ticket_is_delivered<T>(
    q: QueueHead,
    read_seq: u64,
    r: &Ring<T>,
    later_seq: u64,
    later: &Ring<T>,
)
    requires
        q.capacity == r.header.capacity,
        later.header.capacity == r.header.capacity,
        dequeue(q, read_seq, r).head.pending is Some,
        stands(later, dequeue(q, read_seq, r).head.pending->0 as int),
    ensures
        ({
            let end = dequeue(q, read_seq, r);
            let next = dequeue(end.head, later_seq, later);
            &&& end.ticket is None
            &&& next.ticket == end.head.pending
            &&& next.head.pending is None
            &&& next.head.dropped == end.head.dropped
            &&& next.read_seq == later_seq
        }),
{
    lemma_ticket_taken_once(q, read_seq, r);
    lemma_dequeue_keeps_capacity(q, read_seq, r);
    let end = dequeue(q, read_seq, r);
    lemma_held_ticket_kept(end.head, later_seq, later, end.head.pending->0);
}

proof fn lemma_dequeue_keeps_capacity<T>(q: QueueHead, read_seq: u64, r: &Ring<T>)
    ensures
        dequeue(q, read_seq, r).head.capacity == q.capacity,
        dequeue(q, read_seq, r).head.mask == q.mask,
    decreases
        u64::MAX - read_seq,
        if q.pending is Some {
            1int
        } else {
            0int
        },
{
    match q.pending {
        Some(t) => {
            if ticket_fate(r, t) is Lost {
                lemma_dequeue_keeps_capacity(q.lost(), read_seq, r);
            }
        },
        None => {
            let claim = r.header.claim_seq;
            let floor = ticket_floor(claim, q.capacity);
            if read_seq >= claim {
            } else if read_seq < floor {
                lemma_dequeue_keeps_capacity(q.skipped((floor - read_seq) as u64), floor, r);
            } else {
                lemma_dequeue_keeps_capacity(
                    QueueHead { pending: Some(read_seq), ..q },
                    (read_seq + 1) as u64,
                    r,
                );
            }
        },
    }
}

/// Whatever a step of a dequeue loads, it lets go of the worker's ticket only with its item, or
/// because the loaded word says that the message is gone: a later number in its slot, a changed
/// word behind the copy, or a producers' counter more than a full ring past it. It counts a drop
/// exactly then, and for the tickets that a swap of its own has skipped. It takes a ticket only
/// by a swap that succeeded. It gives an item only if the slot's word read the ticket before and
/// after the copy, and it ends empty only while its ticket is not gone or none is left.
#[verifier::rlimit(50)]
pub proof fn lemma_queue_step_laws(q: QueueHead, phase: QueuePhase, loaded: u64)
    requires
        q.wf(),
        match phase {
            QueuePhase::Probe { ticket } => q.pending == Some(ticket),
            QueuePhase::Confirm { ticket } => q.pending == Some(ticket),
            QueuePhase::Overrun { ticket } => q.pending == Some(ticket),
            QueuePhase::Skip { read_seq, floor } => q.pending is None && read_seq <= floor,
            _ => q.pending is None,
        },
    ensures
        ({
            let (n, next, ask) = q.after(phase, loaded);
            let gone = match phase {
                QueuePhase::Probe { ticket } => ticket < loaded < SLOT_WRITING,
                QueuePhase::Confirm { ticket } => loaded != ticket,
                QueuePhase::Overrun { ticket } => loaded > ticket + q.capacity,
                _ => false,
            };
            &&& n.capacity == q.capacity && n.mask == q.mask
            &&& q.pending is Some && n.pending != q.pending <==> gone || ask is Item
            &&& ask is Item <==> (phase matches QueuePhase::Confirm { ticket } && loaded
                == ticket)
            &&& next is Confirm ==> (phase matches QueuePhase::Probe { ticket } && loaded
                == ticket && next == (QueuePhase::Confirm { ticket }) && ask == (
            QueueAsk::Copy { of: ticket }))
            &&& n.dropped == (match phase {
                QueuePhase::Skip { read_seq, floor } => if loaded == 1 {
                    (q.dropped + (floor - read_seq)) % 0x1_0000_0000_0000_0000
                } else {
                    q.dropped as int
                },
                _ => if gone {
                    (q.dropped + 1) % 0x1_0000_0000_0000_0000
                } else {
                    q.dropped as int
                },
            })
            &&& gone ==> n.pending is None
            &&& n.pending is Some && q.pending is None ==> (phase matches QueuePhase::Claim {
                read_seq,
            } && loaded == 1 && n.pending == Some(read_seq) && next == (QueuePhase::Probe {
                ticket: read_seq,
            }))
            &&& phase matches QueuePhase::Claim { read_seq } ==> loaded == 1 ==> n.pending
                == Some(read_seq)
            &&& ask is Empty <==> match phase {
                QueuePhase::Overrun { ticket } => loaded <= ticket + q.capacity,
                QueuePhase::Supply { read_seq } => read_seq >= loaded,
                _ => false,
            }
            &&& ask matches QueueAsk::Swap { from, to } ==> (phase matches QueuePhase::Supply {
                read_seq,
            } && from == read_seq && from < loaded && to <= loaded && if loaded > from
                + q.capacity {
                to + q.capacity == loaded
            } else {
                to == from + 1
            })
        }),
{
}

/// A producer on its way into its slot gives its message up only if a later lap owns the slot, or
/// the slot is still being written to when its patience ends; it takes the slot as soon as the
/// previous lap is published, and an older lap only once its patience has ended. Its patience
/// lasts 10 ms from its first look at the clock, and it looks at the clock once in 64 vain looks
/// at the slot, after the first 4096.
pub proof fn lemma_claim_patience(c: SlotClaim, e: ClaimEvent)
    requires
        c.prev_lap <= c.seq < SLOT_WRITING,
    ensures
        ({
            let (n, a) = c.after(e);
            &&& a is Drop <==> match e {
                ClaimEvent::Word(word) => c.seq < word < SLOT_WRITING,
                ClaimEvent::Swapped { .. } => false,
                ClaimEvent::Clock { word, now_ns } => word == SLOT_WRITING && now_ns
                    >= n.deadline_ns->0,
            }
            &&& a is Swap <==> (e matches ClaimEvent::Word(word) && (word == c.prev_lap || (
            c.stalled && word <= c.seq)))
            &&& a is Write <==> (e matches ClaimEvent::Swapped { won, .. } && won)
            &&& n.stalled != c.stalled ==> (e matches ClaimEvent::Clock { word, now_ns } && word
                != SLOT_WRITING && now_ns >= n.deadline_ns->0 && n.stalled)
            &&& e matches ClaimEvent::Clock { word, now_ns } ==> {
                &&& n.deadline_ns is Some
                &&& c.deadline_ns is Some ==> n.deadline_ns == c.deadline_ns
                &&& c.deadline_ns is None ==> n.deadline_ns->0 == (if now_ns + 10_000_000
                    <= u64::MAX {
                    now_ns + 10_000_000
                } else {
                    u64::MAX as int
                })
                &&& now_ns >= n.deadline_ns->0 && word != SLOT_WRITING ==> n.stalled
            }
            &&& !(e is Clock) ==> n.deadline_ns == c.deadline_ns && n.stalled == c.stalled
            &&& a is ReadClock ==> n.spins >= 4096 && n.spins % 64 == 0
            &&& a is Spin ==> n.spins < 4096 || n.spins % 64 != 0
            &&& a is Spin || a is ReadClock ==> n.spins == (c.spins + 1) % 0x1_0000_0000
        }),
{
}

/// Several producers may publish out of order: the newest number never falls, it is one that was
/// published, and sleeping consumers find a new futex word. Nothing else in the header changes.
pub proof fn lemma_raised_header_rises(h: RingHeader, seq: u64)
    ensures
        ({
            let p = raised_header(h, seq);
            &&& p.write_seq >= h.write_seq
            &&& p.write_seq >= seq
            &&& p.write_seq == h.write_seq || p.write_seq == seq
            &&& p == (RingHeader { write_seq: p.write_seq, futex_word: p.futex_word, ..h })
            &&& h.waiting_consumers > 0 ==> p.futex_word == (h.futex_word + 1) % 0x1_0000_0000
        }),
{
}

/// A new ring for several producers: message numbers and tickets start at 1, nothing is
/// published, nobody sleeps, and the ring is marked as one of several producers.
pub proof fn lemma_new_queue_is_empty<T: LayoutSignature>(capacity: u64)
    ensures
        ({
            let h = fresh_header(mpmc_layout::<T>(capacity));
            &&& h.capacity == capacity
            &&& h.claim_seq == 1
            &&& h.read_seq == 1
            &&& h.write_seq == 0
            &&& h.waiting_consumers == 0
            &&& h.flags & FLAG_MODE_MPMC != 0
            &&& h.schema_sig == signature::<T>()
            &&& h.reader_registry_count == 0
            &&& h.arena_size == 0
        }),
{
    assert((1u32 | 0x20u32) & 0x20u32 != 0) by (bit_vector);
}

/// Where the parts of a new queue lie: the slots behind the header at the next aligned offset,
/// and the region ends with them.
pub proof fn lemma_queue_layout<T: LayoutSignature>(capacity: u64)
    requires
        slot_bytes::<T>() <= u32::MAX,
        mpmc_size::<T>(capacity) <= usize::MAX,
    ensures
        ({
            let h = fresh_header(mpmc_layout::<T>(capacity));
            let align = slot_align::<T>() as int;
            &&& h.slots_offset as int % align == 0
            &&& 0 <= h.slots_offset - 128 < align
            &&& h.element_size == slot_bytes::<T>()
            &&& mpmc_size::<T>(capacity) == h.slots_offset + capacity * h.element_size
            &&& h.reader_registry_offset == 0
            &&& h.arena_offset == 0
        }),
{
    let slot = slot_bytes::<T>();
    lemma_slot_size::<T>();
    lemma_round_up(RING_HEADER_SIZE as int, slot_align::<T>() as int);
    assert(0 <= capacity * slot) by (nonlinear_arith)
        requires
            slot >= 0,
    ;
}

} // verus!
