//! # Rings and tables of raw records
//!
//! The untyped interface behind the C bindings: records are byte strings of a size that is
//! fixed when the ring or table is created, and outcomes are the integer codes that C
//! callers see.
use crate::blackboard::{
    begin_write, lock_of, Blackboard, BoardAsk, BoardEvent, BoardRead,
};
use crate::consumer::{drained, lemma_batch_from_log};
use crate::head::{receive, ReadHead};
use crate::header::{
    capacity_ok, fresh_header, slots_inside, slots_placed, valid_header, validate_header,
    BlackboardHeader, BlackboardSlot, RingHeader, RingLayout, Slot, BLACKBOARD_HEADER_SIZE,
    BLACKBOARD_MAGIC, BLACKBOARD_VERSION, FLAG_MODE_SPMC, FLAG_POLICY_LATEST_WINS, RINGFIRE_MAGIC,
    RING_HEADER_SIZE,
};
use crate::math::{is_pow2, lemma_mask_is_mod, lemma_round_up, round_up, round_up_size};
use crate::replication::{payload_of, read_record, records_sized, RawRead};
use crate::ring::{oldest_of, oldest_retained, slot_ok, Ring, LAST_SEQ};
use crate::spmc::{empty_slots, published_header, wake_for};
use crate::wait::wake_futex;
use vstd::prelude::*;
use vstd::slice::slice_to_vec;

verus! {

/// Bytes of a slot for records of `element_size` bytes.
pub open spec fn raw_slot_bytes(element_size: int) -> int {
    round_up(8 + element_size, 8)
}

/// Slot stride for an `element_size`-byte payload: 8-byte sequence + payload, 8-aligned.
pub fn raw_slot_size(element_size: u32) -> (n: usize)
    requires
        raw_slot_bytes(element_size as int) <= usize::MAX,
    ensures
        n == raw_slot_bytes(element_size as int),
        n >= 8,
        n % 8 == 0,
{
    proof {
        lemma_round_up(8 + element_size, 8);
    }
    round_up_size(8 + element_size as usize, 8)
}

/// Raw slots have the layout of the slots of a type of that size whose alignment is a power
/// of two up to 8.
pub proof fn lemma_raw_slots_match(size: nat, align: nat)
    requires
        align == 1 || align == 2 || align == 4 || align == 8,
        size % align == 0,
    ensures
        crate::ring::slot_bytes_for(size, align) == raw_slot_bytes(size as int),
{
    assert(8int % 1 == 0 && 8int % 2 == 0 && 8int % 4 == 0 && 8int % 8 == 0);
    assert(round_up(8, align as int) == 8);
}

/// Where the parts of a raw ring go.
pub open spec fn raw_layout(capacity: u64, element_size: u32) -> RingLayout {
    RingLayout {
        capacity,
        slot_size: raw_slot_bytes(element_size as int) as usize,
        flags: FLAG_POLICY_LATEST_WINS | FLAG_MODE_SPMC,
        schema_sig: 0,
        claim_seq: 0,
        read_seq: 0,
        registry_offset: 0,
        registry_count: 0,
        slots_offset: RING_HEADER_SIZE,
        arena_offset: 0,
        arena_size: 0,
    }
}

/// Bytes of a raw ring.
pub open spec fn raw_ring_bytes(capacity: u64, element_size: u32) -> int {
    RING_HEADER_SIZE + capacity * raw_slot_bytes(element_size as int)
}

/// Writer of a raw ring.
#[derive(Debug, Clone, Copy)]
pub struct RingProducerRaw {
    pub slot_size: usize,
    pub element_size: usize,
    pub mask: u64,
    /// Number of the next message
    pub seq: u64,
}

impl RingProducerRaw {
    /// The producer writes to `ring`.
    pub open spec fn writes(&self, ring: &Ring<Vec<u8>>) -> bool {
        &&& self.mask == ring.header.mask
        &&& 1 <= self.seq
        &&& records_sized(ring, self.element_size as int)
    }

    /// Creates a ring for `element_size`-byte records. `None` on invalid arguments.
    pub fn create(capacity: u64, element_size: u32) -> (r: Option<(Self, Ring<Vec<u8>>)>)
        requires
            is_pow2(capacity as nat) && element_size != 0 ==> raw_ring_bytes(
                capacity,
                element_size,
            ) <= usize::MAX,
        ensures
            r is Some <==> is_pow2(capacity as nat) && element_size != 0,
            r matches Some((p, ring)) ==> {
                &&& ring.wf()
                &&& ring.header == (RingHeader {
                    magic: RINGFIRE_MAGIC,
                    ..fresh_header(raw_layout(capacity, element_size))
                })
                &&& ring.len == raw_ring_bytes(capacity, element_size)
                &&& ring.registry is None
                &&& forall|i: int|
                    0 <= i < ring.slots@.len() ==> #[trigger] ring.slots@[i] == (Slot {
                        seq: 0,
                        data: None::<Vec<u8>>,
                    })
                &&& p.writes(&ring)
                &&& p.seq == 1
                &&& p.element_size == element_size
                &&& p.slot_size == raw_slot_bytes(element_size as int)
                &&& raw_slot_bytes(element_size as int) <= u32::MAX ==> valid_header(
                    ring.header,
                    ring.len as int,
                    Some(p.slot_size),
                    8,
                )
            },
    {
        if !capacity.is_power_of_two() || element_size == 0 {
            return None;
        }
        proof {
            lemma_mask_is_mod(0, capacity);
            lemma_round_up(8 + element_size, 8);
            let slot = raw_slot_bytes(element_size as int);
            assert(capacity * slot >= capacity && capacity * slot >= slot) by (nonlinear_arith)
                requires
                    slot >= 8,
                    capacity >= 1,
            ;
        }
        let slot_size: usize = raw_slot_size(element_size);
        let slots_offset: usize = RING_HEADER_SIZE;
        let total: usize = slots_offset + capacity as usize * slot_size;
        let layout = RingLayout {
            capacity,
            slot_size,
            flags: FLAG_POLICY_LATEST_WINS | FLAG_MODE_SPMC,
            schema_sig: 0,
            claim_seq: 0,
            read_seq: 0,
            registry_offset: 0,
            registry_count: 0,
            slots_offset,
            arena_offset: 0,
            arena_size: 0,
        };
        let mut header = RingHeader::initialize(&layout);
        let slots = empty_slots::<Vec<u8>>(capacity as usize);
        header.publish();
        let producer = RingProducerRaw {
            slot_size,
            element_size: element_size as usize,
            mask: capacity - 1,
            seq: 1,
        };
        let ring = Ring { header, len: total, registry: None, slots };
        assert(slot_size <= u32::MAX ==> slots_inside(ring.header, ring.len as int)
            && slots_placed(ring.header, 8) && capacity_ok(ring.header));
        Some((producer, ring))
    }

    /// Publishes a record. Returns how many consumers the kernel is to wake.
    pub fn push(&mut self, ring: &mut Ring<Vec<u8>>, data: &[u8]) -> (wake: Option<i32>)
        requires
            old(ring).wf(),
            old(self).writes(old(ring)),
            old(self).seq <= LAST_SEQ,
            data@.len() == old(self).element_size,
        ensures
            final(ring).wf(),
            final(self).writes(final(ring)),
            *final(self) == (RingProducerRaw { seq: (old(self).seq + 1) as u64, ..*old(self) }),
            final(ring).present(old(self).seq),
            payload_of(final(ring), old(self).seq) == data@,
            forall|i: int|
                0 <= i < final(ring).slots@.len() && i != old(ring).index(old(self).seq)
                    ==> #[trigger] final(ring).slots@[i] == old(ring).slots@[i],
            final(ring).header == published_header(old(ring).header, old(self).seq),
            final(ring).len == old(ring).len,
            final(ring).registry == old(ring).registry,
            wake == wake_for(old(ring).header),
    {
        let seq: u64 = self.seq;
        let i: usize = ring.slot_index(seq);
        ring.slots.set(i, Slot { seq, data: Some(slice_to_vec(data)) });
        proof {
            assert forall|j: int| 0 <= j < ring.slots@.len() implies slot_ok(
                #[trigger] ring.slots@[j],
                j,
                ring.header.capacity,
            ) by {
                assert(slot_ok(old(ring).slots@[j], j, old(ring).header.capacity));
            }
            assert forall|j: int|
                0 <= j < ring.slots@.len() && (
                #[trigger] ring.slots@[j]).data is Some implies ring.slots@[j].data->0@.len()
                == self.element_size by {
                assert(old(ring).slots@[j].data is Some ==> old(ring).slots@[j].data->0@.len()
                    == self.element_size);
            }
        }
        ring.header.write_seq = seq;
        let wake = wake_futex(&mut ring.header, i32::MAX);
        self.seq = seq + 1;
        wake
    }
}

/// Reader of a raw ring.
#[derive(Debug, Clone, Copy)]
pub struct RingConsumerRaw {
    pub slot_size: usize,
    pub element_size: usize,
    pub head: ReadHead,
}

/// The records that a reader at `h` gets one after the other, at most `max` of them, and
/// where it stands then.
pub open spec fn raw_drained(h: ReadHead, ring: &Ring<Vec<u8>>, max: nat) -> (ReadHead, Seq<
    Seq<u8>,
>)
    decreases max,
{
    if max == 0 {
        (h, Seq::empty())
    } else {
        let end = receive(h, ring);
        if end.item {
            let rest = raw_drained(end.head.accepted(), ring, (max - 1) as nat);
            (rest.0, seq![payload_of(ring, end.head.cursor)] + rest.1)
        } else {
            (end.head, Seq::empty())
        }
    }
}

impl RingConsumerRaw {
    /// The reader belongs to a ring.
    pub open spec fn attached(&self, ring: &Ring<Vec<u8>>) -> bool {
        &&& self.head.reads(ring)
        &&& !self.head.multi_producer
        &&& !self.head.sparse
    }

    /// Attaches to a ring of `element_size`-byte records, starting at the oldest retained
    /// message. `None` if it is not a valid ring, or has another record size.
    pub fn attach(ring: &Ring<Vec<u8>>, element_size: u32) -> (r: Option<Self>)
        requires
            raw_slot_bytes(element_size as int) <= usize::MAX,
        ensures
            r is Some <==> element_size != 0 && valid_header(
                ring.header,
                ring.len as int,
                Some(raw_slot_bytes(element_size as int) as usize),
                8,
            ),
            r matches Some(c) ==> {
                &&& ring.wf() ==> c.attached(ring)
                &&& c.head.capacity == ring.header.capacity
                &&& c.head.mask == ring.header.mask
                &&& !c.head.multi_producer && !c.head.sparse
                &&& c.element_size == element_size
                &&& c.slot_size == raw_slot_bytes(element_size as int)
                &&& c.head.cursor == oldest_of(ring.header.write_seq, ring.header.capacity)
                &&& c.head.lapped_total == 0
                &&& c.head.empty_polls == 0
            },
    {
        if element_size == 0 {
            return None;
        }
        let slot_size: usize = raw_slot_size(element_size);
        let view = match validate_header(&ring.header, ring.len, Some(slot_size), 8) {
            Ok(v) => v,
            Err(_) => return None,
        };
        Some(
            RingConsumerRaw {
                slot_size,
                element_size: element_size as usize,
                head: ReadHead {
                    capacity: view.capacity,
                    mask: view.mask,
                    cursor: oldest_retained(ring.header.write_seq, view.capacity),
                    lapped_total: 0,
                    multi_producer: false,
                    sparse: false,
                    empty_polls: 0,
                },
            },
        )
    }

    /// The next message of a ring that nobody is writing to. `None` when caught up.
    fn next(&mut self, ring: &Ring<Vec<u8>>) -> (r: Option<Vec<u8>>)
        requires
            ring.wf(),
            old(self).attached(ring),
        ensures
            final(self).attached(ring),
            final(self).element_size == old(self).element_size,
            final(self).slot_size == old(self).slot_size,
            ({
                let end = receive(old(self).head, ring);
                match r {
                    Some(p) => end.item && p@ == payload_of(ring, end.head.cursor)
                        && final(self).head == end.head.accepted(),
                    None => !end.item && final(self).head == end.head,
                }
            }),
    {
        loop
            invariant
                ring.wf(),
                self.attached(ring),
                self.element_size == old(self).element_size,
                self.slot_size == old(self).slot_size,
                receive(old(self).head, ring) == receive(self.head, ring),
            decreases u64::MAX - self.head.cursor,
        {
            let want: u64 = self.head.cursor;
            proof {
                let i = ring.index(want);
                assert(0 <= i < ring.slots@.len());
                assert(slot_ok(ring.slots@[i], i, ring.header.capacity));
            }
            match read_record(ring, want) {
                RawRead::Item(p) => {
                    self.head.accept();
                    return Some(p);
                },
                RawRead::Pending => {
                    return None;
                },
                RawRead::Overwritten(seen) => {
                    let skipped: u64 = self.head.skip_overwritten(ring.header.write_seq, seen);
                    if skipped == 0 {
                        return None;
                    }
                },
            }
        }
    }

    /// Replaces `out` by the next message. Returns 1 if there was one, 0 if the ring is
    /// caught up. Messages lost to lapping are skipped (see
    /// [`RingConsumerRaw::lapped_count`]).
    pub fn try_recv(&mut self, ring: &Ring<Vec<u8>>, out: &mut Vec<u8>) -> (code: i32)
        requires
            ring.wf(),
            old(self).attached(ring),
        ensures
            final(self).attached(ring),
            final(self).element_size == old(self).element_size,
            final(self).slot_size == old(self).slot_size,
            ({
                let end = receive(old(self).head, ring);
                if end.item {
                    &&& code == 1
                    &&& final(out)@ == payload_of(ring, end.head.cursor)
                    &&& final(self).head == end.head.accepted()
                } else {
                    &&& code == 0
                    &&& *final(out) == *old(out)
                    &&& final(self).head == end.head
                }
            }),
    {
        match self.next(ring) {
            Some(p) => {
                *out = p;
                1
            },
            None => 0,
        }
    }

    /// The next messages, at most `max_count` of them, one after the other.
    pub fn recv_batch(&mut self, ring: &Ring<Vec<u8>>, max_count: usize) -> (out: Vec<Vec<u8>>)
        requires
            ring.wf(),
            old(self).attached(ring),
        ensures
            final(self).attached(ring),
            final(self).element_size == old(self).element_size,
            final(self).slot_size == old(self).slot_size,
            (final(self).head, out@.map_values(|p: Vec<u8>| p@)) == raw_drained(
                old(self).head,
                ring,
                max_count as nat,
            ),
    {
        let mut out: Vec<Vec<u8>> = Vec::new();
        let ghost whole = raw_drained(self.head, ring, max_count as nat);
        let ghost views = |p: Vec<u8>| p@;
        assert(out@.map_values(views) + whole.1 =~= whole.1);
        while out.len() < max_count
            invariant_except_break
                whole == (
                    raw_drained(self.head, ring, (max_count - out@.len()) as nat).0,
                    out@.map_values(views) + raw_drained(
                        self.head,
                        ring,
                        (max_count - out@.len()) as nat,
                    ).1,
                ),
            invariant
                ring.wf(),
                self.attached(ring),
                self.element_size == old(self).element_size,
                self.slot_size == old(self).slot_size,
                out@.len() <= max_count,
                views == (|p: Vec<u8>| p@),
            ensures
                whole == (self.head, out@.map_values(views)),
            decreases max_count - out@.len(),
        {
            let ghost before = self.head;
            let ghost had = out@;
            match self.next(ring) {
                Some(p) => {
                    out.push(p);
                    proof {
                        let left = (max_count - had.len()) as nat;
                        let rest = raw_drained(self.head, ring, (left - 1) as nat);
                        assert(raw_drained(before, ring, left) == (rest.0, seq![p@] + rest.1));
                        assert(out@.map_values(views) =~= had.map_values(views) + seq![p@]);
                        assert(had.map_values(views) + (seq![p@] + rest.1) =~= out@.map_values(
                            views,
                        ) + rest.1);
                    }
                },
                None => {
                    proof {
                        let left = (max_count - had.len()) as nat;
                        assert(raw_drained(before, ring, left).1 =~= Seq::<Seq<u8>>::empty());
                        assert(out@.map_values(views) + Seq::<Seq<u8>>::empty()
                            =~= out@.map_values(views));
                    }
                    break;
                },
            }
        }
        out
    }

    /// Total number of messages this consumer skipped because the producer lapped it.
    pub fn lapped_count(&self) -> (n: u64)
        ensures
            n == self.head.lapped_total,
    {
        self.head.lapped_total
    }
}

/// Bytes of a slot for values of `value_size` bytes.
pub open spec fn raw_board_slot(value_size: int) -> int {
    round_up(8 + value_size, 64)
}

/// The arguments that a raw table can be created with.
pub open spec fn raw_board_args(slot_count: usize, value_size: usize) -> bool {
    0 < slot_count <= u32::MAX && 0 < value_size <= u32::MAX
}

/// `h` is the header of a table of values of `value_size` bytes, in slots of any size that
/// holds them, that is mapped as `len` bytes.
pub open spec fn raw_board_ok(h: BlackboardHeader, len: int, value_size: int) -> bool {
    &&& value_size != 0
    &&& len >= BLACKBOARD_HEADER_SIZE
    &&& h.magic == BLACKBOARD_MAGIC
    &&& h.version == BLACKBOARD_VERSION
    &&& h.value_size == value_size
    &&& h.slot_size >= 8 + value_size
    &&& h.slot_count * h.slot_size + BLACKBOARD_HEADER_SIZE <= len
}

/// Writer or reader of a raw table.
#[derive(Debug, Clone, Copy)]
pub struct BlackboardRaw {
    pub slot_size: usize,
    pub value_size: usize,
    pub slot_count: usize,
    /// Whether closing removes the table's file
    pub is_producer: bool,
}

impl BlackboardRaw {
    /// Creates a table of `slot_count` keys. `None` on invalid arguments.
    pub fn create(slot_count: usize, value_size: usize) -> (r: Option<(Self, Blackboard<Vec<u8>>)>)
        requires
            raw_board_args(slot_count, value_size) ==> BLACKBOARD_HEADER_SIZE + slot_count
                * raw_board_slot(value_size as int) <= usize::MAX,
        ensures
            r is Some <==> raw_board_args(slot_count, value_size),
            r matches Some((raw, b)) ==> {
                &&& b.wf()
                &&& b.header == (BlackboardHeader {
                    magic: BLACKBOARD_MAGIC,
                    version: BLACKBOARD_VERSION,
                    value_size: value_size as u32,
                    slot_size: raw_board_slot(value_size as int) as u32,
                    slot_count: slot_count as u32,
                })
                &&& b.len == BLACKBOARD_HEADER_SIZE + slot_count * raw_board_slot(
                    value_size as int,
                )
                &&& forall|k: int| 0 <= k < slot_count ==> (#[trigger] b.slots@[k]).seqlock == 0
                &&& raw == (BlackboardRaw {
                    slot_size: raw_board_slot(value_size as int) as usize,
                    value_size,
                    slot_count,
                    is_producer: true,
                })
            },
    {
        if slot_count == 0 || value_size == 0 || slot_count > u32::MAX as usize || value_size
            > u32::MAX as usize {
            return None;
        }
        proof {
            lemma_round_up(8 + value_size, 64);
            let slot = raw_board_slot(value_size as int);
            assert(slot_count * slot >= slot) by (nonlinear_arith)
                requires
                    slot >= 8,
                    slot_count >= 1,
            ;
        }
        let slot_size: usize = round_up_size(8 + value_size, 64);
        let total: usize = BLACKBOARD_HEADER_SIZE + slot_count * slot_size;
        let mut slots: Vec<BlackboardSlot<Vec<u8>>> = Vec::new();
        let mut i: usize = 0;
        while i < slot_count
            invariant
                i <= slot_count,
                slots@.len() == i,
                forall|k: int| 0 <= k < i ==> (#[trigger] slots@[k]).seqlock == 0,
            decreases slot_count - i,
        {
            slots.push(BlackboardSlot { seqlock: 0, value: None });
            i = i + 1;
        }
        let header = BlackboardHeader {
            magic: BLACKBOARD_MAGIC,
            version: BLACKBOARD_VERSION,
            value_size: value_size as u32,
            slot_size: slot_size as u32,
            slot_count: slot_count as u32,
        };
        let raw = BlackboardRaw { slot_size, value_size, slot_count, is_producer: true };
        Some((raw, Blackboard { header, len: total, slots }))
    }

    /// Attaches to a table of `value_size`-byte values that is mapped as `len` bytes.
    pub fn attach(header: &BlackboardHeader, len: usize, value_size: usize) -> (r: Option<Self>)
        ensures
            r is Some <==> raw_board_ok(*header, len as int, value_size as int),
            r matches Some(raw) ==> raw == (BlackboardRaw {
                slot_size: header.slot_size as usize,
                value_size,
                slot_count: header.slot_count as usize,
                is_producer: false,
            }),
    {
        if value_size == 0 || len < BLACKBOARD_HEADER_SIZE {
            return None;
        }
        if header.magic != BLACKBOARD_MAGIC || header.version != BLACKBOARD_VERSION {
            return None;
        }
        if header.value_size as usize != value_size {
            return None;
        }
        proof {
            assert(header.slot_count * header.slot_size <= u32::MAX * u32::MAX)
                by (nonlinear_arith)
                requires
                    header.slot_count <= u32::MAX,
                    header.slot_size <= u32::MAX,
            ;
        }
        let end: u128 = header.slot_count as u128 * header.slot_size as u128
            + BLACKBOARD_HEADER_SIZE as u128;
        if (header.slot_size as u64) < 8 + header.value_size as u64 || end > len as u128 {
            return None;
        }
        Some(
            BlackboardRaw {
                slot_size: header.slot_size as usize,
                value_size,
                slot_count: header.slot_count as usize,
                is_producer: false,
            },
        )
    }

    /// Writes the value of `key`. Returns 0, or -1 if there is no such key.
    pub fn write(&self, b: &mut Blackboard<Vec<u8>>, key: usize, data: &[u8]) -> (code: i32)
        requires
            old(b).wf(),
            self.slot_count == old(b).slots@.len(),
            data@.len() == self.value_size,
            key < old(b).slots@.len() ==> old(b).slots@[key as int].seqlock <= u64::MAX - 3,
        ensures
            final(b).wf(),
            final(b).header == old(b).header,
            final(b).len == old(b).len,
            if key < old(b).slots@.len() {
                &&& code == 0
                &&& final(b).slots@.len() == old(b).slots@.len()
                &&& final(b).slots@[key as int].seqlock == lock_of(
                    old(b).slots@[key as int].seqlock,
                ) + 1
                &&& final(b).value(key as int) is Some
                &&& final(b).value(key as int)->0@ == data@
                &&& forall|k: int|
                    0 <= k < old(b).slots@.len() && k != key ==> #[trigger] final(b).slots@[k]
                        == old(b).slots@[k]
            } else {
                code == -1 && *final(b) == *old(b)
            },
    {
        if key >= self.slot_count {
            return -1;
        }
        let lock: u64 = begin_write(b.slots[key].seqlock);
        b.slots.set(key, BlackboardSlot { seqlock: lock + 1, value: Some(slice_to_vec(data)) });
        0
    }

    /// Replaces `out` by the value of `key`, in a table that nobody is writing to. Returns 1
    /// if read, 0 if the key was never written, -1 if there is no such key, and -2 if the
    /// slot stays mid-write (writer stalled or crashed).
    pub fn read(&self, b: &Blackboard<Vec<u8>>, key: usize, out: &mut Vec<u8>) -> (code: i32)
        requires
            b.wf(),
            self.slot_count == b.slots@.len(),
        ensures
            code == (if key >= b.slots@.len() {
                -1
            } else if b.mid_write(key as int) {
                -2
            } else if b.value(key as int) is None {
                0
            } else {
                1int
            }),
            code == 1 ==> final(out)@ == b.value(key as int)->0@,
            code != 1 ==> *final(out) == *old(out),
    {
        if key >= self.slot_count {
            return -1;
        }
        let lock: u64 = b.slots[key].seqlock;
        let mut read = BoardRead::new();
        let mut ask = read.step(BoardEvent::Lock(lock));
        assert(b.slots@[key as int].seqlock == lock);
        if let BoardAsk::Copy { lock } = ask {
            if let Some(v) = &b.slots[key].value {
                *out = slice_to_vec(v.as_slice());
            }
            ask = read.step(BoardEvent::Copied { lock, again: b.slots[key].seqlock });
        }
        read_code(ask)
    }
}

/// The code for the end of a read: 1 if the copy is the value, 0 if the key was never
/// written, -2 if the writer stalled or crashed.
pub fn read_code(ask: BoardAsk) -> (code: i32)
    ensures
        code == (match ask {
            BoardAsk::Value => 1,
            BoardAsk::Unwritten => 0,
            _ => -2int,
        }),
{
    match ask {
        BoardAsk::Value => 1,
        BoardAsk::Unwritten => 0,
        _ => -2,
    }
}

/// A reader of raw records gets what a typed reader of the same ring gets, in the same order,
/// and ends where that one ends.
pub proof fn lemma_raw_batch_is_batch(h: ReadHead, ring: &Ring<Vec<u8>>, max: nat)
    ensures
        ({
            let (end, items) = drained(h, ring, max);
            let (raw_end, records) = raw_drained(h, ring, max);
            &&& raw_end == end
            &&& records.len() == items.len()
            &&& forall|i: int| 0 <= i < records.len() ==> #[trigger] records[i] == items[i]@
        }),
    decreases max,
{
    let one = receive(h, ring);
    if max > 0 && one.item {
        lemma_raw_batch_is_batch(one.head.accepted(), ring, (max - 1) as nat);
    }
}

/// Batches of raw records follow the log: a batch of at most `max` records starts at the
/// reader's next message, or at the oldest one of the last `capacity` if that is gone, and gives
/// the messages from there on, in order: `max` of them, or all that there are. Exactly the
/// messages that were gone are counted as lapped.
pub proof fn lemma_raw_batch_from_log(
    h: ReadHead,
    ring: &Ring<Vec<u8>>,
    log: Seq<Vec<u8>>,
    max: nat,
)
    requires
        h.reads(ring),
        ring.wf(),
        ring.holds_log(log),
        max > 0,
        h.cursor <= log.len(),
    ensures
        ({
            let (end, records) = raw_drained(h, ring, max);
            let last = log.len() as int;
            let to = if h.cursor + ring.header.capacity <= last {
                last - ring.header.capacity + 1
            } else {
                h.cursor as int
            };
            &&& records.len() == max && max <= last - to + 1 || records.len() == last - to + 1
            &&& forall|i: int|
                0 <= i < records.len() ==> #[trigger] records[i] == log[to - 1 + i]@
            &&& end.cursor == to + records.len()
            &&& end.lapped_total == (h.lapped_total + (to - h.cursor)) % 0x1_0000_0000_0000_0000
        }),
{
    lemma_batch_from_log(h, ring, log, max);
    lemma_raw_batch_is_batch(h, ring, max);
}

/// A slot of a raw ring holds the sequence word and the record, and is padded to whole words
/// by less than one; a slot of a raw table, to whole cache lines by less than one.
pub proof fn lemma_raw_slot_sizes(n: int)
    requires
        n >= 0,
    ensures
        8 + n <= raw_slot_bytes(n) < 8 + n + 8,
        raw_slot_bytes(n) % 8 == 0,
        8 + n <= raw_board_slot(n) < 8 + n + 64,
        raw_board_slot(n) % 64 == 0,
{
    lemma_round_up(8 + n, 8);
    lemma_round_up(8 + n, 64);
}

/// A new raw ring has its slots right behind the header, neither registry nor arena, and
/// nothing in it.
pub proof fn lemma_raw_ring_layout(capacity: u64, element_size: u32)
    requires
        raw_slot_bytes(element_size as int) <= u32::MAX,
    ensures
        ({
            let h = fresh_header(raw_layout(capacity, element_size));
            &&& h.capacity == capacity
            &&& h.element_size == raw_slot_bytes(element_size as int)
            &&& h.slots_offset == 128
            &&& h.reader_registry_offset == 0
            &&& h.reader_registry_count == 0
            &&& h.arena_offset == 0
            &&& h.arena_size == 0
            &&& h.write_seq == 0
            &&& h.claim_seq == 0
            &&& h.schema_sig == 0
            &&& h.flags == FLAG_MODE_SPMC | FLAG_POLICY_LATEST_WINS
            &&& raw_ring_bytes(capacity, element_size) == 128 + h.capacity * h.element_size
        }),
{
    lemma_raw_slot_sizes(element_size as int);
    assert(FLAG_POLICY_LATEST_WINS | FLAG_MODE_SPMC == FLAG_MODE_SPMC | FLAG_POLICY_LATEST_WINS)
        by (bit_vector);
}

/// Which tables of raw values can be created, and which can be attached to: those of this
/// version whose values have the expected size and whose slots hold them and end inside the
/// mapping.
pub proof fn lemma_raw_table_acceptance(
    h: BlackboardHeader,
    len: int,
    value_size: usize,
    slot_count: usize,
    k: int,
)
    ensures
        raw_board_args(slot_count, value_size) <==> 0 < slot_count < 0x1_0000_0000 && 0
            < value_size < 0x1_0000_0000,
        raw_board_ok(h, len, value_size as int) <==> {
            &&& value_size > 0
            &&& len >= 128
            &&& h.magic == BLACKBOARD_MAGIC
            &&& h.version == 1
            &&& h.value_size == value_size
            &&& h.slot_size >= value_size + 8
            &&& 128 + h.slot_count * h.slot_size <= len
        },
        raw_board_ok(h, len, value_size as int) && 0 <= k < h.slot_count ==> 128 + k * h.slot_size
            + 8 + value_size <= len,
{
    if raw_board_ok(h, len, value_size as int) && 0 <= k < h.slot_count {
        assert(k * h.slot_size + h.slot_size <= h.slot_count * h.slot_size) by (nonlinear_arith)
            requires
                k + 1 <= h.slot_count,
                0 <= h.slot_size,
        ;
    }
}

} // verus!
