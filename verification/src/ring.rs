//! A ring region: header, reader registry and slots.
use crate::header::{capacity_ok, RingHeader, Slot, SLOT_WRITING};
use crate::math::{lemma_round_up, max_of, round_up, round_up_size, slot_of};
use crate::registry::ReaderRegistry;
use vstd::arithmetic::div_mod::lemma_small_mod;
use vstd::prelude::*;

verus! {

/// Highest sequence number of a message: the number behind its successor is the
/// write-in-progress marker.
pub const LAST_SEQ: u64 = 0xFFFF_FFFF_FFFF_FFFD;

/// Oldest sequence still retained in a ring of `capacity` slots whose newest message is
/// `write_seq`.
pub open spec fn oldest_of(write_seq: u64, capacity: u64) -> u64 {
    if write_seq >= capacity {
        (write_seq - capacity + 1) as u64
    } else {
        1
    }
}

/// Oldest sequence still retained in a ring of `capacity` slots whose newest message is
/// `write_seq`.
pub fn oldest_retained(write_seq: u64, capacity: u64) -> (r: u64)
    requires
        capacity > 0,
    ensures
        r == oldest_of(write_seq, capacity),
{
    if write_seq >= capacity {
        write_seq - capacity + 1
    } else {
        1
    }
}

/// Alignment of the slot of a record with alignment `align`.
pub open spec fn slot_align_for(align: nat) -> nat {
    if align >= 8 {
        align
    } else {
        8
    }
}

/// Bytes of the slot of a record of `size` bytes with alignment `align`: the 8-byte
/// sequence word, the record at the next multiple of its alignment, and padding up to a
/// multiple of the slot's own alignment.
pub open spec fn slot_bytes_for(size: nat, align: nat) -> int {
    round_up(round_up(8, align as int) + size, slot_align_for(align) as int)
}

/// Bytes of a slot that holds a `T`.
pub open spec fn slot_bytes<T>() -> int {
    slot_bytes_for(vstd::layout::size_of::<T>(), vstd::layout::align_of::<T>())
}

/// Alignment of a slot that holds a `T`.
pub open spec fn slot_align<T>() -> nat {
    slot_align_for(vstd::layout::align_of::<T>())
}

/// A multiple of 64 and of larger alignments suits every slot.
pub proof fn lemma_slot_aligned<T>(x: int)
    requires
        x % (if slot_align::<T>() >= 64 {
            slot_align::<T>() as int
        } else {
            64
        }) == 0,
    ensures
        x % slot_align::<T>() as int == 0,
{
    broadcast use vstd::layout::align_properties;

    let a = vstd::layout::align_of::<T>() as int;
    if a < 64 {
        reveal_with_fuel(vstd::arithmetic::power2::is_pow2, 7);
        assert(a == 1 || a == 2 || a == 4 || a == 8 || a == 16 || a == 32);
    }
}

/// A slot that holds a `T` fits the address space.
pub open spec fn slot_fits<T>() -> bool {
    slot_bytes::<T>() <= usize::MAX
}

/// Bytes of a slot that holds a `T`.
pub fn slot_size_of<T>() -> (n: usize)
    requires
        slot_fits::<T>(),
    ensures
        n == slot_bytes::<T>(),
        n >= 8,
{
    broadcast use vstd::layout::align_nonzero;

    let size: usize = core::mem::size_of::<T>();
    let align: usize = core::mem::align_of::<T>();
    let outer: usize = slot_align_of::<T>();
    proof {
        lemma_round_up(8, align as int);
        lemma_round_up(round_up(8, align as int) + size, outer as int);
    }
    let start: usize = round_up_size(8, align);
    round_up_size(start + size, outer)
}

/// Alignment of a slot that holds a `T`.
pub fn slot_align_of<T>() -> (n: usize)
    ensures
        n == slot_align::<T>(),
        n >= 8,
{
    let align: usize = core::mem::align_of::<T>();
    if align >= 8 {
        align
    } else {
        8
    }
}

/// A ring region that is mapped as `len` bytes.
#[derive(Debug)]
pub struct Ring<T> {
    pub header: RingHeader,
    pub len: usize,
    pub registry: Option<ReaderRegistry>,
    pub slots: Vec<Slot<T>>,
}

impl<T> Ring<T> {
    /// The capacity is sound, there are that many slots, and a slot that carries a sequence
    /// number is the slot of that number and holds a message.
    pub open spec fn wf(&self) -> bool {
        &&& capacity_ok(self.header)
        &&& self.header.capacity >= 1
        &&& self.slots@.len() == self.header.capacity
        &&& self.header.write_seq <= LAST_SEQ
        &&& forall|i: int|
            0 <= i < self.slots@.len() ==> slot_ok(
                #[trigger] self.slots@[i],
                i,
                self.header.capacity,
            )
    }

    /// Index of the slot that belongs to `seq`.
    pub open spec fn index(&self, seq: u64) -> int {
        seq as int % self.header.capacity as int
    }

    /// Sequence word of the slot that belongs to `seq`.
    pub open spec fn word(&self, seq: u64) -> u64 {
        self.slots@[self.index(seq)].seq
    }

    /// The slot of `seq` holds message `seq`.
    pub open spec fn present(&self, seq: u64) -> bool {
        self.word(seq) == seq && seq != 0 && seq != SLOT_WRITING
    }

    /// The payload in the slot of `seq`.
    pub open spec fn message(&self, seq: u64) -> T {
        self.slots@[self.index(seq)].data->0
    }

    /// The ring holds the tail of `log`, the messages published so far: message `n` is
    /// `log[n - 1]`, and the last `capacity` of them are there.
    pub open spec fn holds_log(&self, log: Seq<T>) -> bool {
        &&& self.header.write_seq == log.len()
        &&& forall|i: int|
            0 <= i < self.slots@.len() ==> (#[trigger] self.slots@[i]).seq <= log.len()
        &&& forall|n: u64|
            oldest_of(self.header.write_seq, self.header.capacity) <= n <= log.len() ==> (
            #[trigger] self.word(n)) == n && self.message(n) == log[n - 1]
    }

    /// Loads the sequence word of the slot that belongs to `seq`.
    pub fn load_word(&self, seq: u64) -> (w: u64)
        requires
            self.wf(),
        ensures
            w == self.word(seq),
    {
        let i: usize = self.slot_index(seq);
        self.slots[i].seq
    }

    /// Index of the slot that belongs to `seq`.
    pub fn slot_index(&self, seq: u64) -> (i: usize)
        requires
            self.wf(),
        ensures
            i == self.index(seq),
            i < self.slots@.len(),
    {
        let _n: usize = self.slots.len();
        slot_of(seq, self.header.mask) as usize
    }
}

/// What the slot at index `i` may hold.
pub open spec fn slot_ok<T>(s: Slot<T>, i: int, capacity: u64) -> bool {
    s.seq != 0 && s.seq != SLOT_WRITING ==> s.data is Some && s.seq <= LAST_SEQ && s.seq as int
        % capacity as int == i
}

/// A message outlives the next `capacity - 1` messages: it leaves the retained window
/// exactly when the writer is a full ring ahead.
pub proof fn lemma_retained_window(write_seq: u64, capacity: u64, n: u64)
    requires
        capacity >= 1,
        1 <= n <= write_seq,
    ensures
        n < oldest_of(write_seq, capacity) <==> write_seq - n >= capacity,
        oldest_of(write_seq, capacity) >= 1,
        oldest_of(write_seq, capacity) <= max_of(write_seq, 1),
{
}

/// What it is to hold the tail of a log: the newest number is the log's length, each of the last
/// `capacity` messages stands in the slot that its number has modulo the capacity, under that
/// number, and no slot holds a number beyond the log.
pub proof fn lemma_log_tail_in_slots<T>(r: &Ring<T>, log: Seq<T>, n: int, i: int)
    requires
        r.wf(),
        r.holds_log(log),
        1 <= n <= log.len(),
        n + r.header.capacity > log.len(),
        0 <= i < r.slots@.len(),
    ensures
        r.header.write_seq == log.len(),
        r.slots@[n % r.header.capacity as int].seq == n,
        r.slots@[n % r.header.capacity as int].data == Some(log[n - 1]),
        r.slots@[i].seq <= log.len(),
{
    let m = n as u64;
    assert(r.word(m) == m && r.message(m) == log[m - 1]);
    let k = r.index(m);
    assert(0 <= k < r.slots@.len());
    assert(slot_ok(r.slots@[k], k, r.header.capacity));
}

/// A slot has room for the sequence word and the record behind it, at a multiple of the record's
/// alignment; slots one after the other are aligned too.
pub proof fn lemma_slot_size<T>()
    ensures
        ({
            let size = vstd::layout::size_of::<T>() as int;
            let align = vstd::layout::align_of::<T>() as int;
            let slot = slot_bytes::<T>();
            &&& slot_align::<T>() == (if align >= 8 {
                align
            } else {
                8
            })
            &&& slot % slot_align::<T>() as int == 0
            &&& slot >= 8 + size
            &&& slot >= align + size
            &&& align <= 8 ==> slot < 8 + align + size + 8
            &&& align > 8 ==> slot < 8 + align + size + align
        }),
{
    broadcast use vstd::layout::align_nonzero;

    let size = vstd::layout::size_of::<T>() as int;
    let align = vstd::layout::align_of::<T>() as int;
    lemma_round_up(8, align);
    lemma_round_up(round_up(8, align) + size, slot_align::<T>() as int);
    if round_up(8, align) < align {
        lemma_small_mod(round_up(8, align) as nat, align as nat);
    }
}

} // verus!
