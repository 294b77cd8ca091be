//! # Blackboard
//!
//! A table of the latest value per key, with a seqlock in front of each value: odd while a
//! write is in progress, even when the value is consistent, 0 before the first write.
use crate::bytes::{le32, le64, push_u32, push_u64, push_zeros, read_u32, read_u64, bytes32, bytes64};
use crate::error::RingfireError;
use crate::header::{
    BlackboardHeader, BlackboardSlot, BLACKBOARD_HEADER_SIZE, BLACKBOARD_MAGIC, BLACKBOARD_VERSION,
};
use crate::math::{lemma_round_up, round_up, round_up_size};
use crate::spmc::CleanupMode;
use core::marker::PhantomData;
use vstd::bytes::{lemma_auto_spec_u32_to_from_le_bytes, lemma_auto_spec_u64_to_from_le_bytes};
use vstd::prelude::*;

verus! {

/// How long a reader waits on a slot that stays mid-write before reporting
/// [`RingfireError::WriterStalled`], in nanoseconds.
pub const STALL_TIMEOUT_NS: u64 = 100_000_000;

/// Looks at a busy slot before a reader starts checking the clock.
pub const SPINS_BEFORE_CLOCK: u32 = 10_000;

/// Alignment of a slot: slots do not share cache lines.
pub open spec fn board_align<V>() -> int {
    if vstd::layout::align_of::<V>() >= 64 {
        vstd::layout::align_of::<V>() as int
    } else {
        64
    }
}

/// Bytes of a slot: the 8-byte seqlock, the value at the next multiple of its alignment, and
/// padding.
pub open spec fn board_slot_bytes<V>() -> int {
    round_up(
        round_up(8, vstd::layout::align_of::<V>() as int) + vstd::layout::size_of::<V>(),
        board_align::<V>(),
    )
}

/// Bytes of a table of `slot_count` keys.
pub open spec fn board_bytes<V>(slot_count: usize) -> int {
    BLACKBOARD_HEADER_SIZE + slot_count * board_slot_bytes::<V>()
}

/// Bytes of a slot.
pub fn board_slot_size_of<V>() -> (n: usize)
    requires
        board_slot_bytes::<V>() <= usize::MAX,
    ensures
        n == board_slot_bytes::<V>(),
        n >= 8,
{
    broadcast use vstd::layout::align_nonzero;

    let size: usize = core::mem::size_of::<V>();
    let align: usize = core::mem::align_of::<V>();
    let outer: usize = if align >= 64 {
        align
    } else {
        64
    };
    proof {
        lemma_round_up(8, align as int);
        lemma_round_up(round_up(8, align as int) + size, outer as int);
    }
    let start: usize = round_up_size(8, align);
    round_up_size(start + size, outer)
}

/// The header that the first bytes of a table spell out.
pub open spec fn board_header_at(s: Seq<u8>) -> BlackboardHeader {
    BlackboardHeader {
        magic: le64(s, 0),
        version: le32(s, 8),
        value_size: le32(s, 12),
        slot_size: le32(s, 16),
        slot_count: le32(s, 20),
    }
}

/// The slots end inside a mapping of `len` bytes.
pub open spec fn board_inside(h: BlackboardHeader, len: int) -> bool {
    h.slot_count * h.slot_size + BLACKBOARD_HEADER_SIZE <= len
}

/// `h` is the header of a table of values of `value_size` bytes in slots of `slot_size`
/// bytes that is mapped as `len` bytes.
pub open spec fn valid_board(
    h: BlackboardHeader,
    len: int,
    value_size: int,
    slot_size: int,
) -> bool {
    &&& len >= BLACKBOARD_HEADER_SIZE
    &&& h.magic == BLACKBOARD_MAGIC
    &&& h.version == BLACKBOARD_VERSION
    &&& h.value_size == value_size
    &&& h.slot_size == slot_size
    &&& board_inside(h, len)
}

/// What refuses a table that is not valid.
pub open spec fn board_refusal(
    h: BlackboardHeader,
    len: int,
    value_size: int,
    slot_size: int,
    e: RingfireError,
) -> bool {
    if len < BLACKBOARD_HEADER_SIZE {
        e matches RingfireError::CorruptLayout(w) && w@
            == "mapping smaller than the blackboard header"@
    } else if h.magic != BLACKBOARD_MAGIC {
        e == (RingfireError::InvalidMagic { expected: BLACKBOARD_MAGIC, actual: h.magic })
    } else if h.version != BLACKBOARD_VERSION {
        e == (RingfireError::VersionMismatch { expected: BLACKBOARD_VERSION, actual: h.version })
    } else if h.value_size != value_size {
        e == (RingfireError::ValueSizeMismatch {
            expected: h.value_size as usize,
            actual: value_size as usize,
        })
    } else if h.slot_size != slot_size {
        e matches RingfireError::CorruptLayout(w) && w@ == "blackboard slot stride mismatch"@
    } else {
        e matches RingfireError::CorruptLayout(w) && w@
            == "blackboard slots extend past the mapping"@
    }
}

impl BlackboardHeader {
    /// Reads the header that starts a table.
    pub fn decode(region: &[u8]) -> (h: Self)
        requires
            region@.len() >= BLACKBOARD_HEADER_SIZE,
        ensures
            h == board_header_at(region@),
    {
        BlackboardHeader {
            magic: read_u64(region, 0),
            version: read_u32(region, 8),
            value_size: read_u32(region, 12),
            slot_size: read_u32(region, 16),
            slot_count: read_u32(region, 20),
        }
    }

    /// Writes this header out as the 128 bytes that start a table.
    pub fn encode(&self) -> (out: Vec<u8>)
        ensures
            out@.len() == BLACKBOARD_HEADER_SIZE,
            board_header_at(out@) == *self,
            forall|i: int| 24 <= i < BLACKBOARD_HEADER_SIZE ==> out@[i] == 0,
    {
        let mut out: Vec<u8> = Vec::new();
        push_u64(&mut out, self.magic);
        push_u32(&mut out, self.version);
        push_u32(&mut out, self.value_size);
        push_u32(&mut out, self.slot_size);
        push_u32(&mut out, self.slot_count);
        proof {
            lemma_auto_spec_u32_to_from_le_bytes();
            lemma_auto_spec_u64_to_from_le_bytes();
        }
        push_zeros(&mut out, 104);
        proof {
            let s = out@;
            assert(s.subrange(0, 8) =~= bytes64(self.magic));
            assert(s.subrange(8, 12) =~= bytes32(self.version));
            assert(s.subrange(12, 16) =~= bytes32(self.value_size));
            assert(s.subrange(16, 20) =~= bytes32(self.slot_size));
            assert(s.subrange(20, 24) =~= bytes32(self.slot_count));
        }
        out
    }

    /// Validates the header of a table that is mapped as `len` bytes.
    pub fn validate(&self, len: usize, value_size: usize, slot_size: usize) -> (r: Result<
        (),
        RingfireError,
    >)
        ensures
            r is Ok <==> valid_board(*self, len as int, value_size as int, slot_size as int),
            r matches Err(e) ==> board_refusal(
                *self,
                len as int,
                value_size as int,
                slot_size as int,
                e,
            ),
    {
        if len < BLACKBOARD_HEADER_SIZE {
            return Err(RingfireError::CorruptLayout("mapping smaller than the blackboard header"));
        }
        if self.magic != BLACKBOARD_MAGIC {
            return Err(
                RingfireError::InvalidMagic { expected: BLACKBOARD_MAGIC, actual: self.magic },
            );
        }
        if self.version != BLACKBOARD_VERSION {
            return Err(
                RingfireError::VersionMismatch {
                    expected: BLACKBOARD_VERSION,
                    actual: self.version,
                },
            );
        }
        if self.value_size as usize != value_size {
            return Err(
                RingfireError::ValueSizeMismatch {
                    expected: self.value_size as usize,
                    actual: value_size,
                },
            );
        }
        if self.slot_size as usize != slot_size {
            return Err(RingfireError::CorruptLayout("blackboard slot stride mismatch"));
        }
        proof {
            assert(self.slot_count * self.slot_size <= u32::MAX * u32::MAX) by (nonlinear_arith)
                requires
                    self.slot_count <= u32::MAX,
                    self.slot_size <= u32::MAX,
            ;
        }
        let end: u128 = self.slot_count as u128 * self.slot_size as u128
            + BLACKBOARD_HEADER_SIZE as u128;
        if end > len as u128 {
            return Err(RingfireError::CorruptLayout("blackboard slots extend past the mapping"));
        }
        Ok(())
    }
}

/// Reads and validates the header of a mapped table.
pub fn open_board(region: &[u8], value_size: usize, slot_size: usize) -> (r: Result<
    BlackboardHeader,
    RingfireError,
>)
    ensures
        r is Ok <==> valid_board(
            board_header_at(region@),
            region@.len() as int,
            value_size as int,
            slot_size as int,
        ),
        match r {
            Ok(h) => h == board_header_at(region@),
            Err(e) => board_refusal(
                board_header_at(region@),
                region@.len() as int,
                value_size as int,
                slot_size as int,
                e,
            ),
        },
{
    if region.len() < BLACKBOARD_HEADER_SIZE {
        return Err(RingfireError::CorruptLayout("mapping smaller than the blackboard header"));
    }
    let header = BlackboardHeader::decode(region);
    match header.validate(region.len(), value_size, slot_size) {
        Ok(_) => Ok(header),
        Err(e) => Err(e),
    }
}

/// A table that is mapped as `len` bytes.
#[derive(Debug)]
pub struct Blackboard<V> {
    pub header: BlackboardHeader,
    pub len: usize,
    pub slots: Vec<BlackboardSlot<V>>,
}

impl<V> Blackboard<V> {
    /// A slot with an even, nonzero seqlock holds a value.
    pub open spec fn wf(&self) -> bool {
        &&& self.slots@.len() == self.header.slot_count
        &&& forall|k: int|
            0 <= k < self.slots@.len() && (#[trigger] self.slots@[k]).seqlock != 0
                && self.slots@[k].seqlock % 2 == 0 ==> self.slots@[k].value is Some
    }

    /// The value of `key`, `None` before its first write.
    pub open spec fn value(&self, key: int) -> Option<V> {
        if self.slots@[key].seqlock == 0 {
            None
        } else {
            self.slots@[key].value
        }
    }

    /// A write to `key` has started and not finished.
    pub open spec fn mid_write(&self, key: int) -> bool {
        self.slots@[key].seqlock % 2 == 1
    }

    /// No write is in progress, and every key has the value of the last of `writes` to it.
    pub open spec fn holds_writes(&self, writes: Seq<(usize, V)>) -> bool {
        forall|k: int| #![trigger self.slots@[k]]
            0 <= k < self.slots@.len() ==> !self.mid_write(k) && self.value(k) == last_write(
                writes,
                k,
            )
    }
}

/// The value of the last of `writes` to `key`, `None` if there is none.
pub open spec fn last_write<V>(writes: Seq<(usize, V)>, key: int) -> Option<V>
    decreases writes.len(),
{
    if writes.len() == 0 {
        None
    } else if writes.last().0 == key {
        Some(writes.last().1)
    } else {
        last_write(writes.drop_last(), key)
    }
}

/// A write to `key` extends the writes that a table holds: `key` has the new value, every
/// other key the one it had.
pub proof fn lemma_write_extends<V>(
    a: &Blackboard<V>,
    b: &Blackboard<V>,
    writes: Seq<(usize, V)>,
    key: usize,
    val: V,
)
    requires
        a.holds_writes(writes),
        key < a.slots@.len(),
        a.slots@[key as int].seqlock <= u64::MAX - 3,
        b.slots@ == a.slots@.update(
            key as int,
            BlackboardSlot {
                seqlock: (lock_of(a.slots@[key as int].seqlock) + 1) as u64,
                value: Some(val),
            },
        ),
    ensures
        b.holds_writes(writes.push((key, val))),
{
    let w = writes.push((key, val));
    assert(w.drop_last() =~= writes);
    assert forall|k: int| #![trigger b.slots@[k]] 0 <= k < b.slots@.len() implies !b.mid_write(k)
        && b.value(k) == last_write(w, k) by {
        if k != key {
            assert(b.slots@[k] == a.slots@[k]);
        }
    }
}

/// The seqlock while the write that finds it at `s` is in progress: the next odd number that
/// no reader has seen yet.
pub open spec fn lock_of(s: u64) -> int {
    if s % 2 == 0 {
        s + 1
    } else {
        s + 2
    }
}

/// The seqlock to store before the value, for a slot that holds `s`; the number behind it is
/// stored after the value.
pub fn begin_write(s: u64) -> (r: u64)
    requires
        s <= u64::MAX - 3,
    ensures
        r == lock_of(s),
        r % 2 == 1,
{
    if s % 2 == 0 {
        s + 1
    } else {
        s + 2
    }
}

/// Producer for a Blackboard state table.
#[derive(Debug)]
pub struct BlackboardProducer<V> {
    pub slot_count: usize,
    pub cleanup_mode: CleanupMode,
    pub marker: PhantomData<V>,
}

impl<V: Copy> BlackboardProducer<V> {
    /// Creates a new Blackboard table capable of holding `slot_count` keys.
    pub fn create(slot_count: usize) -> (r: Result<(Self, Blackboard<V>), RingfireError>)
        requires
            slot_count <= u32::MAX ==> board_slot_bytes::<V>() <= usize::MAX && board_bytes::<V>(
                slot_count,
            ) <= usize::MAX,
        ensures
            r is Ok <==> slot_count <= u32::MAX,
            match r {
                Ok((p, b)) => {
                    &&& b.wf()
                    &&& p.slot_count == slot_count
                    &&& p.cleanup_mode == CleanupMode::UnlinkOnDrop
                    &&& b.header == (BlackboardHeader {
                        magic: BLACKBOARD_MAGIC,
                        version: BLACKBOARD_VERSION,
                        value_size: vstd::layout::size_of::<V>() as u32,
                        slot_size: board_slot_bytes::<V>() as u32,
                        slot_count: slot_count as u32,
                    })
                    &&& b.len == board_bytes::<V>(slot_count)
                    &&& forall|k: int|
                        0 <= k < slot_count ==> (#[trigger] b.slots@[k]).seqlock == 0
                    &&& forall|k: int| 0 <= k < slot_count ==> #[trigger] b.value(k) is None
                    &&& b.holds_writes(Seq::empty())
                    &&& board_slot_bytes::<V>() <= u32::MAX && vstd::layout::size_of::<V>()
                        <= u32::MAX ==> valid_board(
                        b.header,
                        b.len as int,
                        vstd::layout::size_of::<V>() as int,
                        board_slot_bytes::<V>(),
                    )
                },
                Err(e) => e == RingfireError::InvalidCapacity(slot_count as u64),
            },
    {
        if slot_count > u32::MAX as usize {
            return Err(RingfireError::InvalidCapacity(slot_count as u64));
        }
        let value_size: usize = core::mem::size_of::<V>();
        let slot_size: usize = board_slot_size_of::<V>();
        proof {
            assert(slot_count * slot_size >= 0) by (nonlinear_arith)
                requires
                    slot_count >= 0,
                    slot_size >= 0,
            ;
        }
        let total: usize = BLACKBOARD_HEADER_SIZE + slot_count * slot_size;
        let mut header = BlackboardHeader {
            magic: 0,
            version: BLACKBOARD_VERSION,
            value_size: value_size as u32,
            slot_size: slot_size as u32,
            slot_count: slot_count as u32,
        };
        let mut slots: Vec<BlackboardSlot<V>> = Vec::new();
        let mut i: usize = 0;
        while i < slot_count
            invariant
                i <= slot_count,
                slots@.len() == i,
                forall|j: int|
                    0 <= j < i ==> #[trigger] slots@[j] == (BlackboardSlot {
                        seqlock: 0,
                        value: None::<V>,
                    }),
            decreases slot_count - i,
        {
            slots.push(BlackboardSlot { seqlock: 0, value: None });
            i = i + 1;
        }
        header.magic = BLACKBOARD_MAGIC;
        Ok(
            (
                BlackboardProducer {
                    slot_count,
                    cleanup_mode: CleanupMode::UnlinkOnDrop,
                    marker: PhantomData,
                },
                Blackboard { header, len: total, slots },
            ),
        )
    }

    /// Sets cleanup mode on drop.
    pub fn set_cleanup_mode(&mut self, mode: CleanupMode)
        ensures
            *final(self) == (BlackboardProducer { cleanup_mode: mode, ..*old(self) }),
    {
        self.cleanup_mode = mode;
    }

    /// Writes or updates the value associated with `key`: seqlock even -> odd -> even.
    pub fn write(&mut self, b: &mut Blackboard<V>, key: usize, val: V) -> (r: Result<
        (),
        RingfireError,
    >)
        requires
            old(b).wf(),
            old(self).slot_count == old(b).slots@.len(),
            key < old(b).slots@.len() ==> old(b).slots@[key as int].seqlock <= u64::MAX - 3,
        ensures
            final(b).wf(),
            *final(self) == *old(self),
            final(b).header == old(b).header,
            final(b).len == old(b).len,
            r is Ok <==> key < old(b).slots@.len(),
            match r {
                Ok(_) => {
                    let s = old(b).slots@[key as int].seqlock;
                    &&& final(b).slots@ == old(b).slots@.update(
                        key as int,
                        BlackboardSlot { seqlock: (lock_of(s) + 1) as u64, value: Some(val) },
                    )
                    &&& final(b).value(key as int) == Some(val)
                    &&& !final(b).mid_write(key as int)
                    &&& forall|writes: Seq<(usize, V)>| #[trigger]
                        old(b).holds_writes(writes) ==> final(b).holds_writes(
                            writes.push((key, val)),
                        )
                },
                Err(e) => {
                    &&& e == (RingfireError::KeyOutOfRange {
                        key,
                        capacity: old(self).slot_count,
                    })
                    &&& *final(b) == *old(b)
                },
            },
    {
        if key >= self.slot_count {
            return Err(RingfireError::KeyOutOfRange { key, capacity: self.slot_count });
        }
        let s: u64 = b.slots[key].seqlock;
        let lock: u64 = begin_write(s);
        b.slots.set(key, BlackboardSlot { seqlock: lock + 1, value: Some(val) });
        proof {
            assert forall|writes: Seq<(usize, V)>| #[trigger]
                old(b).holds_writes(writes) implies b.holds_writes(writes.push((key, val))) by {
                lemma_write_extends(old(b), b, writes, key, val);
            }
        }
        Ok(())
    }

    /// Number of slots in the blackboard.
    pub fn slot_count(&self) -> (r: usize)
        ensures
            r == self.slot_count,
    {
        self.slot_count
    }
}

/// The access or pause that a reader of a busy slot asks for.
#[derive(Debug, Clone, Copy, PartialEq, Eq, Structural)]
pub enum BoardAsk {
    /// Copy the value, then load the seqlock again.
    Copy { lock: u64 },
    /// Hint the processor that this is a spin loop, then load the seqlock again.
    Spin,
    /// Read the clock.
    ReadClock,
    /// Give the rest of the time slice to another thread, then load the seqlock again.
    Yield,
    /// Nothing more: the slot was never written.
    Unwritten,
    /// Nothing more: the copy is the value.
    Value,
    /// Nothing more: the writer stalled or died mid-update.
    Stalled,
}

/// What happened to a reader.
#[derive(Debug, Clone, Copy, PartialEq, Eq, Structural)]
pub enum BoardEvent {
    /// The seqlock was loaded.
    Lock(u64),
    /// After the copy of a value under `lock`, the seqlock was loaded again.
    Copied { lock: u64, again: u64 },
    /// The clock was read.
    Clock { now_ns: u64 },
}

/// A read in progress.
#[derive(Debug, Clone, Copy)]
pub struct BoardRead {
    pub spins: u32,
    pub stalled_since_ns: Option<u64>,
}

impl BoardRead {
    pub fn new() -> (r: Self)
        ensures
            r == (BoardRead { spins: 0, stalled_since_ns: None }),
    {
        BoardRead { spins: 0, stalled_since_ns: None }
    }

    /// The read after one more vain look, and how it passes the time.
    pub open spec fn backed_off(self) -> (BoardRead, BoardAsk) {
        let r = BoardRead { spins: self.spins.saturating_add(1), ..self };
        (
            r,
            if r.spins < SPINS_BEFORE_CLOCK {
                BoardAsk::Spin
            } else {
                BoardAsk::ReadClock
            },
        )
    }

    /// The read after an event, and what comes next.
    pub open spec fn after(self, e: BoardEvent) -> (BoardRead, BoardAsk) {
        match e {
            BoardEvent::Lock(s) => if s == 0 {
                (self, BoardAsk::Unwritten)
            } else if s % 2 == 0 {
                (self, BoardAsk::Copy { lock: s })
            } else {
                self.backed_off()
            },
            BoardEvent::Copied { lock, again } => if again == lock {
                (self, BoardAsk::Value)
            } else {
                self.backed_off()
            },
            BoardEvent::Clock { now_ns } => {
                let since = match self.stalled_since_ns {
                    Some(ns) => ns,
                    None => now_ns,
                };
                (
                    BoardRead { stalled_since_ns: Some(since), ..self },
                    if now_ns - since > STALL_TIMEOUT_NS {
                        BoardAsk::Stalled
                    } else {
                        BoardAsk::Yield
                    },
                )
            },
        }
    }

    fn back_off(&mut self) -> (a: BoardAsk)
        ensures
            (*final(self), a) == old(self).backed_off(),
    {
        self.spins = self.spins.saturating_add(1);
        if self.spins < SPINS_BEFORE_CLOCK {
            BoardAsk::Spin
        } else {
            BoardAsk::ReadClock
        }
    }

    /// Takes what happened and returns what the reader does next. It starts by loading the
    /// seqlock.
    pub fn step(&mut self, e: BoardEvent) -> (a: BoardAsk)
        ensures
            (*final(self), a) == old(self).after(e),
    {
        match e {
            BoardEvent::Lock(s) => {
                if s == 0 {
                    BoardAsk::Unwritten
                } else if s % 2 == 0 {
                    BoardAsk::Copy { lock: s }
                } else {
                    self.back_off()
                }
            },
            BoardEvent::Copied { lock, again } => {
                if again == lock {
                    BoardAsk::Value
                } else {
                    // The writer raced us.
                    self.back_off()
                }
            },
            BoardEvent::Clock { now_ns } => {
                let since: u64 = match self.stalled_since_ns {
                    Some(ns) => ns,
                    None => now_ns,
                };
                self.stalled_since_ns = Some(since);
                if now_ns.saturating_sub(since) > STALL_TIMEOUT_NS {
                    BoardAsk::Stalled
                } else {
                    BoardAsk::Yield
                }
            },
        }
    }
}

/// Consumer for reading from a Blackboard state table.
#[derive(Debug)]
pub struct BlackboardConsumer<V> {
    pub slot_count: usize,
    pub marker: PhantomData<V>,
}

impl<V: Copy> BlackboardConsumer<V> {
    /// Attaches to an existing Blackboard table.
    pub fn attach(b: &Blackboard<V>) -> (r: Result<Self, RingfireError>)
        requires
            board_slot_bytes::<V>() <= usize::MAX,
        ensures
            r is Ok <==> valid_board(
                b.header,
                b.len as int,
                vstd::layout::size_of::<V>() as int,
                board_slot_bytes::<V>(),
            ),
            match r {
                Ok(c) => c.slot_count == b.header.slot_count,
                Err(e) => board_refusal(
                    b.header,
                    b.len as int,
                    vstd::layout::size_of::<V>() as int,
                    board_slot_bytes::<V>(),
                    e,
                ),
            },
    {
        let value_size: usize = core::mem::size_of::<V>();
        let slot_size: usize = board_slot_size_of::<V>();
        match b.header.validate(b.len, value_size, slot_size) {
            Ok(_) => Ok(
                BlackboardConsumer {
                    slot_count: b.header.slot_count as usize,
                    marker: PhantomData,
                },
            ),
            Err(e) => Err(e),
        }
    }

    /// Reads the value for `key`, validated by the seqlock.
    /// Returns `None` if the slot has never been written, and
    /// [`RingfireError::WriterStalled`] if the slot stays mid-write (the writer was
    /// descheduled for too long or died mid-update).
    pub fn read(&self, b: &Blackboard<V>, key: usize) -> (r: Result<Option<V>, RingfireError>)
        requires
            b.wf(),
            self.slot_count == b.slots@.len(),
        ensures
            r is Ok <==> key < b.slots@.len() && !b.mid_write(key as int),
            match r {
                Ok(v) => v == b.value(key as int),
                Err(e) => e == (if key >= b.slots@.len() {
                    RingfireError::KeyOutOfRange { key, capacity: self.slot_count }
                } else {
                    RingfireError::WriterStalled { key }
                }),
            },
            forall|writes: Seq<(usize, V)>| #[trigger]
                b.holds_writes(writes) && key < b.slots@.len() ==> r == Ok::<
                    Option<V>,
                    RingfireError,
                >(last_write(writes, key as int)),
    {
        if key >= self.slot_count {
            return Err(RingfireError::KeyOutOfRange { key, capacity: self.slot_count });
        }
        let slot = b.slots[key];
        assert(b.slots@[key as int] == slot);
        let mut read = BoardRead::new();
        match read.step(BoardEvent::Lock(slot.seqlock)) {
            BoardAsk::Unwritten => Ok(None),
            BoardAsk::Copy { lock } => {
                let val = slot.value;
                match read.step(BoardEvent::Copied { lock, again: slot.seqlock }) {
                    BoardAsk::Value => Ok(val),
                    _ => Err(RingfireError::WriterStalled { key }),
                }
            },
            // Nobody is at work on this table: a slot that is mid-write stays so.
            _ => Err(RingfireError::WriterStalled { key }),
        }
    }

    /// Reads the value directly into `out`. Returns `true` if read, `false` if unwritten.
    pub fn read_copy(&self, b: &Blackboard<V>, key: usize, out: &mut V) -> (r: Result<
        bool,
        RingfireError,
    >)
        requires
            b.wf(),
            self.slot_count == b.slots@.len(),
        ensures
            r is Ok <==> key < b.slots@.len() && !b.mid_write(key as int),
            match r {
                Ok(done) => done == (b.value(key as int) is Some) && *final(out) == (match b.value(
                    key as int,
                ) {
                    Some(v) => v,
                    None => *old(out),
                }),
                Err(e) => *final(out) == *old(out) && e == (if key >= b.slots@.len() {
                    RingfireError::KeyOutOfRange { key, capacity: self.slot_count }
                } else {
                    RingfireError::WriterStalled { key }
                }),
            },
    {
        match self.read(b, key) {
            Ok(Some(val)) => {
                *out = val;
                Ok(true)
            },
            Ok(None) => Ok(false),
            Err(e) => Err(e),
        }
    }

    /// Number of slots in the blackboard.
    pub fn slot_count(&self) -> (r: usize)
        ensures
            r == self.slot_count,
    {
        self.slot_count
    }
}

/// A table slot at one moment: its seqlock, and the words of its value.
pub struct BoardMoment<W> {
    pub lock: u64,
    pub words: Seq<W>,
}

/// The life of a table slot: the seqlock never falls, and the value changes only while it is
/// odd.
pub open spec fn board_history<W>(h: Seq<BoardMoment<W>>) -> bool {
    forall|i: int|
        0 <= i && i + 1 < h.len() ==> {
            let a = #[trigger] h[i];
            let b = h[i + 1];
            &&& b.lock >= a.lock
            &&& b.words.len() == a.words.len()
            &&& b.words != a.words ==> a.lock % 2 == 1 && b.lock == a.lock
        }
}

proof fn lemma_board_held<W>(h: Seq<BoardMoment<W>>, t1: int, t: int, t2: int)
    requires
        board_history(h),
        0 <= t1 <= t <= t2 < h.len(),
        h[t1].lock == h[t2].lock,
        h[t1].lock % 2 == 0,
    ensures
        h[t] == h[t1],
    decreases t - t1,
{
    lemma_board_rises(h, t1, t);
    lemma_board_rises(h, t, t2);
    if t > t1 {
        lemma_board_held(h, t1, t - 1, t2);
        assert(h[t - 1 + 1].words == h[t - 1].words);
    }
}

proof fn lemma_board_rises<W>(h: Seq<BoardMoment<W>>, i: int, j: int)
    requires
        board_history(h),
        0 <= i <= j < h.len(),
    ensures
        h[i].lock <= h[j].lock,
    decreases j - i,
{
    if i < j {
        assert(h[i + 1].lock >= h[i].lock);
        lemma_board_rises(h, i + 1, j);
    }
}

/// No torn reads. Whatever writers do meanwhile, a reader that finds the same even seqlock
/// before (`t1`) and after (`t2`) copying the value word by word has copied one consistent
/// value.
pub proof fn lemma_board_no_torn_read<W>(
    h: Seq<BoardMoment<W>>,
    t1: int,
    t2: int,
    read_at: Seq<int>,
    copy: Seq<W>,
)
    requires
        board_history(h),
        0 <= t1 <= t2 < h.len(),
        h[t1].lock == h[t2].lock,
        h[t1].lock % 2 == 0,
        read_at.len() == h[t1].words.len(),
        copy.len() == h[t1].words.len(),
        forall|k: int|
            0 <= k < copy.len() ==> t1 <= #[trigger] read_at[k] <= t2 && copy[k]
                == h[read_at[k]].words[k],
    ensures
        copy == h[t1].words,
{
    assert forall|k: int| 0 <= k < copy.len() implies copy[k] == h[t1].words[k] by {
        lemma_board_held(h, t1, read_at[k], t2);
    }
    assert(copy =~= h[t1].words);
}

/// The stores of [`BlackboardProducer::write`] keep to that life: seqlock, value, seqlock.
pub proof fn lemma_write_is_board_history<W>(s: u64, before: Seq<W>, after: Seq<W>)
    requires
        s <= u64::MAX - 3,
        after.len() == before.len(),
    ensures
        board_history(
            seq![
                BoardMoment { lock: s, words: before },
                BoardMoment { lock: lock_of(s) as u64, words: before },
                BoardMoment { lock: lock_of(s) as u64, words: after },
                BoardMoment { lock: (lock_of(s) + 1) as u64, words: after },
            ],
        ),
{
}

/// A write to one key leaves the values of all other keys as they are.
pub proof fn lemma_write_touches_one_key<V>(
    a: &Blackboard<V>,
    b: &Blackboard<V>,
    key: int,
    s: BlackboardSlot<V>,
    other: int,
)
    requires
        0 <= key < a.slots@.len(),
        0 <= other < a.slots@.len(),
        other != key,
        b.slots@ == a.slots@.update(key, s),
    ensures
        b.value(other) == a.value(other),
        b.mid_write(other) == a.mid_write(other),
{
}

/// What the last write to a key is: if there was one, a write to that key that no later write to
/// it follows; else there was none.
pub proof fn lemma_last_write_is_last<V>(writes: Seq<(usize, V)>, key: int, j: int)
    ensures
        0 <= j < writes.len() && writes[j].0 == key ==> last_write(writes, key) is Some,
        last_write(writes, key) matches Some(v) ==> exists|i: int|
            0 <= i < writes.len() && (#[trigger] writes[i]).0 == key && writes[i].1 == v && (
            forall|k: int| i < k < writes.len() ==> (#[trigger] writes[k]).0 != key),
    decreases writes.len(),
{
    if writes.len() > 0 {
        let rest = writes.drop_last();
        let last = writes.len() - 1;
        assert(writes[last] == writes.last());
        lemma_last_write_is_last(rest, key, j);
        if 0 <= j < last {
            assert(rest[j] == writes[j]);
        }
        if writes.last().0 != key && last_write(rest, key) is Some {
            let v = last_write(rest, key)->0;
            let i = choose|i: int|
                0 <= i < rest.len() && (#[trigger] rest[i]).0 == key && rest[i].1 == v && (
                forall|k: int| i < k < rest.len() ==> (#[trigger] rest[k]).0 != key);
            assert(writes[i] == rest[i]);
            assert forall|k: int| i < k < writes.len() implies (#[trigger] writes[k]).0 != key by {
                if k < last {
                    assert(rest[k] == writes[k]);
                }
            }
        }
    }
}

/// While a write is in progress the seqlock is odd, and higher than any that was seen before;
/// afterwards it is even and higher still. A slot whose writer died mid-update can be written to
/// again.
pub proof fn lemma_seqlock_rises(s: u64)
    requires
        s <= u64::MAX - 3,
    ensures
        s < lock_of(s) <= s + 2,
        lock_of(s) % 2 == 1,
        (lock_of(s) + 1) % 2 == 0,
        lock_of(s) + 1 <= u64::MAX,
{
}

/// What a reader makes of a seqlock: 0 means that nothing was ever written; under an even number
/// it copies, and takes the copy only if the number is still the same; under an odd number it
/// waits. It gives up only once the writer has stalled for more than 100 ms by the clock, which
/// it first reads after 10,000 vain looks.
pub proof fn lemma_board_read_laws(r: BoardRead, e: BoardEvent)
    ensures
        ({
            let (n, a) = r.after(e);
            &&& a is Unwritten <==> e == BoardEvent::Lock(0)
            &&& a is Copy <==> (e matches BoardEvent::Lock(s) && s != 0 && s % 2 == 0)
            &&& a matches BoardAsk::Copy { lock } ==> e == BoardEvent::Lock(lock)
            &&& a is Value <==> (e matches BoardEvent::Copied { lock, again } && lock == again)
            &&& a is Stalled <==> (e matches BoardEvent::Clock { now_ns } && (
            r.stalled_since_ns matches Some(since) && now_ns > since + 100_000_000))
            &&& e is Clock ==> n.stalled_since_ns is Some && n.spins == r.spins && (
            r.stalled_since_ns is Some ==> n.stalled_since_ns == r.stalled_since_ns)
            &&& e matches BoardEvent::Clock { now_ns } ==> r.stalled_since_ns is None
                ==> n.stalled_since_ns == Some(now_ns)
            &&& a is Spin ==> n.spins < 10_000 && n.spins == r.spins + 1
            &&& a is ReadClock ==> n.spins >= 10_000
            &&& !(e is Clock) ==> n.stalled_since_ns == r.stalled_since_ns
        }),
{
}

/// Every slot of a table that is accepted lies inside its mapping, and the table is one of values
/// of that size.
pub proof fn lemma_valid_board_slots_inside(
    h: BlackboardHeader,
    len: int,
    value_size: int,
    slot_size: int,
    key: int,
)
    requires
        valid_board(h, len, value_size, slot_size),
        0 <= key < h.slot_count,
    ensures
        128 + key * h.slot_size + h.slot_size <= len,
        h.value_size == value_size,
        h.slot_size == slot_size,
        h.magic == BLACKBOARD_MAGIC,
        h.version == BLACKBOARD_VERSION,
{
    assert(key * h.slot_size + h.slot_size <= h.slot_count * h.slot_size) by (nonlinear_arith)
        requires
            key + 1 <= h.slot_count,
            h.slot_size >= 0,
    ;
}

/// A table is accepted if nothing is wrong with it, and only then: each of its numbers is as it
/// should be, and its slots end inside the mapping.
pub proof fn lemma_board_acceptance(
    h: BlackboardHeader,
    len: int,
    value_size: int,
    slot_size: int,
    e: RingfireError,
)
    ensures
        valid_board(h, len, value_size, slot_size) <==> len >= 128 && h.magic == BLACKBOARD_MAGIC
            && h.version == BLACKBOARD_VERSION && h.value_size == value_size && h.slot_size
            == slot_size && 128 + h.slot_count * h.slot_size <= len,
        len >= 128 && h.magic != BLACKBOARD_MAGIC && board_refusal(
            h,
            len,
            value_size,
            slot_size,
            e,
        ) ==> e == (RingfireError::InvalidMagic { expected: BLACKBOARD_MAGIC, actual: h.magic }),
{
}

/// A slot of a table has room for the lock word and the value behind it, and takes whole cache
/// lines; the table is its header and its slots.
pub proof fn lemma_board_slot_size<V>(slot_count: usize)
    ensures
        ({
            let size = vstd::layout::size_of::<V>() as int;
            let align = vstd::layout::align_of::<V>() as int;
            let slot = board_slot_bytes::<V>();
            &&& align <= 64 ==> slot % 64 == 0 && slot < 8 + align + size + 64
            &&& align > 64 ==> slot % align == 0 && slot < 8 + align + size + align
            &&& slot >= 8 + size
            &&& board_bytes::<V>(slot_count) == 128 + slot_count * slot
        }),
{
    broadcast use vstd::layout::align_nonzero;

    let size = vstd::layout::size_of::<V>() as int;
    let align = vstd::layout::align_of::<V>() as int;
    lemma_round_up(8, align);
    lemma_round_up(round_up(8, align) + size, board_align::<V>());
}

/// Where the numbers of a table's header stand, and what its slots say: a key has a value once
/// its lock word has moved, and is being written while that word is odd.
pub proof fn lemma_board_bytes<V>(s: Seq<u8>, b: &Blackboard<V>, key: int)
    ensures
        board_header_at(s).magic == le64(s, 0),
        board_header_at(s).version == le32(s, 8),
        board_header_at(s).value_size == le32(s, 12),
        board_header_at(s).slot_size == le32(s, 16),
        board_header_at(s).slot_count == le32(s, 20),
        b.slots@[key].seqlock == 0 ==> b.value(key) is None,
        b.slots@[key].seqlock != 0 ==> b.value(key) == b.slots@[key].value,
        b.mid_write(key) <==> b.slots@[key].seqlock % 2 == 1,
{
}

} // verus!
