//! # ReaderRegistry & Reader Tracking
//!
//! Shared-memory registry for monitoring active consumers, tracking reader lag,
//! calculating safe write headroom, and automatically reclaiming dead processes.
//!
//! Whether a process is alive is an observation that the caller makes: the functions take
//! the pids of the running processes.
use crate::error::RingfireError;
use crate::header::ReaderSlot;
use vstd::prelude::*;
use vstd::slice::slice_subrange;
use vstd::utf8::{decode_utf8, encode_utf8, valid_utf8};

verus! {

pub const DEFAULT_MAX_READERS: usize = 32;

/// Bytes of a reader's name that are kept; the field's last byte stays 0.
pub const NAME_BYTES: usize = 31;

/// Snapshot of an active reader's status for monitoring.
#[derive(Debug, Clone, PartialEq, Eq)]
pub struct ReaderInfo {
    pub slot_index: usize,
    pub pid: u32,
    pub name: String,
    pub cursor_seq: u64,
    pub lag: u64,
}

/// What `String::from_utf8_lossy` makes of `bytes`.
pub uninterp spec fn lossy_text(bytes: Seq<u8>) -> Seq<char>;

/// `String::from_utf8_lossy`, as an owned string: a function of the bytes alone, and for
/// bytes that are valid UTF-8 the text that they encode.
#[verifier::external_body]
pub(crate) fn text_lossy(bytes: &[u8]) -> (s: String)
    ensures
        s@ == lossy_text(bytes@),
        valid_utf8(bytes@) ==> s@ == decode_utf8(bytes@),
{
    String::from_utf8_lossy(bytes).into_owned()
}

/// Whether the slot's owner is running.
pub open spec fn alive(s: ReaderSlot, live: Seq<u32>) -> bool {
    live.contains(s.pid)
}

/// An active reader whose process is running.
pub open spec fn counted(s: ReaderSlot, live: Seq<u32>) -> bool {
    s.active == 1 && alive(s, live)
}

/// An active reader whose process is gone.
pub open spec fn stale(s: ReaderSlot, live: Seq<u32>) -> bool {
    s.active == 1 && !alive(s, live)
}

/// A slot that a new reader may take: free, or left behind by a dead process.
pub open spec fn available(s: ReaderSlot, live: Seq<u32>) -> bool {
    s.pid == 0 || !alive(s, live)
}

/// The slot once its reader is gone.
pub open spec fn vacated(s: ReaderSlot) -> ReaderSlot {
    ReaderSlot { active: 0, pid: 0, ..s }
}

/// The slots once the active readers of dead processes are removed.
pub open spec fn swept(slots: Seq<ReaderSlot>, live: Seq<u32>) -> Seq<ReaderSlot> {
    slots.map_values(
        |s: ReaderSlot|
            if stale(s, live) {
                vacated(s)
            } else {
                s
            },
    )
}

/// The slots once every slot of a dead process is free.
pub open spec fn pruned(slots: Seq<ReaderSlot>, live: Seq<u32>) -> Seq<ReaderSlot> {
    slots.map_values(
        |s: ReaderSlot|
            if s.pid != 0 && !alive(s, live) {
                vacated(s)
            } else {
                s
            },
    )
}

/// How many slots belong to dead processes.
pub open spec fn dead_slots(slots: Seq<ReaderSlot>, live: Seq<u32>) -> nat
    decreases slots.len(),
{
    if slots.len() == 0 {
        0
    } else {
        dead_slots(slots.drop_last(), live) + (if slots.last().pid != 0 && !alive(
            slots.last(),
            live,
        ) {
            1nat
        } else {
            0nat
        })
    }
}

/// `m` is the smallest cursor of the active readers that run, if there are any.
pub open spec fn slowest(slots: Seq<ReaderSlot>, live: Seq<u32>, m: Option<u64>) -> bool {
    match m {
        None => forall|i: int| 0 <= i < slots.len() ==> !counted(#[trigger] slots[i], live),
        Some(v) => {
            &&& exists|i: int|
                0 <= i < slots.len() && counted(#[trigger] slots[i], live) && slots[i].cursor_seq
                    == v
            &&& forall|i: int|
                0 <= i < slots.len() && counted(#[trigger] slots[i], live) ==> v
                    <= slots[i].cursor_seq
        },
    }
}

/// `m` is the smallest cursor of the active readers, if there are any.
pub open spec fn slowest_active(slots: Seq<ReaderSlot>, m: Option<u64>) -> bool {
    match m {
        None => forall|i: int| 0 <= i < slots.len() ==> (#[trigger] slots[i]).active != 1,
        Some(v) => {
            &&& exists|i: int|
                0 <= i < slots.len() && (#[trigger] slots[i]).active == 1 && slots[i].cursor_seq
                    == v
            &&& forall|i: int|
                0 <= i < slots.len() && (#[trigger] slots[i]).active == 1 ==> v
                    <= slots[i].cursor_seq
        },
    }
}

/// The smallest cursor of the active readers, `None` if there are none.
pub open spec fn min_active(slots: Seq<ReaderSlot>) -> Option<u64>
    decreases slots.len(),
{
    if slots.len() == 0 {
        None
    } else {
        let rest = min_active(slots.drop_last());
        if slots.last().active != 1 {
            rest
        } else if rest is Some && rest->0 <= slots.last().cursor_seq {
            rest
        } else {
            Some(slots.last().cursor_seq)
        }
    }
}

/// `min_active` is the smallest cursor of the active readers.
pub proof fn lemma_min_active(slots: Seq<ReaderSlot>)
    ensures
        slowest_active(slots, min_active(slots)),
    decreases slots.len(),
{
    if slots.len() > 0 {
        let rest = slots.drop_last();
        lemma_min_active(rest);
        let m = min_active(rest);
        assert forall|i: int| 0 <= i < rest.len() implies #[trigger] slots[i] == rest[i] by {}
        if m is Some {
            let w = choose|w: int|
                0 <= w < rest.len() && (#[trigger] rest[w]).active == 1 && rest[w].cursor_seq
                    == m->0;
            assert(slots[w].active == 1 && slots[w].cursor_seq == m->0);
        }
        let last = slots.len() - 1;
        assert(slots[last] == slots.last());
        assert forall|i: int| 0 <= i < slots.len() && (#[trigger] slots[i]).active == 1 implies (
        min_active(slots) is Some && min_active(slots)->0 <= slots[i].cursor_seq) by {
            if i < last {
                assert(rest[i].active == 1);
            }
        }
    }
}

/// `write_seq - cursor`, or 0 where the cursor is ahead.
pub open spec fn lag_behind(write_seq: u64, cursor: u64) -> u64 {
    if write_seq >= cursor {
        (write_seq - cursor) as u64
    } else {
        0
    }
}

/// The field that a name is stored in: its first 31 bytes, then zeros.
pub open spec fn name_field(name: Seq<u8>) -> Seq<u8> {
    Seq::new(
        32,
        |i: int|
            if i < NAME_BYTES && i < name.len() {
                name[i]
            } else {
                0u8
            },
    )
}

/// Number of bytes before the first zero byte.
pub open spec fn before_zero(s: Seq<u8>) -> nat
    decreases s.len(),
{
    if s.len() == 0 || s[0] == 0 {
        0
    } else {
        1 + before_zero(s.drop_first())
    }
}

/// The name that a field holds.
pub open spec fn name_text(field: Seq<u8>) -> Seq<char> {
    lossy_text(field.take(before_zero(field) as int))
}

/// What is reported of the reader in slot `i`.
pub open spec fn describes(info: ReaderInfo, s: ReaderSlot, i: int, write_seq: u64) -> bool {
    &&& info.slot_index == i
    &&& info.pid == s.pid
    &&& info.name@ == name_text(s.name@)
    &&& info.cursor_seq == s.cursor_seq
    &&& info.lag == lag_behind(write_seq, s.cursor_seq)
}

/// The indices of the active readers that run, in order.
pub open spec fn counted_indices(slots: Seq<ReaderSlot>, live: Seq<u32>) -> Seq<int>
    decreases slots.len(),
{
    if slots.len() == 0 {
        Seq::empty()
    } else if counted(slots.last(), live) {
        counted_indices(slots.drop_last(), live).push(slots.len() - 1)
    } else {
        counted_indices(slots.drop_last(), live)
    }
}

/// `out` reports the readers in the slots `at`, one for one.
pub open spec fn reports(
    out: Seq<ReaderInfo>,
    at: Seq<int>,
    slots: Seq<ReaderSlot>,
    write_seq: u64,
) -> bool {
    &&& out.len() == at.len()
    &&& forall|k: int|
        #![trigger out[k]]
        #![trigger at[k]]
        0 <= k < out.len() ==> 0 <= at[k] < slots.len() && describes(
            out[k],
            slots[at[k]],
            at[k],
            write_seq,
        )
}

/// A slot that was never used.
pub open spec fn blank(s: ReaderSlot) -> bool {
    &&& s.pid == 0
    &&& s.active == 0
    &&& s.cursor_seq == 0
    &&& s.heartbeat_tsc == 0
    &&& s.name@ == Seq::new(32, |i: int| 0u8)
}

/// The slots `b` are the slots `a` once a reader of process `pid` has registered in slot `i`,
/// the first that is available, under `name` and at `cursor`.
pub open spec fn registered(
    a: Seq<ReaderSlot>,
    b: Seq<ReaderSlot>,
    i: int,
    name: Seq<u8>,
    cursor: u64,
    pid: u32,
    live: Seq<u32>,
) -> bool {
    &&& 0 <= i < a.len()
    &&& available(a[i], live)
    &&& forall|j: int| 0 <= j < i ==> !available(#[trigger] a[j], live)
    &&& b == a.update(i, b[i])
    &&& b[i].pid == pid
    &&& b[i].active == 1
    &&& b[i].cursor_seq == cursor
    &&& b[i].heartbeat_tsc == 0
    &&& b[i].name@ == name_field(name)
}

/// Whether `pid` is one of `live`.
pub fn is_listed(live: &[u32], pid: u32) -> (r: bool)
    ensures
        r == live@.contains(pid),
{
    let mut i: usize = 0;
    while i < live.len()
        invariant
            i <= live@.len(),
            forall|j: int| 0 <= j < i ==> live@[j] != pid,
        decreases live@.len() - i,
    {
        if live[i] == pid {
            return true;
        }
        i = i + 1;
    }
    false
}

/// Number of bytes of a name field before its first zero byte.
fn field_len(field: &[u8]) -> (n: usize)
    ensures
        n == before_zero(field@),
        n <= field@.len(),
{
    let mut i: usize = 0;
    assert(field@.skip(0) =~= field@);
    while i < field.len()
        invariant
            i <= field@.len(),
            before_zero(field@) == i + before_zero(field@.skip(i as int)),
        decreases field@.len() - i,
    {
        proof {
            assert(field@.skip(i as int).drop_first() =~= field@.skip(i + 1));
        }
        if field[i] == 0 {
            return i;
        }
        i = i + 1;
    }
    i
}

/// The name that a field of a reader slot holds.
pub fn read_name(field: &[u8]) -> (s: String)
    ensures
        s@ == name_text(field@),
        valid_utf8(field@.take(before_zero(field@) as int)) ==> s@ == decode_utf8(
            field@.take(before_zero(field@) as int),
        ),
{
    let n: usize = field_len(field);
    proof {
        assert(field@.subrange(0, n as int) =~= field@.take(n as int));
    }
    text_lossy(slice_subrange(field, 0, n))
}

/// The 32-byte field that holds `name`, cut to 31 bytes.
pub fn make_name(name: &str) -> (field: [u8; 32])
    ensures
        field@ == name_field(encode_utf8(name@)),
{
    let bytes = name.as_bytes();
    let mut field: [u8; 32] = [0u8;32];
    let mut i: usize = 0;
    while i < NAME_BYTES && i < bytes.len()
        invariant
            bytes@ == encode_utf8(name@),
            i <= NAME_BYTES,
            i <= bytes@.len(),
            forall|j: int| 0 <= j < i ==> field@[j] == bytes@[j],
            forall|j: int| i <= j < 32 ==> field@[j] == 0,
        decreases NAME_BYTES - i,
    {
        field[i] = bytes[i];
        i = i + 1;
    }
    proof {
        assert(field@ =~= name_field(encode_utf8(name@)));
    }
    field
}

/// Shared memory registry holding reader registration slots.
#[derive(Debug)]
pub struct ReaderRegistry {
    pub slots: Vec<ReaderSlot>,
}

impl ReaderRegistry {
    /// A registry of `count` free slots.
    pub fn init(count: usize) -> (r: Self)
        ensures
            r.slots@.len() == count,
            forall|i: int| 0 <= i < count ==> blank(#[trigger] r.slots@[i]),
            forall|i: int|
                0 <= i < count ==> (#[trigger] r.slots@[i]).pid == 0 && r.slots@[i].active == 0
                    && r.slots@[i].cursor_seq == 0,
    {
        let mut slots: Vec<ReaderSlot> = Vec::new();
        let mut i: usize = 0;
        while i < count
            invariant
                i <= count,
                slots@.len() == i,
                forall|j: int| 0 <= j < i ==> blank(#[trigger] slots@[j]),
            decreases count - i,
        {
            let name: [u8; 32] = [0u8;32];
            assert(name@ =~= Seq::new(32, |k: int| 0u8));
            slots.push(
                ReaderSlot { pid: 0, active: 0, cursor_seq: 0, heartbeat_tsc: 0, name },
            );
            i = i + 1;
        }
        ReaderRegistry { slots }
    }

    /// Total number of reader slots.
    pub fn capacity(&self) -> (n: usize)
        ensures
            n == self.slots@.len(),
    {
        self.slots.len()
    }

    /// The first slot at or behind `from` that a new reader may take: a free slot, or one
    /// that a dead process left behind.
    pub fn find_available(&self, from: usize, live: &[u32]) -> (r: Option<usize>)
        ensures
            match r {
                Some(i) => {
                    &&& from <= i < self.slots@.len()
                    &&& available(self.slots@[i as int], live@)
                    &&& forall|j: int|
                        from <= j < i ==> !available(#[trigger] self.slots@[j], live@)
                },
                None => forall|j: int|
                    from <= j < self.slots@.len() ==> !available(
                        #[trigger] self.slots@[j],
                        live@,
                    ),
            },
    {
        let mut i: usize = from;
        while i < self.slots.len()
            invariant
                from <= i,
                forall|j: int| from <= j < i ==> !available(#[trigger] self.slots@[j], live@),
            decreases self.slots@.len() - i,
        {
            let pid: u32 = self.slots[i].pid;
            if pid == 0 || !is_listed(live, pid) {
                return Some(i);
            }
            i = i + 1;
        }
        None
    }

    /// Register a new reader of process `pid` in the first available slot.
    pub fn register(&mut self, name: &str, initial_cursor: u64, pid: u32, live: &[u32]) -> (r:
        Result<ReaderRegistration, RingfireError>)
        ensures
            match r {
                Ok(reg) => registered(
                    old(self).slots@,
                    final(self).slots@,
                    reg.slot_index as int,
                    encode_utf8(name@),
                    initial_cursor,
                    pid,
                    live@,
                ),
                Err(e) => {
                    &&& e == RingfireError::NoAvailableReaderSlots
                    &&& forall|j: int|
                        0 <= j < old(self).slots@.len() ==> !available(
                            #[trigger] old(self).slots@[j],
                            live@,
                        )
                    &&& *final(self) == *old(self)
                },
            },
    {
        match self.find_available(0, live) {
            Some(i) => {
                let slot = ReaderSlot {
                    pid,
                    active: 1,
                    cursor_seq: initial_cursor,
                    heartbeat_tsc: 0,
                    name: make_name(name),
                };
                self.slots.set(i, slot);
                Ok(ReaderRegistration { slot_index: i })
            },
            None => Err(RingfireError::NoAvailableReaderSlots),
        }
    }

    /// Find the minimum sequence cursor across all active, alive readers. Readers whose
    /// process is gone are removed on the way.
    pub fn min_reader_seq(&mut self, live: &[u32]) -> (m: Option<u64>)
        ensures
            slowest(old(self).slots@, live@, m),
            final(self).slots@ == swept(old(self).slots@, live@),
    {
        let mut min_seq: Option<u64> = None;
        let ghost before = self.slots@;
        let mut i: usize = 0;
        while i < self.slots.len()
            invariant
                i <= self.slots@.len(),
                self.slots@.len() == before.len(),
                slowest(before.take(i as int), live@, min_seq),
                forall|j: int|
                    0 <= j < before.len() ==> #[trigger] self.slots@[j] == (if j < i && stale(
                        before[j],
                        live@,
                    ) {
                        vacated(before[j])
                    } else {
                        before[j]
                    }),
            decreases self.slots@.len() - i,
        {
            let slot = self.slots[i];
            let ghost prefix = before.take(i as int);
            let ghost next = before.take(i + 1);
            let ghost last_min = min_seq;
            assert(slot == before[i as int]);
            if slot.active == 1 {
                if is_listed(live, slot.pid) {
                    let seq: u64 = slot.cursor_seq;
                    min_seq = match min_seq {
                        Some(curr) => Some(
                            if curr <= seq {
                                curr
                            } else {
                                seq
                            },
                        ),
                        None => Some(seq),
                    };
                } else {
                    self.slots.set(i, ReaderSlot { active: 0, pid: 0, ..slot });
                }
            }
            proof {
                assert(forall|j: int| 0 <= j < i ==> next[j] == prefix[j]);
                assert(next[i as int] == before[i as int]);
                if counted(slot, live@) {
                    let v = min_seq->0;
                    if last_min is Some && v == last_min->0 {
                        let w = choose|w: int|
                            0 <= w < prefix.len() && counted(#[trigger] prefix[w], live@)
                                && prefix[w].cursor_seq == v;
                        assert(counted(next[w], live@) && next[w].cursor_seq == v);
                    } else {
                        assert(counted(next[i as int], live@) && next[i as int].cursor_seq == v);
                    }
                    assert forall|j: int|
                        0 <= j < next.len() && counted(#[trigger] next[j], live@) implies v
                        <= next[j].cursor_seq by {
                        if j < i {
                            assert(counted(prefix[j], live@));
                        }
                    }
                } else {
                    match last_min {
                        Some(v) => {
                            let w = choose|w: int|
                                0 <= w < prefix.len() && counted(#[trigger] prefix[w], live@)
                                    && prefix[w].cursor_seq == v;
                            assert(counted(next[w], live@) && next[w].cursor_seq == v);
                            assert forall|j: int|
                                0 <= j < next.len() && counted(#[trigger] next[j], live@) implies v
                                <= next[j].cursor_seq by {
                                if j < i {
                                    assert(counted(prefix[j], live@));
                                }
                            }
                        },
                        None => {
                            assert forall|j: int| 0 <= j < next.len() implies !counted(
                                #[trigger] next[j],
                                live@,
                            ) by {
                                if j < i {
                                    assert(!counted(prefix[j], live@));
                                }
                            }
                        },
                    }
                }
            }
            i = i + 1;
        }
        proof {
            assert(before.take(i as int) =~= before);
            assert(self.slots@ =~= swept(before, live@));
        }
        min_seq
    }

    /// The minimum cursor of the active readers, whether or not their processes run.
    pub fn min_cursor(&self) -> (m: Option<u64>)
        ensures
            m == min_active(self.slots@),
            slowest_active(self.slots@, m),
    {
        let mut min_seq: Option<u64> = None;
        let mut i: usize = 0;
        while i < self.slots.len()
            invariant
                i <= self.slots@.len(),
                min_seq == min_active(self.slots@.take(i as int)),
            decreases self.slots@.len() - i,
        {
            let slot = self.slots[i];
            proof {
                let next = self.slots@.take(i + 1);
                assert(next.drop_last() =~= self.slots@.take(i as int));
                assert(next.last() == slot);
            }
            if slot.active == 1 {
                let seq: u64 = slot.cursor_seq;
                min_seq = match min_seq {
                    Some(curr) => Some(
                        if curr <= seq {
                            curr
                        } else {
                            seq
                        },
                    ),
                    None => Some(seq),
                };
            }
            i = i + 1;
        }
        proof {
            assert(self.slots@.take(i as int) =~= self.slots@);
            lemma_min_active(self.slots@);
        }
        min_seq
    }

    /// Calculate the lag of the slowest active reader relative to `write_seq`.
    pub fn reader_lag(&mut self, write_seq: u64, live: &[u32]) -> (lag: u64)
        ensures
            exists|m: Option<u64>| #[trigger]
                slowest(old(self).slots@, live@, m) && lag == (match m {
                    Some(v) => lag_behind(write_seq, v),
                    None => 0,
                }),
            final(self).slots@ == swept(old(self).slots@, live@),
    {
        let m = self.min_reader_seq(live);
        assert(slowest(old(self).slots@, live@, m));
        match m {
            Some(min_seq) => write_seq.saturating_sub(min_seq),
            None => 0,
        }
    }

    /// Calculate how many messages the writer can write before the slowest active reader is
    /// lapped.
    pub fn headroom(&mut self, write_seq: u64, ring_capacity: u64, live: &[u32]) -> (n: u64)
        ensures
            exists|m: Option<u64>| #[trigger]
                slowest(old(self).slots@, live@, m) && n == (match m {
                    Some(v) => lag_behind(ring_capacity, lag_behind(write_seq, v)),
                    None => ring_capacity,
                }),
            final(self).slots@ == swept(old(self).slots@, live@),
    {
        let m = self.min_reader_seq(live);
        assert(slowest(old(self).slots@, live@, m));
        match m {
            Some(min_seq) => {
                let lag: u64 = write_seq.saturating_sub(min_seq);
                ring_capacity.saturating_sub(lag)
            },
            None => ring_capacity,
        }
    }

    /// List all currently active readers and their lag. Readers whose process is gone are
    /// removed on the way.
    pub fn active_readers(&mut self, write_seq: u64, live: &[u32]) -> (out: Vec<ReaderInfo>)
        ensures
            reports(
                out@,
                counted_indices(old(self).slots@, live@),
                old(self).slots@,
                write_seq,
            ),
            final(self).slots@ == swept(old(self).slots@, live@),
    {
        let mut out: Vec<ReaderInfo> = Vec::new();
        let ghost before = self.slots@;
        let mut i: usize = 0;
        while i < self.slots.len()
            invariant
                i <= self.slots@.len(),
                self.slots@.len() == before.len(),
                reports(out@, counted_indices(before.take(i as int), live@), before, write_seq),
                forall|j: int|
                    0 <= j < before.len() ==> #[trigger] self.slots@[j] == (if j < i && stale(
                        before[j],
                        live@,
                    ) {
                        vacated(before[j])
                    } else {
                        before[j]
                    }),
            decreases self.slots@.len() - i,
        {
            let slot = self.slots[i];
            assert(slot == before[i as int]);
            proof {
                let next = before.take(i + 1);
                assert(next.drop_last() =~= before.take(i as int));
                assert(next.last() == slot);
            }
            if slot.active == 1 {
                if is_listed(live, slot.pid) {
                    let name = read_name(slot.name.as_slice());
                    out.push(
                        ReaderInfo {
                            slot_index: i,
                            pid: slot.pid,
                            name,
                            cursor_seq: slot.cursor_seq,
                            lag: write_seq.saturating_sub(slot.cursor_seq),
                        },
                    );
                } else {
                    self.slots.set(i, ReaderSlot { active: 0, pid: 0, ..slot });
                }
            }
            i = i + 1;
        }
        proof {
            assert(before.take(i as int) =~= before);
            assert(self.slots@ =~= swept(before, live@));
        }
        out
    }

    /// Scan and clear any abandoned slots from dead processes. Returns how many there were.
    pub fn prune_dead_readers(&mut self, live: &[u32]) -> (n: usize)
        ensures
            n == dead_slots(old(self).slots@, live@),
            final(self).slots@ == pruned(old(self).slots@, live@),
    {
        let mut n: usize = 0;
        let ghost before = self.slots@;
        let mut i: usize = 0;
        while i < self.slots.len()
            invariant
                n <= i <= self.slots@.len(),
                self.slots@.len() == before.len(),
                n == dead_slots(before.take(i as int), live@),
                forall|j: int|
                    0 <= j < before.len() ==> #[trigger] self.slots@[j] == (if j < i
                        && before[j].pid != 0 && !alive(before[j], live@) {
                        vacated(before[j])
                    } else {
                        before[j]
                    }),
            decreases self.slots@.len() - i,
        {
            let slot = self.slots[i];
            assert(slot == before[i as int]);
            proof {
                let next = before.take(i + 1);
                assert(next.drop_last() =~= before.take(i as int));
                assert(next.last() == slot);
            }
            if slot.pid != 0 && !is_listed(live, slot.pid) {
                self.slots.set(i, ReaderSlot { active: 0, pid: 0, ..slot });
                n = n + 1;
            }
            i = i + 1;
        }
        proof {
            assert(before.take(i as int) =~= before);
            assert(self.slots@ =~= pruned(before, live@));
        }
        n
    }
}

/// Registration handle for a consumer in `ReaderRegistry`.
#[derive(Debug)]
pub struct ReaderRegistration {
    pub slot_index: usize,
}

impl ReaderRegistration {
    /// Update the reader's current sequence cursor.
    pub fn update_cursor(&self, registry: &mut ReaderRegistry, seq: u64)
        requires
            self.slot_index < old(registry).slots@.len(),
        ensures
            final(registry).slots@ == old(registry).slots@.update(
                self.slot_index as int,
                (ReaderSlot { cursor_seq: seq, ..old(registry).slots@[self.slot_index as int] }),
            ),
    {
        let slot = registry.slots[self.slot_index];
        registry.slots.set(self.slot_index, ReaderSlot { cursor_seq: seq, ..slot });
    }

    /// Index of this reader slot.
    pub fn slot_index(&self) -> (i: usize)
        ensures
            i == self.slot_index,
    {
        self.slot_index
    }

    /// Ends the registration: the slot is free again.
    pub fn release(self, registry: &mut ReaderRegistry)
        requires
            self.slot_index < old(registry).slots@.len(),
        ensures
            final(registry).slots@ == old(registry).slots@.update(
                self.slot_index as int,
                vacated(old(registry).slots@[self.slot_index as int]),
            ),
    {
        let slot = registry.slots[self.slot_index];
        registry.slots.set(self.slot_index, ReaderSlot { active: 0, pid: 0, ..slot });
    }
}

/// There is only one slowest reader's cursor.
pub proof fn lemma_slowest_unique(
    slots: Seq<ReaderSlot>,
    live: Seq<u32>,
    a: Option<u64>,
    b: Option<u64>,
)
    requires
        slowest(slots, live, a),
        slowest(slots, live, b),
    ensures
        a == b,
{
}

/// Sweeping changes nothing that a scan for the slowest reader sees, so a second scan finds
/// the same reader.
pub proof fn lemma_sweep_keeps_slowest(slots: Seq<ReaderSlot>, live: Seq<u32>, m: Option<u64>)
    requires
        slowest(slots, live, m),
    ensures
        slowest(swept(slots, live), live, m),
        swept(swept(slots, live), live) == swept(slots, live),
{
    let t = swept(slots, live);
    assert forall|i: int| 0 <= i < slots.len() implies counted(#[trigger] t[i], live) == counted(
        slots[i],
        live,
    ) && (counted(slots[i], live) ==> t[i] == slots[i]) by {}
    if m is Some {
        let w = choose|w: int|
            0 <= w < slots.len() && counted(#[trigger] slots[w], live) && slots[w].cursor_seq
                == m->0;
        assert(counted(t[w], live) && t[w].cursor_seq == m->0);
    }
    assert(swept(t, live) =~= t);
}

/// A reader that has registered counts: a scan by a process that sees it running finds a
/// slowest cursor, and that is not ahead of the reader's.
pub proof fn lemma_registered_reader_counts(
    slots: Seq<ReaderSlot>,
    live: Seq<u32>,
    i: int,
    m: Option<u64>,
)
    requires
        0 <= i < slots.len(),
        slots[i].active == 1,
        live.contains(slots[i].pid),
        slowest(slots, live, m),
    ensures
        m is Some,
        m->0 <= slots[i].cursor_seq,
{
    assert(counted(slots[i], live));
}

/// Once a reader's registration ends, its cursor no longer holds the writer back.
pub proof fn lemma_released_reader_does_not_count(
    slots: Seq<ReaderSlot>,
    live: Seq<u32>,
    i: int,
    m: Option<u64>,
)
    requires
        0 <= i < slots.len(),
        forall|j: int| 0 <= j < slots.len() && j != i ==> !counted(#[trigger] slots[j], live),
        slowest(slots.update(i, vacated(slots[i])), live, m),
    ensures
        m is None,
{
    let t = slots.update(i, vacated(slots[i]));
    assert forall|j: int| 0 <= j < t.len() implies !counted(#[trigger] t[j], live) by {
        if j != i {
            assert(t[j] == slots[j]);
        }
    }
}

/// What the processes that share a registry do to its slots.
pub enum RegistryEvent {
    /// [`ReaderRegistry::register`] by process `pid`, which gave slot `index`.
    Register { index: int, name: Seq<u8>, cursor: u64, pid: u32, live: Seq<u32> },
    /// [`ReaderRegistration::update_cursor`] of the reader in slot `index`.
    UpdateCursor { index: int, cursor: u64 },
    /// A scan for the slowest reader, for the lag, the headroom or the active readers.
    Scan { live: Seq<u32> },
    /// [`ReaderRegistry::prune_dead_readers`].
    Prune { live: Seq<u32> },
    /// [`ReaderRegistration::release`] of the reader in slot `index`.
    Release { index: int },
}

/// The event leads from the slots `a` to the slots `b`.
pub open spec fn registry_step(a: Seq<ReaderSlot>, e: RegistryEvent, b: Seq<ReaderSlot>) -> bool {
    match e {
        RegistryEvent::Register { index, name, cursor, pid, live } => registered(
            a,
            b,
            index,
            name,
            cursor,
            pid,
            live,
        ),
        RegistryEvent::UpdateCursor { index, cursor } => 0 <= index < a.len() && b == a.update(
            index,
            ReaderSlot { cursor_seq: cursor, ..a[index] },
        ),
        RegistryEvent::Scan { live } => b == swept(a, live),
        RegistryEvent::Prune { live } => b == pruned(a, live),
        RegistryEvent::Release { index } => 0 <= index < a.len() && b == a.update(
            index,
            vacated(a[index]),
        ),
    }
}

/// The life of a registry: its slots at one moment after another, and the events between them.
pub open spec fn registry_history(h: Seq<Seq<ReaderSlot>>, ev: Seq<RegistryEvent>) -> bool {
    &&& h.len() == ev.len() + 1
    &&& forall|t: int| 0 <= t < ev.len() ==> registry_step(h[t], #[trigger] ev[t], h[t + 1])
}

/// The event leaves the reader of process `pid` in slot `index` registered: it does not end that
/// registration, and whoever looks for dead processes sees that this one runs.
pub open spec fn keeps_reader(e: RegistryEvent, index: int, pid: u32) -> bool {
    match e {
        RegistryEvent::Register { live, .. } => live.contains(pid),
        RegistryEvent::UpdateCursor { .. } => true,
        RegistryEvent::Scan { live } => live.contains(pid),
        RegistryEvent::Prune { live } => live.contains(pid),
        RegistryEvent::Release { index: released } => released != index,
    }
}

/// A registration holds its slot: from the moment a running process `pid` has registered (event
/// `s`) until the registration ends, whatever others do, the slot stays that reader's, active
/// and under its process id.
pub proof fn lemma_registration_holds_slot(
    h: Seq<Seq<ReaderSlot>>,
    ev: Seq<RegistryEvent>,
    s: int,
    t: int,
)
    requires
        registry_history(h, ev),
        0 <= s < t <= ev.len(),
        ev[s] is Register,
        ev[s]->pid != 0,
        forall|k: int|
            s < k < t ==> keeps_reader(
                #[trigger] ev[k],
                ev[s]->Register_index,
                ev[s]->pid,
            ),
    ensures
        h[t].len() == h[s].len(),
        0 <= ev[s]->Register_index < h[t].len(),
        h[t][ev[s]->Register_index].pid == ev[s]->pid,
        h[t][ev[s]->Register_index].active == 1,
    decreases t,
{
    assert(registry_step(h[t - 1], ev[t - 1], h[t - 1 + 1]));
    if t > s + 1 {
        lemma_registration_holds_slot(h, ev, s, t - 1);
        assert(keeps_reader(ev[t - 1], ev[s]->Register_index, ev[s]->pid));
    }
}

/// Two registrations that are both alive never share a slot: while the reader that registered in
/// event `s` is registered and its process runs, a later registration, in event `t`, gets
/// another slot. Both are slots of the registry.
pub proof fn lemma_registrations_do_not_share(
    h: Seq<Seq<ReaderSlot>>,
    ev: Seq<RegistryEvent>,
    s: int,
    t: int,
)
    requires
        registry_history(h, ev),
        0 <= s < t < ev.len(),
        ev[s] is Register,
        ev[t] is Register,
        ev[s]->pid != 0,
        forall|k: int|
            s < k <= t ==> keeps_reader(
                #[trigger] ev[k],
                ev[s]->Register_index,
                ev[s]->pid,
            ),
    ensures
        ev[s]->Register_index != ev[t]->Register_index,
        0 <= ev[s]->Register_index < h[t].len(),
        0 <= ev[t]->Register_index < h[t].len(),
{
    lemma_registration_holds_slot(h, ev, s, t);
    assert(keeps_reader(ev[t], ev[s]->Register_index, ev[s]->pid));
    assert(registry_step(h[t], ev[t], h[t + 1]));
}

proof fn lemma_before_zero(s: Seq<u8>, n: nat)
    requires
        n <= s.len(),
        forall|i: int| 0 <= i < n ==> s[i] != 0,
        n < s.len() ==> s[n as int] == 0,
    ensures
        before_zero(s) == n,
    decreases s.len(),
{
    if n > 0 {
        let t = s.drop_first();
        assert forall|i: int| 0 <= i < n - 1 implies t[i] != 0 by {
            assert(t[i] == s[i + 1]);
        }
        lemma_before_zero(t, (n - 1) as nat);
    }
}

/// A registered name reads back: a name of at most 31 bytes without a zero byte is what the
/// field holds; of a longer one, its first 31 bytes are.
pub proof fn lemma_name_reads_back(name: Seq<u8>)
    requires
        forall|i: int| 0 <= i < name.len() ==> name[i] != 0,
    ensures
        ({
            let kept = if name.len() <= NAME_BYTES {
                name
            } else {
                name.take(NAME_BYTES as int)
            };
            name_text(name_field(name)) == lossy_text(kept)
        }),
{
    let f = name_field(name);
    let n: nat = if name.len() <= NAME_BYTES {
        name.len()
    } else {
        NAME_BYTES as nat
    };
    lemma_before_zero(f, n);
    assert(f.take(n as int) =~= (if name.len() <= NAME_BYTES {
        name
    } else {
        name.take(NAME_BYTES as int)
    }));
}

/// Which slots count and which can be taken: a slot that is free, or whose process is gone, can
/// be taken, and no other; an active slot of a running process counts, and no other.
pub proof fn lemma_slot_of_running_process(s: ReaderSlot, live: Seq<u32>)
    ensures
        available(s, live) <==> s.pid == 0 || !live.contains(s.pid),
        counted(s, live) <==> s.active == 1 && live.contains(s.pid),
        s.pid != 0 && counted(s, live) ==> !available(s, live),
{
}

/// A scan leaves every reader of a running process as it is, and frees every active slot of a
/// process that is gone. Slots that nobody is active in stay as they are.
pub proof fn lemma_scan_frees_only_dead(slots: Seq<ReaderSlot>, live: Seq<u32>, i: int)
    requires
        0 <= i < slots.len(),
    ensures
        swept(slots, live).len() == slots.len(),
        live.contains(slots[i].pid) || slots[i].active != 1 ==> swept(slots, live)[i] == slots[i],
        slots[i].active == 1 && !live.contains(slots[i].pid) ==> swept(slots, live)[i] == (
        ReaderSlot { active: 0, pid: 0, ..slots[i] }),
{
}

/// Pruning leaves every slot of a running process, and every free one, as it is, and frees all
/// others: then there is no slot of a dead process left, and each of those can be taken.
pub proof fn lemma_prune_frees_all_dead(slots: Seq<ReaderSlot>, live: Seq<u32>, i: int)
    requires
        0 <= i < slots.len(),
    ensures
        pruned(slots, live).len() == slots.len(),
        live.contains(slots[i].pid) || slots[i].pid == 0 ==> pruned(slots, live)[i] == slots[i],
        slots[i].pid != 0 && !live.contains(slots[i].pid) ==> pruned(slots, live)[i] == (
        ReaderSlot { active: 0, pid: 0, ..slots[i] }),
        dead_slots(pruned(slots, live), live) == 0,
{
    lemma_no_dead_slots(pruned(slots, live), live);
}

proof fn lemma_no_dead_slots(slots: Seq<ReaderSlot>, live: Seq<u32>)
    requires
        forall|i: int|
            0 <= i < slots.len() ==> (#[trigger] slots[i]).pid == 0 || live.contains(slots[i].pid),
    ensures
        dead_slots(slots, live) == 0,
    decreases slots.len(),
{
    if slots.len() > 0 {
        assert(slots[slots.len() - 1] == slots.last());
        assert forall|i: int| 0 <= i < slots.drop_last().len() implies (
        #[trigger] slots.drop_last()[i]).pid == 0 || live.contains(slots.drop_last()[i].pid) by {
            assert(slots[i] == slots.drop_last()[i]);
        }
        lemma_no_dead_slots(slots.drop_last(), live);
    }
}

/// The slots of dead processes are counted one by one: one for each, over any two parts of the
/// registry together.
pub proof fn lemma_dead_slots_add_up(a: Seq<ReaderSlot>, b: Seq<ReaderSlot>, live: Seq<u32>, s:
    ReaderSlot)
    ensures
        dead_slots(a + b, live) == dead_slots(a, live) + dead_slots(b, live),
        dead_slots(Seq::empty(), live) == 0,
        dead_slots(seq![s], live) == (if s.pid != 0 && !live.contains(s.pid) {
            1nat
        } else {
            0nat
        }),
    decreases b.len(),
{
    assert(seq![s].drop_last() =~= Seq::<ReaderSlot>::empty());
    assert(seq![s].last() == s);
    if b.len() == 0 {
        assert(a + b =~= a);
    } else {
        assert((a + b).drop_last() =~= a + b.drop_last());
        assert((a + b).last() == b.last());
        lemma_dead_slots_add_up(a, b.drop_last(), live, s);
    }
}

/// The readers that are listed are the active ones of running processes, all of them, each once,
/// in the order of their slots.
pub proof fn lemma_listed_readers(slots: Seq<ReaderSlot>, live: Seq<u32>)
    ensures
        ({
            let at = counted_indices(slots, live);
            &&& at.len() <= slots.len()
            &&& forall|k: int|
                0 <= k < at.len() ==> 0 <= (#[trigger] at[k]) < slots.len() && slots[at[k]].active
                    == 1 && live.contains(slots[at[k]].pid)
            &&& forall|k: int, l: int| 0 <= k < l < at.len() ==> at[k] < at[l]
            &&& forall|i: int|
                0 <= i < slots.len() && (#[trigger] slots[i]).active == 1 && live.contains(
                    slots[i].pid,
                ) ==> at.contains(i)
        }),
    decreases slots.len(),
{
    if slots.len() > 0 {
        let rest = slots.drop_last();
        let last = slots.len() - 1;
        lemma_listed_readers(rest, live);
        let old_at = counted_indices(rest, live);
        let at = counted_indices(slots, live);
        assert(slots[last] == slots.last());
        assert forall|k: int| 0 <= k < at.len() implies 0 <= (#[trigger] at[k]) < slots.len()
            && slots[at[k]].active == 1 && live.contains(slots[at[k]].pid) by {
            if k < old_at.len() {
                assert(at[k] == old_at[k]);
                assert(rest[old_at[k]] == slots[old_at[k]]);
            }
        }
        assert forall|k: int, l: int| 0 <= k < l < at.len() implies at[k] < at[l] by {
            assert(at[k] == old_at[k]);
            if l < old_at.len() {
                assert(at[l] == old_at[l]);
            }
        }
        assert forall|i: int|
            0 <= i < slots.len() && (#[trigger] slots[i]).active == 1 && live.contains(
                slots[i].pid,
            ) implies at.contains(i) by {
            if i < last {
                assert(rest[i] == slots[i]);
                assert(old_at.contains(i));
                let k = choose|k: int| 0 <= k < old_at.len() && old_at[k] == i;
                assert(at[k] == i);
            } else {
                assert(at[old_at.len() as int] == i);
            }
        }
    }
}

/// What is reported of a reader is what its slot says, and how far the newest message is ahead
/// of its cursor.
pub proof fn lemma_report_of_reader(
    out: Seq<ReaderInfo>,
    slots: Seq<ReaderSlot>,
    live: Seq<u32>,
    write_seq: u64,
    k: int,
)
    requires
        reports(out, counted_indices(slots, live), slots, write_seq),
        0 <= k < out.len(),
    ensures
        out.len() == counted_indices(slots, live).len(),
        ({
            let s = slots[out[k].slot_index as int];
            &&& out[k].slot_index == counted_indices(slots, live)[k]
            &&& out[k].pid == s.pid
            &&& out[k].cursor_seq == s.cursor_seq
            &&& out[k].lag == (if write_seq > s.cursor_seq {
                write_seq - s.cursor_seq
            } else {
                0
            })
            &&& out[k].name@ == lossy_text(s.name@.take(before_zero(s.name@) as int))
        }),
{
    lemma_listed_readers(slots, live);
    assert(0 <= counted_indices(slots, live)[k] < slots.len());
}

/// A name takes up the first 31 bytes of its field at most; the rest of the 32 bytes is zero.
/// What a field says ends at its first zero byte.
pub proof fn lemma_name_field_bytes(name: Seq<u8>, field: Seq<u8>, i: int)
    requires
        0 <= i < 32,
    ensures
        name_field(name).len() == 32,
        name_field(name)[i] == (if i < 31 && i < name.len() {
            name[i]
        } else {
            0
        }),
        before_zero(field) <= field.len(),
        before_zero(field) < field.len() ==> field[before_zero(field) as int] == 0,
        forall|j: int| 0 <= j < before_zero(field) ==> field[j] != 0,
    decreases field.len(),
{
    if field.len() > 0 && field[0] != 0 {
        let rest = field.drop_first();
        lemma_name_field_bytes(name, rest, i);
        assert forall|j: int| 0 <= j < before_zero(field) implies field[j] != 0 by {
            if j > 0 {
                assert(field[j] == rest[j - 1]);
            }
        }
        let n = before_zero(rest) as int;
        if n < rest.len() {
            assert(field[n + 1] == rest[n]);
        }
    }
}

/// How far a number is ahead of a cursor, 0 if it is not.
pub proof fn lemma_lag(write_seq: u64, cursor: u64)
    ensures
        lag_behind(write_seq, cursor) == (if write_seq > cursor {
            write_seq - cursor
        } else {
            0
        }),
{
}

/// The slowest reader is a reader: the cursor that a scan finds is that of an active reader of a
/// running process, and none of those is further behind; a scan that finds none has seen none.
/// The same of the scan that does not ask whether processes run.
pub proof fn lemma_slowest_is_a_reader(
    slots: Seq<ReaderSlot>,
    live: Seq<u32>,
    m: Option<u64>,
    a: Option<u64>,
    i: int,
)
    requires
        slowest(slots, live, m),
        slowest_active(slots, a),
        0 <= i < slots.len(),
    ensures
        slots[i].active == 1 && live.contains(slots[i].pid) ==> m is Some && m->0
            <= slots[i].cursor_seq,
        m is Some ==> exists|j: int|
            0 <= j < slots.len() && (#[trigger] slots[j]).active == 1 && live.contains(
                slots[j].pid,
            ) && slots[j].cursor_seq == m->0,
        slots[i].active == 1 ==> a is Some && a->0 <= slots[i].cursor_seq,
        a is Some ==> exists|j: int|
            0 <= j < slots.len() && (#[trigger] slots[j]).active == 1 && slots[j].cursor_seq
                == a->0,
{
    assert(counted(slots[i], live) <==> slots[i].active == 1 && live.contains(slots[i].pid));
    if m is Some {
        let j = choose|j: int|
            0 <= j < slots.len() && counted(#[trigger] slots[j], live) && slots[j].cursor_seq
                == m->0;
        assert(slots[j].active == 1);
    }
}

/// A slot that was never used belongs to nobody, has read nothing and has an empty name.
pub proof fn lemma_blank_slot(s: ReaderSlot, live: Seq<u32>)
    requires
        blank(s),
    ensures
        s.pid == 0,
        s.active == 0,
        s.cursor_seq == 0,
        s.heartbeat_tsc == 0,
        forall|i: int| 0 <= i < 32 ==> #[trigger] s.name@[i] == 0,
        available(s, live),
        !counted(s, live),
{
}

} // verus!
