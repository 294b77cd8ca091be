//! The read side of a ring: where a consumer stands and how it finds its next message.
//!
//! A consumer only ever loads words that writers may be changing. What it does with each
//! load is decided here, one load at a time ([`ReadHead::step`]): the caller performs the
//! access that the head asks for and hands back the word. [`ReadHead::poll`] runs the same
//! steps on a ring that nobody is writing to.
use crate::header::SLOT_WRITING;
use crate::math::{is_pow2, larger, max_of};
use crate::ring::{oldest_of, oldest_retained, Ring, LAST_SEQ};
use crate::slot::{confirm, probe, probe_spec, seen_in, SlotProbe};
use vstd::arithmetic::div_mod::{lemma_fundamental_div_mod, lemma_mod_multiples_vanish};
use vstd::prelude::*;

verus! {

/// Read position of a consumer.
#[derive(Debug, Clone, Copy)]
pub struct ReadHead {
    pub capacity: u64,
    pub mask: u64,
    /// Sequence number of the next message to read
    pub cursor: u64,
    /// Messages skipped because the writer lapped this reader
    pub lapped_total: u64,
    /// Ring written by multiple producers: a slot can stay unpublished (dead producer).
    pub multi_producer: bool,
    /// Sequence numbers may have holes (network mirrors). A stale slot behind `write_seq`
    /// is then skipped instead of waited for.
    pub sparse: bool,
    /// Polls of a sparse ring that found nothing
    pub empty_polls: u32,
}

/// What the head is about to learn.
#[derive(Debug, Clone, Copy, PartialEq, Eq, Structural)]
pub enum Phase {
    /// Whether the cursor's slot holds its message.
    Probe,
    /// Whether the copy just made stands.
    Confirm,
    /// How far the writer is, after `seen` was observed in the cursor's slot (0 if unknown).
    Lapped { seen: u64 },
    /// Whether the writers are a full ring ahead of a message that stays unpublished.
    Stalled,
    /// Whether the writer has published past the cursor of a sparse ring.
    HoleHead,
    /// Whether the message landed in the meantime.
    HoleProbe { write_seq: u64 },
    /// Whether message `next` is there.
    HoleScan { write_seq: u64, next: u64 },
}

/// The access that the head asks for.
#[derive(Debug, Clone, Copy, PartialEq, Eq, Structural)]
pub enum Ask {
    /// Load the sequence word of the slot of message `of`. With `report`, first store the
    /// cursor in the consumer's registration, if it has one.
    Word { of: u64, report: bool },
    /// Copy the payload of the slot of message `of`, then load its sequence word.
    Copy { of: u64 },
    /// Load the header's `write_seq`.
    WriteSeq,
    /// Nothing more: there is no message now.
    Empty,
    /// Nothing more: the copy is the message at the cursor.
    Item,
}

/// Where a poll ends: the head then, and whether the message at its cursor was read.
pub struct Received {
    pub head: ReadHead,
    pub item: bool,
}

/// The first message present from `from` on, or the number behind `write_seq`.
pub open spec fn next_present<T>(r: &Ring<T>, from: u64, write_seq: u64) -> u64
    decreases write_seq + 1 - from,
{
    if from > write_seq || from == u64::MAX || r.word(from) == from {
        from
    } else {
        next_present(r, (from + 1) as u64, write_seq)
    }
}

/// A scan never goes back, and ends at most one behind `write_seq`.
pub proof fn lemma_next_present<T>(r: &Ring<T>, from: u64, write_seq: u64)
    ensures
        from <= next_present(r, from, write_seq) <= max_of(from, write_seq) + 1,
        next_present(r, from, write_seq) <= write_seq && write_seq < u64::MAX ==> r.word(
            next_present(r, from, write_seq),
        ) == next_present(r, from, write_seq),
        forall|n: u64|
            from <= n < next_present(r, from, write_seq) && write_seq < u64::MAX
                ==> #[trigger] r.word(n) != n,
    decreases write_seq + 1 - from,
{
    if !(from > write_seq || from == u64::MAX || r.word(from) == from) {
        lemma_next_present(r, (from + 1) as u64, write_seq);
    }
}

/// What a consumer at `h` finds in the ring `r`.
///
/// If its message is there, that message. If the slot holds a newer one, it was lapped and
/// continues at the oldest message retained. If the message is not there yet, nothing; but
/// among several producers it gives up on a message that is a full ring behind, and in a
/// sparse ring every 64th vain poll moves on to the next message that is present.
pub open spec fn receive<T>(h: ReadHead, r: &Ring<T>) -> Received
    decreases u64::MAX - h.cursor,
{
    let w = r.header.write_seq;
    let word = r.word(h.cursor);
    match probe_spec(word, h.cursor) {
        SlotProbe::Copy => Received { head: h, item: true },
        SlotProbe::Overwritten(seen) => {
            let o = oldest_of(max_of(w, seen), h.capacity);
            if o > h.cursor {
                receive(h.skipped_to(o), r)
            } else {
                Received { head: h, item: false }
            }
        },
        SlotProbe::Pending => if h.multi_producer {
            let o = oldest_of(w, h.capacity);
            if w - h.capacity >= h.cursor && o > h.cursor {
                receive(h.skipped_to(o), r)
            } else {
                Received { head: h, item: false }
            }
        } else if h.sparse {
            let p = h.polled();
            let n = next_present(
                r,
                max_of(oldest_of(w, h.capacity), (h.cursor + 1) as u64),
                w,
            );
            if p.empty_polls % 64 == 0 && w >= h.cursor && word != SLOT_WRITING && n > h.cursor {
                receive(p.skipped_to(n), r)
            } else {
                Received { head: p, item: false }
            }
        } else {
            Received { head: h, item: false }
        },
    }
}

/// What a consumer finds once it knows that the newest message is `newest`.
spec fn after_lap<T>(h: ReadHead, r: &Ring<T>, newest: u64) -> Received {
    let o = oldest_of(newest, h.capacity);
    if o > h.cursor {
        receive(h.skipped_to(o), r)
    } else {
        Received { head: h, item: false }
    }
}

/// What a consumer in the middle of a poll finds.
spec fn resume<T>(h: ReadHead, phase: Phase, r: &Ring<T>) -> Received {
    let w = r.header.write_seq;
    let nothing = Received { head: h, item: false };
    let from = max_of(oldest_of(w, h.capacity), (h.cursor + 1) as u64);
    match phase {
        Phase::Probe => receive(h, r),
        Phase::Confirm => Received { head: h, item: true },
        Phase::Lapped { seen } => after_lap(h, r, max_of(w, seen)),
        Phase::Stalled => if w - h.capacity >= h.cursor {
            after_lap(h, r, w)
        } else {
            nothing
        },
        Phase::HoleHead => if w >= h.cursor && r.word(h.cursor) != SLOT_WRITING {
            receive(h.skipped_to(next_present(r, from, w)), r)
        } else {
            nothing
        },
        Phase::HoleProbe { write_seq } => if r.word(h.cursor) != SLOT_WRITING {
            receive(h.skipped_to(next_present(r, from, w)), r)
        } else {
            nothing
        },
        Phase::HoleScan { write_seq, next } => receive(
            h.skipped_to(next_present(r, next, w)),
            r,
        ),
    }
}

/// The phase is one that a poll of `r` can be in.
spec fn phase_ok<T>(h: ReadHead, phase: Phase, r: &Ring<T>) -> bool {
    let w = r.header.write_seq;
    match phase {
        Phase::Confirm => r.word(h.cursor) == h.cursor,
        Phase::Lapped { seen } => seen <= LAST_SEQ,
        Phase::HoleHead => probe_spec(r.word(h.cursor), h.cursor) is Pending,
        Phase::HoleProbe { write_seq } => write_seq == w && w >= h.cursor && probe_spec(
            r.word(h.cursor),
            h.cursor,
        ) is Pending,
        Phase::HoleScan { write_seq, next } => write_seq == w && h.cursor < next <= w,
        _ => true,
    }
}

/// Phases that come later in a poll rank lower.
spec fn rank(phase: Phase) -> nat {
    match phase {
        Phase::Probe => 7,
        Phase::Confirm => 6,
        Phase::Stalled => 5,
        Phase::HoleHead => 4,
        Phase::HoleProbe { .. } => 3,
        Phase::HoleScan { .. } => 2,
        Phase::Lapped { .. } => 1,
    }
}

spec fn left_to_scan(phase: Phase) -> int {
    match phase {
        Phase::HoleScan { write_seq, next } => write_seq - next,
        _ => 0,
    }
}

/// The head after it has moved to `to`, and its next access.
pub open spec fn moved(h: ReadHead, to: u64) -> (ReadHead, Phase, Ask) {
    (h.skipped_to(to), Phase::Probe, Ask::Word { of: to, report: true })
}

/// What the head makes of the word `loaded`: the head then, what it is about to learn next,
/// and the access for that.
pub open spec fn step_spec(h: ReadHead, phase: Phase, loaded: u64) -> (ReadHead, Phase, Ask) {
    let c = h.cursor;
    let empty = (h, Phase::Probe, Ask::Empty);
    match phase {
        Phase::Probe => match probe_spec(loaded, c) {
            SlotProbe::Copy => (h, Phase::Confirm, Ask::Copy { of: c }),
            SlotProbe::Overwritten(seen) => (h, Phase::Lapped { seen }, Ask::WriteSeq),
            SlotProbe::Pending => if h.multi_producer {
                (h, Phase::Stalled, Ask::WriteSeq)
            } else if h.sparse && h.polled().empty_polls % 64 == 0 {
                (h.polled(), Phase::HoleHead, Ask::WriteSeq)
            } else if h.sparse {
                (h.polled(), Phase::Probe, Ask::Empty)
            } else {
                empty
            },
        },
        Phase::Confirm => if loaded == c {
            (h, Phase::Probe, Ask::Item)
        } else {
            (h, Phase::Lapped { seen: seen_in(loaded) }, Ask::WriteSeq)
        },
        Phase::Lapped { seen } => if oldest_of(max_of(loaded, seen), h.capacity) > c {
            moved(h, oldest_of(max_of(loaded, seen), h.capacity))
        } else {
            empty
        },
        Phase::Stalled => if loaded - h.capacity >= c {
            (h, Phase::Lapped { seen: 0 }, Ask::WriteSeq)
        } else {
            empty
        },
        Phase::HoleHead => if loaded < c {
            empty
        } else {
            (h, Phase::HoleProbe { write_seq: loaded }, Ask::Word { of: c, report: false })
        },
        Phase::HoleProbe { write_seq } => {
            let next = max_of(oldest_of(write_seq, h.capacity), (c + 1) as u64);
            if loaded == SLOT_WRITING || loaded >= c {
                empty
            } else if next <= write_seq {
                (h, Phase::HoleScan { write_seq, next }, Ask::Word { of: next, report: false })
            } else {
                moved(h, next)
            }
        },
        Phase::HoleScan { write_seq, next } => if loaded == next {
            moved(h, next)
        } else if next < write_seq {
            let n = (next + 1) as u64;
            (h, Phase::HoleScan { write_seq, next: n }, Ask::Word { of: n, report: false })
        } else {
            moved(h, (next + 1) as u64)
        },
    }
}

/// A scan asks for a message behind the cursor.
pub open spec fn scan_ok(h: ReadHead, phase: Phase) -> bool {
    match phase {
        Phase::HoleScan { write_seq, next } => h.cursor < next <= write_seq && write_seq
            <= LAST_SEQ,
        Phase::HoleProbe { write_seq } => write_seq <= LAST_SEQ,
        _ => true,
    }
}

impl ReadHead {
    /// The capacity is sound and the cursor is a sequence number.
    pub open spec fn wf(self) -> bool {
        &&& is_pow2(self.capacity as nat)
        &&& self.capacity >= 1
        &&& self.mask == self.capacity - 1
        &&& 1 <= self.cursor < SLOT_WRITING
    }

    /// The head belongs to a ring.
    pub open spec fn reads<T>(self, r: &Ring<T>) -> bool {
        self.wf() && self.capacity == r.header.capacity && self.mask == r.header.mask
    }

    /// The head once it has moved on to `to`; the messages in between count as lapped.
    pub open spec fn skipped_to(self, to: u64) -> ReadHead {
        ReadHead {
            cursor: to,
            lapped_total: self.lapped_total.wrapping_add((to - self.cursor) as u64),
            ..self
        }
    }

    /// The head after one more vain poll.
    pub open spec fn polled(self) -> ReadHead {
        ReadHead { empty_polls: self.empty_polls.wrapping_add(1), ..self }
    }

    /// The head behind the message at its cursor.
    pub open spec fn accepted(self) -> ReadHead {
        ReadHead { cursor: (self.cursor + 1) as u64, ..self }
    }

    /// Moves on past messages that are lost. Returns how many those are.
    pub fn skip_to(&mut self, to: u64) -> (skipped: u64)
        requires
            to >= old(self).cursor,
        ensures
            *final(self) == old(self).skipped_to(to),
            skipped == to - old(self).cursor,
    {
        let skipped: u64 = to - self.cursor;
        self.cursor = to;
        self.lapped_total = self.lapped_total.wrapping_add(skipped);
        skipped
    }

    /// Advances the cursor past messages that can no longer be read because the writer
    /// lapped this reader. `write_seq` is the newest message published, `seen` a newer
    /// sequence observed in the cursor's slot. Returns the number of skipped messages.
    pub fn skip_overwritten(&mut self, write_seq: u64, seen: u64) -> (skipped: u64)
        requires
            old(self).capacity >= 1,
        ensures
            ({
                let o = oldest_of(max_of(write_seq, seen), old(self).capacity);
                if o > old(self).cursor {
                    *final(self) == old(self).skipped_to(o) && skipped == o - old(self).cursor
                } else {
                    *final(self) == *old(self) && skipped == 0
                }
            }),
    {
        let oldest: u64 = oldest_retained(larger(write_seq, seen), self.capacity);
        if oldest > self.cursor {
            self.skip_to(oldest)
        } else {
            0
        }
    }

    /// Takes the message at the cursor as read.
    pub fn accept(&mut self)
        requires
            old(self).cursor < u64::MAX,
        ensures
            *final(self) == old(self).accepted(),
    {
        self.cursor = self.cursor + 1;
    }

    fn move_to(&mut self, to: u64) -> (r: (Phase, Ask))
        requires
            to >= old(self).cursor,
        ensures
            (*final(self), r.0, r.1) == moved(*old(self), to),
    {
        let _skipped: u64 = self.skip_to(to);
        (Phase::Probe, Ask::Word { of: to, report: true })
    }

    /// One step of a poll: takes the word that the last access loaded, and returns what the
    /// head is about to learn and the access for that. A poll starts in [`Phase::Probe`]
    /// with the cursor's slot.
    pub fn step(&mut self, phase: Phase, loaded: u64) -> (r: (Phase, Ask))
        requires
            old(self).wf(),
            scan_ok(*old(self), phase),
            phase is HoleHead ==> loaded <= LAST_SEQ,
        ensures
            (*final(self), r.0, r.1) == step_spec(*old(self), phase, loaded),
            scan_ok(*final(self), r.0),
    {
        let c: u64 = self.cursor;
        match phase {
            Phase::Probe => match probe(loaded, c) {
                SlotProbe::Copy => (Phase::Confirm, Ask::Copy { of: c }),
                SlotProbe::Overwritten(seen) => (Phase::Lapped { seen }, Ask::WriteSeq),
                SlotProbe::Pending => {
                    // Normally just "caught up". With multiple producers a slot can stay
                    // unpublished (producer died mid-publish): once the writers are a full
                    // ring ahead, the message is gone either way.
                    if self.multi_producer {
                        return (Phase::Stalled, Ask::WriteSeq);
                    }
                    if self.sparse {
                        self.empty_polls = self.empty_polls.wrapping_add(1);
                        if self.empty_polls % 64 == 0 {
                            return (Phase::HoleHead, Ask::WriteSeq);
                        }
                    }
                    (Phase::Probe, Ask::Empty)
                },
            },
            Phase::Confirm => match confirm(loaded, c) {
                None => (Phase::Probe, Ask::Item),
                Some(seen) => (Phase::Lapped { seen }, Ask::WriteSeq),
            },
            Phase::Lapped { seen } => {
                let skipped: u64 = self.skip_overwritten(loaded, seen);
                if skipped > 0 {
                    (Phase::Probe, Ask::Word { of: self.cursor, report: true })
                } else {
                    (Phase::Probe, Ask::Empty)
                }
            },
            Phase::Stalled => {
                if loaded >= self.capacity && loaded - self.capacity >= c {
                    (Phase::Lapped { seen: 0 }, Ask::WriteSeq)
                } else {
                    (Phase::Probe, Ask::Empty)
                }
            },
            Phase::HoleHead => {
                if loaded < c {
                    (Phase::Probe, Ask::Empty)
                } else {
                    (Phase::HoleProbe { write_seq: loaded }, Ask::Word { of: c, report: false })
                }
            },
            Phase::HoleProbe { write_seq } => {
                // The message may have landed between the slot load and the header load.
                if loaded == SLOT_WRITING || loaded >= c {
                    return (Phase::Probe, Ask::Empty);
                }
                let next: u64 = larger(oldest_retained(write_seq, self.capacity), c + 1);
                if next <= write_seq {
                    (Phase::HoleScan { write_seq, next }, Ask::Word { of: next, report: false })
                } else {
                    self.move_to(next)
                }
            },
            Phase::HoleScan { write_seq, next } => {
                if loaded == next {
                    self.move_to(next)
                } else if next < write_seq {
                    let n: u64 = next + 1;
                    (Phase::HoleScan { write_seq, next: n }, Ask::Word { of: n, report: false })
                } else {
                    self.move_to(next + 1)
                }
            },
        }
    }

    /// Looks for the next message in a ring that nobody is writing to. Returns the message,
    /// if there is one, and the number of messages skipped on the way. The cursor stays at
    /// the message: [`ReadHead::accept`] takes it as read.
    pub fn poll<T: Copy>(&mut self, ring: &Ring<T>) -> (r: (Option<T>, u64))
        requires
            old(self).reads(ring),
            ring.wf(),
        ensures
            ({
                let end = receive(*old(self), ring);
                &&& *final(self) == end.head
                &&& r.0 == (if end.item {
                    Some(ring.message(end.head.cursor))
                } else {
                    None
                })
                &&& end.item ==> ring.present(end.head.cursor)
                &&& r.1 == end.head.cursor - old(self).cursor
            }),
            final(self).reads(ring),
            r.0 is Some ==> final(self).cursor <= LAST_SEQ,
    {
        let start: u64 = self.cursor;
        let mut phase = Phase::Probe;
        let mut ask = Ask::Word { of: self.cursor, report: false };
        let mut copy: Option<T> = None;
        loop
            invariant
                ring.wf(),
                self.reads(ring),
                start == old(self).cursor <= self.cursor,
                phase_ok(*self, phase, ring),
                scan_ok(*self, phase),
                receive(*old(self), ring) == resume(*self, phase, ring),
                match phase {
                    Phase::Probe => ask matches Ask::Word { of, report } && of == self.cursor,
                    Phase::Confirm => ask == (Ask::Copy { of: self.cursor }),
                    Phase::Lapped { .. } => ask == Ask::WriteSeq,
                    Phase::Stalled => ask == Ask::WriteSeq,
                    Phase::HoleHead => ask == Ask::WriteSeq,
                    Phase::HoleProbe { .. } => ask matches Ask::Word { of, report } && of
                        == self.cursor,
                    Phase::HoleScan { write_seq, next } => ask matches Ask::Word { of, report }
                        && of == next,
                },
            decreases u64::MAX - self.cursor, rank(phase), left_to_scan(phase),
        {
            let loaded: u64 = match ask {
                Ask::Word { of, .. } => ring.load_word(of),
                Ask::Copy { of } => {
                    let i: usize = ring.slot_index(of);
                    copy = ring.slots[i].data;
                    ring.load_word(of)
                },
                _ => ring.header.write_seq,
            };
            let ghost before = *self;
            let ghost was = phase;
            proof {
                let i = ring.index(self.cursor);
                assert(0 <= i < ring.slots@.len()) by {
                    lemma_fundamental_div_mod(
                        self.cursor as int,
                        ring.header.capacity as int,
                    );
                }
                assert(crate::ring::slot_ok(ring.slots@[i], i, ring.header.capacity));
            }
            let (next_phase, next_ask) = self.step(phase, loaded);
            proof {
                let w = ring.header.write_seq;
                lemma_next_present(
                    ring,
                    max_of(oldest_of(w, before.capacity), (before.cursor + 1) as u64),
                    w,
                );
                if let Phase::HoleScan { write_seq, next } = was {
                    lemma_next_present(ring, (next + 1) as u64, write_seq);
                    assert(next == write_seq ==> next_present(ring, (next + 1) as u64, write_seq)
                        == next + 1);
                }
            }
            match next_ask {
                Ask::Item => {
                    return (copy, self.cursor - start);
                },
                Ask::Empty => {
                    return (None, self.cursor - start);
                },
                _ => {},
            }
            phase = next_phase;
            ask = next_ask;
        }
    }
}

/// Whatever is loaded, a step never moves the cursor back, counts every message that it
/// skips, and reports a message only if the cursor's number stood in the slot's sequence
/// word both before and after the copy.
pub proof fn lemma_step_laws(h: ReadHead, phase: Phase, loaded: u64)
    requires
        h.wf(),
        scan_ok(h, phase),
        phase is HoleHead ==> loaded <= LAST_SEQ,
    ensures
        ({
            let (n, next, ask) = step_spec(h, phase, loaded);
            &&& n.cursor >= h.cursor
            &&& n.lapped_total == h.lapped_total.wrapping_add((n.cursor - h.cursor) as u64)
            &&& ask is Item ==> phase is Confirm && loaded == h.cursor && n == h
            &&& next is Confirm ==> phase is Probe && loaded == h.cursor && n == h && ask == (
            Ask::Copy { of: h.cursor })
            &&& n.cursor > h.cursor ==> ask == (Ask::Word { of: n.cursor, report: true })
        }),
{
}

/// Two wrapping additions are one addition modulo 2^64.
proof fn lemma_wrap_twice(total: u64, first: u64, second: int)
    requires
        0 <= second <= u64::MAX,
    ensures
        (total.wrapping_add(first) + second) % 0x1_0000_0000_0000_0000 == (total + first + second)
            % 0x1_0000_0000_0000_0000,
{
}

/// What the lapped count of a poll adds up to.
spec fn accounts<T>(h: ReadHead, end: Received, r: &Ring<T>) -> bool {
    &&& end.head.cursor >= h.cursor
    &&& end.head.lapped_total == (h.lapped_total + (end.head.cursor - h.cursor))
        % 0x1_0000_0000_0000_0000
    &&& end.head.reads(r)
    &&& end.item ==> r.present(end.head.cursor)
}

proof fn lemma_accounts_step<T>(h: ReadHead, p: ReadHead, to: u64, end: Received, r: &Ring<T>)
    requires
        p.cursor == h.cursor,
        p.lapped_total == h.lapped_total,
        to >= h.cursor,
        accounts(p.skipped_to(to), end, r),
    ensures
        accounts(h, end, r),
{
    lemma_wrap_twice(
        h.lapped_total,
        (to - h.cursor) as u64,
        end.head.cursor - to,
    );
}

/// A poll never moves the cursor back, counts every message that it skips as lapped, and
/// ends with a message only where that message is present.
pub proof fn lemma_receive_accounts<T>(h: ReadHead, r: &Ring<T>)
    requires
        h.reads(r),
        r.wf(),
    ensures
        ({
            let end = receive(h, r);
            &&& end.head.cursor >= h.cursor
            &&& end.head.lapped_total == (h.lapped_total + (end.head.cursor - h.cursor))
                % 0x1_0000_0000_0000_0000
            &&& end.head.reads(r)
            &&& end.item ==> r.present(end.head.cursor)
        }),
    decreases u64::MAX - h.cursor,
{
    let w = r.header.write_seq;
    let word = r.word(h.cursor);
    lemma_fundamental_div_mod(h.cursor as int, r.header.capacity as int);
    assert(crate::ring::slot_ok(
        r.slots@[r.index(h.cursor)],
        r.index(h.cursor),
        r.header.capacity,
    ));
    let from = max_of(oldest_of(w, h.capacity), (h.cursor + 1) as u64);
    lemma_next_present(r, from, w);
    match probe_spec(word, h.cursor) {
        SlotProbe::Copy => {},
        SlotProbe::Overwritten(seen) => {
            let o = oldest_of(max_of(w, seen), h.capacity);
            if o > h.cursor {
                lemma_receive_accounts(h.skipped_to(o), r);
                lemma_accounts_step(h, h, o, receive(h.skipped_to(o), r), r);
            }
        },
        SlotProbe::Pending => {
            if h.multi_producer {
                let o = oldest_of(w, h.capacity);
                if w - h.capacity >= h.cursor && o > h.cursor {
                    lemma_receive_accounts(h.skipped_to(o), r);
                    lemma_accounts_step(h, h, o, receive(h.skipped_to(o), r), r);
                }
            } else if h.sparse {
                let p = h.polled();
                let n = next_present(r, from, w);
                if p.empty_polls % 64 == 0 && w >= h.cursor && word != SLOT_WRITING {
                    lemma_receive_accounts(p.skipped_to(n), r);
                    lemma_accounts_step(h, p, n, receive(p.skipped_to(n), r), r);
                }
            }
        },
    }
    assert(accounts(h, receive(h, r), r));
}

/// In a ring that holds the tail of `log`, every retained number has its slot: the number
/// that the slot of a lost message `c` holds now.
proof fn lemma_successor_in_window(c: u64, oldest: u64, capacity: u64) -> (n: u64)
    requires
        capacity >= 1,
        1 <= c < oldest,
        oldest + capacity <= u64::MAX,
    ensures
        oldest <= n < oldest + capacity,
        n as int % capacity as int == c as int % capacity as int,
{
    let cap = capacity as int;
    let d = c as int - oldest as int;
    lemma_fundamental_div_mod(d, cap);
    let q = d / cap;
    let n = oldest as int + d % cap;
    assert(n == cap * (-q) + c) by {
        assert(cap * (-q) == -(cap * q)) by (nonlinear_arith);
    }
    lemma_mod_multiples_vanish(-q, c as int, cap);
    n as u64
}

/// Messages arrive in the order in which they were published, none twice. In a ring that holds the tail of `log`, a consumer whose next message is still
/// retained gets exactly that message; one that was lapped gets the oldest message retained,
/// and all that it missed is counted; one that is caught up gets nothing.
pub proof fn lemma_receive_from_log<T>(h: ReadHead, r: &Ring<T>, log: Seq<T>)
    requires
        h.reads(r),
        r.wf(),
        r.holds_log(log),
    ensures
        ({
            let end = receive(h, r);
            let to = max_of(h.cursor, oldest_of(r.header.write_seq, h.capacity));
            if h.cursor <= log.len() {
                &&& end.item
                &&& end.head == (if to == h.cursor {
                    h
                } else {
                    h.skipped_to(to)
                })
                &&& to <= log.len()
                &&& r.message(to) == log[to - 1]
            } else {
                &&& !end.item
                &&& end.head == (if h.sparse && !h.multi_producer {
                    h.polled()
                } else {
                    h
                })
            }
        }),
    decreases u64::MAX - h.cursor,
{
    let w = r.header.write_seq;
    let c = h.cursor;
    let cap = h.capacity;
    let oldest = oldest_of(w, cap);
    lemma_fundamental_div_mod(c as int, cap as int);
    assert(0 <= r.index(c) < r.slots@.len());
    assert(r.slots@[r.index(c)].seq <= log.len());
    if c > w {
        assert(r.word(c) < c);
    } else if c >= oldest {
        assert(r.word(c) == c);
    } else {
        let n = lemma_successor_in_window(c, oldest, cap);
        assert(r.word(n) == n);
        assert(r.index(n) == r.index(c));
        assert(r.word(c) == n);
        assert(max_of(w, n) == w);
        lemma_receive_from_log(h.skipped_to(oldest), r, log);
    }
}

/// A consumer whose next message is there gets it, whatever else the ring holds.
pub proof fn lemma_present_is_received<T>(h: ReadHead, r: &Ring<T>)
    requires
        r.word(h.cursor) == h.cursor,
    ensures
        receive(h, r) == (Received { head: h, item: true }),
{
}

/// Holes are skipped. A consumer of a sparse ring that waits for a message which is not
/// there, while later ones are, gets the first of those that is retained, on every 64th
/// vain poll at the latest; what it passed over is counted.
pub proof fn lemma_sparse_ring_skips_holes<T>(h: ReadHead, r: &Ring<T>, n: u64)
    requires
        h.reads(r),
        r.wf(),
        h.sparse,
        !h.multi_producer,
        h.polled().empty_polls % 64 == 0,
        r.word(h.cursor) < h.cursor,
        h.cursor < n <= r.header.write_seq,
        oldest_of(r.header.write_seq, h.capacity) <= n,
        r.word(n) == n,
        forall|m: u64|
            h.cursor < m < n && oldest_of(r.header.write_seq, h.capacity) <= m
                ==> #[trigger] r.word(m) != m,
    ensures
        receive(h, r).item,
        receive(h, r).head == h.polled().skipped_to(n),
{
    let w = r.header.write_seq;
    let from = max_of(oldest_of(w, h.capacity), (h.cursor + 1) as u64);
    lemma_next_present(r, from, w);
    let p = next_present(r, from, w);
    if p < n {
        assert(r.word(p) == p);
    }
    assert(p == n);
    lemma_present_is_received(h.polled().skipped_to(n), r);
}

/// A message that a dead producer never published does not hold consumers up: once the
/// writers are a full ring ahead, the consumer moves on to the oldest message retained.
pub proof fn lemma_dead_producer_skipped<T>(h: ReadHead, r: &Ring<T>)
    requires
        h.multi_producer,
        probe_spec(r.word(h.cursor), h.cursor) is Pending,
        h.capacity >= 1,
        r.header.write_seq - h.capacity >= h.cursor,
    ensures
        receive(h, r) == receive(
            h.skipped_to(oldest_of(r.header.write_seq, h.capacity)),
            r,
        ),
        oldest_of(r.header.write_seq, h.capacity) > h.cursor,
{
}

/// Message `m` is gone: some number that was published, or stands in a slot, is at least a full
/// ring ahead of it.
pub open spec fn outrun<T>(r: &Ring<T>, m: int) -> bool {
    ||| m + r.header.capacity <= r.header.write_seq
    ||| exists|k: int|
        0 <= k < r.slots@.len() && (#[trigger] r.slots@[k]).seq != SLOT_WRITING && m
            + r.header.capacity <= r.slots@[k].seq
}

/// A poll passes over a message only if that message is gone, or is a hole of a sparse ring
/// that the writer has left behind. A poll that finds nothing ends at a message that is not
/// there, and one whose slot holds a newer message always moves on. The head keeps what it
/// knows of its ring.
#[verifier::rlimit(50)]
pub proof fn lemma_receive_skips_only_lost<T>(h: ReadHead, r: &Ring<T>)
    requires
        h.reads(r),
        r.wf(),
    ensures
        ({
            let end = receive(h, r);
            let word = r.slots@[h.cursor as int % r.header.capacity as int].seq;
            &&& end.head.cursor >= h.cursor
            &&& end.item <==> r.slots@[end.head.cursor as int % r.header.capacity as int].seq
                == end.head.cursor
            &&& h.cursor < word < SLOT_WRITING ==> end.head.cursor > h.cursor
            &&& word == h.cursor ==> end.head == h
            &&& end.head.capacity == h.capacity
            &&& end.head.mask == h.mask
            &&& end.head.multi_producer == h.multi_producer
            &&& end.head.sparse == h.sparse
            &&& forall|m: int|
                h.cursor <= m < end.head.cursor ==> #[trigger] outrun(r, m) || (h.sparse
                    && !h.multi_producer && m <= r.header.write_seq && r.slots@[m
                    % r.header.capacity as int].seq != m)
        }),
    decreases u64::MAX - h.cursor,
{
    let w = r.header.write_seq;
    let cap = r.header.capacity as int;
    let c = h.cursor;
    let word = r.word(c);
    let i = r.index(c);
    lemma_fundamental_div_mod(c as int, cap);
    assert(0 <= i < r.slots@.len());
    assert(crate::ring::slot_ok(r.slots@[i], i, r.header.capacity));
    let from = max_of(oldest_of(w, h.capacity), (c + 1) as u64);
    lemma_next_present(r, from, w);
    match probe_spec(word, c) {
        SlotProbe::Copy => {},
        SlotProbe::Overwritten(seen) => {
            assert(r.slots@[i].seq == seen);
            assert(seen >= c + cap) by {
                if seen < c + cap {
                    crate::math::lemma_distinct_slots(seen as int, c as int, cap);
                }
            }
            let o = oldest_of(max_of(w, seen), h.capacity);
            assert(o > c);
            assert forall|m: int| c <= m < o implies #[trigger] outrun(r, m) by {
                if w < seen {
                    assert(m + cap <= r.slots@[i].seq);
                }
            }
            lemma_receive_skips_only_lost(h.skipped_to(o), r);
        },
        SlotProbe::Pending => {
            if h.multi_producer {
                let o = oldest_of(w, h.capacity);
                if w - h.capacity >= c && o > c {
                    assert forall|m: int| c <= m < o implies #[trigger] outrun(r, m) by {}
                    lemma_receive_skips_only_lost(h.skipped_to(o), r);
                }
            } else if h.sparse {
                let p = h.polled();
                let n = next_present(r, from, w);
                if p.empty_polls % 64 == 0 && w >= c && word != SLOT_WRITING {
                    assert forall|m: int| c <= m < n implies #[trigger] outrun(r, m) || (m <= w
                        && r.slots@[m % cap].seq != m) by {
                        assert(r.word(m as u64) != m || m + cap <= w);
                    }
                    lemma_receive_skips_only_lost(p.skipped_to(n), r);
                }
            }
        },
    }
}

/// Whatever is loaded, a step gives up on no message that may still come, and stops at none
/// that is there. It passes over messages only if a number that is a full ring ahead of them was
/// loaded or seen, or if it scans a sparse ring for the next message that is there. It ends
/// without a message only if the word that it loaded says that the message is not there (yet),
/// or that the writers are less than a full ring ahead.
#[verifier::rlimit(50)]
pub proof fn lemma_step_gives_up_only_lost(h: ReadHead, phase: Phase, loaded: u64)
    requires
        h.wf(),
        scan_ok(h, phase),
        phase is HoleHead ==> loaded <= LAST_SEQ,
    ensures
        ({
            let (n, next, ask) = step_spec(h, phase, loaded);
            let c = h.cursor;
            &&& n.cursor > c ==> match phase {
                Phase::Lapped { seen } => n.cursor - 1 + h.capacity == (if loaded >= seen {
                    loaded
                } else {
                    seen
                }),
                Phase::HoleProbe { write_seq } => loaded < c && n.cursor > write_seq && (n.cursor
                    == c + 1 || n.cursor - 1 + h.capacity <= write_seq),
                Phase::HoleScan { write_seq, next: m } => n.cursor == (if loaded == m {
                    m as int
                } else {
                    m + 1
                }) && (loaded == m || m == write_seq),
                _ => false,
            }
            &&& phase is Probe && loaded == c ==> ask == (Ask::Copy { of: c })
            &&& phase is Confirm && loaded == c ==> ask is Item
            &&& phase is Probe && c < loaded < SLOT_WRITING ==> next == (Phase::Lapped {
                seen: loaded,
            })
            &&& ask is Empty ==> match phase {
                Phase::Probe => loaded < c || loaded == SLOT_WRITING,
                Phase::Confirm => false,
                Phase::Lapped { seen } => loaded < c + h.capacity && seen < c + h.capacity,
                Phase::Stalled => loaded < c + h.capacity,
                Phase::HoleHead => loaded < c,
                Phase::HoleProbe { .. } => loaded == SLOT_WRITING || loaded >= c,
                Phase::HoleScan { .. } => false,
            }
            &&& ask is Empty && phase is Probe ==> !h.multi_producer && (h.sparse
                ==> n.empty_polls % 64 != 0)
        }),
{
}

/// What a step asks for next belongs to what it is about to learn. A scan of a sparse ring
/// starts behind the cursor at the oldest message retained, and goes on one message at a time
/// up to the newest one; a message is taken only after its word was read again.
#[verifier::rlimit(50)]
pub proof fn lemma_step_asks(h: ReadHead, phase: Phase, loaded: u64)
    requires
        h.wf(),
        scan_ok(h, phase),
        phase is HoleHead ==> loaded <= LAST_SEQ,
    ensures
        ({
            let (n, next, ask) = step_spec(h, phase, loaded);
            let c = h.cursor;
            &&& !(ask is Empty || ask is Item) ==> match next {
                Phase::Probe => ask == (Ask::Word { of: n.cursor, report: true }),
                Phase::Confirm => ask == (Ask::Copy { of: c }),
                Phase::HoleProbe { write_seq } => ask == (Ask::Word { of: c, report: false })
                    && phase is HoleHead && write_seq == loaded,
                Phase::HoleScan { write_seq, next: m } => ask == (Ask::Word {
                    of: m,
                    report: false,
                }) && match phase {
                    Phase::HoleProbe { write_seq: w } => write_seq == w && loaded < c && m > c && m
                        + h.capacity > w && (m == c + 1 || m + h.capacity == w + 1),
                    Phase::HoleScan { write_seq: w, next: p } => write_seq == w && m == p + 1
                        && loaded != p && p < w,
                    _ => false,
                },
                Phase::Lapped { seen } => ask is WriteSeq && match phase {
                    Phase::Probe => seen == loaded && c < loaded < SLOT_WRITING,
                    Phase::Confirm => loaded != c && seen == (if loaded == SLOT_WRITING {
                        0
                    } else {
                        loaded
                    }),
                    Phase::Stalled => loaded >= c + h.capacity,
                    _ => false,
                },
                Phase::Stalled => ask is WriteSeq && phase is Probe && h.multi_producer && (loaded
                    < c || loaded == SLOT_WRITING),
                Phase::HoleHead => ask is WriteSeq && phase is Probe && h.sparse
                    && !h.multi_producer && n.empty_polls % 64 == 0,
            }
            &&& phase is Probe && (loaded < c || loaded == SLOT_WRITING) ==> {
                &&& h.multi_producer ==> next is Stalled && n == h
                &&& !h.multi_producer && h.sparse ==> n.empty_polls == (h.empty_polls + 1)
                    % 0x1_0000_0000 && (n.empty_polls % 64 == 0 <==> next is HoleHead)
                &&& !h.multi_producer && !h.sparse ==> ask is Empty && n == h
            }
            &&& phase is HoleScan && loaded != phase->next && phase->next < phase->HoleScan_write_seq
                ==> next is HoleScan
            &&& phase is HoleScan && loaded == phase->next ==> n.cursor == phase->next
        }),
{
}

/// Taking a message moves the cursor to the next one and nothing else; skipping moves it to
/// where it is told, and counts what lies in between.
pub proof fn lemma_cursor_moves(h: ReadHead, to: u64)
    requires
        h.cursor < u64::MAX,
        to >= h.cursor,
    ensures
        h.accepted().cursor == h.cursor + 1,
        h.accepted().lapped_total == h.lapped_total,
        h.accepted().capacity == h.capacity,
        h.accepted().empty_polls == h.empty_polls,
        h.skipped_to(to).cursor == to,
        h.skipped_to(to).lapped_total == (h.lapped_total + (to - h.cursor))
            % 0x1_0000_0000_0000_0000,
        h.skipped_to(to).capacity == h.capacity,
{
}

} // verus!
