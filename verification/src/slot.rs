//! The slot protocol: how a writer publishes a message and how a reader copies it without
//! ever trusting a torn copy.
//!
//! A writer stores [`SLOT_WRITING`] in the slot's sequence word, then the payload, then the
//! message's sequence number. A reader loads the word, copies the payload, and loads the
//! word again.
use crate::header::{Slot, SLOT_WRITING};
use vstd::prelude::*;

verus! {

/// What the first load of a slot's sequence word tells a reader that wants message `want`.
#[derive(Debug, Clone, Copy, PartialEq, Eq, Structural)]
pub enum SlotProbe {
    /// The slot holds the message: copy the payload and load the word again.
    Copy,
    /// The message is not published yet (or the slot is mid-write).
    Pending,
    /// The message was overwritten; carries the newer sequence observed.
    Overwritten(u64),
}

/// Outcome of reading one slot.
#[derive(Debug, Clone, Copy)]
pub enum SlotRead<T> {
    /// The slot held message `want` and was copied without interference.
    Item(T),
    /// Message `want` is not published yet (or the slot is mid-write).
    Pending,
    /// Message `want` was overwritten; carries the newer sequence observed (0 if unknown).
    Overwritten(u64),
}

/// Meaning of a slot's sequence word for a reader that wants message `want`.
pub open spec fn probe_spec(word: u64, want: u64) -> SlotProbe {
    if word == want {
        SlotProbe::Copy
    } else if word == SLOT_WRITING || word < want {
        SlotProbe::Pending
    } else {
        SlotProbe::Overwritten(word)
    }
}

/// Judges the first load of a slot's sequence word.
pub fn probe(word: u64, want: u64) -> (r: SlotProbe)
    ensures
        r == probe_spec(word, want),
{
    if word == want {
        SlotProbe::Copy
    } else if word == SLOT_WRITING || word < want {
        SlotProbe::Pending
    } else {
        SlotProbe::Overwritten(word)
    }
}

/// The newer sequence that a reader learns of when the word has changed under its copy
/// (0 if the slot is mid-write).
pub open spec fn seen_in(word: u64) -> u64 {
    if word == SLOT_WRITING {
        0
    } else {
        word
    }
}

/// Judges the second load of a slot's sequence word: `None` if the copy stands, else the
/// newer sequence observed (0 if unknown).
pub fn confirm(word: u64, want: u64) -> (r: Option<u64>)
    ensures
        r == (if word == want {
            None
        } else {
            Some(seen_in(word))
        }),
{
    if word == want {
        None
    } else if word == SLOT_WRITING {
        Some(0)
    } else {
        Some(word)
    }
}

/// Reads message `want` from a slot that nobody is writing to.
pub fn read_slot<T: Copy>(slot: &Slot<T>, want: u64) -> (r: SlotRead<T>)
    ensures
        r == (match probe_spec(slot.seq, want) {
            SlotProbe::Copy => match slot.data {
                Some(d) => SlotRead::Item(d),
                None => SlotRead::Pending,
            },
            SlotProbe::Pending => SlotRead::Pending,
            SlotProbe::Overwritten(s) => SlotRead::Overwritten(s),
        }),
{
    match probe(slot.seq, want) {
        SlotProbe::Copy => match slot.data {
            Some(d) => match confirm(slot.seq, want) {
                None => SlotRead::Item(d),
                Some(s) => SlotRead::Overwritten(s),
            },
            None => SlotRead::Pending,
        },
        SlotProbe::Pending => SlotRead::Pending,
        SlotProbe::Overwritten(s) => SlotRead::Overwritten(s),
    }
}

/// Writes `item` into a slot as message `seq`: mark the slot [`SLOT_WRITING`], store the
/// payload, then publish `seq`.
pub fn write_slot<T: Copy>(slot: &mut Slot<T>, seq: u64, item: T)
    ensures
        *final(slot) == (Slot { seq, data: Some(item) }),
{
    slot.seq = SLOT_WRITING;
    slot.data = Some(item);
    slot.seq = seq;
}

/// A slot at one moment: its sequence word, and the words of its payload.
pub struct SlotMoment<W> {
    pub seq: u64,
    pub words: Seq<W>,
}

/// One memory access of a writer takes the slot from `a` to `b`: it marks the slot, changes
/// a marked slot's payload, or publishes.
pub open spec fn writer_step<W>(a: SlotMoment<W>, b: SlotMoment<W>) -> bool {
    ||| a == b
    ||| b.seq == SLOT_WRITING && b.words == a.words
    ||| a.seq == SLOT_WRITING && b.seq == SLOT_WRITING && b.words.len() == a.words.len()
    ||| a.seq == SLOT_WRITING && b.seq != SLOT_WRITING && b.words == a.words
}

/// The life of a slot under the protocol: writers take one step after another, and each
/// publishes a higher number than the slot has held before.
pub open spec fn slot_history<W>(h: Seq<SlotMoment<W>>) -> bool {
    &&& forall|i: int| 0 <= i && i + 1 < h.len() ==> writer_step(#[trigger] h[i], h[i + 1])
    &&& forall|i: int, k: int|
        0 <= k <= i && i + 1 < h.len() && (#[trigger] h[i]).seq == SLOT_WRITING && h[i + 1].seq
            != SLOT_WRITING && (#[trigger] h[k]).seq != SLOT_WRITING ==> h[k].seq < h[i + 1].seq
}

/// Once a slot that held `want` is marked, it never holds `want` again.
proof fn lemma_marked_never_returns<W>(h: Seq<SlotMoment<W>>, t1: int, s: int, t: int, want: u64)
    requires
        slot_history(h),
        0 <= t1 < s <= t < h.len(),
        want != SLOT_WRITING,
        h[t1].seq == want,
        h[s].seq == SLOT_WRITING,
    ensures
        h[t].seq == SLOT_WRITING || h[t].seq > want,
    decreases t - s,
{
    if t > s {
        lemma_marked_never_returns(h, t1, s, t - 1, want);
        assert(writer_step(h[t - 1], h[t - 1 + 1]));
        if h[t - 1].seq == SLOT_WRITING && h[t].seq != SLOT_WRITING {
            assert(h[t1].seq < h[t - 1 + 1].seq);
        }
    }
}

/// Between two moments at which a slot holds `want`, nothing in it changes.
proof fn lemma_held_between<W>(h: Seq<SlotMoment<W>>, t1: int, t2: int, t: int, want: u64)
    requires
        slot_history(h),
        0 <= t1 <= t <= t2 < h.len(),
        want != SLOT_WRITING,
        h[t1].seq == want,
        h[t2].seq == want,
    ensures
        h[t] == h[t1],
    decreases t - t1,
{
    if t > t1 {
        lemma_held_between(h, t1, t2, t - 1, want);
        assert(writer_step(h[t - 1], h[t - 1 + 1]));
        if h[t].seq == SLOT_WRITING {
            lemma_marked_never_returns(h, t1, t, t2, want);
        }
    }
}

/// No torn reads. Whatever writers do meanwhile, a reader that finds `want` in the sequence
/// word before (`t1`) and after (`t2`) copying the payload word by word has copied exactly
/// the payload of message `want`: every word it read at some moment in between is a word of
/// that one payload.
pub proof fn lemma_no_torn_read<W>(
    h: Seq<SlotMoment<W>>,
    t1: int,
    t2: int,
    want: u64,
    read_at: Seq<int>,
    copy: Seq<W>,
)
    requires
        slot_history(h),
        0 <= t1 <= t2 < h.len(),
        want != SLOT_WRITING,
        h[t1].seq == want,
        h[t2].seq == want,
        read_at.len() == h[t1].words.len(),
        copy.len() == h[t1].words.len(),
        forall|k: int|
            0 <= k < copy.len() ==> t1 <= #[trigger] read_at[k] <= t2 && copy[k]
                == h[read_at[k]].words[k],
    ensures
        copy == h[t1].words,
{
    assert forall|k: int| 0 <= k < copy.len() implies copy[k] == h[t1].words[k] by {
        let t = read_at[k];
        lemma_held_between(h, t1, t2, t, want);
    }
    assert(copy =~= h[t1].words);
}

/// The three stores of [`write_slot`] are steps of the protocol.
pub proof fn lemma_write_follows_protocol<W>(
    before: SlotMoment<W>,
    words: Seq<W>,
    seq: u64,
)
    requires
        words.len() == before.words.len(),
        seq != SLOT_WRITING,
        before.seq == SLOT_WRITING || before.seq < seq,
    ensures
        slot_history(
            seq![
                before,
                SlotMoment { seq: SLOT_WRITING, words: before.words },
                SlotMoment { seq: SLOT_WRITING, words },
                SlotMoment { seq, words },
            ],
        ),
{
}

/// What a sequence word says to a reader of message `want`: the message itself is there, or a
/// later one is, which the reader learns; else it is still to come.
pub proof fn lemma_probe_meaning(word: u64, want: u64)
    ensures
        probe_spec(word, want) is Copy <==> word == want,
        want < word < SLOT_WRITING <==> probe_spec(word, want) == SlotProbe::Overwritten(word)
            && word != SLOT_WRITING,
        probe_spec(word, want) is Overwritten ==> want < word < SLOT_WRITING,
        word < want || (word == SLOT_WRITING && want != SLOT_WRITING) <==> probe_spec(word, want)
            is Pending,
        seen_in(SLOT_WRITING) == 0,
        word != SLOT_WRITING ==> seen_in(word) == word,
{
}

} // verus!
