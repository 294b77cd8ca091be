//! # RingMultiplexer & AsyncRingMultiplexer
//!
//! Channel multiplexer for polling across multiple independent ring buffers with fair
//! Round-Robin or Priority scheduling. Channel `i` reads the ring at index `i` of the rings
//! that are handed in.
use crate::async_ring::{AsyncRingConsumer, IdleBackoff, IdlePause};
use crate::consumer::{
    attached_plainly, lemma_moves_compose, lemma_poll_delivers, lemma_polled_moves,
    lemma_receive_same, moved, polled, ConsumerStartMode, RingConsumer,
};
use crate::error::RingfireError;
use crate::head::{
    lemma_receive_accounts, lemma_receive_from_log, lemma_receive_skips_only_lost, receive,
    ReadHead, Received,
};
use crate::ring::{slot_fits, Ring};
use crate::signature::LayoutSignature;
use crate::text::{decimal, push_decimal};
use vstd::arithmetic::div_mod::lemma_fundamental_div_mod_converse;
use vstd::prelude::*;
use vstd::string::StringExecFns;

verus! {

/// Synchronous channel multiplexer across multiple `RingConsumer<T>` instances.
#[derive(Debug)]
pub struct RingMultiplexer<T> {
    pub consumers: Vec<RingConsumer<T>>,
    pub names: Vec<String>,
    pub next_idx: usize,
}

/// How many channels a round that starts at `start` looks at before channel `idx`.
pub open spec fn turn(start: int, idx: int, n: int) -> int {
    if idx >= start {
        idx - start
    } else {
        idx + n - start
    }
}

/// What a channel's consumer finds in its ring.
pub open spec fn found<T>(m: &RingMultiplexer<T>, rings: Seq<Ring<T>>, i: int) -> Received {
    receive(m.consumers@[i].head, &rings[i])
}

/// Channel `i` was not touched.
pub open spec fn untouched<T>(
    m: &RingMultiplexer<T>,
    n: &RingMultiplexer<T>,
    a: Seq<Ring<T>>,
    b: Seq<Ring<T>>,
    i: int,
) -> bool {
    n.consumers@[i] == m.consumers@[i] && b[i] == a[i]
}

/// Channel `i` was polled, and had nothing.
pub open spec fn polled_in_vain<T>(
    m: &RingMultiplexer<T>,
    n: &RingMultiplexer<T>,
    a: Seq<Ring<T>>,
    b: Seq<Ring<T>>,
    i: int,
) -> bool {
    &&& !found(m, a, i).item
    &&& polled(&m.consumers@[i], &n.consumers@[i], &a[i], &b[i], None)
}

/// Channel `i` was polled, and delivered `msg`.
pub open spec fn delivered<T>(
    m: &RingMultiplexer<T>,
    n: &RingMultiplexer<T>,
    a: Seq<Ring<T>>,
    b: Seq<Ring<T>>,
    i: int,
    msg: T,
) -> bool {
    &&& found(m, a, i).item
    &&& polled(&m.consumers@[i], &n.consumers@[i], &a[i], &b[i], Some(msg))
}

/// A round that starts at `start` delivered from the first channel, in round order, that had
/// a message; `r` says from which and what.
pub open spec fn round<T>(
    m: &RingMultiplexer<T>,
    n: &RingMultiplexer<T>,
    a: Seq<Ring<T>>,
    b: Seq<Ring<T>>,
    start: int,
    r: Option<(usize, T)>,
) -> bool {
    let len = m.consumers@.len() as int;
    &&& n.consumers@.len() == len
    &&& n.names == m.names
    &&& b.len() == a.len()
    &&& match r {
        None => forall|j: int|
            0 <= j < len ==> #[trigger] polled_in_vain(m, n, a, b, j),
        Some((idx, msg)) => {
            &&& idx < len
            &&& delivered(m, n, a, b, idx as int, msg)
            &&& forall|j: int|
                0 <= j < len && turn(start, j, len) < turn(start, idx as int, len)
                    ==> #[trigger] polled_in_vain(m, n, a, b, j)
            &&& forall|j: int|
                0 <= j < len && turn(start, j, len) > turn(start, idx as int, len)
                    ==> #[trigger] untouched(m, n, a, b, j)
        },
    }
}

/// The read positions of all channels.
pub open spec fn heads<T>(m: &RingMultiplexer<T>) -> Seq<ReadHead> {
    m.consumers@.map_values(|c: RingConsumer<T>| c.head)
}

/// The rings hold the same messages; registries may differ.
pub open spec fn same_messages<T>(a: Seq<Ring<T>>, b: Seq<Ring<T>>) -> bool {
    &&& b.len() == a.len()
    &&& forall|i: int|
        #![trigger a[i]]
        #![trigger b[i]]
        0 <= i < a.len() ==> b[i].header == a[i].header && b[i].slots == a[i].slots
}

/// The read positions and the delivery of a round that starts at `start` and has looked at
/// `i` channels already.
pub open spec fn rest_of_round<T>(hs: Seq<ReadHead>, rings: Seq<Ring<T>>, start: int, i: int) -> (
    Seq<ReadHead>,
    Option<(int, T)>,
)
    decreases rings.len() - i,
{
    if i >= rings.len() {
        (hs, None)
    } else {
        let idx = if start + i < rings.len() {
            start + i
        } else {
            start + i - rings.len()
        };
        let end = receive(hs[idx], &rings[idx]);
        if end.item {
            (
                hs.update(idx, end.head.accepted()),
                Some((idx, rings[idx].message(end.head.cursor))),
            )
        } else {
            rest_of_round(hs.update(idx, end.head), rings, start, i + 1)
        }
    }
}

/// Where the round after a delivery from `idx` starts, among `n` channels.
pub open spec fn after_channel(idx: int, n: int) -> int {
    if idx + 1 < n {
        idx + 1
    } else {
        0
    }
}

/// The channel whose turn comes after that of `idx`, among `n` channels.
pub fn next_channel(idx: usize, n: usize) -> (r: usize)
    requires
        idx < n,
    ensures
        r == after_channel(idx as int, n as int),
        r < n,
{
    if idx + 1 < n {
        idx + 1
    } else {
        0
    }
}

/// One round over `channels` channels: each is looked at once, in turn, until one delivers.
#[derive(Debug, Clone, Copy)]
pub struct PollRound {
    pub channels: usize,
    /// The channel whose turn it is
    pub idx: usize,
    /// How many channels were looked at in vain
    pub looked: usize,
}

impl PollRound {
    /// The round started at `start` and has got to its channel.
    pub open spec fn started_at(self, start: int) -> bool {
        &&& 0 <= start < self.channels
        &&& self.idx < self.channels
        &&& self.looked <= self.channels
        &&& self.looked < self.channels ==> turn(start, self.idx as int, self.channels as int)
            == self.looked
    }

    /// A round that starts at `start`.
    pub fn starting_at(start: usize, channels: usize) -> (r: Self)
        requires
            start < channels,
        ensures
            r == (PollRound { channels, idx: start, looked: 0 }),
            r.started_at(start as int),
    {
        PollRound { channels, idx: start, looked: 0 }
    }

    /// The channel to look at, `None` once all were looked at.
    pub fn channel(&self) -> (r: Option<usize>)
        ensures
            r == (if self.looked < self.channels {
                Some(self.idx)
            } else {
                None
            }),
    {
        if self.looked < self.channels {
            Some(self.idx)
        } else {
            None
        }
    }

    /// The channel had nothing: it is the next one's turn.
    pub fn missed(&mut self)
        requires
            old(self).idx < old(self).channels,
            old(self).looked < old(self).channels,
        ensures
            *final(self) == (PollRound {
                idx: after_channel(old(self).idx as int, old(self).channels as int) as usize,
                looked: (old(self).looked + 1) as usize,
                ..*old(self)
            }),
            forall|start: int| #[trigger]
                old(self).started_at(start) ==> final(self).started_at(start),
    {
        self.idx = next_channel(self.idx, self.channels);
        self.looked = self.looked + 1;
    }

    /// The channel delivered: where the next round starts.
    pub fn hit(&self) -> (r: usize)
        requires
            self.idx < self.channels,
        ensures
            r == after_channel(self.idx as int, self.channels as int),
            r < self.channels,
    {
        next_channel(self.idx, self.channels)
    }
}

/// The read positions, the start of the next round and the deliveries of up to `k` rounds,
/// the last of which may find nothing.
pub open spec fn rounds<T>(hs: Seq<ReadHead>, rings: Seq<Ring<T>>, start: int, k: nat) -> (
    Seq<ReadHead>,
    int,
    Seq<(int, T)>,
)
    decreases k,
{
    let one = rest_of_round(hs, rings, start, 0);
    if k == 0 {
        (hs, start, Seq::empty())
    } else {
        match one.1 {
            None => (one.0, start, Seq::empty()),
            Some(d) => {
                let more = rounds(one.0, rings, after_channel(d.0, hs.len() as int), (k - 1) as nat);
                (more.0, more.1, seq![d] + more.2)
            },
        }
    }
}

/// A delivery with its channel as a number.
pub open spec fn as_delivery<T>(d: (usize, T)) -> (int, T) {
    (d.0 as int, d.1)
}

/// A round finds the same in rings that hold the same messages.
proof fn lemma_round_same<T>(hs: Seq<ReadHead>, a: Seq<Ring<T>>, b: Seq<Ring<T>>, start: int, i: int)
    requires
        same_messages(a, b),
        hs.len() == a.len(),
        0 <= start < hs.len(),
        0 <= i,
    ensures
        rest_of_round(hs, b, start, i) == rest_of_round(hs, a, start, i),
    decreases hs.len() - i,
{
    if i < hs.len() {
        let idx = if start + i < hs.len() {
            start + i
        } else {
            start + i - hs.len()
        };
        assert(b[idx].header == a[idx].header);
        lemma_receive_same(hs[idx], &a[idx], &b[idx]);
        let end = receive(hs[idx], &a[idx]);
        lemma_round_same(hs.update(idx, end.head), a, b, start, i + 1);
    }
}

/// Rounds find the same in rings that hold the same messages.
proof fn lemma_rounds_same<T>(hs: Seq<ReadHead>, a: Seq<Ring<T>>, b: Seq<Ring<T>>, start: int, k: nat)
    requires
        same_messages(a, b),
        hs.len() == a.len(),
        0 <= start < hs.len() || (hs.len() == 0 && start == 0),
    ensures
        rounds(hs, b, start, k) == rounds(hs, a, start, k),
    decreases k,
{
    if k > 0 && hs.len() > 0 {
        lemma_round_same(hs, a, b, start, 0);
        let one = rest_of_round(hs, a, start, 0);
        lemma_round_shape(hs, a, start, 0);
        if let Some(d) = one.1 {
            lemma_rounds_same(one.0, a, b, after_channel(d.0, hs.len() as int), (k - 1) as nat);
        }
    }
}

/// A round keeps the number of channels and delivers from one of them.
proof fn lemma_round_shape<T>(hs: Seq<ReadHead>, a: Seq<Ring<T>>, start: int, i: int)
    requires
        hs.len() == a.len(),
        0 <= start < hs.len(),
        0 <= i,
    ensures
        rest_of_round(hs, a, start, i).0.len() == hs.len(),
        rest_of_round(hs, a, start, i).1 matches Some(d) ==> 0 <= d.0 < hs.len(),
    decreases hs.len() - i,
{
    if i < hs.len() {
        let idx = if start + i < hs.len() {
            start + i
        } else {
            start + i - hs.len()
        };
        lemma_round_shape(hs.update(idx, receive(hs[idx], &a[idx]).head), a, start, i + 1);
    }
}

/// Channel `i` was polled any number of times: see [`moved`].
pub open spec fn channel_moved<T>(
    m: &RingMultiplexer<T>,
    n: &RingMultiplexer<T>,
    a: Seq<Ring<T>>,
    b: Seq<Ring<T>>,
    i: int,
) -> bool {
    moved(&m.consumers@[i], &n.consumers@[i], &a[i], &b[i])
}

proof fn lemma_round_moves<T>(
    m: &RingMultiplexer<T>,
    n: &RingMultiplexer<T>,
    a: Seq<Ring<T>>,
    b: Seq<Ring<T>>,
    r: Option<(usize, T)>,
)
    requires
        m.ready(a),
        n.ready(b),
        round(m, n, a, b, m.next_idx as int, r),
    ensures
        forall|j: int| 0 <= j < a.len() ==> #[trigger] channel_moved(m, n, a, b, j),
{
    let len = m.consumers@.len() as int;
    let start = m.next_idx as int;
    assert forall|j: int| 0 <= j < a.len() implies #[trigger] channel_moved(m, n, a, b, j) by {
        assert(a[j].wf() && m.consumers@[j].attached(&a[j]));
        assert(b[j].wf() && n.consumers@[j].attached(&b[j]));
        let (c, d) = (&m.consumers@[j], &n.consumers@[j]);
        match r {
            None => {
                assert(polled_in_vain(m, n, a, b, j));
                lemma_polled_moves(c, d, &a[j], &b[j], None);
            },
            Some((idx, msg)) => {
                if j == idx {
                    lemma_polled_moves(c, d, &a[j], &b[j], Some(msg));
                } else if turn(start, j, len) < turn(start, idx as int, len) {
                    assert(polled_in_vain(m, n, a, b, j));
                    lemma_polled_moves(c, d, &a[j], &b[j], None);
                } else {
                    assert(untouched(m, n, a, b, j));
                }
            },
        }
    }
}

impl<T> RingMultiplexer<T> {
    /// Every channel's consumer belongs to its ring.
    pub open spec fn ready(&self, rings: Seq<Ring<T>>) -> bool {
        &&& self.consumers@.len() == rings.len()
        &&& self.names@.len() == self.consumers@.len()
        &&& self.next_idx < self.consumers@.len() || self.next_idx == 0
        &&& forall|i: int|
            #![trigger self.consumers@[i]]
            #![trigger rings[i]]
            0 <= i < rings.len() ==> rings[i].wf() && self.consumers@[i].attached(&rings[i])
    }
}

impl<T: Copy> Default for RingMultiplexer<T> {
    fn default() -> (m: Self)
        ensures
            m.consumers@.len() == 0,
            m.names@.len() == 0,
            m.next_idx == 0,
    {
        Self::new()
    }
}

impl<T: Copy> RingMultiplexer<T> {
    /// Creates a new empty `RingMultiplexer`.
    pub fn new() -> (m: Self)
        ensures
            m.consumers@.len() == 0,
            m.names@.len() == 0,
            m.next_idx == 0,
    {
        RingMultiplexer { consumers: Vec::new(), names: Vec::new(), next_idx: 0 }
    }

    /// Adds an existing `RingConsumer` to the multiplexer. Returns its channel index.
    pub fn add(&mut self, consumer: RingConsumer<T>) -> (idx: usize)
        requires
            old(self).names@.len() == old(self).consumers@.len(),
        ensures
            idx == old(self).consumers@.len(),
            final(self).consumers@ == old(self).consumers@.push(consumer),
            final(self).names@.len() == old(self).names@.len() + 1,
            final(self).names@.drop_last() == old(self).names@,
            final(self).names@.last()@ == "channel_"@ + decimal(idx as nat),
            final(self).next_idx == old(self).next_idx,
    {
        let idx: usize = self.consumers.len();
        let mut name = String::from_str("channel_");
        push_decimal(&mut name, idx as u64);
        self.names.push(name);
        self.consumers.push(consumer);
        assert(self.names@.drop_last() =~= old(self).names@);
        idx
    }

    /// Adds an existing `RingConsumer` with a human-readable channel name.
    pub fn add_named(&mut self, name: String, consumer: RingConsumer<T>) -> (idx: usize)
        requires
            old(self).names@.len() == old(self).consumers@.len(),
        ensures
            idx == old(self).consumers@.len(),
            final(self).consumers@ == old(self).consumers@.push(consumer),
            final(self).names@ == old(self).names@.push(name),
            final(self).next_idx == old(self).next_idx,
    {
        let idx: usize = self.consumers.len();
        self.names.push(name);
        self.consumers.push(consumer);
        idx
    }

    /// Total number of multiplexed ring buffer channels.
    pub fn len(&self) -> (n: usize)
        ensures
            n == self.consumers@.len(),
    {
        self.consumers.len()
    }

    /// Returns `true` if no channels have been added yet.
    pub fn is_empty(&self) -> (r: bool)
        ensures
            r == (self.consumers@.len() == 0),
    {
        self.consumers.len() == 0
    }

    /// Name of the channel at index `idx`.
    pub fn channel_name(&self, idx: usize) -> (r: Option<&str>)
        ensures
            match r {
                Some(s) => idx < self.names@.len() && s@ == self.names@[idx as int]@,
                None => idx >= self.names@.len(),
            },
    {
        if idx < self.names.len() {
            Some(self.names[idx].as_str())
        } else {
            None
        }
    }

    /// Reference to the underlying consumer at index `idx`.
    pub fn consumer(&self, idx: usize) -> (r: Option<&RingConsumer<T>>)
        ensures
            match r {
                Some(c) => idx < self.consumers@.len() && *c == self.consumers@[idx as int],
                None => idx >= self.consumers@.len(),
            },
    {
        if idx < self.consumers.len() {
            Some(&self.consumers[idx])
        } else {
            None
        }
    }

    /// Mutable reference to the underlying consumer at index `idx`.
    pub fn consumer_mut(&mut self, idx: usize) -> (r: Option<&mut RingConsumer<T>>)
        ensures
            match r {
                Some(c) => {
                    &&& idx < old(self).consumers@.len()
                    &&& *c == old(self).consumers@[idx as int]
                    &&& final(self).consumers@ == old(self).consumers@.update(
                        idx as int,
                        *final(c),
                    )
                    &&& final(self).names == old(self).names
                    &&& final(self).next_idx == old(self).next_idx
                },
                None => idx >= old(self).consumers@.len() && *final(self) == *old(self),
            },
    {
        if idx < self.consumers.len() {
            Some(&mut self.consumers[idx])
        } else {
            None
        }
    }

    /// Polls channel `idx`.
    fn poll(&mut self, rings: &mut Vec<Ring<T>>, idx: usize) -> (r: Option<T>)
        requires
            old(self).ready(old(rings)@),
            idx < old(rings)@.len(),
        ensures
            final(self).ready(final(rings)@),
            final(self).next_idx == old(self).next_idx,
            final(self).names == old(self).names,
            final(self).consumers@.len() == old(self).consumers@.len(),
            final(rings)@.len() == old(rings)@.len(),
            match r {
                Some(msg) => delivered(
                    old(self),
                    final(self),
                    old(rings)@,
                    final(rings)@,
                    idx as int,
                    msg,
                ),
                None => polled_in_vain(
                    old(self),
                    final(self),
                    old(rings)@,
                    final(rings)@,
                    idx as int,
                ),
            },
            forall|j: int|
                0 <= j < old(rings)@.len() && j != idx ==> #[trigger] untouched(
                    old(self),
                    final(self),
                    old(rings)@,
                    final(rings)@,
                    j,
                ),
    {
        assert(rings@[idx as int].wf());
        let ring = &mut rings[idx];
        let consumer = &mut self.consumers[idx];
        consumer.try_recv(ring)
    }

    /// Polls all channels using fair Round-Robin scheduling.
    ///
    /// Returns `Some((channel_index, message))` from the next available channel,
    /// or `None` if all channels are currently empty.
    pub fn try_recv_any(&mut self, rings: &mut Vec<Ring<T>>) -> (r: Option<(usize, T)>)
        requires
            old(self).ready(old(rings)@),
        ensures
            final(self).ready(final(rings)@),
            round(
                old(self),
                final(self),
                old(rings)@,
                final(rings)@,
                old(self).next_idx as int,
                r,
            ),
            final(self).next_idx == (match r {
                Some((idx, _)) => after_channel(idx as int, old(self).consumers@.len() as int),
                None => old(self).next_idx as int,
            }),
            same_messages(old(rings)@, final(rings)@),
            ({
                let one = rest_of_round(
                    heads(old(self)),
                    old(rings)@,
                    old(self).next_idx as int,
                    0,
                );
                &&& heads(final(self)) == one.0
                &&& match r {
                    Some(d) => one.1 == Some(as_delivery(d)),
                    None => one.1 is None,
                }
            }),
    {
        let n: usize = self.consumers.len();
        if n == 0 {
            return None;
        }
        let start: usize = self.next_idx;
        let mut round = PollRound::starting_at(start, n);
        while round.looked < n
            invariant
                n == old(self).consumers@.len(),
                n == old(rings)@.len(),
                n > 0,
                round.channels == n,
                round.started_at(start as int),
                start < n,
                start == old(self).next_idx,
                self.next_idx == start,
                same_messages(old(rings)@, rings@),
                rest_of_round(heads(old(self)), old(rings)@, start as int, 0) == rest_of_round(
                    heads(self),
                    old(rings)@,
                    start as int,
                    round.looked as int,
                ),
                self.ready(rings@),
                self.names == old(self).names,
                self.consumers@.len() == n,
                rings@.len() == n,
                forall|j: int|
                    0 <= j < n && turn(start as int, j, n as int) < round.looked
                        ==> #[trigger] polled_in_vain(old(self), self, old(rings)@, rings@, j),
                forall|j: int|
                    0 <= j < n && turn(start as int, j, n as int) >= round.looked ==> #[trigger] untouched(
                        old(self),
                        self,
                        old(rings)@,
                        rings@,
                        j,
                    ),
            decreases n - round.looked,
        {
            let idx: usize = round.idx;
            let ghost i = round.looked as int;
            let ghost m = *self;
            let ghost a = rings@;
            assert(untouched(old(self), self, old(rings)@, rings@, idx as int));
            let got = self.poll(rings, idx);
            proof {
                assert(heads(self) =~= heads(&m).update(idx as int, heads(self)[idx as int])) by {
                    assert forall|j: int| 0 <= j < n && j != idx implies heads(self)[j] == heads(&m)[j] by {
                        assert(untouched(&m, self, a, rings@, j));
                    }
                }
                assert(same_messages(old(rings)@, rings@)) by {
                    assert forall|j: int| 0 <= j < n implies rings@[j].header == old(
                        rings,
                    )@[j].header && rings@[j].slots == old(rings)@[j].slots by {
                        assert(a[j].header == old(rings)@[j].header);
                        if j != idx {
                            assert(untouched(&m, self, a, rings@, j));
                        }
                    }
                }
                lemma_receive_same(
                    m.consumers@[idx as int].head,
                    &old(rings)@[idx as int],
                    &a[idx as int],
                );
                assert forall|j: int|
                    0 <= j < n && turn(start as int, j, n as int) < i implies
                #[trigger] polled_in_vain(old(self), self, old(rings)@, rings@, j) by {
                    assert(j != idx);
                    assert(polled_in_vain(old(self), &m, old(rings)@, a, j));
                    assert(untouched(&m, self, a, rings@, j));
                }
                assert forall|j: int|
                    0 <= j < n && turn(start as int, j, n as int) > i implies
                #[trigger] untouched(old(self), self, old(rings)@, rings@, j) by {
                    assert(j != idx);
                    assert(untouched(old(self), &m, old(rings)@, a, j));
                    assert(untouched(&m, self, a, rings@, j));
                }
            }
            if let Some(msg) = got {
                let ghost p = *self;
                self.next_idx = round.hit();
                proof {
                    assert forall|j: int|
                        0 <= j < n && turn(start as int, j, n as int) < i implies
                    #[trigger] polled_in_vain(old(self), self, old(rings)@, rings@, j) by {
                        assert(polled_in_vain(old(self), &p, old(rings)@, rings@, j));
                    }
                    assert forall|j: int|
                        0 <= j < n && turn(start as int, j, n as int) > i implies
                    #[trigger] untouched(old(self), self, old(rings)@, rings@, j) by {
                        assert(untouched(old(self), &p, old(rings)@, rings@, j));
                    }
                }
                return Some((idx, msg));
            }
            proof {
                assert(polled_in_vain(old(self), self, old(rings)@, rings@, idx as int));
                assert forall|j: int|
                    0 <= j < n && turn(start as int, j, n as int) < i + 1 implies
                #[trigger] polled_in_vain(old(self), self, old(rings)@, rings@, j) by {
                    if j != idx {
                        assert(turn(start as int, j, n as int) != i);
                    }
                }
            }
            round.missed();
        }
        None
    }

    /// Polls channels strictly in priority order (0, 1, 2, ..., N-1).
    ///
    /// Favors higher-priority channels.
    pub fn try_recv_priority(&mut self, rings: &mut Vec<Ring<T>>) -> (r: Option<(usize, T)>)
        requires
            old(self).ready(old(rings)@),
        ensures
            final(self).ready(final(rings)@),
            round(old(self), final(self), old(rings)@, final(rings)@, 0, r),
            final(self).next_idx == old(self).next_idx,
    {
        let n: usize = self.consumers.len();
        let mut i: usize = 0;
        while i < n
            invariant
                n == old(self).consumers@.len(),
                n == old(rings)@.len(),
                i <= n,
                self.next_idx == old(self).next_idx,
                self.ready(rings@),
                self.names == old(self).names,
                self.consumers@.len() == n,
                rings@.len() == n,
                forall|j: int|
                    0 <= j < i ==> #[trigger] polled_in_vain(
                        old(self),
                        self,
                        old(rings)@,
                        rings@,
                        j,
                    ),
                forall|j: int|
                    i <= j < n ==> #[trigger] untouched(old(self), self, old(rings)@, rings@, j),
            decreases n - i,
        {
            let ghost m = *self;
            let ghost a = rings@;
            assert(untouched(old(self), self, old(rings)@, rings@, i as int));
            let got = self.poll(rings, i);
            proof {
                assert forall|j: int| 0 <= j < i implies #[trigger] polled_in_vain(
                    old(self),
                    self,
                    old(rings)@,
                    rings@,
                    j,
                ) by {
                    assert(polled_in_vain(old(self), &m, old(rings)@, a, j));
                    assert(untouched(&m, self, a, rings@, j));
                }
                assert forall|j: int| i < j < n implies #[trigger] untouched(
                    old(self),
                    self,
                    old(rings)@,
                    rings@,
                    j,
                ) by {
                    assert(untouched(old(self), &m, old(rings)@, a, j));
                    assert(untouched(&m, self, a, rings@, j));
                }
            }
            if let Some(msg) = got {
                return Some((i, msg));
            }
            i = i + 1;
        }
        None
    }

    /// Drains up to `max_items` across all channels in a single batch.
    pub fn recv_batch_any(&mut self, rings: &mut Vec<Ring<T>>, max_items: usize) -> (out: Vec<
        (usize, T),
    >)
        requires
            old(self).ready(old(rings)@),
        ensures
            final(self).ready(final(rings)@),
            out@.len() <= max_items,
            same_messages(old(rings)@, final(rings)@),
            final(self).names == old(self).names,
            final(self).consumers@.len() == old(self).consumers@.len(),
            forall|j: int|
                0 <= j < old(rings)@.len() ==> #[trigger] channel_moved(
                    old(self),
                    final(self),
                    old(rings)@,
                    final(rings)@,
                    j,
                ),
            (
                heads(final(self)),
                final(self).next_idx as int,
                out@.map_values(|d: (usize, T)| as_delivery(d)),
            ) == rounds(
                heads(old(self)),
                old(rings)@,
                old(self).next_idx as int,
                max_items as nat,
            ),
    {
        let mut out: Vec<(usize, T)> = Vec::new();
        let ghost to_number = |d: (usize, T)| as_delivery(d);
        let ghost whole = rounds(
            heads(self),
            rings@,
            self.next_idx as int,
            max_items as nat,
        );
        assert(out@.map_values(to_number) =~= Seq::empty());
        while out.len() < max_items
            invariant_except_break
                ({
                    let rest = rounds(
                        heads(self),
                        old(rings)@,
                        self.next_idx as int,
                        (max_items - out@.len()) as nat,
                    );
                    whole == (rest.0, rest.1, out@.map_values(to_number) + rest.2)
                }),
            invariant
                to_number == (|d: (usize, T)| as_delivery(d)),
                whole == rounds(
                    heads(old(self)),
                    old(rings)@,
                    old(self).next_idx as int,
                    max_items as nat,
                ),
                out@.len() <= max_items,
                self.names == old(self).names,
                same_messages(old(rings)@, rings@),
                old(self).ready(old(rings)@),
                self.ready(rings@),
                forall|j: int|
                    0 <= j < old(rings)@.len() ==> #[trigger] channel_moved(
                        old(self),
                        self,
                        old(rings)@,
                        rings@,
                        j,
                    ),
            ensures
                whole == (
                    heads(self),
                    self.next_idx as int,
                    out@.map_values(to_number),
                ),
            decreases max_items - out@.len(),
        {
            let ghost k = (max_items - out@.len()) as nat;
            let ghost before = out@.map_values(to_number);
            let ghost m = *self;
            let ghost a = rings@;
            proof {
                if rings@.len() > 0 {
                    lemma_round_same(
                        heads(self),
                        old(rings)@,
                        rings@,
                        self.next_idx as int,
                        0,
                    );
                }
                assert(before + Seq::empty() =~= before);
            }
            let next = self.try_recv_any(rings);
            proof {
                lemma_round_moves(&m, self, a, rings@, next);
                assert forall|j: int| 0 <= j < old(rings)@.len() implies #[trigger] channel_moved(
                    old(self),
                    self,
                    old(rings)@,
                    rings@,
                    j,
                ) by {
                    assert(channel_moved(old(self), &m, old(rings)@, a, j));
                    assert(channel_moved(&m, self, a, rings@, j));
                    assert(old(self).consumers@[j].attached(&old(rings)@[j]));
                    lemma_moves_compose(
                        &old(self).consumers@[j],
                        &m.consumers@[j],
                        &self.consumers@[j],
                        &old(rings)@[j],
                        &a[j],
                        &rings@[j],
                    );
                }
            }
            match next {
                Some(got) => {
                    out.push(got);
                    proof {
                        assert(out@.map_values(to_number) =~= before.push(as_delivery(got)));
                        let rest = rounds(
                            heads(self),
                            old(rings)@,
                            self.next_idx as int,
                            (k - 1) as nat,
                        );
                        assert(before + (seq![as_delivery(got)] + rest.2) =~= out@.map_values(
                            to_number,
                        ) + rest.2);
                    }
                },
                None => break,
            }
        }
        out
    }
}

impl<T: Copy + LayoutSignature> RingMultiplexer<T> {
    /// Attaches to a ring buffer and adds it to the multiplexer, to be read as the next of
    /// the multiplexer's rings.
    pub fn attach(&mut self, ring: &mut Ring<T>, pid: u32, live: &[u32]) -> (r: Result<
        usize,
        RingfireError,
    >)
        requires
            old(ring).wf(),
            slot_fits::<T>(),
            old(self).names@.len() == old(self).consumers@.len(),
        ensures
            match r {
                Ok(idx) => {
                    &&& idx == old(self).consumers@.len()
                    &&& final(self).consumers@.len() == idx + 1
                    &&& final(self).consumers@.drop_last() == old(self).consumers@
                    &&& final(self).names@.last()@ == "channel_"@ + decimal(idx as nat)
                    &&& final(self).names@.len() == idx + 1
                    &&& final(self).names@.drop_last() == old(self).names@
                    &&& attached_plainly(
                        ConsumerStartMode::Oldest,
                        pid,
                        live@,
                        old(ring),
                        final(ring),
                        Ok(final(self).consumers@.last()),
                    )
                },
                Err(e) => {
                    &&& *final(self) == *old(self)
                    &&& attached_plainly(
                        ConsumerStartMode::Oldest,
                        pid,
                        live@,
                        old(ring),
                        final(ring),
                        Err(e),
                    )
                },
            },
            final(self).next_idx == old(self).next_idx,
    {
        match RingConsumer::attach(ring, pid, live) {
            Ok(c) => {
                let idx: usize = self.add(c);
                assert(self.consumers@.drop_last() =~= old(self).consumers@);
                Ok(idx)
            },
            Err(e) => Err(e),
        }
    }

    /// Attaches to a ring buffer with a custom channel name.
    pub fn attach_named(
        &mut self,
        name: String,
        ring: &mut Ring<T>,
        pid: u32,
        live: &[u32],
    ) -> (r: Result<usize, RingfireError>)
        requires
            old(ring).wf(),
            slot_fits::<T>(),
            old(self).names@.len() == old(self).consumers@.len(),
        ensures
            match r {
                Ok(idx) => {
                    &&& idx == old(self).consumers@.len()
                    &&& final(self).consumers@.len() == idx + 1
                    &&& final(self).consumers@.drop_last() == old(self).consumers@
                    &&& final(self).names@ == old(self).names@.push(name)
                    &&& attached_plainly(
                        ConsumerStartMode::Oldest,
                        pid,
                        live@,
                        old(ring),
                        final(ring),
                        Ok(final(self).consumers@.last()),
                    )
                },
                Err(e) => {
                    &&& *final(self) == *old(self)
                    &&& attached_plainly(
                        ConsumerStartMode::Oldest,
                        pid,
                        live@,
                        old(ring),
                        final(ring),
                        Err(e),
                    )
                },
            },
            final(self).next_idx == old(self).next_idx,
    {
        match RingConsumer::attach(ring, pid, live) {
            Ok(c) => {
                let idx: usize = self.add_named(name, c);
                assert(self.consumers@.drop_last() =~= old(self).consumers@);
                Ok(idx)
            },
            Err(e) => Err(e),
        }
    }
}

/// Channel multiplexer for use in an asynchronous task.
#[derive(Debug)]
pub struct AsyncRingMultiplexer<T> {
    pub inner: RingMultiplexer<T>,
}

impl<T: Copy> Default for AsyncRingMultiplexer<T> {
    fn default() -> (m: Self)
        ensures
            m.inner.consumers@.len() == 0,
            m.inner.names@.len() == 0,
            m.inner.next_idx == 0,
    {
        Self::new()
    }
}

impl<T: Copy> AsyncRingMultiplexer<T> {
    /// Creates a new empty multiplexer.
    pub fn new() -> (m: Self)
        ensures
            m.inner.consumers@.len() == 0,
            m.inner.names@.len() == 0,
            m.inner.next_idx == 0,
    {
        AsyncRingMultiplexer { inner: RingMultiplexer::new() }
    }

    /// Adds a consumer. Returns its channel index.
    pub fn add(&mut self, consumer: AsyncRingConsumer<T>) -> (idx: usize)
        requires
            old(self).inner.names@.len() == old(self).inner.consumers@.len(),
        ensures
            idx == old(self).inner.consumers@.len(),
            final(self).inner.consumers@ == old(self).inner.consumers@.push(consumer.inner),
            final(self).inner.names@.len() == old(self).inner.names@.len() + 1,
            final(self).inner.names@.drop_last() == old(self).inner.names@,
            final(self).inner.names@.last()@ == "channel_"@ + decimal(idx as nat),
            final(self).inner.next_idx == old(self).inner.next_idx,
    {
        self.inner.add(consumer.inner)
    }

    /// Adds a consumer with a human-readable channel name.
    pub fn add_named(&mut self, name: String, consumer: AsyncRingConsumer<T>) -> (idx: usize)
        requires
            old(self).inner.names@.len() == old(self).inner.consumers@.len(),
        ensures
            idx == old(self).inner.consumers@.len(),
            final(self).inner.consumers@ == old(self).inner.consumers@.push(consumer.inner),
            final(self).inner.names@ == old(self).inner.names@.push(name),
            final(self).inner.next_idx == old(self).inner.next_idx,
    {
        self.inner.add_named(name, consumer.inner)
    }

    /// Total number of multiplexed channels.
    pub fn len(&self) -> (n: usize)
        ensures
            n == self.inner.consumers@.len(),
    {
        self.inner.len()
    }

    /// Returns `true` if no channels have been added yet.
    pub fn is_empty(&self) -> (r: bool)
        ensures
            r == (self.inner.consumers@.len() == 0),
    {
        self.inner.is_empty()
    }

    /// Name of the channel at index `idx`.
    pub fn channel_name(&self, idx: usize) -> (r: Option<&str>)
        ensures
            match r {
                Some(s) => idx < self.inner.names@.len() && s@ == self.inner.names@[idx as int]@,
                None => idx >= self.inner.names@.len(),
            },
    {
        self.inner.channel_name(idx)
    }

    /// Polls all channels using fair Round-Robin scheduling.
    pub fn try_recv_any(&mut self, rings: &mut Vec<Ring<T>>) -> (r: Option<(usize, T)>)
        requires
            old(self).inner.ready(old(rings)@),
        ensures
            final(self).inner.ready(final(rings)@),
            round(
                &old(self).inner,
                &final(self).inner,
                old(rings)@,
                final(rings)@,
                old(self).inner.next_idx as int,
                r,
            ),
            final(self).inner.next_idx == (match r {
                Some((idx, _)) => after_channel(
                    idx as int,
                    old(self).inner.consumers@.len() as int,
                ),
                None => old(self).inner.next_idx as int,
            }),
    {
        self.inner.try_recv_any(rings)
    }

    /// How a task passes the time while it waits on the channels.
    pub fn backoff(&self) -> (b: IdleBackoff)
        ensures
            b == (IdleBackoff {
                max_spins: 64,
                max_yields: 16,
                sleep_ns: 10_000,
                spins: 0,
                yields: 0,
            }),
    {
        IdleBackoff::new(64, 16, 10_000)
    }

    /// One turn of waiting for a message on any channel: the channel and the message, or how
    /// to pass the time until the next turn.
    pub fn recv_any(&mut self, rings: &mut Vec<Ring<T>>, idle: &mut IdleBackoff) -> (r: Result<
        (usize, T),
        IdlePause,
    >)
        requires
            old(self).inner.ready(old(rings)@),
        ensures
            final(self).inner.ready(final(rings)@),
            round(
                &old(self).inner,
                &final(self).inner,
                old(rings)@,
                final(rings)@,
                old(self).inner.next_idx as int,
                r.ok(),
            ),
            final(self).inner.next_idx == (match r {
                Ok((idx, _)) => after_channel(
                    idx as int,
                    old(self).inner.consumers@.len() as int,
                ),
                Err(_) => old(self).inner.next_idx as int,
            }),
            match r {
                Ok(_) => *final(idle) == *old(idle),
                Err(p) => (*final(idle), p) == old(idle).next(),
            },
    {
        match self.inner.try_recv_any(rings) {
            Some(d) => Ok(d),
            None => Err(idle.pause()),
        }
    }
}

impl<T: Copy + LayoutSignature> AsyncRingMultiplexer<T> {
    /// Attaches to a ring buffer and adds it to the multiplexer, to be read as the next of
    /// the multiplexer's rings.
    pub fn attach(&mut self, ring: &mut Ring<T>, pid: u32, live: &[u32]) -> (r: Result<
        usize,
        RingfireError,
    >)
        requires
            old(ring).wf(),
            slot_fits::<T>(),
            old(self).inner.names@.len() == old(self).inner.consumers@.len(),
        ensures
            match r {
                Ok(idx) => {
                    &&& idx == old(self).inner.consumers@.len()
                    &&& final(self).inner.consumers@.len() == idx + 1
                    &&& final(self).inner.consumers@.drop_last() == old(self).inner.consumers@
                    &&& final(self).inner.names@.len() == idx + 1
                    &&& final(self).inner.names@.drop_last() == old(self).inner.names@
                    &&& final(self).inner.names@.last()@ == "channel_"@ + decimal(idx as nat)
                    &&& attached_plainly(
                        ConsumerStartMode::Oldest,
                        pid,
                        live@,
                        old(ring),
                        final(ring),
                        Ok(final(self).inner.consumers@.last()),
                    )
                },
                Err(e) => {
                    &&& *final(self) == *old(self)
                    &&& attached_plainly(
                        ConsumerStartMode::Oldest,
                        pid,
                        live@,
                        old(ring),
                        final(ring),
                        Err(e),
                    )
                },
            },
            final(self).inner.next_idx == old(self).inner.next_idx,
    {
        self.inner.attach(ring, pid, live)
    }

    /// Attaches to a ring buffer with a custom channel name.
    pub fn attach_named(
        &mut self,
        name: String,
        ring: &mut Ring<T>,
        pid: u32,
        live: &[u32],
    ) -> (r: Result<usize, RingfireError>)
        requires
            old(ring).wf(),
            slot_fits::<T>(),
            old(self).inner.names@.len() == old(self).inner.consumers@.len(),
        ensures
            match r {
                Ok(idx) => {
                    &&& idx == old(self).inner.consumers@.len()
                    &&& final(self).inner.consumers@.len() == idx + 1
                    &&& final(self).inner.consumers@.drop_last() == old(self).inner.consumers@
                    &&& final(self).inner.names@ == old(self).inner.names@.push(name)
                    &&& attached_plainly(
                        ConsumerStartMode::Oldest,
                        pid,
                        live@,
                        old(ring),
                        final(ring),
                        Ok(final(self).inner.consumers@.last()),
                    )
                },
                Err(e) => {
                    &&& *final(self) == *old(self)
                    &&& attached_plainly(
                        ConsumerStartMode::Oldest,
                        pid,
                        live@,
                        old(ring),
                        final(ring),
                        Err(e),
                    )
                },
            },
            final(self).inner.next_idx == old(self).inner.next_idx,
    {
        self.inner.attach_named(name, ring, pid, live)
    }
}

/// Fair scheduling. A channel that has a message and is not served in a round moves closer
/// to the front: after a delivery from `idx`, the next round reaches channel `j` after fewer
/// channels than this one did. So it is served after at most as many deliveries as there
/// were channels ahead of it.
pub proof fn lemma_round_robin_is_fair<T>(
    m: &RingMultiplexer<T>,
    n: &RingMultiplexer<T>,
    a: Seq<Ring<T>>,
    b: Seq<Ring<T>>,
    idx: usize,
    msg: T,
    j: int,
)
    requires
        m.next_idx < m.consumers@.len(),
        round(m, n, a, b, m.next_idx as int, Some((idx, msg))),
        n.next_idx == (if idx + 1 < m.consumers@.len() {
            idx + 1
        } else {
            0
        }),
        0 <= j < m.consumers@.len(),
        found(m, a, j).item,
        j != idx,
    ensures
        turn(n.next_idx as int, j, m.consumers@.len() as int) < turn(
            m.next_idx as int,
            j,
            m.consumers@.len() as int,
        ),
{
    let len = m.consumers@.len() as int;
    let start = m.next_idx as int;
    if turn(start, j, len) < turn(start, idx as int, len) {
        assert(polled_in_vain(m, n, a, b, j));
    }
}

/// Priority scheduling. Nothing is delivered from a channel while one before it has a
/// message.
pub proof fn lemma_priority_order<T>(
    m: &RingMultiplexer<T>,
    n: &RingMultiplexer<T>,
    a: Seq<Ring<T>>,
    b: Seq<Ring<T>>,
    idx: usize,
    msg: T,
    j: int,
)
    requires
        round(m, n, a, b, 0, Some((idx, msg))),
        0 <= j < idx,
    ensures
        !found(m, a, j).item,
{
    assert(polled_in_vain(m, n, a, b, j));
}

/// The channel that a round over `n` channels that starts at `start` looks at after `x` others.
pub open spec fn channel_at(start: int, x: int, n: int) -> int {
    (start + x) % n
}

proof fn lemma_channel_at(start: int, x: int, n: int)
    requires
        0 <= start < n,
        0 <= x < n,
    ensures
        channel_at(start, x, n) == (if start + x < n {
            start + x
        } else {
            start + x - n
        }),
        0 <= channel_at(start, x, n) < n,
{
    if start + x < n {
        lemma_fundamental_div_mod_converse(start + x, n, 0, start + x);
    } else {
        lemma_fundamental_div_mod_converse(start + x, n, 1, start + x - n);
    }
}

proof fn lemma_channels_distinct(start: int, x: int, y: int, n: int)
    requires
        0 <= start < n,
        0 <= x < n,
        0 <= y < n,
        x != y,
    ensures
        channel_at(start, x, n) != channel_at(start, y, n),
{
    lemma_channel_at(start, x, n);
    lemma_channel_at(start, y, n);
}

/// A round in full, from the `i`-th of its channels on: it looks at the channels in cyclic order
/// and delivers from the first that has a message (the `d`-th) exactly what that channel's
/// consumer finds; the channels before it had nothing, and those behind it are not touched. If
/// no channel has a message, nothing is delivered.
pub proof fn lemma_round_order<T>(hs: Seq<ReadHead>, rings: Seq<Ring<T>>, start: int, i: int) -> (d:
    int)
    requires
        hs.len() == rings.len(),
        0 <= start < rings.len(),
        0 <= i <= rings.len(),
    ensures
        ({
            let n = rings.len() as int;
            let (after, r) = rest_of_round(hs, rings, start, i);
            &&& after.len() == n
            &&& i <= d <= n
            &&& r is Some <==> d < n
            &&& r matches Some((idx, msg)) ==> {
                let end = receive(hs[idx], &rings[idx]);
                &&& idx == (start + d) % n
                &&& 0 <= idx < n
                &&& end.item
                &&& msg == rings[idx].message(end.head.cursor)
                &&& after[idx] == end.head.accepted()
            }
            &&& forall|x: int|
                #![trigger channel_at(start, x, n)]
                0 <= x < n && x != d ==> {
                    let j = channel_at(start, x, n);
                    let end = receive(hs[j], &rings[j]);
                    if i <= x < d {
                        !end.item && after[j] == end.head
                    } else {
                        after[j] == hs[j]
                    }
                }
        }),
    decreases rings.len() - i,
{
    let n = rings.len() as int;
    if i == n {
        n
    } else {
        lemma_channel_at(start, i, n);
        let idx = channel_at(start, i, n);
        let end = receive(hs[idx], &rings[idx]);
        if end.item {
            assert forall|x: int| #![trigger channel_at(start, x, n)] 0 <= x < n && x != i implies {
                let j = channel_at(start, x, n);
                rest_of_round(hs, rings, start, i).0[j] == hs[j]
            } by {
                lemma_channel_at(start, x, n);
                lemma_channels_distinct(start, x, i, n);
            }
            i
        } else {
            let next = hs.update(idx, end.head);
            let d = lemma_round_order(next, rings, start, i + 1);
            let after = rest_of_round(hs, rings, start, i).0;
            assert(after == rest_of_round(next, rings, start, i + 1).0);
            assert forall|x: int| #![trigger channel_at(start, x, n)] 0 <= x < n && x != d implies {
                let j = channel_at(start, x, n);
                let e = receive(hs[j], &rings[j]);
                if i <= x < d {
                    !e.item && after[j] == e.head
                } else {
                    after[j] == hs[j]
                }
            } by {
                lemma_channel_at(start, x, n);
                if x != i {
                    lemma_channels_distinct(start, x, i, n);
                }
            }
            if d < n {
                lemma_channel_at(start, d, n);
                lemma_channels_distinct(start, d, i, n);
            }
            d
        }
    }
}

/// After a delivery the next channel is first: the one behind it in cyclic order.
pub proof fn lemma_next_channel_is_first(idx: int, n: int)
    requires
        0 <= idx < n,
    ensures
        after_channel(idx, n) == (idx + 1) % n,
{
    if idx + 1 < n {
        lemma_fundamental_div_mod_converse(idx + 1, n, 0, idx + 1);
    } else {
        lemma_fundamental_div_mod_converse(idx + 1, n, 1, 0);
    }
}

/// A batch of `k + 1` across all channels is one round and then a batch of `k`, that starts
/// behind the channel that delivered. It goes on as long as rounds deliver.
#[verifier::rlimit(50)]
pub proof fn lemma_batch_is_rounds<T>(hs: Seq<ReadHead>, rings: Seq<Ring<T>>, start: int, k: nat)
    requires
        hs.len() == rings.len(),
        0 <= start < rings.len(),
    ensures
        rounds(hs, rings, start, 0).2.len() == 0,
        rounds(hs, rings, start, 0).0 == hs,
        match rest_of_round(hs, rings, start, 0).1 {
            Some((idx, msg)) => {
                let more = rounds(
                    rest_of_round(hs, rings, start, 0).0,
                    rings,
                    (idx + 1) % rings.len() as int,
                    k,
                );
                rounds(hs, rings, start, k + 1) == (more.0, more.1, seq![(idx, msg)] + more.2)
            },
            None => rounds(hs, rings, start, k + 1) == (
                rest_of_round(hs, rings, start, 0).0,
                start,
                Seq::<(int, T)>::empty(),
            ),
        },
{
    let _d = lemma_round_order(hs, rings, start, 0);
    if let Some((idx, msg)) = rest_of_round(hs, rings, start, 0).1 {
        lemma_next_channel_is_first(idx, rings.len() as int);
    }
}

/// Every channel's read position belongs to its ring.
pub open spec fn positions_ok<T>(hs: Seq<ReadHead>, rings: Seq<Ring<T>>) -> bool {
    &&& hs.len() == rings.len()
    &&& forall|j: int|
        #![trigger hs[j]]
        #![trigger rings[j]]
        0 <= j < rings.len() ==> rings[j].wf() && hs[j].reads(&rings[j])
}

/// What one round does to the channels, by channel: see [`lemma_round_order`].
proof fn lemma_round_by_channel<T>(hs: Seq<ReadHead>, rings: Seq<Ring<T>>, start: int, j: int)
    requires
        positions_ok(hs, rings),
        0 <= start < rings.len(),
        0 <= j < rings.len(),
    ensures
        positions_ok(rest_of_round(hs, rings, start, 0).0, rings),
        ({
            let (after, r) = rest_of_round(hs, rings, start, 0);
            let end = receive(hs[j], &rings[j]);
            &&& r is None ==> !end.item && after[j] == end.head
            &&& r matches Some((idx, msg)) ==> 0 <= idx < rings.len() && if idx == j {
                end.item && after[j] == end.head.accepted() && msg == rings[j].message(
                    end.head.cursor,
                )
            } else {
                after[j] == hs[j] || (!end.item && after[j] == end.head)
            }
        }),
{
    let n = rings.len() as int;
    let d = lemma_round_order(hs, rings, start, 0);
    let (after, r) = rest_of_round(hs, rings, start, 0);
    assert forall|k: int|
        #![trigger after[k]]
        #![trigger rings[k]]
        0 <= k < n implies rings[k].wf() && after[k].reads(&rings[k]) && {
        let end = receive(hs[k], &rings[k]);
        &&& r is None ==> !end.item && after[k] == end.head
        &&& r matches Some((idx, msg)) ==> idx != k ==> after[k] == hs[k] || (!end.item && after[k]
            == end.head)
    } by {
        let x = turn(start, k, n);
        lemma_channel_at(start, x, n);
        assert(channel_at(start, x, n) == k);
        lemma_receive_accounts(hs[k], &rings[k]);
        if d < n {
            lemma_channel_at(start, d, n);
        }
        let end = receive(hs[k], &rings[k]);
        if x == d {
            let c = end.head.cursor;
            let i = rings[k].index(c);
            assert(0 <= i < rings[k].slots@.len());
            assert(crate::ring::slot_ok(rings[k].slots@[i], i, rings[k].header.capacity));
        }
    }
    assert(rings[j].wf() && after[j].reads(&rings[j]));
}

/// A batch across all channels is short only when everything is drained: if it delivers fewer
/// than `k` messages, then no channel has the next message of its consumer.
#[verifier::rlimit(50)]
pub proof fn lemma_short_batch_drained<T>(
    hs: Seq<ReadHead>,
    rings: Seq<Ring<T>>,
    start: int,
    k: nat,
    j: int,
)
    requires
        positions_ok(hs, rings),
        0 <= start < rings.len(),
        0 <= j < rings.len(),
    ensures
        ({
            let (after, next, ds) = rounds(hs, rings, start, k);
            &&& ds.len() <= k
            &&& after.len() == rings.len()
            &&& 0 <= next < rings.len()
            &&& ds.len() < k ==> rings[j].slots@[after[j].cursor as int
                % rings[j].header.capacity as int].seq != after[j].cursor
        }),
    decreases k,
{
    if k > 0 {
        let one = rest_of_round(hs, rings, start, 0);
        lemma_round_by_channel(hs, rings, start, j);
        lemma_receive_skips_only_lost(hs[j], &rings[j]);
        if let Some((idx, msg)) = one.1 {
            lemma_short_batch_drained(
                one.0,
                rings,
                after_channel(idx, hs.len() as int),
                (k - 1) as nat,
                j,
            );
        }
    }
}

/// What channel `j` delivered, in order.
pub open spec fn from_channel<T>(ds: Seq<(int, T)>, j: int) -> Seq<T>
    decreases ds.len(),
{
    if ds.len() == 0 {
        Seq::empty()
    } else {
        (if ds[0].0 == j {
            seq![ds[0].1]
        } else {
            Seq::empty()
        }) + from_channel(ds.drop_first(), j)
    }
}

/// A batch across all channels passes over nothing in silence: of every channel, what its cursor
/// passed was either delivered or counted as lapped.
#[verifier::rlimit(50)]
pub proof fn lemma_channels_account<T>(
    hs: Seq<ReadHead>,
    rings: Seq<Ring<T>>,
    start: int,
    k: nat,
    j: int,
)
    requires
        positions_ok(hs, rings),
        0 <= start < rings.len(),
        0 <= j < rings.len(),
    ensures
        ({
            let (after, _next, ds) = rounds(hs, rings, start, k);
            let got = from_channel(ds, j).len();
            &&& after[j].cursor >= hs[j].cursor + got
            &&& after[j].lapped_total == (hs[j].lapped_total + (after[j].cursor - hs[j].cursor
                - got)) % 0x1_0000_0000_0000_0000
        }),
    decreases k,
{
    if k > 0 {
        let one = rest_of_round(hs, rings, start, 0);
        lemma_round_by_channel(hs, rings, start, j);
        lemma_receive_accounts(hs[j], &rings[j]);
        if let Some((idx, msg)) = one.1 {
            let more = rounds(one.0, rings, after_channel(idx, hs.len() as int), (k - 1) as nat);
            lemma_channels_account(
                one.0,
                rings,
                after_channel(idx, hs.len() as int),
                (k - 1) as nat,
                j,
            );
            lemma_from_channel_front((idx, msg), more.2, j);
        }
    }
}

proof fn lemma_from_channel_front<T>(d: (int, T), ds: Seq<(int, T)>, j: int)
    ensures
        from_channel(seq![d] + ds, j) == (if d.0 == j {
            seq![d.1] + from_channel(ds, j)
        } else {
            from_channel(ds, j)
        }),
{
    assert((seq![d] + ds).drop_first() =~= ds);
    assert(from_channel(seq![d] + ds, j) =~= (if d.0 == j {
        seq![d.1] + from_channel(ds, j)
    } else {
        from_channel(ds, j)
    }));
}

/// The number of the message that a consumer at `h` reads next from a ring of which `last`
/// messages were published: its own, or the oldest one retained.
pub open spec fn reads_from(h: ReadHead, last: int) -> int {
    if h.cursor + h.capacity <= last {
        last - h.capacity + 1
    } else {
        h.cursor as int
    }
}

/// How many retained messages a consumer at `h` has not read, of a ring of which `last` messages
/// were published.
pub open spec fn unread(h: ReadHead, last: int) -> int {
    if h.cursor <= last {
        last - reads_from(h, last) + 1
    } else {
        0
    }
}

/// The unread messages of the first `m` channels.
pub open spec fn total_unread<T>(hs: Seq<ReadHead>, logs: Seq<Seq<T>>, m: int) -> int
    decreases m,
{
    if m <= 0 {
        0
    } else {
        total_unread(hs, logs, m - 1) + unread(hs[m - 1], logs[m - 1].len() as int)
    }
}

/// The ring of every channel holds the tail of its log.
pub open spec fn channels_hold<T>(rings: Seq<Ring<T>>, logs: Seq<Seq<T>>) -> bool {
    &&& logs.len() == rings.len()
    &&& forall|j: int|
        #![trigger logs[j]]
        #![trigger rings[j]]
        0 <= j < rings.len() ==> rings[j].holds_log(logs[j])
}

proof fn lemma_total_changes_by_one<T>(
    a: Seq<ReadHead>,
    b: Seq<ReadHead>,
    logs: Seq<Seq<T>>,
    idx: int,
    m: int,
)
    requires
        0 <= m <= logs.len(),
        forall|j: int|
            0 <= j < m && j != idx ==> unread(#[trigger] b[j], logs[j].len() as int) == unread(
                a[j],
                logs[j].len() as int,
            ),
        0 <= idx < m ==> unread(b[idx], logs[idx].len() as int) == unread(
            a[idx],
            logs[idx].len() as int,
        ) - 1,
    ensures
        total_unread(b, logs, m) == total_unread(a, logs, m) - (if 0 <= idx < m {
            1int
        } else {
            0
        }),
    decreases m,
{
    if m > 0 {
        lemma_total_changes_by_one(a, b, logs, idx, m - 1);
        if m - 1 != idx {
            assert(unread(b[m - 1], logs[m - 1].len() as int) == unread(
                a[m - 1],
                logs[m - 1].len() as int,
            ));
        }
    }
}

proof fn lemma_total_is_zero<T>(hs: Seq<ReadHead>, logs: Seq<Seq<T>>, m: int)
    requires
        0 <= m <= logs.len(),
        forall|j: int| 0 <= j < m ==> unread(#[trigger] hs[j], logs[j].len() as int) == 0,
    ensures
        total_unread(hs, logs, m) == 0,
    decreases m,
{
    if m > 0 {
        lemma_total_is_zero(hs, logs, m - 1);
        assert(unread(hs[m - 1], logs[m - 1].len() as int) == 0);
    }
}

proof fn lemma_total_not_negative<T>(hs: Seq<ReadHead>, logs: Seq<Seq<T>>, m: int)
    requires
        0 <= m <= logs.len(),
        forall|j: int| 0 <= j < m ==> (#[trigger] hs[j]).capacity >= 1,
    ensures
        total_unread(hs, logs, m) >= 0,
    decreases m,
{
    if m > 0 {
        lemma_total_not_negative(hs, logs, m - 1);
        assert(hs[m - 1].capacity >= 1);
    }
}

/// A batch across all channels delivers as much as there is, up to `k` messages: with rings that
/// hold logs, as many as `k` or the retained unread messages of all channels together, whichever
/// is less. What channel `j` delivered is the next part of its log, in order and without a gap.
#[verifier::rlimit(50)]
pub proof fn lemma_batch_from_logs<T>(
    hs: Seq<ReadHead>,
    rings: Seq<Ring<T>>,
    start: int,
    k: nat,
    logs: Seq<Seq<T>>,
    j: int,
)
    requires
        positions_ok(hs, rings),
        channels_hold(rings, logs),
        0 <= start < rings.len(),
        0 <= j < rings.len(),
    ensures
        ({
            let (after, _next, ds) = rounds(hs, rings, start, k);
            let total = total_unread(hs, logs, rings.len() as int);
            let got = from_channel(ds, j);
            let to = reads_from(hs[j], logs[j].len() as int);
            &&& ds.len() == (if k <= total {
                k as int
            } else {
                total
            })
            &&& if got.len() == 0 {
                after[j].cursor == hs[j].cursor
            } else {
                &&& after[j].cursor == to + got.len()
                &&& 1 <= to
                &&& to + got.len() - 1 <= logs[j].len()
                &&& got == logs[j].subrange(to - 1, to - 1 + got.len())
            }
        }),
    decreases k,
{
    let n = rings.len() as int;
    lemma_total_not_negative(hs, logs, n);
    if k > 0 {
        let (after, r) = rest_of_round(hs, rings, start, 0);
        assert forall|c: int| 0 <= c < n implies {
            let last = logs[c].len() as int;
            &&& r is None ==> unread(#[trigger] hs[c], last) == 0 && after[c].cursor == hs[c].cursor
            &&& r matches Some((idx, msg)) ==> 0 <= idx < n && if idx == c {
                &&& unread(after[c], last) == unread(hs[c], last) - 1
                &&& after[c].cursor == reads_from(hs[c], last) + 1
                &&& hs[c].cursor <= last
                &&& 1 <= reads_from(hs[c], last) <= last
                &&& msg == logs[c][reads_from(hs[c], last) - 1]
            } else {
                unread(after[c], last) == unread(hs[c], last) && after[c].cursor == hs[c].cursor
                    && after[c].capacity == hs[c].capacity
            }
        } by {
            lemma_round_by_channel(hs, rings, start, c);
            assert(rings[c].holds_log(logs[c]));
            lemma_receive_from_log(hs[c], &rings[c], logs[c]);
        }
        lemma_round_by_channel(hs, rings, start, j);
        match r {
            None => {
                lemma_total_is_zero(hs, logs, n);
                assert(hs[j].capacity >= 1);
            },
            Some((idx, msg)) => {
                assert(hs[idx].capacity >= 1);
                assert forall|c: int| 0 <= c < n && c != idx implies unread(
                    #[trigger] after[c],
                    logs[c].len() as int,
                ) == unread(hs[c], logs[c].len() as int) by {
                    assert(hs[c].capacity >= 1);
                }
                lemma_total_changes_by_one(hs, after, logs, idx, n);
                let s = after_channel(idx, n);
                lemma_batch_from_logs(after, rings, s, (k - 1) as nat, logs, j);
                lemma_total_not_negative(after, logs, n);
                let more = rounds(after, rings, s, (k - 1) as nat);
                lemma_from_channel_front((idx, msg), more.2, j);
                let got = from_channel(seq![(idx, msg)] + more.2, j);
                let rest = from_channel(more.2, j);
                let to = reads_from(hs[j], logs[j].len() as int);
                assert(hs[j].capacity >= 1);
                if idx == j {
                    assert(got =~= logs[j].subrange(to - 1, to - 1 + got.len()));
                }
            },
        }
    } else {
        assert(from_channel(rounds(hs, rings, start, k).2, j).len() == 0);
    }
}

/// The same of a multiplexer: what [`RingMultiplexer::recv_batch_any`] promises is a batch that
/// is short only when no channel has a message left for its consumer, and of which every channel
/// accounts for what its cursor passed.
#[verifier::rlimit(50)]
pub proof fn lemma_multiplexed_batch_complete<T>(
    m: &RingMultiplexer<T>,
    rings: Seq<Ring<T>>,
    k: nat,
    j: int,
)
    requires
        m.ready(rings),
        0 <= j < rings.len(),
    ensures
        ({
            let (after, _next, ds) = rounds(heads(m), rings, m.next_idx as int, k);
            let was = m.consumers@[j].head;
            let got = from_channel(ds, j).len();
            &&& ds.len() <= k
            &&& ds.len() < k ==> rings[j].slots@[after[j].cursor as int
                % rings[j].header.capacity as int].seq != after[j].cursor
            &&& after[j].cursor >= was.cursor + got
            &&& after[j].lapped_total == (was.lapped_total + (after[j].cursor - was.cursor
                - got)) % 0x1_0000_0000_0000_0000
        }),
{
    let hs = heads(m);
    assert forall|i: int|
        #![trigger hs[i]]
        #![trigger rings[i]]
        0 <= i < rings.len() implies rings[i].wf() && hs[i].reads(&rings[i]) by {
        assert(m.consumers@[i].attached(&rings[i]));
    }
    lemma_short_batch_drained(hs, rings, m.next_idx as int, k, j);
    lemma_channels_account(hs, rings, m.next_idx as int, k, j);
}

/// A round delivers if any channel has the next message of its consumer, whatever the order in
/// which it looks; what it delivers stood in the ring of its channel right before that
/// consumer's new cursor.
pub proof fn lemma_round_delivers<T>(
    m: &RingMultiplexer<T>,
    n: &RingMultiplexer<T>,
    a: Seq<Ring<T>>,
    b: Seq<Ring<T>>,
    start: int,
    r: Option<(usize, T)>,
    j: int,
)
    requires
        m.ready(a),
        round(m, n, a, b, start, r),
        0 <= j < a.len(),
    ensures
        a[j].slots@[m.consumers@[j].head.cursor as int % a[j].header.capacity as int].seq
            == m.consumers@[j].head.cursor ==> r is Some,
        r matches Some((idx, msg)) ==> {
            let last = n.consumers@[idx as int].head.cursor - 1;
            let slot = a[idx as int].slots@[last % a[idx as int].header.capacity as int];
            &&& idx < a.len()
            &&& last >= m.consumers@[idx as int].head.cursor
            &&& slot.seq == last
            &&& slot.data == Some(msg)
        },
{
    assert(a[j].wf() && m.consumers@[j].attached(&a[j]));
    lemma_poll_finds(m, a, j);
    match r {
        None => {
            assert(polled_in_vain(m, n, a, b, j));
        },
        Some((idx, msg)) => {
            let i = idx as int;
            assert(a[i].wf() && m.consumers@[i].attached(&a[i]));
            lemma_poll_delivers(&m.consumers@[i], &n.consumers@[i], &a[i], &b[i], Some(msg));
        },
    }
}

proof fn lemma_poll_finds<T>(m: &RingMultiplexer<T>, a: Seq<Ring<T>>, j: int)
    requires
        a[j].wf(),
        m.consumers@[j].attached(&a[j]),
    ensures
        a[j].slots@[m.consumers@[j].head.cursor as int % a[j].header.capacity as int].seq
            == m.consumers@[j].head.cursor ==> found(m, a, j).item,
{
    lemma_receive_skips_only_lost(m.consumers@[j].head, &a[j]);
}

/// A round takes turns from where it starts: every channel whose turn came before the one that
/// delivered, or every channel if none did, was polled and stands at a message that is not
/// there; every channel whose turn had not come is left alone, and so is its ring.
pub proof fn lemma_round_takes_turns<T>(
    m: &RingMultiplexer<T>,
    n: &RingMultiplexer<T>,
    a: Seq<Ring<T>>,
    b: Seq<Ring<T>>,
    start: int,
    r: Option<(usize, T)>,
    j: int,
)
    requires
        m.ready(a),
        round(m, n, a, b, start, r),
        0 <= start < a.len(),
        0 <= j < a.len(),
    ensures
        n.consumers@.len() == m.consumers@.len(),
        n.names == m.names,
        b.len() == a.len(),
        ({
            let len = a.len() as int;
            let mine = (j - start) % len;
            let c = n.consumers@[j].head.cursor;
            let missing = a[j].slots@[c as int % a[j].header.capacity as int].seq != c;
            match r {
                None => missing && c >= m.consumers@[j].head.cursor,
                Some((idx, _)) => {
                    let its = (idx - start) % len;
                    &&& mine < its ==> missing && c >= m.consumers@[j].head.cursor
                    &&& mine > its ==> n.consumers@[j] == m.consumers@[j] && b[j] == a[j]
                    &&& mine == its ==> j == idx
                },
            }
        }),
{
    let len = a.len() as int;
    assert(a[j].wf() && m.consumers@[j].attached(&a[j]));
    lemma_receive_skips_only_lost(m.consumers@[j].head, &a[j]);
    lemma_turn_is_distance(start, j, len);
    match r {
        None => {
            assert(polled_in_vain(m, n, a, b, j));
        },
        Some((idx, _)) => {
            lemma_turn_is_distance(start, idx as int, len);
            if turn(start, j, len) < turn(start, idx as int, len) {
                assert(polled_in_vain(m, n, a, b, j));
            } else if turn(start, j, len) > turn(start, idx as int, len) {
                assert(untouched(m, n, a, b, j));
            }
        },
    }
}

proof fn lemma_turn_is_distance(start: int, idx: int, n: int)
    requires
        0 <= start < n,
        0 <= idx < n,
    ensures
        turn(start, idx, n) == (idx - start) % n,
{
    if idx >= start {
        lemma_fundamental_div_mod_converse(idx - start, n, 0, idx - start);
    } else {
        lemma_fundamental_div_mod_converse(idx - start, n, -1, idx - start + n);
    }
}

} // verus!
