//! Receiving in an asynchronous task: what a task does between two polls of a ring.
//!
//! The runtime's part (yielding and sleeping) is the caller's; each turn here polls once and
//! says how to pass the time until the next turn.
use crate::consumer::{
    attached_plainly, jumped, moved, polled, ConsumerStartMode, RingConsumer,
};
use crate::error::RingfireError;
use crate::head::receive;
use crate::ring::{oldest_of, slot_fits, Ring};
use crate::signature::LayoutSignature;
use crate::spmc::{item_of, RecvStatus};
use vstd::arithmetic::div_mod::{
    lemma_fundamental_div_mod, lemma_fundamental_div_mod_converse, lemma_small_mod,
};
use vstd::prelude::*;

verus! {

/// How a task passes the time until it polls again.
#[derive(Debug, Clone, Copy, PartialEq, Eq, Structural)]
pub enum IdlePause {
    /// Hint the processor that this is a spin loop.
    Spin,
    /// Let other tasks of the runtime run.
    Yield,
    /// Sleep that long.
    Sleep { ns: u64 },
}

/// Spins, then yields, then sleeps, and starts over.
#[derive(Debug, Clone, Copy)]
pub struct IdleBackoff {
    pub max_spins: u32,
    pub max_yields: u32,
    pub sleep_ns: u64,
    pub spins: u32,
    pub yields: u32,
}

impl IdleBackoff {
    /// A backoff that has not waited yet.
    pub fn new(max_spins: u32, max_yields: u32, sleep_ns: u64) -> (b: Self)
        ensures
            b == (IdleBackoff { max_spins, max_yields, sleep_ns, spins: 0, yields: 0 }),
    {
        IdleBackoff { max_spins, max_yields, sleep_ns, spins: 0, yields: 0 }
    }

    /// The backoff after its next pause, and that pause.
    pub open spec fn next(self) -> (IdleBackoff, IdlePause) {
        if self.spins < self.max_spins {
            (IdleBackoff { spins: (self.spins + 1) as u32, ..self }, IdlePause::Spin)
        } else if self.yields < self.max_yields {
            (IdleBackoff { yields: (self.yields + 1) as u32, ..self }, IdlePause::Yield)
        } else {
            (IdleBackoff { spins: 0, yields: 0, ..self }, IdlePause::Sleep { ns: self.sleep_ns })
        }
    }

    /// The next pause.
    pub fn pause(&mut self) -> (p: IdlePause)
        ensures
            (*final(self), p) == old(self).next(),
    {
        if self.spins < self.max_spins {
            self.spins = self.spins + 1;
            return IdlePause::Spin;
        }
        if self.yields < self.max_yields {
            self.yields = self.yields + 1;
            return IdlePause::Yield;
        }
        self.spins = 0;
        self.yields = 0;
        IdlePause::Sleep { ns: self.sleep_ns }
    }
}

/// A `RingConsumer<T>` for use in an asynchronous task.
#[derive(Debug)]
pub struct AsyncRingConsumer<T> {
    pub inner: RingConsumer<T>,
    pub max_spins: u32,
    pub max_yields: u32,
    pub idle_sleep_ns: u64,
}

impl<T: Copy + LayoutSignature> AsyncRingConsumer<T> {
    /// Attaches to a ring buffer, starting from the oldest available message.
    pub fn attach(ring: &mut Ring<T>, pid: u32, live: &[u32]) -> (r: Result<Self, RingfireError>)
        requires
            old(ring).wf(),
            slot_fits::<T>(),
        ensures
            attached_plainly(
                ConsumerStartMode::Oldest,
                pid,
                live@,
                old(ring),
                final(ring),
                (match r {
                    Ok(c) => Ok(c.inner),
                    Err(e) => Err(e),
                }),
            ),
            r matches Ok(c) ==> c.max_spins == 32 && c.max_yields == 8 && c.idle_sleep_ns == 50_000,
    {
        match RingConsumer::attach(ring, pid, live) {
            Ok(c) => Ok(Self::from_consumer(c)),
            Err(e) => Err(e),
        }
    }
}

impl<T: Copy> AsyncRingConsumer<T> {
    /// Wraps an existing `RingConsumer`.
    pub fn from_consumer(inner: RingConsumer<T>) -> (c: Self)
        ensures
            c == (AsyncRingConsumer { inner, max_spins: 32, max_yields: 8, idle_sleep_ns: 50_000 }),
    {
        AsyncRingConsumer { inner, max_spins: 32, max_yields: 8, idle_sleep_ns: 50_000 }
    }

    /// Sets the maximum spin loop count before cooperatively yielding to the runtime.
    pub fn with_spins(self, spins: u32) -> (c: Self)
        ensures
            c == (AsyncRingConsumer { max_spins: spins, ..self }),
    {
        AsyncRingConsumer { max_spins: spins, ..self }
    }

    /// Sets the maximum cooperative yield count before entering async sleep.
    pub fn with_yields(self, yields: u32) -> (c: Self)
        ensures
            c == (AsyncRingConsumer { max_yields: yields, ..self }),
    {
        AsyncRingConsumer { max_yields: yields, ..self }
    }

    /// Sets the idle sleep duration for long quiet periods.
    pub fn with_idle_sleep(self, sleep_ns: u64) -> (c: Self)
        ensures
            c == (AsyncRingConsumer { idle_sleep_ns: sleep_ns, ..self }),
    {
        AsyncRingConsumer { idle_sleep_ns: sleep_ns, ..self }
    }

    /// How this consumer passes the time while it waits for one message.
    pub fn backoff(&self) -> (b: IdleBackoff)
        ensures
            b == (IdleBackoff {
                max_spins: self.max_spins,
                max_yields: self.max_yields,
                sleep_ns: self.idle_sleep_ns,
                spins: 0,
                yields: 0,
            }),
    {
        IdleBackoff::new(self.max_spins, self.max_yields, self.idle_sleep_ns)
    }

    /// Nothing but the read position has changed.
    pub open spec fn same_settings(&self, other: &Self) -> bool {
        &&& other.max_spins == self.max_spins
        &&& other.max_yields == self.max_yields
        &&& other.idle_sleep_ns == self.idle_sleep_ns
    }

    /// Non-blocking try-recv returning `Some(T)` or `None`.
    pub fn try_recv(&mut self, ring: &mut Ring<T>) -> (r: Option<T>)
        requires
            old(ring).wf(),
            old(self).inner.attached(old(ring)),
        ensures
            final(ring).wf(),
            final(self).inner.attached(final(ring)),
            old(self).same_settings(final(self)),
            polled(&old(self).inner, &final(self).inner, old(ring), final(ring), r),
    {
        self.inner.try_recv(ring)
    }

    /// Non-blocking receive with explicit `RecvStatus` (Item, Empty, or Lapped).
    pub fn recv_status(&mut self, ring: &mut Ring<T>) -> (r: RecvStatus<T>)
        requires
            old(ring).wf(),
            old(self).inner.attached(old(ring)),
        ensures
            final(ring).wf(),
            final(self).inner.attached(final(ring)),
            old(self).same_settings(final(self)),
            polled(&old(self).inner, &final(self).inner, old(ring), final(ring), item_of(r)),
            ({
                let end = receive(old(self).inner.head, old(ring));
                let start = old(self).inner.head.cursor;
                r == (if !end.item {
                    RecvStatus::<T>::Empty
                } else if end.head.cursor > start {
                    RecvStatus::Lapped {
                        skipped: (end.head.cursor - start) as u64,
                        item: old(ring).message(end.head.cursor),
                    }
                } else {
                    RecvStatus::Item(old(ring).message(end.head.cursor))
                })
            }),
    {
        self.inner.recv_status(ring)
    }

    /// One turn of an asynchronous receive: the next message, or how to pass the time until
    /// the next turn.
    pub fn recv(&mut self, ring: &mut Ring<T>, idle: &mut IdleBackoff) -> (r: Result<T, IdlePause>)
        requires
            old(ring).wf(),
            old(self).inner.attached(old(ring)),
        ensures
            final(ring).wf(),
            final(self).inner.attached(final(ring)),
            old(self).same_settings(final(self)),
            polled(&old(self).inner, &final(self).inner, old(ring), final(ring), r.ok()),
            match r {
                Ok(_) => *final(idle) == *old(idle),
                Err(pause) => (*final(idle), pause) == old(idle).next(),
            },
    {
        match self.inner.try_recv(ring) {
            Some(item) => Ok(item),
            None => Err(idle.pause()),
        }
    }

    /// One turn of an asynchronous receive that also tells how many messages were skipped.
    pub fn recv_detailed(&mut self, ring: &mut Ring<T>, idle: &mut IdleBackoff) -> (r: Result<
        (T, u64),
        IdlePause,
    >)
        requires
            old(ring).wf(),
            old(self).inner.attached(old(ring)),
        ensures
            final(ring).wf(),
            final(self).inner.attached(final(ring)),
            old(self).same_settings(final(self)),
            polled(
                &old(self).inner,
                &final(self).inner,
                old(ring),
                final(ring),
                match r {
                    Ok((item, _)) => Some(item),
                    Err(_) => None,
                },
            ),
            match r {
                Ok((_, skipped)) => {
                    &&& skipped == receive(old(self).inner.head, old(ring)).head.cursor - old(
                        self,
                    ).inner.head.cursor
                    &&& *final(idle) == *old(idle)
                },
                Err(pause) => (*final(idle), pause) == old(idle).next(),
            },
    {
        match self.inner.recv_status(ring) {
            RecvStatus::Item(item) => Ok((item, 0)),
            RecvStatus::Lapped { skipped, item } => Ok((item, skipped)),
            RecvStatus::Empty => Err(idle.pause()),
        }
    }

    /// One turn of an asynchronous batch receive: the number of messages stored in `buf`, or
    /// how to pass the time until the next turn. An empty buffer takes no messages.
    pub fn recv_batch(&mut self, ring: &mut Ring<T>, buf: &mut [T], idle: &mut IdleBackoff) -> (r:
        Result<usize, IdlePause>)
        requires
            old(ring).wf(),
            old(self).inner.attached(old(ring)),
        ensures
            final(ring).wf(),
            final(self).inner.attached(final(ring)),
            moved(&old(self).inner, &final(self).inner, old(ring), final(ring)),
            old(self).same_settings(final(self)),
            final(buf)@.len() == old(buf)@.len(),
            ({
                let got = crate::consumer::drained(
                    old(self).inner.head,
                    old(ring),
                    old(buf)@.len(),
                );
                if old(buf)@.len() == 0 {
                    &&& r == Ok::<usize, IdlePause>(0)
                    &&& *final(idle) == *old(idle)
                    &&& final(self).inner == old(self).inner
                    &&& *final(ring) == *old(ring)
                } else {
                    &&& final(self).inner.head == got.0
                    &&& if got.1.len() > 0 {
                        &&& r matches Ok(n) && n == got.1.len() && final(buf)@.take(n as int)
                            == got.1 && final(buf)@.skip(n as int) == old(buf)@.skip(n as int)
                        &&& *final(idle) == *old(idle)
                    } else {
                        &&& final(buf)@ == old(buf)@
                        &&& r == Err::<usize, IdlePause>(old(idle).next().1)
                        &&& *final(idle) == old(idle).next().0
                    }
                }
            }),
    {
        if buf.len() == 0 {
            return Ok(0);
        }
        let count: usize = self.inner.recv_batch(ring, buf);
        assert(buf@.take(count as int).len() == count);
        if count > 0 {
            Ok(count)
        } else {
            assert(buf@ =~= buf@.skip(0) && old(buf)@ =~= old(buf)@.skip(0));
            Err(idle.pause())
        }
    }

    /// Jumps cursor directly to the latest published sequence, skipping any backlog.
    pub fn jump_to_latest(&mut self, ring: &mut Ring<T>) -> (skipped: u64)
        requires
            old(ring).wf(),
            old(self).inner.attached(old(ring)),
        ensures
            final(ring).wf(),
            final(self).inner.attached(final(ring)),
            old(self).same_settings(final(self)),
            jumped(
                &old(self).inner,
                &final(self).inner,
                old(ring),
                final(ring),
                old(ring).header.write_seq,
                skipped,
            ),
    {
        self.inner.jump_to_latest(ring)
    }

    /// Jumps cursor to the oldest message still surviving in the buffer.
    pub fn jump_to_oldest(&mut self, ring: &mut Ring<T>) -> (skipped: u64)
        requires
            old(ring).wf(),
            old(self).inner.attached(old(ring)),
        ensures
            final(ring).wf(),
            final(self).inner.attached(final(ring)),
            old(self).same_settings(final(self)),
            jumped(
                &old(self).inner,
                &final(self).inner,
                old(ring),
                final(ring),
                oldest_of(old(ring).header.write_seq, old(self).inner.head.capacity),
                skipped,
            ),
    {
        self.inner.jump_to_oldest(ring)
    }

    /// Total count of messages skipped due to writer lapping.
    pub fn lapped_count(&self) -> (r: u64)
        ensures
            r == self.inner.head.lapped_total,
    {
        self.inner.lapped_count()
    }

    /// Current cursor sequence number.
    pub fn cursor(&self) -> (r: u64)
        ensures
            r == self.inner.head.cursor,
    {
        self.inner.cursor()
    }

    /// Buffer capacity.
    pub fn capacity(&self) -> (r: u64)
        ensures
            r == self.inner.head.capacity,
    {
        self.inner.capacity()
    }

    /// Lag behind the producer.
    pub fn lag(&self, ring: &Ring<T>) -> (r: u64)
        requires
            self.inner.head.cursor >= 1,
        ensures
            r == (if ring.header.write_seq >= self.inner.head.cursor {
                ring.header.write_seq - self.inner.head.cursor + 1
            } else {
                0
            }),
    {
        self.inner.lag(ring)
    }
}

/// A waiting task never holds its runtime for long: whatever its state, it lets other tasks
/// run within `max_spins` pauses.
pub proof fn lemma_backoff_yields_soon(b: IdleBackoff)
    requires
        b.spins <= b.max_spins,
    ensures
        b.next().1 is Spin ==> b.next().0.max_spins - b.next().0.spins < b.max_spins - b.spins,
        b.spins == b.max_spins ==> !(b.next().1 is Spin),
        b.next().0.spins <= b.next().0.max_spins,
{
}

/// A backoff after `n` pauses.
pub open spec fn paused(b: IdleBackoff, n: nat) -> IdleBackoff
    decreases n,
{
    if n == 0 {
        b
    } else {
        paused(b, (n - 1) as nat).next().0
    }
}

proof fn lemma_paused_state(b: IdleBackoff, n: nat) -> (r: int)
    requires
        b.spins == 0,
        b.yields == 0,
    ensures
        r == n as int % (b.max_spins + b.max_yields + 1),
        ({
            let p = paused(b, n);
            &&& p.max_spins == b.max_spins
            &&& p.max_yields == b.max_yields
            &&& p.sleep_ns == b.sleep_ns
            &&& p.spins == (if r < b.max_spins {
                r
            } else {
                b.max_spins as int
            })
            &&& p.yields == (if r < b.max_spins {
                0
            } else {
                r - b.max_spins
            })
        }),
    decreases n,
{
    let period = b.max_spins + b.max_yields + 1;
    if n == 0 {
        lemma_small_mod(0, period as nat);
        0
    } else {
        let r = lemma_paused_state(b, (n - 1) as nat);
        let m = n - 1;
        lemma_fundamental_div_mod(m, period);
        if r == period - 1 {
            assert(n as int == (m / period + 1) * period + 0) by (nonlinear_arith)
                requires
                    n as int - 1 == period * (m / period) + (period - 1),
            ;
            lemma_fundamental_div_mod_converse(n as int, period, m / period + 1, 0);
            0
        } else {
            assert(n as int == (m / period) * period + (r + 1)) by (nonlinear_arith)
                requires
                    n as int - 1 == period * (m / period) + r,
            ;
            lemma_fundamental_div_mod_converse(n as int, period, m / period, r + 1);
            r + 1
        }
    }
}

/// The pauses of a waiting task go in rounds: `max_spins` times it spins, then `max_yields`
/// times it lets other tasks run, then it sleeps once, and starts over.
pub proof fn lemma_backoff_rounds(b: IdleBackoff, n: nat)
    requires
        b.spins == 0,
        b.yields == 0,
    ensures
        ({
            let r = n as int % (b.max_spins + b.max_yields + 1);
            let pause = paused(b, n).next().1;
            &&& r < b.max_spins ==> pause == IdlePause::Spin
            &&& b.max_spins <= r < b.max_spins + b.max_yields ==> pause == IdlePause::Yield
            &&& r == b.max_spins + b.max_yields ==> pause == (IdlePause::Sleep { ns: b.sleep_ns })
        }),
{
    let _ = lemma_paused_state(b, n);
}

} // verus!
