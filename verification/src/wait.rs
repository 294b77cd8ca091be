//! How a consumer waits when the ring holds nothing new, and how a producer wakes it.
use crate::header::RingHeader;
use crate::spmc::published_header;
use vstd::prelude::*;

verus! {

/// What a waiting consumer does next.
#[derive(Debug, Clone, Copy, PartialEq, Eq, Structural)]
pub enum WaitAction {
    /// Hint the processor that this is a spin loop and poll again.
    Spin,
    /// Give the rest of the time slice to another thread and poll again.
    Yield,
    /// Poll again at once.
    Retry,
    /// Announce the sleep with [`announce_sleep`], issue a barrier on the producers, and
    /// where [`nothing_new`] still holds sleep on the futex word while it reads `expected`,
    /// for at most `timeout_ns`; then take the announcement back with [`end_sleep`].
    Sleep { expected: u32, timeout_ns: u64 },
}

/// Strategy used by consumers to wait when the ring buffer has no new messages.
pub trait WaitStrategy: Sized {
    /// The strategy after it was asked about message `cursor` of a ring with that header, and
    /// its answer. A strategy that does not say otherwise has no state and always retries.
    open spec fn decision(self, header: RingHeader, cursor: u64) -> (Self, WaitAction) {
        (self, WaitAction::Retry)
    }

    /// The strategy once it is reset.
    open spec fn rested(self) -> Self {
        self
    }

    /// What to do while message `cursor` is not published; `header` is the ring's header as
    /// it was just read.
    fn wait(&mut self, header: &RingHeader, cursor: u64) -> (a: WaitAction)
        ensures
            (*final(self), a) == old(self).decision(*header, cursor),
    ;

    /// Reset internal state after a message was successfully received.
    fn reset(&mut self)
        ensures
            *final(self) == old(self).rested(),
    ;
}

/// Ultra-low-latency spin polling, at the cost of a fully used core.
#[derive(Debug, Clone, Copy)]
pub struct BusySpin;

impl BusySpin {
    pub fn new() -> (s: Self)
        ensures
            s == BusySpin,
    {
        BusySpin
    }
}

impl Default for BusySpin {
    fn default() -> (s: Self)
        ensures
            s == BusySpin,
    {
        BusySpin::new()
    }
}

impl WaitStrategy for BusySpin {
    /// It always spins.
    open spec fn decision(self, header: RingHeader, cursor: u64) -> (Self, WaitAction) {
        (self, WaitAction::Spin)
    }

    open spec fn rested(self) -> Self {
        self
    }

    fn wait(&mut self, header: &RingHeader, cursor: u64) -> (a: WaitAction) {
        WaitAction::Spin
    }

    fn reset(&mut self) {
    }
}

/// Adaptive backoff strategy: spins for a configurable number of iterations,
/// then yields the CPU time-slice to other OS threads.
#[derive(Debug, Clone, Copy)]
pub struct YieldBackoff {
    pub spins: u32,
    pub max_spins: u32,
}

impl YieldBackoff {
    pub fn new(max_spins: u32) -> (s: Self)
        ensures
            s == (YieldBackoff { spins: 0, max_spins }),
    {
        YieldBackoff { spins: 0, max_spins }
    }
}

impl Default for YieldBackoff {
    fn default() -> (s: Self)
        ensures
            s == (YieldBackoff { spins: 0, max_spins: 64 }),
    {
        YieldBackoff::new(64)
    }
}

impl WaitStrategy for YieldBackoff {
    /// It spins `max_spins` times, then yields.
    open spec fn decision(self, header: RingHeader, cursor: u64) -> (Self, WaitAction) {
        if self.spins < self.max_spins {
            (YieldBackoff { spins: (self.spins + 1) as u32, ..self }, WaitAction::Spin)
        } else {
            (self, WaitAction::Yield)
        }
    }

    open spec fn rested(self) -> Self {
        YieldBackoff { spins: 0, ..self }
    }

    fn wait(&mut self, header: &RingHeader, cursor: u64) -> (a: WaitAction) {
        if self.spins < self.max_spins {
            self.spins = self.spins + 1;
            WaitAction::Spin
        } else {
            WaitAction::Yield
        }
    }

    fn reset(&mut self) {
        self.spins = 0;
    }
}

/// Upper bound on a single sleep when no explicit timeout is configured, in nanoseconds.
pub const SAFETY_TIMEOUT_NS: u64 = 10_000_000;

/// Futex-based wait strategy for an idle consumer that uses no processor time.
/// Spins briefly (adaptive fast-path) before putting the calling thread to sleep in the kernel.
///
/// Lost wake-ups are prevented with an asymmetric barrier: producers keep a barrier-free
/// hot path, and a consumer about to sleep issues a barrier on every producer process.
/// Producers that cannot register for it fall back to bounded sleeps: `timeout_ns: None`
/// means [`SAFETY_TIMEOUT_NS`].
#[derive(Debug, Clone, Copy)]
pub struct FutexWait {
    pub spins: u32,
    pub spin_limit: u32,
    pub timeout_ns: Option<u64>,
}

impl FutexWait {
    /// Spins `spin_limit` times before each sleep of at most `timeout_ns` nanoseconds.
    pub fn new(spin_limit: u32, timeout_ns: Option<u64>) -> (s: Self)
        ensures
            s == (FutexWait { spins: 0, spin_limit, timeout_ns }),
    {
        FutexWait { spins: 0, spin_limit, timeout_ns }
    }
}

impl Default for FutexWait {
    fn default() -> (s: Self)
        ensures
            s == (FutexWait { spins: 0, spin_limit: 32, timeout_ns: Some(50_000_000) }),
    {
        FutexWait::new(32, Some(50_000_000))
    }
}

impl WaitStrategy for FutexWait {
    /// It spins `spin_limit` times, then sleeps, unless the message is published by now.
    open spec fn decision(self, header: RingHeader, cursor: u64) -> (Self, WaitAction) {
        if self.spins < self.spin_limit {
            (FutexWait { spins: (self.spins + 1) as u32, ..self }, WaitAction::Spin)
        } else if header.write_seq >= cursor {
            (self, WaitAction::Retry)
        } else {
            (
                self,
                WaitAction::Sleep {
                    expected: header.futex_word,
                    timeout_ns: match self.timeout_ns {
                        Some(ns) => ns,
                        None => SAFETY_TIMEOUT_NS,
                    },
                },
            )
        }
    }

    open spec fn rested(self) -> Self {
        FutexWait { spins: 0, ..self }
    }

    fn wait(&mut self, header: &RingHeader, cursor: u64) -> (a: WaitAction) {
        if self.spins < self.spin_limit {
            self.spins = self.spins + 1;
            return WaitAction::Spin;
        }
        // The writer may have published while this consumer spun.
        if header.write_seq >= cursor {
            return WaitAction::Retry;
        }
        let timeout_ns: u64 = match self.timeout_ns {
            Some(ns) => ns,
            None => SAFETY_TIMEOUT_NS,
        };
        WaitAction::Sleep { expected: header.futex_word, timeout_ns }
    }

    fn reset(&mut self) {
        self.spins = 0;
    }
}

/// The header once one more consumer is about to sleep.
pub open spec fn announced(h: RingHeader) -> RingHeader {
    RingHeader { waiting_consumers: h.waiting_consumers.wrapping_add(1), ..h }
}

/// The header once one sleeping consumer less is counted.
pub open spec fn unannounced(h: RingHeader) -> RingHeader {
    RingHeader { waiting_consumers: h.waiting_consumers.wrapping_sub(1), ..h }
}

/// The header once a producer has looked for sleeping consumers, and how many of them the
/// kernel is to wake: where there are any, the futex word has moved on.
pub open spec fn woken(h: RingHeader, count: i32) -> (RingHeader, Option<i32>) {
    if h.waiting_consumers > 0 {
        (RingHeader { futex_word: h.futex_word.wrapping_add(1), ..h }, Some(count))
    } else {
        (h, None)
    }
}

/// Counts one more consumer that is about to sleep.
pub fn announce_sleep(header: &mut RingHeader)
    ensures
        *final(header) == announced(*old(header)),
{
    header.waiting_consumers = header.waiting_consumers.wrapping_add(1);
}

/// Counts one sleeping consumer less.
pub fn end_sleep(header: &mut RingHeader)
    ensures
        *final(header) == unannounced(*old(header)),
{
    header.waiting_consumers = header.waiting_consumers.wrapping_sub(1);
}

/// Whether message `cursor` is still unpublished, so that a consumer that has announced its
/// sleep may go to sleep.
pub fn nothing_new(header: &RingHeader, cursor: u64) -> (r: bool)
    ensures
        r == (header.write_seq < cursor),
{
    header.write_seq < cursor
}

/// Called by the producer after publishing a message. Where consumers sleep on the futex
/// word, moves the word on and returns how many of them the kernel is to wake.
pub fn wake_futex(header: &mut RingHeader, count: i32) -> (wake: Option<i32>)
    ensures
        (*final(header), wake) == woken(*old(header), count),
{
    if header.waiting_consumers > 0 {
        header.futex_word = header.futex_word.wrapping_add(1);
        Some(count)
    } else {
        None
    }
}

/// A publish wakes whoever announced a sleep before it. The strategy `s` read the header `h0`
/// and chose to sleep; the consumer announced that and still found nothing new; then a producer
/// published message `seq` and looked for sleepers. It asks for a wake-up, and the futex word no
/// longer reads what the consumer would sleep on, so a consumer that is not asleep by then does
/// not fall asleep.
pub proof fn lemma_publish_wakes_sleepers(
    s: FutexWait,
    h0: RingHeader,
    cursor: u64,
    seq: u64,
    count: i32,
)
    requires
        s.decision(h0, cursor).1 is Sleep,
        h0.waiting_consumers < u32::MAX,
        cursor <= seq,
    ensures
        ({
            let h1 = announced(h0);
            let (h2, wake) = woken(RingHeader { write_seq: seq, ..h1 }, count);
            &&& h1.write_seq < cursor
            &&& wake == Some(count)
            &&& h2 == published_header(h1, seq)
            &&& h2.write_seq >= cursor
            &&& h2.futex_word != h0.futex_word
            &&& s.decision(h0, cursor).1->expected == h0.futex_word
        }),
{
}

/// What happens to a header while a consumer that announced its sleep has not taken that back.
pub enum SleepEvent {
    /// Another consumer announces its sleep.
    Announce,
    /// Another consumer takes its announcement back.
    EndSleep,
    /// A producer publishes a message.
    Publish { seq: u64 },
    /// A producer looks for sleeping consumers.
    Wake { count: i32 },
}

/// A header while one consumer's announcement stands, and how many others do.
pub struct SleepMoment {
    pub header: RingHeader,
    pub others: nat,
}

/// One event leads from one moment to the next. Only who has announced a sleep ends one.
pub open spec fn sleep_step(a: SleepMoment, e: SleepEvent, b: SleepMoment) -> bool {
    match e {
        SleepEvent::Announce => b.header == announced(a.header) && b.others == a.others + 1,
        SleepEvent::EndSleep => a.others > 0 && b.header == unannounced(a.header) && b.others
            == a.others - 1,
        SleepEvent::Publish { seq } => b.header == (RingHeader { write_seq: seq, ..a.header })
            && b.others == a.others,
        SleepEvent::Wake { count } => b.header == woken(a.header, count).0 && b.others == a.others,
    }
}

/// The moments `m` from an announcement on, and the events `ev` between them. There are never
/// more consumers than can be counted.
pub open spec fn sleep_history(h0: RingHeader, m: Seq<SleepMoment>, ev: Seq<SleepEvent>) -> bool {
    &&& m.len() == ev.len() + 1
    &&& m[0].header == announced(h0)
    &&& m[0].others == h0.waiting_consumers
    &&& forall|i: int| 0 <= i < m.len() ==> (#[trigger] m[i]).others < u32::MAX
    &&& forall|i: int| 0 <= i < ev.len() ==> sleep_step(m[i], #[trigger] ev[i], m[i + 1])
}

/// How many of the first `n` events look for sleeping consumers.
pub open spec fn wakes(ev: Seq<SleepEvent>, n: int) -> nat
    decreases n,
{
    if n <= 0 {
        0
    } else {
        wakes(ev, n - 1) + if ev[n - 1] is Wake {
            1nat
        } else {
            0nat
        }
    }
}

proof fn lemma_sleep_counted(h0: RingHeader, m: Seq<SleepMoment>, ev: Seq<SleepEvent>, i: int)
    requires
        sleep_history(h0, m, ev),
        0 <= i <= ev.len(),
    ensures
        m[i].header.waiting_consumers == m[i].others + 1,
        m[i].header.futex_word == (h0.futex_word + wakes(ev, i)) % 0x1_0000_0000,
    decreases i,
{
    if i > 0 {
        lemma_sleep_counted(h0, m, ev, i - 1);
        assert(sleep_step(m[i - 1], ev[i - 1], m[i - 1 + 1]));
    }
}

/// No wake-up is lost, whatever other consumers and producers do meanwhile: a producer that
/// looks for sleepers after a consumer announced its sleep (event `k`) always asks for a
/// wake-up, and from then on (moment `t`) the futex word does not read what the consumer would
/// sleep on, until it has moved on 2^32 times.
pub proof fn lemma_no_wakeup_lost(
    h0: RingHeader,
    m: Seq<SleepMoment>,
    ev: Seq<SleepEvent>,
    k: int,
    t: int,
)
    requires
        sleep_history(h0, m, ev),
        0 <= k < t <= ev.len(),
        ev[k] is Wake,
        wakes(ev, t) <= u32::MAX,
    ensures
        woken(m[k].header, ev[k]->count).1 == Some(ev[k]->count),
        m[t].header.futex_word != h0.futex_word,
{
    lemma_sleep_counted(h0, m, ev, k);
    lemma_sleep_counted(h0, m, ev, t);
    lemma_wakes_rise(ev, k + 1, t);
}

proof fn lemma_wakes_rise(ev: Seq<SleepEvent>, i: int, j: int)
    requires
        0 <= i <= j,
    ensures
        wakes(ev, i) <= wakes(ev, j),
    decreases j - i,
{
    if i < j {
        lemma_wakes_rise(ev, i, j - 1);
    }
}

/// A strategy after it was asked about these messages, one after the other, each time with the
/// header as it was then.
pub open spec fn asked<S: WaitStrategy>(s: S, asks: Seq<(RingHeader, u64)>) -> S
    decreases asks.len(),
{
    if asks.len() == 0 {
        s
    } else {
        asked(s, asks.drop_last()).decision(asks.last().0, asks.last().1).0
    }
}

/// The yielding strategy spins for exactly its first `max_spins` waits since a message, whatever
/// the ring holds, and yields from then on; so it does again after the next message.
pub proof fn lemma_yields_after_spins(
    s: YieldBackoff,
    asks: Seq<(RingHeader, u64)>,
    h: RingHeader,
    cursor: u64,
)
    requires
        s.spins == 0,
    ensures
        ({
            let t = asked(s, asks);
            &&& t.max_spins == s.max_spins
            &&& asks.len() < s.max_spins ==> t.decision(h, cursor).1 == WaitAction::Spin
            &&& asks.len() >= s.max_spins ==> t.decision(h, cursor).1 == WaitAction::Yield
            &&& t.rested() == s
        }),
{
    lemma_yield_spins(s, asks);
}

proof fn lemma_yield_spins(s: YieldBackoff, asks: Seq<(RingHeader, u64)>)
    requires
        s.spins == 0,
    ensures
        asked(s, asks).max_spins == s.max_spins,
        asked(s, asks).spins == (if asks.len() < s.max_spins {
            asks.len() as int
        } else {
            s.max_spins as int
        }),
    decreases asks.len(),
{
    if asks.len() > 0 {
        lemma_yield_spins(s, asks.drop_last());
    }
}

/// The sleeping strategy spins for exactly its first `spin_limit` waits since a message. From
/// then on it polls again if the message is published, and else sleeps on the futex word as it
/// reads, for the time that was set or for 10 ms; so it does again after the next message.
pub proof fn lemma_sleeps_after_spins(
    s: FutexWait,
    asks: Seq<(RingHeader, u64)>,
    h: RingHeader,
    cursor: u64,
)
    requires
        s.spins == 0,
    ensures
        ({
            let t = asked(s, asks);
            let a = t.decision(h, cursor).1;
            &&& asks.len() < s.spin_limit ==> a == WaitAction::Spin
            &&& asks.len() >= s.spin_limit && h.write_seq >= cursor ==> a == WaitAction::Retry
            &&& asks.len() >= s.spin_limit && h.write_seq < cursor ==> a is Sleep
                && a->expected == h.futex_word
            &&& a is Sleep && s.timeout_ns is Some ==> a->timeout_ns == s.timeout_ns->0
            &&& a is Sleep && s.timeout_ns is None ==> a->timeout_ns == 10_000_000
            &&& t.rested() == s
        }),
{
    lemma_sleep_spins(s, asks);
}

proof fn lemma_sleep_spins(s: FutexWait, asks: Seq<(RingHeader, u64)>)
    requires
        s.spins == 0,
    ensures
        asked(s, asks).spin_limit == s.spin_limit,
        asked(s, asks).timeout_ns == s.timeout_ns,
        asked(s, asks).spins == (if asks.len() < s.spin_limit {
            asks.len() as int
        } else {
            s.spin_limit as int
        }),
    decreases asks.len(),
{
    if asks.len() > 0 {
        lemma_sleep_spins(s, asks.drop_last());
    }
}

/// The spinning strategy always spins.
pub proof fn lemma_spins_always(
    s: BusySpin,
    asks: Seq<(RingHeader, u64)>,
    h: RingHeader,
    cursor: u64,
)
    ensures
        asked(s, asks).decision(h, cursor).1 == WaitAction::Spin,
{
}

/// An announcement and its end leave the header as it was, and neither they nor a wake-up
/// touch what is published. A wake-up is asked for exactly if somebody announced a sleep.
pub proof fn lemma_sleep_bookkeeping(h: RingHeader, count: i32)
    ensures
        unannounced(announced(h)) == h,
        h.waiting_consumers < u32::MAX ==> announced(h).waiting_consumers == h.waiting_consumers
            + 1,
        announced(h).write_seq == h.write_seq,
        announced(h).futex_word == h.futex_word,
        woken(h, count).1 is Some <==> h.waiting_consumers > 0,
        woken(h, count).1 is Some ==> woken(h, count).1->0 == count,
        woken(h, count).0.write_seq == h.write_seq,
        woken(h, count).0.waiting_consumers == h.waiting_consumers,
        h.waiting_consumers > 0 ==> woken(h, count).0.futex_word == (h.futex_word + 1)
            % 0x1_0000_0000,
        h.waiting_consumers == 0 ==> woken(h, count).0 == h,
{
}

} // verus!
