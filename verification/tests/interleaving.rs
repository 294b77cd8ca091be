//! Readers and writers of one ring, one memory access at a time, in many orders.

use ringfire::head::{Ask, Phase, ReadHead};
use ringfire::header::SLOT_WRITING;
use ringfire::mpmc::{ClaimAction, ClaimEvent, QueueAsk, QueueHead, QueuePhase, SlotClaim};

const WORDS: usize = 32;
const CAPACITY: u64 = 4;

struct Memory {
    seqs: [u64; CAPACITY as usize],
    data: [[u64; WORDS]; CAPACITY as usize],
    write_seq: u64,
    claim_seq: u64,
    read_seq: u64,
}

impl Memory {
    fn new() -> Self {
        Memory {
            seqs: [0; CAPACITY as usize],
            data: [[0; WORDS]; CAPACITY as usize],
            write_seq: 0,
            claim_seq: 1,
            read_seq: 1,
        }
    }
}

fn slot(seq: u64) -> usize {
    (seq % CAPACITY) as usize
}

/// A fixed sequence of numbers without an evident pattern.
struct Dice(u64);

impl Dice {
    fn roll(&mut self, n: u64) -> u64 {
        self.0 = self.0.wrapping_mul(6364136223846793005).wrapping_add(1442695040888963407);
        (self.0 >> 33) % n
    }
}

/// The single producer; message `seq` is `seq` in every word.
struct Writer {
    seq: u64,
    at: usize,
}

impl Writer {
    fn tick(&mut self, m: &mut Memory) {
        let i = slot(self.seq);
        if self.at == 0 {
            m.seqs[i] = SLOT_WRITING;
        } else if self.at <= WORDS {
            m.data[i][self.at - 1] = self.seq;
        } else if self.at == WORDS + 1 {
            m.seqs[i] = self.seq;
        } else {
            m.write_seq = self.seq;
            self.seq += 1;
            self.at = 0;
            return;
        }
        self.at += 1;
    }
}

struct Reader {
    head: ReadHead,
    phase: Phase,
    ask: Ask,
    copy: [u64; WORDS],
    copied: usize,
}

impl Reader {
    fn new(multi_producer: bool) -> Self {
        Reader {
            head: ReadHead {
                capacity: CAPACITY,
                mask: CAPACITY - 1,
                cursor: 1,
                lapped_total: 0,
                multi_producer,
                sparse: false,
                empty_polls: 0,
            },
            phase: Phase::Probe,
            ask: Ask::Word { of: 1, report: false },
            copy: [0; WORDS],
            copied: 0,
        }
    }

    /// One memory access; a message, once it is accepted.
    fn tick(&mut self, m: &Memory) -> Option<[u64; WORDS]> {
        let loaded = match self.ask {
            Ask::Word { of, .. } => m.seqs[slot(of)],
            Ask::Copy { of } => {
                if self.copied < WORDS {
                    self.copy[self.copied] = m.data[slot(of)][self.copied];
                    self.copied += 1;
                    return None;
                }
                self.copied = 0;
                m.seqs[slot(of)]
            }
            _ => m.write_seq,
        };
        let (phase, ask) = self.head.step(self.phase, loaded);
        self.phase = phase;
        self.ask = ask;
        let item = matches!(self.ask, Ask::Item);
        if item {
            self.head.accept();
        }
        if item || matches!(self.ask, Ask::Empty) {
            self.phase = Phase::Probe;
            self.ask = Ask::Word { of: self.head.cursor, report: false };
        }
        if item {
            Some(self.copy)
        } else {
            None
        }
    }
}

fn is_torn(message: &[u64; WORDS]) -> bool {
    message.iter().any(|w| *w != message[0])
}

#[test]
fn r1_spmc_no_torn_reads() {
    let mut m = Memory::new();
    let mut writer = Writer { seq: 1, at: 0 };
    let mut reader = Reader::new(false);
    let mut dice = Dice(1);
    let (mut reads, mut last) = (0u64, 0u64);
    for _ in 0..200_000 {
        let (writes, accesses) = (dice.roll(40), dice.roll(40));
        for _ in 0..writes {
            writer.tick(&mut m);
        }
        for _ in 0..accesses {
            if let Some(message) = reader.tick(&m) {
                reads += 1;
                assert!(!is_torn(&message), "torn record");
                assert!(message[0] > last, "{} after {}", message[0], last);
                last = message[0];
                // What was skipped is counted: every message is read or lost, once.
                assert_eq!(reads + reader.head.lapped_total, last);
            }
        }
    }
    assert!(reads > 1000);
    assert!(reader.head.lapped_total > 0);
}

/// One of several producers; its messages hold its number and a count in every word.
struct Producer {
    mark: u64,
    count: u64,
    claim: Option<(SlotClaim, ClaimAction)>,
    at: usize,
}

impl Producer {
    fn tick(&mut self, m: &mut Memory, now_ns: u64) {
        let Some((mut claim, action)) = self.claim.take() else {
            let seq = m.claim_seq;
            m.claim_seq += 1;
            self.claim = Some((SlotClaim::new(seq, CAPACITY), ClaimAction::Spin));
            return;
        };
        let i = slot(claim.seq);
        let event = match action {
            ClaimAction::Spin | ClaimAction::Yield => ClaimEvent::Word(m.seqs[i]),
            ClaimAction::Swap { expected } => {
                let won = m.seqs[i] == expected;
                if won {
                    m.seqs[i] = SLOT_WRITING;
                }
                ClaimEvent::Swapped { word: expected, won }
            }
            ClaimAction::ReadClock { word } => ClaimEvent::Clock { word, now_ns },
            ClaimAction::Drop => return,
            ClaimAction::Write => {
                if self.at < WORDS {
                    m.data[i][self.at] = self.mark | self.count;
                    self.at += 1;
                } else if self.at == WORDS {
                    m.seqs[i] = claim.seq;
                    self.at += 1;
                } else {
                    m.write_seq = m.write_seq.max(claim.seq);
                    self.at = 0;
                    self.count += 1;
                    return;
                }
                self.claim = Some((claim, action));
                return;
            }
        };
        let next = claim.step(event);
        self.claim = Some((claim, next));
    }
}

fn producers() -> Vec<Producer> {
    (0..3u64).map(|w| Producer { mark: w << 56, count: 0, claim: None, at: 0 }).collect()
}

#[test]
fn r5b_mpmc_producers_no_torn_slots() {
    let mut m = Memory::new();
    let mut writers = producers();
    let mut reader = Reader::new(true);
    let mut dice = Dice(2);
    let mut reads = 0u64;
    let mut latest = [None; 3];
    for round in 0..200_000u64 {
        let w = dice.roll(3) as usize;
        for _ in 0..dice.roll(60) {
            writers[w].tick(&mut m, round * 1000);
        }
        for _ in 0..dice.roll(60) {
            if let Some(message) = reader.tick(&m) {
                reads += 1;
                assert!(!is_torn(&message), "payloads of two producers in one slot");
                // The messages of one producer keep their order.
                let (who, count) = ((message[0] >> 56) as usize, message[0] & 0xFFFF_FFFF);
                assert!(latest[who].is_none_or(|c| count > c));
                latest[who] = Some(count);
            }
        }
    }
    assert!(reads > 1000);
}

struct Worker {
    head: QueueHead,
    phase: QueuePhase,
    ask: QueueAsk,
    copy: [u64; WORDS],
    copied: usize,
}

impl Worker {
    fn new() -> Self {
        let head = QueueHead { capacity: CAPACITY, mask: CAPACITY - 1, pending: None, dropped: 0 };
        let (phase, ask) = head.start();
        Worker { head, phase, ask, copy: [0; WORDS], copied: 0 }
    }

    fn tick(&mut self, m: &mut Memory) -> Option<[u64; WORDS]> {
        let loaded = match self.ask {
            QueueAsk::Word { of } => m.seqs[slot(of)],
            QueueAsk::Copy { of } => {
                if self.copied < WORDS {
                    self.copy[self.copied] = m.data[slot(of)][self.copied];
                    self.copied += 1;
                    return None;
                }
                self.copied = 0;
                m.seqs[slot(of)]
            }
            QueueAsk::ClaimSeq => m.claim_seq,
            QueueAsk::ReadSeq => m.read_seq,
            QueueAsk::Swap { from, to } => {
                let won = m.read_seq == from;
                if won {
                    m.read_seq = to;
                }
                won as u64
            }
            QueueAsk::Empty | QueueAsk::Item => {
                let item = matches!(self.ask, QueueAsk::Item);
                let (phase, ask) = self.head.start();
                self.phase = phase;
                self.ask = ask;
                return if item { Some(self.copy) } else { None };
            }
        };
        let (phase, ask) = self.head.step(self.phase, loaded);
        self.phase = phase;
        self.ask = ask;
        None
    }
}

#[test]
fn workers_never_get_a_message_twice() {
    let mut m = Memory::new();
    let mut writers = producers();
    let mut workers = vec![Worker::new(), Worker::new()];
    let mut dice = Dice(3);
    let mut seen: Vec<u64> = Vec::new();
    for round in 0..50_000u64 {
        let w = dice.roll(3) as usize;
        for _ in 0..dice.roll(50) {
            writers[w].tick(&mut m, round * 1000);
        }
        let k = dice.roll(2) as usize;
        for _ in 0..dice.roll(80) {
            if let Some(message) = workers[k].tick(&mut m) {
                assert!(!is_torn(&message));
                seen.push(message[0]);
            }
        }
    }
    assert!(seen.len() > 1000);
    let dropped: u64 = workers.iter().map(|w| w.head.dropped).sum();
    assert!(seen.len() as u64 + dropped <= m.claim_seq - 1);
    seen.sort();
    let all = seen.len();
    seen.dedup();
    assert_eq!(seen.len(), all);
}
