//! # Inspection of rings and tables
//!
//! What the monitoring tool reports of a mapped file: the bytes are the caller's, and so
//! are the texts of ratios and rates, which are not whole numbers.
use crate::bytes::{le32, le64, read_u32, read_u64};
use crate::header::{
    BlackboardHeader, ReaderSlot, RingHeader, BLACKBOARD_MAGIC, FLAG_MODE_MPMC, FLAG_MODE_SPMC,
    FLAG_POLICY_LOSSLESS_BACKPRESSURE, FLAG_WITH_ARENA, FLAG_WITH_REGISTRY, READER_SLOT_SIZE,
    RINGFIRE_MAGIC, RING_HEADER_SIZE, SLOT_WRITING,
};
use crate::math::larger;
use crate::registry::{is_listed, name_text, read_name};
use crate::ring::oldest_of;
use crate::text::{
    decimal, decimal_text, digit, hex, hex_number, json_body, json_str, padded, push_bool,
    push_decimal, push_hex, push_hex_number, push_padded, truth,
};
use vstd::prelude::*;
use vstd::string::StringExecFns;

verus! {

/// Retained window `[oldest, newest]` of a ring, or `None` if nothing was published.
pub open spec fn window_of(write_seq: u64, capacity: u64) -> Option<(u64, u64)> {
    if write_seq == 0 {
        None
    } else {
        Some((oldest_of(write_seq, capacity), write_seq))
    }
}

/// Retained window `[oldest, newest]` of a ring, or `None` if nothing was published.
pub fn retained_window(write_seq: u64, capacity: u64) -> (r: Option<(u64, u64)>)
    requires
        capacity > 0,
    ensures
        r == window_of(write_seq, capacity),
        r matches Some((oldest, newest)) ==> 1 <= oldest <= newest && newest - oldest < capacity,
{
    if write_seq == 0 {
        None
    } else {
        Some((larger(write_seq.saturating_sub(capacity - 1), 1), write_seq))
    }
}

/// Oldest message and number of messages of a window.
pub open spec fn extent_of(window: Option<(u64, u64)>) -> (u64, u64) {
    match window {
        Some((oldest, newest)) => (oldest, (newest - oldest + 1) as u64),
        None => (0, 0),
    }
}

/// Oldest message and number of messages of a window.
pub fn extent(window: Option<(u64, u64)>) -> (r: (u64, u64))
    requires
        window matches Some((oldest, newest)) ==> 1 <= oldest <= newest,
    ensures
        r == extent_of(window),
{
    match window {
        Some((oldest, newest)) => (oldest, newest - oldest + 1),
        None => (0, 0),
    }
}

/// The reader slot at byte `at`.
pub open spec fn reader_slot_at(s: Seq<u8>, at: int, slot: ReaderSlot) -> bool {
    &&& slot.pid == le32(s, at)
    &&& slot.active == le32(s, at + 4)
    &&& slot.cursor_seq == le64(s, at + 8)
    &&& slot.heartbeat_tsc == le64(s, at + 16)
    &&& slot.name@ == s.subrange(at + 24, at + 56)
}

/// Reads the reader slot at byte `at`.
pub fn read_reader_slot(region: &[u8], at: usize) -> (slot: ReaderSlot)
    requires
        at + READER_SLOT_SIZE <= region@.len(),
    ensures
        reader_slot_at(region@, at as int, slot),
{
    let _len: usize = region.len();
    let mut name: [u8; 32] = [0u8;32];
    let mut i: usize = 0;
    while i < 32
        invariant
            at + READER_SLOT_SIZE <= region@.len() <= usize::MAX,
            i <= 32,
            forall|j: int| 0 <= j < i ==> name@[j] == region@[at + 24 + j],
        decreases 32 - i,
    {
        name[i] = region[at + 24 + i];
        i = i + 1;
    }
    assert(name@ =~= region@.subrange(at + 24, at + 56));
    ReaderSlot {
        pid: read_u32(region, at),
        active: read_u32(region, at + 4),
        cursor_seq: read_u64(region, at + 8),
        heartbeat_tsc: read_u64(region, at + 16),
        name,
    }
}

/// The file has a reader registry inside its `len` bytes.
pub open spec fn has_readers(h: RingHeader, len: int) -> bool {
    &&& h.reader_registry_offset != 0
    &&& h.reader_registry_count != 0
    &&& h.reader_registry_offset + h.reader_registry_count * READER_SLOT_SIZE <= len
}

/// Reads the reader slots of a mapped ring; none if it has no registry.
pub fn registry_slots(region: &[u8], header: &RingHeader) -> (slots: Vec<ReaderSlot>)
    ensures
        slots@.len() == (if has_readers(*header, region@.len() as int) {
            header.reader_registry_count as nat
        } else {
            0
        }),
        forall|i: int|
            0 <= i < slots@.len() ==> reader_slot_at(
                region@,
                header.reader_registry_offset + i * READER_SLOT_SIZE,
                #[trigger] slots@[i],
            ),
{
    let mut slots: Vec<ReaderSlot> = Vec::new();
    if header.reader_registry_offset == 0 || header.reader_registry_count == 0 {
        return slots;
    }
    let offset: u64 = header.reader_registry_offset as u64;
    let count: u64 = header.reader_registry_count as u64;
    if (region.len() as u64) < offset + count * 64 {
        return slots;
    }
    let mut i: u64 = 0;
    while i < count
        invariant
            offset == header.reader_registry_offset,
            offset + count * READER_SLOT_SIZE <= region@.len() <= usize::MAX,
            i <= count,
            slots@.len() == i,
            forall|j: int|
                0 <= j < i ==> reader_slot_at(
                    region@,
                    offset + j * READER_SLOT_SIZE,
                    #[trigger] slots@[j],
                ),
        decreases count - i,
    {
        let slot = read_reader_slot(region, (offset + i * 64) as usize);
        slots.push(slot);
        i = i + 1;
    }
    slots
}

/// A registered reader, as reported.
#[derive(Debug)]
pub struct ReaderSnapshot {
    pub slot_index: usize,
    pub pid: u32,
    pub name: String,
    pub cursor_seq: u64,
    pub lag: u64,
    pub alive: bool,
}

/// A slot that a reader has taken.
pub open spec fn taken(s: ReaderSlot) -> bool {
    s.pid != 0 && s.active != 0
}

/// Messages from `cursor`, the next one to read, to `write_seq`.
pub open spec fn unread(write_seq: u64, cursor: u64) -> u64 {
    let done = if cursor > 0 {
        cursor - 1
    } else {
        0
    };
    if write_seq > done {
        (write_seq - done) as u64
    } else {
        0
    }
}

/// `r` reports the reader in slot `i`.
pub open spec fn snapshot_of(
    r: ReaderSnapshot,
    s: ReaderSlot,
    i: int,
    write_seq: u64,
    live: Seq<u32>,
) -> bool {
    &&& r.slot_index == i
    &&& r.pid == s.pid
    &&& r.name@ == name_text(s.name@)
    &&& r.cursor_seq == s.cursor_seq
    &&& r.lag == unread(write_seq, s.cursor_seq)
    &&& r.alive == live.contains(s.pid)
}

/// The indices of the slots that readers have taken, in order.
pub open spec fn taken_indices(slots: Seq<ReaderSlot>) -> Seq<int>
    decreases slots.len(),
{
    if slots.len() == 0 {
        Seq::empty()
    } else if taken(slots.last()) {
        taken_indices(slots.drop_last()).push(slots.len() - 1)
    } else {
        taken_indices(slots.drop_last())
    }
}

/// `out` reports the readers in the slots `at`, one for one.
pub open spec fn snapshots_of(
    out: Seq<ReaderSnapshot>,
    at: Seq<int>,
    slots: Seq<ReaderSlot>,
    write_seq: u64,
    live: Seq<u32>,
) -> bool {
    &&& out.len() == at.len()
    &&& forall|k: int|
        #![trigger out[k]]
        #![trigger at[k]]
        0 <= k < out.len() ==> 0 <= at[k] < slots.len() && snapshot_of(
            out[k],
            slots[at[k]],
            at[k],
            write_seq,
            live,
        )
}

/// Reports the registered readers, dead or alive; `live` are the processes that run.
pub fn read_readers(slots: &[ReaderSlot], write_seq: u64, live: &[u32]) -> (out: Vec<
    ReaderSnapshot,
>)
    ensures
        snapshots_of(out@, taken_indices(slots@), slots@, write_seq, live@),
{
    let mut out: Vec<ReaderSnapshot> = Vec::new();
    let mut i: usize = 0;
    assert(slots@.take(0) =~= Seq::empty());
    while i < slots.len()
        invariant
            i <= slots@.len(),
            snapshots_of(out@, taken_indices(slots@.take(i as int)), slots@, write_seq, live@),
        decreases slots@.len() - i,
    {
        let slot = &slots[i];
        let ghost had = out@;
        assert(slots@.take(i + 1).drop_last() =~= slots@.take(i as int));
        if slot.pid != 0 && slot.active != 0 {
            // cursor = next sequence to read, so everything from it to write_seq is unread
            let lag: u64 = write_seq.saturating_sub(slot.cursor_seq.saturating_sub(1));
            let r = ReaderSnapshot {
                slot_index: i,
                pid: slot.pid,
                name: read_name(slot.name.as_slice()),
                cursor_seq: slot.cursor_seq,
                lag,
                alive: is_listed(live, slot.pid),
            };
            assert(snapshot_of(r, slots@[i as int], i as int, write_seq, live@));
            out.push(r);
            proof {
                let was = taken_indices(slots@.take(i as int));
                let at = taken_indices(slots@.take(i + 1));
                assert(at == was.push(i as int));
                assert forall|k: int| 0 <= k < out@.len() implies 0 <= #[trigger] at[k]
                    < slots@.len() && snapshot_of(
                    out@[k],
                    slots@[at[k]],
                    at[k],
                    write_seq,
                    live@,
                ) by {
                    if k < had.len() {
                        assert(out@[k] == had[k] && at[k] == was[k]);
                    }
                }
            }
        }
        i = i + 1;
    }
    assert(slots@.take(slots@.len() as int) =~= slots@);
    out
}

/// What kind of file the tool looks at.
#[derive(Debug, Clone, Copy, PartialEq, Eq, Structural)]
pub enum FileKind {
    Ring,
    Blackboard,
}

/// Tells a ring from a table by the magic number at the start of a file of `file_len` bytes.
/// The error says why it is neither.
pub fn file_kind(file_len: u64, magic: u64) -> (r: Result<FileKind, String>)
    ensures
        match r {
            Ok(FileKind::Ring) => file_len >= RING_HEADER_SIZE && magic == RINGFIRE_MAGIC,
            Ok(FileKind::Blackboard) => file_len >= RING_HEADER_SIZE && magic == BLACKBOARD_MAGIC,
            Err(text) => if file_len < RING_HEADER_SIZE {
                text@ == "File too small ("@ + decimal(file_len as nat)
                    + " bytes) to contain RingHeader"@
            } else {
                &&& magic != RINGFIRE_MAGIC
                &&& magic != BLACKBOARD_MAGIC
                &&& text@ == "Invalid magic signature 0x"@ + hex(magic as nat, 16, true)
                    + " (expected RINGFIRE 0x"@ + hex(RINGFIRE_MAGIC as nat, 16, true)
                    + " or BLACKBOARD 0x"@ + hex(BLACKBOARD_MAGIC as nat, 16, true) + ")"@
            },
        },
{
    if file_len < RING_HEADER_SIZE as u64 {
        let mut text = String::from_str("File too small (");
        push_decimal(&mut text, file_len);
        text.append(" bytes) to contain RingHeader");
        return Err(text);
    }
    if magic == BLACKBOARD_MAGIC {
        return Ok(FileKind::Blackboard);
    }
    if magic != RINGFIRE_MAGIC {
        let mut text = String::from_str("Invalid magic signature 0x");
        push_hex(&mut text, magic, 16, true);
        text.append(" (expected RINGFIRE 0x");
        push_hex(&mut text, RINGFIRE_MAGIC, 16, true);
        text.append(" or BLACKBOARD 0x");
        push_hex(&mut text, BLACKBOARD_MAGIC, 16, true);
        text.append(")");
        return Err(text);
    }
    Ok(FileKind::Ring)
}

/// Capacity and reserved bytes of the arena of a mapped ring, zeros if it has none.
pub open spec fn arena_use_of(region: Seq<u8>, h: RingHeader) -> (u64, u64) {
    if h.has(FLAG_WITH_ARENA) && h.arena_offset > 0 && h.arena_offset + 24 <= region.len() {
        (le64(region, h.arena_offset as int), le64(region, h.arena_offset + 16))
    } else {
        (0, 0)
    }
}

/// Capacity and reserved bytes of the arena of a mapped ring, zeros if it has none.
pub fn arena_use(region: &[u8], header: &RingHeader) -> (r: (u64, u64))
    ensures
        r == arena_use_of(region@, *header),
{
    let len: u64 = region.len() as u64;
    if header.flags & FLAG_WITH_ARENA != 0 && header.arena_offset > 0 && len >= 24
        && header.arena_offset <= len - 24 {
        let at: usize = header.arena_offset as usize;
        (read_u64(region, at), read_u64(region, at + 16))
    } else {
        (0, 0)
    }
}

/// What is reported of a ring.
#[derive(Debug)]
pub struct RingStatus {
    pub path: String,
    pub file_len: u64,
    pub header: RingHeader,
    pub window: Option<(u64, u64)>,
    pub readers: Vec<ReaderSnapshot>,
    pub arena_capacity: u64,
    pub arena_reserved: u64,
}

/// Looks at a mapped ring; `live` are the processes that run.
pub fn ring_status(path: String, region: &[u8], header: RingHeader, live: &[u32]) -> (s: RingStatus)
    requires
        header.capacity > 0,
    ensures
        s.path@ == path@,
        s.file_len == region@.len(),
        s.header == header,
        s.window == window_of(header.write_seq, header.capacity),
        (s.arena_capacity, s.arena_reserved) == arena_use_of(region@, header),
        exists|slots: Seq<ReaderSlot>| #[trigger]
            registry_in(region@, header, slots) && snapshots_of(
                s.readers@,
                taken_indices(slots),
                slots,
                header.write_seq,
                live@,
            ),
{
    let slots = registry_slots(region, &header);
    let readers = read_readers(slots.as_slice(), header.write_seq, live);
    let (arena_capacity, arena_reserved) = arena_use(region, &header);
    let window = retained_window(header.write_seq, header.capacity);
    assert(registry_in(region@, header, slots@));
    RingStatus {
        path,
        file_len: region.len() as u64,
        header,
        window,
        readers,
        arena_capacity,
        arena_reserved,
    }
}

/// `slots` are the reader slots of a mapped ring.
pub open spec fn registry_in(region: Seq<u8>, h: RingHeader, slots: Seq<ReaderSlot>) -> bool {
    &&& slots.len() == (if has_readers(h, region.len() as int) {
        h.reader_registry_count as nat
    } else {
        0
    })
    &&& forall|i: int|
        0 <= i < slots.len() ==> reader_slot_at(
            region,
            h.reader_registry_offset + i * READER_SLOT_SIZE,
            #[trigger] slots[i],
        )
}

/// The mode of a ring, in short.
pub open spec fn mode_word(h: RingHeader) -> Seq<char> {
    if h.has(FLAG_MODE_MPMC) {
        "MPMC"@
    } else if h.has(FLAG_MODE_SPMC) {
        "SPMC"@
    } else {
        "UNKNOWN"@
    }
}

/// The flow control of a ring.
pub open spec fn flow_word(h: RingHeader) -> Seq<char> {
    if h.has(FLAG_POLICY_LOSSLESS_BACKPRESSURE) {
        "LosslessBackpressure"@
    } else {
        "LossyLatestWins"@
    }
}

fn mode_text(header: &RingHeader) -> (s: &'static str)
    ensures
        s@ == mode_word(*header),
{
    if header.flags & FLAG_MODE_MPMC != 0 {
        "MPMC"
    } else if header.flags & FLAG_MODE_SPMC != 0 {
        "SPMC"
    } else {
        "UNKNOWN"
    }
}

fn flow_text(header: &RingHeader) -> (s: &'static str)
    ensures
        s@ == flow_word(*header),
{
    if header.flags & FLAG_POLICY_LOSSLESS_BACKPRESSURE != 0 {
        "LosslessBackpressure"
    } else {
        "LossyLatestWins"
    }
}

/// A JSON string.
pub open spec fn json_text(s: Seq<char>) -> Seq<char> {
    seq!['"'] + json_body(s) + seq!['"']
}

/// One reader in JSON.
pub open spec fn reader_json(r: ReaderSnapshot, last: bool) -> Seq<char> {
    "    {\n      \"slot\": "@ + decimal(r.slot_index as nat) + ",\n      \"pid\": "@ + decimal(
        r.pid as nat,
    ) + ",\n      \"name\": "@ + json_text(r.name@) + ",\n      \"cursor\": "@ + decimal(
        r.cursor_seq as nat,
    ) + ",\n      \"lag\": "@ + decimal(r.lag as nat) + ",\n      \"alive\": "@ + truth(r.alive) + (
    if last {
        "\n    }\n"@
    } else {
        "\n    },\n"@
    })
}

fn reader_as_json(r: &ReaderSnapshot, last: bool) -> (out: String)
    ensures
        out@ == reader_json(*r, last),
{
    let mut out = String::from_str("    {\n      \"slot\": ");
    push_decimal(&mut out, r.slot_index as u64);
    out.append(",\n      \"pid\": ");
    push_decimal(&mut out, r.pid as u64);
    out.append(",\n      \"name\": ");
    out.append(json_str(r.name.as_str()).as_str());
    out.append(",\n      \"cursor\": ");
    push_decimal(&mut out, r.cursor_seq);
    out.append(",\n      \"lag\": ");
    push_decimal(&mut out, r.lag);
    out.append(",\n      \"alive\": ");
    push_bool(&mut out, r.alive);
    if last {
        out.append("\n    }\n");
    } else {
        out.append("\n    },\n");
    }
    out
}

/// The first `n` readers in JSON.
pub open spec fn readers_json(readers: Seq<ReaderSnapshot>, n: int) -> Seq<char>
    decreases n,
{
    if n <= 0 {
        Seq::empty()
    } else {
        readers_json(readers, n - 1) + reader_json(readers[n - 1], n == readers.len())
    }
}

fn readers_as_json(readers: &Vec<ReaderSnapshot>) -> (out: String)
    ensures
        out@ == readers_json(readers@, readers@.len() as int),
{
    let mut out = String::new();
    let mut i: usize = 0;
    while i < readers.len()
        invariant
            i <= readers@.len(),
            out@ == readers_json(readers@, i as int),
        decreases readers@.len() - i,
    {
        out.append(reader_as_json(&readers[i], i + 1 == readers.len()).as_str());
        i = i + 1;
    }
    out
}

/// The arena's part of the JSON status.
pub open spec fn arena_json(s: RingStatus) -> Seq<char> {
    if s.header.has(FLAG_WITH_ARENA) {
        "  \"arena_capacity\": "@ + decimal(s.arena_capacity as nat)
            + ",\n  \"arena_reserved\": "@ + decimal(s.arena_reserved as nat) + ",\n"@
    } else {
        Seq::empty()
    }
}

/// The status of a ring in JSON; `utilization` is the percentage of slots in use.
pub open spec fn status_json(s: RingStatus, utilization: Seq<char>) -> Seq<char> {
    "{\n  \"path\": "@ + json_text(s.path@) + ",\n  \"file_size\": "@ + decimal(s.file_len as nat)
        + ",\n  \"magic\": \"0x"@ + hex(s.header.magic as nat, 16, true)
        + "\",\n  \"version\": "@ + decimal(s.header.version as nat) + ",\n  \"mode\": \""@
        + mode_word(s.header) + "\",\n  \"flow_control\": \""@ + flow_word(s.header)
        + "\",\n  \"capacity\": "@ + decimal(s.header.capacity as nat)
        + ",\n  \"element_size\": "@ + decimal(s.header.element_size as nat)
        + ",\n  \"write_seq\": "@ + decimal(s.header.write_seq as nat)
        + ",\n  \"claim_seq\": "@ + decimal(s.header.claim_seq as nat)
        + ",\n  \"read_seq\": "@ + decimal(s.header.read_seq as nat)
        + ",\n  \"oldest_seq\": "@ + decimal(extent_of(s.window).0 as nat)
        + ",\n  \"utilization_pct\": "@ + utilization + ",\n  \"waiting_consumers\": "@ + decimal(
        s.header.waiting_consumers as nat,
    ) + ",\n  \"futex_word\": "@ + decimal(s.header.futex_word as nat)
        + ",\n  \"has_arena\": "@ + truth(s.header.has(FLAG_WITH_ARENA)) + ",\n"@ + arena_json(s)
        + "  \"has_registry\": "@ + truth(s.header.has(FLAG_WITH_REGISTRY))
        + ",\n  \"readers\": [\n"@ + readers_json(s.readers@, s.readers@.len() as int)
        + "  ]\n}\n"@
}

/// A reader row of the tables for terminals.
pub open spec fn table_row(
    slot: Seq<char>,
    pid: Seq<char>,
    name: Seq<char>,
    cursor: Seq<char>,
    lag: Seq<char>,
    status: Seq<char>,
) -> Seq<char> {
    padded(slot, 4) + "  "@ + padded(pid, 8) + "  "@ + padded(name, 20) + "  "@ + padded(
        cursor,
        12,
    ) + "  "@ + padded(lag, 10) + "  "@ + padded(status, 8)
}

fn table_line(slot: &str, pid: &str, name: &str, cursor: &str, lag: &str, status: &str) -> (out:
    String)
    ensures
        out@ == table_row(slot@, pid@, name@, cursor@, lag@, status@),
{
    let mut out = String::new();
    push_padded(&mut out, slot, 4);
    assert(out@ =~= padded(slot@, 4));
    out.append("  ");
    push_padded(&mut out, pid, 8);
    out.append("  ");
    push_padded(&mut out, name, 20);
    out.append("  ");
    push_padded(&mut out, cursor, 12);
    out.append("  ");
    push_padded(&mut out, lag, 10);
    out.append("  ");
    push_padded(&mut out, status, 8);
    out
}

/// The titles of the reader table.
pub open spec fn table_head() -> Seq<char> {
    table_row("Slot"@, "PID"@, "Name"@, "Cursor"@, "Lag"@, "Status"@)
}

fn table_titles() -> (out: String)
    ensures
        out@ == table_head(),
{
    table_line("Slot", "PID", "Name", "Cursor", "Lag", "Status")
}

/// One reader in the table.
pub open spec fn reader_row(r: ReaderSnapshot) -> Seq<char> {
    table_row(
        decimal(r.slot_index as nat),
        decimal(r.pid as nat),
        r.name@,
        decimal(r.cursor_seq as nat),
        decimal(r.lag as nat),
        if r.alive {
            "ALIVE"@
        } else {
            "DEAD"@
        },
    )
}

fn reader_line(r: &ReaderSnapshot) -> (out: String)
    ensures
        out@ == reader_row(*r),
{
    let status: &str = if r.alive {
        "ALIVE"
    } else {
        "DEAD"
    };
    table_line(
        decimal_text(r.slot_index as u64).as_str(),
        decimal_text(r.pid as u64).as_str(),
        r.name.as_str(),
        decimal_text(r.cursor_seq).as_str(),
        decimal_text(r.lag).as_str(),
        status,
    )
}

/// The first `n` readers, one per line, each behind `indent`.
pub open spec fn reader_rows(readers: Seq<ReaderSnapshot>, n: int, indent: Seq<char>) -> Seq<char>
    decreases n,
{
    if n <= 0 {
        Seq::empty()
    } else {
        reader_rows(readers, n - 1, indent) + indent + reader_row(readers[n - 1]) + "\n"@
    }
}

fn reader_lines(readers: &Vec<ReaderSnapshot>, indent: &str) -> (out: String)
    ensures
        out@ == reader_rows(readers@, readers@.len() as int, indent@),
{
    let mut out = String::new();
    let mut i: usize = 0;
    while i < readers.len()
        invariant
            i <= readers@.len(),
            out@ == reader_rows(readers@, i as int, indent@),
        decreases readers@.len() - i,
    {
        out.append(indent);
        out.append(reader_line(&readers[i]).as_str());
        out.append("\n");
        i = i + 1;
    }
    out
}

impl RingStatus {
    /// The window is one of a ring.
    pub open spec fn wf(&self) -> bool {
        self.window matches Some((oldest, newest)) ==> 1 <= oldest <= newest
    }

    /// The status in JSON; `utilization` is the percentage of slots in use.
    pub fn to_json(&self, utilization: &str) -> (out: String)
        requires
            self.wf(),
        ensures
            out@ == status_json(*self, utilization@),
    {
        let h = &self.header;
        let mut out = String::from_str("{\n  \"path\": ");
        out.append(json_str(self.path.as_str()).as_str());
        out.append(",\n  \"file_size\": ");
        push_decimal(&mut out, self.file_len);
        out.append(",\n  \"magic\": \"0x");
        push_hex(&mut out, h.magic, 16, true);
        out.append("\",\n  \"version\": ");
        push_decimal(&mut out, h.version as u64);
        out.append(",\n  \"mode\": \"");
        out.append(mode_text(h));
        out.append("\",\n  \"flow_control\": \"");
        out.append(flow_text(h));
        out.append("\",\n  \"capacity\": ");
        push_decimal(&mut out, h.capacity);
        out.append(",\n  \"element_size\": ");
        push_decimal(&mut out, h.element_size as u64);
        out.append(",\n  \"write_seq\": ");
        push_decimal(&mut out, h.write_seq);
        out.append(",\n  \"claim_seq\": ");
        push_decimal(&mut out, h.claim_seq);
        out.append(",\n  \"read_seq\": ");
        push_decimal(&mut out, h.read_seq);
        out.append(",\n  \"oldest_seq\": ");
        push_decimal(&mut out, extent(self.window).0);
        out.append(",\n  \"utilization_pct\": ");
        out.append(utilization);
        out.append(",\n  \"waiting_consumers\": ");
        push_decimal(&mut out, h.waiting_consumers as u64);
        out.append(",\n  \"futex_word\": ");
        push_decimal(&mut out, h.futex_word as u64);
        out.append(",\n  \"has_arena\": ");
        push_bool(&mut out, h.flags & FLAG_WITH_ARENA != 0);
        out.append(",\n");
        out.append(self.arena_part().as_str());
        out.append("  \"has_registry\": ");
        push_bool(&mut out, h.flags & FLAG_WITH_REGISTRY != 0);
        out.append(",\n  \"readers\": [\n");
        out.append(readers_as_json(&self.readers).as_str());
        out.append("  ]\n}\n");
        out
    }

    fn arena_part(&self) -> (out: String)
        ensures
            out@ == arena_json(*self),
    {
        if self.header.flags & FLAG_WITH_ARENA != 0 {
            let mut out = String::from_str("  \"arena_capacity\": ");
            push_decimal(&mut out, self.arena_capacity);
            out.append(",\n  \"arena_reserved\": ");
            push_decimal(&mut out, self.arena_reserved);
            out.append(",\n");
            out
        } else {
            String::new()
        }
    }
}

/// The texts of the ratios in the status for terminals.
#[derive(Debug)]
pub struct Ratios {
    /// Size of the file in MB, to two places
    pub file_mb: String,
    /// Size of the slots in MB, to two places
    pub slots_mb: String,
    /// Percentage of slots in use, to one place
    pub filled: String,
    /// Size of the arena in MB, to two places
    pub arena_mb: String,
    /// Percentage of the arena's current cycle that is reserved, to one place
    pub arena_filled: String,
}

/// A double rule.
pub open spec fn double_rule() -> Seq<char> {
    "================================================================================\n"@
}

/// A rule.
pub open spec fn rule() -> Seq<char> {
    "--------------------------------------------------------------------------------\n"@
}

fn push_double_rule(out: &mut String)
    ensures
        final(out)@ == old(out)@ + double_rule(),
{
    out.append(
        "================================================================================\n",
    );
}

fn push_rule(out: &mut String)
    ensures
        final(out)@ == old(out)@ + rule(),
{
    out.append(
        "--------------------------------------------------------------------------------\n",
    );
}

/// The queue counters in the status for terminals.
pub open spec fn queue_text(h: RingHeader) -> Seq<char> {
    if h.has(FLAG_MODE_MPMC) {
        "   Claim Sequence:    "@ + decimal(h.claim_seq as nat)
            + "\n   Read Sequence:     "@ + decimal(h.read_seq as nat) + "\n"@
    } else {
        Seq::empty()
    }
}

/// The retained window in the status for terminals.
pub open spec fn window_text(window: Option<(u64, u64)>, filled: Seq<char>) -> Seq<char> {
    match window {
        Some((oldest, newest)) => "   Retained Window:   ["@ + decimal(oldest as nat) + " .. "@
            + decimal(newest as nat) + "] ("@ + decimal(extent_of(window).1 as nat) + " slots, "@
            + filled + "% filled)\n"@,
        None => "   Retained Window:   (empty: nothing published yet)\n"@,
    }
}

/// How often the arena has wrapped.
pub open spec fn arena_cycles(capacity: u64, reserved: u64) -> u64 {
    if capacity == 0 {
        0
    } else {
        reserved / capacity
    }
}

/// The arena in the status for terminals.
pub open spec fn arena_text(s: RingStatus, t: Ratios) -> Seq<char> {
    if s.header.has(FLAG_WITH_ARENA) {
        rule() + " Variable-Length Payload Arena:\n   Capacity:          "@ + decimal(
            s.arena_capacity as nat,
        ) + " bytes ("@ + t.arena_mb@ + " MB)\n   Reserved Bytes:    "@ + decimal(
            s.arena_reserved as nat,
        ) + " ("@ + t.arena_filled@ + "% wrapped cycles: "@ + decimal(
            arena_cycles(s.arena_capacity, s.arena_reserved) as nat,
        ) + ")\n"@
    } else {
        Seq::empty()
    }
}

/// The readers in the status for terminals.
pub open spec fn readers_text(readers: Seq<ReaderSnapshot>) -> Seq<char> {
    if readers.len() == 0 {
        "   (No active reader processes registered)\n"@
    } else {
        "   "@ + table_head()
            + "\n   -------------------------------------------------------------------\n"@
            + reader_rows(readers, readers.len() as int, "   "@)
    }
}

/// The status of a ring for terminals.
pub open spec fn status_text(s: RingStatus, t: Ratios) -> Seq<char> {
    double_rule() + " ringfire Shared Memory Ring Buffer Status\n"@ + double_rule()
        + " File:                "@ + s.path@ + "\n Size:                "@ + decimal(
        s.file_len as nat,
    ) + " bytes ("@ + t.file_mb@ + " MB)\n Protocol / Mode:     Version "@ + decimal(
        s.header.version as nat,
    ) + " | "@ + (if s.header.has(FLAG_MODE_MPMC) {
        "MPMC Queue"@
    } else {
        "SPMC Broadcast"@
    }) + " | "@ + flow_word(s.header) + "\n Capacity (Slots):    "@ + decimal(
        s.header.capacity as nat,
    ) + " (Mask: 0x"@ + hex_number(s.header.mask as nat) + ")\n Element Size:        "@ + decimal(
        s.header.element_size as nat,
    ) + " bytes\n Total Slots Memory:  "@ + t.slots_mb@ + " MB\n"@ + rule()
        + " Sequence State:\n   Write Sequence:    "@ + decimal(s.header.write_seq as nat) + "\n"@
        + queue_text(s.header) + window_text(s.window, t.filled@) + "   Sleeping Readers:  "@
        + decimal(s.header.waiting_consumers as nat) + " (Futex word: "@ + decimal(
        s.header.futex_word as nat,
    ) + ")\n"@ + arena_text(s, t) + rule() + " Registered Readers ("@ + decimal(s.readers@.len())
        + " active / "@ + decimal(s.header.reader_registry_count as nat) + " max):\n"@
        + readers_text(s.readers@) + double_rule()
}

fn queue_lines(h: &RingHeader) -> (out: String)
    ensures
        out@ == queue_text(*h),
{
    if h.flags & FLAG_MODE_MPMC != 0 {
        let mut out = String::from_str("   Claim Sequence:    ");
        push_decimal(&mut out, h.claim_seq);
        out.append("\n   Read Sequence:     ");
        push_decimal(&mut out, h.read_seq);
        out.append("\n");
        out
    } else {
        String::new()
    }
}

fn window_line(window: Option<(u64, u64)>, filled: &str) -> (out: String)
    requires
        window matches Some((oldest, newest)) ==> 1 <= oldest <= newest,
    ensures
        out@ == window_text(window, filled@),
{
    match window {
        Some((oldest, newest)) => {
            let mut out = String::from_str("   Retained Window:   [");
            push_decimal(&mut out, oldest);
            out.append(" .. ");
            push_decimal(&mut out, newest);
            out.append("] (");
            push_decimal(&mut out, extent(window).1);
            out.append(" slots, ");
            out.append(filled);
            out.append("% filled)\n");
            out
        },
        None => String::from_str("   Retained Window:   (empty: nothing published yet)\n"),
    }
}

fn readers_lines(readers: &Vec<ReaderSnapshot>) -> (out: String)
    ensures
        out@ == readers_text(readers@),
{
    if readers.len() == 0 {
        String::from_str("   (No active reader processes registered)\n")
    } else {
        let mut out = String::from_str("   ");
        out.append(table_titles().as_str());
        out.append("\n   -------------------------------------------------------------------\n");
        out.append(reader_lines(readers, "   ").as_str());
        out
    }
}

impl RingStatus {
    /// The status for terminals.
    pub fn to_text(&self, t: &Ratios) -> (out: String)
        requires
            self.wf(),
        ensures
            out@ == status_text(*self, *t),
    {
        let h = &self.header;
        let mut out = String::new();
        push_double_rule(&mut out);
        assert(out@ =~= double_rule());
        out.append(" ringfire Shared Memory Ring Buffer Status\n");
        push_double_rule(&mut out);
        out.append(" File:                ");
        out.append(self.path.as_str());
        out.append("\n Size:                ");
        push_decimal(&mut out, self.file_len);
        out.append(" bytes (");
        out.append(t.file_mb.as_str());
        out.append(" MB)\n Protocol / Mode:     Version ");
        push_decimal(&mut out, h.version as u64);
        out.append(" | ");
        if h.flags & FLAG_MODE_MPMC != 0 {
            out.append("MPMC Queue");
        } else {
            out.append("SPMC Broadcast");
        }
        out.append(" | ");
        out.append(flow_text(h));
        out.append("\n Capacity (Slots):    ");
        push_decimal(&mut out, h.capacity);
        out.append(" (Mask: 0x");
        push_hex_number(&mut out, h.mask);
        out.append(")\n Element Size:        ");
        push_decimal(&mut out, h.element_size as u64);
        out.append(" bytes\n Total Slots Memory:  ");
        out.append(t.slots_mb.as_str());
        out.append(" MB\n");
        push_rule(&mut out);
        out.append(" Sequence State:\n   Write Sequence:    ");
        push_decimal(&mut out, h.write_seq);
        out.append("\n");
        out.append(queue_lines(h).as_str());
        out.append(window_line(self.window, t.filled.as_str()).as_str());
        out.append("   Sleeping Readers:  ");
        push_decimal(&mut out, h.waiting_consumers as u64);
        out.append(" (Futex word: ");
        push_decimal(&mut out, h.futex_word as u64);
        out.append(")\n");
        out.append(self.arena_lines(t).as_str());
        push_rule(&mut out);
        out.append(" Registered Readers (");
        push_decimal(&mut out, self.readers.len() as u64);
        out.append(" active / ");
        push_decimal(&mut out, h.reader_registry_count as u64);
        out.append(" max):\n");
        out.append(readers_lines(&self.readers).as_str());
        push_double_rule(&mut out);
        out
    }

    fn arena_lines(&self, t: &Ratios) -> (out: String)
        ensures
            out@ == arena_text(*self, *t),
    {
        if self.header.flags & FLAG_WITH_ARENA != 0 {
            let mut out = String::new();
            push_rule(&mut out);
            assert(out@ =~= rule());
            out.append(" Variable-Length Payload Arena:\n   Capacity:          ");
            push_decimal(&mut out, self.arena_capacity);
            out.append(" bytes (");
            out.append(t.arena_mb.as_str());
            out.append(" MB)\n   Reserved Bytes:    ");
            push_decimal(&mut out, self.arena_reserved);
            out.append(" (");
            out.append(t.arena_filled.as_str());
            out.append("% wrapped cycles: ");
            let cycles: u64 = if self.arena_capacity == 0 {
                0
            } else {
                self.arena_reserved / self.arena_capacity
            };
            push_decimal(&mut out, cycles);
            out.append(")\n");
            out
        } else {
            String::new()
        }
    }
}

/// The status of a table in JSON.
pub open spec fn board_status_json(path: Seq<char>, file_len: u64, h: BlackboardHeader) -> Seq<
    char,
> {
    "{\n  \"type\": \"Blackboard\",\n  \"path\": "@ + json_text(path) + ",\n  \"file_size\": "@
        + decimal(file_len as nat) + ",\n  \"version\": "@ + decimal(h.version as nat)
        + ",\n  \"slot_count\": "@ + decimal(h.slot_count as nat) + ",\n  \"value_size\": "@
        + decimal(h.value_size as nat) + ",\n  \"slot_size\": "@ + decimal(h.slot_size as nat)
        + "\n}\n"@
}

/// The status of a table for terminals.
pub open spec fn board_status_text(path: Seq<char>, file_len: u64, h: BlackboardHeader) -> Seq<
    char,
> {
    double_rule() + " ringfire Blackboard (O(1) Seqlock State Table) Status\n"@ + double_rule()
        + " File:         "@ + path + "\n Size:         "@ + decimal(file_len as nat)
        + " bytes\n Version:      "@ + decimal(h.version as nat) + "\n Slots Count:  "@ + decimal(
        h.slot_count as nat,
    ) + "\n Value Size:   "@ + decimal(h.value_size as nat) + " bytes\n Slot Stride:  "@ + decimal(
        h.slot_size as nat,
    ) + " bytes (cache-line aligned)\n"@ + double_rule()
}

/// The status of a table, in JSON or for terminals.
pub fn blackboard_stat(path: &str, file_len: u64, h: &BlackboardHeader, json: bool) -> (out: String)
    ensures
        out@ == (if json {
            board_status_json(path@, file_len, *h)
        } else {
            board_status_text(path@, file_len, *h)
        }),
{
    if json {
        let mut out = String::from_str("{\n  \"type\": \"Blackboard\",\n  \"path\": ");
        out.append(json_str(path).as_str());
        out.append(",\n  \"file_size\": ");
        push_decimal(&mut out, file_len);
        out.append(",\n  \"version\": ");
        push_decimal(&mut out, h.version as u64);
        out.append(",\n  \"slot_count\": ");
        push_decimal(&mut out, h.slot_count as u64);
        out.append(",\n  \"value_size\": ");
        push_decimal(&mut out, h.value_size as u64);
        out.append(",\n  \"slot_size\": ");
        push_decimal(&mut out, h.slot_size as u64);
        out.append("\n}\n");
        return out;
    }
    let mut out = String::new();
    push_double_rule(&mut out);
    assert(out@ =~= double_rule());
    out.append(" ringfire Blackboard (O(1) Seqlock State Table) Status\n");
    push_double_rule(&mut out);
    out.append(" File:         ");
    out.append(path);
    out.append("\n Size:         ");
    push_decimal(&mut out, file_len);
    out.append(" bytes\n Version:      ");
    push_decimal(&mut out, h.version as u64);
    out.append("\n Slots Count:  ");
    push_decimal(&mut out, h.slot_count as u64);
    out.append("\n Value Size:   ");
    push_decimal(&mut out, h.value_size as u64);
    out.append(" bytes\n Slot Stride:  ");
    push_decimal(&mut out, h.slot_size as u64);
    out.append(" bytes (cache-line aligned)\n");
    push_double_rule(&mut out);
    out
}

/// The texts of the rates in the dashboard, each already in its column.
#[derive(Debug)]
pub struct Rates {
    /// Messages per second, to one place, flush right in ten characters
    pub messages: String,
    /// MB per second, to two places, flush right in seven characters
    pub megabytes: String,
    /// Percentage of slots in use, to one place, flush right in five characters
    pub filled: String,
}

/// Messages published between two looks at a ring.
pub fn published_since(write_seq: u64, last_seq: u64) -> (n: u64)
    ensures
        n == (if write_seq >= last_seq {
            write_seq - last_seq
        } else {
            0
        }),
{
    write_seq.saturating_sub(last_seq)
}

/// One picture of the dashboard.
pub open spec fn top_text(s: RingStatus, t: Rates) -> Seq<char> {
    "ringfire top - "@ + s.path@ + " ["@ + (if s.header.has(FLAG_MODE_MPMC) {
        "MPMC"@
    } else {
        "SPMC"@
    }) + "] | Flow: "@ + (if s.header.has(FLAG_POLICY_LOSSLESS_BACKPRESSURE) {
        "Backpressure"@
    } else {
        "LatestWins"@
    }) + "\nWrite Seq: "@ + padded(decimal(s.header.write_seq as nat), 12) + " | Throughput: "@
        + t.messages@ + " msg/s ("@ + t.megabytes@ + " MB/s)\nBuffer:    "@ + padded(
        decimal(extent_of(s.window).1 as nat),
        12,
    ) + " / "@ + decimal(s.header.capacity as nat) + " slots ("@ + t.filled@ + "%) | Window: ["@
        + decimal(extent_of(s.window).0 as nat) + " .. "@ + decimal(s.header.write_seq as nat)
        + "]\nFutex:     "@ + decimal(s.header.waiting_consumers as nat) + " sleeping | Readers: "@
        + decimal(s.readers@.len()) + " active\n"@ + rule() + table_head() + "\n"@ + rule() + (
    if s.readers@.len() == 0 {
        "(No active readers registered)\n"@
    } else {
        reader_rows(s.readers@, s.readers@.len() as int, ""@)
    }) + rule() + "Press Ctrl+C to exit.\n"@
}

impl RingStatus {
    /// One picture of the dashboard.
    pub fn to_top(&self, t: &Rates) -> (out: String)
        requires
            self.wf(),
        ensures
            out@ == top_text(*self, *t),
    {
        let h = &self.header;
        let (oldest, active) = extent(self.window);
        let mut out = String::from_str("ringfire top - ");
        out.append(self.path.as_str());
        out.append(" [");
        if h.flags & FLAG_MODE_MPMC != 0 {
            out.append("MPMC");
        } else {
            out.append("SPMC");
        }
        out.append("] | Flow: ");
        if h.flags & FLAG_POLICY_LOSSLESS_BACKPRESSURE != 0 {
            out.append("Backpressure");
        } else {
            out.append("LatestWins");
        }
        out.append("\nWrite Seq: ");
        push_padded(&mut out, decimal_text(h.write_seq).as_str(), 12);
        out.append(" | Throughput: ");
        out.append(t.messages.as_str());
        out.append(" msg/s (");
        out.append(t.megabytes.as_str());
        out.append(" MB/s)\nBuffer:    ");
        push_padded(&mut out, decimal_text(active).as_str(), 12);
        out.append(" / ");
        push_decimal(&mut out, h.capacity);
        out.append(" slots (");
        out.append(t.filled.as_str());
        out.append("%) | Window: [");
        push_decimal(&mut out, oldest);
        out.append(" .. ");
        push_decimal(&mut out, h.write_seq);
        out.append("]\nFutex:     ");
        push_decimal(&mut out, h.waiting_consumers as u64);
        out.append(" sleeping | Readers: ");
        push_decimal(&mut out, self.readers.len() as u64);
        out.append(" active\n");
        push_rule(&mut out);
        out.append(table_titles().as_str());
        out.append("\n");
        push_rule(&mut out);
        if self.readers.len() == 0 {
            out.append("(No active readers registered)\n");
        } else {
            out.append(reader_lines(&self.readers, "").as_str());
        }
        push_rule(&mut out);
        out.append("Press Ctrl+C to exit.\n");
        out
    }
}

/// The messages that a dump of the last `tail` shows: first and last.
pub open spec fn dump_window(write_seq: u64, capacity: u64, tail: u64) -> Option<(u64, u64)> {
    match window_of(write_seq, capacity) {
        None => None,
        Some((oldest, newest)) => {
            let back = if tail == 0 {
                0
            } else {
                tail - 1
            };
            Some(
                (
                    if newest - back >= oldest {
                        (newest - back) as u64
                    } else {
                        oldest
                    },
                    newest,
                ),
            )
        },
    }
}

/// The messages that a dump of the last `tail` shows, first and last; `None` if there are
/// none.
pub fn dump_range(write_seq: u64, capacity: u64, tail: u64) -> (r: Option<(u64, u64)>)
    requires
        capacity > 0,
    ensures
        r == dump_window(write_seq, capacity, tail),
        r matches Some((first, last)) ==> 1 <= first <= last,
{
    match retained_window(write_seq, capacity) {
        None => None,
        Some((oldest, newest)) => {
            let back: u64 = larger(tail, 1) - 1;
            Some((larger(newest.saturating_sub(back), oldest), newest))
        },
    }
}

/// What a dump starts with.
pub open spec fn dump_title_text(range: Option<(u64, u64)>, capacity: u64) -> Seq<char> {
    match range {
        None => "Ring is empty: nothing published yet (capacity "@ + decimal(capacity as nat)
            + ").\n"@,
        Some((first, last)) => "Dumping slots from seq "@ + decimal(first as nat) + " to seq "@
            + decimal(last as nat) + " (capacity "@ + decimal(capacity as nat) + "):\n"@ + padded(
            "Seq"@,
            8,
        ) + "  "@ + padded("SlotIdx"@, 8) + "  "@ + padded("SlotSeq"@, 10) + "  Payload\n"@
            + rule(),
    }
}

/// What a dump starts with.
pub fn dump_title(range: Option<(u64, u64)>, capacity: u64) -> (out: String)
    ensures
        out@ == dump_title_text(range, capacity),
{
    match range {
        None => {
            let mut out = String::from_str("Ring is empty: nothing published yet (capacity ");
            push_decimal(&mut out, capacity);
            out.append(").\n");
            out
        },
        Some((first, last)) => {
            let mut out = String::from_str("Dumping slots from seq ");
            push_decimal(&mut out, first);
            out.append(" to seq ");
            push_decimal(&mut out, last);
            out.append(" (capacity ");
            push_decimal(&mut out, capacity);
            out.append("):\n");
            push_padded(&mut out, "Seq", 8);
            out.append("  ");
            push_padded(&mut out, "SlotIdx", 8);
            out.append("  ");
            push_padded(&mut out, "SlotSeq", 10);
            out.append("  Payload\n");
            push_rule(&mut out);
            out
        },
    }
}

/// The first `n` bytes in hexadecimal, with spaces between them.
pub open spec fn hex_bytes(b: Seq<u8>, n: int) -> Seq<char>
    decreases n,
{
    if n <= 0 {
        Seq::empty()
    } else if n == 1 {
        hex(b[0] as nat, 2, true)
    } else {
        hex_bytes(b, n - 1) + " "@ + hex(b[n - 1] as nat, 2, true)
    }
}

/// A byte as a printable character.
pub open spec fn printable(b: u8) -> char {
    if 32 <= b <= 126 {
        b as char
    } else {
        '.'
    }
}

/// A payload in a dump.
pub open spec fn payload_text(data: Seq<u8>, in_hex: bool) -> Seq<char> {
    if in_hex {
        let n = if data.len() < 16 {
            data.len() as int
        } else {
            16
        };
        "hex: ["@ + hex_bytes(data, n) + "]"@ + (if data.len() > 16 {
            "..."@
        } else {
            ""@
        })
    } else {
        let n = if data.len() < 32 {
            data.len() as int
        } else {
            32
        };
        "\""@ + data.take(n).map_values(|b: u8| printable(b)) + "\" ("@ + decimal(data.len())
            + " bytes)"@
    }
}

fn hex_preview(data: &[u8], n: usize) -> (out: String)
    requires
        n <= data@.len(),
    ensures
        out@ == hex_bytes(data@, n as int),
{
    let mut out = String::new();
    let mut i: usize = 0;
    while i < n
        invariant
            i <= n <= data@.len(),
            out@ == hex_bytes(data@, i as int),
        decreases n - i,
    {
        if i > 0 {
            out.append(" ");
        }
        push_hex(&mut out, data[i] as u64, 2, true);
        assert(i == 0 ==> out@ =~= hex(data@[0] as nat, 2, true));
        i = i + 1;
    }
    out
}

fn text_preview(data: &[u8], n: usize) -> (out: String)
    requires
        n <= data@.len(),
    ensures
        out@ == data@.take(n as int).map_values(|b: u8| printable(b)),
{
    let mut out = String::new();
    let mut i: usize = 0;
    while i < n
        invariant
            i <= n <= data@.len(),
            out@ =~= data@.take(i as int).map_values(|b: u8| printable(b)),
        decreases n - i,
    {
        let b: u8 = data[i];
        if b >= 32 && b <= 126 {
            out.push(b as char);
        } else {
            out.push('.');
        }
        i = i + 1;
    }
    out
}

fn payload_preview(data: &[u8], in_hex: bool) -> (out: String)
    ensures
        out@ == payload_text(data@, in_hex),
{
    let len: usize = data.len();
    if in_hex {
        let n: usize = if len < 16 {
            len
        } else {
            16
        };
        let mut out = String::from_str("hex: [");
        out.append(hex_preview(data, n).as_str());
        out.append("]");
        if len > 16 {
            out.append("...");
        } else {
            out.append("");
        }
        out
    } else {
        let n: usize = if len < 32 {
            len
        } else {
            32
        };
        let mut out = String::from_str("\"");
        out.append(text_preview(data, n).as_str());
        out.append("\" (");
        push_decimal(&mut out, len as u64);
        out.append(" bytes)");
        out
    }
}

/// A slot's sequence word in a dump.
pub open spec fn word_text(word: u64) -> Seq<char> {
    if word == SLOT_WRITING {
        "WRITING"@
    } else {
        decimal(word as nat)
    }
}

/// The line of message `seq` in a dump: the slot has index `index`, carries `word` and
/// holds `data`.
pub open spec fn dump_row_text(seq: u64, index: u64, word: u64, data: Seq<u8>, in_hex: bool) -> Seq<
    char,
> {
    padded(decimal(seq as nat), 8) + "  "@ + padded(decimal(index as nat), 8) + "  "@ + padded(
        word_text(word),
        10,
    ) + "  "@ + payload_text(data, in_hex) + "\n"@
}

/// The line of message `seq` in a dump: the slot has index `index`, carries `word` and
/// holds `data`.
pub fn dump_row(seq: u64, index: u64, word: u64, data: &[u8], in_hex: bool) -> (out: String)
    ensures
        out@ == dump_row_text(seq, index, word, data@, in_hex),
{
    let mut out = String::new();
    push_padded(&mut out, decimal_text(seq).as_str(), 8);
    assert(out@ =~= padded(decimal(seq as nat), 8));
    out.append("  ");
    push_padded(&mut out, decimal_text(index).as_str(), 8);
    out.append("  ");
    let word_string = if word == SLOT_WRITING {
        String::from_str("WRITING")
    } else {
        decimal_text(word)
    };
    push_padded(&mut out, word_string.as_str(), 10);
    out.append("  ");
    out.append(payload_preview(data, in_hex).as_str());
    out.append("\n");
    out
}

/// Whether a reader slot with owner `pid` is to be pruned.
pub fn is_dead(pid: u32, live: &[u32]) -> (r: bool)
    ensures
        r == (pid != 0 && !live@.contains(pid)),
{
    pid != 0 && !is_listed(live, pid)
}

/// The slots once the owners that do not run are struck off.
pub open spec fn struck(slots: Seq<ReaderSlot>, live: Seq<u32>) -> Seq<ReaderSlot> {
    slots.map_values(
        |s: ReaderSlot|
            if s.pid != 0 && !live.contains(s.pid) {
                ReaderSlot { pid: 0, ..s }
            } else {
                s
            },
    )
}

/// The line that reports a pruned slot.
pub open spec fn prune_line_text(i: int, s: ReaderSlot) -> Seq<char> {
    "Pruning dead reader slot "@ + decimal(i as nat) + ": PID "@ + decimal(s.pid as nat) + " ("@
        + name_text(s.name@) + ")\n"@
}

/// The line that reports a pruned slot.
pub fn prune_line(i: usize, slot: &ReaderSlot) -> (out: String)
    ensures
        out@ == prune_line_text(i as int, *slot),
{
    let mut out = String::from_str("Pruning dead reader slot ");
    push_decimal(&mut out, i as u64);
    out.append(": PID ");
    push_decimal(&mut out, slot.pid as u64);
    out.append(" (");
    out.append(read_name(slot.name.as_slice()).as_str());
    out.append(")\n");
    out
}

/// What the first `n` slots add to the report of a pruning, and how many of them are pruned.
pub open spec fn prune_text(slots: Seq<ReaderSlot>, live: Seq<u32>, n: int) -> (Seq<char>, nat)
    decreases n,
{
    if n <= 0 {
        (Seq::empty(), 0)
    } else {
        let (text, count) = prune_text(slots, live, n - 1);
        let s = slots[n - 1];
        if s.pid != 0 && !live.contains(s.pid) {
            (text + prune_line_text(n - 1, s), count + 1)
        } else {
            (text, count)
        }
    }
}

/// Frees the slots of readers whose processes do not run. Returns the report.
pub fn prune_readers(slots: &mut Vec<ReaderSlot>, live: &[u32]) -> (out: String)
    ensures
        final(slots)@ == struck(old(slots)@, live@),
        ({
            let (text, count) = prune_text(old(slots)@, live@, old(slots)@.len() as int);
            out@ == text + "Successfully pruned "@ + decimal(count) + " dead reader slot(s).\n"@
        }),
{
    let mut out = String::new();
    let mut count: u64 = 0;
    let ghost before = slots@;
    let mut i: usize = 0;
    while i < slots.len()
        invariant
            i <= slots@.len(),
            slots@.len() == before.len(),
            count <= i,
            (out@, count as nat) == prune_text(before, live@, i as int),
            forall|j: int| 0 <= j < i ==> #[trigger] slots@[j] == struck(before, live@)[j],
            forall|j: int| i <= j < slots@.len() ==> #[trigger] slots@[j] == before[j],
        decreases slots@.len() - i,
    {
        let slot = slots[i];
        if is_dead(slot.pid, live) {
            out.append(prune_line(i, &slot).as_str());
            slots.set(i, ReaderSlot { pid: 0, ..slot });
            count = count + 1;
        }
        i = i + 1;
    }
    assert(slots@ =~= struck(before, live@));
    out.append("Successfully pruned ");
    push_decimal(&mut out, count);
    out.append(" dead reader slot(s).\n");
    out
}

/// What a ring retains: nothing before the first message, else the newest message and those
/// before it, as many as there were or as there are slots.
pub proof fn lemma_retained_extent(write_seq: u64, capacity: u64)
    requires
        capacity >= 1,
    ensures
        window_of(write_seq, capacity) is None <==> write_seq == 0,
        extent_of(None) == (0u64, 0u64),
        write_seq > 0 ==> {
            let w = window_of(write_seq, capacity);
            let (oldest, newest) = w->0;
            let (first, count) = extent_of(w);
            &&& newest == write_seq
            &&& first == oldest
            &&& oldest + count == newest + 1
            &&& write_seq <= capacity ==> count == write_seq
            &&& write_seq > capacity ==> count == capacity
        },
{
}

/// A dump of the last `tail` messages ends with the newest one and shows `tail` of them, at
/// least one, and never more than are retained.
pub proof fn lemma_dump_shows_tail(write_seq: u64, capacity: u64, tail: u64)
    requires
        capacity >= 1,
    ensures
        dump_window(write_seq, capacity, tail) is None <==> write_seq == 0,
        write_seq > 0 ==> {
            let (first, last) = dump_window(write_seq, capacity, tail)->0;
            let shown = last - first + 1;
            let wanted = if tail == 0 {
                1int
            } else {
                tail as int
            };
            &&& last == write_seq
            &&& shown <= wanted
            &&& shown <= write_seq
            &&& shown <= capacity
            &&& shown == wanted || shown == write_seq || shown == capacity
        },
{
}

/// The readers that are reported are those in slots with a process and the active mark, each
/// once, in the order of the slots.
pub proof fn lemma_reported_slots(slots: Seq<ReaderSlot>, i: int)
    ensures
        ({
            let at = taken_indices(slots);
            &&& at.contains(i) <==> 0 <= i < slots.len() && slots[i].pid != 0 && slots[i].active
                != 0
            &&& forall|a: int, b: int| 0 <= a < b < at.len() ==> at[a] < at[b]
            &&& forall|a: int| 0 <= a < at.len() ==> 0 <= #[trigger] at[a] < slots.len()
        }),
    decreases slots.len(),
{
    if slots.len() > 0 {
        let rest = slots.drop_last();
        lemma_reported_slots(rest, i);
        let was = taken_indices(rest);
        let at = taken_indices(slots);
        if taken(slots.last()) {
            assert(at == was.push(slots.len() - 1));
            assert(at[was.len() as int] == slots.len() - 1);
            assert forall|a: int| 0 <= a < at.len() implies 0 <= #[trigger] at[a] < slots.len() by {
                if a < was.len() {
                    assert(at[a] == was[a]);
                }
            }
            assert forall|a: int, b: int| 0 <= a < b < at.len() implies at[a] < at[b] by {
                assert(at[a] == was[a]);
                if b < was.len() {
                    assert(at[b] == was[b]);
                }
            }
            if was.contains(i) {
                let k = choose|k: int| 0 <= k < was.len() && was[k] == i;
                assert(at[k] == i);
            }
            if at.contains(i) && i != slots.len() - 1 {
                let k = choose|k: int| 0 <= k < at.len() && at[k] == i;
                assert(was[k] == i);
            }
        }
        if 0 <= i < rest.len() {
            assert(rest[i] == slots[i]);
        }
    }
}

/// The lag of a reader: the published messages from its next one on.
pub proof fn lemma_unread_messages(write_seq: u64, cursor: u64)
    ensures
        1 <= cursor <= write_seq ==> unread(write_seq, cursor) == write_seq - cursor + 1,
        cursor > write_seq ==> unread(write_seq, cursor) == 0,
        cursor == 0 ==> unread(write_seq, cursor) == write_seq,
{
}

/// Where the numbers of reader slot `i` stand in a mapped ring.
pub proof fn lemma_reader_slot_bytes(
    region: Seq<u8>,
    h: RingHeader,
    slots: Seq<ReaderSlot>,
    i: int,
)
    requires
        registry_in(region, h, slots),
        0 <= i < slots.len(),
    ensures
        h.reader_registry_offset != 0,
        slots.len() == h.reader_registry_count,
        h.reader_registry_offset + slots.len() * 64 <= region.len(),
        ({
            let at = h.reader_registry_offset + i * 64;
            &&& slots[i].pid == le32(region, at)
            &&& slots[i].active == le32(region, at + 4)
            &&& slots[i].cursor_seq == le64(region, at + 8)
            &&& slots[i].heartbeat_tsc == le64(region, at + 16)
            &&& slots[i].name@ == region.subrange(at + 24, at + 56)
        }),
{
    assert(reader_slot_at(region, h.reader_registry_offset + i * READER_SLOT_SIZE, slots[i]));
}

/// The words for a ring's mode and flow control follow its flags.
pub proof fn lemma_mode_words(h: RingHeader)
    ensures
        h.flags & FLAG_MODE_MPMC != 0 <==> mode_word(h) == "MPMC"@,
        h.flags & FLAG_POLICY_LOSSLESS_BACKPRESSURE != 0 <==> flow_word(h)
            == "LosslessBackpressure"@,
        h.flags & FLAG_POLICY_LOSSLESS_BACKPRESSURE == 0 <==> flow_word(h) == "LossyLatestWins"@,
        h.flags & FLAG_MODE_MPMC == 0 && h.flags & FLAG_MODE_SPMC != 0 <==> mode_word(h)
            == "SPMC"@,
{
    reveal_strlit("MPMC");
    reveal_strlit("SPMC");
    reveal_strlit("UNKNOWN");
    reveal_strlit("LosslessBackpressure");
    reveal_strlit("LossyLatestWins");
    assert("MPMC"@[0] == 'M' && "SPMC"@[0] == 'S' && "UNKNOWN"@[0] == 'U');
    assert("LosslessBackpressure"@.len() != "LossyLatestWins"@.len());
}

/// The arena's numbers come from its header, if the ring has an arena whose header lies inside
/// the file.
pub proof fn lemma_arena_numbers(region: Seq<u8>, h: RingHeader)
    ensures
        h.flags & FLAG_WITH_ARENA != 0 && h.arena_offset > 0 && h.arena_offset + 24 <= region.len()
            ==> arena_use_of(region, h) == (
            le64(region, h.arena_offset as int),
            le64(region, h.arena_offset + 16),
        ),
        h.flags & FLAG_WITH_ARENA == 0 || h.arena_offset == 0 || h.arena_offset + 24 > region.len()
            ==> arena_use_of(region, h) == (0u64, 0u64),
{
}

/// How many of the first `n` slots have a process.
pub open spec fn owned(slots: Seq<ReaderSlot>, n: int) -> nat
    decreases n,
{
    if n <= 0 {
        0
    } else {
        owned(slots, n - 1) + if slots[n - 1].pid != 0 {
            1nat
        } else {
            0nat
        }
    }
}

/// Pruning frees the slots of processes that do not run, and only those, and counts them: a
/// slot of a running process stays as it is, and of a freed slot only the process changes.
pub proof fn lemma_prune_counts_freed(slots: Seq<ReaderSlot>, live: Seq<u32>, n: int)
    requires
        0 <= n <= slots.len(),
    ensures
        struck(slots, live).len() == slots.len(),
        forall|i: int| 0 <= i < slots.len() ==> {
            let s = #[trigger] struck(slots, live)[i];
            &&& slots[i].pid == 0 || live.contains(slots[i].pid) ==> s == slots[i]
            &&& slots[i].pid != 0 && !live.contains(slots[i].pid) ==> s.pid == 0
            &&& s.cursor_seq == slots[i].cursor_seq
            &&& s.active == slots[i].active
            &&& s.name == slots[i].name
        },
        owned(struck(slots, live), n) + prune_text(slots, live, n).1 == owned(slots, n),
        prune_text(struck(slots, live), live, n).1 == 0,
    decreases n,
{
    if n > 0 {
        lemma_prune_counts_freed(slots, live, n - 1);
        let _ = struck(slots, live)[n - 1];
    }
}

/// A dump shows the bytes of a payload in order, two hexadecimal digits for each and a blank
/// between them.
pub proof fn lemma_hex_dump_bytes(b: Seq<u8>, n: int, i: int)
    requires
        0 <= i < n <= b.len(),
    ensures
        hex_bytes(b, n).len() == 3 * n - 1,
        hex_bytes(b, n)[3 * i] == digit(b[i] as nat / 16, true),
        hex_bytes(b, n)[3 * i + 1] == digit(b[i] as nat % 16, true),
        i + 1 < n ==> hex_bytes(b, n)[3 * i + 2] == ' ',
    decreases n,
{
    reveal_strlit(" ");
    reveal_with_fuel(hex, 3);
    let x = b[n - 1] as nat;
    let h = hex(x, 2, true);
    assert(h =~= seq![digit(x / 16 % 16, true), digit(x % 16, true)]);
    assert(x / 16 % 16 == x / 16);
    if n > 1 {
        lemma_hex_dump_bytes(b, n - 1, if i < n - 1 {
            i
        } else {
            0
        });
    }
}

/// What is shown of a byte as text is printable, and is the byte itself if that is printable.
pub proof fn lemma_shown_byte(b: u8)
    ensures
        32 <= printable(b) as u32 <= 126,
        32 <= b <= 126 ==> printable(b) as u32 == b,
        !(32 <= b <= 126) ==> printable(b) == '.',
{
}

} // verus!
