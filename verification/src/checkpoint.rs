//! Shared memory offset persistence for ring consumers.
//!
//! Stores the last processed sequence number directly in shared memory, in a 64-byte slot of
//! its own, where it outlives the consumer process.
use crate::bytes::{bytes32, bytes64, le32, le64, push_u32, push_u64, read_u32, read_u64};
use crate::error::RingfireError;
use crate::registry::{make_name, name_field};
use crate::text::{decimal, hex, push_decimal, push_hex};
use vstd::bytes::{lemma_auto_spec_u32_to_from_le_bytes, lemma_auto_spec_u64_to_from_le_bytes};
use vstd::prelude::*;
use vstd::string::StringExecFns;
use vstd::utf8::encode_utf8;

verus! {

/// Magic bytes for shared memory offset files: ASCII "SHM_OFFS".
pub const SHM_OFFSET_MAGIC: u64 = 0x53484D5F4F464653;

/// Current layout version of the shared memory offset slot.
pub const SHM_OFFSET_VERSION: u32 = 1;

/// Bytes of an offset slot.
pub const SHM_OFFSET_SIZE: usize = 64;

/// 64-byte shared memory slot storing consumer offset state.
#[derive(Debug, Clone, Copy)]
pub struct ShmOffsetSlot {
    /// Validation magic number.
    pub magic: u64,
    /// Format version.
    pub version: u32,
    /// PID of last process that attached to or updated this offset.
    pub pid: u32,
    /// Last processed sequence number.
    pub offset_seq: u64,
    /// Timestamp of last offset update (nanoseconds since UNIX epoch).
    pub updated_ns: u64,
    /// Human-readable consumer identifier (null-terminated UTF-8).
    pub name: [u8; 32],
}

/// The bytes of `s` spell out the slot `slot`.
pub open spec fn offset_slot_at(s: Seq<u8>, slot: ShmOffsetSlot) -> bool {
    &&& slot.magic == le64(s, 0)
    &&& slot.version == le32(s, 8)
    &&& slot.pid == le32(s, 12)
    &&& slot.offset_seq == le64(s, 16)
    &&& slot.updated_ns == le64(s, 24)
    &&& slot.name@ == s.subrange(32, 64)
}

impl ShmOffsetSlot {
    /// Reads a slot from the bytes of an offset file.
    pub fn decode(bytes: &[u8]) -> (slot: Self)
        requires
            bytes@.len() >= SHM_OFFSET_SIZE,
        ensures
            offset_slot_at(bytes@, slot),
    {
        let mut name: [u8; 32] = [0u8;32];
        let mut i: usize = 0;
        while i < 32
            invariant
                i <= 32,
                bytes@.len() >= SHM_OFFSET_SIZE,
                forall|j: int| 0 <= j < i ==> name@[j] == bytes@[32 + j],
            decreases 32 - i,
        {
            name[i] = bytes[32 + i];
            i = i + 1;
        }
        assert(name@ =~= bytes@.subrange(32, 64));
        ShmOffsetSlot {
            magic: read_u64(bytes, 0),
            version: read_u32(bytes, 8),
            pid: read_u32(bytes, 12),
            offset_seq: read_u64(bytes, 16),
            updated_ns: read_u64(bytes, 24),
            name,
        }
    }

    /// The 64 bytes of this slot.
    pub fn encode(&self) -> (out: Vec<u8>)
        ensures
            out@.len() == SHM_OFFSET_SIZE,
            out@ == bytes64(self.magic) + bytes32(self.version) + bytes32(self.pid) + bytes64(
                self.offset_seq,
            ) + bytes64(self.updated_ns) + self.name@,
            offset_slot_at(out@, *self),
    {
        let mut out: Vec<u8> = Vec::new();
        push_u64(&mut out, self.magic);
        push_u32(&mut out, self.version);
        push_u32(&mut out, self.pid);
        push_u64(&mut out, self.offset_seq);
        push_u64(&mut out, self.updated_ns);
        out.extend_from_slice(self.name.as_slice());
        proof {
            lemma_auto_spec_u32_to_from_le_bytes();
            lemma_auto_spec_u64_to_from_le_bytes();
            let s = out@;
            assert(s.subrange(0, 8) =~= bytes64(self.magic));
            assert(s.subrange(8, 12) =~= bytes32(self.version));
            assert(s.subrange(12, 16) =~= bytes32(self.pid));
            assert(s.subrange(16, 24) =~= bytes64(self.offset_seq));
            assert(s.subrange(24, 32) =~= bytes64(self.updated_ns));
            assert(s.subrange(32, 64) =~= self.name@);
        }
        out
    }
}

/// Whether Unicode counts a character as whitespace, as `char::is_whitespace` says.
pub uninterp spec fn whitespace(c: char) -> bool;

/// `s` without leading whitespace.
pub open spec fn trimmed_start(s: Seq<char>) -> Seq<char>
    decreases s.len(),
{
    if s.len() > 0 && whitespace(s[0]) {
        trimmed_start(s.drop_first())
    } else {
        s
    }
}

/// `s` without trailing whitespace.
pub open spec fn trimmed_end(s: Seq<char>) -> Seq<char>
    decreases s.len(),
{
    if s.len() > 0 && whitespace(s.last()) {
        trimmed_end(s.drop_last())
    } else {
        s
    }
}

/// `s` without leading and trailing whitespace.
pub open spec fn trimmed(s: Seq<char>) -> Seq<char> {
    trimmed_end(trimmed_start(s))
}

/// `str::trim`: the string without leading and trailing whitespace, so that what is left
/// neither starts nor ends with any.
pub assume_specification[ str::trim ](s: &str) -> (r: &str)
    ensures
        r@ == trimmed(s@),
        r@.len() > 0 ==> !whitespace(r@[0]) && !whitespace(r@.last()),
;

/// Whether `char::is_alphanumeric` holds of a character.
pub uninterp spec fn alphanumeric(c: char) -> bool;

/// `char::is_alphanumeric`: whether Unicode classes the character as alphabetic or numeric,
/// a function of the character alone.
pub assume_specification[ char::is_alphanumeric ](c: char) -> (r: bool)
    ensures
        r == alphanumeric(c),
;

/// How a path is shown between quotes by its `Debug` format.
pub uninterp spec fn quoted(path: Seq<char>) -> Seq<char>;

/// The `Debug` format of `Path`, a function of the path alone.
#[verifier::external_body]
fn quote(path: &str) -> (r: String)
    ensures
        r@ == quoted(path@),
{
    format!("{:?}", std::path::Path::new(path))
}

/// The path without its final component, as `Path::parent` gives it.
pub uninterp spec fn parent_path(path: Seq<char>) -> Option<Seq<char>>;

/// `Path::parent`: the path without its final component, `None` for a root or an empty
/// path. On the Unix systems that shared memory files live on, a function of the path alone.
#[verifier::external_body]
fn parent_of(path: &str) -> (r: Option<String>)
    ensures
        match r {
            Some(p) => parent_path(path@) == Some(p@),
            None => parent_path(path@) is None,
        },
{
    std::path::Path::new(path).parent().map(|p| p.to_string_lossy().into_owned())
}

/// The final component without its extension, as `Path::file_stem` gives it.
pub uninterp spec fn stem_text(path: Seq<char>) -> Option<Seq<char>>;

/// `Path::file_stem`: the final component without its extension, `None` if there is no
/// final component. On Unix a function of the path alone.
#[verifier::external_body]
fn stem_of(path: &str) -> (r: Option<String>)
    ensures
        match r {
            Some(p) => stem_text(path@) == Some(p@),
            None => stem_text(path@) is None,
        },
{
    std::path::Path::new(path).file_stem().map(|s| s.to_string_lossy().into_owned())
}

/// `file` inside the directory `dir`, as `Path::join` gives it.
pub uninterp spec fn joined(dir: Seq<char>, file: Seq<char>) -> Seq<char>;

/// `Path::join`: the path of `file` inside `dir`. On Unix a function of the two alone.
#[verifier::external_body]
fn join_path(dir: &str, file: &str) -> (r: String)
    ensures
        r@ == joined(dir@, file@),
{
    std::path::Path::new(dir).join(file).to_string_lossy().into_owned()
}

/// Whether `c` may stand in the name of an offset file, where `alnum` says whether it is a
/// letter or a digit.
pub open spec fn file_char(c: char, alnum: bool) -> char {
    if alnum || c == '_' || c == '-' {
        c
    } else {
        '_'
    }
}

/// The character that stands for `c` in the name of an offset file.
pub fn sanitize(c: char, alnum: bool) -> (r: char)
    ensures
        r == file_char(c, alnum),
{
    if alnum || c == '_' || c == '-' {
        c
    } else {
        '_'
    }
}

/// `name` with each character that may not stand in a file name replaced by `_`.
pub open spec fn safe_name(name: Seq<char>) -> Seq<char> {
    name.map_values(|c: char| file_char(c, alphanumeric(c)))
}

/// The offset file's name for a ring called `stem` and a consumer whose name is `safe`.
pub open spec fn offset_file_text(stem: Seq<char>, safe: Seq<char>) -> Seq<char> {
    stem + "_"@ + safe + ".offset"@
}

/// The name of the offset file for a ring called `stem` and a consumer whose name, fit for
/// a file name, is `safe`.
pub fn offset_file_name(stem: &str, safe: &str) -> (r: String)
    ensures
        r@ == offset_file_text(stem@, safe@),
{
    let mut out = String::from_str(stem);
    out.append("_");
    out.append(safe);
    out.append(".offset");
    out
}

/// The offset path of consumer `name` of the ring at `ring_path`.
pub open spec fn offset_path_text(ring_path: Seq<char>, name: Seq<char>) -> Seq<char> {
    joined(
        match parent_path(ring_path) {
            Some(p) => p,
            None => "/dev/shm"@,
        },
        offset_file_text(
            match stem_text(ring_path) {
                Some(s) => s,
                None => "ring"@,
            },
            safe_name(name),
        ),
    )
}

/// Derives the shared memory offset path for a given ring buffer and consumer name.
///
/// Example: ring `/dev/shm/market_data.shm`, consumer `algo1` ->
/// `/dev/shm/market_data_algo1.offset`.
pub fn consumer_offset_path(ring_path: &str, consumer_name: &str) -> (r: String)
    ensures
        r@ == offset_path_text(ring_path@, consumer_name@),
{
    let mut safe = String::new();
    let n: usize = consumer_name.unicode_len();
    let mut i: usize = 0;
    while i < n
        invariant
            n == consumer_name@.len(),
            i <= n,
            safe@ == safe_name(consumer_name@.take(i as int)),
        decreases n - i,
    {
        let c = consumer_name.get_char(i);
        safe.push(sanitize(c, c.is_alphanumeric()));
        i = i + 1;
        assert(safe@ =~= safe_name(consumer_name@.take(i as int)));
    }
    assert(consumer_name@.take(n as int) =~= consumer_name@);
    let stem = match stem_of(ring_path) {
        Some(s) => s,
        None => String::from_str("ring"),
    };
    let file = offset_file_name(stem.as_str(), safe.as_str());
    match parent_of(ring_path) {
        Some(dir) => join_path(dir.as_str(), file.as_str()),
        None => join_path("/dev/shm", file.as_str()),
    }
}

/// Shared memory consumer offset checkpoint.
#[derive(Debug)]
pub struct OffsetCheckpoint {
    pub path: String,
    pub name: String,
    pub slot: ShmOffsetSlot,
}

/// Why an offset file is refused.
#[derive(Debug, Clone, Copy, PartialEq, Eq, Structural)]
pub enum OffsetFault {
    /// The file starts with another magic.
    Magic(u64),
    /// The file has another version.
    Version(u32),
}

/// What refuses an offset file, whose path is shown as `shown`.
pub open spec fn fault_text(fault: OffsetFault, shown: Seq<char>) -> Seq<char> {
    match fault {
        OffsetFault::Magic(actual) => "Invalid magic in shared memory offset "@ + shown
            + ": expected 0x"@ + hex(SHM_OFFSET_MAGIC as nat, 16, true) + ", got 0x"@ + hex(
            actual as nat,
            16,
            true,
        ),
        OffsetFault::Version(actual) => "Version mismatch in shared memory offset "@ + shown
            + ": expected "@ + decimal(SHM_OFFSET_VERSION as nat) + ", got "@ + decimal(
            actual as nat,
        ),
    }
}

impl OffsetFault {
    /// The message for an offset file whose path is shown as `shown`.
    pub fn message(&self, shown: &str) -> (text: String)
        ensures
            text@ == fault_text(*self, shown@),
    {
        match self {
            OffsetFault::Magic(actual) => {
                let mut text = String::from_str("Invalid magic in shared memory offset ");
                text.append(shown);
                text.append(": expected 0x");
                push_hex(&mut text, SHM_OFFSET_MAGIC, 16, true);
                text.append(", got 0x");
                push_hex(&mut text, *actual, 16, true);
                text
            },
            OffsetFault::Version(actual) => {
                let mut text = String::from_str("Version mismatch in shared memory offset ");
                text.append(shown);
                text.append(": expected ");
                push_decimal(&mut text, SHM_OFFSET_VERSION as u64);
                text.append(", got ");
                push_decimal(&mut text, *actual as u64);
                text
            },
        }
    }
}

/// `contents` are those of a valid offset file, or too short to be one.
pub open spec fn offset_file_ok(contents: Seq<u8>) -> bool {
    contents.len() < SHM_OFFSET_SIZE || (le64(contents, 0) == SHM_OFFSET_MAGIC && le32(
        contents,
        8,
    ) == SHM_OFFSET_VERSION)
}

/// What is wrong with an offset file with these contents: first the magic is looked at.
pub open spec fn offset_fault(contents: Seq<u8>) -> OffsetFault {
    if le64(contents, 0) != SHM_OFFSET_MAGIC {
        OffsetFault::Magic(le64(contents, 0))
    } else {
        OffsetFault::Version(le32(contents, 8))
    }
}

/// What refuses the offset file at `path` with these contents.
pub open spec fn offset_refusal(contents: Seq<u8>, path: Seq<char>, e: RingfireError) -> bool {
    e matches RingfireError::Io(text) && text@ == fault_text(offset_fault(contents), quoted(path))
}

/// `slot` is that of an offset file with these contents, once process `pid` has opened it for
/// the consumer `name` at time `now_ns`.
pub open spec fn offset_slot_opened(
    contents: Seq<u8>,
    name: Seq<char>,
    pid: u32,
    now_ns: u64,
    slot: ShmOffsetSlot,
) -> bool {
    &&& slot.pid == pid
    &&& slot.magic == SHM_OFFSET_MAGIC
    &&& slot.version == SHM_OFFSET_VERSION
    &&& if contents.len() < SHM_OFFSET_SIZE {
        &&& slot.offset_seq == 0
        &&& slot.updated_ns == now_ns
        &&& slot.name@ == name_field(encode_utf8(name))
    } else {
        &&& slot.offset_seq == le64(contents, 16)
        &&& slot.updated_ns == le64(contents, 24)
        &&& slot.name@ == contents.subrange(32, 64)
    }
}

impl OffsetCheckpoint {
    /// Opens the offset file at `path`, whose bytes are `contents` (none if the file is
    /// new), for the process `pid` and a consumer of exactly this name.
    pub fn open_named(contents: &[u8], path: &str, name: &str, pid: u32, now_ns: u64) -> (r:
        Result<Self, OffsetFault>)
        ensures
            r is Ok <==> offset_file_ok(contents@),
            match r {
                Ok(cp) => {
                    &&& cp.path@ == path@
                    &&& cp.name@ == name@
                    &&& offset_slot_opened(contents@, name@, pid, now_ns, cp.slot)
                },
                Err(fault) => fault == offset_fault(contents@),
            },
    {
        if contents.len() < SHM_OFFSET_SIZE {
            let slot = ShmOffsetSlot {
                magic: SHM_OFFSET_MAGIC,
                version: SHM_OFFSET_VERSION,
                pid,
                offset_seq: 0,
                updated_ns: now_ns,
                name: make_name(name),
            };
            return Ok(
                OffsetCheckpoint { path: String::from_str(path), name: String::from_str(name), slot },
            );
        }
        let mut slot = ShmOffsetSlot::decode(contents);
        if slot.magic != SHM_OFFSET_MAGIC {
            return Err(OffsetFault::Magic(slot.magic));
        }
        if slot.version != SHM_OFFSET_VERSION {
            return Err(OffsetFault::Version(slot.version));
        }
        slot.pid = pid;
        Ok(OffsetCheckpoint { path: String::from_str(path), name: String::from_str(name), slot })
    }

    /// Opens the offset file at `path`, whose bytes are `contents` (none if the file is
    /// new), for the process `pid`.
    ///
    /// If the file is new, it is initialized with `offset_seq = 0`. If the file exists, its
    /// magic and version are validated, and its PID updated. The caller stores
    /// [`ShmOffsetSlot::encode`] back.
    pub fn open_or_create(
        contents: &[u8],
        path: &str,
        consumer_name: &str,
        pid: u32,
        now_ns: u64,
    ) -> (r: Result<Self, RingfireError>)
        ensures
            r is Ok <==> offset_file_ok(contents@),
            match r {
                Ok(cp) => {
                    &&& cp.path@ == path@
                    &&& cp.name@ == trimmed(consumer_name@)
                    &&& offset_slot_opened(
                        contents@,
                        trimmed(consumer_name@),
                        pid,
                        now_ns,
                        cp.slot,
                    )
                },
                Err(e) => offset_refusal(contents@, path@, e),
            },
    {
        let name = consumer_name.trim();
        match Self::open_named(contents, path, name, pid, now_ns) {
            Ok(cp) => Ok(cp),
            Err(fault) => {
                let shown = quote(path);
                Err(RingfireError::Io(fault.message(shown.as_str())))
            },
        }
    }

    /// Opens the offset file that belongs to a ring and a consumer name; `contents` are the
    /// bytes of the file at [`consumer_offset_path`].
    pub fn for_consumer(
        contents: &[u8],
        ring_path: &str,
        consumer_name: &str,
        pid: u32,
        now_ns: u64,
    ) -> (r: Result<Self, RingfireError>)
        ensures
            r is Ok <==> offset_file_ok(contents@),
            match r {
                Ok(cp) => {
                    &&& cp.path@ == offset_path_text(ring_path@, consumer_name@)
                    &&& cp.name@ == trimmed(consumer_name@)
                    &&& offset_slot_opened(
                        contents@,
                        trimmed(consumer_name@),
                        pid,
                        now_ns,
                        cp.slot,
                    )
                },
                Err(e) => offset_refusal(
                    contents@,
                    offset_path_text(ring_path@, consumer_name@),
                    e,
                ),
            },
    {
        let path = consumer_offset_path(ring_path, consumer_name);
        Self::open_or_create(contents, path.as_str(), consumer_name, pid, now_ns)
    }

    /// The saved offset, `None` if nothing was ever committed.
    pub open spec fn saved(&self) -> Option<u64> {
        if self.slot.offset_seq == 0 {
            None
        } else {
            Some(self.slot.offset_seq)
        }
    }

    /// Reads the saved offset sequence. Returns `None` if the offset is 0 (never committed).
    pub fn load(&self) -> (r: Option<u64>)
        ensures
            r == self.saved(),
    {
        if self.slot.offset_seq == 0 {
            None
        } else {
            Some(self.slot.offset_seq)
        }
    }

    /// Saves the offset sequence at time `now_ns`.
    pub fn save(&mut self, seq: u64, now_ns: u64)
        ensures
            final(self).slot == (ShmOffsetSlot {
                offset_seq: seq,
                updated_ns: now_ns,
                ..old(self).slot
            }),
            final(self).path == old(self).path,
            final(self).name == old(self).name,
            seq != 0 ==> final(self).saved() == Some(seq),
    {
        self.slot.offset_seq = seq;
        self.slot.updated_ns = now_ns;
    }

    /// Path to the shared memory offset file.
    pub fn path(&self) -> (r: &str)
        ensures
            r@ == self.path@,
    {
        self.path.as_str()
    }

    /// Consumer name associated with this offset checkpoint.
    pub fn name(&self) -> (r: &str)
        ensures
            r@ == self.name@,
    {
        self.name.as_str()
    }

    /// Last update timestamp in nanoseconds since UNIX epoch.
    pub fn updated_nanos(&self) -> (r: u64)
        ensures
            r == self.slot.updated_ns,
    {
        self.slot.updated_ns
    }

    /// PID of last consumer process attached to this offset.
    pub fn pid(&self) -> (r: u32)
        ensures
            r == self.slot.pid,
    {
        self.slot.pid
    }
}

/// An offset outlives its consumer: whoever opens a file that holds a saved slot finds the
/// sequence number that was saved last.
pub proof fn lemma_saved_offset_survives(slot: ShmOffsetSlot, contents: Seq<u8>)
    requires
        slot.magic == SHM_OFFSET_MAGIC,
        slot.version == SHM_OFFSET_VERSION,
        contents.len() >= SHM_OFFSET_SIZE,
        offset_slot_at(contents, slot),
    ensures
        offset_file_ok(contents),
        le64(contents, 16) == slot.offset_seq,
{
}

/// Where the numbers of a saved slot stand in its 64 bytes.
pub proof fn lemma_offset_file_bytes(s: Seq<u8>, slot: ShmOffsetSlot)
    requires
        offset_slot_at(s, slot),
        s.len() >= 64,
    ensures
        slot.magic == le64(s, 0),
        slot.version == le32(s, 8),
        slot.pid == le32(s, 12),
        slot.offset_seq == le64(s, 16),
        slot.updated_ns == le64(s, 24),
        slot.name@.len() == 32,
        forall|i: int| 0 <= i < 32 ==> #[trigger] slot.name@[i] == s[32 + i],
{
}

/// Opening an offset file keeps what was saved: a file of 64 bytes is accepted exactly if its
/// magic and its version are right, and then everything in its slot stays but the process id; a
/// shorter file is always accepted, and nothing counts as saved in it.
pub proof fn lemma_opening_keeps_offset(
    contents: Seq<u8>,
    name: Seq<char>,
    pid: u32,
    now_ns: u64,
    cp: OffsetCheckpoint,
)
    requires
        offset_slot_opened(contents, name, pid, now_ns, cp.slot),
    ensures
        offset_file_ok(contents) <==> (contents.len() < 64 || (le64(contents, 0) == SHM_OFFSET_MAGIC
            && le32(contents, 8) == 1)),
        cp.slot.pid == pid,
        contents.len() < 64 ==> cp.saved() is None && cp.slot.updated_ns == now_ns,
        contents.len() >= 64 ==> {
            &&& le64(contents, 16) == 0 ==> cp.saved() is None
            &&& le64(contents, 16) != 0 ==> cp.saved() == Some(le64(contents, 16))
            &&& cp.slot.updated_ns == le64(contents, 24)
            &&& cp.slot.name@ == contents.subrange(32, 64)
        },
{
}

/// The name of an offset file is safe: it has one character for each of the consumer's name,
/// letters, digits, `_` and `-` stay, and everything else, a path separator too, becomes `_`.
pub proof fn lemma_offset_name_is_safe(name: Seq<char>, i: int)
    requires
        0 <= i < name.len(),
    ensures
        safe_name(name).len() == name.len(),
        alphanumeric(name[i]) || name[i] == '_' || name[i] == '-' ==> safe_name(name)[i] == name[i],
        !(alphanumeric(name[i]) || name[i] == '_' || name[i] == '-') ==> safe_name(name)[i] == '_',
        !alphanumeric('/') ==> safe_name(name)[i] != '/',
{
}

/// The name of an offset file holds the ring's name and the consumer's, in this order, and ends
/// in `.offset`; two consumers of one ring share a file only if their safe names are the same.
pub proof fn lemma_offset_file_names(stem: Seq<char>, a: Seq<char>, b: Seq<char>)
    ensures
        ({
            let f = offset_file_text(stem, a);
            let n = (stem.len() + 1) as int;
            &&& f.take(stem.len() as int) == stem
            &&& f[stem.len() as int] == '_'
            &&& f.subrange(n, n + a.len()) == a
            &&& f.skip(n + a.len()) == seq!['.', 'o', 'f', 'f', 's', 'e', 't']
        }),
        offset_file_text(stem, a) == offset_file_text(stem, b) <==> a == b,
{
    reveal_strlit("_");
    reveal_strlit(".offset");
    let f = offset_file_text(stem, a);
    let g = offset_file_text(stem, b);
    let n = (stem.len() + 1) as int;
    assert(f.take(stem.len() as int) =~= stem);
    assert(f.subrange(n, n + a.len()) =~= a);
    assert(g.subrange(n, n + b.len()) =~= b);
    assert(f.skip(n + a.len()) =~= seq!['.', 'o', 'f', 'f', 's', 'e', 't']);
    assert(f.len() == n + a.len() + 7 && g.len() == n + b.len() + 7);
}

/// Trimming takes whitespace from the ends only: what is left is one piece of the text that
/// neither starts nor ends with whitespace, and everything around it is whitespace.
pub proof fn lemma_trimmed_piece(s: Seq<char>) -> (r: (int, int))
    ensures
        0 <= r.0 <= r.1 <= s.len(),
        trimmed(s) == s.subrange(r.0, r.1),
        forall|i: int| 0 <= i < r.0 || r.1 <= i < s.len() ==> whitespace(#[trigger] s[i]),
        r.0 < r.1 ==> !whitespace(s[r.0]) && !whitespace(s[r.1 - 1]),
{
    let a = lemma_trimmed_start(s);
    let t = s.skip(a);
    let b = lemma_trimmed_end(t);
    assert(t.take(b) =~= s.subrange(a, a + b));
    assert forall|i: int| 0 <= i < a || a + b <= i < s.len() implies whitespace(#[trigger] s[i]) by {
        if i >= a {
            assert(s[i] == t[i - a]);
        }
    }
    (a, a + b)
}

proof fn lemma_trimmed_start(s: Seq<char>) -> (n: int)
    ensures
        0 <= n <= s.len(),
        trimmed_start(s) == s.skip(n),
        forall|i: int| 0 <= i < n ==> whitespace(#[trigger] s[i]),
        n < s.len() ==> !whitespace(s[n]),
    decreases s.len(),
{
    if s.len() > 0 && whitespace(s[0]) {
        let t = s.drop_first();
        let n = lemma_trimmed_start(t);
        assert(t.skip(n) =~= s.skip(n + 1));
        assert forall|i: int| 0 <= i < n + 1 implies whitespace(#[trigger] s[i]) by {
            if i > 0 {
                assert(s[i] == t[i - 1]);
            }
        }
        n + 1
    } else {
        assert(s.skip(0) =~= s);
        0
    }
}

proof fn lemma_trimmed_end(s: Seq<char>) -> (n: int)
    ensures
        0 <= n <= s.len(),
        trimmed_end(s) == s.take(n),
        forall|i: int| n <= i < s.len() ==> whitespace(#[trigger] s[i]),
        n > 0 ==> !whitespace(s[n - 1]),
    decreases s.len(),
{
    if s.len() > 0 && whitespace(s.last()) {
        let t = s.drop_last();
        let n = lemma_trimmed_end(t);
        assert(t.take(n) =~= s.take(n));
        assert forall|i: int| n <= i < s.len() implies whitespace(#[trigger] s[i]) by {
            if i < t.len() {
                assert(s[i] == t[i]);
            }
        }
        n
    } else {
        assert(s.take(s.len() as int) =~= s);
        s.len() as int
    }
}

/// An open offset file is a valid one: it has the magic and the version, and a new one carries
/// its consumer's name. A file that is refused is refused for its magic, with what stood there,
/// and only else for its version.
pub proof fn lemma_opened_file_is_valid(
    contents: Seq<u8>,
    name: Seq<char>,
    pid: u32,
    now_ns: u64,
    slot: ShmOffsetSlot,
)
    ensures
        offset_slot_opened(contents, name, pid, now_ns, slot) ==> {
            &&& slot.magic == SHM_OFFSET_MAGIC
            &&& slot.version == 1
            &&& contents.len() < 64 ==> slot.name@ == name_field(encode_utf8(name))
        },
        le64(contents, 0) != SHM_OFFSET_MAGIC ==> offset_fault(contents) == OffsetFault::Magic(
            le64(contents, 0),
        ),
        le64(contents, 0) == SHM_OFFSET_MAGIC ==> offset_fault(contents) == OffsetFault::Version(
            le32(contents, 8),
        ),
{
}

} // verus!
