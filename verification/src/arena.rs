//! # PayloadArena & BlobRef
//!
//! Contiguous byte arena in shared memory for variable-sized and large messages.
//!
//! - Contiguous cyclic byte arena mapped alongside the ring buffer.
//! - Fixed-size ring buffer slots carry only lightweight metadata (`BlobRef`, 16 bytes).
//! - No fragmentation: an allocation that would wrap around the end of the arena starts at
//!   index 0 instead, so every `BlobRef` maps to a contiguous slice.
use crate::error::RingfireError;
use crate::math::{
    counter_at, is_pow2, lemma_counter_mod, lemma_distinct_slots, lemma_mask_is_mod,
    lemma_pow2_exponent, lemma_pow2_of_64, lemma_round_up, round_up, round_up_to,
};
use vstd::arithmetic::div_mod::{lemma_fundamental_div_mod, lemma_fundamental_div_mod_converse};
use vstd::arithmetic::power2::{lemma2_to64_rest, lemma_pow2_strictly_increases};
use vstd::prelude::*;
use vstd::slice::slice_subrange;

verus! {

/// 16-byte descriptor referencing a payload stored in `PayloadArena`.
#[derive(Debug, Clone, Copy, PartialEq, Eq, Structural)]
pub struct BlobRef {
    /// Global cumulative offset in the arena
    pub offset: u64,
    /// Exact payload length in bytes
    pub len: u32,
    /// Application-defined flags (e.g. codec, schema, compression tag)
    pub flags: u32,
}

/// The descriptor of an empty payload.
pub open spec fn empty_blob() -> BlobRef {
    BlobRef { offset: 0, len: 0, flags: 0 }
}

impl BlobRef {
    /// The descriptor of an empty payload.
    pub fn empty() -> (r: Self)
        ensures
            r == empty_blob(),
    {
        BlobRef { offset: 0, len: 0, flags: 0 }
    }

    pub fn is_empty(&self) -> (r: bool)
        ensures
            r == (self.len == 0),
    {
        self.len == 0
    }
}

impl Default for BlobRef {
    fn default() -> (r: Self)
        ensures
            r == empty_blob(),
    {
        BlobRef::empty()
    }
}

/// Header for `PayloadArena` located at the start of the arena section.
#[derive(Debug, Clone, Copy)]
pub struct ArenaHeader {
    /// Total arena capacity in bytes (a power of two)
    pub capacity: u64,
    /// Bitmask for circular indexing (`capacity - 1`)
    pub mask: u64,
    /// Cumulative reserved byte counter. It starts over after 2^64 bytes.
    pub reserved: u64,
}

impl ArenaHeader {
    /// The capacity is a power of two of at least 64 and the mask belongs to it.
    pub open spec fn wf(self) -> bool {
        &&& is_pow2(self.capacity as nat)
        &&& self.capacity >= 64
        &&& self.mask == self.capacity - 1
    }

    /// Index of the byte that the cumulative offset `offset` names.
    pub open spec fn index(self, offset: u64) -> int {
        offset as int % self.capacity as int
    }

    /// The payload that `r` refers to lies in one piece inside the arena.
    pub open spec fn holds(self, r: BlobRef) -> bool {
        self.index(r.offset) + r.len <= self.capacity
    }

    /// The producer has wrapped around past the payload that `r` refers to. An empty payload
    /// has no byte to overwrite.
    pub open spec fn lapped(self, r: BlobRef) -> bool {
        r.len != 0 && self.reserved - r.offset > self.capacity
    }

    /// Checks the header of an existing arena. Returns its capacity.
    pub fn open(&self) -> (r: Result<u64, RingfireError>)
        ensures
            r is Ok <==> is_pow2(self.capacity as nat) && self.capacity >= 64,
            match r {
                Ok(n) => n == self.capacity,
                Err(e) => e == RingfireError::InvalidCapacity(self.capacity),
            },
    {
        if !self.capacity.is_power_of_two() || self.capacity < 64 {
            return Err(RingfireError::InvalidCapacity(self.capacity));
        }
        Ok(self.capacity)
    }

    /// Check if a `BlobRef` has been overwritten by the producer wrapping around.
    pub fn is_lapped(&self, blob_ref: BlobRef) -> (r: bool)
        ensures
            r == self.lapped(blob_ref),
    {
        blob_ref.len != 0 && self.reserved.saturating_sub(blob_ref.offset) > self.capacity
    }

    /// Check that the payload a descriptor refers to lies inside the arena.
    pub fn is_in_bounds(&self, blob_ref: BlobRef) -> (r: bool)
        requires
            self.wf(),
        ensures
            r == self.holds(blob_ref),
    {
        proof {
            lemma_mask_is_mod(blob_ref.offset, self.capacity);
        }
        let at: u64 = blob_ref.offset & self.mask;
        at as u128 + blob_ref.len as u128 <= self.capacity as u128
    }
}

/// Shared memory byte arena.
#[derive(Debug)]
pub struct PayloadArena {
    pub header: ArenaHeader,
    pub data: Vec<u8>,
}

/// Where a payload of `len` bytes goes when `reserved` bytes are taken: right there if it
/// fits before the end of the arena, else at the start of the next lap.
pub open spec fn placement(reserved: int, len: int, capacity: int) -> int {
    if reserved % capacity + len > capacity {
        reserved - reserved % capacity + capacity
    } else {
        reserved
    }
}

/// The bytes that are taken once a payload of `len` bytes is placed: payloads start at
/// multiples of 64.
pub open spec fn reserved_after(reserved: int, len: int, capacity: int) -> int {
    placement(reserved, len, capacity) + round_up(len, 64)
}

/// What a payload of `len` bytes is given in the arena `h`: its descriptor, and what the
/// cumulative counter reads then.
pub open spec fn claimed(h: ArenaHeader, len: nat, flags: u32, r: BlobRef, next: u64) -> bool {
    let cap = h.capacity as int;
    if len == 0 {
        r == empty_blob() && next == h.reserved
    } else {
        &&& r.offset == counter_at(placement(h.reserved as int, len as int, cap))
        &&& r.len == len as u32
        &&& r.flags == flags
        &&& next == counter_at(reserved_after(h.reserved as int, len as int, cap))
    }
}

/// `data` with `bytes` stored from index `at` on.
pub open spec fn overlay(data: Seq<u8>, at: int, bytes: Seq<u8>) -> Seq<u8> {
    Seq::new(
        data.len(),
        |i: int|
            if at <= i < at + bytes.len() {
                bytes[i - at]
            } else {
                data[i]
            },
    )
}

/// A payload of `len` bytes lies behind the end of the arena's taken bytes and in one piece
/// inside the arena.
pub proof fn lemma_placement(reserved: int, len: int, capacity: int)
    requires
        0 <= reserved,
        0 < len <= capacity,
    ensures
        reserved <= placement(reserved, len, capacity) <= reserved + capacity,
        placement(reserved, len, capacity) % capacity + len <= capacity,
        placement(reserved, len, capacity) + len <= reserved_after(reserved, len, capacity),
        reserved_after(reserved, len, capacity) % 64 == 0 || placement(reserved, len, capacity)
            % 64 != 0,
{
    let p = placement(reserved, len, capacity);
    let room = round_up(len, 64);
    assert(room >= len && room % 64 == 0) by {
        lemma_round_up(len, 64);
    }
    assert(reserved <= p <= reserved + capacity && p % capacity + len <= capacity) by {
        lemma_fundamental_div_mod(reserved, capacity);
        if reserved % capacity + len > capacity {
            let q = reserved / capacity;
            assert(p == (q + 1) * capacity + 0) by (nonlinear_arith)
                requires
                    p == reserved - reserved % capacity + capacity,
                    reserved == capacity * q + reserved % capacity,
            ;
            lemma_fundamental_div_mod_converse(p, capacity, q + 1, 0);
        }
    }
    assert((p + room) % 64 == 0 || p % 64 != 0);
}

/// A payload that was just given its place is not lapped.
pub proof fn lemma_fresh_blob_unlapped(
    before: &PayloadArena,
    after: &PayloadArena,
    len: nat,
    flags: u32,
    r: BlobRef,
)
    requires
        before.wf(),
        len <= before.header.capacity,
        before.reserved_for(after, len, flags, r),
    ensures
        !after.lapped(r),
{
    if len > 0 {
        lemma_placement(
            before.header.reserved as int,
            len as int,
            before.header.capacity as int,
        );
        lemma_round_up(len as int, 64);
        lemma_pow2_of_64(before.header.capacity);
    }
}

impl PayloadArena {
    /// The header and the bytes belong together.
    pub open spec fn wf(&self) -> bool {
        self.header.wf() && self.data@.len() == self.header.capacity
    }

    /// Index of the byte that the cumulative offset `offset` names.
    pub open spec fn index(&self, offset: u64) -> int {
        self.header.index(offset)
    }

    /// The payload that `r` refers to lies in one piece inside the arena.
    pub open spec fn holds(&self, r: BlobRef) -> bool {
        self.header.holds(r)
    }

    /// The bytes that `r` refers to.
    pub open spec fn payload(&self, r: BlobRef) -> Seq<u8> {
        if r.len == 0 {
            Seq::empty()
        } else {
            self.data@.subrange(self.index(r.offset), self.index(r.offset) + r.len)
        }
    }

    /// The producer has wrapped around past the payload that `r` refers to. An empty payload
    /// has no byte to overwrite.
    pub open spec fn lapped(&self, r: BlobRef) -> bool {
        self.header.lapped(r)
    }

    /// The cumulative counter does not start over on a payload of `len` bytes.
    pub open spec fn counts(&self, len: nat) -> bool {
        0 < len <= self.header.capacity ==> reserved_after(
            self.header.reserved as int,
            len as int,
            self.header.capacity as int,
        ) <= u64::MAX
    }

    /// The arena once the bytes of a payload of `len` bytes are reserved.
    pub open spec fn reserved_for(&self, after: &Self, len: nat, flags: u32, r: BlobRef) -> bool {
        &&& claimed(self.header, len, flags, r, after.header.reserved)
        &&& after.header == (ArenaHeader { reserved: after.header.reserved, ..self.header })
    }

    /// The arena once the payload `data` is written and `r` refers to it.
    pub open spec fn written(&self, after: &Self, data: Seq<u8>, flags: u32, r: BlobRef) -> bool {
        &&& data.len() <= self.header.capacity
        &&& self.reserved_for(after, data.len(), flags, r)
        &&& after.wf()
        &&& after.holds(r)
        &&& !after.lapped(r)
        &&& after.data@ == overlay(self.data@, self.index(r.offset), data)
        &&& after.payload(r) == data
    }

    /// A new arena of `capacity` bytes, all zero. `capacity` must be a power of two of at
    /// least 64.
    pub fn init(capacity: usize) -> (r: Result<Self, RingfireError>)
        ensures
            r is Ok <==> is_pow2(capacity as nat) && capacity >= 64,
            match r {
                Ok(a) => a.wf() && a.header.capacity == capacity && a.header.reserved == 0
                    && a.data@ == Seq::new(capacity as nat, |i: int| 0u8),
                Err(e) => e == RingfireError::InvalidCapacity(capacity as u64),
            },
    {
        if !(capacity as u64).is_power_of_two() || capacity < 64 {
            return Err(RingfireError::InvalidCapacity(capacity as u64));
        }
        let mut data: Vec<u8> = Vec::new();
        crate::bytes::push_zeros(&mut data, capacity);
        assert(data@ =~= Seq::new(capacity as nat, |i: int| 0u8));
        Ok(
            PayloadArena {
                header: ArenaHeader {
                    capacity: capacity as u64,
                    mask: (capacity - 1) as u64,
                    reserved: 0,
                },
                data,
            },
        )
    }

    /// Total capacity of the payload arena in bytes.
    pub fn capacity(&self) -> (n: usize)
        requires
            self.wf(),
        ensures
            n == self.header.capacity,
    {
        self.data.len()
    }

    /// Where a payload of `len` bytes goes when the cumulative counter reads `reserved`,
    /// and what the counter reads afterwards.
    pub fn place(capacity: u64, reserved: u64, len: usize) -> (r: (u64, u64))
        requires
            is_pow2(capacity as nat),
            0 < len <= capacity,
        ensures
            r.0 == counter_at(placement(reserved as int, len as int, capacity as int)),
            r.1 == counter_at(reserved_after(reserved as int, len as int, capacity as int)),
    {
        proof {
            lemma_mask_is_mod(reserved, capacity);
            lemma_round_up(len as int, 64);
            lemma_fundamental_div_mod(reserved as int, capacity as int);
            let k = lemma_pow2_exponent(capacity);
            lemma2_to64_rest();
            if k < 63 {
                lemma_pow2_strictly_increases(k, 63);
            }
        }
        let slot_size: u64 = round_up_to(len as u64, 64);
        let from_ix: u64 = reserved & (capacity - 1);
        if len as u64 > capacity - from_ix {
            // Continue at index 0 of the next lap.
            let start: u64 = (reserved - from_ix).wrapping_add(capacity);
            (start, start.wrapping_add(slot_size))
        } else {
            (reserved, reserved.wrapping_add(slot_size))
        }
    }

    /// What a payload of `len` bytes is given in an arena with that header: its descriptor, and
    /// what the cumulative counter reads afterwards. Producers store that number with a
    /// compare-and-swap and ask again where another producer was faster.
    pub fn claim(header: &ArenaHeader, len: usize, flags: u32) -> (r: Result<
        (BlobRef, u64),
        RingfireError,
    >)
        requires
            header.wf(),
        ensures
            r is Ok <==> len <= header.capacity,
            match r {
                Ok((b, next)) => claimed(*header, len as nat, flags, b, next) && (len <= u32::MAX
                    ==> header.holds(b)),
                Err(e) => e == (RingfireError::ArenaPayloadTooLarge {
                    len,
                    max_capacity: header.capacity as usize,
                }),
            },
    {
        if len == 0 {
            assert(0int % (header.capacity as int) == 0) by {
                lemma_fundamental_div_mod_converse(0, header.capacity as int, 0, 0);
            }
            return Ok((BlobRef::empty(), header.reserved));
        }
        if len as u64 > header.capacity {
            return Err(
                RingfireError::ArenaPayloadTooLarge { len, max_capacity: header.capacity as usize },
            );
        }
        let (offset, next) = Self::place(header.capacity, header.reserved, len);
        proof {
            let at = placement(header.reserved as int, len as int, header.capacity as int);
            lemma_placement(header.reserved as int, len as int, header.capacity as int);
            lemma_counter_mod(at, header.capacity);
        }
        Ok((BlobRef { offset, len: len as u32, flags }, next))
    }

    /// Reserve `len` bytes in the arena.
    ///
    /// If the allocation would cross the end of the arena, it skips to index 0, so that
    /// every returned `BlobRef` maps to a contiguous slice.
    pub fn reserve(&mut self, len: usize, flags: u32) -> (r: Result<BlobRef, RingfireError>)
        requires
            old(self).wf(),
        ensures
            final(self).wf(),
            final(self).data@ == old(self).data@,
            r is Ok <==> len <= old(self).header.capacity,
            match r {
                Ok(b) => old(self).reserved_for(final(self), len as nat, flags, b) && (len
                    <= u32::MAX ==> final(self).holds(b)),
                Err(e) => e == (RingfireError::ArenaPayloadTooLarge {
                    len,
                    max_capacity: old(self).header.capacity as usize,
                }) && *final(self) == *old(self),
            },
    {
        match Self::claim(&self.header, len, flags) {
            Ok((blob_ref, next)) => {
                self.header.reserved = next;
                Ok(blob_ref)
            },
            Err(e) => Err(e),
        }
    }

    /// Write payload bytes into the arena, returning a `BlobRef`.
    pub fn write_blob(&mut self, data: &[u8], flags: u32) -> (r: Result<BlobRef, RingfireError>)
        requires
            old(self).wf(),
            data@.len() <= u32::MAX || data@.len() > old(self).header.capacity,
        ensures
            final(self).wf(),
            r is Ok <==> data@.len() <= old(self).header.capacity,
            match r {
                Ok(b) => old(self).written(final(self), data@, flags, b),
                Err(e) => e == (RingfireError::ArenaPayloadTooLarge {
                    len: data@.len() as usize,
                    max_capacity: old(self).header.capacity as usize,
                }) && *final(self) == *old(self),
            },
    {
        let n: usize = data.len();
        let blob_ref = match self.reserve(n, flags) {
            Ok(b) => b,
            Err(e) => return Err(e),
        };
        let at: usize = self.start(blob_ref);
        let room: usize = self.data.len();
        let ghost before = self.data@;
        let mut i: usize = 0;
        while i < n
            invariant
                i <= n,
                n == data@.len(),
                at + n <= before.len(),
                self.data@.len() == before.len(),
                self.data@ == overlay(before, at as int, data@.take(i as int)),
                self.header.capacity == before.len(),
                is_pow2(self.header.capacity as nat),
                self.header.capacity >= 64,
                self.header.mask == self.header.capacity - 1,
                old(self).reserved_for(self, n as nat, flags, blob_ref),
                before.len() == room,
            decreases n - i,
        {
            self.data.set(at + i, data[i]);
            i = i + 1;
            assert(self.data@ =~= overlay(before, at as int, data@.take(i as int)));
        }
        proof {
            assert(data@.take(n as int) =~= data@);
            assert(self.payload(blob_ref) =~= data@);
            lemma_fresh_blob_unlapped(old(self), self, n as nat, flags, blob_ref);
        }
        Ok(blob_ref)
    }

    /// Write directly into a reserved arena slice.
    pub fn write_blob_with<F, R>(&mut self, len: usize, flags: u32, f: F) -> (r: Result<
        (BlobRef, R),
        RingfireError,
    >) where F: FnOnce(&mut [u8]) -> R
        requires
            old(self).wf(),
            len <= u32::MAX || len > old(self).header.capacity,
            forall|m: &mut [u8]| #[trigger] m@.len() == len ==> f.requires((m,)),
            forall|m: &mut [u8], out: R| #[trigger]
                f.ensures((m,), out) ==> final(m)@.len() == m@.len(),
        ensures
            final(self).wf(),
            r is Ok <==> len <= old(self).header.capacity,
            r matches Ok((b, out)) ==> final(self).payload(b).len() == len && old(self).written(
                final(self),
                final(self).payload(b),
                flags,
                b,
            ),
            r matches Ok((b, out)) ==> exists|m: &mut [u8]| #[trigger]
                f.ensures((m,), out) && m@ == old(self).payload(b) && final(m)@
                    == final(self).payload(b),
            r matches Err(e) ==> e == (RingfireError::ArenaPayloadTooLarge {
                len,
                max_capacity: old(self).header.capacity as usize,
            }) && *final(self) == *old(self),
    {
        let blob_ref = match self.reserve(len, flags) {
            Ok(b) => b,
            Err(e) => return Err(e),
        };
        let at: usize = self.start(blob_ref);
        let ghost before = self.data@;
        let all = self.data.as_mut_slice();
        let (head, rest) = all.split_at_mut(at);
        let (dest, tail) = rest.split_at_mut(len);
        assert(dest@.len() == len);
        let ghost d = dest;
        let out = f(dest);
        let r: Result<(BlobRef, R), RingfireError> = Ok((blob_ref, out));
        proof {
            assert(d@ =~= old(self).payload(blob_ref));
            assert(self.data@ =~= overlay(before, at as int, final(d)@));
            assert(self.payload(blob_ref) =~= final(d)@);
            lemma_fresh_blob_unlapped(old(self), self, len as nat, flags, blob_ref);
            assert(r->Ok_0.1 == out);
            assert(exists|m: &mut [u8]| #[trigger]
                f.ensures((m,), r->Ok_0.1) && m@ == old(self).payload(blob_ref) && final(m)@
                    == self.payload(blob_ref));
        }
        r
    }

    /// Copy payload bytes out of the arena into `out`.
    pub fn read_blob(&self, blob_ref: BlobRef, out: &mut [u8]) -> (r: Result<usize, RingfireError>)
        requires
            self.wf(),
            self.holds(blob_ref),
        ensures
            final(out)@.len() == old(out)@.len(),
            r is Ok <==> blob_ref.len <= old(out)@.len(),
            match r {
                Ok(n) => n == blob_ref.len && final(out)@ == overlay(
                    old(out)@,
                    0,
                    self.payload(blob_ref),
                ),
                Err(e) => e == (RingfireError::BufferTooSmall {
                    required: blob_ref.len as usize,
                    provided: old(out)@.len() as usize,
                }) && final(out)@ == old(out)@,
            },
    {
        let len: usize = blob_ref.len as usize;
        if len == 0 {
            assert(out@ =~= overlay(out@, 0, Seq::empty()));
            return Ok(0);
        }
        if out.len() < len {
            return Err(RingfireError::BufferTooSmall { required: len, provided: out.len() });
        }
        let src = self.bytes(blob_ref);
        let mut i: usize = 0;
        while i < len
            invariant
                i <= len,
                len == src@.len(),
                len <= out@.len(),
                out@.len() == old(out)@.len(),
                out@ == overlay(old(out)@, 0, src@.take(i as int)),
            decreases len - i,
        {
            out[i] = src[i];
            i = i + 1;
            assert(out@ =~= overlay(old(out)@, 0, src@.take(i as int)));
        }
        assert(src@.take(len as int) =~= src@);
        Ok(len)
    }

    /// Inspect payload in-place without copying.
    pub fn view_blob<R, F: FnOnce(&[u8]) -> R>(&self, blob_ref: BlobRef, f: F) -> (r: R)
        requires
            self.wf(),
            self.holds(blob_ref),
            forall|s: &[u8]| #[trigger] s@ == self.payload(blob_ref) ==> f.requires((s,)),
        ensures
            exists|s: &[u8]| s@ == self.payload(blob_ref) && #[trigger] f.ensures((s,), r),
    {
        let src = self.bytes(blob_ref);
        f(src)
    }

    /// Check if a `BlobRef` has been overwritten by the producer wrapping around.
    pub fn is_lapped(&self, blob_ref: BlobRef) -> (r: bool)
        ensures
            r == self.lapped(blob_ref),
    {
        self.header.is_lapped(blob_ref)
    }

    /// Check that the payload a descriptor refers to lies inside the arena.
    pub fn is_in_bounds(&self, blob_ref: BlobRef) -> (r: bool)
        requires
            self.wf(),
        ensures
            r == self.holds(blob_ref),
    {
        self.header.is_in_bounds(blob_ref)
    }

    /// Index of the first byte of a payload.
    fn start(&self, blob_ref: BlobRef) -> (at: usize)
        requires
            self.wf(),
        ensures
            at == self.index(blob_ref.offset),
    {
        let capacity: usize = self.capacity();
        proof {
            lemma_mask_is_mod(blob_ref.offset, self.header.capacity);
        }
        (blob_ref.offset & self.header.mask) as usize
    }

    /// The bytes that a descriptor refers to.
    pub fn bytes(&self, blob_ref: BlobRef) -> (s: &[u8])
        requires
            self.wf(),
            self.holds(blob_ref),
        ensures
            s@ == self.payload(blob_ref),
    {
        let at: usize = self.start(blob_ref);
        let capacity: usize = self.capacity();
        let s = slice_subrange(self.data.as_slice(), at, at + blob_ref.len as usize);
        assert(s@ =~= self.payload(blob_ref));
        s
    }
}

/// A payload that has not been lapped is intact: writing another payload behind it leaves
/// its bytes as they are.
pub proof fn lemma_unlapped_payload_intact(
    data: Seq<u8>,
    capacity: int,
    reserved: int,
    offset: int,
    len: int,
    new_bytes: Seq<u8>,
)
    requires
        data.len() == capacity,
        0 <= offset,
        0 < len <= capacity,
        offset % capacity + len <= capacity,
        offset + len <= reserved,
        0 < new_bytes.len() <= capacity,
        reserved_after(reserved, new_bytes.len() as int, capacity) - offset <= capacity,
    ensures
        ({
            let at = placement(reserved, new_bytes.len() as int, capacity) % capacity;
            let start = offset % capacity;
            overlay(data, at, new_bytes).subrange(start, start + len) == data.subrange(
                start,
                start + len,
            )
        }),
{
    let n = new_bytes.len() as int;
    let a = placement(reserved, n, capacity);
    lemma_placement(reserved, n, capacity);
    lemma_fundamental_div_mod(offset, capacity);
    let q = offset / capacity;
    let start = offset % capacity;
    assert(offset == capacity * q + start);
    assert(capacity * (q + 1) == capacity * q + capacity) by (nonlinear_arith);
    assert(q * capacity == capacity * q) by (nonlinear_arith);
    assert((q + 1) * capacity == capacity * q + capacity) by (nonlinear_arith);
    if a < capacity * (q + 1) {
        lemma_fundamental_div_mod_converse(a, capacity, q, a - capacity * q);
    } else {
        assert(capacity * (q + 2) == capacity * q + 2 * capacity) by (nonlinear_arith);
        lemma_fundamental_div_mod_converse(a, capacity, q + 1, a - capacity * (q + 1));
    }
    let at = a % capacity;
    assert(at + n <= start || start + len <= at);
    assert(overlay(data, at, new_bytes).subrange(start, start + len) =~= data.subrange(
        start,
        start + len,
    ));
}

/// An arena at one moment: the bytes that are taken, and the bytes that it holds.
pub struct ArenaMoment {
    pub reserved: int,
    pub bytes: Seq<u8>,
}

/// Index of the byte at the cumulative position `p`.
pub open spec fn byte_index(p: int, capacity: int) -> int {
    p % capacity
}

/// Byte `k` belongs to a position from `done` on that is taken when `reserved` bytes are.
pub open spec fn taken_after(done: int, reserved: int, k: int, capacity: int) -> bool {
    exists|p: int| done <= p < reserved && #[trigger] byte_index(p, capacity) == k
}

/// The life of an arena from a moment on at which everything before the position `done` has
/// been written: taken bytes stay taken, and a byte changes only under a later position that
/// was taken before.
pub open spec fn arena_history(h: Seq<ArenaMoment>, capacity: int, done: int) -> bool {
    &&& forall|i: int| 0 <= i < h.len() ==> (#[trigger] h[i]).bytes.len() == capacity
    &&& forall|i: int|
        0 <= i && i + 1 < h.len() ==> {
            let a = #[trigger] h[i];
            let b = h[i + 1];
            &&& b.reserved >= a.reserved
            &&& forall|k: int|
                0 <= k < capacity && #[trigger] b.bytes[k] != a.bytes[k] ==> taken_after(
                    done,
                    a.reserved,
                    k,
                    capacity,
                )
        }
}

proof fn lemma_reserved_rises(h: Seq<ArenaMoment>, capacity: int, done: int, i: int, j: int)
    requires
        arena_history(h, capacity, done),
        0 <= i <= j < h.len(),
    ensures
        h[i].reserved <= h[j].reserved,
    decreases j - i,
{
    if i < j {
        lemma_reserved_rises(h, capacity, done, i, j - 1);
        let a = h[j - 1];
        assert(h[j - 1 + 1].reserved >= a.reserved);
    }
}

/// No torn payloads. Whatever the producer does meanwhile, a reader that finds a payload
/// unlapped after (`t2`) it looked at its bytes has seen the payload as it was when its
/// descriptor was published (moment 0): each byte, at whichever moment `t` up to then it was
/// looked at, is a byte of that one payload.
pub proof fn lemma_no_torn_payload(
    h: Seq<ArenaMoment>,
    header: ArenaHeader,
    r: BlobRef,
    t: int,
    t2: int,
    j: int,
)
    requires
        header.capacity >= 1,
        arena_history(h, header.capacity as int, r.offset + r.len),
        0 <= t <= t2 < h.len(),
        header.reserved == h[t2].reserved,
        header.holds(r),
        !header.lapped(r),
        0 <= j < r.len,
    ensures
        h[t].bytes[header.index(r.offset) + j] == h[0].bytes[header.index(r.offset) + j],
    decreases t,
{
    let cap = header.capacity as int;
    let done = r.offset + r.len;
    let k = header.index(r.offset) + j;
    lemma_fundamental_div_mod(r.offset as int, cap);
    if t > 0 {
        lemma_no_torn_payload(h, header, r, t - 1, t2, j);
        let a = h[t - 1];
        let b = h[t - 1 + 1];
        if b.bytes[k] != a.bytes[k] {
            assert(taken_after(done, a.reserved, k, cap));
            let p = choose|p: int| done <= p < a.reserved && #[trigger] byte_index(p, cap) == k;
            lemma_reserved_rises(h, cap, done, t - 1, t2);
            let own = r.offset + j;
            let q = r.offset as int / cap;
            assert(own == q * cap + k) by (nonlinear_arith)
                requires
                    r.offset == cap * q + r.offset as int % cap,
                    own == r.offset + j,
                    k == r.offset as int % cap + j,
            ;
            lemma_fundamental_div_mod_converse(own, cap, q, k);
            lemma_distinct_slots(p, own, cap);
        }
    }
}

/// Writing a payload keeps to that life: the bytes are taken first, then written.
pub proof fn lemma_write_is_arena_history(
    before: &PayloadArena,
    after: &PayloadArena,
    len: usize,
    flags: u32,
    r: BlobRef,
    payload: Seq<u8>,
)
    requires
        before.wf(),
        before.counts(len as nat),
        0 < len <= before.header.capacity,
        len <= u32::MAX,
        payload.len() == len,
        before.reserved_for(after, len as nat, flags, r),
        after.data@ == overlay(before.data@, before.index(r.offset), payload),
    ensures
        arena_history(
            seq![
                ArenaMoment { reserved: before.header.reserved as int, bytes: before.data@ },
                ArenaMoment { reserved: after.header.reserved as int, bytes: before.data@ },
                ArenaMoment { reserved: after.header.reserved as int, bytes: after.data@ },
            ],
            before.header.capacity as int,
            before.header.reserved as int,
        ),
{
    let cap = before.header.capacity as int;
    let done = before.header.reserved as int;
    lemma_placement(done, len as int, cap);
    lemma_fundamental_div_mod(r.offset as int, cap);
    let at = before.index(r.offset);
    assert forall|k: int|
        0 <= k < cap && #[trigger] after.data@[k] != before.data@[k] implies taken_after(
        done,
        after.header.reserved as int,
        k,
        cap,
    ) by {
        let p = r.offset + (k - at);
        let q = r.offset as int / cap;
        assert(p == q * cap + k) by (nonlinear_arith)
            requires
                r.offset == cap * q + at,
                p == r.offset + (k - at),
        ;
        lemma_fundamental_div_mod_converse(p, cap, q, k);
        assert(byte_index(p, cap) == k);
    }
}

/// A blob reads back as it was written: once `data` is written, a copy through its descriptor
/// into a buffer that is long enough gives `data`, and leaves the rest of the buffer as it is.
pub proof fn lemma_blob_reads_back(
    before: &PayloadArena,
    after: &PayloadArena,
    data: Seq<u8>,
    flags: u32,
    r: BlobRef,
    out: Seq<u8>,
)
    requires
        before.written(after, data, flags, r),
        data.len() <= u32::MAX,
        data.len() <= out.len(),
    ensures
        r.len == data.len(),
        overlay(out, 0, after.payload(r)).take(data.len() as int) == data,
        overlay(out, 0, after.payload(r)).skip(data.len() as int) == out.skip(data.len() as int),
{
    let copy = overlay(out, 0, after.payload(r));
    assert(copy.take(data.len() as int) =~= data);
    assert(copy.skip(data.len() as int) =~= out.skip(data.len() as int));
}

/// One payload that was written: its bytes, its flags, and the descriptor that it was given.
pub struct BlobWrite {
    pub data: Seq<u8>,
    pub flags: u32,
    pub blob_ref: BlobRef,
}

/// The arena `h[i]` after the first `i` of the writes `w`. A write that is refused leaves the
/// arena as it is.
pub open spec fn arena_run(h: Seq<PayloadArena>, w: Seq<BlobWrite>) -> bool {
    &&& h.len() == w.len() + 1
    &&& h[0].wf()
    &&& forall|i: int| #![trigger w[i]]
        0 <= i < w.len() ==> w[i].data.len() <= u32::MAX && h[i].written(
            &h[i + 1],
            w[i].data,
            w[i].flags,
            w[i].blob_ref,
        )
}

/// The cumulative counter does not start over during the writes.
pub open spec fn run_counts(h: Seq<PayloadArena>, w: Seq<BlobWrite>) -> bool {
    forall|i: int| #![trigger w[i]] 0 <= i < w.len() ==> h[i].counts(w[i].data.len())
}

/// The capacity of an arena is the one that it was made with, before and after any writes, and
/// whoever opens it finds that capacity.
pub proof fn lemma_capacity_is_fixed(h: Seq<PayloadArena>, w: Seq<BlobWrite>, i: int)
    requires
        arena_run(h, w),
        0 <= i <= w.len(),
    ensures
        h[i].wf(),
        h[i].header.capacity == h[0].header.capacity,
        is_pow2(h[i].header.capacity as nat),
        h[i].header.capacity >= 64,
    decreases i,
{
    if i > 0 {
        lemma_capacity_is_fixed(h, w, i - 1);
        let x = w[i - 1];
        assert(h[i - 1].written(&h[i - 1 + 1], x.data, x.flags, x.blob_ref));
    }
}

/// A blob that is not lapped is intact, and a lapped one stays lapped. After the blob of write
/// `s` any number of others are written, up to write `t`: it is not lapped right after its own
/// write; where it is not lapped, its descriptor still shows exactly its bytes; and where it
/// is, it still is after the next write.
pub proof fn lemma_unlapped_blob_intact(h: Seq<PayloadArena>, w: Seq<BlobWrite>, s: int, t: int)
    requires
        arena_run(h, w),
        run_counts(h, w),
        0 <= s < t <= w.len(),
        w[s].data.len() > 0,
    ensures
        !h[s + 1].lapped(w[s].blob_ref),
        !h[t].lapped(w[s].blob_ref) ==> h[t].payload(w[s].blob_ref) == w[s].data,
        t < w.len() && h[t].lapped(w[s].blob_ref) ==> h[t + 1].lapped(w[s].blob_ref),
        h[t].holds(w[s].blob_ref),
        w[s].blob_ref.offset + w[s].blob_ref.len <= h[t].header.reserved,
    decreases t,
{
    let r = w[s].blob_ref;
    lemma_capacity_is_fixed(h, w, s);
    lemma_capacity_is_fixed(h, w, t - 1);
    lemma_capacity_is_fixed(h, w, t);
    assert(h[s].written(&h[s + 1], w[s].data, w[s].flags, r));
    if t == s + 1 {
        assert(h[s].counts(w[s].data.len()));
        lemma_placement(
            h[s].header.reserved as int,
            w[s].data.len() as int,
            h[s].header.capacity as int,
        );
    } else {
        lemma_unlapped_blob_intact(h, w, s, t - 1);
        lemma_write_keeps_blob(&h[t - 1], &h[t], w[t - 1], r);
    }
    if t < w.len() {
        assert(h[t].written(&h[t + 1], w[t].data, w[t].flags, w[t].blob_ref));
        assert(h[t].counts(w[t].data.len()));
        lemma_write_keeps_blob(&h[t], &h[t + 1], w[t], r);
    }
}

/// What one write leaves of a payload that was written before.
proof fn lemma_write_keeps_blob(a: &PayloadArena, b: &PayloadArena, x: BlobWrite, r: BlobRef)
    requires
        a.wf(),
        a.written(b, x.data, x.flags, x.blob_ref),
        a.counts(x.data.len()),
        a.holds(r),
        r.len > 0,
        r.offset + r.len <= a.header.reserved,
    ensures
        b.header.capacity == a.header.capacity,
        b.header.reserved >= a.header.reserved,
        a.lapped(r) ==> b.lapped(r),
        !b.lapped(r) ==> b.payload(r) == a.payload(r),
{
    let n = x.data.len() as int;
    let cap = a.header.capacity as int;
    let res = a.header.reserved as int;
    if n > 0 {
        lemma_placement(res, n, cap);
        if !b.lapped(r) {
            lemma_counter_mod(placement(res, n, cap), a.header.capacity);
            lemma_unlapped_payload_intact(
                a.data@,
                cap,
                res,
                r.offset as int,
                r.len as int,
                x.data,
            );
        }
    } else {
        assert(b.data@ =~= a.data@);
    }
}

/// Where payloads go: right behind what is taken if they fit before the end of the arena, else at
/// the start of the next lap. Then as many bytes are taken as the payload has, rounded up to a
/// multiple of 64, and no more.
pub proof fn lemma_placement_is_next(reserved: int, len: int, capacity: int)
    requires
        0 <= reserved,
        0 < len <= capacity,
    ensures
        ({
            let p = placement(reserved, len, capacity);
            let taken = reserved_after(reserved, len, capacity) - p;
            &&& reserved % capacity + len <= capacity ==> p == reserved
            &&& reserved % capacity + len > capacity ==> p % capacity == 0 && p - capacity
                <= reserved < p
            &&& taken % 64 == 0
            &&& len <= taken < len + 64
        }),
{
    lemma_round_up(len, 64);
    lemma_fundamental_div_mod(reserved, capacity);
    if reserved % capacity + len > capacity {
        let q = reserved / capacity;
        let p = placement(reserved, len, capacity);
        assert(p == (q + 1) * capacity + 0) by (nonlinear_arith)
            requires
                p == reserved - reserved % capacity + capacity,
                reserved == capacity * q + reserved % capacity,
        ;
        lemma_fundamental_div_mod_converse(p, capacity, q + 1, 0);
    }
}

/// A payload is lapped exactly when a position is taken, a lap or more behind it, that falls on
/// its first byte. An empty payload never is.
pub proof fn lemma_lapped_when_first_byte_taken(h: ArenaHeader, r: BlobRef)
    requires
        h.capacity >= 1,
    ensures
        h.lapped(r) <==> r.len != 0 && exists|p: int|
            r.offset < p < h.reserved && #[trigger] byte_index(p, h.capacity as int) == byte_index(
                r.offset as int,
                h.capacity as int,
            ),
        h.holds(r) <==> byte_index(r.offset as int, h.capacity as int) + r.len <= h.capacity,
{
    let cap = h.capacity as int;
    let o = r.offset as int;
    if h.lapped(r) {
        lemma_fundamental_div_mod(o, cap);
        let q = o / cap;
        assert(o + cap == (q + 1) * cap + o % cap) by (nonlinear_arith)
            requires
                o == cap * q + o % cap,
        ;
        lemma_fundamental_div_mod_converse(o + cap, cap, q + 1, o % cap);
        assert(byte_index(o + cap, cap) == byte_index(o, cap));
    }
    if exists|p: int|
        o < p < h.reserved && #[trigger] byte_index(p, cap) == byte_index(o, cap) {
        let p = choose|p: int|
            o < p < h.reserved && #[trigger] byte_index(p, cap) == byte_index(o, cap);
        if p - o < cap {
            lemma_distinct_slots(p, o, cap);
        }
    }
}

/// What a descriptor shows: byte by byte, what the arena holds from the position of its offset
/// on, and as many bytes as its length says. Storing bytes changes those positions and no other.
pub proof fn lemma_payload_bytes(a: &PayloadArena, r: BlobRef, data: Seq<u8>, at: int, i: int)
    requires
        a.wf(),
        a.holds(r),
        0 <= i,
    ensures
        a.payload(r).len() == r.len,
        i < r.len ==> a.payload(r)[i] == a.data@[r.offset as int % a.header.capacity as int + i],
        i < a.data@.len() ==> overlay(a.data@, at, data)[i] == (if at <= i < at + data.len() {
            data[i - at]
        } else {
            a.data@[i]
        }),
        overlay(a.data@, at, data).len() == a.data@.len(),
{
}

/// What a payload is given: a descriptor of its length with its flags, right behind what is
/// taken or, if it does not fit before the end of the arena, at the start of the next lap; the
/// counter moves behind it to a multiple of 64 bytes more. An empty payload takes nothing.
pub proof fn lemma_claim_is_exact(h: ArenaHeader, len: nat, flags: u32, r: BlobRef, next: u64)
    requires
        claimed(h, len, flags, r, next),
        len <= h.capacity,
        len <= u32::MAX,
        h.reserved + 2 * h.capacity + 64 <= u64::MAX,
    ensures
        r.len == len,
        len == 0 ==> next == h.reserved && r.offset == 0,
        len > 0 ==> {
            &&& r.flags == flags
            &&& h.reserved as int % h.capacity as int + len <= h.capacity ==> r.offset == h.reserved
            &&& h.reserved as int % h.capacity as int + len > h.capacity ==> {
                &&& r.offset as int % h.capacity as int == 0
                &&& r.offset - h.capacity <= h.reserved < r.offset
            }
            &&& len <= next - r.offset < len + 64
            &&& (next - r.offset) % 64 == 0
        },
{
    if len > 0 {
        lemma_placement_is_next(h.reserved as int, len as int, h.capacity as int);
        lemma_fundamental_div_mod(h.reserved as int, h.capacity as int);
    }
}

/// Writing a payload stores its bytes where its descriptor says, leaves every other byte, and
/// keeps the arena's size.
pub proof fn lemma_write_is_exact(
    a: &PayloadArena,
    b: &PayloadArena,
    data: Seq<u8>,
    flags: u32,
    r: BlobRef,
    i: int,
)
    requires
        a.wf(),
        a.written(b, data, flags, r),
        0 <= i < a.data@.len(),
    ensures
        b.data@.len() == a.data@.len(),
        b.header.capacity == a.header.capacity,
        ({
            let at = r.offset as int % a.header.capacity as int;
            &&& at <= i < at + data.len() ==> b.data@[i] == data[i - at]
            &&& i < at || at + data.len() <= i ==> b.data@[i] == a.data@[i]
        }),
        claimed(a.header, data.len(), flags, r, b.header.reserved),
{
}

} // verus!
