//! Little-endian integers inside byte strings.
use vstd::bytes::{
    lemma_auto_spec_u16_to_from_le_bytes, lemma_auto_spec_u32_to_from_le_bytes,
    lemma_auto_spec_u64_to_from_le_bytes,
    spec_u16_from_le_bytes, spec_u16_to_le_bytes, spec_u32_from_le_bytes, spec_u32_to_le_bytes,
    spec_u64_from_le_bytes, spec_u64_to_le_bytes, u16_from_le_bytes, u16_to_le_bytes,
    u32_from_le_bytes, u32_to_le_bytes, u64_from_le_bytes, u64_to_le_bytes,
};
use vstd::prelude::*;
use vstd::slice::slice_subrange;

verus! {

/// The `u16` stored at `at`.
pub open spec fn le16(s: Seq<u8>, at: int) -> u16 {
    spec_u16_from_le_bytes(s.subrange(at, at + 2))
}

/// The `u32` stored at `at`.
pub open spec fn le32(s: Seq<u8>, at: int) -> u32 {
    spec_u32_from_le_bytes(s.subrange(at, at + 4))
}

/// The `u64` stored at `at`.
pub open spec fn le64(s: Seq<u8>, at: int) -> u64 {
    spec_u64_from_le_bytes(s.subrange(at, at + 8))
}

/// The two bytes of a `u16`.
pub open spec fn bytes16(x: u16) -> Seq<u8> {
    spec_u16_to_le_bytes(x)
}

/// The four bytes of a `u32`.
pub open spec fn bytes32(x: u32) -> Seq<u8> {
    spec_u32_to_le_bytes(x)
}

/// The eight bytes of a `u64`.
pub open spec fn bytes64(x: u64) -> Seq<u8> {
    spec_u64_to_le_bytes(x)
}

/// Reads the `u16` stored at `at`.
pub fn read_u16(s: &[u8], at: usize) -> (x: u16)
    requires
        at + 2 <= s@.len(),
    ensures
        x == le16(s@, at as int),
{
    let _len: usize = s.len();
    u16_from_le_bytes(slice_subrange(s, at, at + 2))
}

/// Reads the `u32` stored at `at`.
pub fn read_u32(s: &[u8], at: usize) -> (x: u32)
    requires
        at + 4 <= s@.len(),
    ensures
        x == le32(s@, at as int),
{
    let _len: usize = s.len();
    u32_from_le_bytes(slice_subrange(s, at, at + 4))
}

/// Reads the `u64` stored at `at`.
pub fn read_u64(s: &[u8], at: usize) -> (x: u64)
    requires
        at + 8 <= s@.len(),
    ensures
        x == le64(s@, at as int),
{
    let _len: usize = s.len();
    u64_from_le_bytes(slice_subrange(s, at, at + 8))
}

/// Appends the two bytes of `x`.
pub fn push_u16(out: &mut Vec<u8>, x: u16)
    ensures
        final(out)@ == old(out)@ + bytes16(x),
{
    let mut b = u16_to_le_bytes(x);
    out.append(&mut b);
}

/// Appends the four bytes of `x`.
pub fn push_u32(out: &mut Vec<u8>, x: u32)
    ensures
        final(out)@ == old(out)@ + bytes32(x),
{
    let mut b = u32_to_le_bytes(x);
    out.append(&mut b);
}

/// Appends the eight bytes of `x`.
pub fn push_u64(out: &mut Vec<u8>, x: u64)
    ensures
        final(out)@ == old(out)@ + bytes64(x),
{
    let mut b = u64_to_le_bytes(x);
    out.append(&mut b);
}

/// Appends `n` zero bytes.
pub fn push_zeros(out: &mut Vec<u8>, n: usize)
    requires
        old(out)@.len() + n <= usize::MAX,
    ensures
        final(out)@ == old(out)@ + Seq::new(n as nat, |i: int| 0u8),
{
    let ghost before = out@;
    let mut i: usize = 0;
    while i < n
        invariant
            i <= n,
            out@ == before + Seq::new(i as nat, |j: int| 0u8),
        decreases n - i,
    {
        out.push(0);
        i = i + 1;
        assert(out@ =~= before + Seq::new(i as nat, |j: int| 0u8));
    }
}

/// A number that was stored reads back, wherever it stands among other bytes.
pub proof fn lemma_stored_number_reads_back(p: Seq<u8>, q: Seq<u8>, a: u16, b: u32, c: u64)
    ensures
        le16(p + bytes16(a) + q, p.len() as int) == a,
        le32(p + bytes32(b) + q, p.len() as int) == b,
        le64(p + bytes64(c) + q, p.len() as int) == c,
        bytes16(a).len() == 2,
        bytes32(b).len() == 4,
        bytes64(c).len() == 8,
{
    lemma_auto_spec_u16_to_from_le_bytes();
    lemma_auto_spec_u32_to_from_le_bytes();
    lemma_auto_spec_u64_to_from_le_bytes();
    let n = p.len() as int;
    assert((p + bytes16(a) + q).subrange(n, n + 2) =~= bytes16(a));
    assert((p + bytes32(b) + q).subrange(n, n + 4) =~= bytes32(b));
    assert((p + bytes64(c) + q).subrange(n, n + 8) =~= bytes64(c));
}

} // verus!
