//! Layout signature verification for cross-process shared memory structures.
//!
//! A 64-bit fingerprint of a record type's name, size and alignment prevents silent memory
//! corruption when sender and receiver are compiled with divergent struct definitions. The
//! name counts without its module path, so the same struct defined in two crates matches.
use crate::bytes::{bytes64, push_u64};
use vstd::arithmetic::div_mod::{lemma_fundamental_div_mod_converse, lemma_mul_mod_noop_left};
use vstd::prelude::*;
use vstd::string::StringExecFns;
use vstd::utf8::encode_utf8;

verus! {

/// Initial value of the FNV-1a hash.
pub const FNV_OFFSET: u64 = 0xcbf2_9ce4_8422_2325;

/// Multiplier of the FNV-1a hash.
pub const FNV_PRIME: u64 = 0x0100_0000_01b3;

/// The FNV-1a hash of `s`: each byte is mixed in by exclusive or, then the hash is
/// multiplied modulo 2^64.
pub open spec fn fnv(s: Seq<u8>) -> u64
    decreases s.len(),
{
    if s.len() == 0 {
        FNV_OFFSET
    } else {
        (fnv(s.drop_last()) ^ (s.last() as u64)).wrapping_mul(FNV_PRIME)
    }
}

/// 64-bit FNV-1a hash over bytes.
pub fn fnv1a64(bytes: &[u8]) -> (hash: u64)
    ensures
        hash == fnv(bytes@),
{
    let mut hash: u64 = FNV_OFFSET;
    let mut i: usize = 0;
    while i < bytes.len()
        invariant
            i <= bytes@.len(),
            hash == fnv(bytes@.take(i as int)),
        decreases bytes@.len() - i,
    {
        hash = hash ^ (bytes[i] as u64);
        hash = hash.wrapping_mul(FNV_PRIME);
        proof {
            assert(bytes@.take(i + 1).drop_last() =~= bytes@.take(i as int));
        }
        i = i + 1;
    }
    proof {
        assert(bytes@.take(i as int) =~= bytes@);
    }
    hash
}

/// Whether `c` can be part of an identifier: a letter, a digit, `_`, or any non-ASCII
/// character.
pub open spec fn ident_char(c: char) -> bool {
    c == '_' || '0' <= c <= '9' || 'A' <= c <= 'Z' || 'a' <= c <= 'z' || c as u32 >= 0x80
}

/// Whether `::` stands at `i`.
pub open spec fn path_sep_at(s: Seq<char>, i: int) -> bool {
    i + 1 < s.len() && s[i] == ':' && s[i + 1] == ':'
}

/// `s` from position `i` on without module paths, where `token` is the identifier read just
/// before `i`: an identifier that a `::` follows is dropped.
pub open spec fn strip_from(s: Seq<char>, i: int, token: Seq<char>) -> Seq<char>
    decreases s.len() - i,
{
    if i >= s.len() {
        token
    } else if path_sep_at(s, i) {
        strip_from(s, i + 2, Seq::empty())
    } else if ident_char(s[i]) {
        strip_from(s, i + 1, token.push(s[i]))
    } else {
        token.push(s[i]) + strip_from(s, i + 1, Seq::empty())
    }
}

/// A type's name without module paths: `alloc::vec::Vec<app::Tick>` is `Vec<Tick>`.
pub open spec fn bare_name(name: Seq<char>) -> Seq<char> {
    strip_from(name, 0, Seq::empty())
}

/// The signature of a type called `name` of `size` bytes, aligned to `align`.
pub open spec fn signature_of(name: Seq<char>, size: u64, align: u64) -> u64 {
    fnv(encode_utf8(bare_name(name)) + bytes64(size) + bytes64(align))
}

fn is_ident_char(c: char) -> (r: bool)
    ensures
        r == ident_char(c),
{
    c == '_' || ('0' <= c && c <= '9') || ('A' <= c && c <= 'Z') || ('a' <= c && c <= 'z') || c
        as u32 >= 0x80
}

/// The type's name without module paths.
pub fn strip_module_paths(name: &str) -> (out: String)
    ensures
        out@ == bare_name(name@),
{
    let n: usize = name.unicode_len();
    let mut out = String::new();
    let mut token = String::new();
    let mut i: usize = 0;
    while i < n
        invariant
            n == name@.len(),
            i <= n,
            bare_name(name@) == out@ + strip_from(name@, i as int, token@),
        decreases n - i,
    {
        let c = name.get_char(i);
        if c == ':' && i + 1 < n && name.get_char(i + 1) == ':' {
            assert(path_sep_at(name@, i as int));
            token = String::new();
            i = i + 2;
        } else if is_ident_char(c) {
            token.push(c);
            i = i + 1;
        } else {
            let ghost before = out@ + strip_from(name@, i as int, token@);
            out.append(token.as_str());
            out.push(c);
            token = String::new();
            i = i + 1;
            assert(before =~= out@ + strip_from(name@, i as int, token@));
        }
    }
    out.append(token.as_str());
    out
}

/// Compute the 64-bit layout signature of the type `T`, whose name is `name`.
pub fn compute_layout_signature<T>(name: &str) -> (sig: u64)
    ensures
        sig == signature_of(
            name@,
            vstd::layout::size_of::<T>() as u64,
            vstd::layout::align_of::<T>() as u64,
        ),
{
    let bare = strip_module_paths(name);
    let mut buf: Vec<u8> = vstd::slice::slice_to_vec(bare.as_str().as_bytes());
    push_u64(&mut buf, core::mem::size_of::<T>() as u64);
    push_u64(&mut buf, core::mem::align_of::<T>() as u64);
    fnv1a64(buf.as_slice())
}

/// Trait providing a layout signature for cross-process IPC validation.
pub trait LayoutSignature: Sized {
    /// The type's name; it may have a module path.
    const FULL_NAME: &'static str;

    /// The 64-bit fingerprint of the type.
    fn layout_signature() -> (sig: u64)
        ensures
            sig == signature_of(
                Self::FULL_NAME@,
                vstd::layout::size_of::<Self>() as u64,
                vstd::layout::align_of::<Self>() as u64,
            ),
    {
        compute_layout_signature::<Self>(Self::FULL_NAME)
    }
}

impl LayoutSignature for u8 {
    const FULL_NAME: &'static str = "u8";
}

impl LayoutSignature for u16 {
    const FULL_NAME: &'static str = "u16";
}

impl LayoutSignature for u32 {
    const FULL_NAME: &'static str = "u32";
}

impl LayoutSignature for u64 {
    const FULL_NAME: &'static str = "u64";
}

impl LayoutSignature for u128 {
    const FULL_NAME: &'static str = "u128";
}

impl LayoutSignature for usize {
    const FULL_NAME: &'static str = "usize";
}

impl LayoutSignature for i8 {
    const FULL_NAME: &'static str = "i8";
}

impl LayoutSignature for i16 {
    const FULL_NAME: &'static str = "i16";
}

impl LayoutSignature for i32 {
    const FULL_NAME: &'static str = "i32";
}

impl LayoutSignature for i64 {
    const FULL_NAME: &'static str = "i64";
}

impl LayoutSignature for i128 {
    const FULL_NAME: &'static str = "i128";
}

impl LayoutSignature for isize {
    const FULL_NAME: &'static str = "isize";
}

impl LayoutSignature for bool {
    const FULL_NAME: &'static str = "bool";
}

impl LayoutSignature for char {
    const FULL_NAME: &'static str = "char";
}

impl LayoutSignature for () {
    const FULL_NAME: &'static str = "()";
}

/// The primitive types go by their plain names.
pub proof fn lemma_primitive_names()
    ensures
        <u8 as LayoutSignature>::FULL_NAME@ == "u8"@,
        <u16 as LayoutSignature>::FULL_NAME@ == "u16"@,
        <u32 as LayoutSignature>::FULL_NAME@ == "u32"@,
        <u64 as LayoutSignature>::FULL_NAME@ == "u64"@,
        <u128 as LayoutSignature>::FULL_NAME@ == "u128"@,
        <usize as LayoutSignature>::FULL_NAME@ == "usize"@,
        <i8 as LayoutSignature>::FULL_NAME@ == "i8"@,
        <i16 as LayoutSignature>::FULL_NAME@ == "i16"@,
        <i32 as LayoutSignature>::FULL_NAME@ == "i32"@,
        <i64 as LayoutSignature>::FULL_NAME@ == "i64"@,
        <i128 as LayoutSignature>::FULL_NAME@ == "i128"@,
        <isize as LayoutSignature>::FULL_NAME@ == "isize"@,
        <bool as LayoutSignature>::FULL_NAME@ == "bool"@,
        <char as LayoutSignature>::FULL_NAME@ == "char"@,
        <() as LayoutSignature>::FULL_NAME@ == "()"@,
{
}

/// `name` inside nested modules, outermost first.
pub open spec fn qualified(modules: Seq<Seq<char>>, name: Seq<char>) -> Seq<char>
    decreases modules.len(),
{
    if modules.len() == 0 {
        name
    } else {
        modules[0] + seq![':', ':'] + qualified(modules.drop_first(), name)
    }
}

proof fn lemma_strip_shift(p: Seq<char>, s: Seq<char>, i: int, token: Seq<char>)
    requires
        0 <= i <= s.len(),
    ensures
        strip_from(p + s, p.len() + i, token) == strip_from(s, i, token),
    decreases s.len() - i,
{
    let t = p + s;
    if i < s.len() {
        assert(t[p.len() + i] == s[i]);
        if i + 1 < s.len() {
            assert(t[p.len() + i + 1] == s[i + 1]);
        }
        if path_sep_at(s, i) {
            lemma_strip_shift(p, s, i + 2, Seq::empty());
        } else if ident_char(s[i]) {
            lemma_strip_shift(p, s, i + 1, token.push(s[i]));
        } else {
            lemma_strip_shift(p, s, i + 1, Seq::empty());
        }
    }
}

proof fn lemma_strip_module(m: Seq<char>, s: Seq<char>, i: int, token: Seq<char>)
    requires
        forall|j: int| 0 <= j < m.len() ==> ident_char(#[trigger] m[j]),
        0 <= i <= m.len(),
    ensures
        strip_from(m + seq![':', ':'] + s, i, token) == bare_name(s),
    decreases m.len() - i,
{
    let sep = seq![':', ':'];
    let t = m + sep + s;
    if i < m.len() {
        assert(t[i] == m[i]);
        assert(ident_char(m[i]));
        lemma_strip_module(m, s, i + 1, token.push(t[i]));
    } else {
        assert(t[i] == ':' && t[i + 1] == ':');
        assert(path_sep_at(t, i));
        lemma_strip_shift(m + sep, s, 0, Seq::empty());
    }
}

/// The same struct defined in different modules or crates has the same signature: module
/// paths do not count.
pub proof fn lemma_module_path_ignored(
    modules: Seq<Seq<char>>,
    name: Seq<char>,
    size: u64,
    align: u64,
)
    requires
        forall|k: int, j: int|
            0 <= k < modules.len() && 0 <= j < modules[k].len() ==> ident_char(
                #[trigger] modules[k][j],
            ),
    ensures
        bare_name(qualified(modules, name)) == bare_name(name),
        signature_of(qualified(modules, name), size, align) == signature_of(name, size, align),
    decreases modules.len(),
{
    if modules.len() > 0 {
        let rest = modules.drop_first();
        assert forall|k: int, j: int|
            0 <= k < rest.len() && 0 <= j < rest[k].len() implies ident_char(
            #[trigger] rest[k][j],
        ) by {
            assert(rest[k] == modules[k + 1]);
            assert(ident_char(modules[k + 1][j]));
        }
        lemma_module_path_ignored(rest, name, size, align);
        assert forall|j: int| 0 <= j < modules[0].len() implies ident_char(
            #[trigger] modules[0][j],
        ) by {
            assert(ident_char(modules[0][j]));
        }
        lemma_strip_module(modules[0], qualified(rest, name), 0, Seq::empty());
    }
}

/// The hash starts from its offset, and mixes in one byte by exclusive or and a multiplication
/// modulo 2^64.
pub proof fn lemma_hash_of_bytes(s: Seq<u8>, b: u8)
    ensures
        fnv(Seq::<u8>::empty()) == 0xcbf2_9ce4_8422_2325,
        fnv(s.push(b)) == ((fnv(s) ^ (b as u64)) * 0x0100_0000_01b3)
            % 0x1_0000_0000_0000_0000,
{
    assert(s.push(b).drop_last() =~= s);
}

/// Different hashes stay different when the same byte is mixed in.
proof fn lemma_mixing_loses_nothing(g: u64, h: u64, b: u8, c: u8)
    requires
        g != h && b == c || g == h && b != c,
    ensures
        (g ^ (b as u64)).wrapping_mul(FNV_PRIME) != (h ^ (c as u64)).wrapping_mul(FNV_PRIME),
{
    let x = g ^ (b as u64);
    let y = h ^ (c as u64);
    assert(x != y) by (bit_vector)
        requires
            g != h && b == c || g == h && b != c,
            x == g ^ (b as u64),
            y == h ^ (c as u64),
    ;
    let m = 0x1_0000_0000_0000_0000int;
    let p = FNV_PRIME as int;
    let q = 0xce96_5057_aff6_957bint;
    if (x * p) % m == (y * p) % m {
        lemma_undone(x as int, p, q, m);
        lemma_undone(y as int, p, q, m);
    }
}

proof fn lemma_undone(x: int, p: int, q: int, m: int)
    requires
        0 <= x < m,
        m == 0x1_0000_0000_0000_0000,
        p == 0x0100_0000_01b3,
        q == 0xce96_5057_aff6_957b,
    ensures
        (((x * p) % m) * q) % m == x,
{
    let k = p * q / m;
    assert(p * q == k * m + 1) by (nonlinear_arith)
        requires
            m == 0x1_0000_0000_0000_0000,
            p == 0x0100_0000_01b3,
            q == 0xce96_5057_aff6_957b,
            k == p * q / m,
    ;
    lemma_mul_mod_noop_left(x * p, q, m);
    assert((x * p) * q == (x * k) * m + x) by (nonlinear_arith)
        requires
            p * q == k * m + 1,
    ;
    lemma_fundamental_div_mod_converse((x * p) * q, m, x * k, x);
}

/// One changed byte changes the hash, wherever it stands.
pub proof fn lemma_changed_byte_changes_hash(p: Seq<u8>, a: u8, b: u8, q: Seq<u8>)
    requires
        a != b,
    ensures
        fnv(p.push(a) + q) != fnv(p.push(b) + q),
    decreases q.len(),
{
    let s = p.push(a) + q;
    let t = p.push(b) + q;
    if q.len() == 0 {
        assert(s.drop_last() =~= p && t.drop_last() =~= p);
        lemma_mixing_loses_nothing(fnv(p), fnv(p), a, b);
    } else {
        let r = q.drop_last();
        lemma_changed_byte_changes_hash(p, a, b, r);
        assert(s.drop_last() =~= p.push(a) + r && t.drop_last() =~= p.push(b) + r);
        lemma_mixing_loses_nothing(fnv(p.push(a) + r), fnv(p.push(b) + r), q.last(), q.last());
    }
}

/// Signatures tell layouts apart: types of the same name whose sizes, or whose alignments,
/// differ in one byte have different signatures, and so have types of the same size and
/// alignment whose bare names differ in one byte.
pub proof fn lemma_signature_tells_apart(
    name: Seq<char>,
    other: Seq<char>,
    a: (u64, u64),
    b: (u64, u64),
    i: int,
)
    requires
        ({
            let s = encode_utf8(bare_name(name)) + bytes64(a.0) + bytes64(a.1);
            let t = encode_utf8(bare_name(other)) + bytes64(b.0) + bytes64(b.1);
            &&& 0 <= i < s.len()
            &&& s[i] != t[i]
            &&& t == s.update(i, t[i])
        }),
    ensures
        signature_of(name, a.0, a.1) != signature_of(other, b.0, b.1),
{
    let s = encode_utf8(bare_name(name)) + bytes64(a.0) + bytes64(a.1);
    let t = encode_utf8(bare_name(other)) + bytes64(b.0) + bytes64(b.1);
    let p = s.take(i);
    let q = s.skip(i + 1);
    assert(s =~= p.push(s[i]) + q);
    assert(t =~= p.push(t[i]) + q);
    lemma_changed_byte_changes_hash(p, s[i], t[i], q);
}

/// A name without module paths is its own bare name.
pub proof fn lemma_plain_name_kept(name: Seq<char>)
    requires
        forall|i: int| 0 <= i ==> !#[trigger] path_sep_at(name, i),
    ensures
        bare_name(name) == name,
{
    lemma_strip_keeps(name, 0, Seq::empty());
    assert(Seq::<char>::empty() + name.skip(0) =~= name);
}

proof fn lemma_strip_keeps(s: Seq<char>, i: int, token: Seq<char>)
    requires
        forall|j: int| 0 <= j ==> !#[trigger] path_sep_at(s, j),
        0 <= i <= s.len(),
    ensures
        strip_from(s, i, token) == token + s.skip(i),
    decreases s.len() - i,
{
    if i == s.len() {
        assert(token + s.skip(i) =~= token);
    } else {
        assert(!path_sep_at(s, i));
        assert(s.skip(i) =~= seq![s[i]] + s.skip(i + 1));
        if ident_char(s[i]) {
            lemma_strip_keeps(s, i + 1, token.push(s[i]));
            assert(token.push(s[i]) + s.skip(i + 1) =~= token + s.skip(i));
        } else {
            lemma_strip_keeps(s, i + 1, Seq::empty());
            assert(token.push(s[i]) + (Seq::<char>::empty() + s.skip(i + 1)) =~= token + s.skip(i));
        }
    }
}

/// The names inside a name lose their module paths on their own: around a bracket, a comma or
/// any other character that no name holds, both sides are stripped, and that character stays.
pub proof fn lemma_names_stripped_apart(a: Seq<char>, c: char, b: Seq<char>)
    requires
        !ident_char(c),
        c != ':',
    ensures
        bare_name(a + seq![c] + b) == bare_name(a) + seq![c] + bare_name(b),
{
    lemma_strip_apart(a, c, b, 0, Seq::empty());
}

proof fn lemma_strip_apart(a: Seq<char>, c: char, b: Seq<char>, i: int, token: Seq<char>)
    requires
        !ident_char(c),
        c != ':',
        0 <= i <= a.len(),
    ensures
        strip_from(a + seq![c] + b, i, token) == strip_from(a, i, token) + seq![c] + bare_name(b),
    decreases a.len() - i,
{
    let s = a + seq![c] + b;
    if i == a.len() {
        assert(s[i] == c);
        lemma_strip_shift(a + seq![c], b, 0, Seq::empty());
        assert(token.push(c) + bare_name(b) =~= token + seq![c] + bare_name(b));
    } else {
        assert(s[i] == a[i]);
        if i + 1 < a.len() {
            assert(s[i + 1] == a[i + 1]);
        } else {
            assert(s[i + 1] == c);
        }
        if path_sep_at(a, i) {
            lemma_strip_apart(a, c, b, i + 2, Seq::empty());
        } else if ident_char(a[i]) {
            lemma_strip_apart(a, c, b, i + 1, token.push(a[i]));
        } else {
            lemma_strip_apart(a, c, b, i + 1, Seq::empty());
            let rest = strip_from(a, i + 1, Seq::empty());
            assert(token.push(a[i]) + (rest + seq![c] + bare_name(b)) =~= token.push(a[i]) + rest
                + seq![c] + bare_name(b));
        }
    }
}

} // verus!
