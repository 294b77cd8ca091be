//! Powers of two, masks and rounding.
use vstd::arithmetic::div_mod::{
    lemma_fundamental_div_mod, lemma_mod_mod, lemma_mod_multiples_vanish,
};
use vstd::arithmetic::power2::{
    lemma2_to64, lemma2_to64_rest, lemma_pow2_adds, lemma_pow2_pos, lemma_pow2_strictly_increases,
    pow2,
};
use vstd::bits::{lemma_u64_low_bits_mask_is_mod, low_bits_mask};
use vstd::prelude::*;

verus! {

/// `x` is `2^k` for some `k`.
pub open spec fn is_pow2(x: nat) -> bool {
    exists|k: nat| x == #[trigger] pow2(k)
}

/// `u64::is_power_of_two`: "Returns `true` if and only if `self == 2^k` for some unsigned
/// integer `k`."
pub assume_specification[ u64::is_power_of_two ](x: u64) -> (r: bool)
    ensures
        r == is_pow2(x as nat),
;

/// A power of two that fits a `u64` is `2^k` with `k < 64`, and its predecessor is the
/// mask of the `k` low bits.
pub proof fn lemma_pow2_exponent(x: u64) -> (k: nat)
    requires
        is_pow2(x as nat),
    ensures
        k < 64,
        x == pow2(k),
        x >= 1,
        x - 1 == low_bits_mask(k),
{
    let k = choose|k: nat| x as nat == #[trigger] pow2(k);
    lemma2_to64();
    lemma2_to64_rest();
    if k >= 64 {
        if k > 64 {
            lemma_pow2_strictly_increases(64, k);
        }
        assert(false);
    }
    assert(pow2(k) >= 1) by {
        if k > 0 {
            lemma_pow2_strictly_increases(0, k);
        }
    }
    k
}

/// Masking with `capacity - 1` is taking the remainder by `capacity`.
pub proof fn lemma_mask_is_mod(x: u64, capacity: u64)
    requires
        is_pow2(capacity as nat),
    ensures
        capacity >= 1,
        x & ((capacity - 1) as u64) == x % capacity,
{
    let k = lemma_pow2_exponent(capacity);
    lemma_u64_low_bits_mask_is_mod(x, k);
}

/// Index of the slot that holds sequence `seq` in a ring of `mask + 1` slots.
pub fn slot_of(seq: u64, mask: u64) -> (r: u64)
    requires
        mask < u64::MAX,
        is_pow2((mask + 1) as nat),
    ensures
        r == seq as int % (mask + 1),
        0 <= r <= mask,
{
    proof {
        lemma_mask_is_mod(seq, (mask + 1) as u64);
    }
    seq & mask
}

/// Numbers less than `capacity` apart have different remainders.
pub proof fn lemma_distinct_slots(a: int, b: int, capacity: int)
    requires
        capacity > 0,
        0 < a - b < capacity,
    ensures
        a % capacity != b % capacity,
{
    lemma_fundamental_div_mod(a, capacity);
    lemma_fundamental_div_mod(b, capacity);
    if a % capacity == b % capacity {
        let d = a / capacity - b / capacity;
        assert(a - b == capacity * d) by (nonlinear_arith)
            requires
                a == capacity * (a / capacity) + a % capacity,
                b == capacity * (b / capacity) + b % capacity,
                a % capacity == b % capacity,
                d == a / capacity - b / capacity,
        ;
        assert(false) by (nonlinear_arith)
            requires
                0 < capacity * d < capacity,
                capacity > 0,
        ;
    }
}

/// What a 64-bit counter reads that has counted to `n`.
pub open spec fn counter_at(n: int) -> u64 {
    (n % 0x1_0000_0000_0000_0000) as u64
}

/// A 64-bit counter that starts over keeps its remainder by a power of two.
pub proof fn lemma_counter_mod(n: int, capacity: u64)
    requires
        is_pow2(capacity as nat),
    ensures
        counter_at(n) as int % capacity as int == n % capacity as int,
{
    let k = lemma_pow2_exponent(capacity);
    let laps = pow2((64 - k) as nat) as int;
    lemma_pow2_adds(k, (64 - k) as nat);
    lemma_pow2_pos((64 - k) as nat);
    lemma2_to64_rest();
    lemma_mod_mod(n, capacity as int, laps);
}

/// A power of two of at least 64 is a multiple of 64.
pub proof fn lemma_pow2_of_64(capacity: u64)
    requires
        is_pow2(capacity as nat),
        capacity >= 64,
    ensures
        capacity % 64 == 0,
{
    let k = lemma_pow2_exponent(capacity);
    lemma2_to64();
    if k < 6 {
        lemma_pow2_strictly_increases(k, 6);
    } else {
        lemma_pow2_adds(6, (k - 6) as nat);
        lemma_mod_multiples_vanish(pow2((k - 6) as nat) as int, 0, 64);
    }
}

/// Smallest multiple of `align` that is not below `x`.
pub open spec fn round_up(x: int, align: int) -> int {
    if x % align == 0 {
        x
    } else {
        x + align - x % align
    }
}

/// `round_up` is a multiple of `align`, not below `x`, and less than `align` above it.
pub proof fn lemma_round_up(x: int, align: int)
    requires
        align > 0,
    ensures
        round_up(x, align) % align == 0,
        x <= round_up(x, align) < x + align,
{
    if x % align != 0 {
        lemma_fundamental_div_mod(x, align);
        assert(x + align - x % align == align * (x / align) + align);
        lemma_mod_multiples_vanish(x / align, align, align);
    }
}

/// Rounds `x` up to a multiple of `align`.
pub fn round_up_to(x: u64, align: u64) -> (r: u64)
    requires
        align > 0,
        round_up(x as int, align as int) <= u64::MAX,
    ensures
        r == round_up(x as int, align as int),
{
    let rem: u64 = x % align;
    if rem == 0 {
        x
    } else {
        x + (align - rem)
    }
}

/// Rounds a byte count up to a multiple of `align`.
pub fn round_up_size(x: usize, align: usize) -> (r: usize)
    requires
        align > 0,
        round_up(x as int, align as int) <= usize::MAX,
    ensures
        r == round_up(x as int, align as int),
{
    let rem: usize = x % align;
    if rem == 0 {
        x
    } else {
        x + (align - rem)
    }
}

/// The larger of two numbers.
pub open spec fn max_of(a: u64, b: u64) -> u64 {
    if a >= b {
        a
    } else {
        b
    }
}

/// The larger of two numbers.
pub fn larger(a: u64, b: u64) -> (r: u64)
    ensures
        r == max_of(a, b),
{
    if a >= b {
        a
    } else {
        b
    }
}

/// The smaller of two numbers.
pub open spec fn min_of(a: u64, b: u64) -> u64 {
    if a <= b {
        a
    } else {
        b
    }
}

/// The smaller of two numbers.
pub fn smaller(a: u64, b: u64) -> (r: u64)
    ensures
        r == min_of(a, b),
{
    if a <= b {
        a
    } else {
        b
    }
}

/// The larger and the smaller of two numbers are those two numbers, in order.
pub proof fn lemma_larger_and_smaller(a: u64, b: u64)
    ensures
        max_of(a, b) >= a && max_of(a, b) >= b,
        max_of(a, b) == a || max_of(a, b) == b,
        min_of(a, b) <= a && min_of(a, b) <= b,
        max_of(a, b) + min_of(a, b) == a + b,
{
}

} // verus!
