//! Facts about single bits of a `u64`, the common model of every element type.

use vstd::prelude::*;
use vstd::std_specs::bits::{axiom_u64_trailing_zeros, u64_trailing_zeros};

verus! {

/// Whether the bit at `pos`, counted from the least significant end, is set.
pub open spec fn raw_bit(v: u64, pos: u64) -> bool {
    pos < 64 && (v >> pos) & 1 == 1
}

/// The value whose low `width` bits are set and no others, for a width from 1 to 64.
pub open spec fn low_ones(width: u64) -> u64 {
    0xffff_ffff_ffff_ffffu64 >> ((64 - width) as u64)
}

/// The value whose low `width` bits all equal `bit`.
pub open spec fn filled(bit: bool, width: u64) -> u64 {
    if bit {
        low_ones(width)
    } else {
        0
    }
}

/// The value with only the bit at `pos` set.
pub open spec fn one_hot(pos: u64) -> u64 {
    1u64 << pos
}

/// How many of the low `n` bits of `v` are set.
pub open spec fn count_set(v: u64, n: nat) -> nat
    decreases n,
{
    if n == 0 {
        0
    } else {
        count_set(v, (n - 1) as nat) + if raw_bit(v, (n - 1) as u64) {
            1nat
        } else {
            0nat
        }
    }
}

/// A one-hot mask has its own bit set and no other, and fits in any width above its position.
pub proof fn lemma_one_hot_bits(pos: u64, width: u64)
    by (bit_vector)
    requires
        pos < width,
        width <= 64,
    ensures
        forall|q: u64| q < 64 ==> #[trigger] raw_bit(one_hot(pos), q) == (q == pos),
        one_hot(pos) != 0,
        one_hot(pos) <= low_ones(width),
{
}

/// Or-ing a one-hot mask in sets that bit and keeps the others.
pub proof fn lemma_or_one_hot(v: u64, pos: u64)
    by (bit_vector)
    requires
        pos < 64,
    ensures
        forall|q: u64|
            q < 64 ==> #[trigger] raw_bit(v | one_hot(pos), q) == (q == pos || raw_bit(v, q)),
{
}

/// And-ing with the complement of a one-hot mask clears that bit and keeps the others.
pub proof fn lemma_and_not_one_hot(v: u64, pos: u64)
    by (bit_vector)
    requires
        pos < 64,
    ensures
        forall|q: u64|
            q < 64 ==> #[trigger] raw_bit(v & !one_hot(pos), q) == (q != pos && raw_bit(v, q)),
{
}

/// Xor-ing a one-hot mask in flips that bit and keeps the others.
pub proof fn lemma_xor_one_hot(v: u64, pos: u64)
    by (bit_vector)
    requires
        pos < 64,
    ensures
        forall|q: u64|
            q < 64 ==> #[trigger] raw_bit(v ^ one_hot(pos), q) == (raw_bit(v, q) != (q == pos)),
{
}

/// Testing a value against a one-hot mask reads that bit.
pub proof fn lemma_test_one_hot(v: u64, pos: u64)
    by (bit_vector)
    requires
        pos < 64,
    ensures
        (v & one_hot(pos) != 0) == raw_bit(v, pos),
{
}

/// Masking operations keep a value inside its width.
pub proof fn lemma_ops_fit(v: u64, m: u64, width: u64)
    by (bit_vector)
    requires
        1 <= width,
        width <= 64,
        v <= low_ones(width),
        m <= low_ones(width),
    ensures
        v | m <= low_ones(width),
        v & m <= low_ones(width),
        v ^ m <= low_ones(width),
        v & !m <= low_ones(width),
        !v & low_ones(width) <= low_ones(width),
{
}

/// A value that fits in `width` bits has no bit set at or above the width; its
/// complement inside the width flips every bit below it.
pub proof fn lemma_width_bits(v: u64, width: u64)
    by (bit_vector)
    requires
        1 <= width,
        width <= 64,
        v <= low_ones(width),
    ensures
        forall|q: u64| width <= q && q < 64 ==> !#[trigger] raw_bit(v, q),
        forall|q: u64|
            q < width ==> #[trigger] raw_bit(!v & low_ones(width), q) == !raw_bit(v, q),
        forall|q: u64| q < width ==> #[trigger] raw_bit(low_ones(width), q),
        forall|q: u64| q < 64 ==> !#[trigger] raw_bit(0, q),
{
}

/// And-ing with the complement of a mask taken inside the width is and-ing with
/// its full complement, for a value that fits in the width.
pub proof fn lemma_complement_mask(v: u64, m: u64, width: u64)
    by (bit_vector)
    requires
        1 <= width,
        width <= 64,
        v <= low_ones(width),
    ensures
        v & (!m & low_ones(width)) == v & !m,
{
}

/// The all-ones value of each element width.
pub proof fn lemma_low_ones_values()
    by (bit_vector)
    ensures
        low_ones(8) == 0xff,
        low_ones(16) == 0xffff,
        low_ones(32) == 0xffff_ffff,
        low_ones(64) == 0xffff_ffff_ffff_ffff,
{
}

/// No more bits can be set than there are positions.
pub proof fn lemma_count_bound(v: u64, n: nat)
    ensures
        count_set(v, n) <= n,
    decreases n,
{
    if n > 0 {
        lemma_count_bound(v, (n - 1) as nat);
    }
}

/// Counting past the width of a value adds nothing.
pub proof fn lemma_count_above_width(v: u64, width: u64, n: nat)
    requires
        1 <= width <= n <= 64,
        v <= low_ones(width),
    ensures
        count_set(v, n) == count_set(v, width as nat),
    decreases n,
{
    if n > width {
        lemma_width_bits(v, width);
        assert(!raw_bit(v, (n - 1) as u64));
        lemma_count_above_width(v, width, (n - 1) as nat);
    }
}

/// Inside the width, the complement has a bit set wherever the value has none.
pub proof fn lemma_count_complement(v: u64, width: u64, n: nat)
    requires
        1 <= width <= 64,
        n <= width,
        v <= low_ones(width),
    ensures
        count_set(!v & low_ones(width), n) == n - count_set(v, n),
    decreases n,
{
    if n > 0 {
        lemma_width_bits(v, width);
        assert(raw_bit(!v & low_ones(width), (n - 1) as u64) == !raw_bit(v, (n - 1) as u64));
        lemma_count_complement(v, width, (n - 1) as nat);
    }
}

/// A value that fits in `width` bits and is not all ones there has a clear bit
/// below the width; one that is not zero has a set bit below the width.
pub proof fn lemma_differs(v: u64, width: u64)
    requires
        1 <= width <= 64,
        v <= low_ones(width),
    ensures
        v != low_ones(width) ==> exists|q: u64| q < width && !#[trigger] raw_bit(v, q),
        v != 0 ==> exists|q: u64| q < width && #[trigger] raw_bit(v, q),
{
    lemma_width_bits(v, width);
    if v != 0 {
        let q = u64_trailing_zeros(v) as u64;
        axiom_u64_trailing_zeros(v);
        assert(raw_bit(v, q));
    }
    if v != low_ones(width) {
        let u = !v & low_ones(width);
        lemma_ops_fit(v, 0, width);
        lemma_width_bits(u, width);
        lemma_complement_nonzero(v, width);
        let q = u64_trailing_zeros(u) as u64;
        axiom_u64_trailing_zeros(u);
        assert(raw_bit(u, q));
        assert(!raw_bit(v, q));
    }
}

/// Inside the width, only the all-ones value has the zero complement.
proof fn lemma_complement_nonzero(v: u64, width: u64)
    by (bit_vector)
    requires
        1 <= width,
        width <= 64,
        v <= low_ones(width),
        v != low_ones(width),
    ensures
        !v & low_ones(width) != 0,
{
}

/// The xor of two values has a bit set where they differ, and is zero only
/// if they are equal.
proof fn lemma_xor_bits(a: u64, b: u64)
    by (bit_vector)
    ensures
        forall|q: u64| q < 64 ==> #[trigger] raw_bit(a ^ b, q) == (raw_bit(a, q) != raw_bit(b, q)),
        a ^ b == 0 ==> a == b,
{
}

/// Values that fit in `width` bits and agree on every bit below the width are
/// equal.
pub proof fn lemma_same_bits(a: u64, b: u64, width: u64)
    requires
        1 <= width <= 64,
        a <= low_ones(width),
        b <= low_ones(width),
        forall|q: u64| q < width ==> raw_bit(a, q) == raw_bit(b, q),
    ensures
        a == b,
{
    lemma_xor_bits(a, b);
    lemma_ops_fit(a, b, width);
    lemma_differs(a ^ b, width);
    if a ^ b != 0 {
        let q = choose|q: u64| q < width && #[trigger] raw_bit(a ^ b, q);
        assert(raw_bit(a, q) != raw_bit(b, q));
    }
}

} // verus!
