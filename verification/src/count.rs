//! Counting the bits of a sequence that are set, or clear.

use crate::bits::{count_set, raw_bit};
use crate::cursor::Cursor;
use crate::model::{flat, lemma_flat_elt};
use crate::pointer::BitSpan;
use crate::store::{bit_of, BitStore};
use vstd::prelude::*;
use vstd::set_lib::{lemma_int_range, lemma_len_subset, lemma_map_size, set_int_range};

verus! {

/// The positions from `from` up to `to` at which the bit equals `value`.
pub open spec fn hits(bits: Seq<bool>, from: int, to: int, value: bool) -> Set<int> {
    Set::new(|k: int| from <= k < to && bits[k] == value)
}

/// The number of bits from `from` up to `to` that equal `value`.
pub open spec fn tally(bits: Seq<bool>, from: int, to: int, value: bool) -> nat {
    hits(bits, from, to, value).len()
}

/// The number of set bits of a sequence.
pub open spec fn count_ones(bits: Seq<bool>) -> nat {
    tally(bits, 0, bits.len() as int, true)
}

/// The number of clear bits of a sequence.
pub open spec fn count_zeros(bits: Seq<bool>) -> nat {
    tally(bits, 0, bits.len() as int, false)
}

/// A range holds finitely many hits, and no more than it is long.
pub proof fn lemma_tally_bound(bits: Seq<bool>, from: int, to: int, value: bool)
    requires
        from <= to,
    ensures
        hits(bits, from, to, value).finite(),
        tally(bits, from, to, value) <= to - from,
{
    lemma_int_range(from, to);
    lemma_len_subset(hits(bits, from, to, value), set_int_range(from, to));
}

/// The empty range holds no hit.
pub proof fn lemma_tally_empty(bits: Seq<bool>, from: int, value: bool)
    ensures
        tally(bits, from, from, value) == 0,
{
    assert(hits(bits, from, from, value) =~= Set::<int>::empty());
}

/// A range that grows by one position gains one in the tally if the bit there
/// equals `value`.
pub proof fn lemma_tally_step(bits: Seq<bool>, from: int, to: int, value: bool)
    requires
        from <= to,
    ensures
        tally(bits, from, to + 1, value) == tally(bits, from, to, value) + if bits[to] == value {
            1nat
        } else {
            0nat
        },
{
    lemma_tally_bound(bits, from, to, value);
    if bits[to] == value {
        assert(hits(bits, from, to + 1, value) =~= hits(bits, from, to, value).insert(to));
    } else {
        assert(hits(bits, from, to + 1, value) =~= hits(bits, from, to, value));
    }
}

/// The tallies of two adjoining ranges add up.
pub proof fn lemma_tally_split(bits: Seq<bool>, from: int, mid: int, to: int, value: bool)
    requires
        from <= mid <= to,
    ensures
        tally(bits, from, to, value) == tally(bits, from, mid, value) + tally(
            bits,
            mid,
            to,
            value,
        ),
    decreases to - mid,
{
    if mid == to {
        lemma_tally_empty(bits, mid, value);
    } else {
        lemma_tally_split(bits, from, mid, to - 1, value);
        lemma_tally_step(bits, from, to - 1, value);
        lemma_tally_step(bits, mid, to - 1, value);
    }
}

/// Sequences that agree on a range, one shifted against the other, have the
/// same tally there.
pub proof fn lemma_tally_shift(
    a: Seq<bool>,
    b: Seq<bool>,
    from: int,
    to: int,
    by: int,
    value: bool,
)
    requires
        from <= to,
        forall|k: int| from <= k < to ==> a[k] == b[k + by],
    ensures
        tally(a, from, to, value) == tally(b, from + by, to + by, value),
    decreases to - from,
{
    if from == to {
        lemma_tally_empty(a, from, value);
        lemma_tally_empty(b, from + by, value);
    } else {
        lemma_tally_shift(a, b, from, to - 1, by, value);
        lemma_tally_step(a, from, to - 1, value);
        lemma_tally_step(b, from + by, to - 1 + by, value);
    }
}

/// Every bit of a range is set or clear: the two tallies add up to its length.
pub proof fn lemma_tally_sum(bits: Seq<bool>, from: int, to: int)
    requires
        from <= to,
    ensures
        tally(bits, from, to, true) + tally(bits, from, to, false) == to - from,
    decreases to - from,
{
    if from == to {
        lemma_tally_empty(bits, from, true);
        lemma_tally_empty(bits, from, false);
    } else {
        lemma_tally_sum(bits, from, to - 1);
        lemma_tally_step(bits, from, to - 1, true);
        lemma_tally_step(bits, from, to - 1, false);
    }
}

/// The set bits and the clear bits of a sequence are all its bits.
pub proof fn lemma_counts_sum(bits: Seq<bool>)
    ensures
        count_ones(bits) + count_zeros(bits) == bits.len(),
{
    lemma_tally_sum(bits, 0, bits.len() as int);
}

/// The positions below `n` at which `v` has a bit set.
spec fn raw_ones(v: u64, n: int) -> Set<int> {
    Set::new(|q: int| 0 <= q < n && raw_bit(v, q as u64))
}

/// Counting the low bits of a value counts the positions at which one is set.
proof fn lemma_count_set_is_len(v: u64, n: nat)
    requires
        n <= 64,
    ensures
        raw_ones(v, n as int).finite(),
        count_set(v, n) == raw_ones(v, n as int).len(),
    decreases n,
{
    if n == 0 {
        assert(raw_ones(v, 0) =~= Set::<int>::empty());
    } else {
        lemma_count_set_is_len(v, (n - 1) as nat);
        if raw_bit(v, (n - 1) as u64) {
            assert(raw_ones(v, n as int) =~= raw_ones(v, n - 1).insert(n - 1));
        } else {
            assert(raw_ones(v, n as int) =~= raw_ones(v, n - 1));
        }
    }
}

/// In the flat sequence, one element holds as many set bits as its value has,
/// whatever the ordering, and the rest of its bits are clear.
pub proof fn lemma_tally_elt<C: Cursor, T: BitStore>(store: Seq<T>, e: int)
    requires
        0 <= e < store.len(),
    ensures
        tally(flat::<C, T>(store), e * T::BITS, e * T::BITS + T::BITS, true) == count_set(
            store[e].raw(),
            T::BITS as nat,
        ),
        tally(flat::<C, T>(store), e * T::BITS, e * T::BITS + T::BITS, false) == T::BITS
            - count_set(store[e].raw(), T::BITS as nat),
{
    T::lemma_width();
    let w = T::BITS as int;
    let base = e * w;
    let bits = flat::<C, T>(store);
    let v = store[e].raw();
    C::lemma_permutation(w);
    lemma_flat_elt::<C, T>(store, e);
    lemma_tally_bound(bits, base, base + w, true);
    lemma_tally_sum(bits, base, base + w);
    lemma_count_set_is_len(v, w as nat);
    let here = hits(bits, base, base + w, true);
    let there = raw_ones(v, w);
    let f = |k: int| C::position(k - base, w);
    assert forall|q: int| there.contains(q) implies here.map(f).contains(q) by {
        let k = base + C::place_of(q, w);
        assert(bits[k] == bit_of::<C, T>(store[e], k - base));
        assert(here.contains(k) && f(k) == q);
    }
    assert forall|q: int| here.map(f).contains(q) implies there.contains(q) by {
        let k = choose|k: int| here.contains(k) && f(k) == q;
        assert(bits[k] == bit_of::<C, T>(store[e], k - base));
    }
    assert(here.map(f) =~= there);
    assert(vstd::relations::injective_on(f, here)) by {
        assert forall|x: int, y: int| here.contains(x) && here.contains(y) && f(x) == f(
            y,
        ) implies x == y by {
            assert(C::place_of(C::position(x - base, w), w) == x - base);
            assert(C::place_of(C::position(y - base, w), w) == y - base);
        }
    }
    lemma_map_size(here, there, f);
}

/// The tally of a span is that of the flat sequence from the start of the span
/// to its end.
pub proof fn lemma_tally_span<C: Cursor, T: BitStore>(span: BitSpan, store: Seq<T>, value: bool)
    requires
        0 <= span.len,
    ensures
        tally(span.bits::<C, T>(store), 0, span.len, value) == tally(
            flat::<C, T>(store),
            span.start::<T>(),
            span.end::<T>(),
            value,
        ),
{
    lemma_tally_shift(
        span.bits::<C, T>(store),
        flat::<C, T>(store),
        0,
        span.len,
        span.start::<T>(),
        value,
    );
}

} // verus!
