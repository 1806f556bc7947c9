//! Work on one part of a domain: an edge, bit by bit through alias-safe
//! access, or a body, one whole element at a time.

use crate::bits::{filled, lemma_count_bound};
use crate::count::{
    lemma_tally_elt, lemma_tally_empty, lemma_tally_split, lemma_tally_step, tally,
};
use crate::cursor::Cursor;
use crate::model::{
    flat, inverted, lemma_cell, lemma_flat_elt, lemma_flat_update, lemma_scale, same_outside,
    uniform,
};
use crate::nucleus::BitAccess;
use crate::store::{bit_of, lemma_complement, lemma_uniform, BitStore};
use vstd::prelude::*;

verus! {

/// Tells whether every bit from place `from` up to place `to` of element `elt`
/// is `value`.
pub fn edge_uniform<C: Cursor, T: BitAccess>(
    store: &[T],
    elt: usize,
    from: u8,
    to: u8,
    value: bool,
) -> (b: bool)
    requires
        elt < store@.len(),
        from <= to <= T::BITS,
    ensures
        b == uniform(flat::<C, T>(store@), elt * T::BITS + from, elt * T::BITS + to, value),
{
    proof {
        lemma_flat_elt::<C, T>(store@, elt as int);
    }
    let mut place = from;
    while place < to
        invariant
            elt < store@.len(),
            from <= place <= to <= T::BITS,
            uniform(flat::<C, T>(store@), elt * T::BITS + from, elt * T::BITS + place, value),
            forall|k: int|
                elt * T::BITS <= k < elt * T::BITS + T::BITS ==> #[trigger] flat::<C, T>(store@)[k]
                    == bit_of::<C, T>(store@[elt as int], k - elt * T::BITS),
        decreases to - place,
    {
        if BitAccess::get::<C>(&store[elt], place) != value {
            assert(flat::<C, T>(store@)[elt * T::BITS + place] != value);
            return false;
        }
        assert(flat::<C, T>(store@)[elt * T::BITS + place] == value);
        place += 1;
    }
    true
}

/// Tells whether every bit of the elements `start` up to `end` is `value`.
pub fn body_uniform<C: Cursor, T: BitAccess>(
    store: &[T],
    start: usize,
    end: usize,
    value: bool,
) -> (b: bool)
    requires
        start <= end <= store@.len(),
    ensures
        b == uniform(flat::<C, T>(store@), start * T::BITS, end * T::BITS, value),
{
    let full = T::bits(value).into_raw();
    let mut elt = start;
    proof {
        T::lemma_width();
    }
    while elt < end
        invariant
            start <= elt <= end <= store@.len(),
            full == filled(value, T::BITS as u64),
            uniform(flat::<C, T>(store@), start * T::BITS, elt * T::BITS, value),
        decreases end - elt,
    {
        proof {
            T::lemma_width();
            lemma_flat_elt::<C, T>(store@, elt as int);
            lemma_uniform::<C, T>(store@[elt as int]);
            lemma_cell(elt as int, 0, T::BITS as int);
            lemma_scale(start as int, elt as int, T::BITS as int);
        }
        if store[elt].load().into_raw() != full {
            proof {
                let p = choose|p: int|
                    0 <= p < T::BITS && #[trigger] bit_of::<C, T>(
                        store@[elt as int],
                        p,
                    ) != value;
                assert(flat::<C, T>(store@)[elt * T::BITS + p] != value);
                lemma_scale(elt as int + 1, end as int, T::BITS as int);
            }
            return false;
        }
        elt += 1;
    }
    true
}

/// Sets every bit from place `from` up to place `to` of element `elt` to
/// `value`, each through alias-safe access, and changes no other bit.
pub fn edge_fill<C: Cursor, T: BitAccess>(
    store: &mut [T],
    elt: usize,
    from: u8,
    to: u8,
    value: bool,
)
    requires
        elt < old(store)@.len(),
        from <= to <= T::BITS,
    ensures
        uniform(flat::<C, T>(final(store)@), elt * T::BITS + from, elt * T::BITS + to, value),
        same_outside(
            flat::<C, T>(old(store)@),
            flat::<C, T>(final(store)@),
            elt * T::BITS + from,
            elt * T::BITS + to,
        ),
        final(store)@.len() == old(store)@.len(),
{
    let mut place = from;
    while place < to
        invariant
            elt < store@.len(),
            store@.len() == old(store)@.len(),
            from <= place <= to <= T::BITS,
            uniform(flat::<C, T>(store@), elt * T::BITS + from, elt * T::BITS + place, value),
            same_outside(
                flat::<C, T>(old(store)@),
                flat::<C, T>(store@),
                elt * T::BITS + from,
                elt * T::BITS + place,
            ),
        decreases to - place,
    {
        let ghost before = store@;
        BitAccess::set::<C>(&mut store[elt], place, value);
        proof {
            T::lemma_width();
            assert(store@.len() == before.len());
            assert(store@ =~= before.update(elt as int, store@[elt as int]));
            lemma_flat_elt::<C, T>(before, elt as int);
            lemma_flat_update::<C, T>(before, elt as int, store@[elt as int]);
            let base = elt * T::BITS;
            assert forall|k: int| base <= k < base + T::BITS implies #[trigger] flat::<C, T>(
                store@,
            )[k] == (if k == base + place {
                value
            } else {
                flat::<C, T>(before)[k]
            }) by {
                let p = k - base;
                assert(bit_of::<C, T>(store@[elt as int], p) == (if p == place {
                    value
                } else {
                    bit_of::<C, T>(before[elt as int], p)
                }));
            }
        }
        place += 1;
    }
}

/// Sets every bit of the elements `start` up to `end` to `value`, one store for
/// each element, and changes no other bit.
pub fn body_fill<C: Cursor, T: BitAccess>(store: &mut [T], start: usize, end: usize, value: bool)
    requires
        start <= end <= old(store)@.len(),
    ensures
        uniform(flat::<C, T>(final(store)@), start * T::BITS, end * T::BITS, value),
        same_outside(
            flat::<C, T>(old(store)@),
            flat::<C, T>(final(store)@),
            start * T::BITS,
            end * T::BITS,
        ),
        final(store)@.len() == old(store)@.len(),
{
    let full = T::bits(value);
    let mut elt = start;
    while elt < end
        invariant
            start <= elt <= end <= store@.len(),
            store@.len() == old(store)@.len(),
            full.raw() == filled(value, T::BITS as u64),
            uniform(flat::<C, T>(store@), start * T::BITS, elt * T::BITS, value),
            same_outside(
                flat::<C, T>(old(store)@),
                flat::<C, T>(store@),
                start * T::BITS,
                elt * T::BITS,
            ),
        decreases end - elt,
    {
        let ghost before = store@;
        BitAccess::store(&mut store[elt], full);
        proof {
            T::lemma_width();
            lemma_uniform::<C, T>(full);
            assert(store@ =~= before.update(elt as int, full));
            lemma_flat_elt::<C, T>(before, elt as int);
            lemma_flat_update::<C, T>(before, elt as int, full);
            lemma_scale(0, start as int, T::BITS as int);
            lemma_cell(elt as int, 0, T::BITS as int);
            lemma_scale(start as int, elt as int, T::BITS as int);
            let base = elt * T::BITS;
            assert forall|k: int| base <= k < base + T::BITS implies #[trigger] flat::<C, T>(
                store@,
            )[k] == value by {
                assert(bit_of::<C, T>(full, k - base) == value);
            }
        }
        elt += 1;
    }
}

/// Reads the bit at `place` of element `elt`.
pub fn peek<C: Cursor, T: BitAccess>(store: &[T], elt: usize, place: u8) -> (bit: bool)
    requires
        elt < store@.len(),
        place < T::BITS,
    ensures
        bit == flat::<C, T>(store@)[elt * T::BITS + place],
{
    proof {
        lemma_flat_elt::<C, T>(store@, elt as int);
    }
    BitAccess::get::<C>(&store[elt], place)
}

/// Sets the bit at `place` of element `elt` to `value`, and changes no other bit.
pub fn poke<C: Cursor, T: BitAccess>(store: &mut [T], elt: usize, place: u8, value: bool)
    requires
        elt < old(store)@.len(),
        place < T::BITS,
    ensures
        final(store)@.len() == old(store)@.len(),
        flat::<C, T>(final(store)@) == flat::<C, T>(old(store)@).update(
            elt * T::BITS + place,
            value,
        ),
{
    let ghost before = store@;
    BitAccess::set::<C>(&mut store[elt], place, value);
    proof {
        T::lemma_width();
        assert(store@ =~= before.update(elt as int, store@[elt as int]));
        lemma_flat_elt::<C, T>(before, elt as int);
        lemma_flat_update::<C, T>(before, elt as int, store@[elt as int]);
        let base = elt * T::BITS;
        let goal = flat::<C, T>(before).update(base + place, value);
        assert forall|k: int| 0 <= k < goal.len() implies flat::<C, T>(store@)[k] == goal[k] by {
            if base <= k < base + T::BITS {
                let p = k - base;
                assert(bit_of::<C, T>(store@[elt as int], p) == (if p == place {
                    value
                } else {
                    bit_of::<C, T>(before[elt as int], p)
                }));
            }
        }
        assert(flat::<C, T>(store@) =~= goal);
    }
}

/// Counts the bits from place `from` up to place `to` of element `elt` that
/// equal `value`.
pub fn edge_count<C: Cursor, T: BitAccess>(
    store: &[T],
    elt: usize,
    from: u8,
    to: u8,
    value: bool,
) -> (n: usize)
    requires
        elt < store@.len(),
        from <= to <= T::BITS,
    ensures
        n == tally(flat::<C, T>(store@), elt * T::BITS + from, elt * T::BITS + to, value),
{
    let mut n: usize = 0;
    let mut place = from;
    proof {
        lemma_tally_empty(flat::<C, T>(store@), elt * T::BITS + from, value);
    }
    while place < to
        invariant
            elt < store@.len(),
            from <= place <= to <= T::BITS,
            n == tally(flat::<C, T>(store@), elt * T::BITS + from, elt * T::BITS + place, value),
            n <= place - from,
        decreases to - place,
    {
        proof {
            lemma_tally_step(
                flat::<C, T>(store@),
                elt * T::BITS + from,
                elt * T::BITS + place,
                value,
            );
        }
        if peek::<C, T>(store, elt, place) == value {
            n += 1;
        }
        place += 1;
    }
    n
}

/// Counts the bits of the elements `start` up to `end` that equal `value`, by
/// the population count of each element.
pub fn body_count<C: Cursor, T: BitAccess>(
    store: &[T],
    start: usize,
    end: usize,
    value: bool,
) -> (n: usize)
    requires
        start <= end <= store@.len(),
        (end - start) * T::BITS <= usize::MAX,
    ensures
        n == tally(flat::<C, T>(store@), start * T::BITS, end * T::BITS, value),
{
    let mut n: usize = 0;
    let mut elt = start;
    proof {
        lemma_tally_empty(flat::<C, T>(store@), start * T::BITS, value);
    }
    while elt < end
        invariant
            start <= elt <= end <= store@.len(),
            (end - start) * T::BITS <= usize::MAX,
            n == tally(flat::<C, T>(store@), start * T::BITS, elt * T::BITS, value),
            n <= (elt - start) * T::BITS,
        decreases end - elt,
    {
        proof {
            T::lemma_width();
            let w = T::BITS as int;
            let bits = flat::<C, T>(store@);
            lemma_cell(elt as int, 0, w);
            lemma_scale(start as int, elt as int, w);
            lemma_scale(elt as int + 1, end as int, w);
            lemma_scale(start as int, end as int, w);
            lemma_scale(start as int, elt as int + 1, w);
            lemma_tally_elt::<C, T>(store@, elt as int);
            lemma_tally_split(bits, start * w, elt * w, elt * w + w, value);
            lemma_count_bound(store@[elt as int].raw(), w as nat);
        }
        let loaded = store[elt].load();
        let found = if value {
            BitStore::count_ones(&loaded)
        } else {
            BitStore::count_zeros(&loaded)
        };
        n += found;
        elt += 1;
    }
    n
}

/// Inverts every bit from place `from` up to place `to` of element `elt`, each
/// through alias-safe access, and changes no other bit.
pub fn edge_invert<C: Cursor, T: BitAccess>(store: &mut [T], elt: usize, from: u8, to: u8)
    requires
        elt < old(store)@.len(),
        from <= to <= T::BITS,
    ensures
        inverted(
            flat::<C, T>(old(store)@),
            flat::<C, T>(final(store)@),
            elt * T::BITS + from,
            elt * T::BITS + to,
        ),
        same_outside(
            flat::<C, T>(old(store)@),
            flat::<C, T>(final(store)@),
            elt * T::BITS + from,
            elt * T::BITS + to,
        ),
        final(store)@.len() == old(store)@.len(),
{
    let mut place = from;
    proof {
        lemma_flat_elt::<C, T>(store@, elt as int);
    }
    while place < to
        invariant
            elt < store@.len(),
            store@.len() == old(store)@.len(),
            from <= place <= to <= T::BITS,
            0 <= elt * T::BITS,
            elt * T::BITS + T::BITS <= flat::<C, T>(old(store)@).len(),
            inverted(
                flat::<C, T>(old(store)@),
                flat::<C, T>(store@),
                elt * T::BITS + from,
                elt * T::BITS + place,
            ),
            same_outside(
                flat::<C, T>(old(store)@),
                flat::<C, T>(store@),
                elt * T::BITS + from,
                elt * T::BITS + place,
            ),
        decreases to - place,
    {
        let ghost before = store@;
        BitAccess::invert_bit::<C>(&mut store[elt], place);
        proof {
            T::lemma_width();
            assert(store@ =~= before.update(elt as int, store@[elt as int]));
            lemma_flat_elt::<C, T>(before, elt as int);
            lemma_flat_update::<C, T>(before, elt as int, store@[elt as int]);
            let base = elt * T::BITS;
            assert forall|k: int| base <= k < base + T::BITS implies #[trigger] flat::<C, T>(
                store@,
            )[k] == (if k == base + place {
                !flat::<C, T>(before)[k]
            } else {
                flat::<C, T>(before)[k]
            }) by {
                let p = k - base;
                assert(bit_of::<C, T>(store@[elt as int], p) == (
                bit_of::<C, T>(before[elt as int], p) != (p == place)));
            }
        }
        place += 1;
    }
}

/// Inverts every bit of the elements `start` up to `end`, one load and one
/// store for each element, and changes no other bit.
pub fn body_invert<C: Cursor, T: BitAccess>(store: &mut [T], start: usize, end: usize)
    requires
        start <= end <= old(store)@.len(),
    ensures
        inverted(
            flat::<C, T>(old(store)@),
            flat::<C, T>(final(store)@),
            start * T::BITS,
            end * T::BITS,
        ),
        same_outside(
            flat::<C, T>(old(store)@),
            flat::<C, T>(final(store)@),
            start * T::BITS,
            end * T::BITS,
        ),
        final(store)@.len() == old(store)@.len(),
{
    let mut elt = start;
    while elt < end
        invariant
            start <= elt <= end <= store@.len(),
            store@.len() == old(store)@.len(),
            inverted(
                flat::<C, T>(old(store)@),
                flat::<C, T>(store@),
                start * T::BITS,
                elt * T::BITS,
            ),
            same_outside(
                flat::<C, T>(old(store)@),
                flat::<C, T>(store@),
                start * T::BITS,
                elt * T::BITS,
            ),
        decreases end - elt,
    {
        let ghost before = store@;
        let flipped = store[elt].load().complement();
        BitAccess::store(&mut store[elt], flipped);
        proof {
            T::lemma_width();
            assert(store@ =~= before.update(elt as int, flipped));
            lemma_complement::<C, T>(before[elt as int], flipped);
            lemma_flat_elt::<C, T>(before, elt as int);
            lemma_flat_update::<C, T>(before, elt as int, flipped);
            lemma_cell(elt as int, 0, T::BITS as int);
            lemma_scale(start as int, elt as int, T::BITS as int);
            lemma_scale(0, start as int, T::BITS as int);
            let base = elt * T::BITS;
            assert forall|k: int| base <= k < base + T::BITS implies #[trigger] flat::<C, T>(
                store@,
            )[k] == !flat::<C, T>(before)[k] by {
                assert(bit_of::<C, T>(flipped, k - base) == !bit_of::<
                    C,
                    T,
                >(before[elt as int], k - base));
            }
        }
        elt += 1;
    }
}

} // verus!
