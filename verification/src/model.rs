//! The buffer read as one sequence of bits.
//!
//! Under an ordering `C`, a buffer of `n` elements of width `W` is the sequence
//! of `n * W` bits in which bit `e * W + p` is the bit that place `p` names in
//! element `e`. Views, and what operations do to them, are stated over it.

use crate::cursor::Cursor;
use crate::store::{bit_of, lemma_same_places, BitStore};
use vstd::arithmetic::div_mod::{lemma_fundamental_div_mod, lemma_fundamental_div_mod_converse};
use vstd::prelude::*;

verus! {

/// The bits of `store`, element after element, each in the order of `C`.
pub open spec fn flat<C: Cursor, T: BitStore>(store: Seq<T>) -> Seq<bool> {
    Seq::new(
        (store.len() * T::BITS) as nat,
        |k: int| bit_of::<C, T>(store[k / (T::BITS as int)], k % (T::BITS as int)),
    )
}

/// Bit `p` of element `e` sits at `e * w + p`, and nothing else does.
pub proof fn lemma_cell(e: int, p: int, w: int)
    requires
        0 <= e,
        0 <= p < w,
    ensures
        0 <= e * w <= e * w + p < (e + 1) * w,
        (e + 1) * w == e * w + w,
        (e * w + p) / w == e,
        (e * w + p) % w == p,
{
    assert(0 <= e * w) by (nonlinear_arith)
        requires
            0 <= e,
            0 < w,
    ;
    assert((e + 1) * w == e * w + w) by (nonlinear_arith);
    lemma_fundamental_div_mod_converse(e * w + p, w, e, p);
}

/// Every position of the flat sequence is one place of one element.
pub proof fn lemma_position(k: int, n: int, w: int)
    requires
        0 < w,
        0 <= k < n * w,
    ensures
        0 <= k / w < n,
        0 <= k % w < w,
        k == (k / w) * w + k % w,
{
    lemma_fundamental_div_mod(k, w);
    assert(k == w * (k / w) + k % w);
    assert(w * (k / w) == (k / w) * w) by (nonlinear_arith);
    assert(0 <= k / w < n) by (nonlinear_arith)
        requires
            0 < w,
            0 <= k < n * w,
            k == (k / w) * w + k % w,
            0 <= k % w < w,
    ;
}

/// Multiplying by the width keeps order.
pub proof fn lemma_scale(a: int, b: int, w: int)
    requires
        0 < w,
        a <= b,
    ensures
        a * w <= b * w,
        (b - a) * w == b * w - a * w,
        a < b ==> a * w + w <= b * w,
{
    assert(a * w <= b * w) by (nonlinear_arith)
        requires
            0 < w,
            a <= b,
    ;
    assert((b - a) * w == b * w - a * w) by (nonlinear_arith);
    assert(a < b ==> a * w + w <= b * w) by (nonlinear_arith)
        requires
            0 < w,
            a <= b,
    ;
}

/// The bits of element `e` lie from `e * W` up to `e * W + W`, place by place.
pub proof fn lemma_flat_elt<C: Cursor, T: BitStore>(store: Seq<T>, e: int)
    requires
        0 <= e < store.len(),
    ensures
        flat::<C, T>(store).len() == store.len() * T::BITS,
        0 <= e * T::BITS,
        e * T::BITS + T::BITS <= flat::<C, T>(store).len(),
        forall|k: int|
            e * T::BITS <= k < e * T::BITS + T::BITS ==> #[trigger] flat::<C, T>(store)[k]
                == bit_of::<C, T>(store[e], k - e * T::BITS),
{
    T::lemma_width();
    let w = T::BITS as int;
    lemma_cell(e, 0, w);
    lemma_scale(e + 1, store.len() as int, w);
    assert forall|k: int| e * w <= k < e * w + w implies #[trigger] flat::<C, T>(store)[k]
        == bit_of::<C, T>(store[e], k - e * w) by {
        lemma_cell(e, k - e * w, w);
    }
}

/// Replacing element `e` changes the bits of that element and no others.
pub proof fn lemma_flat_update<C: Cursor, T: BitStore>(store: Seq<T>, e: int, elt: T)
    requires
        0 <= e < store.len(),
    ensures
        flat::<C, T>(store.update(e, elt)).len() == flat::<C, T>(store).len(),
        forall|k: int|
            0 <= k < flat::<C, T>(store).len() && !(e * T::BITS <= k < e * T::BITS + T::BITS)
                ==> #[trigger] flat::<C, T>(store.update(e, elt))[k] == flat::<C, T>(store)[k],
        forall|k: int|
            e * T::BITS <= k < e * T::BITS + T::BITS ==> #[trigger] flat::<C, T>(
                store.update(e, elt),
            )[k] == bit_of::<C, T>(elt, k - e * T::BITS),
{
    T::lemma_width();
    let w = T::BITS as int;
    let n = store.len() as int;
    assert forall|k: int|
        0 <= k < flat::<C, T>(store).len() && !(e * w <= k < e * w + w) implies #[trigger] flat::<
        C,
        T,
    >(store.update(e, elt))[k] == flat::<C, T>(store)[k] by {
        lemma_position(k, n, w);
        if k / w == e {
            lemma_cell(e, k % w, w);
        }
    }
    lemma_flat_elt::<C, T>(store.update(e, elt), e);
}

/// Every bit from `from` up to `to` is `value`.
pub open spec fn uniform(bits: Seq<bool>, from: int, to: int, value: bool) -> bool {
    forall|k: int| from <= k < to ==> #[trigger] bits[k] == value
}

/// `after` is as long as `before` and agrees with it everywhere but from `from`
/// up to `to`.
pub open spec fn same_outside(before: Seq<bool>, after: Seq<bool>, from: int, to: int) -> bool {
    &&& after.len() == before.len()
    &&& forall|k: int|
        0 <= k < before.len() && !(from <= k < to) ==> #[trigger] after[k] == before[k]
}

/// From `from` up to `to`, each bit of `after` is the inverse of that bit of `before`.
pub open spec fn inverted(before: Seq<bool>, after: Seq<bool>, from: int, to: int) -> bool {
    forall|k: int| from <= k < to ==> #[trigger] after[k] == !before[k]
}

/// Every bit of the sequence is set.
pub open spec fn all_set(bits: Seq<bool>) -> bool {
    forall|i: int| 0 <= i < bits.len() ==> #[trigger] bits[i]
}

/// Some bit of the sequence is set.
pub open spec fn any_set(bits: Seq<bool>) -> bool {
    exists|i: int| 0 <= i < bits.len() && #[trigger] bits[i]
}

/// Where the elements `a` up to `b` of `after` are the elements of `before`
/// that lie `d` elements further on, the bits of those elements are the bits of
/// `before` that lie `d` times the width further on.
pub proof fn lemma_flat_moved<C: Cursor, T: BitStore>(
    before: Seq<T>,
    after: Seq<T>,
    a: int,
    b: int,
    d: int,
)
    requires
        after.len() == before.len(),
        0 <= a <= b <= after.len(),
        0 <= a + d,
        b + d <= before.len(),
        forall|e: int| a <= e < b ==> after[e] == before[e + d],
    ensures
        flat::<C, T>(after).len() == flat::<C, T>(before).len(),
        0 <= a * T::BITS <= b * T::BITS <= flat::<C, T>(after).len(),
        forall|k: int|
            a * T::BITS <= k < b * T::BITS ==> #[trigger] flat::<C, T>(after)[k] == flat::<C, T>(
                before,
            )[k + d * T::BITS],
{
    T::lemma_width();
    let w = T::BITS as int;
    lemma_scale(0, a, w);
    lemma_scale(a, b, w);
    lemma_scale(b, after.len() as int, w);
    assert forall|k: int| a * w <= k < b * w implies #[trigger] flat::<C, T>(after)[k] == flat::<
        C,
        T,
    >(before)[k + d * w] by {
        lemma_position(k, after.len() as int, w);
        let e = k / w;
        let p = k % w;
        if e < a {
            lemma_scale(e + 1, a, w);
        }
        if e >= b {
            lemma_scale(b, e, w);
        }
        lemma_cell(e + d, p, w);
        assert((e + d) * w == e * w + d * w) by (nonlinear_arith);
        lemma_scale(e + d + 1, before.len() as int, w);
    }
}

/// Buffers of one length that read as the same sequence of bits are the same
/// buffer.
pub proof fn lemma_flat_injective<C: Cursor, T: BitStore>(a: Seq<T>, b: Seq<T>)
    requires
        a.len() == b.len(),
        flat::<C, T>(a) == flat::<C, T>(b),
    ensures
        a == b,
{
    assert forall|e: int| 0 <= e < a.len() implies a[e] == b[e] by {
        lemma_flat_elt::<C, T>(a, e);
        lemma_flat_elt::<C, T>(b, e);
        assert forall|p: int| 0 <= p < T::BITS implies bit_of::<C, T>(a[e], p) == bit_of::<C, T>(
            b[e],
            p,
        ) by {
            let k = e * T::BITS + p;
            assert(flat::<C, T>(a)[k] == bit_of::<C, T>(a[e], k - e * T::BITS));
            assert(flat::<C, T>(b)[k] == bit_of::<C, T>(b[e], k - e * T::BITS));
        }
        lemma_same_places::<C, T>(a[e], b[e]);
    }
    assert(a =~= b);
}

/// Of no bits, all are set and none is.
pub proof fn lemma_empty_queries(bits: Seq<bool>)
    requires
        bits.len() == 0,
    ensures
        all_set(bits),
        !any_set(bits),
        !(any_set(bits) && !all_set(bits)),
{
}

} // verus!
