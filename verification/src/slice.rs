//! Bit views and the operations on them.

use crate::count::{
    count_ones, count_zeros, lemma_tally_bound, lemma_tally_empty, lemma_tally_span,
    lemma_tally_split, tally,
};
use crate::cursor::Cursor;
use crate::domain::{lemma_domain_ranges, BitDomain};
use crate::error::BitError;
use crate::model::{all_set, any_set, flat, lemma_flat_injective, lemma_scale};
use crate::nucleus::BitAccess;
use crate::parts::{
    body_count, body_fill, body_uniform, edge_count, edge_fill, edge_uniform, peek, poke,
};
use crate::pointer::{
    lemma_bits_uniform, lemma_locate, lemma_whole_valid, offset, valid_parts, BitPtr, BitSpan,
    MAX_BITS,
};
use core::marker::PhantomData;
use vstd::arithmetic::div_mod::lemma_fundamental_div_mod;
use vstd::prelude::*;

verus! {

/// A view of a run of bits in a buffer of elements of `T`, read in the order `C`.
///
/// A view is a value: the address of its first bit and its length. It borrows
/// nothing. Each operation takes the buffer, which the span of the view must lie
/// inside (`within`), and touches no bit of the buffer outside the span.
pub struct BitSlice<C: Cursor, T: BitAccess> {
    ptr: BitPtr<T>,
    _order: PhantomData<C>,
}

impl<C: Cursor, T: BitAccess> Clone for BitSlice<C, T> {
    fn clone(&self) -> (out: Self)
        ensures
            out == *self,
    {
        proof {
            use_type_invariant(self);
        }
        BitSlice { ptr: self.ptr, _order: PhantomData }
    }
}

impl<C: Cursor, T: BitAccess> Copy for BitSlice<C, T> {

}

impl<C: Cursor, T: BitAccess> View for BitSlice<C, T> {
    type V = BitSpan;

    closed spec fn view(&self) -> BitSpan {
        self.ptr@
    }
}

impl<C: Cursor, T: BitAccess> BitSlice<C, T> {
    /// The view holds an address.
    #[verifier::type_invariant]
    pub closed spec fn wf(&self) -> bool {
        valid_parts::<T>(self.ptr@.base, self.ptr@.head, self.ptr@.len)
    }

    /// What holds of every view: the parts of its span make an address.
    pub proof fn lemma_valid(&self)
        requires
            self.wf(),
        ensures
            valid_parts::<T>(self@.base, self@.head, self@.len),
    {
    }

    /// The span of the view lies inside `store`.
    pub open spec fn within(&self, store: Seq<T>) -> bool {
        self@.within::<T>(store.len() as int)
    }

    /// The bits of the view in `store`, first to last.
    pub open spec fn bits(&self, store: Seq<T>) -> Seq<bool> {
        self@.bits::<C, T>(store)
    }

    /// `after` has the length of `before` and holds, outside the view, the bits
    /// of `before`.
    pub open spec fn frames(&self, before: Seq<T>, after: Seq<T>) -> bool {
        self@.frames::<C, T>(before, after)
    }

    /// The view of no bits.
    pub fn empty() -> (slice: Self)
        ensures
            slice@ == (BitSpan { base: 0, head: 0, len: 0 }),
    {
        Self::from_ptr(BitPtr::empty())
    }

    /// The view of no bits, for writing.
    pub fn empty_mut() -> (slice: Self)
        ensures
            slice@ == (BitSpan { base: 0, head: 0, len: 0 }),
    {
        Self::empty()
    }

    /// The view of every bit of a buffer that holds `elt` alone.
    pub fn from_element(elt: &T) -> (slice: Self)
        ensures
            slice@ == (BitSpan { base: 0, head: 0, len: T::BITS as int }),
    {
        proof {
            T::lemma_width();
            lemma_whole_valid::<T>(1);
        }
        Self::from_ptr(BitPtr::new_unchecked(0, 0, T::BITS as usize))
    }

    /// The view of every bit of a buffer that holds `elt` alone, for writing.
    pub fn from_element_mut(elt: &mut T) -> (slice: Self)
        ensures
            slice@ == (BitSpan { base: 0, head: 0, len: T::BITS as int }),
            *final(elt) == *old(elt),
    {
        proof {
            T::lemma_width();
            lemma_whole_valid::<T>(1);
        }
        Self::from_ptr(BitPtr::new_unchecked(0, 0, T::BITS as usize))
    }

    /// The view of every bit of `slice`, or `CapacityExceeded` if the buffer
    /// holds more bits than a view can.
    pub fn from_slice(slice: &[T]) -> (res: Result<Self, BitError>)
        ensures
            res is Ok <==> slice@.len() * T::BITS <= MAX_BITS,
            res is Ok ==> res->Ok_0@ == (BitSpan {
                base: 0,
                head: 0,
                len: slice@.len() * T::BITS,
            }),
            res is Ok ==> res->Ok_0.within(slice@),
            res is Err ==> res->Err_0 == BitError::CapacityExceeded,
    {
        proof {
            T::lemma_width();
        }
        let len = slice.len();
        let width = T::BITS as usize;
        proof {
            let limit = MAX_BITS as int / width as int;
            lemma_fundamental_div_mod(MAX_BITS as int, width as int);
            assert(len <= limit <==> len * width <= MAX_BITS) by (nonlinear_arith)
                requires
                    0 <= len,
                    0 < width,
                    MAX_BITS as int == width * limit + (MAX_BITS as int) % (width as int),
                    0 <= (MAX_BITS as int) % (width as int) < width,
            ;
        }
        if len > MAX_BITS / width {
            return Err(BitError::CapacityExceeded);
        }
        proof {
            lemma_whole_valid::<T>(len as int);
        }
        Ok(Self::from_ptr(BitPtr::new_unchecked(0, 0, len * width)))
    }

    /// The view of every bit of `slice`, for writing, or `CapacityExceeded` if
    /// the buffer holds more bits than a view can.
    pub fn from_slice_mut(slice: &mut [T]) -> (res: Result<Self, BitError>)
        ensures
            res is Ok <==> old(slice)@.len() * T::BITS <= MAX_BITS,
            res is Ok ==> res->Ok_0@ == (BitSpan {
                base: 0,
                head: 0,
                len: old(slice)@.len() * T::BITS,
            }),
            res is Ok ==> res->Ok_0.within(old(slice)@),
            res is Err ==> res->Err_0 == BitError::CapacityExceeded,
            final(slice)@ == old(slice)@,
    {
        Self::from_slice(slice)
    }

    /// The view at the address `ptr`.
    pub fn from_ptr(ptr: BitPtr<T>) -> (slice: Self)
        ensures
            slice@ == ptr@,
    {
        proof {
            use_type_invariant(&ptr);
            ptr.lemma_wf();
        }
        BitSlice { ptr, _order: PhantomData }
    }

    /// The address of the view.
    pub fn bitptr(&self) -> (ptr: BitPtr<T>)
        ensures
            ptr@ == self@,
            valid_parts::<T>(self@.base, self@.head, self@.len),
    {
        proof {
            use_type_invariant(&self.ptr);
            self.ptr.lemma_wf();
        }
        self.ptr
    }

    /// The number of bits in the view.
    pub fn len(&self) -> (len: usize)
        ensures
            len == self@.len,
    {
        self.ptr.len()
    }

    /// Tells whether the view holds no bits.
    pub fn is_empty(&self) -> (b: bool)
        ensures
            b == (self@.len == 0),
    {
        self.ptr.len() == 0
    }

    /// Tells whether the span of the view lies inside `store`.
    pub fn fits(&self, store: &[T]) -> (ok: bool)
        ensures
            ok == self.within(store@),
    {
        self.ptr.fits(store.len())
    }

    /// Reads the bit at `index`, which the caller knows to be in the view.
    pub fn get_unchecked(&self, store: &[T], index: usize) -> (bit: bool)
        requires
            self.within(store@),
            index < self@.len,
        ensures
            bit == self.bits(store@)[index as int],
    {
        proof {
            use_type_invariant(&self.ptr);
            self.ptr.lemma_wf();
        }
        let (elt, place) = offset::<T>(self.ptr.head(), index as isize);
        proof {
            lemma_locate::<T>(self@, store@.len() as int, index as int, elt as int, place as int);
            assert(store@.len() == store.len());
        }
        peek::<C, T>(store, self.ptr.base() + elt as usize, place)
    }

    /// Reads the bit at `index`, or nothing if the view has no such bit.
    pub fn get(&self, store: &[T], index: usize) -> (bit: Option<bool>)
        requires
            self.within(store@),
        ensures
            bit == if index < self@.len {
                Some(self.bits(store@)[index as int])
            } else {
                None
            },
    {
        if index < self.len() {
            Some(self.get_unchecked(store, index))
        } else {
            None
        }
    }

    /// Reads the bit at `index`, or reports `IndexOutOfRange` if the view has
    /// no such bit.
    pub fn index(&self, store: &[T], index: usize) -> (res: Result<bool, BitError>)
        requires
            self.within(store@),
        ensures
            res == if index < self@.len {
                Ok::<bool, BitError>(self.bits(store@)[index as int])
            } else {
                Err::<bool, BitError>(BitError::IndexOutOfRange)
            },
    {
        if index < self.len() {
            Ok(self.get_unchecked(store, index))
        } else {
            Err(BitError::IndexOutOfRange)
        }
    }

    /// Sets the bit at `index`, which the caller knows to be in the view, to
    /// `value`.
    pub fn set_unchecked(&self, store: &mut [T], index: usize, value: bool)
        requires
            self.within(old(store)@),
            index < self@.len,
        ensures
            self.bits(final(store)@) == self.bits(old(store)@).update(index as int, value),
            self.frames(old(store)@, final(store)@),
    {
        proof {
            use_type_invariant(&self.ptr);
            self.ptr.lemma_wf();
        }
        let (elt, place) = offset::<T>(self.ptr.head(), index as isize);
        proof {
            lemma_locate::<T>(self@, store@.len() as int, index as int, elt as int, place as int);
            assert(store@.len() == store.len());
        }
        poke::<C, T>(store, self.ptr.base() + elt as usize, place, value);
        proof {
            assert(self.bits(store@) =~= self.bits(old(store)@).update(index as int, value));
        }
    }

    /// Sets the bit at `index` to `value`, or reports `IndexOutOfRange` and
    /// leaves the buffer as it was if the view has no such bit.
    pub fn set(&self, store: &mut [T], index: usize, value: bool) -> (res: Result<(), BitError>)
        requires
            self.within(old(store)@),
        ensures
            index < self@.len ==> res is Ok && self.bits(final(store)@) == self.bits(
                old(store)@,
            ).update(index as int, value) && self.frames(old(store)@, final(store)@),
            index >= self@.len ==> res == Err::<(), BitError>(BitError::IndexOutOfRange)
                && final(store)@ == old(store)@,
    {
        if index < self.len() {
            self.set_unchecked(store, index, value);
            Ok(())
        } else {
            Err(BitError::IndexOutOfRange)
        }
    }

    /// Tells whether every bit of the view is set. It is so of the empty view.
    pub fn all(&self, store: &[T]) -> (b: bool)
        requires
            self.within(store@),
        ensures
            b == all_set(self.bits(store@)),
    {
        proof {
            use_type_invariant(&self.ptr);
            self.ptr.lemma_wf();
            T::lemma_width();
            lemma_domain_ranges::<T>(self@, store@.len() as int);
            lemma_bits_uniform::<C, T>(self@, store@, true);
        }
        match self.ptr.domain() {
            BitDomain::Empty => true,
            BitDomain::Minor(h, elt, t) => edge_uniform::<C, T>(store, elt, h, t, true),
            BitDomain::Major(h, head, body, tail, t) => edge_uniform::<C, T>(
                store,
                head,
                h,
                T::BITS,
                true,
            ) && edge_uniform::<C, T>(store, tail, 0, t, true) && body_uniform::<C, T>(
                store,
                body.start,
                body.end,
                true,
            ),
            BitDomain::PartialHead(h, head, body) => edge_uniform::<C, T>(
                store,
                head,
                h,
                T::BITS,
                true,
            ) && body_uniform::<C, T>(store, body.start, body.end, true),
            BitDomain::PartialTail(body, tail, t) => edge_uniform::<C, T>(store, tail, 0, t, true)
                && body_uniform::<C, T>(store, body.start, body.end, true),
            BitDomain::Spanning(body) => body_uniform::<C, T>(store, body.start, body.end, true),
        }
    }

    /// Tells whether some bit of the view is set. It is not so of the empty view.
    pub fn any(&self, store: &[T]) -> (b: bool)
        requires
            self.within(store@),
        ensures
            b == any_set(self.bits(store@)),
    {
        proof {
            use_type_invariant(&self.ptr);
            self.ptr.lemma_wf();
            T::lemma_width();
            lemma_domain_ranges::<T>(self@, store@.len() as int);
            lemma_bits_uniform::<C, T>(self@, store@, false);
        }
        match self.ptr.domain() {
            BitDomain::Empty => false,
            BitDomain::Minor(h, elt, t) => !edge_uniform::<C, T>(store, elt, h, t, false),
            BitDomain::Major(h, head, body, tail, t) => !edge_uniform::<C, T>(
                store,
                head,
                h,
                T::BITS,
                false,
            ) || !edge_uniform::<C, T>(store, tail, 0, t, false) || !body_uniform::<C, T>(
                store,
                body.start,
                body.end,
                false,
            ),
            BitDomain::PartialHead(h, head, body) => !edge_uniform::<C, T>(
                store,
                head,
                h,
                T::BITS,
                false,
            ) || !body_uniform::<C, T>(store, body.start, body.end, false),
            BitDomain::PartialTail(body, tail, t) => !edge_uniform::<C, T>(
                store,
                tail,
                0,
                t,
                false,
            ) || !body_uniform::<C, T>(store, body.start, body.end, false),
            BitDomain::Spanning(body) => !body_uniform::<C, T>(store, body.start, body.end, false),
        }
    }

    /// Tells whether some bit of the view is clear.
    pub fn not_all(&self, store: &[T]) -> (b: bool)
        requires
            self.within(store@),
        ensures
            b == !all_set(self.bits(store@)),
    {
        !self.all(store)
    }

    /// Tells whether every bit of the view is clear.
    pub fn not_any(&self, store: &[T]) -> (b: bool)
        requires
            self.within(store@),
        ensures
            b == !any_set(self.bits(store@)),
    {
        !self.any(store)
    }

    /// Tells whether the view holds both a set bit and a clear bit.
    pub fn some(&self, store: &[T]) -> (b: bool)
        requires
            self.within(store@),
        ensures
            b == (any_set(self.bits(store@)) && !all_set(self.bits(store@))),
    {
        self.any(store) && self.not_all(store)
    }

    /// Counts the bits of the view that are set.
    pub fn count_ones(&self, store: &[T]) -> (n: usize)
        requires
            self.within(store@),
        ensures
            n == count_ones(self.bits(store@)),
    {
        proof {
            use_type_invariant(&self.ptr);
            self.ptr.lemma_wf();
            T::lemma_width();
            lemma_domain_ranges::<T>(self@, store@.len() as int);
            lemma_tally_span::<C, T>(self@, store@, true);
            lemma_part_tallies::<C, T>(self@, store@, true);
        }
        match self.ptr.domain() {
            BitDomain::Empty => 0,
            BitDomain::Minor(h, elt, t) => edge_count::<C, T>(store, elt, h, t, true),
            BitDomain::Major(h, head, body, tail, t) => edge_count::<C, T>(
                store,
                head,
                h,
                T::BITS,
                true,
            ) + body_count::<C, T>(store, body.start, body.end, true) + edge_count::<C, T>(
                store,
                tail,
                0,
                t,
                true,
            ),
            BitDomain::PartialHead(h, head, body) => edge_count::<C, T>(
                store,
                head,
                h,
                T::BITS,
                true,
            ) + body_count::<C, T>(store, body.start, body.end, true),
            BitDomain::PartialTail(body, tail, t) => body_count::<C, T>(
                store,
                body.start,
                body.end,
                true,
            ) + edge_count::<C, T>(store, tail, 0, t, true),
            BitDomain::Spanning(body) => body_count::<C, T>(store, body.start, body.end, true),
        }
    }

    /// Counts the bits of the view that are clear.
    pub fn count_zeros(&self, store: &[T]) -> (n: usize)
        requires
            self.within(store@),
        ensures
            n == count_zeros(self.bits(store@)),
    {
        proof {
            use_type_invariant(&self.ptr);
            self.ptr.lemma_wf();
            T::lemma_width();
            lemma_domain_ranges::<T>(self@, store@.len() as int);
            lemma_tally_span::<C, T>(self@, store@, false);
            lemma_part_tallies::<C, T>(self@, store@, false);
        }
        match self.ptr.domain() {
            BitDomain::Empty => 0,
            BitDomain::Minor(h, elt, t) => edge_count::<C, T>(store, elt, h, t, false),
            BitDomain::Major(h, head, body, tail, t) => edge_count::<C, T>(
                store,
                head,
                h,
                T::BITS,
                false,
            ) + body_count::<C, T>(store, body.start, body.end, false) + edge_count::<C, T>(
                store,
                tail,
                0,
                t,
                false,
            ),
            BitDomain::PartialHead(h, head, body) => edge_count::<C, T>(
                store,
                head,
                h,
                T::BITS,
                false,
            ) + body_count::<C, T>(store, body.start, body.end, false),
            BitDomain::PartialTail(body, tail, t) => body_count::<C, T>(
                store,
                body.start,
                body.end,
                false,
            ) + edge_count::<C, T>(store, tail, 0, t, false),
            BitDomain::Spanning(body) => body_count::<C, T>(store, body.start, body.end, false),
        }
    }

    /// Sets every bit of the view to `value`.
    pub fn set_all(&self, store: &mut [T], value: bool)
        requires
            self.within(old(store)@),
        ensures
            self.bits(final(store)@) == Seq::new(self@.len as nat, |i: int| value),
            self.frames(old(store)@, final(store)@),
    {
        proof {
            use_type_invariant(&self.ptr);
            self.ptr.lemma_wf();
            T::lemma_width();
            lemma_domain_ranges::<T>(self@, store@.len() as int);
        }
        match self.ptr.domain() {
            BitDomain::Empty => {},
            BitDomain::Minor(h, elt, t) => edge_fill::<C, T>(store, elt, h, t, value),
            BitDomain::Major(h, head, body, tail, t) => {
                edge_fill::<C, T>(store, head, h, T::BITS, value);
                body_fill::<C, T>(store, body.start, body.end, value);
                edge_fill::<C, T>(store, tail, 0, t, value);
            },
            BitDomain::PartialHead(h, head, body) => {
                edge_fill::<C, T>(store, head, h, T::BITS, value);
                body_fill::<C, T>(store, body.start, body.end, value);
            },
            BitDomain::PartialTail(body, tail, t) => {
                body_fill::<C, T>(store, body.start, body.end, value);
                edge_fill::<C, T>(store, tail, 0, t, value);
            },
            BitDomain::Spanning(body) => body_fill::<C, T>(store, body.start, body.end, value),
        }
        proof {
            lemma_bits_uniform::<C, T>(self@, store@, value);
            assert(self.bits(store@) =~= Seq::new(self@.len as nat, |i: int| value));
        }
    }
}

/// The tallies of the parts of a domain add up to the tally of the span, and
/// none is larger than the span is long.
proof fn lemma_part_tallies<C: Cursor, T: BitAccess>(span: BitSpan, store: Seq<T>, value: bool)
    requires
        valid_parts::<T>(span.base, span.head, span.len),
        span.within::<T>(store.len() as int),
    ensures
        ({
            let bits = flat::<C, T>(store);
            let w = T::BITS as int;
            let whole = tally(bits, span.start::<T>(), span.end::<T>(), value);
            match span.domain::<T>() {
                BitDomain::Empty => whole == 0,
                BitDomain::Minor(h, elt, t) => true,
                BitDomain::Major(h, head, body, tail, t) => {
                    let a = tally(bits, head * w + h, head * w + w, value);
                    let b = tally(bits, body.start * w, body.end * w, value);
                    let c = tally(bits, tail * w, tail * w + t, value);
                    &&& whole == a + b + c
                    &&& 0 <= a && 0 <= b && 0 <= c
                    &&& (body.end - body.start) * w <= span.len
                },
                BitDomain::PartialHead(h, head, body) => {
                    let a = tally(bits, head * w + h, head * w + w, value);
                    let b = tally(bits, body.start * w, body.end * w, value);
                    &&& whole == a + b
                    &&& 0 <= a && 0 <= b
                    &&& (body.end - body.start) * w <= span.len
                },
                BitDomain::PartialTail(body, tail, t) => {
                    let b = tally(bits, body.start * w, body.end * w, value);
                    let c = tally(bits, tail * w, tail * w + t, value);
                    &&& whole == b + c
                    &&& 0 <= b && 0 <= c
                    &&& (body.end - body.start) * w <= span.len
                },
                BitDomain::Spanning(body) => (body.end - body.start) * w <= span.len,
            }
        }),
        0 <= tally(flat::<C, T>(store), span.start::<T>(), span.end::<T>(), value) <= span.len,
        span.len <= usize::MAX,
{
    T::lemma_width();
    lemma_domain_ranges::<T>(span, store.len() as int);
    let bits = flat::<C, T>(store);
    let w = T::BITS as int;
    lemma_tally_bound(bits, span.start::<T>(), span.end::<T>(), value);
    match span.domain::<T>() {
        BitDomain::Empty => {
            lemma_tally_empty(bits, span.start::<T>(), value);
        },
        BitDomain::Minor(h, elt, t) => {},
        BitDomain::Major(h, head, body, tail, t) => {
            lemma_scale(body.start as int, body.end as int, w);
            lemma_tally_split(bits, head * w + h, head * w + w, tail * w + t, value);
            lemma_tally_split(bits, body.start * w, body.end * w, tail * w + t, value);
            lemma_tally_bound(bits, head * w + h, head * w + w, value);
            lemma_tally_bound(bits, body.start * w, body.end * w, value);
            lemma_tally_bound(bits, tail * w, tail * w + t, value);
        },
        BitDomain::PartialHead(h, head, body) => {
            lemma_scale(body.start as int, body.end as int, w);
            lemma_tally_split(bits, head * w + h, head * w + w, body.end * w, value);
            lemma_tally_bound(bits, head * w + h, head * w + w, value);
            lemma_tally_bound(bits, body.start * w, body.end * w, value);
        },
        BitDomain::PartialTail(body, tail, t) => {
            lemma_scale(body.start as int, body.end as int, w);
            lemma_tally_split(bits, body.start * w, body.end * w, tail * w + t, value);
            lemma_tally_bound(bits, body.start * w, body.end * w, value);
            lemma_tally_bound(bits, tail * w, tail * w + t, value);
        },
        BitDomain::Spanning(body) => {
            lemma_scale(body.start as int, body.end as int, w);
        },
    }
}

/// Filling a view with one value twice leaves the buffer as filling it once
/// does.
pub proof fn lemma_set_all_idempotent<C: Cursor, T: BitAccess>(
    span: BitSpan,
    before: Seq<T>,
    once: Seq<T>,
    twice: Seq<T>,
    value: bool,
)
    requires
        valid_parts::<T>(span.base, span.head, span.len),
        span.within::<T>(before.len() as int),
        span.bits::<C, T>(once) == Seq::new(span.len as nat, |i: int| value),
        span.frames::<C, T>(before, once),
        span.bits::<C, T>(twice) == Seq::new(span.len as nat, |i: int| value),
        span.frames::<C, T>(once, twice),
    ensures
        twice == once,
{
    T::lemma_width();
    lemma_scale(0, before.len() as int, T::BITS as int);
    lemma_scale(0, span.base, T::BITS as int);
    let start = span.start::<T>();
    assert forall|k: int| 0 <= k < flat::<C, T>(once).len() implies flat::<C, T>(twice)[k]
        == flat::<C, T>(once)[k] by {
        if start <= k < span.end::<T>() {
            assert(span.bits::<C, T>(once)[k - start] == value);
            assert(span.bits::<C, T>(twice)[k - start] == value);
        }
    }
    assert(flat::<C, T>(twice) =~= flat::<C, T>(once));
    lemma_flat_injective::<C, T>(twice, once);
}

} // verus!
