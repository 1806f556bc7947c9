//! Parts of a view: ranges, halves, and the elements under it.

use crate::cursor::Cursor;
use crate::domain::{lemma_domain_ranges, BitDomain};
use crate::error::BitError;
use crate::model::lemma_scale;
use crate::nucleus::BitAccess;
use crate::pointer::{lemma_span_extent, lemma_sub_valid, offset, valid_parts, BitPtr, BitSpan};
use crate::slice::BitSlice;
use crate::store::BitStore;
use vstd::arithmetic::div_mod::lemma_fundamental_div_mod_converse;
use vstd::prelude::*;

verus! {

/// A range of indices into a view, in one of the shapes in which ranges are
/// written.
#[derive(Clone, Copy, Debug, PartialEq, Eq, Structural)]
pub enum BitRange {
    /// From the first index up to, not including, the second.
    Closed(usize, usize),
    /// From the first index up to and including the second.
    Inclusive(usize, usize),
    /// From the index to the end of the view.
    From(usize),
    /// From the start of the view up to, not including, the index.
    To(usize),
    /// From the start of the view up to and including the index.
    ToInclusive(usize),
    /// The whole view.
    Full,
}

impl BitRange {
    /// The half-open range `(start, end)` that the range stands for in a view
    /// of `len` bits. An inclusive end at the largest index stands for the end
    /// of the view.
    pub open spec fn bounds(self, len: int) -> (int, int) {
        match self {
            BitRange::Closed(start, end) => (start as int, end as int),
            BitRange::Inclusive(start, last) => (
                start as int,
                if last == usize::MAX {
                    len
                } else {
                    last + 1
                },
            ),
            BitRange::From(start) => (start as int, len),
            BitRange::To(end) => (0, end as int),
            BitRange::ToInclusive(last) => (
                0,
                if last == usize::MAX {
                    len
                } else {
                    last + 1
                },
            ),
            BitRange::Full => (0, len),
        }
    }

    /// The range lies inside a view of `len` bits, low end first.
    pub open spec fn valid(self, len: int) -> bool {
        0 <= self.bounds(len).0 <= self.bounds(len).1 <= len
    }

    /// Brings the range to half-open form for a view of `len` bits, or reports
    /// `InvalidRange` if it does not lie inside the view, low end first.
    pub fn normalize(self, len: usize) -> (res: Result<(usize, usize), BitError>)
        ensures
            self.valid(len as int) ==> res is Ok && res->Ok_0.0 == self.bounds(len as int).0
                && res->Ok_0.1 == self.bounds(len as int).1,
            !self.valid(len as int) ==> res == Err::<(usize, usize), BitError>(
                BitError::InvalidRange,
            ),
    {
        let (start, end) = match self {
            BitRange::Closed(start, end) => (start, end),
            BitRange::Inclusive(start, last) => (
                start,
                if last == usize::MAX {
                    len
                } else {
                    last + 1
                },
            ),
            BitRange::From(start) => (start, len),
            BitRange::To(end) => (0, end),
            BitRange::ToInclusive(last) => (
                0,
                if last == usize::MAX {
                    len
                } else {
                    last + 1
                },
            ),
            BitRange::Full => (0, len),
        };
        if start <= end && end <= len {
            Ok((start, end))
        } else {
            Err(BitError::InvalidRange)
        }
    }
}

impl BitSpan {
    /// The indices `(start, end)` of the elements that the span holds whole.
    pub open spec fn body<T: BitStore>(self) -> (int, int) {
        match self.domain::<T>() {
            BitDomain::Empty => (0, 0),
            BitDomain::Minor(_, _, _) => (0, 0),
            BitDomain::Major(_, _, body, _, _) => (body.start as int, body.end as int),
            BitDomain::PartialHead(_, _, body) => (body.start as int, body.end as int),
            BitDomain::PartialTail(body, _, _) => (body.start as int, body.end as int),
            BitDomain::Spanning(body) => (body.start as int, body.end as int),
        }
    }

    /// The half of the span before bit `mid`.
    pub open spec fn left<T: BitStore>(self, mid: int) -> BitSpan {
        if mid == 0 {
            BitSpan { base: 0, head: 0, len: 0 }
        } else if mid == self.len {
            self
        } else {
            self.sub::<T>(0, mid)
        }
    }

    /// The half of the span from bit `mid` on.
    pub open spec fn right<T: BitStore>(self, mid: int) -> BitSpan {
        if mid == 0 {
            self
        } else if mid == self.len {
            BitSpan { base: 0, head: 0, len: 0 }
        } else {
            self.sub::<T>(mid, self.len)
        }
    }

    /// The indices `(start, end)` of the elements that the span reaches into,
    /// edges included.
    pub open spec fn reach<T: BitStore>(self) -> (int, int) {
        if self.len == 0 {
            (0, 0)
        } else {
            (self.base, self.base + self.elements::<T>())
        }
    }
}

/// A part of a span holds the bits of the span at the indices of the part, and
/// lies inside every buffer that the span lies inside.
pub proof fn lemma_sub_bits<C: Cursor, T: BitStore>(
    span: BitSpan,
    from: int,
    to: int,
    store: Seq<T>,
)
    requires
        valid_parts::<T>(span.base, span.head, span.len),
        0 <= from <= to <= span.len,
    ensures
        span.sub::<T>(from, to).bits::<C, T>(store) == Seq::new(
            (to - from) as nat,
            |i: int| span.bits::<C, T>(store)[from + i],
        ),
        span.within::<T>(store.len() as int) ==> span.sub::<T>(from, to).within::<T>(
            store.len() as int,
        ),
        span.sub::<T>(from, to).start::<T>() == span.start::<T>() + from,
        span.sub::<T>(from, to).end::<T>() == span.start::<T>() + to,
{
    lemma_sub_valid::<T>(span, from, to);
    assert(span.sub::<T>(from, to).bits::<C, T>(store) =~= Seq::new(
        (to - from) as nat,
        |i: int| span.bits::<C, T>(store)[from + i],
    ));
}

impl<C: Cursor, T: BitAccess> BitSlice<C, T> {
    /// The view of the bits from index `start` up to index `end`, which the
    /// caller knows to lie inside the view, low end first.
    pub fn get_range_unchecked(&self, start: usize, end: usize) -> (part: Self)
        requires
            start <= end <= self@.len,
        ensures
            part@ == self@.sub::<T>(start as int, end as int),
            part@.len == end - start,
            part@.start::<T>() == self@.start::<T>() + start,
    {
        let ptr = self.bitptr();
        proof {
            T::lemma_width();
            lemma_sub_valid::<T>(self@, start as int, end as int);
            lemma_span_extent::<T>(self@);
        }
        let (base, head, _) = ptr.raw_parts();
        let (skip, new_head) = offset::<T>(head, start as isize);
        proof {
            lemma_fundamental_div_mod_converse(
                head + start,
                T::BITS as int,
                skip as int,
                new_head as int,
            );
        }
        Self::from_ptr(BitPtr::new_unchecked(base + skip as usize, new_head, end - start))
    }

    /// The view of the bits that `range` names, or `InvalidRange` if the range
    /// does not lie inside the view, low end first.
    pub fn index_range(&self, range: BitRange) -> (res: Result<Self, BitError>)
        ensures
            range.valid(self@.len) ==> res is Ok && res->Ok_0@ == self@.sub::<T>(
                range.bounds(self@.len).0,
                range.bounds(self@.len).1,
            ),
            !range.valid(self@.len) ==> res is Err && res->Err_0 == BitError::InvalidRange,
    {
        match range.normalize(self.len()) {
            Ok((start, end)) => Ok(self.get_range_unchecked(start, end)),
            Err(e) => Err(e),
        }
    }

    /// The views of the bits before index `mid` and of the bits from it on; the
    /// caller knows `mid` to be no more than the length. Where `mid` is 0 the
    /// halves are the empty view and the view itself; where it is the length,
    /// the view itself and the empty view.
    pub fn split_at_unchecked(&self, mid: usize) -> (halves: (Self, Self))
        requires
            mid <= self@.len,
        ensures
            halves.0@ == self@.left::<T>(mid as int),
            halves.1@ == self@.right::<T>(mid as int),
    {
        let len = self.len();
        if mid == 0 {
            (Self::empty(), *self)
        } else if mid == len {
            (*self, Self::empty())
        } else {
            (self.get_range_unchecked(0, mid), self.get_range_unchecked(mid, len))
        }
    }

    /// The two halves of a view that is written to: as `split_at_unchecked`.
    pub fn split_at_mut_unchecked(&mut self, mid: usize) -> (halves: (Self, Self))
        requires
            mid <= old(self)@.len,
        ensures
            *final(self) == *old(self),
            halves.0@ == old(self)@.left::<T>(mid as int),
            halves.1@ == old(self)@.right::<T>(mid as int),
    {
        self.split_at_unchecked(mid)
    }

    /// The views of the bits before index `mid` and of the bits from it on, or
    /// `IndexOutOfRange` if `mid` is more than the length.
    pub fn split_at(&self, mid: usize) -> (res: Result<(Self, Self), BitError>)
        ensures
            mid <= self@.len ==> res is Ok && res->Ok_0.0@ == self@.left::<T>(mid as int)
                && res->Ok_0.1@ == self@.right::<T>(mid as int),
            mid > self@.len ==> res is Err && res->Err_0 == BitError::IndexOutOfRange,
    {
        if mid <= self.len() {
            Ok(self.split_at_unchecked(mid))
        } else {
            Err(BitError::IndexOutOfRange)
        }
    }

    /// The elements that the view holds whole, without the edges that another
    /// view may share.
    pub fn as_slice<'a>(&self, store: &'a [T]) -> (body: &'a [T])
        requires
            self.within(store@),
        ensures
            body@ == store@.subrange(self@.body::<T>().0, self@.body::<T>().1),
    {
        let ptr = self.bitptr();
        proof {
            lemma_domain_ranges::<T>(self@, store@.len() as int);
        }
        match ptr.domain() {
            BitDomain::Empty => vstd::slice::slice_subrange(store, 0, 0),
            BitDomain::Minor(_, _, _) => vstd::slice::slice_subrange(store, 0, 0),
            BitDomain::Major(_, _, body, _, _) => vstd::slice::slice_subrange(
                store,
                body.start,
                body.end,
            ),
            BitDomain::PartialHead(_, _, body) => vstd::slice::slice_subrange(
                store,
                body.start,
                body.end,
            ),
            BitDomain::PartialTail(body, _, _) => vstd::slice::slice_subrange(
                store,
                body.start,
                body.end,
            ),
            BitDomain::Spanning(body) => vstd::slice::slice_subrange(store, body.start, body.end),
        }
    }

    /// The elements that the view holds whole, for writing. What is written
    /// to them is written to the buffer; the rest of the buffer stays.
    pub fn as_mut_slice<'a>(&self, store: &'a mut [T]) -> (body: &'a mut [T])
        requires
            self.within(old(store)@),
        ensures
            body@ == old(store)@.subrange(self@.body::<T>().0, self@.body::<T>().1),
            final(store)@ == old(store)@.subrange(0, self@.body::<T>().0) + final(body)@ + old(
                store,
            )@.subrange(self@.body::<T>().1, old(store)@.len() as int),
    {
        let ptr = self.bitptr();
        proof {
            lemma_domain_ranges::<T>(self@, store@.len() as int);
        }
        let (start, end) = match ptr.domain() {
            BitDomain::Empty => (0, 0),
            BitDomain::Minor(_, _, _) => (0, 0),
            BitDomain::Major(_, _, body, _, _) => (body.start, body.end),
            BitDomain::PartialHead(_, _, body) => (body.start, body.end),
            BitDomain::PartialTail(body, _, _) => (body.start, body.end),
            BitDomain::Spanning(body) => (body.start, body.end),
        };
        let (front, rest) = store.split_at_mut(start);
        let ghost held = rest@;
        let (body, back) = rest.split_at_mut(end - start);
        proof {
            assert(held.subrange(0, end - start) =~= old(store)@.subrange(
                start as int,
                end as int,
            ));
            assert(held.subrange(end - start, held.len() as int) =~= old(store)@.subrange(
                end as int,
                old(store)@.len() as int,
            ));
        }
        body
    }

    /// Every element that the view reaches into, the edges included.
    pub fn as_total_slice<'a>(&self, store: &'a [T]) -> (total: &'a [T])
        requires
            self.within(store@),
        ensures
            total@ == store@.subrange(self@.reach::<T>().0, self@.reach::<T>().1),
    {
        let ptr = self.bitptr();
        if ptr.len() == 0 {
            vstd::slice::slice_subrange(store, 0, 0)
        } else {
            proof {
                T::lemma_width();
                lemma_span_extent::<T>(self@);
                let last = self@.base + self@.elements::<T>() - 1;
                if last >= store@.len() {
                    lemma_scale(store@.len() as int, last, T::BITS as int);
                }
            }
            vstd::slice::slice_subrange(store, ptr.base(), ptr.base() + ptr.elements())
        }
    }
}

/// The halves of a span hold its bits: the left half those before `mid`, the
/// right half those from `mid` on, and both lie inside every buffer that the
/// span lies inside.
pub proof fn lemma_split_bits<C: Cursor, T: BitStore>(span: BitSpan, mid: int, store: Seq<T>)
    requires
        valid_parts::<T>(span.base, span.head, span.len),
        0 <= mid <= span.len,
        span.within::<T>(store.len() as int),
    ensures
        span.left::<T>(mid).bits::<C, T>(store) == span.bits::<C, T>(store).subrange(0, mid),
        span.right::<T>(mid).bits::<C, T>(store) == span.bits::<C, T>(store).subrange(
            mid,
            span.len,
        ),
        span.left::<T>(mid).within::<T>(store.len() as int),
        span.right::<T>(mid).within::<T>(store.len() as int),
{
    T::lemma_width();
    lemma_sub_bits::<C, T>(span, 0, mid, store);
    lemma_sub_bits::<C, T>(span, mid, span.len, store);
    lemma_scale(0, store.len() as int, T::BITS as int);
    assert(span.left::<T>(mid).bits::<C, T>(store) =~= span.bits::<C, T>(store).subrange(0, mid));
    assert(span.right::<T>(mid).bits::<C, T>(store) =~= span.bits::<C, T>(store).subrange(
        mid,
        span.len,
    ));
}

} // verus!
