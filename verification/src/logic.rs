//! Inversion, traversal with a function, and combination with a source of bits.

use crate::cursor::Cursor;
use crate::domain::{lemma_domain_ranges, BitDomain};
use crate::model::{flat, inverted};
use crate::nucleus::BitAccess;
use crate::parts::{body_invert, edge_invert};
use crate::slice::BitSlice;
use vstd::prelude::*;

verus! {

/// Bit `i` of a source of bits that gives `false` once it has run out.
pub open spec fn padded(source: Seq<bool>, i: int) -> bool {
    0 <= i < source.len() && source[i]
}

impl<C: Cursor, T: BitAccess> BitSlice<C, T> {
    /// Inverts every bit of the view.
    pub fn not(&self, store: &mut [T])
        requires
            self.within(old(store)@),
        ensures
            self.bits(final(store)@) == Seq::new(
                self@.len as nat,
                |i: int| !self.bits(old(store)@)[i],
            ),
            self.frames(old(store)@, final(store)@),
    {
        let ptr = self.bitptr();
        proof {
            T::lemma_width();
            lemma_domain_ranges::<T>(self@, store@.len() as int);
        }
        match ptr.domain() {
            BitDomain::Empty => {},
            BitDomain::Minor(h, elt, t) => edge_invert::<C, T>(store, elt, h, t),
            BitDomain::Major(h, head, body, tail, t) => {
                edge_invert::<C, T>(store, head, h, T::BITS);
                body_invert::<C, T>(store, body.start, body.end);
                edge_invert::<C, T>(store, tail, 0, t);
            },
            BitDomain::PartialHead(h, head, body) => {
                edge_invert::<C, T>(store, head, h, T::BITS);
                body_invert::<C, T>(store, body.start, body.end);
            },
            BitDomain::PartialTail(body, tail, t) => {
                body_invert::<C, T>(store, body.start, body.end);
                edge_invert::<C, T>(store, tail, 0, t);
            },
            BitDomain::Spanning(body) => body_invert::<C, T>(store, body.start, body.end),
        }
        proof {
            assert(inverted(
                flat::<C, T>(old(store)@),
                flat::<C, T>(store@),
                self@.start::<T>(),
                self@.end::<T>(),
            ));
            assert(self.bits(store@) =~= Seq::new(
                self@.len as nat,
                |i: int| !self.bits(old(store)@)[i],
            ));
        }
    }

    /// Copies the bit at `from` to `to`; the caller knows both to be in the view.
    pub fn copy_unchecked(&self, store: &mut [T], from: usize, to: usize)
        requires
            self.within(old(store)@),
            from < self@.len,
            to < self@.len,
        ensures
            self.bits(final(store)@) == self.bits(old(store)@).update(
                to as int,
                self.bits(old(store)@)[from as int],
            ),
            self.frames(old(store)@, final(store)@),
    {
        let bit = self.get_unchecked(store, from);
        self.set_unchecked(store, to, bit);
    }

    /// Reads the bits of the view into a vector, first to last.
    pub fn to_vec(&self, store: &[T]) -> (out: Vec<bool>)
        requires
            self.within(store@),
        ensures
            out@ == self.bits(store@),
    {
        let len = self.len();
        let mut out: Vec<bool> = Vec::new();
        let mut index: usize = 0;
        while index < len
            invariant
                self.within(store@),
                len == self@.len,
                index <= len,
                out@.len() == index,
                forall|i: int| 0 <= i < index ==> out@[i] == self.bits(store@)[i],
            decreases len - index,
        {
            out.push(self.get_unchecked(store, index));
            index += 1;
        }
        assert(out@ =~= self.bits(store@));
        out
    }

    /// Visits every index in ascending order, hands the index and the bit there
    /// to `func`, and writes back what `func` returns before it goes on.
    pub fn for_each<F: Fn(usize, bool) -> bool>(&self, store: &mut [T], func: F)
        requires
            self.within(old(store)@),
            forall|i: usize, bit: bool| i < self@.len ==> call_requires(func, (i, bit)),
        ensures
            forall|i: int|
                0 <= i < self@.len ==> call_ensures(
                    func,
                    (i as usize, self.bits(old(store)@)[i]),
                    #[trigger] self.bits(final(store)@)[i],
                ),
            self.frames(old(store)@, final(store)@),
    {
        let len = self.len();
        let mut index: usize = 0;
        while index < len
            invariant
                self.within(store@),
                len == self@.len,
                index <= len,
                forall|i: usize, bit: bool| i < self@.len ==> call_requires(func, (i, bit)),
                forall|i: int|
                    0 <= i < index ==> call_ensures(
                        func,
                        (i as usize, self.bits(old(store)@)[i]),
                        #[trigger] self.bits(store@)[i],
                    ),
                forall|i: int|
                    index <= i < len ==> #[trigger] self.bits(store@)[i] == self.bits(
                        old(store)@,
                    )[i],
                self.frames(old(store)@, store@),
            decreases len - index,
        {
            let bit = self.get_unchecked(store, index);
            let new = func(index, bit);
            self.set_unchecked(store, index, new);
            index += 1;
        }
    }

    /// Ands the bits of `rhs` into the view, index by index from 0. Where `rhs`
    /// has run out it gives `false`, so the rest of the view is cleared; bits
    /// of `rhs` past the length of the view are not used.
    pub fn bitand_assign(&self, store: &mut [T], rhs: &[bool])
        requires
            self.within(old(store)@),
        ensures
            self.bits(final(store)@) == Seq::new(
                self@.len as nat,
                |i: int| self.bits(old(store)@)[i] && padded(rhs@, i),
            ),
            forall|i: int|
                rhs@.len() <= i < self@.len ==> !#[trigger] self.bits(final(store)@)[i],
            self.frames(old(store)@, final(store)@),
    {
        let len = self.len();
        let mut index: usize = 0;
        while index < len
            invariant
                self.within(store@),
                len == self@.len,
                index <= len,
                forall|i: int|
                    0 <= i < index ==> #[trigger] self.bits(store@)[i] == (self.bits(
                        old(store)@,
                    )[i] && padded(rhs@, i)),
                forall|i: int|
                    index <= i < len ==> #[trigger] self.bits(store@)[i] == self.bits(
                        old(store)@,
                    )[i],
                self.frames(old(store)@, store@),
            decreases len - index,
        {
            let bit = if index < rhs.len() {
                rhs[index]
            } else {
                false
            };
            let val = self.get_unchecked(store, index);
            self.set_unchecked(store, index, val && bit);
            index += 1;
        }
        assert(self.bits(store@) =~= Seq::new(
            self@.len as nat,
            |i: int| self.bits(old(store)@)[i] && padded(rhs@, i),
        ));
    }

    /// Ors the bits of `rhs` into the view, index by index from 0. Where `rhs`
    /// has run out the view keeps its bits; bits of `rhs` past the length of
    /// the view are not used.
    pub fn bitor_assign(&self, store: &mut [T], rhs: &[bool])
        requires
            self.within(old(store)@),
        ensures
            self.bits(final(store)@) == Seq::new(
                self@.len as nat,
                |i: int| self.bits(old(store)@)[i] || padded(rhs@, i),
            ),
            forall|i: int|
                rhs@.len() <= i < self@.len ==> #[trigger] self.bits(final(store)@)[i]
                    == self.bits(old(store)@)[i],
            self.frames(old(store)@, final(store)@),
    {
        let len = self.len();
        let stop = if rhs.len() < len {
            rhs.len()
        } else {
            len
        };
        let mut index: usize = 0;
        while index < stop
            invariant
                self.within(store@),
                len == self@.len,
                index <= stop <= len,
                stop <= rhs@.len(),
                forall|i: int|
                    0 <= i < index ==> #[trigger] self.bits(store@)[i] == (self.bits(
                        old(store)@,
                    )[i] || padded(rhs@, i)),
                forall|i: int|
                    index <= i < len ==> #[trigger] self.bits(store@)[i] == self.bits(
                        old(store)@,
                    )[i],
                self.frames(old(store)@, store@),
            decreases stop - index,
        {
            let val = self.get_unchecked(store, index);
            self.set_unchecked(store, index, val || rhs[index]);
            index += 1;
        }
        assert(self.bits(store@) =~= Seq::new(
            self@.len as nat,
            |i: int| self.bits(old(store)@)[i] || padded(rhs@, i),
        ));
    }

    /// Xors the bits of `rhs` into the view, index by index from 0. Where `rhs`
    /// has run out the view keeps its bits; bits of `rhs` past the length of
    /// the view are not used.
    pub fn bitxor_assign(&self, store: &mut [T], rhs: &[bool])
        requires
            self.within(old(store)@),
        ensures
            self.bits(final(store)@) == Seq::new(
                self@.len as nat,
                |i: int| self.bits(old(store)@)[i] != padded(rhs@, i),
            ),
            forall|i: int|
                rhs@.len() <= i < self@.len ==> #[trigger] self.bits(final(store)@)[i]
                    == self.bits(old(store)@)[i],
            self.frames(old(store)@, final(store)@),
    {
        let len = self.len();
        let stop = if rhs.len() < len {
            rhs.len()
        } else {
            len
        };
        let mut index: usize = 0;
        while index < stop
            invariant
                self.within(store@),
                len == self@.len,
                index <= stop <= len,
                stop <= rhs@.len(),
                forall|i: int|
                    0 <= i < index ==> #[trigger] self.bits(store@)[i] == (self.bits(
                        old(store)@,
                    )[i] != padded(rhs@, i)),
                forall|i: int|
                    index <= i < len ==> #[trigger] self.bits(store@)[i] == self.bits(
                        old(store)@,
                    )[i],
                self.frames(old(store)@, store@),
            decreases stop - index,
        {
            let val = self.get_unchecked(store, index);
            self.set_unchecked(store, index, val != rhs[index]);
            index += 1;
        }
        assert(self.bits(store@) =~= Seq::new(
            self@.len as nat,
            |i: int| self.bits(old(store)@)[i] != padded(rhs@, i),
        ));
    }
}

} // verus!
