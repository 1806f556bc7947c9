//! A write handle for one bit.

use crate::cursor::Cursor;
use crate::error::BitError;
use crate::model::flat;
use crate::nucleus::BitAccess;
use crate::slice::BitSlice;
use vstd::prelude::*;

verus! {

/// A bit taken out of a view to be changed and put back.
///
/// The guard holds the view of the one bit and a copy of its value. The copy
/// is read and written freely; `commit` uses the guard up and writes the copy
/// back, once, whether it was changed or not.
pub struct BitGuard<C: Cursor, T: BitAccess> {
    slot: BitSlice<C, T>,
    bit: bool,
}

impl<C: Cursor, T: BitAccess> BitGuard<C, T> {
    /// The guard holds the view of exactly one bit.
    #[verifier::type_invariant]
    pub closed spec fn wf(&self) -> bool {
        self.slot@.len == 1
    }

    /// The position of the guarded bit in the flat sequence of the buffer.
    pub closed spec fn position(&self) -> int {
        self.slot@.start::<T>()
    }

    /// The value that the guard holds.
    pub closed spec fn cached(&self) -> bool {
        self.bit
    }

    /// Reads the value that the guard holds.
    pub fn deref(&self) -> (bit: &bool)
        ensures
            *bit == self.cached(),
    {
        &self.bit
    }

    /// Replaces the value that the guard holds.
    pub fn set(&mut self, value: bool)
        ensures
            final(self).cached() == value,
            final(self).position() == old(self).position(),
    {
        proof {
            use_type_invariant(&*self);
        }
        self.bit = value;
    }

    /// Writes the value that the guard holds back to the bit it was taken
    /// from, and changes no other bit.
    pub fn commit(self, store: &mut [T])
        requires
            self.position() < flat::<C, T>(old(store)@).len(),
        ensures
            final(store)@.len() == old(store)@.len(),
            flat::<C, T>(final(store)@) == flat::<C, T>(old(store)@).update(
                self.position(),
                self.cached(),
            ),
    {
        proof {
            use_type_invariant(&self);
        }
        proof {
            use_type_invariant(&self.slot);
            self.slot.lemma_valid();
            T::lemma_width();
            assert(flat::<C, T>(store@).len() == store@.len() * T::BITS);
        }
        self.slot.set_unchecked(store, 0, self.bit);
        proof {
            let goal = flat::<C, T>(old(store)@).update(self.position(), self.cached());
            assert(self.slot.bits(store@)[0] == self.bit);
            assert(flat::<C, T>(store@) =~= goal);
        }
    }
}

impl<C: Cursor, T: BitAccess> BitSlice<C, T> {
    /// Takes the bit at `index`, which the caller knows to be in the view, out
    /// for writing.
    pub fn at_unchecked(&self, store: &[T], index: usize) -> (guard: BitGuard<C, T>)
        requires
            self.within(store@),
            index < self@.len,
        ensures
            guard.cached() == self.bits(store@)[index as int],
            guard.position() == self@.start::<T>() + index,
            guard.position() < flat::<C, T>(store@).len(),
    {
        proof {
            use_type_invariant(self);
            self.lemma_valid();
            T::lemma_width();
            assert(flat::<C, T>(store@).len() == store@.len() * T::BITS);
        }
        BitGuard {
            bit: self.get_unchecked(store, index),
            slot: self.get_range_unchecked(index, index + 1),
        }
    }

    /// Takes the bit at `index` out for writing, or reports `IndexOutOfRange`
    /// if the view has no such bit.
    pub fn at(&self, store: &[T], index: usize) -> (res: Result<BitGuard<C, T>, BitError>)
        requires
            self.within(store@),
        ensures
            index < self@.len ==> res is Ok && res->Ok_0.cached() == self.bits(
                store@,
            )[index as int] && res->Ok_0.position() == self@.start::<T>() + index
                && res->Ok_0.position() < flat::<C, T>(store@).len(),
            index >= self@.len ==> res is Err && res->Err_0 == BitError::IndexOutOfRange,
    {
        if index < self.len() {
            Ok(self.at_unchecked(store, index))
        } else {
            Err(BitError::IndexOutOfRange)
        }
    }
}

} // verus!
