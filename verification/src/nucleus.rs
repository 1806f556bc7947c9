//! Alias-safe access to one element.
//!
//! Every touch of an element that a view may share goes through one relaxed
//! operation of `radium` on the element seen as a cell. Those calls are made
//! in the small functions at the head of this file, one for each operation and
//! element type, whose contracts say what `radium` does to a cell and are not
//! proved here. The single-bit operations are built on them and proved.
//!
//! Writing takes the element by exclusive borrow. That is what lets a contract
//! speak of the value before and after; what the operations promise to views
//! that share an element across threads is not stated.

use crate::bits::{
    lemma_and_not_one_hot, lemma_complement_mask, lemma_one_hot_bits, lemma_or_one_hot,
    lemma_test_one_hot, lemma_xor_one_hot,
};
use crate::cursor::Cursor;
use crate::store::{bit_of, BitStore};
use core::cell::Cell;
use core::sync::atomic::Ordering;
use radium::Radium;
use vstd::prelude::*;

verus! {

/// `Radium::load` on a `Cell<u8>` made of a copy of the element: returns the
/// value in the cell, which is the element's.
#[verifier::external_body]
fn load_u8(elt: &u8) -> (value: u8)
    ensures
        value == *elt,
{
    Radium::load(&Cell::new(*elt), Ordering::Relaxed)
}

/// `Radium::store` on the element seen as a `Cell<u8>`: puts `value` in the
/// cell.
#[verifier::external_body]
fn store_u8(elt: &mut u8, value: u8)
    ensures
        *final(elt) == value,
{
    Radium::store(Cell::from_mut(elt), value, Ordering::Relaxed)
}

/// `Radium::fetch_and` on the element seen as a `Cell<u8>`: replaces the value
/// in the cell by its bitwise and with `mask`, and returns the value that was
/// there.
#[verifier::external_body]
fn fetch_and_u8(elt: &mut u8, mask: u8) -> (prev: u8)
    ensures
        prev == *old(elt),
        *final(elt) == *old(elt) & mask,
{
    Radium::fetch_and(Cell::from_mut(elt), mask, Ordering::Relaxed)
}

/// `Radium::fetch_or` on the element seen as a `Cell<u8>`: replaces the value
/// in the cell by its bitwise or with `mask`, and returns the value that was
/// there.
#[verifier::external_body]
fn fetch_or_u8(elt: &mut u8, mask: u8) -> (prev: u8)
    ensures
        prev == *old(elt),
        *final(elt) == *old(elt) | mask,
{
    Radium::fetch_or(Cell::from_mut(elt), mask, Ordering::Relaxed)
}

/// `Radium::fetch_xor` on the element seen as a `Cell<u8>`: replaces the value
/// in the cell by its bitwise xor with `mask`, and returns the value that was
/// there.
#[verifier::external_body]
fn fetch_xor_u8(elt: &mut u8, mask: u8) -> (prev: u8)
    ensures
        prev == *old(elt),
        *final(elt) == *old(elt) ^ mask,
{
    Radium::fetch_xor(Cell::from_mut(elt), mask, Ordering::Relaxed)
}

/// `Radium::load` on a `Cell<u16>` made of a copy of the element: returns the
/// value in the cell, which is the element's.
#[verifier::external_body]
fn load_u16(elt: &u16) -> (value: u16)
    ensures
        value == *elt,
{
    Radium::load(&Cell::new(*elt), Ordering::Relaxed)
}

/// `Radium::store` on the element seen as a `Cell<u16>`: puts `value` in the
/// cell.
#[verifier::external_body]
fn store_u16(elt: &mut u16, value: u16)
    ensures
        *final(elt) == value,
{
    Radium::store(Cell::from_mut(elt), value, Ordering::Relaxed)
}

/// `Radium::fetch_and` on the element seen as a `Cell<u16>`: replaces the value
/// in the cell by its bitwise and with `mask`, and returns the value that was
/// there.
#[verifier::external_body]
fn fetch_and_u16(elt: &mut u16, mask: u16) -> (prev: u16)
    ensures
        prev == *old(elt),
        *final(elt) == *old(elt) & mask,
{
    Radium::fetch_and(Cell::from_mut(elt), mask, Ordering::Relaxed)
}

/// `Radium::fetch_or` on the element seen as a `Cell<u16>`: replaces the value
/// in the cell by its bitwise or with `mask`, and returns the value that was
/// there.
#[verifier::external_body]
fn fetch_or_u16(elt: &mut u16, mask: u16) -> (prev: u16)
    ensures
        prev == *old(elt),
        *final(elt) == *old(elt) | mask,
{
    Radium::fetch_or(Cell::from_mut(elt), mask, Ordering::Relaxed)
}

/// `Radium::fetch_xor` on the element seen as a `Cell<u16>`: replaces the value
/// in the cell by its bitwise xor with `mask`, and returns the value that was
/// there.
#[verifier::external_body]
fn fetch_xor_u16(elt: &mut u16, mask: u16) -> (prev: u16)
    ensures
        prev == *old(elt),
        *final(elt) == *old(elt) ^ mask,
{
    Radium::fetch_xor(Cell::from_mut(elt), mask, Ordering::Relaxed)
}

/// `Radium::load` on a `Cell<u32>` made of a copy of the element: returns the
/// value in the cell, which is the element's.
#[verifier::external_body]
fn load_u32(elt: &u32) -> (value: u32)
    ensures
        value == *elt,
{
    Radium::load(&Cell::new(*elt), Ordering::Relaxed)
}

/// `Radium::store` on the element seen as a `Cell<u32>`: puts `value` in the
/// cell.
#[verifier::external_body]
fn store_u32(elt: &mut u32, value: u32)
    ensures
        *final(elt) == value,
{
    Radium::store(Cell::from_mut(elt), value, Ordering::Relaxed)
}

/// `Radium::fetch_and` on the element seen as a `Cell<u32>`: replaces the value
/// in the cell by its bitwise and with `mask`, and returns the value that was
/// there.
#[verifier::external_body]
fn fetch_and_u32(elt: &mut u32, mask: u32) -> (prev: u32)
    ensures
        prev == *old(elt),
        *final(elt) == *old(elt) & mask,
{
    Radium::fetch_and(Cell::from_mut(elt), mask, Ordering::Relaxed)
}

/// `Radium::fetch_or` on the element seen as a `Cell<u32>`: replaces the value
/// in the cell by its bitwise or with `mask`, and returns the value that was
/// there.
#[verifier::external_body]
fn fetch_or_u32(elt: &mut u32, mask: u32) -> (prev: u32)
    ensures
        prev == *old(elt),
        *final(elt) == *old(elt) | mask,
{
    Radium::fetch_or(Cell::from_mut(elt), mask, Ordering::Relaxed)
}

/// `Radium::fetch_xor` on the element seen as a `Cell<u32>`: replaces the value
/// in the cell by its bitwise xor with `mask`, and returns the value that was
/// there.
#[verifier::external_body]
fn fetch_xor_u32(elt: &mut u32, mask: u32) -> (prev: u32)
    ensures
        prev == *old(elt),
        *final(elt) == *old(elt) ^ mask,
{
    Radium::fetch_xor(Cell::from_mut(elt), mask, Ordering::Relaxed)
}

/// `Radium::load` on a `Cell<u64>` made of a copy of the element: returns the
/// value in the cell, which is the element's.
#[verifier::external_body]
fn load_u64(elt: &u64) -> (value: u64)
    ensures
        value == *elt,
{
    Radium::load(&Cell::new(*elt), Ordering::Relaxed)
}

/// `Radium::store` on the element seen as a `Cell<u64>`: puts `value` in the
/// cell.
#[verifier::external_body]
fn store_u64(elt: &mut u64, value: u64)
    ensures
        *final(elt) == value,
{
    Radium::store(Cell::from_mut(elt), value, Ordering::Relaxed)
}

/// `Radium::fetch_and` on the element seen as a `Cell<u64>`: replaces the value
/// in the cell by its bitwise and with `mask`, and returns the value that was
/// there.
#[verifier::external_body]
fn fetch_and_u64(elt: &mut u64, mask: u64) -> (prev: u64)
    ensures
        prev == *old(elt),
        *final(elt) == *old(elt) & mask,
{
    Radium::fetch_and(Cell::from_mut(elt), mask, Ordering::Relaxed)
}

/// `Radium::fetch_or` on the element seen as a `Cell<u64>`: replaces the value
/// in the cell by its bitwise or with `mask`, and returns the value that was
/// there.
#[verifier::external_body]
fn fetch_or_u64(elt: &mut u64, mask: u64) -> (prev: u64)
    ensures
        prev == *old(elt),
        *final(elt) == *old(elt) | mask,
{
    Radium::fetch_or(Cell::from_mut(elt), mask, Ordering::Relaxed)
}

/// `Radium::fetch_xor` on the element seen as a `Cell<u64>`: replaces the value
/// in the cell by its bitwise xor with `mask`, and returns the value that was
/// there.
#[verifier::external_body]
fn fetch_xor_u64(elt: &mut u64, mask: u64) -> (prev: u64)
    ensures
        prev == *old(elt),
        *final(elt) == *old(elt) ^ mask,
{
    Radium::fetch_xor(Cell::from_mut(elt), mask, Ordering::Relaxed)
}

/// Access to an element that other views may share.
///
/// An element reached through a borrow is its own cell: a shared borrow reads
/// it, an exclusive borrow changes it, each time by one operation on the whole
/// element.
pub trait BitAccess: BitStore {
    /// Reads the element.
    fn load(&self) -> (elt: Self)
        ensures
            elt == *self,
    ;

    /// Replaces the element.
    fn store(&mut self, elt: Self)
        ensures
            *final(self) == elt,
    ;

    /// Clears every bit of the element that is clear in `mask`.
    fn erase_bits(&mut self, mask: Self)
        ensures
            final(self).raw() == old(self).raw() & mask.raw(),
    ;

    /// Sets every bit of the element that is set in `mask`.
    fn write_bits(&mut self, mask: Self)
        ensures
            final(self).raw() == old(self).raw() | mask.raw(),
    ;

    /// Inverts every bit of the element that is set in `mask`.
    fn toggle_bits(&mut self, mask: Self)
        ensures
            final(self).raw() == old(self).raw() ^ mask.raw(),
    ;

    /// Clears the bit at `place` and leaves every other bit as it was.
    fn clear_bit<C: Cursor>(&mut self, place: u8)
        requires
            place < Self::BITS,
        ensures
            forall|p: int|
                0 <= p < Self::BITS ==> #[trigger] bit_of::<C, Self>(*final(self), p) == (p
                    != place && bit_of::<C, Self>(*old(self), p)),
    {
        let mask = Self::mask::<C>(place);
        proof {
            Self::lemma_width();
            C::lemma_permutation(Self::BITS as int);
            let pos = C::position(place as int, Self::BITS as int) as u64;
            lemma_one_hot_bits(pos, Self::BITS as u64);
            self.lemma_raw_fits();
            lemma_and_not_one_hot(self.raw(), pos);
            lemma_complement_mask(self.raw(), mask.raw(), Self::BITS as u64);
        }
        self.erase_bits(mask.complement());
        proof {
            assert forall|p: int| 0 <= p < Self::BITS implies #[trigger] bit_of::<C, Self>(
                *self,
                p,
            ) == (p != place && bit_of::<C, Self>(*old(self), p)) by {
                assert(p != place ==> C::position(p, Self::BITS as int) != C::position(
                    place as int,
                    Self::BITS as int,
                ));
            }
        }
    }

    /// Sets the bit at `place` and leaves every other bit as it was.
    fn set_bit<C: Cursor>(&mut self, place: u8)
        requires
            place < Self::BITS,
        ensures
            forall|p: int|
                0 <= p < Self::BITS ==> #[trigger] bit_of::<C, Self>(*final(self), p) == (p
                    == place || bit_of::<C, Self>(*old(self), p)),
    {
        let mask = Self::mask::<C>(place);
        proof {
            Self::lemma_width();
            C::lemma_permutation(Self::BITS as int);
            lemma_or_one_hot(
                self.raw(),
                C::position(place as int, Self::BITS as int) as u64,
            );
        }
        self.write_bits(mask);
        proof {
            assert forall|p: int| 0 <= p < Self::BITS implies #[trigger] bit_of::<C, Self>(
                *self,
                p,
            ) == (p == place || bit_of::<C, Self>(*old(self), p)) by {
                assert(p != place ==> C::position(p, Self::BITS as int) != C::position(
                    place as int,
                    Self::BITS as int,
                ));
            }
        }
    }

    /// Inverts the bit at `place` and leaves every other bit as it was.
    fn invert_bit<C: Cursor>(&mut self, place: u8)
        requires
            place < Self::BITS,
        ensures
            forall|p: int|
                0 <= p < Self::BITS ==> #[trigger] bit_of::<C, Self>(*final(self), p) == (
                bit_of::<C, Self>(*old(self), p) != (p == place)),
    {
        let mask = Self::mask::<C>(place);
        proof {
            Self::lemma_width();
            C::lemma_permutation(Self::BITS as int);
            lemma_xor_one_hot(
                self.raw(),
                C::position(place as int, Self::BITS as int) as u64,
            );
        }
        self.toggle_bits(mask);
        proof {
            assert forall|p: int| 0 <= p < Self::BITS implies #[trigger] bit_of::<C, Self>(
                *self,
                p,
            ) == (bit_of::<C, Self>(*old(self), p) != (p == place)) by {
                assert(p != place ==> C::position(p, Self::BITS as int) != C::position(
                    place as int,
                    Self::BITS as int,
                ));
            }
        }
    }

    /// Reads the bit at `place`.
    fn get<C: Cursor>(&self, place: u8) -> (bit: bool)
        requires
            place < Self::BITS,
        ensures
            bit == bit_of::<C, Self>(*self, place as int),
    {
        let mask = Self::mask::<C>(place).into_raw();
        proof {
            Self::lemma_width();
            C::lemma_permutation(Self::BITS as int);
            lemma_test_one_hot(
                self.raw(),
                C::position(place as int, Self::BITS as int) as u64,
            );
        }
        self.load().into_raw() & mask != 0
    }

    /// Sets the bit at `place` to `value` and leaves every other bit as it was.
    fn set<C: Cursor>(&mut self, place: u8, value: bool)
        requires
            place < Self::BITS,
        ensures
            forall|p: int|
                0 <= p < Self::BITS ==> #[trigger] bit_of::<C, Self>(*final(self), p) == if p
                    == place {
                    value
                } else {
                    bit_of::<C, Self>(*old(self), p)
                },
    {
        if value {
            self.set_bit::<C>(place);
        } else {
            self.clear_bit::<C>(place);
        }
    }
}

impl BitAccess for u8 {
    fn load(&self) -> (elt: u8) {
        load_u8(self)
    }

    fn store(&mut self, elt: u8) {
        store_u8(self, elt);
    }

    fn erase_bits(&mut self, mask: u8) {
        fetch_and_u8(self, mask);
    }

    fn write_bits(&mut self, mask: u8) {
        fetch_or_u8(self, mask);
    }

    fn toggle_bits(&mut self, mask: u8) {
        fetch_xor_u8(self, mask);
    }
}

impl BitAccess for u16 {
    fn load(&self) -> (elt: u16) {
        load_u16(self)
    }

    fn store(&mut self, elt: u16) {
        store_u16(self, elt);
    }

    fn erase_bits(&mut self, mask: u16) {
        fetch_and_u16(self, mask);
    }

    fn write_bits(&mut self, mask: u16) {
        fetch_or_u16(self, mask);
    }

    fn toggle_bits(&mut self, mask: u16) {
        fetch_xor_u16(self, mask);
    }
}

impl BitAccess for u32 {
    fn load(&self) -> (elt: u32) {
        load_u32(self)
    }

    fn store(&mut self, elt: u32) {
        store_u32(self, elt);
    }

    fn erase_bits(&mut self, mask: u32) {
        fetch_and_u32(self, mask);
    }

    fn write_bits(&mut self, mask: u32) {
        fetch_or_u32(self, mask);
    }

    fn toggle_bits(&mut self, mask: u32) {
        fetch_xor_u32(self, mask);
    }
}

impl BitAccess for u64 {
    fn load(&self) -> (elt: u64) {
        load_u64(self)
    }

    fn store(&mut self, elt: u64) {
        store_u64(self, elt);
    }

    fn erase_bits(&mut self, mask: u64) {
        fetch_and_u64(self, mask);
    }

    fn write_bits(&mut self, mask: u64) {
        fetch_or_u64(self, mask);
    }

    fn toggle_bits(&mut self, mask: u64) {
        fetch_xor_u64(self, mask);
    }
}

} // verus!
