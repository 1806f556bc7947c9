//! Storage elements: the unsigned integers a bit view can live in.

use crate::bits::{
    count_set, filled, lemma_and_not_one_hot, lemma_count_above_width, lemma_count_complement,
    lemma_differs, lemma_low_ones_values, lemma_one_hot_bits, lemma_ops_fit, lemma_or_one_hot,
    lemma_same_bits, lemma_test_one_hot, lemma_width_bits, low_ones, one_hot, raw_bit,
};
use crate::cursor::Cursor;
use vstd::prelude::*;

verus! {

/// Keeps [`BitStore`] closed: only the element types of this crate have it.
pub trait Sealed {

}

/// `u64::count_ones`: returns the number of ones in the binary representation
/// of its argument, here stated as the count of set bits over all 64 positions.
#[verifier::external_body]
fn population(v: u64) -> (n: u32)
    ensures
        n == count_set(v, 64),
{
    v.count_ones()
}

/// The bit that `place` names, under the ordering `C`, in an element of `width`
/// bits whose value is `raw`.
pub open spec fn bit_in<C: Cursor>(raw: u64, width: int, place: int) -> bool {
    raw_bit(raw, C::position(place, width) as u64)
}

/// The bit that `place` names in `elt` under the ordering `C`.
pub open spec fn bit_of<C: Cursor, T: BitStore>(elt: T, place: int) -> bool {
    bit_in::<C>(elt.raw(), T::BITS as int, place)
}

/// An unsigned integer type that can hold the bits of a view.
///
/// It is implemented for `u8`, `u16`, `u32` and `u64`. The model of an element
/// is its value widened to `u64`.
pub trait BitStore: Sealed + Copy + Sized {
    /// The width of the type in bits.
    const BITS: u8;

    /// The number of bits needed to index a bit inside the type.
    const INDX: u8;

    /// The mask that reduces a number to a bit index inside the type.
    const MASK: u8;

    /// The name of the type.
    const TYPENAME: &'static str;

    /// The element's value, widened with zeros.
    spec fn raw(self) -> u64;

    /// The width is 8, 16, 32 or 64, and `INDX` and `MASK` go with it.
    proof fn lemma_width()
        ensures
            Self::BITS == 8 || Self::BITS == 16 || Self::BITS == 32 || Self::BITS == 64,
            Self::BITS == 8 ==> Self::INDX == 3,
            Self::BITS == 16 ==> Self::INDX == 4,
            Self::BITS == 32 ==> Self::INDX == 5,
            Self::BITS == 64 ==> Self::INDX == 6,
            Self::MASK == Self::BITS - 1,
    ;

    /// An element's value fits in the width of its type.
    proof fn lemma_raw_fits(self)
        ensures
            self.raw() <= low_ones(Self::BITS as u64),
    ;

    /// Elements with the same value are the same element.
    proof fn lemma_raw_injective(self, other: Self)
        requires
            self.raw() == other.raw(),
        ensures
            self == other,
    ;

    /// Widens the element to `u64`.
    fn into_raw(self) -> (v: u64)
        ensures
            v == self.raw(),
    ;

    /// Narrows a value that fits in the width of the type.
    fn from_raw(v: u64) -> (elt: Self)
        requires
            v <= low_ones(Self::BITS as u64),
        ensures
            elt.raw() == v,
    ;

    /// The mask that selects `place` under the ordering `C`: the one-hot value at
    /// the physical position of `place`.
    fn mask<C: Cursor>(place: u8) -> (mask: Self)
        requires
            place < Self::BITS,
        ensures
            mask.raw() == one_hot(C::position(place as int, Self::BITS as int) as u64),
    {
        let pos = C::at(place, Self::BITS);
        proof {
            Self::lemma_width();
            lemma_one_hot_bits(pos as u64, Self::BITS as u64);
        }
        Self::from_raw(1u64 << pos)
    }

    /// The complement of the element inside its width.
    fn complement(self) -> (elt: Self)
        ensures
            elt.raw() == !self.raw() & low_ones(Self::BITS as u64),
    {
        let ones = Self::bits(true).into_raw();
        proof {
            Self::lemma_width();
            self.lemma_raw_fits();
            lemma_ops_fit(self.raw(), 0, Self::BITS as u64);
        }
        Self::from_raw(!self.into_raw() & ones)
    }

    /// Sets the bit at `place` to `value` and leaves every other bit as it was.
    ///
    /// This is plain access: use it on an element that no view shares.
    fn set_plain<C: Cursor>(&mut self, place: u8, value: bool)
        requires
            place < Self::BITS,
        ensures
            bit_in::<C>(final(self).raw(), Self::BITS as int, place as int) == value,
            forall|p: int|
                0 <= p < Self::BITS && p != place ==> #[trigger] bit_in::<C>(
                    final(self).raw(),
                    Self::BITS as int,
                    p,
                ) == bit_in::<C>(old(self).raw(), Self::BITS as int, p),
    {
        let mask = Self::mask::<C>(place).into_raw();
        let prev = self.into_raw();
        proof {
            Self::lemma_width();
            C::lemma_permutation(Self::BITS as int);
            let pos = C::position(place as int, Self::BITS as int) as u64;
            self.lemma_raw_fits();
            lemma_one_hot_bits(pos, Self::BITS as u64);
            lemma_ops_fit(prev, mask, Self::BITS as u64);
            lemma_or_one_hot(prev, pos);
            lemma_and_not_one_hot(prev, pos);
        }
        if value {
            *self = Self::from_raw(prev | mask);
        } else {
            *self = Self::from_raw(prev & !mask);
        }
        proof {
            assert forall|p: int| 0 <= p < Self::BITS && p != place implies #[trigger] bit_in::<C>(
                self.raw(),
                Self::BITS as int,
                p,
            ) == bit_in::<C>(old(self).raw(), Self::BITS as int, p) by {
                assert(C::position(p, Self::BITS as int) != C::position(
                    place as int,
                    Self::BITS as int,
                ));
            }
        }
    }

    /// Reads the bit at `place`.
    ///
    /// This is plain access: use it on an element that no view shares.
    fn get_plain<C: Cursor>(&self, place: u8) -> (bit: bool)
        requires
            place < Self::BITS,
        ensures
            bit == bit_in::<C>(self.raw(), Self::BITS as int, place as int),
    {
        let mask = Self::mask::<C>(place).into_raw();
        proof {
            Self::lemma_width();
            C::lemma_permutation(Self::BITS as int);
            lemma_test_one_hot(self.raw(), C::position(place as int, Self::BITS as int) as u64);
        }
        self.into_raw() & mask != 0
    }

    /// Counts the bits of the element that are set.
    fn count_ones(&self) -> (n: usize)
        ensures
            n == count_set(self.raw(), Self::BITS as nat),
    {
        proof {
            Self::lemma_width();
            self.lemma_raw_fits();
            lemma_count_above_width(self.raw(), Self::BITS as u64, 64);
        }
        population(self.into_raw()) as usize
    }

    /// Counts the bits of the element that are clear.
    fn count_zeros(&self) -> (n: usize)
        ensures
            n == Self::BITS - count_set(self.raw(), Self::BITS as nat),
    {
        let flipped = !self.into_raw() & Self::bits(true).into_raw();
        proof {
            Self::lemma_width();
            self.lemma_raw_fits();
            lemma_ops_fit(self.raw(), 0, Self::BITS as u64);
            lemma_count_above_width(flipped, Self::BITS as u64, 64);
            lemma_count_complement(self.raw(), Self::BITS as u64, Self::BITS as nat);
        }
        population(flipped) as usize
    }

    /// The element with every bit equal to `bit`.
    fn bits(bit: bool) -> (elt: Self)
        ensures
            elt.raw() == filled(bit, Self::BITS as u64),
    {
        proof {
            Self::lemma_width();
        }
        if bit {
            Self::from_raw(u64::MAX >> (64 - Self::BITS))
        } else {
            Self::from_raw(0)
        }
    }
}

impl Sealed for u8 {

}

impl BitStore for u8 {
    const BITS: u8 = 8;

    const INDX: u8 = 3;

    const MASK: u8 = 7;

    const TYPENAME: &'static str = "u8";

    open spec fn raw(self) -> u64 {
        self as u64
    }

    proof fn lemma_width() {
        lemma_widths();
    }

    proof fn lemma_raw_fits(self) {
        lemma_low_ones_values();
    }

    proof fn lemma_raw_injective(self, other: Self) {
    }

    fn into_raw(self) -> (v: u64) {
        self as u64
    }

    fn from_raw(v: u64) -> (elt: Self) {
        proof {
            lemma_low_ones_values();
        }
        v as u8
    }
}

impl Sealed for u16 {

}

impl BitStore for u16 {
    const BITS: u8 = 16;

    const INDX: u8 = 4;

    const MASK: u8 = 15;

    const TYPENAME: &'static str = "u16";

    open spec fn raw(self) -> u64 {
        self as u64
    }

    proof fn lemma_width() {
        lemma_widths();
    }

    proof fn lemma_raw_fits(self) {
        lemma_low_ones_values();
    }

    proof fn lemma_raw_injective(self, other: Self) {
    }

    fn into_raw(self) -> (v: u64) {
        self as u64
    }

    fn from_raw(v: u64) -> (elt: Self) {
        proof {
            lemma_low_ones_values();
        }
        v as u16
    }
}

impl Sealed for u32 {

}

impl BitStore for u32 {
    const BITS: u8 = 32;

    const INDX: u8 = 5;

    const MASK: u8 = 31;

    const TYPENAME: &'static str = "u32";

    open spec fn raw(self) -> u64 {
        self as u64
    }

    proof fn lemma_width() {
        lemma_widths();
    }

    proof fn lemma_raw_fits(self) {
        lemma_low_ones_values();
    }

    proof fn lemma_raw_injective(self, other: Self) {
    }

    fn into_raw(self) -> (v: u64) {
        self as u64
    }

    fn from_raw(v: u64) -> (elt: Self) {
        proof {
            lemma_low_ones_values();
        }
        v as u32
    }
}

impl Sealed for u64 {

}

impl BitStore for u64 {
    const BITS: u8 = 64;

    const INDX: u8 = 6;

    const MASK: u8 = 63;

    const TYPENAME: &'static str = "u64";

    open spec fn raw(self) -> u64 {
        self as u64
    }

    proof fn lemma_width() {
        lemma_widths();
    }

    proof fn lemma_raw_fits(self) {
        lemma_low_ones_values();
    }

    proof fn lemma_raw_injective(self, other: Self) {
    }

    fn into_raw(self) -> (v: u64) {
        self as u64
    }

    fn from_raw(v: u64) -> (elt: Self) {
        proof {
            lemma_low_ones_values();
        }
        v as u64
    }
}

/// The constants of the four element types.
pub proof fn lemma_widths()
    ensures
        <u8 as BitStore>::BITS == 8 && <u8 as BitStore>::INDX == 3 && <u8 as BitStore>::MASK == 7,
        <u16 as BitStore>::BITS == 16 && <u16 as BitStore>::INDX == 4 && <u16 as BitStore>::MASK
            == 15,
        <u32 as BitStore>::BITS == 32 && <u32 as BitStore>::INDX == 5 && <u32 as BitStore>::MASK
            == 31,
        <u64 as BitStore>::BITS == 64 && <u64 as BitStore>::INDX == 6 && <u64 as BitStore>::MASK
            == 63,
{
}

/// An element is all ones exactly when every place holds a one, and zero
/// exactly when every place holds a zero.
pub proof fn lemma_uniform<C: Cursor, T: BitStore>(elt: T)
    ensures
        (elt.raw() == low_ones(T::BITS as u64)) == (forall|p: int|
            0 <= p < T::BITS ==> #[trigger] bit_of::<C, T>(elt, p)),
        (elt.raw() == 0) == (forall|p: int| 0 <= p < T::BITS ==> !#[trigger] bit_of::<C, T>(elt, p)),
{
    T::lemma_width();
    elt.lemma_raw_fits();
    let w = T::BITS as u64;
    C::lemma_permutation(w as int);
    lemma_width_bits(elt.raw(), w);
    lemma_differs(elt.raw(), w);
    if elt.raw() != low_ones(w) {
        let q = choose|q: u64| q < w && !#[trigger] raw_bit(elt.raw(), q);
        let p = C::place_of(q as int, w as int);
        assert(C::position(p, w as int) == q);
        assert(!bit_of::<C, T>(elt, p));
    }
    if elt.raw() != 0 {
        let q = choose|q: u64| q < w && #[trigger] raw_bit(elt.raw(), q);
        let p = C::place_of(q as int, w as int);
        assert(C::position(p, w as int) == q);
        assert(bit_of::<C, T>(elt, p));
    } else {
        assert forall|p: int| 0 <= p < T::BITS implies !#[trigger] bit_of::<C, T>(elt, p) by {
            assert(!raw_bit(0, C::position(p, w as int) as u64));
        }
    }
    if elt.raw() == low_ones(w) {
        assert forall|p: int| 0 <= p < T::BITS implies #[trigger] bit_of::<C, T>(elt, p) by {
            assert(raw_bit(low_ones(w), C::position(p, w as int) as u64));
        }
    }
}

/// The complement of an element inside its width holds at every place the
/// inverse of what the element holds there.
pub proof fn lemma_complement<C: Cursor, T: BitStore>(elt: T, flipped: T)
    requires
        flipped.raw() == !elt.raw() & low_ones(T::BITS as u64),
    ensures
        forall|p: int|
            0 <= p < T::BITS ==> #[trigger] bit_of::<C, T>(flipped, p) == !bit_of::<C, T>(elt, p),
{
    T::lemma_width();
    elt.lemma_raw_fits();
    C::lemma_permutation(T::BITS as int);
    lemma_width_bits(elt.raw(), T::BITS as u64);
    assert forall|p: int| 0 <= p < T::BITS implies #[trigger] bit_of::<C, T>(flipped, p)
        == !bit_of::<C, T>(elt, p) by {
        let q = C::position(p, T::BITS as int) as u64;
        assert(raw_bit(!elt.raw() & low_ones(T::BITS as u64), q) == !raw_bit(elt.raw(), q));
    }
}

/// Elements that hold the same bit at every place are the same element.
pub proof fn lemma_same_places<C: Cursor, T: BitStore>(a: T, b: T)
    requires
        forall|p: int| 0 <= p < T::BITS ==> bit_of::<C, T>(a, p) == bit_of::<C, T>(b, p),
    ensures
        a == b,
{
    T::lemma_width();
    let w = T::BITS as int;
    C::lemma_permutation(w);
    a.lemma_raw_fits();
    b.lemma_raw_fits();
    assert forall|q: u64| q < w implies raw_bit(a.raw(), q) == raw_bit(b.raw(), q) by {
        let p = C::place_of(q as int, w);
        assert(C::position(p, w) == q);
        assert(bit_of::<C, T>(a, p) == bit_of::<C, T>(b, p));
    }
    lemma_same_bits(a.raw(), b.raw(), w as u64);
    a.lemma_raw_injective(b);
}

/// Under any ordering, different places of an element have different masks,
/// and every one-hot value of the width is the mask of some place.
pub proof fn lemma_masks<C: Cursor, T: BitStore>()
    ensures
        forall|p: int, q: int|
            0 <= p < T::BITS && 0 <= q < T::BITS && p != q ==> one_hot(
                #[trigger] C::position(p, T::BITS as int) as u64,
            ) != one_hot(#[trigger] C::position(q, T::BITS as int) as u64),
        forall|pos: int|
            0 <= pos < T::BITS ==> C::position(
                #[trigger] C::place_of(pos, T::BITS as int),
                T::BITS as int,
            ) == pos && 0 <= C::place_of(pos, T::BITS as int) < T::BITS,
{
    T::lemma_width();
    let w = T::BITS as int;
    C::lemma_permutation(w);
    assert forall|p: int, q: int| 0 <= p < w && 0 <= q < w && p != q implies one_hot(
        #[trigger] C::position(p, w) as u64,
    ) != one_hot(#[trigger] C::position(q, w) as u64) by {
        let a = C::position(p, w) as u64;
        let b = C::position(q, w) as u64;
        assert(C::place_of(a as int, w) == p);
        assert(C::place_of(b as int, w) == q);
        lemma_one_hot_bits(a, w as u64);
        lemma_one_hot_bits(b, w as u64);
        assert(raw_bit(one_hot(a), a));
        assert(!raw_bit(one_hot(b), a));
    }
}

} // verus!
