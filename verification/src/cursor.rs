//! Bit orderings: which physical bit of an element a position names.

use vstd::prelude::*;

verus! {

/// An ordering of the bits inside one element.
///
/// A cursor carries no data. It maps a place, counted in the order in which a
/// view walks an element, to the physical position of a bit, counted from the
/// least significant end.
pub trait Cursor: Sized {
    /// The physical position that `place` names in an element of `width` bits.
    spec fn position(place: int, width: int) -> int;

    /// The place that names the physical position `pos` in an element of `width` bits.
    spec fn place_of(pos: int, width: int) -> int;

    /// Over the places of one element, `position` is one-to-one and onto, with
    /// `place_of` as its inverse.
    proof fn lemma_permutation(width: int)
        requires
            width > 0,
        ensures
            forall|p: int| 0 <= p < width ==> 0 <= #[trigger] Self::position(p, width) < width,
            forall|p: int|
                0 <= p < width ==> Self::place_of(#[trigger] Self::position(p, width), width) == p,
            forall|q: int| 0 <= q < width ==> 0 <= #[trigger] Self::place_of(q, width) < width,
            forall|q: int|
                0 <= q < width ==> Self::position(#[trigger] Self::place_of(q, width), width) == q,
    ;

    /// Computes the physical position of `place` in an element of `width` bits.
    fn at(place: u8, width: u8) -> (pos: u8)
        requires
            place < width,
        ensures
            pos == Self::position(place as int, width as int),
            pos < width,
    ;
}

/// Place 0 is the most significant bit of the element.
pub struct BigEndian;

/// Place 0 is the least significant bit of the element.
pub struct LittleEndian;

/// The ordering used where none is named. It is the same on every target.
pub type Local = LittleEndian;

impl Cursor for BigEndian {
    open spec fn position(place: int, width: int) -> int {
        width - 1 - place
    }

    open spec fn place_of(pos: int, width: int) -> int {
        width - 1 - pos
    }

    proof fn lemma_permutation(width: int) {
    }

    fn at(place: u8, width: u8) -> (pos: u8) {
        width - 1 - place
    }
}

impl Cursor for LittleEndian {
    open spec fn position(place: int, width: int) -> int {
        place
    }

    open spec fn place_of(pos: int, width: int) -> int {
        pos
    }

    proof fn lemma_permutation(width: int) {
    }

    fn at(place: u8, width: u8) -> (pos: u8) {
        place
    }
}

} // verus!
