//! Shifting the bits of a view towards its front or its back.

use crate::cursor::Cursor;
use crate::domain::lemma_domain_ranges;
use crate::model::{any_set, flat, lemma_flat_moved, lemma_position, lemma_scale};
use crate::nucleus::BitAccess;
use crate::parts::body_fill;
use crate::pointer::lemma_span_extent;
use crate::range::lemma_sub_bits;
use crate::slice::BitSlice;
use vstd::prelude::*;

verus! {

/// The bits moved `by` places towards the front: bit `i` is what bit `i + by`
/// was, and the places left at the back hold `false`.
pub open spec fn shifted_left(bits: Seq<bool>, by: int) -> Seq<bool> {
    Seq::new(
        bits.len(),
        |i: int|
            if i + by < bits.len() {
                bits[i + by]
            } else {
                false
            },
    )
}

/// The bits moved `by` places towards the back: bit `i` is what bit `i - by`
/// was, and the places left at the front hold `false`.
pub open spec fn shifted_right(bits: Seq<bool>, by: int) -> Seq<bool> {
    Seq::new(
        bits.len(),
        |i: int|
            if i >= by {
                bits[i - by]
            } else {
                false
            },
    )
}

/// `<[T]>::copy_within`: copies the elements from `src_start` up to `src_end`
/// onto the elements that start at `dest`, as one block; the two ranges may
/// overlap. Every other element stays.
#[verifier::external_body]
fn move_elements<T: Copy>(store: &mut [T], src_start: usize, src_end: usize, dest: usize)
    requires
        src_start <= src_end <= old(store)@.len(),
        dest + (src_end - src_start) <= old(store)@.len(),
    ensures
        final(store)@.len() == old(store)@.len(),
        forall|i: int|
            0 <= i < old(store)@.len() ==> #[trigger] final(store)@[i] == if dest <= i < dest + (
            src_end - src_start) {
                old(store)@[i - dest + src_start]
            } else {
                old(store)@[i]
            },
{
    store.copy_within(src_start..src_end, dest)
}

impl<C: Cursor, T: BitAccess> BitSlice<C, T> {
    /// Shifts by moving one bit at a time, front to back, then clears the
    /// places left at the back.
    fn shl_crawl(&self, store: &mut [T], shamt: usize)
        requires
            self.within(old(store)@),
            0 < shamt < self@.len,
        ensures
            self.bits(final(store)@) == shifted_left(self.bits(old(store)@), shamt as int),
            self.frames(old(store)@, final(store)@),
    {
        let len = self.len();
        let keep = len - shamt;
        proof {
            use_type_invariant(self);
            self.lemma_valid();
        }
        let mut to: usize = 0;
        while to < keep
            invariant
                self.within(store@),
                len == self@.len,
                keep == len - shamt,
                0 < shamt < len,
                to <= keep,
                forall|i: int|
                    0 <= i < to ==> #[trigger] self.bits(store@)[i] == self.bits(old(store)@)[i
                        + shamt],
                forall|i: int|
                    to <= i < len ==> #[trigger] self.bits(store@)[i] == self.bits(
                        old(store)@,
                    )[i],
                self.frames(old(store)@, store@),
            decreases keep - to,
        {
            self.copy_unchecked(store, to + shamt, to);
            to += 1;
        }
        let ghost moved = store@;
        let back = self.get_range_unchecked(keep, len);
        proof {
            lemma_sub_bits::<C, T>(self@, keep as int, len as int, moved);
        }
        back.set_all(store, false);
        proof {
            lemma_sub_bits::<C, T>(self@, keep as int, len as int, store@);
            let goal = shifted_left(self.bits(old(store)@), shamt as int);
            assert forall|i: int| 0 <= i < len implies self.bits(store@)[i] == goal[i] by {
                if i < keep {
                    assert(self.bits(store@)[i] == self.bits(moved)[i]);
                } else {
                    assert(back.bits(store@)[i - keep] == false);
                }
            }
            assert(self.bits(store@) =~= goal);
        }
    }

    /// Shifts by moving one bit at a time, back to front, then clears the
    /// places left at the front.
    fn shr_crawl(&self, store: &mut [T], shamt: usize)
        requires
            self.within(old(store)@),
            0 < shamt < self@.len,
        ensures
            self.bits(final(store)@) == shifted_right(self.bits(old(store)@), shamt as int),
            self.frames(old(store)@, final(store)@),
    {
        let len = self.len();
        let mut from: usize = len - shamt;
        proof {
            use_type_invariant(self);
            self.lemma_valid();
        }
        while from > 0
            invariant
                self.within(store@),
                len == self@.len,
                0 < shamt < len,
                from <= len - shamt,
                forall|i: int|
                    from + shamt <= i < len ==> #[trigger] self.bits(store@)[i] == self.bits(
                        old(store)@,
                    )[i - shamt],
                forall|i: int|
                    0 <= i < from + shamt ==> #[trigger] self.bits(store@)[i] == self.bits(
                        old(store)@,
                    )[i],
                self.frames(old(store)@, store@),
            decreases from,
        {
            from -= 1;
            self.copy_unchecked(store, from, from + shamt);
        }
        let ghost moved = store@;
        let front = self.get_range_unchecked(0, shamt);
        proof {
            lemma_sub_bits::<C, T>(self@, 0, shamt as int, moved);
        }
        front.set_all(store, false);
        proof {
            lemma_sub_bits::<C, T>(self@, 0, shamt as int, store@);
            let goal = shifted_right(self.bits(old(store)@), shamt as int);
            assert forall|i: int| 0 <= i < len implies self.bits(store@)[i] == goal[i] by {
                if i >= shamt {
                    assert(self.bits(store@)[i] == self.bits(moved)[i]);
                } else {
                    assert(front.bits(store@)[i] == false);
                }
            }
            assert(self.bits(store@) =~= goal);
        }
    }

    /// Shifts a view of whole elements by `offset` whole elements towards the
    /// front: moves the elements that stay as one block, then clears the
    /// elements left at the back.
    fn shl_elements(&self, store: &mut [T], offset: usize)
        requires
            self.within(old(store)@),
            self@.domain::<T>() is Spanning,
            0 < offset < self@.elements::<T>(),
        ensures
            self.bits(final(store)@) == shifted_left(
                self.bits(old(store)@),
                offset * T::BITS,
            ),
            self.frames(old(store)@, final(store)@),
    {
        let ptr = self.bitptr();
        let first = ptr.base();
        let elts = ptr.elements();
        let rem = elts - offset;
        proof {
            T::lemma_width();
            let w = T::BITS as int;
            lemma_domain_ranges::<T>(self@, store@.len() as int);
            lemma_span_extent::<T>(self@);
            lemma_scale(0, first as int, w);
            lemma_scale(first as int, first + rem, w);
            lemma_scale(first + rem, first + elts, w);
            lemma_scale(first + elts, store@.len() as int, w);
            assert((first + elts) * w == first * w + elts * w) by (nonlinear_arith);
            assert((first + rem) * w == first * w + rem * w) by (nonlinear_arith);
            assert(elts * w == rem * w + offset * w) by (nonlinear_arith)
                requires
                    elts == rem + offset,
            ;
        }
        move_elements(store, first + offset, first + elts, first);
        let ghost moved = store@;
        proof {
            lemma_flat_moved::<C, T>(old(store)@, moved, first as int, first + rem, offset as int);
            lemma_flat_moved::<C, T>(old(store)@, moved, 0, first as int, 0);
            lemma_flat_moved::<C, T>(old(store)@, moved, first + elts, moved.len() as int, 0);
        }
        body_fill::<C, T>(store, first + rem, first + elts, false);
        proof {
            let goal = shifted_left(self.bits(old(store)@), offset * T::BITS);
            let start = self@.start::<T>();
            assert forall|i: int| 0 <= i < self@.len implies self.bits(store@)[i] == goal[i] by {
                if i < rem * T::BITS {
                    assert(flat::<C, T>(store@)[start + i] == flat::<C, T>(moved)[start + i]);
                }
            }
            assert(self.bits(store@) =~= goal);
            assert forall|k: int|
                0 <= k < flat::<C, T>(old(store)@).len() && !(start <= k < self@.end::<
                    T,
                >()) implies #[trigger] flat::<C, T>(store@)[k] == flat::<C, T>(old(store)@)[k] by {
                assert(flat::<C, T>(store@)[k] == flat::<C, T>(moved)[k]);
            }
        }
    }

    /// Shifts a view of whole elements by `offset` whole elements towards the
    /// back: moves the elements that stay as one block, then clears the
    /// elements left at the front.
    fn shr_elements(&self, store: &mut [T], offset: usize)
        requires
            self.within(old(store)@),
            self@.domain::<T>() is Spanning,
            0 < offset < self@.elements::<T>(),
        ensures
            self.bits(final(store)@) == shifted_right(
                self.bits(old(store)@),
                offset * T::BITS,
            ),
            self.frames(old(store)@, final(store)@),
    {
        let ptr = self.bitptr();
        let first = ptr.base();
        let elts = ptr.elements();
        let rem = elts - offset;
        proof {
            T::lemma_width();
            let w = T::BITS as int;
            lemma_domain_ranges::<T>(self@, store@.len() as int);
            lemma_span_extent::<T>(self@);
            lemma_scale(0, first as int, w);
            lemma_scale(first as int, first + offset, w);
            lemma_scale(first + offset, first + elts, w);
            lemma_scale(first + elts, store@.len() as int, w);
            assert((first + elts) * w == first * w + elts * w) by (nonlinear_arith);
            assert((first + offset) * w == first * w + offset * w) by (nonlinear_arith);
            assert((-(offset as int)) * w == -(offset * w)) by (nonlinear_arith);
        }
        move_elements(store, first, first + rem, first + offset);
        let ghost moved = store@;
        proof {
            lemma_flat_moved::<C, T>(
                old(store)@,
                moved,
                first + offset,
                first + elts,
                -(offset as int),
            );
            lemma_flat_moved::<C, T>(old(store)@, moved, 0, first as int, 0);
            lemma_flat_moved::<C, T>(old(store)@, moved, first + elts, moved.len() as int, 0);
        }
        body_fill::<C, T>(store, first, first + offset, false);
        proof {
            let goal = shifted_right(self.bits(old(store)@), offset * T::BITS);
            let start = self@.start::<T>();
            assert forall|i: int| 0 <= i < self@.len implies self.bits(store@)[i] == goal[i] by {
                if i >= offset * T::BITS {
                    assert(flat::<C, T>(store@)[start + i] == flat::<C, T>(moved)[start + i]);
                }
            }
            assert(self.bits(store@) =~= goal);
            assert forall|k: int|
                0 <= k < flat::<C, T>(old(store)@).len() && !(start <= k < self@.end::<
                    T,
                >()) implies #[trigger] flat::<C, T>(store@)[k] == flat::<C, T>(old(store)@)[k] by {
                assert(flat::<C, T>(store@)[k] == flat::<C, T>(moved)[k]);
            }
        }
    }

    /// Shifts the bits of the view `shamt` places towards the front, index 0,
    /// and clears the places left at the back. A shift by the length or more
    /// clears the view; a shift by 0 does nothing.
    ///
    /// A view that holds whole elements only is shifted by whole elements in
    /// one block first, and by what is left of `shamt` bit by bit after.
    pub fn shl_assign(&self, store: &mut [T], shamt: usize)
        requires
            self.within(old(store)@),
        ensures
            self.bits(final(store)@) == shifted_left(self.bits(old(store)@), shamt as int),
            self.frames(old(store)@, final(store)@),
            shamt >= self@.len ==> !any_set(self.bits(final(store)@)),
            shamt == 0 ==> final(store)@ == old(store)@,
    {
        let len = self.len();
        if shamt == 0 {
            assert(self.bits(store@) =~= shifted_left(self.bits(store@), 0));
            return ;
        }
        if shamt >= len {
            self.set_all(store, false);
            assert(self.bits(store@) =~= shifted_left(self.bits(old(store)@), shamt as int));
            return ;
        }
        let ptr = self.bitptr();
        proof {
            T::lemma_width();
            lemma_domain_ranges::<T>(self@, store@.len() as int);
            lemma_span_extent::<T>(self@);
        }
        let width = T::BITS as usize;
        let offset = shamt / width;
        if ptr.domain().is_spanning() && offset > 0 {
            let rest = shamt % width;
            proof {
                let n = self@.elements::<T>();
                assert(n * width == (n - 1) * width + width) by (nonlinear_arith);
                lemma_whole_elements(shamt as int, width as int, n);
            }
            let kept = len - offset * width;
            self.shl_elements(store, offset);
            let ghost moved = store@;
            if rest > 0 {
                let front = self.get_range_unchecked(0, kept);
                proof {
                    lemma_sub_bits::<C, T>(self@, 0, kept as int, moved);
                }
                front.shl_crawl(store, rest);
                proof {
                    lemma_sub_bits::<C, T>(self@, 0, kept as int, store@);
                    let goal = shifted_left(self.bits(old(store)@), shamt as int);
                    let start = self@.start::<T>();
                    assert forall|i: int| 0 <= i < len implies self.bits(store@)[i]
                        == goal[i] by {
                        let first_step = shifted_left(
                            self.bits(old(store)@),
                            offset * T::BITS,
                        );
                        assert(self.bits(moved) == first_step);
                        assert(shamt == offset * T::BITS + rest);
                        if i < kept {
                            assert(front.bits(store@)[i] == self.bits(store@)[i]);
                            assert(front.bits(store@)[i] == shifted_left(
                                front.bits(moved),
                                rest as int,
                            )[i]);
                            if i + rest < kept {
                                assert(front.bits(moved)[i + rest] == self.bits(moved)[i + rest]);
                                assert(first_step[i + rest] == self.bits(old(store)@)[i + shamt]);
                            }
                        } else {
                            assert(flat::<C, T>(store@)[start + i] == flat::<C, T>(
                                moved,
                            )[start + i]);
                            assert(self.bits(store@)[i] == self.bits(moved)[i]);
                            assert(first_step[i] == false);
                        }
                    }
                    assert(self.bits(store@) =~= goal);
                }
            }
            return ;
        }
        self.shl_crawl(store, shamt);
    }

    /// Shifts the bits of the view `shamt` places towards the back, the last
    /// index, and clears the places left at the front. A shift by the length
    /// or more clears the view; a shift by 0 does nothing.
    ///
    /// A view that holds whole elements only is shifted by whole elements in
    /// one block first, and by what is left of `shamt` bit by bit after.
    pub fn shr_assign(&self, store: &mut [T], shamt: usize)
        requires
            self.within(old(store)@),
        ensures
            self.bits(final(store)@) == shifted_right(self.bits(old(store)@), shamt as int),
            self.frames(old(store)@, final(store)@),
            shamt >= self@.len ==> !any_set(self.bits(final(store)@)),
            shamt == 0 ==> final(store)@ == old(store)@,
    {
        let len = self.len();
        if shamt == 0 {
            assert(self.bits(store@) =~= shifted_right(self.bits(store@), 0));
            return ;
        }
        if shamt >= len {
            self.set_all(store, false);
            assert(self.bits(store@) =~= shifted_right(self.bits(old(store)@), shamt as int));
            return ;
        }
        let ptr = self.bitptr();
        proof {
            T::lemma_width();
            lemma_domain_ranges::<T>(self@, store@.len() as int);
            lemma_span_extent::<T>(self@);
        }
        let width = T::BITS as usize;
        let offset = shamt / width;
        if ptr.domain().is_spanning() && offset > 0 {
            let rest = shamt % width;
            proof {
                let n = self@.elements::<T>();
                assert(n * width == (n - 1) * width + width) by (nonlinear_arith);
                lemma_whole_elements(shamt as int, width as int, n);
            }
            let skip = offset * width;
            self.shr_elements(store, offset);
            let ghost moved = store@;
            if rest > 0 {
                let back = self.get_range_unchecked(skip, len);
                proof {
                    lemma_sub_bits::<C, T>(self@, skip as int, len as int, moved);
                }
                back.shr_crawl(store, rest);
                proof {
                    lemma_sub_bits::<C, T>(self@, skip as int, len as int, store@);
                    let goal = shifted_right(self.bits(old(store)@), shamt as int);
                    let start = self@.start::<T>();
                    assert forall|i: int| 0 <= i < len implies self.bits(store@)[i]
                        == goal[i] by {
                        let first_step = shifted_right(
                            self.bits(old(store)@),
                            offset * T::BITS,
                        );
                        assert(self.bits(moved) == first_step);
                        assert(shamt == offset * T::BITS + rest);
                        if i >= skip {
                            assert(back.bits(store@)[i - skip] == self.bits(store@)[i]);
                            assert(back.bits(store@)[i - skip] == shifted_right(
                                back.bits(moved),
                                rest as int,
                            )[i - skip]);
                            if i - skip >= rest {
                                assert(back.bits(moved)[i - skip - rest] == self.bits(moved)[i
                                    - rest]);
                                assert(first_step[i - rest] == self.bits(old(store)@)[i - shamt]);
                            }
                        } else {
                            assert(flat::<C, T>(store@)[start + i] == flat::<C, T>(
                                moved,
                            )[start + i]);
                            assert(self.bits(store@)[i] == self.bits(moved)[i]);
                            assert(first_step[i] == false);
                        }
                    }
                    assert(self.bits(store@) =~= goal);
                }
            }
            return ;
        }
        self.shr_crawl(store, shamt);
    }
}

/// A shift amount below `elts` whole elements is a whole number of elements
/// below `elts` and a rest below the width.
proof fn lemma_whole_elements(shamt: int, w: int, elts: int)
    requires
        0 < w,
        0 <= shamt < elts * w,
    ensures
        shamt == (shamt / w) * w + shamt % w,
        0 <= shamt % w < w,
        0 <= shamt / w < elts,
        (shamt / w) * w <= shamt,
{
    lemma_position(shamt, elts, w);
}

/// A shift by the length or more, either way, leaves no bit set; a shift by
/// nothing, either way, leaves every bit as it was.
pub proof fn lemma_shift_ends(bits: Seq<bool>, by: int)
    requires
        0 <= by,
    ensures
        by >= bits.len() ==> !any_set(shifted_left(bits, by)) && !any_set(
            shifted_right(bits, by),
        ),
        by == 0 ==> shifted_left(bits, by) == bits && shifted_right(bits, by) == bits,
{
    if by == 0 {
        assert(shifted_left(bits, by) =~= bits);
        assert(shifted_right(bits, by) =~= bits);
    }
}

} // verus!
