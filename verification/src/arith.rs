//! Addition and negation of views read as numbers of fixed width.

use crate::cursor::Cursor;
use crate::logic::padded;
use crate::model::any_set;
use crate::nucleus::BitAccess;
use crate::number::{
    be_value, is_min_negative, is_zero, le_value, lemma_be_injective, lemma_be_inverse,
    lemma_be_one, lemma_be_zero, lemma_two_pow_positive, lemma_value_bound, two_pow, worth,
};
use crate::slice::BitSlice;
use vstd::arithmetic::div_mod::lemma_fundamental_div_mod_converse;
use vstd::prelude::*;

verus! {

/// One step of a ripple-carry adder: the sum bit and the carry out of the
/// bits `a` and `b` and the carry in `c`.
pub fn rca1(a: bool, b: bool, c: bool) -> (out: (bool, bool))
    ensures
        out.0 == ((a != b) != c),
        out.1 == ((a && b) || (c && (a != b))),
        worth(a, 0) + worth(b, 0) + worth(c, 0) == worth(out.0, 0) + 2 * worth(out.1, 0),
{
    let half = a != b;
    (half != c, (a && b) || (c && half))
}

/// The first `len` bits of `addend`, with zeros after its end.
pub open spec fn operand_left(addend: Seq<bool>, len: int) -> Seq<bool> {
    Seq::new(len as nat, |i: int| padded(addend, i))
}

/// The last `len` bits of `addend`, with zeros before its start.
pub open spec fn operand_right(addend: Seq<bool>, len: int) -> Seq<bool> {
    Seq::new(len as nat, |i: int| padded(addend, i - len + addend.len()))
}

/// `after` is the negation of `before` as a number in two's complement of
/// fixed width, first bit most significant: the most negative pattern gives
/// zero, and any other number gives what is missing to two to the power of
/// the width, which for zero is zero.
pub open spec fn is_negation(before: Seq<bool>, after: Seq<bool>) -> bool {
    &&& after.len() == before.len()
    &&& if is_min_negative(before) {
        is_zero(after)
    } else {
        be_value(after) == (two_pow(before.len()) - be_value(before)) % (two_pow(
            before.len(),
        ) as int)
    }
}

impl<C: Cursor, T: BitAccess> BitSlice<C, T> {
    /// Adds `addend` to the view, both read with the first bit least
    /// significant, and returns the carry out of the last bit. The addend is
    /// taken from its first bit on, with zeros after its end; bits of it past
    /// the length of the view are not used.
    pub fn add_assign_reverse(&self, store: &mut [T], addend: &[bool]) -> (carry: bool)
        requires
            self.within(old(store)@),
        ensures
            le_value(self.bits(final(store)@)) + worth(carry, self@.len as nat) == le_value(
                self.bits(old(store)@),
            ) + le_value(operand_left(addend@, self@.len)),
            self.frames(old(store)@, final(store)@),
    {
        let len = self.len();
        let mut c = false;
        let mut index: usize = 0;
        let ghost before = self.bits(old(store)@);
        let ghost operand = operand_left(addend@, len as int);
        proof {
            assert(before.take(0) =~= Seq::<bool>::empty());
            assert(operand.take(0) =~= Seq::<bool>::empty());
            assert(self.bits(store@).take(0) =~= Seq::<bool>::empty());
        }
        while index < len
            invariant
                self.within(store@),
                len == self@.len,
                index <= len,
                before == self.bits(old(store)@),
                operand == operand_left(addend@, len as int),
                le_value(self.bits(store@).take(index as int)) + worth(c, index as nat)
                    == le_value(before.take(index as int)) + le_value(
                    operand.take(index as int),
                ),
                forall|i: int|
                    index <= i < len ==> #[trigger] self.bits(store@)[i] == before[i],
                self.frames(old(store)@, store@),
            decreases len - index,
        {
            let b = if index < addend.len() {
                addend[index]
            } else {
                false
            };
            let a = self.get_unchecked(store, index);
            let (y, z) = rca1(a, b, c);
            let ghost prior = self.bits(store@);
            self.set_unchecked(store, index, y);
            proof {
                let i = index as int;
                let now = self.bits(store@);
                assert(now.take(i + 1).drop_last() =~= prior.take(i));
                assert(before.take(i + 1).drop_last() =~= before.take(i));
                assert(operand.take(i + 1).drop_last() =~= operand.take(i));
                assert(now.take(i + 1).last() == y);
                assert(before.take(i + 1).last() == a);
                assert(operand.take(i + 1).last() == b);
            }
            c = z;
            index += 1;
        }
        proof {
            assert(self.bits(store@).take(len as int) =~= self.bits(store@));
            assert(before.take(len as int) =~= before);
            assert(operand.take(len as int) =~= operand);
        }
        c
    }

    /// Adds `addend` to the view, both read with the first bit most
    /// significant, and drops the carry out of the first bit. The addend is
    /// taken from its last bit back, with zeros before its start; bits of it
    /// before the length of the view, counted from its end, are not used.
    pub fn add_assign(&self, store: &mut [T], addend: &[bool])
        requires
            self.within(old(store)@),
        ensures
            be_value(self.bits(final(store)@)) == (be_value(self.bits(old(store)@)) + be_value(
                operand_right(addend@, self@.len),
            )) % two_pow(self@.len as nat),
            self.frames(old(store)@, final(store)@),
    {
        let len = self.len();
        let mut c = false;
        let mut index: usize = len;
        let mut left: usize = addend.len();
        let ghost before = self.bits(old(store)@);
        let ghost operand = operand_right(addend@, len as int);
        proof {
            assert(before.skip(len as int) =~= Seq::<bool>::empty());
            assert(operand.skip(len as int) =~= Seq::<bool>::empty());
            assert(self.bits(store@).skip(len as int) =~= Seq::<bool>::empty());
        }
        while index > 0
            invariant
                self.within(store@),
                len == self@.len,
                index <= len,
                left <= addend@.len(),
                left == if addend@.len() >= len - index {
                    addend@.len() - (len - index)
                } else {
                    0
                },
                before == self.bits(old(store)@),
                operand == operand_right(addend@, len as int),
                be_value(self.bits(store@).skip(index as int)) + worth(c, (len - index) as nat)
                    == be_value(before.skip(index as int)) + be_value(
                    operand.skip(index as int),
                ),
                forall|i: int| 0 <= i < index ==> #[trigger] self.bits(store@)[i] == before[i],
                self.frames(old(store)@, store@),
            decreases index,
        {
            index -= 1;
            let b = if left > 0 {
                left -= 1;
                addend[left]
            } else {
                false
            };
            let a = self.get_unchecked(store, index);
            let (y, z) = rca1(a, b, c);
            let ghost prior = self.bits(store@);
            self.set_unchecked(store, index, y);
            proof {
                let i = index as int;
                let now = self.bits(store@);
                assert(now.skip(i).drop_first() =~= prior.skip(i + 1));
                assert(before.skip(i).drop_first() =~= before.skip(i + 1));
                assert(operand.skip(i).drop_first() =~= operand.skip(i + 1));
                assert(now.skip(i).first() == y);
                assert(before.skip(i).first() == a);
                assert(operand.skip(i).first() == b);
            }
            c = z;
        }
        proof {
            let now = self.bits(store@);
            assert(now.skip(0) =~= now);
            assert(before.skip(0) =~= before);
            assert(operand.skip(0) =~= operand);
            lemma_value_bound(now);
            lemma_two_pow_positive(len as nat);
            let modulus = two_pow(len as nat) as int;
            let sum = be_value(before) + be_value(operand);
            let q: int = if c {
                1
            } else {
                0
            };
            assert(q * modulus == worth(c, len as nat)) by (nonlinear_arith)
                requires
                    q == (if c {
                        1int
                    } else {
                        0int
                    }),
                    worth(c, len as nat) == (if c {
                        modulus
                    } else {
                        0int
                    }),
            ;
            lemma_fundamental_div_mod_converse(
                sum as int,
                modulus,
                q,
                be_value(now) as int,
            );
        }
    }

    /// Negates the view as a number in two's complement of its width, first
    /// bit most significant: inverts every bit and adds one. Zero stays zero,
    /// and the most negative number, a one followed by zeros, which has no
    /// positive counterpart at this width, becomes zero.
    pub fn neg(&self, store: &mut [T])
        requires
            self.within(old(store)@),
        ensures
            is_negation(self.bits(old(store)@), self.bits(final(store)@)),
            self.frames(old(store)@, final(store)@),
    {
        let ghost before = self.bits(old(store)@);
        proof {
            lemma_be_zero(before);
            lemma_two_pow_positive(before.len());
            lemma_value_bound(before);
        }
        let len = self.len();
        if len == 0 || self.not_any(store) {
            proof {
                let modulus = two_pow(before.len()) as int;
                assert(is_zero(before)) by {
                    assert forall|i: int| 0 <= i < before.len() implies !#[trigger] before[i] by {
                        if before[i] {
                            assert(any_set(before));
                        }
                    }
                }
                lemma_fundamental_div_mod_converse(
                    modulus,
                    modulus,
                    1,
                    0,
                );
            }
            return ;
        }
        if self.get_unchecked(store, 0) {
            self.set_unchecked(store, 0, false);
            if self.not_any(store) {
                proof {
                    let now = self.bits(store@);
                    assert forall|i: int| 1 <= i < before.len() implies !#[trigger] before[i] by {
                        if before[i] {
                            assert(now[i]);
                            assert(any_set(now));
                        }
                    }
                    assert forall|i: int| 0 <= i < now.len() implies !#[trigger] now[i] by {
                        if now[i] {
                            assert(any_set(now));
                        }
                    }
                }
                return ;
            }
            proof {
                let now = self.bits(store@);
                let i = choose|i: int| 0 <= i < now.len() && #[trigger] now[i];
                assert(before[i]);
                assert(i >= 1);
                assert(!is_min_negative(before));
            }
            self.set_unchecked(store, 0, true);
            assert(self.bits(store@) =~= before);
        }
        let ghost restored = self.bits(store@);
        assert(restored =~= before);
        self.not(store);
        let ghost flipped = self.bits(store@);
        let one: [bool; 1] = [true];
        self.add_assign(store, one.as_slice());
        proof {
            let now = self.bits(store@);
            let n = before.len();
            let modulus = two_pow(n) as int;
            lemma_be_inverse(before, flipped);
            let operand = operand_right(one@, n as int);
            assert(one@.len() == 1);
            assert(operand.last() == one@[0]);
            assert forall|i: int| 0 <= i < operand.len() - 1 implies !#[trigger] operand[i] by {}
            lemma_be_one(operand);
            assert(be_value(flipped) + 1 == modulus - be_value(before));
        }
    }
}

/// Negation gives zero for zero and for the most negative pattern; for every
/// other pattern, negating twice gives the pattern back.
pub proof fn lemma_negation(a: Seq<bool>, b: Seq<bool>, c: Seq<bool>)
    requires
        is_negation(a, b),
        is_negation(b, c),
    ensures
        is_zero(a) ==> is_zero(b),
        is_min_negative(a) ==> is_zero(b),
        !is_zero(a) && !is_min_negative(a) ==> c == a,
{
    let n = a.len();
    let modulus = two_pow(n) as int;
    lemma_two_pow_positive(n);
    lemma_value_bound(a);
    lemma_value_bound(b);
    lemma_value_bound(c);
    lemma_be_zero(a);
    lemma_be_zero(b);
    lemma_be_zero(c);
    if is_zero(a) {
        assert(!is_min_negative(a));
        lemma_fundamental_div_mod_converse(modulus, modulus, 1, 0);
    }
    if !is_zero(a) && !is_min_negative(a) {
        let va = be_value(a) as int;
        lemma_fundamental_div_mod_converse(
            modulus - va,
            modulus,
            0,
            modulus - va,
        );
        assert(be_value(b) == modulus - va);
        if is_min_negative(b) {
            // then `a` spells half the modulus as `b` does, so `a` is `b`
            assert(n >= 1);
            assert(modulus == 2 * two_pow((n - 1) as nat));
            lemma_be_injective(a, b);
        }
        lemma_fundamental_div_mod_converse(va, modulus, 0, va);
        lemma_be_injective(c, a);
    }
}

} // verus!
