//! Sequences of bits read as unsigned numbers.

use vstd::prelude::*;

verus! {

/// Two to the power `n`.
pub open spec fn two_pow(n: nat) -> nat
    decreases n,
{
    if n == 0 {
        1
    } else {
        2 * two_pow((n - 1) as nat)
    }
}

/// What a set bit is worth at a place whose weight is two to the power `n`.
pub open spec fn worth(bit: bool, n: nat) -> nat {
    if bit {
        two_pow(n)
    } else {
        0
    }
}

/// The number that the bits spell with the first bit least significant.
pub open spec fn le_value(bits: Seq<bool>) -> nat
    decreases bits.len(),
{
    if bits.len() == 0 {
        0
    } else {
        le_value(bits.drop_last()) + worth(bits.last(), (bits.len() - 1) as nat)
    }
}

/// The number that the bits spell with the first bit most significant.
pub open spec fn be_value(bits: Seq<bool>) -> nat
    decreases bits.len(),
{
    if bits.len() == 0 {
        0
    } else {
        worth(bits.first(), (bits.len() - 1) as nat) + be_value(bits.drop_first())
    }
}

/// The bits are a one followed by zeros only: as a signed number of their
/// width, the most negative one.
pub open spec fn is_min_negative(bits: Seq<bool>) -> bool {
    &&& bits.len() >= 1
    &&& bits[0]
    &&& forall|i: int| 1 <= i < bits.len() ==> !#[trigger] bits[i]
}

/// Every bit is clear.
pub open spec fn is_zero(bits: Seq<bool>) -> bool {
    forall|i: int| 0 <= i < bits.len() ==> !#[trigger] bits[i]
}

/// A power of two is positive.
pub proof fn lemma_two_pow_positive(n: nat)
    ensures
        two_pow(n) > 0,
    decreases n,
{
    if n > 0 {
        lemma_two_pow_positive((n - 1) as nat);
    }
}

/// A number of `n` bits is less than two to the power `n`, read either way.
pub proof fn lemma_value_bound(bits: Seq<bool>)
    ensures
        le_value(bits) < two_pow(bits.len()),
        be_value(bits) < two_pow(bits.len()),
    decreases bits.len(),
{
    if bits.len() > 0 {
        lemma_value_bound(bits.drop_last());
        lemma_value_bound(bits.drop_first());
    }
}

/// Read with the first bit most significant, the bits spell zero exactly when
/// all are clear, and the most negative pattern spells half of two to the
/// power of its length.
pub proof fn lemma_be_zero(bits: Seq<bool>)
    ensures
        be_value(bits) == 0 <==> is_zero(bits),
        is_min_negative(bits) ==> be_value(bits) == two_pow((bits.len() - 1) as nat),
    decreases bits.len(),
{
    if bits.len() > 0 {
        let rest = bits.drop_first();
        lemma_be_zero(rest);
        lemma_two_pow_positive((bits.len() - 1) as nat);
        if is_zero(bits) {
            assert forall|i: int| 0 <= i < rest.len() implies !#[trigger] rest[i] by {
                assert(!bits[i + 1]);
            }
        }
        if be_value(bits) == 0 {
            assert forall|i: int| 0 <= i < bits.len() implies !#[trigger] bits[i] by {
                if i > 0 {
                    assert(!rest[i - 1]);
                }
            }
        }
        if is_min_negative(bits) {
            assert forall|i: int| 0 <= i < rest.len() implies !#[trigger] rest[i] by {
                assert(!bits[i + 1]);
            }
        }
    }
}

/// Bits of one length that spell the same number, first bit most significant,
/// are the same bits.
pub proof fn lemma_be_injective(a: Seq<bool>, b: Seq<bool>)
    requires
        a.len() == b.len(),
        be_value(a) == be_value(b),
    ensures
        a == b,
    decreases a.len(),
{
    if a.len() > 0 {
        lemma_value_bound(a.drop_first());
        lemma_value_bound(b.drop_first());
        lemma_be_injective(a.drop_first(), b.drop_first());
        assert forall|i: int| 0 <= i < a.len() implies a[i] == b[i] by {
            if i > 0 {
                assert(a.drop_first()[i - 1] == b.drop_first()[i - 1]);
            }
        }
    }
    assert(a =~= b);
}

/// The inverse of every bit spells what is missing to the largest number of
/// that many bits.
pub proof fn lemma_be_inverse(bits: Seq<bool>, flipped: Seq<bool>)
    requires
        flipped.len() == bits.len(),
        forall|i: int| 0 <= i < bits.len() ==> flipped[i] == !bits[i],
    ensures
        be_value(bits) + be_value(flipped) + 1 == two_pow(bits.len()),
    decreases bits.len(),
{
    if bits.len() > 0 {
        lemma_be_inverse(bits.drop_first(), flipped.drop_first());
    }
}

/// A lone one at the end, after zeros, spells one.
pub proof fn lemma_be_one(bits: Seq<bool>)
    requires
        bits.len() >= 1,
        bits.last(),
        forall|i: int| 0 <= i < bits.len() - 1 ==> !#[trigger] bits[i],
    ensures
        be_value(bits) == 1,
    decreases bits.len(),
{
    if bits.len() > 1 {
        let rest = bits.drop_first();
        assert(rest.last() == bits.last());
        assert forall|i: int| 0 <= i < rest.len() - 1 implies !#[trigger] rest[i] by {
            assert(!bits[i + 1]);
        }
        lemma_be_one(rest);
    } else {
        assert(be_value(bits.drop_first()) == 0);
    }
}

} // verus!
