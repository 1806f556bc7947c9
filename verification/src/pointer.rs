//! Bit addresses: where a view starts and how many bits it holds.

use crate::cursor::Cursor;
use crate::error::BitError;
use crate::model::{flat, lemma_scale, same_outside, uniform};
use crate::store::BitStore;
use core::marker::PhantomData;
use vstd::arithmetic::div_mod::{
    lemma_div_is_ordered, lemma_fundamental_div_mod, lemma_fundamental_div_mod_converse,
};
use vstd::prelude::*;

verus! {

/// The largest number of bits that one address can hold.
pub const MAX_BITS: usize = usize::MAX / 8;

/// The largest number of elements that one address can reach into.
pub open spec fn max_elts<T: BitStore>() -> int {
    (MAX_BITS as int) / (T::BITS as int) + 1
}

/// The number of elements whose offsets in bytes an address can hold.
pub open spec fn max_reach<T: BitStore>() -> int {
    (usize::MAX as int) / (T::BITS as int / 8)
}

/// What a bit address denotes: `len` bits, the first at place `head` of the
/// element with index `base`.
pub struct BitSpan {
    pub base: int,
    pub head: int,
    pub len: int,
}

impl BitSpan {
    /// The address is one of elements of type `T`.
    pub open spec fn wf<T: BitStore>(self) -> bool {
        &&& 0 <= self.base
        &&& 0 <= self.head < T::BITS
        &&& 0 <= self.len
    }

    /// The position of the first bit in the flat sequence of the buffer.
    pub open spec fn start<T: BitStore>(self) -> int {
        self.base * T::BITS + self.head
    }

    /// The position after the last bit in the flat sequence of the buffer.
    pub open spec fn end<T: BitStore>(self) -> int {
        self.start::<T>() + self.len
    }

    /// The number of elements from the one that holds the head to the one that
    /// holds the last bit.
    pub open spec fn elements<T: BitStore>(self) -> int {
        (self.head + self.len + T::BITS - 1) / (T::BITS as int)
    }

    /// The place after the last bit in the element that holds it, from 1 to the
    /// width; for an empty span, the head.
    pub open spec fn tail<T: BitStore>(self) -> int {
        if self.len == 0 {
            self.head
        } else {
            (self.head + self.len - 1) % (T::BITS as int) + 1
        }
    }

    /// The span lies inside a buffer of `store_len` elements.
    pub open spec fn within<T: BitStore>(self, store_len: int) -> bool {
        self.end::<T>() <= store_len * T::BITS
    }

    /// The bits of the span in `store`, first to last.
    pub open spec fn bits<C: Cursor, T: BitStore>(self, store: Seq<T>) -> Seq<bool> {
        Seq::new(self.len as nat, |i: int| flat::<C, T>(store)[self.start::<T>() + i])
    }

    /// `after` has the length of `before`, and every bit outside the span is in
    /// `after` what it was in `before`.
    pub open spec fn frames<C: Cursor, T: BitStore>(self, before: Seq<T>, after: Seq<T>) -> bool {
        &&& after.len() == before.len()
        &&& same_outside(
            flat::<C, T>(before),
            flat::<C, T>(after),
            self.start::<T>(),
            self.end::<T>(),
        )
    }

    /// The part of the span from bit `from` up to bit `to`.
    pub open spec fn sub<T: BitStore>(self, from: int, to: int) -> BitSpan {
        BitSpan {
            base: self.base + (self.head + from) / (T::BITS as int),
            head: (self.head + from) % (T::BITS as int),
            len: to - from,
        }
    }
}

/// The address of a run of bits in a buffer of `T`, packed into two words.
///
/// The first word holds the offset of the first element in bytes and, in the
/// low bits that an offset of whole elements leaves free, the head without its
/// low three bits. The second word holds the number of bits times eight and, in
/// its low three bits, the low three bits of the head. The words mean nothing
/// by themselves: the parts are read through the methods only.
pub struct BitPtr<T: BitStore> {
    ptr: usize,
    len: usize,
    _ty: PhantomData<T>,
}

/// The first word of the address with the parts `(base, head, _)`.
pub open spec fn packed_ptr<T: BitStore>(base: int, head: int) -> int {
    base * (T::BITS as int / 8) + head / 8
}

/// The second word of the address with the parts `(_, head, len)`.
pub open spec fn packed_len(head: int, len: int) -> int {
    len * 8 + head % 8
}

/// The parts that the two words of an address hold.
pub open spec fn unpacked<T: BitStore>(ptr: int, len: int) -> BitSpan {
    BitSpan {
        base: ptr / (T::BITS as int / 8),
        head: (ptr % (T::BITS as int / 8)) * 8 + len % 8,
        len: len / 8,
    }
}

impl<T: BitStore> Clone for BitPtr<T> {
    fn clone(&self) -> (out: Self)
        ensures
            out == *self,
    {
        proof {
            use_type_invariant(self);
        }
        BitPtr { ptr: self.ptr, len: self.len, _ty: PhantomData }
    }
}

impl<T: BitStore> Copy for BitPtr<T> {

}

impl<T: BitStore> View for BitPtr<T> {
    type V = BitSpan;

    closed spec fn view(&self) -> BitSpan {
        unpacked::<T>(self.ptr as int, self.len as int)
    }
}

/// The parts `(base, head, len)` make an address of elements of `T`.
pub open spec fn valid_parts<T: BitStore>(base: int, head: int, len: int) -> bool {
    let span = BitSpan { base, head, len };
    &&& span.wf::<T>()
    &&& len <= MAX_BITS
    &&& span.elements::<T>() <= max_elts::<T>()
    &&& base + span.elements::<T>() <= max_reach::<T>()
}

/// Packing the parts of an address into two words loses nothing: the words fit,
/// and unpacking them gives the parts back.
pub proof fn lemma_pack_unpack<T: BitStore>(base: int, head: int, len: int)
    requires
        valid_parts::<T>(base, head, len),
    ensures
        0 <= packed_ptr::<T>(base, head) <= usize::MAX,
        0 <= packed_len(head, len) <= usize::MAX,
        unpacked::<T>(packed_ptr::<T>(base, head), packed_len(head, len)) == (BitSpan {
            base,
            head,
            len,
        }),
{
    T::lemma_width();
    let span = BitSpan { base, head, len };
    lemma_span_extent::<T>(span);
    let bytes = T::BITS as int / 8;
    assert(usize::MAX % 8 == 7) by {
        assert(usize::MAX == 0xffff_ffff || usize::MAX == 0xffff_ffff_ffff_ffff);
    }
    let reach = max_reach::<T>();
    lemma_fundamental_div_mod(usize::MAX as int, bytes);
    lemma_fundamental_div_mod_converse(
        packed_ptr::<T>(base, head),
        bytes,
        base,
        head / 8,
    );
    if head > 0 || len > 0 {
        assert((base + 1) * bytes <= reach * bytes) by (nonlinear_arith)
            requires
                base + 1 <= reach,
                0 < bytes,
        ;
        assert((base + 1) * bytes == base * bytes + bytes) by (nonlinear_arith);
    } else {
        assert(base * bytes <= reach * bytes) by (nonlinear_arith)
            requires
                base <= reach,
                0 < bytes,
        ;
    }
    assert(bytes * reach == reach * bytes) by (nonlinear_arith);
}

/// A span of `n` whole elements from the start of a buffer is valid if its
/// bits are no more than an address can hold.
pub proof fn lemma_whole_valid<T: BitStore>(n: int)
    requires
        0 <= n,
        n * T::BITS <= MAX_BITS,
    ensures
        valid_parts::<T>(0, 0, n * T::BITS),
        (BitSpan { base: 0, head: 0, len: n * T::BITS }).elements::<T>() == n,
{
    T::lemma_width();
    let w = T::BITS as int;
    let bytes = w / 8;
    lemma_fundamental_div_mod_converse(n * w + w - 1, w, n, w - 1);
    lemma_fundamental_div_mod(MAX_BITS as int, w);
    lemma_fundamental_div_mod(usize::MAX as int, bytes);
    let limit = MAX_BITS as int / w;
    let reach = max_reach::<T>();
    assert(n <= limit) by (nonlinear_arith)
        requires
            n * w <= MAX_BITS,
            MAX_BITS as int == w * limit + (MAX_BITS as int) % w,
            0 <= (MAX_BITS as int) % w < w,
            0 < w,
    ;
    assert(n <= reach) by (nonlinear_arith)
        requires
            0 <= n,
            n * w <= usize::MAX,
            w == bytes * 8,
            usize::MAX as int == bytes * reach + (usize::MAX as int) % bytes,
            0 <= (usize::MAX as int) % bytes < bytes,
            0 < bytes,
    ;
}

/// A span that starts inside a valid span and ends inside it is valid.
pub proof fn lemma_sub_valid<T: BitStore>(span: BitSpan, from: int, to: int)
    requires
        valid_parts::<T>(span.base, span.head, span.len),
        0 <= from <= to <= span.len,
    ensures
        valid_parts::<T>(
            span.sub::<T>(from, to).base,
            span.sub::<T>(from, to).head,
            span.sub::<T>(from, to).len,
        ),
        span.sub::<T>(from, to).start::<T>() == span.start::<T>() + from,
        span.sub::<T>(from, to).end::<T>() == span.start::<T>() + to,
        span.sub::<T>(from, to).base + span.sub::<T>(from, to).elements::<T>() <= span.base
            + span.elements::<T>(),
{
    T::lemma_width();
    let w = T::BITS as int;
    let sub = span.sub::<T>(from, to);
    let skip = (span.head + from) / w;
    lemma_fundamental_div_mod(span.head + from, w);
    assert(w * skip == skip * w) by (nonlinear_arith);
    assert((span.base + skip) * w == span.base * w + skip * w) by (nonlinear_arith);
    // sub.head + sub.len + w - 1 == span.head + to + w - 1 - skip * w
    lemma_fundamental_div_mod(sub.head + sub.len + w - 1, w);
    lemma_fundamental_div_mod(span.head + to + w - 1, w);
    lemma_fundamental_div_mod(span.head + span.len + w - 1, w);
    lemma_div_is_ordered(span.head + to + w - 1, span.head + span.len + w - 1, w);
    let a = (sub.head + sub.len + w - 1) / w;
    let b = (span.head + to + w - 1) / w;
    assert(a + skip == b) by (nonlinear_arith)
        requires
            0 < w,
            sub.head + sub.len + w - 1 == w * a + (sub.head + sub.len + w - 1) % w,
            span.head + to + w - 1 == w * b + (span.head + to + w - 1) % w,
            0 <= (sub.head + sub.len + w - 1) % w < w,
            0 <= (span.head + to + w - 1) % w < w,
            sub.head + sub.len + w - 1 + skip * w == span.head + to + w - 1,
    ;
    assert(0 <= skip) by (nonlinear_arith)
        requires
            0 < w,
            0 <= span.head + from,
            span.head + from == w * skip + (span.head + from) % w,
            0 <= (span.head + from) % w < w,
    ;
    lemma_div_is_ordered(sub.head + sub.len + w - 1, span.head + span.len + w - 1, w);
}

impl<T: BitStore> BitPtr<T> {
    /// The address holds a head inside one element and a length inside the
    /// limits of an address.
    #[verifier::type_invariant]
    pub closed spec fn wf(&self) -> bool {
        valid_parts::<T>(
            unpacked::<T>(self.ptr as int, self.len as int).base,
            unpacked::<T>(self.ptr as int, self.len as int).head,
            unpacked::<T>(self.ptr as int, self.len as int).len,
        )
    }

    /// Packs parts that are known to make an address.
    fn encode(base: usize, head: u8, len: usize) -> (ptr: Self)
        requires
            valid_parts::<T>(base as int, head as int, len as int),
        ensures
            ptr@ == (BitSpan { base: base as int, head: head as int, len: len as int }),
    {
        proof {
            T::lemma_width();
            lemma_pack_unpack::<T>(base as int, head as int, len as int);
            let bytes = T::BITS as int / 8;
            assert(0 <= base * bytes) by (nonlinear_arith)
                requires
                    0 <= base,
                    0 < bytes,
            ;
        }
        let bytes = (T::BITS / 8) as usize;
        BitPtr { ptr: base * bytes + (head / 8) as usize, len: len * 8 + (head % 8) as usize, _ty: PhantomData }
    }

    /// What holds of every address: its parts make one.
    pub proof fn lemma_wf(&self)
        requires
            self.wf(),
        ensures
            valid_parts::<T>(self@.base, self@.head, self@.len),
    {
    }

    /// The largest number of elements that one address can reach into.
    pub fn max_elts() -> (n: usize)
        ensures
            n == max_elts::<T>(),
    {
        proof {
            T::lemma_width();
        }
        MAX_BITS / (T::BITS as usize) + 1
    }

    /// The address of no bits, at the start of any buffer.
    pub fn empty() -> (ptr: Self)
        ensures
            ptr@ == (BitSpan { base: 0, head: 0, len: 0 }),
    {
        proof {
            T::lemma_width();
        }
        Self::encode(0, 0, 0)
    }

    /// Tells whether `(base, head, len)` make an address.
    pub fn validate(base: usize, head: u8, len: usize) -> (res: Result<(), BitError>)
        ensures
            res is Ok <==> valid_parts::<T>(base as int, head as int, len as int),
            res == Err::<(), BitError>(BitError::HeadOutOfRange) <==> head >= T::BITS,
            res == Err::<(), BitError>(BitError::CapacityExceeded) <==> head < T::BITS
                && !valid_parts::<T>(base as int, head as int, len as int),
    {
        proof {
            T::lemma_width();
        }
        if head >= T::BITS {
            return Err(BitError::HeadOutOfRange);
        }
        if len > MAX_BITS {
            return Err(BitError::CapacityExceeded);
        }
        let width = T::BITS as usize;
        let elts = (head as usize + len + (width - 1)) / width;
        let reach = usize::MAX / (width / 8);
        if elts > Self::max_elts() || base > reach || elts > reach - base {
            return Err(BitError::CapacityExceeded);
        }
        Ok(())
    }

    /// Makes the address of `len` bits that start at place `head` of element
    /// `base`, or says why there is none.
    pub fn new(base: usize, head: u8, len: usize) -> (res: Result<Self, BitError>)
        ensures
            res is Ok <==> valid_parts::<T>(base as int, head as int, len as int),
            res is Ok ==> res->Ok_0@ == (BitSpan {
                base: base as int,
                head: head as int,
                len: len as int,
            }),
            res is Err ==> res->Err_0 == if head >= T::BITS {
                BitError::HeadOutOfRange
            } else {
                BitError::CapacityExceeded
            },
    {
        match Self::validate(base, head, len) {
            Ok(()) => Ok(Self::encode(base, head, len)),
            Err(e) => Err(e),
        }
    }

    /// Makes the address from parts that are known to make one.
    pub fn new_unchecked(base: usize, head: u8, len: usize) -> (ptr: Self)
        requires
            valid_parts::<T>(base as int, head as int, len as int),
        ensures
            ptr@ == (BitSpan { base: base as int, head: head as int, len: len as int }),
    {
        Self::encode(base, head, len)
    }

    /// The parts of the address: element index, head and length.
    pub fn raw_parts(&self) -> (parts: (usize, u8, usize))
        ensures
            parts.0 == self@.base,
            parts.1 == self@.head,
            parts.2 == self@.len,
    {
        (self.base(), self.head(), self.len())
    }

    /// The index of the element that holds the first bit.
    pub fn base(&self) -> (base: usize)
        ensures
            base == self@.base,
    {
        proof {
            T::lemma_width();
        }
        self.ptr / ((T::BITS / 8) as usize)
    }

    /// The place of the first bit in its element.
    pub fn head(&self) -> (head: u8)
        ensures
            head == self@.head,
    {
        proof {
            T::lemma_width();
        }
        let bytes = (T::BITS / 8) as usize;
        ((self.ptr % bytes) * 8 + self.len % 8) as u8
    }

    /// The number of bits.
    pub fn len(&self) -> (len: usize)
        ensures
            len == self@.len,
    {
        self.len / 8
    }

    /// The number of elements that the span reaches into.
    pub fn elements(&self) -> (n: usize)
        ensures
            n == self@.elements::<T>(),
    {
        proof {
            use_type_invariant(self);
            T::lemma_width();
        }
        let width = T::BITS as usize;
        (self.head() as usize + self.len() + (width - 1)) / width
    }

    /// The place after the last bit in the element that holds it.
    pub fn tail(&self) -> (tail: u8)
        ensures
            tail == self@.tail::<T>(),
    {
        proof {
            use_type_invariant(self);
            T::lemma_width();
        }
        let len = self.len();
        if len == 0 {
            self.head()
        } else {
            let width = T::BITS as usize;
            ((self.head() as usize + len - 1) % width + 1) as u8
        }
    }

    /// Tells whether the span lies inside a buffer of `store_len` elements.
    pub fn fits(&self, store_len: usize) -> (ok: bool)
        ensures
            ok == self@.within::<T>(store_len as int),
    {
        proof {
            use_type_invariant(self);
            T::lemma_width();
            lemma_span_extent::<T>(self@);
            let w = T::BITS as int;
            let n = self@.elements::<T>();
            let last = if self@.len == 0 {
                self@.base
            } else {
                self@.base + n - 1
            };
            if last < store_len {
                lemma_scale(last, store_len as int, w);
            } else {
                lemma_scale(store_len as int, last, w);
            }
        }
        let base = self.base();
        if self.len() == 0 {
            base < store_len || (base == store_len && self.head() == 0)
        } else {
            base + self.elements() <= store_len
        }
    }
}

/// The elements of a span hold its bits: the last bit sits in the last element.
pub proof fn lemma_span_extent<T: BitStore>(span: BitSpan)
    requires
        span.wf::<T>(),
    ensures
        0 <= span.elements::<T>(),
        span.len == 0 ==> span.elements::<T>() == (if span.head == 0 {
            0int
        } else {
            1int
        }),
        span.len > 0 ==> {
            &&& span.elements::<T>() >= 1
            &&& 0 < span.tail::<T>() <= T::BITS
            &&& span.head + span.len == (span.elements::<T>() - 1) * T::BITS + span.tail::<T>()
            &&& span.end::<T>() == (span.base + span.elements::<T>() - 1) * T::BITS
                + span.tail::<T>()
        },
{
    T::lemma_width();
    let w = T::BITS as int;
    let n = span.elements::<T>();
    lemma_fundamental_div_mod(span.head + span.len + w - 1, w);
    if span.len > 0 {
        let x = span.head + span.len - 1;
        lemma_fundamental_div_mod(x, w);
        // x + w == w * n + r, and x == w * (x / w) + x % w
        assert(n == x / w + 1) by (nonlinear_arith)
            requires
                0 < w,
                x + w == w * n + (x + w) % w,
                0 <= (x + w) % w < w,
                x == w * (x / w) + x % w,
                0 <= x % w < w,
        ;
        assert((n - 1) * w == w * (x / w)) by (nonlinear_arith)
            requires
                n == x / w + 1,
        ;
        assert((span.base + n - 1) * w == span.base * w + (n - 1) * w) by (nonlinear_arith);
        assert(x / w >= 0) by (nonlinear_arith)
            requires
                0 < w,
                0 <= x,
                x == w * (x / w) + x % w,
                0 <= x % w < w,
        ;
    } else {
        let y = span.head + w - 1;
        assert(n == (if span.head == 0 {
            0int
        } else {
            1int
        })) by (nonlinear_arith)
            requires
                0 < w,
                0 <= span.head < w,
                y == span.head + w - 1,
                y == w * n + y % w,
                0 <= y % w < w,
        ;
    }
}

/// Moves the place `head` by `by` bits: returns how many elements the move
/// crosses, negative towards the front, and the place it lands on.
pub fn offset<T: BitStore>(head: u8, by: isize) -> (step: (isize, u8))
    requires
        head < T::BITS,
    ensures
        step.0 * T::BITS + step.1 == head + by,
        step.1 < T::BITS,
{
    proof {
        T::lemma_width();
    }
    let width = T::BITS as usize;
    if by >= 0 {
        let far: usize = head as usize + by as usize;
        proof {
            lemma_fundamental_div_mod(far as int, width as int);
            lemma_div_is_ordered(0, far as int, width as int);
            assert((far as int / width as int) * width == width * (far as int / width as int))
                by (nonlinear_arith);
            assert(8 * (far as int / width as int) <= far) by (nonlinear_arith)
                requires
                    far == width * (far as int / width as int) + far as int % width as int,
                    0 <= far as int % width as int,
                    8 <= width,
                    0 <= far as int / width as int,
            ;
        }
        ((far / width) as isize, (far % width) as u8)
    } else {
        let far: isize = by + head as isize;
        if far >= 0 {
            (0, far as u8)
        } else {
            let short: usize = (-(far + 1)) as usize + 1;
            let q: usize = (short + (width - 1)) / width;
            proof {
                let x = short + width - 1;
                lemma_fundamental_div_mod(x, width as int);
                assert(q * width == width * q) by (nonlinear_arith);
                assert(0 < q && 8 * q <= short + width - 1) by (nonlinear_arith)
                    requires
                        x == width * q + x % (width as int),
                        0 <= x % (width as int) < width,
                        8 <= width,
                        x == short + width - 1,
                        1 <= short,
                ;
                assert((-(q as int)) * width == -(q * width)) by (nonlinear_arith);
            }
            (-(q as isize), (q * width - short) as u8)
        }
    }
}

/// Bit `i` of a span inside a buffer lies in an element of the buffer: in the
/// one that `q` elements after the base, at place `r`, where `q` and `r` are the
/// quotient and remainder of `head + i` by the width.
pub proof fn lemma_locate<T: BitStore>(span: BitSpan, store_len: int, i: int, q: int, r: int)
    requires
        span.wf::<T>(),
        span.within::<T>(store_len),
        0 <= i < span.len,
        0 <= r < T::BITS,
        span.head + i == q * T::BITS + r,
    ensures
        0 <= q,
        span.base + q < store_len,
        span.start::<T>() + i == (span.base + q) * T::BITS + r,
{
    T::lemma_width();
    let w = T::BITS as int;
    assert((span.base + q) * w == span.base * w + q * w) by (nonlinear_arith);
    assert(0 <= q) by (nonlinear_arith)
        requires
            0 < w,
            0 <= r < w,
            0 <= q * w + r,
    ;
    if span.base + q >= store_len {
        lemma_scale(store_len, span.base + q, w);
    }
}

/// A span holds one value throughout exactly when the flat sequence does from
/// the start of the span to its end.
pub proof fn lemma_bits_uniform<C: Cursor, T: BitStore>(span: BitSpan, store: Seq<T>, value: bool)
    requires
        0 <= span.len,
    ensures
        uniform(flat::<C, T>(store), span.start::<T>(), span.end::<T>(), value) <==> (forall|
            i: int,
        |
            0 <= i < span.len ==> #[trigger] span.bits::<C, T>(store)[i] == value),
{
    let bits = span.bits::<C, T>(store);
    let start = span.start::<T>();
    if forall|i: int| 0 <= i < span.len ==> #[trigger] bits[i] == value {
        assert forall|k: int| start <= k < span.end::<T>() implies #[trigger] flat::<C, T>(
            store,
        )[k] == value by {
            assert(bits[k - start] == value);
        }
    }
}

} // verus!
