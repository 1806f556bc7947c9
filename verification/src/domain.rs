//! Domains: which elements a span owns whole and which it shares.

use crate::model::{lemma_cell, lemma_position, lemma_scale};
use crate::pointer::{lemma_span_extent, valid_parts, BitPtr, BitSpan};
use crate::store::BitStore;
use core::ops::Range;
use vstd::prelude::*;

verus! {

/// The shape of a span over the elements it touches.
///
/// An edge is an element of which the span holds only some places, so another
/// view may hold the rest; it is named by its index and the bounds of the places
/// held. The body is the range of indices of the elements held whole.
pub enum BitDomain {
    /// No bits.
    Empty,
    /// Inside one element and reaching neither of its ends:
    /// first place, element, place after the last.
    Minor(u8, usize, u8),
    /// From inside one element to inside a later one:
    /// first place, first element, body, last element, place after the last.
    Major(u8, usize, Range<usize>, usize, u8),
    /// From inside one element to the end of an element:
    /// first place, first element, body.
    PartialHead(u8, usize, Range<usize>),
    /// From the start of an element to inside an element:
    /// body, last element, place after the last.
    PartialTail(Range<usize>, usize, u8),
    /// From the start of an element to the end of an element: body.
    Spanning(Range<usize>),
}

/// The cells `(element, place)` of places `from` up to `to` of one element.
pub open spec fn edge_cells(elt: int, from: int, to: int) -> Seq<(int, int)> {
    Seq::new((to - from) as nat, |i: int| (elt, from + i))
}

/// The cells of every place of the elements `start` up to `end`, in order.
pub open spec fn body_cells(start: int, end: int, width: int) -> Seq<(int, int)> {
    Seq::new(((end - start) * width) as nat, |k: int| (start + k / width, k % width))
}

impl BitDomain {
    /// The cells that the parts of the domain name, part after part.
    pub open spec fn cells(self, width: int) -> Seq<(int, int)> {
        match self {
            BitDomain::Empty => Seq::empty(),
            BitDomain::Minor(h, elt, t) => edge_cells(elt as int, h as int, t as int),
            BitDomain::Major(h, head, body, tail, t) => edge_cells(head as int, h as int, width)
                + body_cells(body.start as int, body.end as int, width) + edge_cells(
                tail as int,
                0,
                t as int,
            ),
            BitDomain::PartialHead(h, head, body) => edge_cells(head as int, h as int, width)
                + body_cells(body.start as int, body.end as int, width),
            BitDomain::PartialTail(body, tail, t) => body_cells(
                body.start as int,
                body.end as int,
                width,
            ) + edge_cells(tail as int, 0, t as int),
            BitDomain::Spanning(body) => body_cells(body.start as int, body.end as int, width),
        }
    }

    /// Tells whether the domain is a whole number of elements with no edge.
    pub fn is_spanning(&self) -> (b: bool)
        ensures
            b == (*self is Spanning),
    {
        match self {
            BitDomain::Spanning(_) => true,
            _ => false,
        }
    }
}

impl BitSpan {
    /// The cells `(element, place)` of the bits of the span, first to last.
    pub open spec fn cells<T: BitStore>(self) -> Seq<(int, int)> {
        Seq::new(
            self.len as nat,
            |i: int| (self.base + (self.head + i) / (T::BITS as int), (self.head + i) % (T::BITS as int)),
        )
    }

    /// The domain of the span: empty if it has no bits; else spanning if it
    /// reaches both ends of its elements, partial at the head or at the tail if
    /// it reaches one end, minor if it reaches neither and lies in one element,
    /// major if it reaches neither and lies in several.
    pub open spec fn domain<T: BitStore>(self) -> BitDomain {
        let width = T::BITS as int;
        let first = self.base as usize;
        let last = (self.base + self.elements::<T>() - 1) as usize;
        let h = self.head as u8;
        let t = self.tail::<T>() as u8;
        if self.len == 0 {
            BitDomain::Empty
        } else if self.head == 0 && self.tail::<T>() == width {
            BitDomain::Spanning(Range { start: first, end: (last + 1) as usize })
        } else if self.tail::<T>() == width {
            BitDomain::PartialHead(h, first, Range { start: (first + 1) as usize, end: (last + 1) as usize })
        } else if self.head == 0 {
            BitDomain::PartialTail(Range { start: first, end: last }, last, t)
        } else if self.elements::<T>() == 1 {
            BitDomain::Minor(h, first, t)
        } else {
            BitDomain::Major(h, first, Range { start: (first + 1) as usize, end: last }, last, t)
        }
    }
}

impl<T: BitStore> BitPtr<T> {
    /// Classifies the span of the address.
    pub fn domain(&self) -> (domain: BitDomain)
        ensures
            domain == self@.domain::<T>(),
    {
        proof {
            use_type_invariant(self);
            T::lemma_width();
            self.lemma_wf();
            lemma_span_extent::<T>(self@);
        }
        if self.len() == 0 {
            return BitDomain::Empty;
        }
        let h = self.head();
        let t = self.tail();
        let first = self.base();
        let last = first + (self.elements() - 1);
        if h == 0 && t == T::BITS {
            BitDomain::Spanning(Range { start: first, end: last + 1 })
        } else if t == T::BITS {
            BitDomain::PartialHead(h, first, Range { start: first + 1, end: last + 1 })
        } else if h == 0 {
            BitDomain::PartialTail(Range { start: first, end: last }, last, t)
        } else if first == last {
            BitDomain::Minor(h, first, t)
        } else {
            BitDomain::Major(h, first, Range { start: first + 1, end: last }, last, t)
        }
    }
}

/// The cell of bit `i` of a span, from where the bit lies counted from the
/// start of the first element.
proof fn lemma_span_cell<T: BitStore>(span: BitSpan, i: int, q: int, r: int)
    requires
        span.wf::<T>(),
        0 <= i < span.len,
        0 <= q,
        0 <= r < T::BITS,
        span.head + i == q * T::BITS + r,
    ensures
        span.cells::<T>()[i] == (span.base + q, r),
{
    lemma_cell(q, r, T::BITS as int);
}

/// The cell at position `k` of a body.
proof fn lemma_body_cell(start: int, end: int, width: int, k: int)
    requires
        0 < width,
        start <= end,
        0 <= k < (end - start) * width,
    ensures
        body_cells(start, end, width)[k] == (start + k / width, k % width),
        0 <= k / width < end - start,
        0 <= k % width < width,
        k == (k / width) * width + k % width,
{
    lemma_position(k, end - start, width);
}

/// The parts of a domain, taken one after another, name every bit of the span
/// once and in order: no bit is left out and none is named twice.
pub proof fn lemma_domain_covers<T: BitStore>(span: BitSpan)
    requires
        valid_parts::<T>(span.base, span.head, span.len),
    ensures
        span.domain::<T>().cells(T::BITS as int) =~= span.cells::<T>(),
{
    T::lemma_width();
    lemma_span_extent::<T>(span);
    let w = T::BITS as int;
    let n = span.elements::<T>();
    let t = span.tail::<T>();
    let parts = span.domain::<T>().cells(w);
    if span.len > 0 {
        lemma_scale(0, n - 1, w);
        let head_len = if span.head == 0 {
            0
        } else if n == 1 && t < w {
            t - span.head
        } else {
            w - span.head
        };
        let tail_len = if t == w || (n == 1 && span.head != 0) {
            0
        } else {
            t
        };
        let first_body = if span.head == 0 {
            span.base
        } else {
            span.base + 1
        };
        let end_body = if t == w {
            span.base + n
        } else if n == 1 && span.head != 0 {
            first_body
        } else {
            span.base + n - 1
        };
        lemma_scale(first_body, end_body, w);
        lemma_scale(span.base, span.base + n - 1, w);
        lemma_scale(0, end_body - first_body, w);
        assert((n - 1) * w == (span.base + n - 1) * w - span.base * w) by (nonlinear_arith);
        assert((span.base + 1) * w == span.base * w + w) by (nonlinear_arith);
        assert((span.base + n) * w == (span.base + n - 1) * w + w) by (nonlinear_arith);
        let body_len = (end_body - first_body) * w;
        assert(head_len + body_len + tail_len == span.len);
        assert(parts.len() == span.len);
        assert forall|i: int| 0 <= i < span.len implies parts[i] == span.cells::<T>()[i] by {
            if i < head_len {
                lemma_span_cell::<T>(span, i, 0, span.head + i);
            } else if i < head_len + body_len {
                let k = i - head_len;
                lemma_body_cell(first_body, end_body, w, k);
                let q = first_body - span.base + k / w;
                assert(q * w == (first_body - span.base) * w + (k / w) * w) by (nonlinear_arith)
                    requires
                        q == first_body - span.base + k / w,
                ;
                assert((first_body - span.base) * w == (if span.head == 0 {
                    0
                } else {
                    w
                })) by (nonlinear_arith)
                    requires
                        first_body - span.base == (if span.head == 0 {
                            0int
                        } else {
                            1int
                        }),
                ;
                lemma_span_cell::<T>(span, i, q, k % w);
            } else {
                let j = i - head_len - body_len;
                lemma_span_cell::<T>(span, i, n - 1, j);
            }
        }
    }
}

/// Where the parts of a domain lie in the flat sequence of a buffer that the
/// span lies inside: each edge inside its element, the body from element
/// boundary to element boundary, the parts adjoining from the start of the span
/// to its end.
pub proof fn lemma_domain_ranges<T: BitStore>(span: BitSpan, store_len: int)
    requires
        valid_parts::<T>(span.base, span.head, span.len),
        span.within::<T>(store_len),
    ensures
        match span.domain::<T>() {
            BitDomain::Empty => span.len == 0,
            BitDomain::Minor(h, elt, t) => {
                &&& 0 < h < t < T::BITS
                &&& elt < store_len
                &&& span.start::<T>() == elt * T::BITS + h
                &&& span.end::<T>() == elt * T::BITS + t
            },
            BitDomain::Major(h, head, body, tail, t) => {
                &&& 0 < h < T::BITS
                &&& 0 < t < T::BITS
                &&& head + 1 == body.start <= body.end == tail < store_len
                &&& span.start::<T>() == head * T::BITS + h
                &&& body.start * T::BITS == head * T::BITS + T::BITS
                &&& span.end::<T>() == tail * T::BITS + t
            },
            BitDomain::PartialHead(h, head, body) => {
                &&& 0 < h < T::BITS
                &&& head + 1 == body.start <= body.end <= store_len
                &&& span.start::<T>() == head * T::BITS + h
                &&& body.start * T::BITS == head * T::BITS + T::BITS
                &&& span.end::<T>() == body.end * T::BITS
            },
            BitDomain::PartialTail(body, tail, t) => {
                &&& 0 < t < T::BITS
                &&& body.start <= body.end == tail < store_len
                &&& span.start::<T>() == body.start * T::BITS
                &&& span.end::<T>() == tail * T::BITS + t
            },
            BitDomain::Spanning(body) => {
                &&& body.start < body.end <= store_len
                &&& span.start::<T>() == body.start * T::BITS
                &&& span.end::<T>() == body.end * T::BITS
            },
        },
{
    T::lemma_width();
    lemma_span_extent::<T>(span);
    let w = T::BITS as int;
    let n = span.elements::<T>();
    if span.len > 0 {
        let last = span.base + n - 1;
        assert((span.base + 1) * w == span.base * w + w) by (nonlinear_arith);
        assert((last + 1) * w == last * w + w) by (nonlinear_arith);
        if last >= store_len {
            lemma_scale(store_len, last, w);
        }
        if n == 1 {
            assert(span.head + span.len == span.tail::<T>()) by (nonlinear_arith)
                requires
                    n == 1,
                    span.head + span.len == (n - 1) * w + span.tail::<T>(),
            ;
        }
    }
}

} // verus!
