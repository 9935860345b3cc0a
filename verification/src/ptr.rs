//! Compact bit-pointer descriptors and their arithmetic.
//!
//! A `BitPtr` names a bit range inside some element buffer: the element
//! offset, the starting logical index within that element, and the bit
//! length.  It never owns or reads memory; every operation here is pure
//! pointer arithmetic, so sub-ranging, decomposition and re-alignment all
//! run in constant time.

use vstd::arithmetic::div_mod::{
    lemma_fundamental_div_mod, lemma_fundamental_div_mod_converse,
};
use vstd::prelude::*;

use crate::bits::BitVec;
use crate::order::{width_ok, BitOrder};
use crate::MAX_BITS;

verus! {

#[derive(Clone, Copy, PartialEq, Eq, Structural, Debug)]
pub struct BitPtr {
    pub width: u8,
    pub elem: usize,
    pub head: u8,
    pub len: usize,
}

impl BitPtr {
    /// Absolute bit position of the range's first bit, counted from the
    /// buffer's first element.
    pub open spec fn start(&self) -> int {
        self.elem * self.width + self.head
    }

    pub open spec fn wf(&self) -> bool {
        &&& width_ok(self.width)
        &&& (self.head as int) < self.width as int
        &&& self.len <= MAX_BITS
        &&& self.start() + self.len <= MAX_BITS + 64
    }

    /// Validated construction from raw parts.  Accepted exactly when the
    /// starting index lies inside one element and the denoted range stays
    /// within the addressable limit.
    pub fn new(width: u8, elem: usize, head: u8, len: usize) -> (r: Option<BitPtr>)
        ensures
            r is Some <==> {
                &&& width_ok(width)
                &&& (head as int) < width as int
                &&& len <= MAX_BITS
                &&& elem * width + head + len <= MAX_BITS
            },
            r is Some ==> {
                let p = r.unwrap();
                &&& p.wf()
                &&& p.width == width
                &&& p.elem == elem
                &&& p.head == head
                &&& p.len == len
            },
    {
        if !(width == 8 || width == 16 || width == 32 || width == 64) {
            return None;
        }
        if head >= width {
            return None;
        }
        if len > MAX_BITS {
            return None;
        }
        let w = width as usize;
        if elem > MAX_BITS / w {
            proof {
                lemma_fundamental_div_mod(MAX_BITS as int, w as int);
                assert(elem * (w as int) > MAX_BITS) by (nonlinear_arith)
                    requires
                        elem > MAX_BITS as int / (w as int),
                        MAX_BITS as int == (w as int) * (MAX_BITS as int / (w as int)) + (
                        MAX_BITS as int) % (w as int),
                        0 <= (MAX_BITS as int) % (w as int) < w as int,
                        w > 0,
                ;
            }
            return None;
        }
        proof {
            lemma_fundamental_div_mod(MAX_BITS as int, w as int);
            assert(elem * (w as int) <= MAX_BITS) by (nonlinear_arith)
                requires
                    elem <= MAX_BITS as int / (w as int),
                    MAX_BITS as int == (w as int) * (MAX_BITS as int / (w as int)) + (
                    MAX_BITS as int) % (w as int),
                    0 <= (MAX_BITS as int) % (w as int),
                    w > 0,
            ;
        }
        let base = elem * w;
        if len > MAX_BITS - head as usize || base > MAX_BITS - head as usize - len {
            return None;
        }
        Some(BitPtr { width, elem, head, len })
    }

    pub fn is_empty(&self) -> (r: bool)
        ensures
            r == (self.len == 0),
    {
        self.len == 0
    }

    /// The absolute start, as a machine value.
    fn start_abs(&self) -> (r: usize)
        requires
            self.wf(),
        ensures
            r as int == self.start(),
    {
        self.elem * self.width as usize + self.head as usize
    }

    /// The narrower range `[from, to)` of this range's bits.
    pub fn sub(&self, from: usize, to: usize) -> (r: BitPtr)
        requires
            self.wf(),
            from <= to <= self.len,
        ensures
            r.wf(),
            r.width == self.width,
            r.start() == self.start() + from,
            r.len == to - from,
    {
        let w = self.width as usize;
        let abs = self.start_abs() + from;
        let elem = abs / w;
        let head = (abs % w) as u8;
        proof {
            lemma_fundamental_div_mod(abs as int, w as int);
        }
        BitPtr { width: self.width, elem, head, len: to - from }
    }

    /// Move the range by a signed bit count, carrying across element
    /// boundaries.  `None` when the result would leave the addressable
    /// range.
    pub fn offset(&self, by: isize) -> (r: Option<BitPtr>)
        requires
            self.wf(),
        ensures
            r is Some <==> 0 <= self.start() + by && self.start() + by + self.len <= MAX_BITS,
            r is Some ==> {
                let p = r.unwrap();
                &&& p.wf()
                &&& p.width == self.width
                &&& p.start() == self.start() + by
                &&& p.len == self.len
            },
    {
        let w = self.width as usize;
        let s = self.start_abs();
        let target: usize;
        if by >= 0 {
            let d = by as usize;
            if d > MAX_BITS || s > MAX_BITS - d || s + d > MAX_BITS - self.len {
                return None;
            }
            target = s + d;
        } else {
            if by == isize::MIN {
                return None;
            }
            let d = (-by) as usize;
            if d > s {
                return None;
            }
            if s - d > MAX_BITS - self.len {
                return None;
            }
            target = s - d;
        }
        let elem = target / w;
        let head = (target % w) as u8;
        proof {
            lemma_fundamental_div_mod(target as int, w as int);
        }
        Some(BitPtr { width: self.width, elem, head, len: self.len })
    }

    /// Signed bit distance from this range's start to `other`'s: positive
    /// when `other` addresses a later bit.
    pub fn offset_from(&self, other: &BitPtr) -> (r: isize)
        requires
            self.wf(),
            other.wf(),
            self.width == other.width,
        ensures
            r as int == other.start() - self.start(),
    {
        let a = self.start_abs();
        let b = other.start_abs();
        if b >= a {
            (b - a) as isize
        } else {
            -((a - b) as isize)
        }
    }

    /// Signed distance between the two ranges' first physical bit lanes,
    /// counted in the element layout: the policy maps each head index
    /// to its electrical position first.
    pub fn electrical_distance(&self, other: &BitPtr, order: &BitOrder) -> (r: isize)
        requires
            self.wf(),
            other.wf(),
            order.wf(),
            self.width == other.width,
            order.spec_width() == self.width as int,
        ensures
            r as int == (other.elem * other.width + order.at_spec(other.head as int)) - (
            self.elem * self.width + order.at_spec(self.head as int)),
    {
        let w = self.width as usize;
        let a = self.elem * w + order.at(self.head) as usize;
        let b = other.elem * w + order.at(other.head) as usize;
        proof {
            assert(self.elem * (w as int) + w <= MAX_BITS + 64 + w);
            assert(other.elem * (w as int) + w <= MAX_BITS + 64 + w);
        }
        if b >= a {
            (b - a) as isize
        } else {
            -((a - b) as isize)
        }
    }

    /// How many storage elements the range touches.
    pub fn span_elems(&self) -> (r: usize)
        requires
            self.wf(),
        ensures
            self.len == 0 ==> r == 0,
            self.len > 0 ==> r as int == (self.head + self.len + self.width - 1) / (
            self.width as int),
    {
        if self.len == 0 {
            return 0;
        }
        let w = self.width as usize;
        (self.head as usize + self.len + (w - 1)) / w
    }

    /// Split the range into its partial head element, its run of whole
    /// elements, and its partial tail element.  The three pieces abut, cover
    /// the range exactly, and the body both starts on an element boundary
    /// and spans a whole number of elements.  A range inside a single
    /// element collapses into the head piece alone.
    pub fn decompose(&self) -> (r: (BitPtr, BitPtr, BitPtr))
        requires
            self.wf(),
        ensures
            r.0.wf() && r.1.wf() && r.2.wf(),
            r.0.width == self.width && r.1.width == self.width && r.2.width == self.width,
            r.0.start() == self.start(),
            r.1.start() == self.start() + r.0.len,
            r.2.start() == self.start() + r.0.len + r.1.len,
            r.0.len + r.1.len + r.2.len == self.len,
            (r.1.len as int) % (self.width as int) == 0,
            r.1.len > 0 ==> r.1.start() % (self.width as int) == 0,
            r.2.len > 0 ==> r.2.start() % (self.width as int) == 0,
            (r.2.len as int) < self.width as int,
            self.head == 0 ==> r.0.len == 0,
    {
        let w = self.width as usize;
        let head_len = if self.head == 0 {
            0
        } else {
            let room = w - self.head as usize;
            if self.len < room {
                self.len
            } else {
                room
            }
        };
        let rem = self.len - head_len;
        let tail_len = rem % w;
        let body_len = rem - tail_len;
        proof {
            lemma_fundamental_div_mod(rem as int, w as int);
            lemma_fundamental_div_mod_converse(
                body_len as int,
                w as int,
                rem as int / w as int,
                0,
            );
        }
        let h = self.sub(0, head_len);
        let b = self.sub(head_len, head_len + body_len);
        let t = self.sub(head_len + body_len, self.len);
        proof {
            let wi = w as int;
            if body_len > 0 || tail_len > 0 {
                // The region after the head piece begins on an element
                // boundary.
                if self.head == 0 {
                    lemma_fundamental_div_mod_converse(self.start(), wi, self.elem as int, 0);
                    assert(self.start() % wi == 0);
                } else {
                    assert(head_len == wi - self.head);
                    lemma_fundamental_div_mod_converse(
                        self.start() + head_len,
                        wi,
                        self.elem as int + 1,
                        0,
                    );
                }
                assert((self.start() + head_len) % wi == 0);
                let q = (self.start() + head_len) / wi;
                lemma_fundamental_div_mod(self.start() + head_len, wi);
                assert(self.start() + head_len == wi * q);
                assert(body_len as int == wi * (rem as int / wi));
                assert(wi * q + wi * (rem as int / wi) == wi * (q + rem as int / wi))
                    by (nonlinear_arith);
                lemma_fundamental_div_mod_converse(
                    self.start() + head_len + body_len,
                    wi,
                    q + rem as int / wi,
                    0,
                );
                assert((self.start() + head_len + body_len) % wi == 0);
            }
        }
        (h, b, t)
    }

    /// Re-express the range at another register width: the largest middle
    /// piece that both falls on this range's whole-element body and aligns
    /// to the new width becomes the center, described at `new_width`; the
    /// flanks keep the original width.
    #[verifier::rlimit(60)]
    pub fn align_to(&self, new_width: u8) -> (r: (BitPtr, BitPtr, BitPtr))
        requires
            self.wf(),
            width_ok(new_width),
        ensures
            r.0.wf() && r.1.wf() && r.2.wf(),
            r.0.width == self.width && r.1.width == new_width && r.2.width == self.width,
            r.0.start() == self.start(),
            r.1.start() == self.start() + r.0.len,
            r.2.start() == self.start() + r.0.len + r.1.len,
            r.0.len + r.1.len + r.2.len == self.len,
            (r.1.len as int) % (new_width as int) == 0,
            r.1.len > 0 ==> r.1.start() % (new_width as int) == 0,
    {
        let nw = new_width as usize;
        let (h, b, t) = self.decompose();
        let b_start = b.start_abs();
        let b_end = b_start + b.len;
        // Narrow the whole-element body to the new width's boundaries.
        let c_start = if b_start % nw == 0 {
            b_start
        } else {
            b_start + (nw - b_start % nw)
        };
        if b.len == 0 || c_start > b_end || (b_end - c_start) < nw {
            // No aligned center: everything stays in the left flank, and the
            // empty center and right flank sit at the range's end.
            let left = self.sub(0, self.len);
            let end = self.start_abs() + self.len;
            let center = BitPtr {
                width: new_width,
                elem: end / nw,
                head: (end % nw) as u8,
                len: 0,
            };
            let right = self.sub(self.len, self.len);
            proof {
                lemma_fundamental_div_mod(end as int, nw as int);
                lemma_fundamental_div_mod_converse(0, new_width as int, 0, 0);
            }
            return (left, center, right);
        }
        let c_len = ((b_end - c_start) / nw) * nw;
        proof {
            lemma_fundamental_div_mod(c_start as int, nw as int);
            lemma_fundamental_div_mod((b_end - c_start) as int, nw as int);
            lemma_fundamental_div_mod_converse(
                c_len as int,
                nw as int,
                (b_end - c_start) as int / nw as int,
                0,
            );
            if b_start as int % nw as int != 0 {
                lemma_fundamental_div_mod(b_start as int, nw as int);
                lemma_fundamental_div_mod_converse(
                    c_start as int,
                    nw as int,
                    b_start as int / nw as int + 1,
                    0,
                );
            }
        }
        let off = c_start - self.start_abs();
        let left = self.sub(0, off);
        let center_elem = c_start / nw;
        proof {
            lemma_fundamental_div_mod(c_start as int, nw as int);
            lemma_fundamental_div_mod_converse(c_start as int, nw as int, c_start as int / nw as int, 0);
        }
        let center = BitPtr { width: new_width, elem: center_elem, head: 0, len: c_len };
        let right = self.sub(off + c_len, self.len);
        proof {
            assert(center.start() == nw as int * (c_start as int / nw as int));
            lemma_fundamental_div_mod(c_start as int, nw as int);
            assert(center.start() == c_start as int);
        }
        (left, center, right)
    }
}

impl BitVec {
    /// The pointer describing bits `[from, to)` of this buffer.
    pub fn range_ptr(&self, from: usize, to: usize) -> (r: BitPtr)
        requires
            self.wf(),
            from <= to <= self@.len(),
        ensures
            r.wf(),
            r.width as int == self.spec_width(),
            r.start() == self.head + from,
            r.len == to - from,
    {
        let w = self.order.width() as usize;
        let abs = self.head as usize + from;
        let elem = abs / w;
        let head = (abs % w) as u8;
        proof {
            lemma_fundamental_div_mod(abs as int, w as int);
        }
        BitPtr { width: self.order.width(), elem, head, len: to - from }
    }

    /// The checked form of `range_ptr`: `None` exactly when the bounds are
    /// inverted or leave the buffer's valid length.
    pub fn try_range_ptr(&self, from: usize, to: usize) -> (r: Option<BitPtr>)
        requires
            self.wf(),
        ensures
            r is Some <==> from <= to <= self@.len(),
            r is Some ==> {
                &&& r.unwrap().wf()
                &&& r.unwrap().start() == self.head + from
                &&& r.unwrap().len == to - from
            },
    {
        if from <= to && to <= self.length() {
            Some(self.range_ptr(from, to))
        } else {
            None
        }
    }

    /// The pointer describing the whole buffer.
    pub fn bitptr(&self) -> (r: BitPtr)
        requires
            self.wf(),
        ensures
            r.wf(),
            r.width as int == self.spec_width(),
            r.start() == self.head as int,
            r.len == self@.len(),
    {
        self.range_ptr(0, self.length())
    }

    /// Split the buffer's range at `at`: the two pointers abut there and
    /// together cover the whole range.
    pub fn split_at(&self, at: usize) -> (r: (BitPtr, BitPtr))
        requires
            self.wf(),
            at <= self@.len(),
        ensures
            r.0.wf() && r.1.wf(),
            r.0.start() == self.head as int,
            r.0.len == at,
            r.1.start() == self.head + at,
            r.1.len == self@.len() - at,
    {
        (self.range_ptr(0, at), self.range_ptr(at, self.length()))
    }

    /// The first bit and the pointer to the rest; `None` when empty.
    pub fn split_first(&self) -> (r: Option<(bool, BitPtr)>)
        requires
            self.wf(),
        ensures
            self@.len() == 0 ==> r is None,
            self@.len() > 0 ==> {
                &&& r is Some
                &&& r.unwrap().0 == self@[0]
                &&& r.unwrap().1.start() == self.head + 1
                &&& r.unwrap().1.len == self@.len() - 1
            },
    {
        if self.length() == 0 {
            None
        } else {
            Some((self.get(0).unwrap(), self.range_ptr(1, self.length())))
        }
    }

    /// The last bit and the pointer to the rest; `None` when empty.
    pub fn split_last(&self) -> (r: Option<(bool, BitPtr)>)
        requires
            self.wf(),
        ensures
            self@.len() == 0 ==> r is None,
            self@.len() > 0 ==> {
                &&& r is Some
                &&& r.unwrap().0 == self@[self@.len() - 1]
                &&& r.unwrap().1.start() == self.head as int
                &&& r.unwrap().1.len == self@.len() - 1
            },
    {
        if self.length() == 0 {
            None
        } else {
            Some((
                self.get(self.length() - 1).unwrap(),
                self.range_ptr(0, self.length() - 1),
            ))
        }
    }
}

} // verus!
