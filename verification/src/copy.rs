//! The accelerated whole-element paths: copy, fill, invert and equality all
//! move or test whole elements as plain bytes, and only the partial head and
//! tail regions go bit by bit.
//!
//! A fast path applies when the operands share one ordering policy, one
//! register width, and the same starting offset within an element (fill and
//! invert need no such condition).  Each fast path's contract is exactly the
//! bit-by-bit path's contract, so the two are observably equivalent wherever
//! both apply.

use vstd::arithmetic::div_mod::{
    lemma_fundamental_div_mod, lemma_fundamental_div_mod_converse, lemma_mod_multiples_vanish,
};
use vstd::prelude::*;

use crate::bits::BitVec;
use crate::order::BitOrder;

verus! {

impl BitOrder {
    /// Whether two policies map every index alike.
    pub fn eq_policy(&self, other: &BitOrder) -> (r: bool)
        ensures
            r <==> self.same_policy(other),
    {
        if self.width != other.width {
            return false;
        }
        if self.table.len() != other.table.len() {
            return false;
        }
        let n = self.table.len();
        let mut i: usize = 0;
        while i < n
            invariant
                i <= n,
                n == self.table@.len(),
                n == other.table@.len(),
                self.width == other.width,
                forall|j: int| 0 <= j < i ==> self.table@[j] == other.table@[j],
            decreases n - i,
        {
            if self.table[i] != other.table[i] {
                return false;
            }
            i = i + 1;
        }
        assert(self.table@ =~= other.table@);
        true
    }
}

impl BitVec {
    /// Copy one whole element's bits by copying its bytes.  Both sides'
    /// ranges start on an element boundary and share the policy, so every
    /// logical index of the element lands on the same physical lane on both
    /// sides.
    fn copy_elem(&mut self, dst_lo: usize, src: &BitVec, src_lo: usize)
        requires
            old(self).wf(),
            src.wf(),
            old(self).order.same_policy(&src.order),
            dst_lo + old(self).spec_width() <= old(self)@.len(),
            src_lo + src.spec_width() <= src@.len(),
            (old(self).head + dst_lo) % old(self).spec_width() == 0,
            (src.head + src_lo) % src.spec_width() == 0,
        ensures
            final(self).wf(),
            final(self).same_shape(old(self)),
            final(self).order == old(self).order,
            final(self)@.len() == old(self)@.len(),
            forall|j: int|
                dst_lo <= j < dst_lo + old(self).spec_width() ==> final(self)@[j] == src@[src_lo
                    + (j - dst_lo)],
            forall|j: int|
                0 <= j < old(self)@.len() && !(dst_lo <= j < dst_lo + old(self).spec_width())
                    ==> final(self)@[j] == old(self)@[j],
    {
        let w = self.order.width() as usize;
        let d = w / 8;
        let dst_e = (self.head as usize + dst_lo) / w;
        let src_e = (src.head as usize + src_lo) / w;
        proof {
            lemma_fundamental_div_mod(self.head + dst_lo, w as int);
            lemma_fundamental_div_mod(src.head + src_lo, w as int);
            assert(src.spec_width() == w as int);
            assert((w as int) * (dst_e as int) == self.head + dst_lo);
            assert((w as int) * (src_e as int) == src.head + src_lo);
            assert(dst_e as int * (w as int) == (w as int) * (dst_e as int)) by (nonlinear_arith);
            assert(src_e as int * (w as int) == (w as int) * (src_e as int)) by (nonlinear_arith);
            old(self).lemma_loc(dst_lo as int);
            old(self).lemma_loc(dst_lo + w - 1);
            src.lemma_loc(src_lo as int);
            src.lemma_loc(src_lo + w - 1);
            lemma_byte_group_bounds(
                w as int,
                d as int,
                dst_e as int,
                old(self).head + dst_lo,
                old(self).bytes@.len() as int,
            );
            lemma_byte_group_bounds(
                w as int,
                d as int,
                src_e as int,
                src.head + src_lo,
                src.bytes@.len() as int,
            );
        }
        let ghost gw = w as int;
        let ghost gd = d as int;
        let mut t: usize = 0;
        while t < d
            invariant
                t <= d,
                gd == gw / 8,
                gw == self.spec_width(),
                self.order == old(self).order,
                self.head == old(self).head,
                self.len == old(self).len,
                self.bytes@.len() == old(self).bytes@.len(),
                dst_e as int * gd + gd <= self.bytes@.len(),
                src_e as int * gd + gd <= src.bytes@.len(),
                forall|bt: int|
                    dst_e as int * gd <= bt < dst_e as int * gd + t as int
                        ==> self.bytes@[bt] == src.bytes@[src_e as int * gd + (bt - dst_e as int
                        * gd)],
                forall|bt: int|
                    0 <= bt < self.bytes@.len() && !(dst_e as int * gd <= bt < dst_e as int * gd
                        + t as int) ==> self.bytes@[bt] == old(self).bytes@[bt],
            decreases d - t,
        {
            let b = src.bytes[src_e * d + t];
            self.bytes.set(dst_e * d + t, b);
            t = t + 1;
        }
        proof {
            assert forall|j: int|
                dst_lo <= j < dst_lo + gw implies self@[j] == src@[src_lo + (j - dst_lo)] by {
                lemma_elem_copy_bit(old(self), self, src, dst_lo as int, src_lo as int, j,
                    dst_e as int, src_e as int);
            }
            assert forall|j: int|
                0 <= j < old(self)@.len() && !(dst_lo <= j < dst_lo + gw) implies self@[j]
                == old(self)@[j] by {
                lemma_elem_frame_bit(old(self), self, dst_lo as int, j, dst_e as int);
            }
        }
    }

    /// The accelerated copy: whole elements of the body move byte-wise,
    /// the partial head and tail regions go bit by bit.  Applicable only
    /// with one policy on both sides and identical head alignment; the
    /// result is exactly the bit-by-bit path's.
    #[verifier::rlimit(100)]
    pub fn copy_bits_fast(&mut self, dst_at: usize, src: &BitVec, src_at: usize, n: usize)
        requires
            old(self).wf(),
            src.wf(),
            dst_at + n <= old(self)@.len(),
            src_at + n <= src@.len(),
            old(self).order.same_policy(&src.order),
            (old(self).head + dst_at) % old(self).spec_width() == (src.head + src_at)
                % src.spec_width(),
        ensures
            final(self).wf(),
            final(self).same_shape(old(self)),
            final(self).order == old(self).order,
            final(self)@.len() == old(self)@.len(),
            forall|j: int|
                dst_at <= j < dst_at + n ==> final(self)@[j] == src@[src_at + (j - dst_at)],
            forall|j: int|
                0 <= j < old(self)@.len() && !(dst_at <= j < dst_at + n) ==> final(self)@[j]
                    == old(self)@[j],
    {
        let w = self.order.width() as usize;
        let off = (self.head as usize + dst_at) % w;
        let head_len = if off == 0 {
            0
        } else {
            let room = w - off;
            if n < room {
                n
            } else {
                room
            }
        };
        self.copy_bits(dst_at, src, src_at, head_len);
        let rem = n - head_len;
        let nwhole = rem / w;
        proof {
            lemma_fundamental_div_mod(rem as int, w as int);
            let wi = w as int;
            let hd = old(self).head + dst_at;
            let sd = src.head + src_at;
            lemma_fundamental_div_mod(hd, wi);
            lemma_fundamental_div_mod(sd, wi);
            if rem > 0 && head_len != 0 {
                // The head piece ran exactly to the element boundary.
                assert(head_len == wi - hd % wi);
                assert(hd == wi * (hd / wi) + hd % wi);
                assert(hd + head_len == wi * (hd / wi) + wi);
                assert(wi * (hd / wi) + wi == wi * (hd / wi + 1)) by (nonlinear_arith);
                assert(hd + head_len == wi * (hd / wi + 1) + 0);
                lemma_fundamental_div_mod_converse(hd + head_len, wi, hd / wi + 1, 0);
                assert(sd == wi * (sd / wi) + sd % wi);
                assert(sd + head_len == wi * (sd / wi) + wi);
                assert(wi * (sd / wi) + wi == wi * (sd / wi + 1)) by (nonlinear_arith);
                assert(sd + head_len == wi * (sd / wi + 1) + 0);
                lemma_fundamental_div_mod_converse(sd + head_len, wi, sd / wi + 1, 0);
            }
        }
        let mut e: usize = 0;
        while e < nwhole
            invariant
                e <= nwhole,
                w == self.spec_width(),
                head_len <= n,
                rem == n - head_len,
                nwhole as int == rem as int / w as int,
                nwhole as int * w as int <= rem,
                dst_at + n <= old(self)@.len(),
                src_at + n <= src@.len(),
                self.wf(),
                self.same_shape(old(self)),
                self.order == old(self).order,
                self.head == old(self).head,
                self@.len() == old(self)@.len(),
                self.order.same_policy(&src.order),
                rem > 0 ==> (old(self).head + dst_at + head_len) % (w as int) == 0,
                rem > 0 ==> (src.head + src_at + head_len) % (w as int) == 0,
                forall|j: int|
                    dst_at <= j < dst_at + head_len + e * (w as int) ==> self@[j] == src@[src_at
                        + (j - dst_at)],
                forall|j: int|
                    0 <= j < old(self)@.len() && !(dst_at <= j < dst_at + head_len + e * (
                    w as int)) ==> self@[j] == old(self)@[j],
            decreases nwhole - e,
        {
            proof {
                assert(e as int * w as int + w as int <= rem) by (nonlinear_arith)
                    requires
                        e < nwhole,
                        nwhole as int == rem as int / w as int,
                        rem as int == w as int * (rem as int / w as int) + rem as int % (
                        w as int),
                        0 <= rem as int % (w as int),
                        w > 0,
                ;
                lemma_mod_multiples_vanish(
                    e as int,
                    old(self).head + dst_at + head_len,
                    w as int,
                );
                lemma_mod_multiples_vanish(e as int, src.head + src_at + head_len, w as int);
                assert((old(self).head + dst_at + head_len + e as int * w as int) % (w as int)
                    == 0);
                assert((src.head + src_at + head_len + e as int * w as int) % (w as int) == 0);
            }
            let dst_lo = dst_at + head_len + e * w;
            let src_lo = src_at + head_len + e * w;
            self.copy_elem(dst_lo, src, src_lo);
            e = e + 1;
            proof {
                assert(e as int * (w as int) == (e as int - 1) * (w as int) + w as int)
                    by (nonlinear_arith);
            }
        }
        proof {
            lemma_fundamental_div_mod(rem as int, w as int);
            assert(nwhole as int * (w as int) == (w as int) * (nwhole as int))
                by (nonlinear_arith);
            assert(nwhole as int * (w as int) == rem - rem as int % (w as int));
        }
        let done = head_len + nwhole * w;
        self.copy_bits(dst_at + done, src, src_at + done, n - done);
    }

    /// Copy `n` bits from `src` into this buffer, taking the accelerated
    /// whole-element path when policies, widths and head alignment coincide,
    /// and the bit-by-bit fallback otherwise.  Both paths meet this one
    /// contract, so the choice is unobservable in the result.
    pub fn copy_from(&mut self, dst_at: usize, src: &BitVec, src_at: usize, n: usize)
        requires
            old(self).wf(),
            src.wf(),
            dst_at + n <= old(self)@.len(),
            src_at + n <= src@.len(),
        ensures
            final(self).wf(),
            final(self).same_shape(old(self)),
            final(self).order == old(self).order,
            final(self)@.len() == old(self)@.len(),
            forall|j: int|
                dst_at <= j < dst_at + n ==> final(self)@[j] == src@[src_at + (j - dst_at)],
            forall|j: int|
                0 <= j < old(self)@.len() && !(dst_at <= j < dst_at + n) ==> final(self)@[j]
                    == old(self)@[j],
    {
        let w = self.order.width() as usize;
        if self.order.eq_policy(&src.order) && (self.head as usize + dst_at) % w == (
        src.head as usize + src_at) % w {
            self.copy_bits_fast(dst_at, src, src_at, n);
        } else {
            self.copy_bits(dst_at, src, src_at, n);
        }
    }
}

impl BitVec {
    /// Fill one whole element by writing its bytes.  Any bijective policy
    /// sends the element's logical indices onto exactly its own byte group,
    /// so constant bytes set every logical bit of the element and no other.
    fn fill_elem(&mut self, dst_lo: usize, value: bool)
        requires
            old(self).wf(),
            dst_lo + old(self).spec_width() <= old(self)@.len(),
            (old(self).head + dst_lo) % old(self).spec_width() == 0,
        ensures
            final(self).wf(),
            final(self).same_shape(old(self)),
            final(self).order == old(self).order,
            final(self)@.len() == old(self)@.len(),
            forall|j: int|
                dst_lo <= j < dst_lo + old(self).spec_width() ==> final(self)@[j] == value,
            forall|j: int|
                0 <= j < old(self)@.len() && !(dst_lo <= j < dst_lo + old(self).spec_width())
                    ==> final(self)@[j] == old(self)@[j],
    {
        let w = self.order.width() as usize;
        let d = w / 8;
        let dst_e = (self.head as usize + dst_lo) / w;
        let fill: u8 = if value {
            0xff
        } else {
            0
        };
        proof {
            lemma_fundamental_div_mod(self.head + dst_lo, w as int);
            assert((w as int) * (dst_e as int) == self.head + dst_lo);
            assert(dst_e as int * (w as int) == (w as int) * (dst_e as int)) by (nonlinear_arith);
            old(self).lemma_loc(dst_lo as int);
            lemma_byte_group_bounds(
                w as int,
                d as int,
                dst_e as int,
                old(self).head + dst_lo,
                old(self).bytes@.len() as int,
            );
        }
        let ghost gw = w as int;
        let ghost gd = d as int;
        let mut t: usize = 0;
        while t < d
            invariant
                t <= d,
                gd == gw / 8,
                gw == self.spec_width(),
                self.order == old(self).order,
                self.head == old(self).head,
                self.len == old(self).len,
                self.bytes@.len() == old(self).bytes@.len(),
                dst_e as int * gd + gd <= self.bytes@.len(),
                forall|bt: int|
                    dst_e as int * gd <= bt < dst_e as int * gd + t as int
                        ==> self.bytes@[bt] == fill,
                forall|bt: int|
                    0 <= bt < self.bytes@.len() && !(dst_e as int * gd <= bt < dst_e as int * gd
                        + t as int) ==> self.bytes@[bt] == old(self).bytes@[bt],
            decreases d - t,
        {
            self.bytes.set(dst_e * d + t, fill);
            t = t + 1;
        }
        proof {
            assert forall|j: int|
                dst_lo <= j < dst_lo + gw implies self@[j] == value by {
                self.lemma_loc(j);
                lemma_fundamental_div_mod_converse(
                    self.loc_abs(j),
                    gw,
                    dst_e as int,
                    j - dst_lo,
                );
                lemma_fundamental_div_mod(self.loc_pos(j), 8);
                assert(self.loc_byte(j) == dst_e as int * gd + self.loc_pos(j) / 8);
                assert(self.bytes@[self.loc_byte(j)] == fill);
                lemma_fill_byte((self.loc_bit(j)) as u8);
            }
            assert forall|j: int|
                0 <= j < old(self)@.len() && !(dst_lo <= j < dst_lo + gw) implies self@[j]
                == old(self)@[j] by {
                lemma_elem_frame_bit(old(self), self, dst_lo as int, j, dst_e as int);
            }
        }
    }

    /// The accelerated fill: whole elements of the body take constant bytes,
    /// the partial head and tail regions go bit by bit.  Unlike the copy
    /// paths this one needs no applicability condition, and its contract is
    /// exactly `set_all`'s.
    pub fn fill(&mut self, from: usize, to: usize, value: bool)
        requires
            old(self).wf(),
            from <= to <= old(self)@.len(),
        ensures
            final(self).wf(),
            final(self).same_shape(old(self)),
            final(self).order == old(self).order,
            final(self)@.len() == old(self)@.len(),
            forall|j: int| from <= j < to ==> final(self)@[j] == value,
            forall|j: int|
                0 <= j < old(self)@.len() && !(from <= j < to) ==> final(self)@[j] == old(
                    self,
                )@[j],
    {
        let n = to - from;
        let w = self.order.width() as usize;
        let off = (self.head as usize + from) % w;
        let head_len = if off == 0 {
            0
        } else {
            let room = w - off;
            if n < room {
                n
            } else {
                room
            }
        };
        self.set_all(from, from + head_len, value);
        let rem = n - head_len;
        let nwhole = rem / w;
        proof {
            lemma_fundamental_div_mod(rem as int, w as int);
            let wi = w as int;
            let hd = old(self).head + from;
            lemma_fundamental_div_mod(hd, wi);
            if rem > 0 && head_len != 0 {
                assert(head_len == wi - hd % wi);
                assert(hd == wi * (hd / wi) + hd % wi);
                assert(hd + head_len == wi * (hd / wi) + wi);
                assert(wi * (hd / wi) + wi == wi * (hd / wi + 1)) by (nonlinear_arith);
                assert(hd + head_len == wi * (hd / wi + 1) + 0);
                lemma_fundamental_div_mod_converse(hd + head_len, wi, hd / wi + 1, 0);
            }
        }
        let mut e: usize = 0;
        while e < nwhole
            invariant
                e <= nwhole,
                w == self.spec_width(),
                head_len <= n,
                rem == n - head_len,
                n == to - from,
                to <= old(self)@.len(),
                nwhole as int == rem as int / w as int,
                self.wf(),
                self.same_shape(old(self)),
                self.order == old(self).order,
                self.head == old(self).head,
                self@.len() == old(self)@.len(),
                rem > 0 ==> (old(self).head + from + head_len) % (w as int) == 0,
                forall|j: int|
                    from <= j < from + head_len + e * (w as int) ==> self@[j] == value,
                forall|j: int|
                    0 <= j < old(self)@.len() && !(from <= j < from + head_len + e * (
                    w as int)) ==> self@[j] == old(self)@[j],
            decreases nwhole - e,
        {
            proof {
                assert(e as int * w as int + w as int <= rem) by (nonlinear_arith)
                    requires
                        e < nwhole,
                        nwhole as int == rem as int / w as int,
                        rem as int == w as int * (rem as int / w as int) + rem as int % (
                        w as int),
                        0 <= rem as int % (w as int),
                        w > 0,
                ;
                lemma_mod_multiples_vanish(e as int, old(self).head + from + head_len, w as int);
            }
            let dst_lo = from + head_len + e * w;
            self.fill_elem(dst_lo, value);
            e = e + 1;
            proof {
                assert(e as int * (w as int) == (e as int - 1) * (w as int) + w as int)
                    by (nonlinear_arith);
            }
        }
        proof {
            lemma_fundamental_div_mod(rem as int, w as int);
            assert(nwhole as int * (w as int) == (w as int) * (nwhole as int))
                by (nonlinear_arith);
        }
        let done = head_len + nwhole * w;
        self.set_all(from + done, to, value);
    }
}

impl BitVec {
    /// Invert one whole element by complementing its bytes.
    fn invert_elem(&mut self, dst_lo: usize)
        requires
            old(self).wf(),
            dst_lo + old(self).spec_width() <= old(self)@.len(),
            (old(self).head + dst_lo) % old(self).spec_width() == 0,
        ensures
            final(self).wf(),
            final(self).same_shape(old(self)),
            final(self).order == old(self).order,
            final(self)@.len() == old(self)@.len(),
            forall|j: int|
                dst_lo <= j < dst_lo + old(self).spec_width() ==> final(self)@[j] == !old(
                    self,
                )@[j],
            forall|j: int|
                0 <= j < old(self)@.len() && !(dst_lo <= j < dst_lo + old(self).spec_width())
                    ==> final(self)@[j] == old(self)@[j],
    {
        let w = self.order.width() as usize;
        let d = w / 8;
        let dst_e = (self.head as usize + dst_lo) / w;
        proof {
            lemma_fundamental_div_mod(self.head + dst_lo, w as int);
            assert((w as int) * (dst_e as int) == self.head + dst_lo);
            assert(dst_e as int * (w as int) == (w as int) * (dst_e as int)) by (nonlinear_arith);
            old(self).lemma_loc(dst_lo as int);
            lemma_byte_group_bounds(
                w as int,
                d as int,
                dst_e as int,
                old(self).head + dst_lo,
                old(self).bytes@.len() as int,
            );
        }
        let ghost gw = w as int;
        let ghost gd = d as int;
        let mut t: usize = 0;
        while t < d
            invariant
                t <= d,
                gd == gw / 8,
                gw == self.spec_width(),
                self.order == old(self).order,
                self.head == old(self).head,
                self.len == old(self).len,
                self.bytes@.len() == old(self).bytes@.len(),
                dst_e as int * gd + gd <= self.bytes@.len(),
                forall|bt: int|
                    dst_e as int * gd <= bt < dst_e as int * gd + t as int
                        ==> self.bytes@[bt] == !old(self).bytes@[bt],
                forall|bt: int|
                    0 <= bt < self.bytes@.len() && !(dst_e as int * gd <= bt < dst_e as int * gd
                        + t as int) ==> self.bytes@[bt] == old(self).bytes@[bt],
            decreases d - t,
        {
            let b = self.bytes[dst_e * d + t];
            self.bytes.set(dst_e * d + t, !b);
            t = t + 1;
        }
        proof {
            assert forall|j: int|
                dst_lo <= j < dst_lo + gw implies self@[j] == !old(self)@[j] by {
                self.lemma_loc(j);
                old(self).lemma_loc(j);
                lemma_fundamental_div_mod_converse(
                    self.loc_abs(j),
                    gw,
                    dst_e as int,
                    j - dst_lo,
                );
                lemma_fundamental_div_mod(self.loc_pos(j), 8);
                assert(gw == 8 * gd);
                assert(self.loc_elem(j) == dst_e as int);
                assert(0 <= self.loc_pos(j) / 8 < gd);
                assert(self.loc_byte(j) == dst_e as int * gd + self.loc_pos(j) / 8);
                assert(old(self).loc_byte(j) == self.loc_byte(j));
                assert(old(self).loc_bit(j) == self.loc_bit(j));
                let b0 = old(self).bytes@[self.loc_byte(j)];
                assert(self.bytes@[self.loc_byte(j)] == !b0);
                lemma_not_byte(b0, (self.loc_bit(j)) as u8);
            }
            assert forall|j: int|
                0 <= j < old(self)@.len() && !(dst_lo <= j < dst_lo + gw) implies self@[j]
                == old(self)@[j] by {
                lemma_elem_frame_bit(old(self), self, dst_lo as int, j, dst_e as int);
            }
        }
    }

    /// The accelerated invert: whole elements of the body take a bytewise
    /// complement, the partial head and tail regions go bit by bit, masked.
    /// Its contract is exactly `invert`'s.
    pub fn invert_fast(&mut self, from: usize, to: usize)
        requires
            old(self).wf(),
            from <= to <= old(self)@.len(),
        ensures
            final(self).wf(),
            final(self).same_shape(old(self)),
            final(self).order == old(self).order,
            final(self)@.len() == old(self)@.len(),
            forall|j: int| from <= j < to ==> final(self)@[j] == !old(self)@[j],
            forall|j: int|
                0 <= j < old(self)@.len() && !(from <= j < to) ==> final(self)@[j] == old(
                    self,
                )@[j],
    {
        let n = to - from;
        let w = self.order.width() as usize;
        let off = (self.head as usize + from) % w;
        let head_len = if off == 0 {
            0
        } else {
            let room = w - off;
            if n < room {
                n
            } else {
                room
            }
        };
        self.invert(from, from + head_len);
        let rem = n - head_len;
        let nwhole = rem / w;
        proof {
            lemma_fundamental_div_mod(rem as int, w as int);
            let wi = w as int;
            let hd = old(self).head + from;
            lemma_fundamental_div_mod(hd, wi);
            if rem > 0 && head_len != 0 {
                assert(head_len == wi - hd % wi);
                assert(hd == wi * (hd / wi) + hd % wi);
                assert(hd + head_len == wi * (hd / wi) + wi);
                assert(wi * (hd / wi) + wi == wi * (hd / wi + 1)) by (nonlinear_arith);
                assert(hd + head_len == wi * (hd / wi + 1) + 0);
                lemma_fundamental_div_mod_converse(hd + head_len, wi, hd / wi + 1, 0);
            }
        }
        let mut e: usize = 0;
        while e < nwhole
            invariant
                e <= nwhole,
                w == self.spec_width(),
                head_len <= n,
                rem == n - head_len,
                n == to - from,
                to <= old(self)@.len(),
                nwhole as int == rem as int / w as int,
                self.wf(),
                self.same_shape(old(self)),
                self.order == old(self).order,
                self.head == old(self).head,
                self@.len() == old(self)@.len(),
                rem > 0 ==> (old(self).head + from + head_len) % (w as int) == 0,
                forall|j: int|
                    from <= j < from + head_len + e * (w as int) ==> self@[j] == !old(self)@[j],
                forall|j: int|
                    0 <= j < old(self)@.len() && !(from <= j < from + head_len + e * (
                    w as int)) ==> self@[j] == old(self)@[j],
            decreases nwhole - e,
        {
            proof {
                assert(e as int * w as int + w as int <= rem) by (nonlinear_arith)
                    requires
                        e < nwhole,
                        nwhole as int == rem as int / w as int,
                        rem as int == w as int * (rem as int / w as int) + rem as int % (
                        w as int),
                        0 <= rem as int % (w as int),
                        w > 0,
                ;
                lemma_mod_multiples_vanish(e as int, old(self).head + from + head_len, w as int);
            }
            let dst_lo = from + head_len + e * w;
            self.invert_elem(dst_lo);
            e = e + 1;
            proof {
                assert(e as int * (w as int) == (e as int - 1) * (w as int) + w as int)
                    by (nonlinear_arith);
            }
        }
        proof {
            lemma_fundamental_div_mod(rem as int, w as int);
            assert(nwhole as int * (w as int) == (w as int) * (nwhole as int))
                by (nonlinear_arith);
        }
        let done = head_len + nwhole * w;
        self.invert(from + done, to);
    }
}

impl BitVec {
    /// The accelerated equality test, for operands of one policy and one
    /// starting index: whole elements compare byte-wise, and only an element
    /// whose bytes differ, or a partial region, is compared bit by bit.  Its
    /// contract is exactly `eq_bits`'s.
    #[verifier::rlimit(60)]
    pub fn eq_bits_fast(&self, other: &BitVec) -> (r: bool)
        requires
            self.wf(),
            other.wf(),
            self.order.same_policy(&other.order),
            self.head == other.head,
        ensures
            r <==> self@ =~= other@,
    {
        if self.length() != other.length() {
            return false;
        }
        let n = self.length();
        let w = self.order.width() as usize;
        let d = w / 8;
        let off = self.head as usize % w;
        let head_len = if off == 0 {
            0
        } else {
            let room = w - off;
            if n < room {
                n
            } else {
                room
            }
        };
        let mut i: usize = 0;
        while i < head_len
            invariant
                i <= head_len,
                head_len <= n,
                n == self@.len(),
                n == other@.len(),
                forall|j: int| 0 <= j < i ==> self@[j] == other@[j],
            decreases head_len - i,
        {
            if self.get(i).unwrap() != other.get(i).unwrap() {
                return false;
            }
            i = i + 1;
        }
        let rem = n - head_len;
        let nwhole = rem / w;
        proof {
            lemma_fundamental_div_mod(rem as int, w as int);
            let wi = w as int;
            let hd = self.head as int;
            lemma_fundamental_div_mod(hd, wi);
            if rem > 0 && head_len != 0 {
                assert(head_len == wi - hd % wi);
                assert(hd == wi * (hd / wi) + hd % wi);
                assert(hd + head_len == wi * (hd / wi) + wi);
                assert(wi * (hd / wi) + wi == wi * (hd / wi + 1)) by (nonlinear_arith);
                assert(hd + head_len == wi * (hd / wi + 1) + 0);
                lemma_fundamental_div_mod_converse(hd + head_len, wi, hd / wi + 1, 0);
            }
        }
        let mut e: usize = 0;
        while e < nwhole
            invariant
                e <= nwhole,
                w == self.spec_width(),
                d == w / 8,
                head_len <= n,
                rem == n - head_len,
                nwhole as int == rem as int / w as int,
                n == self@.len(),
                n == other@.len(),
                rem > 0 ==> (self.head + head_len) % (w as int) == 0,
                forall|j: int|
                    0 <= j < head_len + e * (w as int) ==> self@[j] == other@[j],
            decreases nwhole - e,
        {
            proof {
                assert(e as int * w as int + w as int <= rem) by (nonlinear_arith)
                    requires
                        e < nwhole,
                        nwhole as int == rem as int / w as int,
                        rem as int == w as int * (rem as int / w as int) + rem as int % (
                        w as int),
                        0 <= rem as int % (w as int),
                        w > 0,
                ;
                lemma_mod_multiples_vanish(e as int, self.head + head_len, w as int);
            }
            let lo = head_len + e * w;
            let elem = (self.head as usize + lo) / w;
            proof {
                lemma_fundamental_div_mod(self.head + lo, w as int);
                assert((w as int) * (elem as int) == self.head + lo);
                assert(elem as int * (w as int) == (w as int) * (elem as int))
                    by (nonlinear_arith);
                self.lemma_loc(lo as int);
                lemma_byte_group_bounds(
                    w as int,
                    d as int,
                    elem as int,
                    self.head + lo,
                    self.bytes@.len() as int,
                );
                lemma_byte_group_bounds(
                    w as int,
                    d as int,
                    elem as int,
                    self.head + lo,
                    other.bytes@.len() as int,
                );
            }
            let mut bytes_equal = true;
            let mut t: usize = 0;
            while t < d
                invariant
                    t <= d,
                    elem as int * (d as int) + d <= self.bytes@.len(),
                    elem as int * (d as int) + d <= other.bytes@.len(),
                    bytes_equal ==> forall|bt: int|
                        elem as int * (d as int) <= bt < elem as int * (d as int) + t as int
                            ==> self.bytes@[bt] == other.bytes@[bt],
                decreases d - t,
            {
                if self.bytes[elem * d + t] != other.bytes[elem * d + t] {
                    bytes_equal = false;
                }
                t = t + 1;
            }
            if bytes_equal {
                proof {
                    assert forall|j: int| lo <= j < lo + w implies self@[j] == other@[j] by {
                        lemma_elem_bytes_decide(self, other, lo as int, j, elem as int);
                    }
                }
            } else {
                // Some byte differs: decide this element bit by bit, since a
                // byte may hold lanes outside the policy's image.
                let mut j: usize = lo;
                while j < lo + w
                    invariant
                        lo <= j <= lo + w,
                        lo + w <= n,
                        n == self@.len(),
                        n == other@.len(),
                        forall|q: int| lo <= q < j ==> self@[q] == other@[q],
                    decreases lo + w - j,
                {
                    if self.get(j).unwrap() != other.get(j).unwrap() {
                        return false;
                    }
                    j = j + 1;
                }
            }
            e = e + 1;
            proof {
                assert(e as int * (w as int) == (e as int - 1) * (w as int) + w as int)
                    by (nonlinear_arith);
            }
        }
        proof {
            lemma_fundamental_div_mod(rem as int, w as int);
            assert(nwhole as int * (w as int) == (w as int) * (nwhole as int))
                by (nonlinear_arith);
        }
        let mut j: usize = head_len + nwhole * w;
        while j < n
            invariant
                head_len + nwhole * w <= j <= n,
                n == self@.len(),
                n == other@.len(),
                forall|q: int| 0 <= q < j ==> self@[q] == other@[q],
            decreases n - j,
        {
            if self.get(j).unwrap() != other.get(j).unwrap() {
                return false;
            }
            j = j + 1;
        }
        assert(self@ =~= other@);
        true
    }
}

/// Equal bytes over a whole element's byte group decide every logical bit of
/// that element: both sides read the same locations.
proof fn lemma_elem_bytes_decide(a: &BitVec, b: &BitVec, lo: int, j: int, e: int)
    requires
        a.wf(),
        b.wf(),
        a.order.same_policy(&b.order),
        a.head == b.head,
        a@.len() == b@.len(),
        0 <= lo,
        lo + a.spec_width() <= a.len,
        e * a.spec_width() == a.head + lo,
        lo <= j < lo + a.spec_width(),
        forall|bt: int|
            e * (a.spec_width() / 8) <= bt < e * (a.spec_width() / 8) + (a.spec_width() / 8)
                ==> a.bytes@[bt] == b.bytes@[bt],
    ensures
        a@[j] == b@[j],
{
    let w = a.spec_width();
    let d = w / 8;
    a.lemma_loc(j);
    b.lemma_loc(j);
    lemma_fundamental_div_mod_converse(a.loc_abs(j), w, e, j - lo);
    assert(a.loc_elem(j) == e);
    assert(b.loc_elem(j) == e);
    assert(a.loc_pos(j) == b.loc_pos(j));
    lemma_fundamental_div_mod(a.loc_pos(j), 8);
    assert(0 <= a.loc_pos(j) / 8 < d);
    assert(a.loc_byte(j) == e * d + a.loc_pos(j) / 8);
    assert(a.bytes@[a.loc_byte(j)] == b.bytes@[b.loc_byte(j)]);
}

/// A complemented byte flips every lane.
proof fn lemma_not_byte(b: u8, q: u8)
    by (bit_vector)
    requires
        q < 8,
    ensures
        ((!b >> q) & 1 == 1) <==> !((b >> q) & 1 == 1),
{
}

/// Constant bytes hold the same value at every lane.
proof fn lemma_fill_byte(q: u8)
    by (bit_vector)
    requires
        q < 8,
    ensures
        (0xffu8 >> q) & 1 == 1,
        (0u8 >> q) & 1 == 0,
{
}

/// An element's byte group lies within the buffer when the element's last
/// bit is a valid location.
proof fn lemma_byte_group_bounds(w: int, d: int, e: int, elem_start_abs: int, nbytes: int)
    requires
        w == 8 || w == 16 || w == 32 || w == 64,
        d == w / 8,
        e * w == elem_start_abs,
        0 <= elem_start_abs,
        elem_start_abs + w <= nbytes * 8,
        nbytes % d == 0,
    ensures
        0 <= e * d,
        e * d + d <= nbytes,
    {
    let k = nbytes / d;
    lemma_fundamental_div_mod(nbytes, d);
    assert(nbytes == d * k);
    assert(0 <= e * d && e * d + d <= nbytes) by (nonlinear_arith)
        requires
            e * w == elem_start_abs,
            0 <= elem_start_abs,
            elem_start_abs + w <= nbytes * 8,
            nbytes == d * k,
            w == 8 * d,
            d > 0,
            w > 0,
    ;
}

/// After the byte copy of one element, each logical bit of the destination
/// element equals the corresponding source bit: same in-element index, same
/// policy, so the same physical lane and the same byte offset.
proof fn lemma_elem_copy_bit(
    pre: &BitVec,
    post: &BitVec,
    src: &BitVec,
    dst_lo: int,
    src_lo: int,
    j: int,
    dst_e: int,
    src_e: int,
)
    requires
        pre.wf(),
        src.wf(),
        post.wf(),
        pre.order.same_policy(&src.order),
        post.order == pre.order,
        post.head == pre.head,
        post.len == pre.len,
        post.bytes@.len() == pre.bytes@.len(),
        0 <= dst_lo,
        0 <= src_lo,
        dst_lo + pre.spec_width() <= pre.len,
        src_lo + src.spec_width() <= src@.len(),
        dst_e * pre.spec_width() == pre.head + dst_lo,
        src_e * src.spec_width() == src.head + src_lo,
        dst_lo <= j < dst_lo + pre.spec_width(),
        forall|bt: int|
            dst_e * (pre.spec_width() / 8) <= bt < dst_e * (pre.spec_width() / 8) + (
            pre.spec_width() / 8) ==> post.bytes@[bt] == src.bytes@[src_e * (pre.spec_width()
                / 8) + (bt - dst_e * (pre.spec_width() / 8))],
    ensures
        post@[j] == src@[src_lo + (j - dst_lo)],
{
    let w = pre.spec_width();
    let d = w / 8;
    let idx = j - dst_lo;
    let j2 = src_lo + idx;
    post.lemma_loc(j);
    src.lemma_loc(j2);
    lemma_fundamental_div_mod_converse(post.loc_abs(j), w, dst_e, idx);
    lemma_fundamental_div_mod_converse(src.loc_abs(j2), w, src_e, idx);
    assert(post.loc_elem(j) == dst_e);
    assert(post.loc_idx(j) == idx);
    assert(src.loc_elem(j2) == src_e);
    assert(src.loc_idx(j2) == idx);
    assert(post.loc_pos(j) == src.loc_pos(j2));
    let pos = post.loc_pos(j);
    assert(0 <= pos / 8 < d);
    assert(post.bytes@[dst_e * d + pos / 8] == src.bytes@[src_e * d + pos / 8]);
    assert(post.loc_byte(j) == dst_e * d + pos / 8);
    assert(src.loc_byte(j2) == src_e * d + pos / 8);
}

/// Bits outside the copied element are untouched by its byte copy: their
/// bytes lie in other element groups.
proof fn lemma_elem_frame_bit(pre: &BitVec, post: &BitVec, dst_lo: int, j: int, dst_e: int)
    requires
        pre.wf(),
        post.wf(),
        post.order == pre.order,
        post.head == pre.head,
        post.len == pre.len,
        post.bytes@.len() == pre.bytes@.len(),
        0 <= dst_lo,
        dst_lo + pre.spec_width() <= pre.len,
        dst_e * pre.spec_width() == pre.head + dst_lo,
        0 <= j < pre.len,
        !(dst_lo <= j < dst_lo + pre.spec_width()),
        forall|bt: int|
            0 <= bt < post.bytes@.len() && !(dst_e * (pre.spec_width() / 8) <= bt < dst_e * (
            pre.spec_width() / 8) + (pre.spec_width() / 8)) ==> post.bytes@[bt]
                == pre.bytes@[bt],
    ensures
        post@[j] == pre@[j],
{
    let w = pre.spec_width();
    let d = w / 8;
    pre.lemma_loc(j);
    post.lemma_loc(j);
    lemma_fundamental_div_mod(pre.loc_abs(j), w);
    assert(pre.loc_elem(j) != dst_e) by (nonlinear_arith)
        requires
            pre.loc_abs(j) == w * pre.loc_elem(j) + pre.loc_idx(j),
            0 <= pre.loc_idx(j) < w,
            dst_e * w == pre.loc_abs(j) - (j - dst_lo),
            !(dst_lo <= j < dst_lo + w),
            w > 0,
    ;
    lemma_fundamental_div_mod(pre.loc_pos(j), 8);
    assert(!(dst_e * d <= pre.loc_byte(j) < dst_e * d + d)) by (nonlinear_arith)
        requires
            pre.loc_byte(j) == pre.loc_elem(j) * d + pre.loc_pos(j) / 8,
            0 <= pre.loc_pos(j) / 8 < d,
            pre.loc_elem(j) != dst_e,
            d > 0,
    ;
    assert(post.bytes@[pre.loc_byte(j)] == pre.bytes@[pre.loc_byte(j)]);
}

} // verus!
