//! Bulk queries and mutators over a bit buffer: counting, testing, filling,
//! inverting, reversing and swapping.
//!
//! Every operation here is defined over the buffer's logical bit sequence;
//! range arguments are half-open `[from, to)` index pairs.

use vstd::arithmetic::div_mod::{lemma_fundamental_div_mod_converse, lemma_small_mod};
use vstd::prelude::*;

use crate::bits::BitVec;

verus! {

/// The number of set bits in a sequence.
pub open spec fn count_ones_spec(s: Seq<bool>) -> int
    decreases s.len(),
{
    if s.len() == 0 {
        0
    } else {
        count_ones_spec(s.drop_last()) + if s.last() {
            1int
        } else {
            0int
        }
    }
}

/// The number of cleared bits in a sequence.
pub open spec fn count_zeros_spec(s: Seq<bool>) -> int
    decreases s.len(),
{
    if s.len() == 0 {
        0
    } else {
        count_zeros_spec(s.drop_last()) + if s.last() {
            0int
        } else {
            1int
        }
    }
}

/// Law: over any bit sequence, the set bits and the cleared bits partition
/// it, so the two counts sum to its length.
pub proof fn lemma_count_partition(s: Seq<bool>)
    ensures
        count_ones_spec(s) + count_zeros_spec(s) == s.len(),
    decreases s.len(),
{
    if s.len() > 0 {
        lemma_count_partition(s.drop_last());
    }
}

/// Both counts are bounded by the length.
pub proof fn lemma_count_bounds(s: Seq<bool>)
    ensures
        0 <= count_ones_spec(s) <= s.len(),
        0 <= count_zeros_spec(s) <= s.len(),
    decreases s.len(),
{
    if s.len() > 0 {
        lemma_count_bounds(s.drop_last());
    }
}

impl BitVec {
    /// The exact number of set bits in `[from, to)`.
    pub fn count_ones(&self, from: usize, to: usize) -> (r: usize)
        requires
            self.wf(),
            from <= to <= self@.len(),
        ensures
            r as int == count_ones_spec(self@.subrange(from as int, to as int)),
    {
        let mut c: usize = 0;
        let mut i: usize = from;
        while i < to
            invariant
                from <= i <= to,
                c <= i - from,
                c as int == count_ones_spec(self@.subrange(from as int, i as int)),
            decreases to - i,
        {
            let b = self.get(i).unwrap();
            proof {
                let sub = self@.subrange(from as int, i + 1);
                assert(sub.drop_last() =~= self@.subrange(from as int, i as int));
                assert(sub.last() == self@[i as int]);
            }
            if b {
                c = c + 1;
            }
            i = i + 1;
        }
        c
    }

    /// The exact number of cleared bits in `[from, to)`; together with
    /// `count_ones` it always sums to the range's bit length.
    pub fn count_zeros(&self, from: usize, to: usize) -> (r: usize)
        requires
            self.wf(),
            from <= to <= self@.len(),
        ensures
            r as int == count_zeros_spec(self@.subrange(from as int, to as int)),
            r + self.count_ones_int(from as int, to as int) == to - from,
    {
        proof {
            lemma_count_partition(self@.subrange(from as int, to as int));
            lemma_count_bounds(self@.subrange(from as int, to as int));
        }
        let ones = self.count_ones(from, to);
        (to - from) - ones
    }

    /// The set-bit count of `[from, to)`, as a spec value.
    pub open spec fn count_ones_int(&self, from: int, to: int) -> int {
        count_ones_spec(self@.subrange(from, to))
    }

    /// Every bit in `[from, to)` is set.
    pub fn all(&self, from: usize, to: usize) -> (r: bool)
        requires
            self.wf(),
            from <= to <= self@.len(),
        ensures
            r <==> forall|j: int| from <= j < to ==> self@[j],
    {
        let mut i: usize = from;
        while i < to
            invariant
                from <= i <= to,
                forall|j: int| from <= j < i ==> self@[j],
            decreases to - i,
        {
            if !self.get(i).unwrap() {
                return false;
            }
            i = i + 1;
        }
        true
    }

    /// At least one bit in `[from, to)` is set.
    pub fn any(&self, from: usize, to: usize) -> (r: bool)
        requires
            self.wf(),
            from <= to <= self@.len(),
        ensures
            r <==> exists|j: int| from <= j < to && self@[j],
    {
        let mut i: usize = from;
        while i < to
            invariant
                from <= i <= to,
                forall|j: int| from <= j < i ==> !self@[j],
            decreases to - i,
        {
            if self.get(i).unwrap() {
                return true;
            }
            i = i + 1;
        }
        false
    }

    /// At least one bit in `[from, to)` is cleared.
    pub fn not_all(&self, from: usize, to: usize) -> (r: bool)
        requires
            self.wf(),
            from <= to <= self@.len(),
        ensures
            r <==> exists|j: int| from <= j < to && !self@[j],
    {
        let r = self.all(from, to);
        proof {
            if !r {
                let j = choose|j: int| from <= j < to && !self@[j];
                assert(from <= j < to && !self@[j]);
            }
        }
        !r
    }

    /// Every bit in `[from, to)` is cleared.
    pub fn not_any(&self, from: usize, to: usize) -> (r: bool)
        requires
            self.wf(),
            from <= to <= self@.len(),
        ensures
            r <==> forall|j: int| from <= j < to ==> !self@[j],
    {
        !self.any(from, to)
    }

    /// The range holds both a set bit and a cleared bit.
    pub fn some(&self, from: usize, to: usize) -> (r: bool)
        requires
            self.wf(),
            from <= to <= self@.len(),
        ensures
            r <==> ((exists|j: int| from <= j < to && self@[j]) && (exists|j: int|
                from <= j < to && !self@[j])),
    {
        self.any(from, to) && self.not_all(from, to)
    }

    /// The first bit, if any.
    pub fn first(&self) -> (r: Option<bool>)
        requires
            self.wf(),
        ensures
            self@.len() > 0 ==> r == Some(self@[0]),
            self@.len() == 0 ==> r is None,
    {
        self.get(0)
    }

    /// The last bit, if any.
    pub fn last(&self) -> (r: Option<bool>)
        requires
            self.wf(),
        ensures
            self@.len() > 0 ==> r == Some(self@[self@.len() - 1]),
            self@.len() == 0 ==> r is None,
    {
        if self.length() == 0 {
            None
        } else {
            self.get(self.length() - 1)
        }
    }

    /// Fill `[from, to)` with one value; bits outside the range keep their
    /// content.
    pub fn set_all(&mut self, from: usize, to: usize, value: bool)
        requires
            old(self).wf(),
            from <= to <= old(self)@.len(),
        ensures
            final(self).wf(),
            final(self).same_shape(old(self)),
            final(self).order == old(self).order,
            final(self)@.len() == old(self)@.len(),
            forall|j: int| from <= j < to ==> final(self)@[j] == value,
            forall|j: int|
                0 <= j < old(self)@.len() && !(from <= j < to) ==> final(self)@[j] == old(
                    self,
                )@[j],
    {
        let mut i: usize = from;
        while i < to
            invariant
                from <= i <= to,
                self.wf(),
                self.same_shape(old(self)),
                self.order == old(self).order,
                self@.len() == old(self)@.len(),
                forall|j: int| from <= j < i ==> self@[j] == value,
                forall|j: int|
                    0 <= j < old(self)@.len() && !(from <= j < i) ==> self@[j] == old(self)@[j],
            decreases to - i,
        {
            self.set_bit(i, value);
            i = i + 1;
        }
    }

    /// Flip every bit in `[from, to)` in place; bits outside keep their
    /// content.
    pub fn invert(&mut self, from: usize, to: usize)
        requires
            old(self).wf(),
            from <= to <= old(self)@.len(),
        ensures
            final(self).wf(),
            final(self).same_shape(old(self)),
            final(self).order == old(self).order,
            final(self)@.len() == old(self)@.len(),
            forall|j: int| from <= j < to ==> final(self)@[j] == !old(self)@[j],
            forall|j: int|
                0 <= j < old(self)@.len() && !(from <= j < to) ==> final(self)@[j] == old(
                    self,
                )@[j],
    {
        let mut i: usize = from;
        while i < to
            invariant
                from <= i <= to,
                self.wf(),
                self.same_shape(old(self)),
                self.order == old(self).order,
                self@.len() == old(self)@.len(),
                forall|j: int| from <= j < i ==> self@[j] == !old(self)@[j],
                forall|j: int|
                    0 <= j < old(self)@.len() && !(from <= j < i) ==> self@[j] == old(self)@[j],
            decreases to - i,
        {
            let b = self.get(i).unwrap();
            self.set_bit(i, !b);
            i = i + 1;
        }
    }

    /// Exchange two bits.
    pub fn swap(&mut self, i: usize, j: usize)
        requires
            old(self).wf(),
            i < old(self)@.len(),
            j < old(self)@.len(),
        ensures
            final(self).wf(),
            final(self).same_shape(old(self)),
            final(self).order == old(self).order,
            final(self)@ =~= old(self)@.update(i as int, old(self)@[j as int]).update(
                j as int,
                old(self)@[i as int],
            ),
    {
        let bi = self.get(i).unwrap();
        let bj = self.get(j).unwrap();
        self.set_bit(i, bj);
        self.set_bit(j, bi);
    }

    /// Reverse `[from, to)` in place: bit `from + k` exchanges with bit
    /// `to - 1 - k`.  No element-level fast path exists: the policy
    /// mapping differs at every offset.
    pub fn reverse(&mut self, from: usize, to: usize)
        requires
            old(self).wf(),
            from <= to <= old(self)@.len(),
        ensures
            final(self).wf(),
            final(self).same_shape(old(self)),
            final(self).order == old(self).order,
            final(self)@.len() == old(self)@.len(),
            forall|j: int|
                from <= j < to ==> final(self)@[j] == old(self)@[from + to - 1 - j],
            forall|j: int|
                0 <= j < old(self)@.len() && !(from <= j < to) ==> final(self)@[j] == old(
                    self,
                )@[j],
    {
        let n = to - from;
        let mut k: usize = 0;
        while k < n / 2
            invariant
                k <= n / 2,
                n == to - from,
                self.wf(),
                self.same_shape(old(self)),
                self.order == old(self).order,
                self@.len() == old(self)@.len(),
                forall|j: int|
                    from <= j < from + k ==> self@[j] == old(self)@[from + to - 1 - j],
                forall|j: int|
                    to - k <= j < to ==> self@[j] == old(self)@[from + to - 1 - j],
                forall|j: int|
                    0 <= j < old(self)@.len() && !(from <= j < from + k) && !(to - k <= j < to)
                        ==> self@[j] == old(self)@[j],
            decreases n / 2 - k,
        {
            self.swap(from + k, to - 1 - k);
            k = k + 1;
        }
        proof {
            assert forall|j: int| from <= j < to implies final(self)@[j] == old(self)@[from + to
                - 1 - j] by {
                if from + (n as int) / 2 <= j < to - (n as int) / 2 {
                    assert(j == from + to - 1 - j);
                }
            }
        }
    }
    /// Copy `n` bits from `src` starting at `src_at` into this buffer
    /// starting at `dst_at`, bit by bit in address order.  This is the
    /// general fallback: it holds for any pair of policies, widths and
    /// alignments, each side resolving its own physical positions.
    pub fn copy_bits(&mut self, dst_at: usize, src: &BitVec, src_at: usize, n: usize)
        requires
            old(self).wf(),
            src.wf(),
            dst_at + n <= old(self)@.len(),
            src_at + n <= src@.len(),
        ensures
            final(self).wf(),
            final(self).same_shape(old(self)),
            final(self).order == old(self).order,
            final(self)@.len() == old(self)@.len(),
            forall|j: int|
                dst_at <= j < dst_at + n ==> final(self)@[j] == src@[src_at + (j - dst_at)],
            forall|j: int|
                0 <= j < old(self)@.len() && !(dst_at <= j < dst_at + n) ==> final(self)@[j]
                    == old(self)@[j],
    {
        let mut k: usize = 0;
        while k < n
            invariant
                k <= n,
                self.wf(),
                self.same_shape(old(self)),
                self.order == old(self).order,
                self@.len() == old(self)@.len(),
                forall|j: int|
                    dst_at <= j < dst_at + k ==> self@[j] == src@[src_at + (j - dst_at)],
                forall|j: int|
                    0 <= j < old(self)@.len() && !(dst_at <= j < dst_at + k) ==> self@[j] == old(
                        self,
                    )@[j],
            decreases n - k,
        {
            let b = src.get(src_at + k).unwrap();
            self.set_bit(dst_at + k, b);
            k = k + 1;
        }
    }

    /// A fresh buffer holding exactly the bits of `[from, to)`, under the
    /// same policy, starting at index zero.
    pub fn subvec(&self, from: usize, to: usize) -> (r: BitVec)
        requires
            self.wf(),
            from <= to <= self@.len(),
        ensures
            r.wf(),
            r.head == 0,
            r.order.same_policy(&self.order),
            r.spec_width() == self.spec_width(),
            r@ =~= self@.subrange(from as int, to as int),
    {
        let order = self.order.duplicate();
        let mut r = BitVec::repeat_bit(order, false, to - from);
        let mut k: usize = 0;
        while k < to - from
            invariant
                k <= to - from,
                r.wf(),
                r.head == 0,
                r.order.same_policy(&self.order),
                r@.len() == to - from,
                forall|j: int| 0 <= j < k ==> r@[j] == self@[from + j],
            decreases to - from - k,
        {
            let b = self.get(from + k).unwrap();
            r.set_bit(k, b);
            k = k + 1;
        }
        r
    }

    /// Copy the bits of `[from, to)` onto the range starting at `dest`,
    /// within one buffer.  The regions may overlap.
    pub fn copy_within(&mut self, from: usize, to: usize, dest: usize)
        requires
            old(self).wf(),
            from <= to <= old(self)@.len(),
            dest + (to - from) <= old(self)@.len(),
        ensures
            final(self).wf(),
            final(self).same_shape(old(self)),
            final(self).order == old(self).order,
            final(self)@.len() == old(self)@.len(),
            forall|j: int|
                dest <= j < dest + (to - from) ==> final(self)@[j] == old(self)@[from + (j
                    - dest)],
            forall|j: int|
                0 <= j < old(self)@.len() && !(dest <= j < dest + (to - from))
                    ==> final(self)@[j] == old(self)@[j],
    {
        let snap = self.subvec(from, to);
        self.copy_bits(dest, &snap, 0, to - from);
    }

    /// Exchange the full contents of two equal-length buffers, bit by bit.
    /// The two sides may use different policies or register widths.
    pub fn swap_with(&mut self, other: &mut BitVec)
        requires
            old(self).wf(),
            old(other).wf(),
            old(self)@.len() == old(other)@.len(),
        ensures
            final(self).wf(),
            final(other).wf(),
            final(self).same_shape(old(self)),
            final(other).same_shape(old(other)),
            final(self)@ =~= old(other)@,
            final(other)@ =~= old(self)@,
    {
        let n = self.length();
        let mut k: usize = 0;
        while k < n
            invariant
                k <= n,
                self.wf(),
                other.wf(),
                self.same_shape(old(self)),
                other.same_shape(old(other)),
                self@.len() == n,
                other@.len() == n,
                forall|j: int| 0 <= j < k ==> self@[j] == old(other)@[j],
                forall|j: int| 0 <= j < k ==> other@[j] == old(self)@[j],
                forall|j: int| k <= j < n ==> self@[j] == old(self)@[j],
                forall|j: int| k <= j < n ==> other@[j] == old(other)@[j],
            decreases n - k,
        {
            let a = self.get(k).unwrap();
            let b = other.get(k).unwrap();
            self.set_bit(k, b);
            other.set_bit(k, a);
            k = k + 1;
        }
    }

    /// Shift the whole buffer toward index zero by `by` places, zero-filling
    /// the vacated tail.  Shifting by the length or more clears everything;
    /// shifting by zero changes nothing.
    pub fn shift_left(&mut self, by: usize)
        requires
            old(self).wf(),
        ensures
            final(self).wf(),
            final(self).same_shape(old(self)),
            final(self).order == old(self).order,
            final(self)@.len() == old(self)@.len(),
            forall|i: int|
                0 <= i < old(self)@.len() ==> final(self)@[i] == if i + by < old(self)@.len() {
                    old(self)@[i + by]
                } else {
                    false
                },
    {
        let n = self.length();
        if by >= n {
            self.set_all(0, n, false);
            return ;
        }
        let mut i: usize = 0;
        while i < n - by
            invariant
                by < n,
                i <= n - by,
                self.wf(),
                self.same_shape(old(self)),
                self.order == old(self).order,
                self@.len() == n,
                forall|j: int| 0 <= j < i ==> self@[j] == old(self)@[j + by],
                forall|j: int| i <= j < n ==> self@[j] == old(self)@[j],
            decreases n - by - i,
        {
            let b = self.get(i + by).unwrap();
            self.set_bit(i, b);
            i = i + 1;
        }
        self.set_all(n - by, n, false);
    }

    /// Shift the whole buffer away from index zero by `by` places,
    /// zero-filling the vacated head.  Shifting by the length or more clears
    /// everything; shifting by zero changes nothing.
    pub fn shift_right(&mut self, by: usize)
        requires
            old(self).wf(),
        ensures
            final(self).wf(),
            final(self).same_shape(old(self)),
            final(self).order == old(self).order,
            final(self)@.len() == old(self)@.len(),
            forall|i: int|
                0 <= i < old(self)@.len() ==> final(self)@[i] == if by <= i {
                    old(self)@[i - by]
                } else {
                    false
                },
    {
        let n = self.length();
        if by >= n {
            self.set_all(0, n, false);
            return ;
        }
        let mut i: usize = n;
        while i > by
            invariant
                by < n,
                by <= i <= n,
                self.wf(),
                self.same_shape(old(self)),
                self.order == old(self).order,
                self@.len() == n,
                forall|j: int| i <= j < n ==> self@[j] == old(self)@[j - by],
                forall|j: int| 0 <= j < i ==> self@[j] == old(self)@[j],
            decreases i,
        {
            i = i - 1;
            let b = self.get(i - by).unwrap();
            self.set_bit(i, b);
        }
        self.set_all(0, by, false);
    }

    /// Rotate the buffer toward index zero by `by` places: a pure cyclic
    /// permutation.  The amount is reduced modulo the length first, so
    /// rotating by zero or by the full length is the identity.
    pub fn rotate_left(&mut self, by: usize)
        requires
            old(self).wf(),
        ensures
            final(self).wf(),
            final(self).same_shape(old(self)),
            final(self).order == old(self).order,
            final(self)@.len() == old(self)@.len(),
            old(self)@.len() > 0 ==> forall|i: int|
                0 <= i < old(self)@.len() ==> final(self)@[i] == old(self)@[(i + (
                by as int % old(self)@.len() as int)) % old(self)@.len() as int],
    {
        let n = self.length();
        if n == 0 {
            return ;
        }
        let r = by % n;
        let snap = self.subvec(0, n);
        let mut i: usize = 0;
        while i < n
            invariant
                r < n,
                r as int == by as int % n as int,
                i <= n,
                self.wf(),
                self.same_shape(old(self)),
                self.order == old(self).order,
                self@.len() == n,
                snap@ =~= old(self)@,
                snap.wf(),
                snap@.len() == n,
                forall|j: int|
                    0 <= j < i ==> self@[j] == old(self)@[(j + r as int) % n as int],
            decreases n - i,
        {
            let idx = if i + r >= n {
                i + r - n
            } else {
                i + r
            };
            proof {
                if i + r >= n {
                    lemma_fundamental_div_mod_converse(i + r, n as int, 1, idx as int);
                } else {
                    lemma_small_mod((i + r) as nat, n as nat);
                }
            }
            let b = snap.get(idx).unwrap();
            self.set_bit(i, b);
            i = i + 1;
        }
    }

    /// Rotate the buffer away from index zero by `by` places: the inverse
    /// cyclic permutation of `rotate_left` by the same amount.
    pub fn rotate_right(&mut self, by: usize)
        requires
            old(self).wf(),
        ensures
            final(self).wf(),
            final(self).same_shape(old(self)),
            final(self).order == old(self).order,
            final(self)@.len() == old(self)@.len(),
            old(self)@.len() > 0 ==> forall|i: int|
                0 <= i < old(self)@.len() ==> final(self)@[(i + (by as int % old(
                    self,
                )@.len() as int)) % old(self)@.len() as int] == old(self)@[i],
    {
        let n = self.length();
        if n == 0 {
            return ;
        }
        let r = by % n;
        let snap = self.subvec(0, n);
        let mut i: usize = 0;
        while i < n
            invariant
                r < n,
                r as int == by as int % n as int,
                i <= n,
                self.wf(),
                self.same_shape(old(self)),
                self.order == old(self).order,
                self@.len() == n,
                snap@ =~= old(self)@,
                snap.wf(),
                snap@.len() == n,
                forall|j: int|
                    0 <= j < i ==> self@[(j + r as int) % n as int] == old(self)@[j],
            decreases n - i,
        {
            let idx = if i + r >= n {
                i + r - n
            } else {
                i + r
            };
            proof {
                if i + r >= n {
                    lemma_fundamental_div_mod_converse(i + r, n as int, 1, idx as int);
                } else {
                    lemma_small_mod((i + r) as nat, n as nat);
                }
                assert(idx as int == (i as int + r as int) % n as int);
            }
            let b = snap.get(i).unwrap();
            let ghost prev = self@;
            self.set_bit(idx, b);
            proof {
                assert forall|j: int| 0 <= j < i as int implies self@[(j + r as int) % n as int]
                    == #[trigger] old(self)@[j] by {
                    lemma_mod_shift_distinct(j, i as int, r as int, n as int);
                    assert(prev[(j + r as int) % n as int] == old(self)@[j]);
                }
            }
            i = i + 1;
        }
    }
}

/// Shifting two distinct residues by the same amount keeps them distinct
/// modulo the length: each shifted value reduces to either itself or itself
/// less the length, and the cases never coincide.
proof fn lemma_mod_shift_distinct(i: int, j: int, r: int, n: int)
    requires
        0 <= i < n,
        0 <= j < n,
        i != j,
        0 <= r < n,
    ensures
        (i + r) % n != (j + r) % n,
{
    if i + r < n {
        lemma_small_mod((i + r) as nat, n as nat);
    } else {
        lemma_fundamental_div_mod_converse(i + r, n, 1, i + r - n);
    }
    if j + r < n {
        lemma_small_mod((j + r) as nat, n as nat);
    } else {
        lemma_fundamental_div_mod_converse(j + r, n, 1, j + r - n);
    }
}

} // verus!
