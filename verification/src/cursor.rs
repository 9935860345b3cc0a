//! Per-bit cursors: bit values, bit indices, set-bit and cleared-bit
//! positions, and predicate-driven segment splitting.

use vstd::prelude::*;

use crate::bits::BitVec;
use crate::ptr::BitPtr;

verus! {

/// The positions, in ascending order, at which a sequence holds `v`.
pub open spec fn index_positions(s: Seq<bool>, v: bool) -> Seq<usize>
    decreases s.len(),
{
    if s.len() == 0 {
        Seq::empty()
    } else {
        index_positions(s.drop_last(), v) + if s.last() == v {
            seq![(s.len() - 1) as usize]
        } else {
            Seq::empty()
        }
    }
}

/// A double-ended cursor over the bit values of a buffer, walking a snapshot
/// of its content; the remaining range is available as a pointer.
#[derive(Clone)]
pub struct BitIter {
    pub bits: Vec<bool>,
    pub base: BitPtr,
    pub lo: usize,
    pub hi: usize,
}

impl BitIter {
    pub open spec fn wf(&self) -> bool {
        &&& self.base.wf()
        &&& self.lo <= self.hi
        &&& self.hi <= self.bits@.len()
        &&& self.bits@.len() == self.base.len
    }

    pub fn next(&mut self) -> (r: Option<bool>)
        requires
            old(self).wf(),
        ensures
            final(self).wf(),
            final(self).bits == old(self).bits && final(self).base == old(self).base,
            final(self).hi == old(self).hi,
            r is Some <==> old(self).lo < old(self).hi,
            r is Some ==> r == Some(old(self).bits@[old(self).lo as int]) && final(self).lo
                == old(self).lo + 1,
            r is None ==> final(self).lo == old(self).lo,
    {
        if self.lo < self.hi {
            let b = self.bits[self.lo];
            self.lo = self.lo + 1;
            Some(b)
        } else {
            None
        }
    }

    pub fn next_back(&mut self) -> (r: Option<bool>)
        requires
            old(self).wf(),
        ensures
            final(self).wf(),
            final(self).bits == old(self).bits && final(self).base == old(self).base,
            final(self).lo == old(self).lo,
            r is Some <==> old(self).lo < old(self).hi,
            r is Some ==> r == Some(old(self).bits@[old(self).hi - 1]) && final(self).hi == old(self).hi - 1,
            r is None ==> final(self).hi == old(self).hi,
    {
        if self.lo < self.hi {
            self.hi = self.hi - 1;
            Some(self.bits[self.hi])
        } else {
            None
        }
    }

    pub fn nth(&mut self, k: usize) -> (r: Option<bool>)
        requires
            old(self).wf(),
        ensures
            final(self).wf(),
            final(self).bits == old(self).bits && final(self).base == old(self).base,
            final(self).hi == old(self).hi,
            r is Some <==> old(self).lo + k < old(self).hi,
            r is Some ==> r == Some(old(self).bits@[old(self).lo + k]) && final(self).lo == old(self).lo + k + 1,
            r is None ==> final(self).lo == final(self).hi,
    {
        if k < self.hi - self.lo {
            self.lo = self.lo + k;
            self.next()
        } else {
            self.lo = self.hi;
            None
        }
    }

    pub fn nth_back(&mut self, k: usize) -> (r: Option<bool>)
        requires
            old(self).wf(),
        ensures
            final(self).wf(),
            final(self).bits == old(self).bits && final(self).base == old(self).base,
            final(self).lo == old(self).lo,
            r is Some <==> old(self).lo + k < old(self).hi,
            r is Some ==> r == Some(old(self).bits@[old(self).hi - 1 - k]) && final(self).hi
                == old(self).hi - k - 1,
            r is None ==> final(self).hi == final(self).lo,
    {
        if k < self.hi - self.lo {
            self.hi = self.hi - k;
            self.next_back()
        } else {
            self.hi = self.lo;
            None
        }
    }

    /// The pointer to the not-yet-visited range.
    pub fn as_ptr(&self) -> (r: BitPtr)
        requires
            self.wf(),
        ensures
            r.wf(),
            r.start() == self.base.start() + self.lo,
            r.len == self.hi - self.lo,
    {
        self.base.sub(self.lo, self.hi)
    }
}

/// A double-ended cursor over the logical indices of a buffer, for callers
/// that write through it: each yielded index may be handed to `set_bit`.
pub struct IndexIter {
    pub base: BitPtr,
    pub lo: usize,
    pub hi: usize,
}

impl IndexIter {
    pub open spec fn wf(&self) -> bool {
        &&& self.base.wf()
        &&& self.lo <= self.hi
        &&& self.hi <= self.base.len
    }

    pub fn next(&mut self) -> (r: Option<usize>)
        requires
            old(self).wf(),
        ensures
            final(self).wf(),
            final(self).base == old(self).base,
            final(self).hi == old(self).hi,
            r is Some <==> old(self).lo < old(self).hi,
            r is Some ==> r == Some(old(self).lo) && final(self).lo == old(self).lo + 1,
            r is None ==> final(self).lo == old(self).lo,
    {
        if self.lo < self.hi {
            let i = self.lo;
            self.lo = self.lo + 1;
            Some(i)
        } else {
            None
        }
    }

    pub fn next_back(&mut self) -> (r: Option<usize>)
        requires
            old(self).wf(),
        ensures
            final(self).wf(),
            final(self).base == old(self).base,
            final(self).lo == old(self).lo,
            r is Some <==> old(self).lo < old(self).hi,
            r is Some ==> r == Some((old(self).hi - 1) as usize) && final(self).hi == old(self).hi - 1,
            r is None ==> final(self).hi == old(self).hi,
    {
        if self.lo < self.hi {
            self.hi = self.hi - 1;
            Some(self.hi)
        } else {
            None
        }
    }

    pub fn nth(&mut self, k: usize) -> (r: Option<usize>)
        requires
            old(self).wf(),
        ensures
            final(self).wf(),
            final(self).base == old(self).base,
            final(self).hi == old(self).hi,
            r is Some <==> old(self).lo + k < old(self).hi,
            r is Some ==> r == Some((old(self).lo + k) as usize) && final(self).lo == old(self).lo + k + 1,
            r is None ==> final(self).lo == final(self).hi,
    {
        if k < self.hi - self.lo {
            self.lo = self.lo + k;
            self.next()
        } else {
            self.lo = self.hi;
            None
        }
    }

    pub fn nth_back(&mut self, k: usize) -> (r: Option<usize>)
        requires
            old(self).wf(),
        ensures
            final(self).wf(),
            final(self).base == old(self).base,
            final(self).lo == old(self).lo,
            r is Some <==> old(self).lo + k < old(self).hi,
            r is Some ==> r == Some((old(self).hi - 1 - k) as usize) && final(self).hi == old(self).hi - k - 1,
            r is None ==> final(self).hi == final(self).lo,
    {
        if k < self.hi - self.lo {
            self.hi = self.hi - k;
            self.next_back()
        } else {
            self.hi = self.lo;
            None
        }
    }

    /// The pointer to the not-yet-visited range.
    pub fn as_ptr(&self) -> (r: BitPtr)
        requires
            self.wf(),
        ensures
            r.wf(),
            r.start() == self.base.start() + self.lo,
            r.len == self.hi - self.lo,
    {
        self.base.sub(self.lo, self.hi)
    }
}

/// A double-ended cursor over the positions of one bit value, in ascending
/// order.
#[derive(Clone)]
pub struct IterIndices {
    pub positions: Vec<usize>,
    pub lo: usize,
    pub hi: usize,
}

impl IterIndices {
    pub open spec fn wf(&self) -> bool {
        self.lo <= self.hi <= self.positions@.len()
    }

    pub fn next(&mut self) -> (r: Option<usize>)
        requires
            old(self).wf(),
        ensures
            final(self).wf(),
            final(self).positions == old(self).positions,
            final(self).hi == old(self).hi,
            r is Some <==> old(self).lo < old(self).hi,
            r is Some ==> r == Some(old(self).positions@[old(self).lo as int]) && final(self).lo
                == old(self).lo + 1,
            r is None ==> final(self).lo == old(self).lo,
    {
        if self.lo < self.hi {
            let p = self.positions[self.lo];
            self.lo = self.lo + 1;
            Some(p)
        } else {
            None
        }
    }

    pub fn next_back(&mut self) -> (r: Option<usize>)
        requires
            old(self).wf(),
        ensures
            final(self).wf(),
            final(self).positions == old(self).positions,
            final(self).lo == old(self).lo,
            r is Some <==> old(self).lo < old(self).hi,
            r is Some ==> r == Some(old(self).positions@[old(self).hi - 1]) && final(self).hi
                == old(self).hi - 1,
            r is None ==> final(self).hi == old(self).hi,
    {
        if self.lo < self.hi {
            self.hi = self.hi - 1;
            Some(self.positions[self.hi])
        } else {
            None
        }
    }

    pub fn nth(&mut self, k: usize) -> (r: Option<usize>)
        requires
            old(self).wf(),
        ensures
            final(self).wf(),
            final(self).positions == old(self).positions,
            final(self).hi == old(self).hi,
            r is Some <==> old(self).lo + k < old(self).hi,
            r is Some ==> r == Some(old(self).positions@[old(self).lo + k]) && final(self).lo
                == old(self).lo + k + 1,
            r is None ==> final(self).lo == final(self).hi,
    {
        if k < self.hi - self.lo {
            self.lo = self.lo + k;
            self.next()
        } else {
            self.lo = self.hi;
            None
        }
    }

    pub fn nth_back(&mut self, k: usize) -> (r: Option<usize>)
        requires
            old(self).wf(),
        ensures
            final(self).wf(),
            final(self).positions == old(self).positions,
            final(self).lo == old(self).lo,
            r is Some <==> old(self).lo + k < old(self).hi,
            r is Some ==> r == Some(old(self).positions@[old(self).hi - 1 - k]) && final(self).hi == old(self).hi - k - 1,
            r is None ==> final(self).hi == final(self).lo,
    {
        if k < self.hi - self.lo {
            self.hi = self.hi - k;
            self.next_back()
        } else {
            self.hi = self.lo;
            None
        }
    }

    /// The exact number of positions left, as a lower and upper bound.
    pub fn size_hint(&self) -> (r: (usize, Option<usize>))
        requires
            self.wf(),
        ensures
            r.0 == self.hi - self.lo,
            r.1 == Some((self.hi - self.lo) as usize),
    {
        (self.hi - self.lo, Some(self.hi - self.lo))
    }

    /// The number of positions left, consuming the cursor.
    pub fn count(self) -> (r: usize)
        requires
            self.wf(),
        ensures
            r == self.hi - self.lo,
    {
        self.hi - self.lo
    }

    /// The hindmost remaining position, consuming the cursor.
    pub fn last(self) -> (r: Option<usize>)
        requires
            self.wf(),
        ensures
            r is Some <==> self.lo < self.hi,
            r is Some ==> r == Some(self.positions@[self.hi - 1]),
    {
        if self.lo < self.hi {
            Some(self.positions[self.hi - 1])
        } else {
            None
        }
    }
}

/// Predicate-driven forward splitting: each yielded pair is the half-open
/// segment between two matched bits.
pub struct Split {
    pub bits: Vec<bool>,
    pub cur: usize,
    pub done: bool,
}

/// Predicate-driven backward splitting.
pub struct RSplit {
    pub bits: Vec<bool>,
    pub hi: usize,
    pub done: bool,
}

/// Forward splitting limited to a segment budget; the last segment is the
/// unsplit rest.
pub struct SplitN {
    pub bits: Vec<bool>,
    pub cur: usize,
    pub remaining: usize,
    pub done: bool,
}

/// Backward splitting limited to a segment budget.
pub struct RSplitN {
    pub bits: Vec<bool>,
    pub hi: usize,
    pub remaining: usize,
    pub done: bool,
}

impl Split {
    pub open spec fn wf(&self) -> bool {
        self.cur <= self.bits@.len()
    }

    /// The next segment: from the cursor to the next bit the predicate
    /// matches (exclusive), or to the end.  The predicate sees the bit's
    /// index and value.
    pub fn next<F: Fn(usize, bool) -> bool>(&mut self, f: &F) -> (r: Option<(usize, usize)>)
        requires
            old(self).wf(),
            forall|i: usize, b: bool| #[trigger] f.requires((i, b)),
        ensures
            final(self).wf(),
            final(self).bits == old(self).bits,
            r is None <==> old(self).done,
            r is Some ==> {
                &&& r.unwrap().0 == old(self).cur
                &&& r.unwrap().0 <= r.unwrap().1 <= old(self).bits@.len()
                &&& forall|i: int|
                    r.unwrap().0 <= i < r.unwrap().1 ==> call_ensures(
                        *f,
                        (i as usize, old(self).bits@[i]),
                        false,
                    )
            },
            r is Some && r.unwrap().1 < old(self).bits@.len() ==> {
                &&& call_ensures(
                    *f,
                    ((r.unwrap().1) as usize, old(self).bits@[r.unwrap().1 as int]),
                    true,
                )
                &&& final(self).cur == r.unwrap().1 + 1
                &&& !final(self).done
            },
            r is Some && r.unwrap().1 == old(self).bits@.len() ==> final(self).done,
    {
        if self.done {
            return None;
        }
        let n = self.bits.len();
        let start = self.cur;
        let mut k: usize = start;
        while k < n
            invariant
                *self == *old(self),
                start <= k <= n,
                n == self.bits@.len(),
                forall|i: usize, b: bool| #[trigger] f.requires((i, b)),
                forall|i: int|
                    start <= i < k ==> call_ensures(*f, (i as usize, self.bits@[i]), false),
            decreases n - k,
        {
            if f(k, self.bits[k]) {
                self.cur = k + 1;
                return Some((start, k));
            }
            k = k + 1;
        }
        self.done = true;
        Some((start, n))
    }
}

impl RSplit {
    pub open spec fn wf(&self) -> bool {
        self.hi <= self.bits@.len()
    }

    /// The next segment from the back: after the hindmost matched bit below
    /// the cursor, up to the cursor.
    pub fn next<F: Fn(usize, bool) -> bool>(&mut self, f: &F) -> (r: Option<(usize, usize)>)
        requires
            old(self).wf(),
            forall|i: usize, b: bool| #[trigger] f.requires((i, b)),
        ensures
            final(self).wf(),
            final(self).bits == old(self).bits,
            r is None <==> old(self).done,
            r is Some ==> {
                &&& r.unwrap().1 == old(self).hi
                &&& r.unwrap().0 <= r.unwrap().1 <= old(self).bits@.len()
                &&& forall|i: int|
                    r.unwrap().0 <= i < r.unwrap().1 ==> call_ensures(
                        *f,
                        (i as usize, old(self).bits@[i]),
                        false,
                    )
            },
            r is Some && r.unwrap().0 > 0 ==> {
                &&& call_ensures(
                    *f,
                    ((r.unwrap().0 - 1) as usize, old(self).bits@[r.unwrap().0 - 1]),
                    true,
                )
                &&& final(self).hi == r.unwrap().0 - 1
                &&& !final(self).done
            },
            r is Some && r.unwrap().0 == 0 ==> final(self).done,
    {
        if self.done {
            return None;
        }
        let end = self.hi;
        let mut k: usize = end;
        while k > 0
            invariant
                *self == *old(self),
                k <= end,
                end <= self.bits@.len(),
                forall|i: usize, b: bool| #[trigger] f.requires((i, b)),
                forall|i: int|
                    k <= i < end ==> call_ensures(*f, (i as usize, self.bits@[i]), false),
            decreases k,
        {
            k = k - 1;
            if f(k, self.bits[k]) {
                self.hi = k;
                return Some((k + 1, end));
            }
        }
        self.done = true;
        Some((0, end))
    }
}

impl SplitN {
    pub open spec fn wf(&self) -> bool {
        self.cur <= self.bits@.len()
    }

    /// As forward splitting, but once one segment of the budget is left the
    /// whole unsplit rest is yielded.
    pub fn next<F: Fn(usize, bool) -> bool>(&mut self, f: &F) -> (r: Option<(usize, usize)>)
        requires
            old(self).wf(),
            forall|i: usize, b: bool| #[trigger] f.requires((i, b)),
        ensures
            final(self).wf(),
            final(self).bits == old(self).bits,
            r is None <==> (old(self).done || old(self).remaining == 0),
            r is Some ==> {
                &&& r.unwrap().0 == old(self).cur
                &&& r.unwrap().0 <= r.unwrap().1 <= old(self).bits@.len()
            },
            old(self).remaining == 1 && !old(self).done ==> r == Some(
                (old(self).cur, old(self).bits@.len() as usize),
            ) && final(self).done,
            r is Some && old(self).remaining > 1 ==> forall|i: int|
                r.unwrap().0 <= i < r.unwrap().1 ==> call_ensures(
                    *f,
                    (i as usize, old(self).bits@[i]),
                    false,
                ),
            r is Some && old(self).remaining > 1 && r.unwrap().1 < old(self).bits@.len() ==> {
                &&& call_ensures(
                    *f,
                    ((r.unwrap().1) as usize, old(self).bits@[r.unwrap().1 as int]),
                    true,
                )
                &&& final(self).cur == r.unwrap().1 + 1
                &&& final(self).remaining == old(self).remaining - 1
            },
    {
        if self.done || self.remaining == 0 {
            if self.remaining == 0 {
                self.done = true;
            }
            return None;
        }
        let n = self.bits.len();
        let start = self.cur;
        if self.remaining == 1 {
            self.remaining = 0;
            self.done = true;
            return Some((start, n));
        }
        self.remaining = self.remaining - 1;
        let mut k: usize = start;
        while k < n
            invariant
                self.bits == old(self).bits,
                self.cur == old(self).cur,
                self.done == old(self).done,
                self.remaining == old(self).remaining - 1,
                start <= k <= n,
                n == self.bits@.len(),
                forall|i: usize, b: bool| #[trigger] f.requires((i, b)),
                forall|i: int|
                    start <= i < k ==> call_ensures(*f, (i as usize, self.bits@[i]), false),
            decreases n - k,
        {
            if f(k, self.bits[k]) {
                self.cur = k + 1;
                return Some((start, k));
            }
            k = k + 1;
        }
        self.done = true;
        Some((start, n))
    }
}

impl RSplitN {
    pub open spec fn wf(&self) -> bool {
        self.hi <= self.bits@.len()
    }

    /// As backward splitting, but once one segment of the budget is left the
    /// whole unsplit front is yielded.
    pub fn next<F: Fn(usize, bool) -> bool>(&mut self, f: &F) -> (r: Option<(usize, usize)>)
        requires
            old(self).wf(),
            forall|i: usize, b: bool| #[trigger] f.requires((i, b)),
        ensures
            final(self).wf(),
            final(self).bits == old(self).bits,
            r is None <==> (old(self).done || old(self).remaining == 0),
            r is Some ==> r.unwrap().0 <= r.unwrap().1 <= old(self).bits@.len(),
            r is Some ==> r.unwrap().1 == old(self).hi,
            old(self).remaining == 1 && !old(self).done ==> r == Some((0usize, old(self).hi))
                && final(self).done,
            r is Some && old(self).remaining > 1 ==> forall|i: int|
                r.unwrap().0 <= i < r.unwrap().1 ==> call_ensures(
                    *f,
                    (i as usize, old(self).bits@[i]),
                    false,
                ),
            r is Some && old(self).remaining > 1 && r.unwrap().0 > 0 ==> {
                &&& call_ensures(
                    *f,
                    ((r.unwrap().0 - 1) as usize, old(self).bits@[r.unwrap().0 - 1]),
                    true,
                )
                &&& final(self).hi == r.unwrap().0 - 1
                &&& final(self).remaining == old(self).remaining - 1
            },
    {
        if self.done || self.remaining == 0 {
            if self.remaining == 0 {
                self.done = true;
            }
            return None;
        }
        let end = self.hi;
        if self.remaining == 1 {
            self.remaining = 0;
            self.done = true;
            return Some((0, end));
        }
        self.remaining = self.remaining - 1;
        let mut k: usize = end;
        while k > 0
            invariant
                self.bits == old(self).bits,
                self.hi == old(self).hi,
                self.done == old(self).done,
                self.remaining == old(self).remaining - 1,
                k <= end,
                end <= self.bits@.len(),
                forall|i: usize, b: bool| #[trigger] f.requires((i, b)),
                forall|i: int|
                    k <= i < end ==> call_ensures(*f, (i as usize, self.bits@[i]), false),
            decreases k,
        {
            k = k - 1;
            if f(k, self.bits[k]) {
                self.hi = k;
                return Some((k + 1, end));
            }
        }
        self.done = true;
        Some((0, end))
    }
}

impl BitVec {
    /// The buffer's bits as plain values, in logical order.
    pub fn to_bools(&self) -> (r: Vec<bool>)
        requires
            self.wf(),
        ensures
            r@ =~= self@,
    {
        let n = self.length();
        let mut r: Vec<bool> = Vec::new();
        let mut i: usize = 0;
        while i < n
            invariant
                i <= n,
                n == self@.len(),
                r@.len() == i as int,
                forall|j: int| 0 <= j < i ==> r@[j] == self@[j],
            decreases n - i,
        {
            r.push(self.get(i).unwrap());
            i = i + 1;
        }
        r
    }

    /// A double-ended cursor over the bit values.
    pub fn iter(&self) -> (r: BitIter)
        requires
            self.wf(),
        ensures
            r.wf(),
            r.bits@ =~= self@,
            r.base.start() == self.head as int,
            r.base.len == self@.len(),
            r.lo == 0,
            r.hi == self@.len(),
    {
        BitIter { bits: self.to_bools(), base: self.bitptr(), lo: 0, hi: self.length() }
    }

    /// A double-ended cursor over the logical indices, for write access
    /// through `set_bit`.
    pub fn index_iter(&self) -> (r: IndexIter)
        requires
            self.wf(),
        ensures
            r.wf(),
            r.base.start() == self.head as int,
            r.base.len == self@.len(),
            r.lo == 0,
            r.hi == self@.len(),
    {
        IndexIter { base: self.bitptr(), lo: 0, hi: self.length() }
    }

    fn positions_of(&self, v: bool) -> (r: Vec<usize>)
        requires
            self.wf(),
        ensures
            r@ =~= index_positions(self@, v),
    {
        let n = self.length();
        let mut r: Vec<usize> = Vec::new();
        let mut i: usize = 0;
        while i < n
            invariant
                i <= n,
                n == self@.len(),
                r@ =~= index_positions(self@.subrange(0, i as int), v),
            decreases n - i,
        {
            proof {
                let sub = self@.subrange(0, i + 1);
                assert(sub.drop_last() =~= self@.subrange(0, i as int));
                assert(sub.last() == self@[i as int]);
            }
            if self.get(i).unwrap() == v {
                r.push(i);
            }
            i = i + 1;
        }
        proof {
            assert(self@.subrange(0, n as int) =~= self@);
        }
        r
    }

    /// The positions of the set bits, ascending.
    pub fn iter_ones(&self) -> (r: IterIndices)
        requires
            self.wf(),
        ensures
            r.wf(),
            r.positions@ =~= index_positions(self@, true),
            r.lo == 0,
            r.hi == r.positions@.len(),
    {
        let positions = self.positions_of(true);
        let hi = positions.len();
        IterIndices { positions, lo: 0, hi }
    }

    /// The positions of the cleared bits, ascending.
    pub fn iter_zeros(&self) -> (r: IterIndices)
        requires
            self.wf(),
        ensures
            r.wf(),
            r.positions@ =~= index_positions(self@, false),
            r.lo == 0,
            r.hi == r.positions@.len(),
    {
        let positions = self.positions_of(false);
        let hi = positions.len();
        IterIndices { positions, lo: 0, hi }
    }

    /// Forward splitting on a caller-supplied predicate over index and bit.
    pub fn split(&self) -> (r: Split)
        requires
            self.wf(),
        ensures
            r.wf(),
            r.bits@ =~= self@,
            r.cur == 0,
            !r.done,
    {
        Split { bits: self.to_bools(), cur: 0, done: false }
    }

    /// Backward splitting on a caller-supplied predicate.
    pub fn rsplit(&self) -> (r: RSplit)
        requires
            self.wf(),
        ensures
            r.wf(),
            r.bits@ =~= self@,
            r.hi == self@.len(),
            !r.done,
    {
        RSplit { bits: self.to_bools(), hi: self.length(), done: false }
    }

    /// Forward splitting with a segment budget of `n`.
    pub fn splitn(&self, n: usize) -> (r: SplitN)
        requires
            self.wf(),
        ensures
            r.wf(),
            r.bits@ =~= self@,
            r.cur == 0,
            r.remaining == n,
            !r.done,
    {
        SplitN { bits: self.to_bools(), cur: 0, remaining: n, done: false }
    }

    /// Backward splitting with a segment budget of `n`.
    pub fn rsplitn(&self, n: usize) -> (r: RSplitN)
        requires
            self.wf(),
        ensures
            r.wf(),
            r.bits@ =~= self@,
            r.hi == self@.len(),
            r.remaining == n,
            !r.done,
    {
        RSplitN { bits: self.to_bools(), hi: self.length(), remaining: n, done: false }
    }
}

} // verus!
