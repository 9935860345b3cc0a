//! Windowing, chunking and splitting cursors over a bit buffer.
//!
//! Every cursor here is driven purely by bit-pointer arithmetic: advancing,
//! retreating and skipping ahead are all constant-time index updates, and a
//! cursor item is a `BitPtr` naming the sub-range, never a copy of element
//! data.  Forward and backward ends share one index interval, so the two
//! directions converge without a gap or a double yield.

use vstd::arithmetic::div_mod::lemma_fundamental_div_mod;
use vstd::prelude::*;

use crate::bits::BitVec;
use crate::ptr::BitPtr;

verus! {

/// For a chunk index below the rounded-up chunk count, the chunk's first bit
/// is a valid offset.
proof fn lemma_chunk_start(i: int, size: int, len: int)
    requires
        size >= 1,
        len >= 1,
        0 <= i,
        i < (len - 1) / size + 1,
    ensures
        0 <= i * size < len,
        i * size + size <= len + size,
{
    let q = (len - 1) / size;
    lemma_fundamental_div_mod(len - 1, size);
    assert(0 <= i * size <= q * size <= len - 1 && i * size + size <= len + size)
        by (nonlinear_arith)
        requires
            0 <= i <= q,
            size >= 1,
            len - 1 == size * q + (len - 1) % size,
            0 <= (len - 1) % size,
    ;
}

/// For a chunk index below the exact chunk count, the whole chunk lies
/// within the range.
proof fn lemma_exact_chunk_span(i: int, size: int, len: int)
    requires
        size >= 1,
        len >= 0,
        0 <= i,
        i < len / size,
    ensures
        0 <= i * size,
        i * size + size <= len,
    {
    let q = len / size;
    lemma_fundamental_div_mod(len, size);
    assert(0 <= i * size && i * size + size <= q * size <= len) by (nonlinear_arith)
        requires
            0 <= i < q,
            size >= 1,
            len == size * q + len % size,
            0 <= len % size,
    ;
}

/// Fixed-width windows advancing one bit at a time.
pub struct Windows {
    pub base: BitPtr,
    pub size: usize,
    pub lo: usize,
    pub hi: usize,
}

impl Windows {
    /// Number of windows the underlying range offers.
    pub open spec fn count(&self) -> int {
        if self.size <= self.base.len {
            self.base.len - self.size + 1
        } else {
            0
        }
    }

    pub open spec fn wf(&self) -> bool {
        &&& self.base.wf()
        &&& self.size >= 1
        &&& self.lo <= self.hi
        &&& self.hi <= self.count()
    }

    /// The window at index `i`: `size` bits starting `i` bits in.
    pub open spec fn item(&self, i: int) -> (int, int) {
        (self.base.start() + i, self.size as int)
    }

    pub fn next(&mut self) -> (r: Option<BitPtr>)
        requires
            old(self).wf(),
        ensures
            final(self).wf(),
            final(self).base == old(self).base && final(self).size == old(self).size,
            final(self).hi == old(self).hi,
            r is Some <==> old(self).lo < old(self).hi,
            r is Some ==> {
                &&& final(self).lo == old(self).lo + 1
                &&& r.unwrap().start() == old(self).base.start() + old(self).lo
                &&& r.unwrap().len == old(self).size
            },
            r is None ==> final(self).lo == old(self).lo,
    {
        if self.lo < self.hi {
            let p = self.base.sub(self.lo, self.lo + self.size);
            self.lo = self.lo + 1;
            Some(p)
        } else {
            None
        }
    }

    pub fn next_back(&mut self) -> (r: Option<BitPtr>)
        requires
            old(self).wf(),
        ensures
            final(self).wf(),
            final(self).base == old(self).base && final(self).size == old(self).size,
            final(self).lo == old(self).lo,
            r is Some <==> old(self).lo < old(self).hi,
            r is Some ==> {
                &&& final(self).hi == old(self).hi - 1
                &&& r.unwrap().start() == old(self).base.start() + old(self).hi - 1
                &&& r.unwrap().len == old(self).size
            },
            r is None ==> final(self).hi == old(self).hi,
    {
        if self.lo < self.hi {
            self.hi = self.hi - 1;
            let p = self.base.sub(self.hi, self.hi + self.size);
            Some(p)
        } else {
            None
        }
    }

    /// Skip `k` windows and yield the next: a constant-time index update.
    pub fn nth(&mut self, k: usize) -> (r: Option<BitPtr>)
        requires
            old(self).wf(),
        ensures
            final(self).wf(),
            final(self).base == old(self).base && final(self).size == old(self).size,
            final(self).hi == old(self).hi,
            r is Some <==> old(self).lo + k < old(self).hi,
            r is Some ==> {
                &&& final(self).lo == old(self).lo + k + 1
                &&& r.unwrap().start() == old(self).base.start() + old(self).lo + k
                &&& r.unwrap().len == old(self).size
            },
            r is None ==> final(self).lo == final(self).hi,
    {
        if k < self.hi - self.lo {
            self.lo = self.lo + k;
            self.next()
        } else {
            self.lo = self.hi;
            None
        }
    }

    /// Skip `k` windows from the back and yield the next from the back.
    pub fn nth_back(&mut self, k: usize) -> (r: Option<BitPtr>)
        requires
            old(self).wf(),
        ensures
            final(self).wf(),
            final(self).base == old(self).base && final(self).size == old(self).size,
            final(self).lo == old(self).lo,
            r is Some <==> old(self).lo + k < old(self).hi,
            r is Some ==> {
                &&& final(self).hi == old(self).hi - k - 1
                &&& r.unwrap().start() == old(self).base.start() + old(self).hi - 1 - k
                &&& r.unwrap().len == old(self).size
            },
            r is None ==> final(self).hi == final(self).lo,
    {
        if k < self.hi - self.lo {
            self.hi = self.hi - k;
            self.next_back()
        } else {
            self.hi = self.lo;
            None
        }
    }
}

/// Forward chunks of a fixed width; the last chunk may be shorter.
pub struct Chunks {
    pub base: BitPtr,
    pub size: usize,
    pub lo: usize,
    pub hi: usize,
    pub rev: bool,
}

impl Chunks {
    pub open spec fn count(&self) -> int {
        if self.base.len == 0 {
            0
        } else {
            (self.base.len - 1) as int / self.size as int + 1
        }
    }

    pub open spec fn wf(&self) -> bool {
        &&& self.base.wf()
        &&& self.size >= 1
        &&& self.lo <= self.hi
        &&& self.hi <= self.count()
    }

    /// Bit bounds of chunk `i`, counted from the front or, for the
    /// reversed family, from the back.
    pub open spec fn item(&self, i: int) -> (int, int) {
        if !self.rev {
            (i * self.size, if (i + 1) * self.size <= self.base.len {
                (i + 1) * self.size
            } else {
                self.base.len as int
            })
        } else {
            (
                if self.base.len >= (i + 1) * self.size {
                    self.base.len - (i + 1) * self.size
                } else {
                    0
                },
                self.base.len - i * self.size,
            )
        }
    }

    /// The pointer for chunk `i`, consuming nothing.
    fn at(&self, i: usize) -> (r: BitPtr)
        requires
            self.wf(),
            i < self.count(),
        ensures
            r.wf(),
            r.width == self.base.width,
            r.start() == self.base.start() + self.item(i as int).0,
            r.len == self.item(i as int).1 - self.item(i as int).0,
    {
        proof {
            lemma_chunk_start(i as int, self.size as int, self.base.len as int);
        }
        if !self.rev {
            let lo = i * self.size;
            let hi = if self.base.len - lo < self.size {
                self.base.len
            } else {
                lo + self.size
            };
            proof {
                assert((i as int + 1) * self.size as int == i as int * self.size as int
                    + self.size as int) by (nonlinear_arith);
            }
            self.base.sub(lo, hi)
        } else {
            let hi = self.base.len - i * self.size;
            let lo = if hi < self.size {
                0
            } else {
                hi - self.size
            };
            proof {
                assert((i as int + 1) * self.size as int == i as int * self.size as int
                    + self.size as int) by (nonlinear_arith);
            }
            self.base.sub(lo, hi)
        }
    }

    pub fn next(&mut self) -> (r: Option<BitPtr>)
        requires
            old(self).wf(),
        ensures
            final(self).wf(),
            final(self).base == old(self).base && final(self).size == old(self).size,
            final(self).rev == old(self).rev,
            final(self).hi == old(self).hi,
            r is Some <==> old(self).lo < old(self).hi,
            r is Some ==> {
                &&& final(self).lo == old(self).lo + 1
                &&& r.unwrap().start() == old(self).base.start() + old(self).item(
                    old(self).lo as int,
                ).0
                &&& r.unwrap().len == old(self).item(old(self).lo as int).1 - old(self).item(
                    old(self).lo as int,
                ).0
            },
            r is None ==> final(self).lo == old(self).lo,
    {
        if self.lo < self.hi {
            let p = self.at(self.lo);
            self.lo = self.lo + 1;
            Some(p)
        } else {
            None
        }
    }

    pub fn next_back(&mut self) -> (r: Option<BitPtr>)
        requires
            old(self).wf(),
        ensures
            final(self).wf(),
            final(self).base == old(self).base && final(self).size == old(self).size,
            final(self).rev == old(self).rev,
            final(self).lo == old(self).lo,
            r is Some <==> old(self).lo < old(self).hi,
            r is Some ==> {
                &&& final(self).hi == old(self).hi - 1
                &&& r.unwrap().start() == old(self).base.start() + old(self).item(
                    old(self).hi - 1,
                ).0
                &&& r.unwrap().len == old(self).item(old(self).hi - 1).1 - old(self).item(
                    old(self).hi - 1,
                ).0
            },
            r is None ==> final(self).hi == old(self).hi,
    {
        if self.lo < self.hi {
            self.hi = self.hi - 1;
            let p = self.at(self.hi);
            Some(p)
        } else {
            None
        }
    }

    pub fn nth(&mut self, k: usize) -> (r: Option<BitPtr>)
        requires
            old(self).wf(),
        ensures
            final(self).wf(),
            final(self).base == old(self).base && final(self).size == old(self).size,
            final(self).rev == old(self).rev,
            final(self).hi == old(self).hi,
            r is Some <==> old(self).lo + k < old(self).hi,
            r is Some ==> {
                &&& final(self).lo == old(self).lo + k + 1
                &&& r.unwrap().start() == old(self).base.start() + old(self).item(
                    old(self).lo + k,
                ).0
                &&& r.unwrap().len == old(self).item(old(self).lo + k).1 - old(self).item(
                    old(self).lo + k,
                ).0
            },
            r is None ==> final(self).lo == final(self).hi,
    {
        if k < self.hi - self.lo {
            self.lo = self.lo + k;
            self.next()
        } else {
            self.lo = self.hi;
            None
        }
    }

    pub fn nth_back(&mut self, k: usize) -> (r: Option<BitPtr>)
        requires
            old(self).wf(),
        ensures
            final(self).wf(),
            final(self).base == old(self).base && final(self).size == old(self).size,
            final(self).rev == old(self).rev,
            final(self).lo == old(self).lo,
            r is Some <==> old(self).lo + k < old(self).hi,
            r is Some ==> {
                &&& final(self).hi == old(self).hi - k - 1
                &&& r.unwrap().start() == old(self).base.start() + old(self).item(
                    old(self).hi - 1 - k,
                ).0
                &&& r.unwrap().len == old(self).item(old(self).hi - 1 - k).1 - old(self).item(
                    old(self).hi - 1 - k,
                ).0
            },
            r is None ==> final(self).hi == final(self).lo,
    {
        if k < self.hi - self.lo {
            self.hi = self.hi - k;
            self.next_back()
        } else {
            self.hi = self.lo;
            None
        }
    }
}

/// Fixed-width chunks with the leftover remainder exposed separately.
pub struct ChunksExact {
    pub base: BitPtr,
    pub size: usize,
    pub lo: usize,
    pub hi: usize,
    pub rev: bool,
}

impl ChunksExact {
    pub open spec fn count(&self) -> int {
        self.base.len as int / self.size as int
    }

    pub open spec fn wf(&self) -> bool {
        &&& self.base.wf()
        &&& self.size >= 1
        &&& self.lo <= self.hi
        &&& self.hi <= self.count()
    }

    /// Bit bounds of chunk `i`, from the front or, reversed, from the back.
    pub open spec fn item(&self, i: int) -> (int, int) {
        if !self.rev {
            (i * self.size, i * self.size + self.size)
        } else {
            (self.base.len - (i + 1) * self.size, self.base.len - i * self.size)
        }
    }

    fn at(&self, i: usize) -> (r: BitPtr)
        requires
            self.wf(),
            i < self.count(),
        ensures
            r.wf(),
            r.width == self.base.width,
            r.start() == self.base.start() + self.item(i as int).0,
            r.len == self.size,
    {
        proof {
            lemma_exact_chunk_span(i as int, self.size as int, self.base.len as int);
            assert((i as int + 1) * self.size as int == i as int * self.size as int
                + self.size as int) by (nonlinear_arith);
        }
        if !self.rev {
            let lo = i * self.size;
            self.base.sub(lo, lo + self.size)
        } else {
            let hi = self.base.len - i * self.size;
            self.base.sub(hi - self.size, hi)
        }
    }

    /// The range the exact chunks never cover: the trailing leftover for the
    /// forward family, the leading leftover for the reversed one.
    pub fn remainder(&self) -> (r: BitPtr)
        requires
            self.wf(),
        ensures
            r.wf(),
            r.width == self.base.width,
            r.len == self.base.len as int % self.size as int,
            !self.rev ==> r.start() == self.base.start() + self.base.len - r.len,
            self.rev ==> r.start() == self.base.start(),
    {
        let rem = self.base.len % self.size;
        proof {
            lemma_fundamental_div_mod(self.base.len as int, self.size as int);
        }
        if !self.rev {
            self.base.sub(self.base.len - rem, self.base.len)
        } else {
            self.base.sub(0, rem)
        }
    }

    /// The remainder, consuming the cursor.
    pub fn into_remainder(self) -> (r: BitPtr)
        requires
            self.wf(),
        ensures
            r.wf(),
            r.width == self.base.width,
            r.len == self.base.len as int % self.size as int,
            !self.rev ==> r.start() == self.base.start() + self.base.len - r.len,
            self.rev ==> r.start() == self.base.start(),
    {
        self.remainder()
    }

    pub fn next(&mut self) -> (r: Option<BitPtr>)
        requires
            old(self).wf(),
        ensures
            final(self).wf(),
            final(self).base == old(self).base && final(self).size == old(self).size,
            final(self).rev == old(self).rev,
            final(self).hi == old(self).hi,
            r is Some <==> old(self).lo < old(self).hi,
            r is Some ==> {
                &&& final(self).lo == old(self).lo + 1
                &&& r.unwrap().start() == old(self).base.start() + old(self).item(
                    old(self).lo as int,
                ).0
                &&& r.unwrap().len == old(self).size
            },
            r is None ==> final(self).lo == old(self).lo,
    {
        if self.lo < self.hi {
            let p = self.at(self.lo);
            self.lo = self.lo + 1;
            Some(p)
        } else {
            None
        }
    }

    pub fn next_back(&mut self) -> (r: Option<BitPtr>)
        requires
            old(self).wf(),
        ensures
            final(self).wf(),
            final(self).base == old(self).base && final(self).size == old(self).size,
            final(self).rev == old(self).rev,
            final(self).lo == old(self).lo,
            r is Some <==> old(self).lo < old(self).hi,
            r is Some ==> {
                &&& final(self).hi == old(self).hi - 1
                &&& r.unwrap().start() == old(self).base.start() + old(self).item(
                    old(self).hi - 1,
                ).0
                &&& r.unwrap().len == old(self).size
            },
            r is None ==> final(self).hi == old(self).hi,
    {
        if self.lo < self.hi {
            self.hi = self.hi - 1;
            let p = self.at(self.hi);
            Some(p)
        } else {
            None
        }
    }

    pub fn nth(&mut self, k: usize) -> (r: Option<BitPtr>)
        requires
            old(self).wf(),
        ensures
            final(self).wf(),
            final(self).base == old(self).base && final(self).size == old(self).size,
            final(self).rev == old(self).rev,
            final(self).hi == old(self).hi,
            r is Some <==> old(self).lo + k < old(self).hi,
            r is Some ==> {
                &&& final(self).lo == old(self).lo + k + 1
                &&& r.unwrap().start() == old(self).base.start() + old(self).item(
                    old(self).lo + k,
                ).0
                &&& r.unwrap().len == old(self).size
            },
            r is None ==> final(self).lo == final(self).hi,
    {
        if k < self.hi - self.lo {
            self.lo = self.lo + k;
            self.next()
        } else {
            self.lo = self.hi;
            None
        }
    }

    pub fn nth_back(&mut self, k: usize) -> (r: Option<BitPtr>)
        requires
            old(self).wf(),
        ensures
            final(self).wf(),
            final(self).base == old(self).base && final(self).size == old(self).size,
            final(self).rev == old(self).rev,
            final(self).lo == old(self).lo,
            r is Some <==> old(self).lo + k < old(self).hi,
            r is Some ==> {
                &&& final(self).hi == old(self).hi - k - 1
                &&& r.unwrap().start() == old(self).base.start() + old(self).item(
                    old(self).hi - 1 - k,
                ).0
                &&& r.unwrap().len == old(self).size
            },
            r is None ==> final(self).hi == final(self).lo,
    {
        if k < self.hi - self.lo {
            self.hi = self.hi - k;
            self.next_back()
        } else {
            self.hi = self.lo;
            None
        }
    }
}

impl BitVec {
    /// All `size`-bit windows, one bit apart.
    pub fn windows(&self, size: usize) -> (r: Windows)
        requires
            self.wf(),
            size >= 1,
        ensures
            r.wf(),
            r.base.start() == self.head as int,
            r.base.len == self@.len(),
            r.size == size,
            r.lo == 0,
            r.hi == r.count(),
    {
        let base = self.bitptr();
        let hi = if size <= base.len {
            base.len - size + 1
        } else {
            0
        };
        Windows { base, size, lo: 0, hi }
    }

    fn chunk_count(&self, size: usize) -> (r: usize)
        requires
            self.wf(),
            size >= 1,
        ensures
            r as int == if self@.len() == 0 {
                0int
            } else {
                (self@.len() - 1) as int / size as int + 1
            },
    {
        if self.length() == 0 {
            0
        } else {
            (self.length() - 1) / size + 1
        }
    }

    /// Forward chunks of `size` bits; the last may be shorter.
    pub fn chunks(&self, size: usize) -> (r: Chunks)
        requires
            self.wf(),
            size >= 1,
        ensures
            r.wf(),
            r.base.start() == self.head as int,
            r.base.len == self@.len(),
            r.size == size,
            r.lo == 0,
            r.hi == r.count(),
            !r.rev,
    {
        let hi = self.chunk_count(size);
        Chunks { base: self.bitptr(), size, lo: 0, hi, rev: false }
    }

    /// Backward chunks of `size` bits, counted from the end; the last
    /// yielded (the range's front) may be shorter.
    pub fn rchunks(&self, size: usize) -> (r: Chunks)
        requires
            self.wf(),
            size >= 1,
        ensures
            r.wf(),
            r.base.start() == self.head as int,
            r.base.len == self@.len(),
            r.size == size,
            r.lo == 0,
            r.hi == r.count(),
            r.rev,
    {
        let hi = self.chunk_count(size);
        Chunks { base: self.bitptr(), size, lo: 0, hi, rev: true }
    }

    /// Forward chunks of exactly `size` bits, the leftover exposed as the
    /// remainder.
    pub fn chunks_exact(&self, size: usize) -> (r: ChunksExact)
        requires
            self.wf(),
            size >= 1,
        ensures
            r.wf(),
            r.base.start() == self.head as int,
            r.base.len == self@.len(),
            r.size == size,
            r.lo == 0,
            r.hi == r.count(),
            !r.rev,
    {
        let hi = self.length() / size;
        proof {
            lemma_fundamental_div_mod(self@.len() as int, size as int);
        }
        ChunksExact { base: self.bitptr(), size, lo: 0, hi, rev: false }
    }

    /// Backward chunks of exactly `size` bits, the leading leftover exposed
    /// as the remainder.
    pub fn rchunks_exact(&self, size: usize) -> (r: ChunksExact)
        requires
            self.wf(),
            size >= 1,
        ensures
            r.wf(),
            r.base.start() == self.head as int,
            r.base.len == self@.len(),
            r.size == size,
            r.lo == 0,
            r.hi == r.count(),
            r.rev,
    {
        let hi = self.length() / size;
        proof {
            lemma_fundamental_div_mod(self@.len() as int, size as int);
        }
        ChunksExact { base: self.bitptr(), size, lo: 0, hi, rev: true }
    }
}

} // verus!
