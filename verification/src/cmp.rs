//! Equality, lexicographic ordering and substring search over bit buffers.

use vstd::prelude::*;

use crate::bits::BitVec;

verus! {

/// The first `k` bits of the two sequences agree.
pub open spec fn prefix_eq(a: Seq<bool>, b: Seq<bool>, k: int) -> bool {
    forall|j: int| 0 <= j < k ==> a[j] == b[j]
}

/// Lexicographic order on bit sequences: the first differing bit decides,
/// a cleared bit sorting before a set one; when one sequence is a strict
/// prefix of the other, only then does length decide, the shorter first.
pub open spec fn lex_less(a: Seq<bool>, b: Seq<bool>) -> bool {
    ||| exists|k: int|
        0 <= k < a.len() && k < b.len() && #[trigger] prefix_eq(a, b, k) && !a[k] && b[k]
    ||| (a.len() < b.len() && prefix_eq(a, b, a.len() as int))
}

/// Law: a strict prefix sorts before any extension of it, independent of the
/// extension's trailing content.
pub proof fn lemma_strict_prefix_sorts_first(a: Seq<bool>, b: Seq<bool>)
    requires
        a.len() < b.len(),
        a =~= b.subrange(0, a.len() as int),
    ensures
        lex_less(a, b),
{
    assert(prefix_eq(a, b, a.len() as int));
}

impl BitVec {
    /// Bitwise content equality: same length and the same bit at every
    /// index, whatever the two sides' policies or register widths.
    pub fn eq_bits(&self, other: &BitVec) -> (r: bool)
        requires
            self.wf(),
            other.wf(),
        ensures
            r <==> self@ =~= other@,
    {
        if self.length() != other.length() {
            return false;
        }
        let n = self.length();
        let mut i: usize = 0;
        while i < n
            invariant
                i <= n,
                n == self@.len(),
                n == other@.len(),
                forall|j: int| 0 <= j < i ==> self@[j] == other@[j],
            decreases n - i,
        {
            if self.get(i).unwrap() != other.get(i).unwrap() {
                return false;
            }
            i = i + 1;
        }
        assert(self@ =~= other@);
        true
    }

    /// Strict lexicographic comparison, as `lex_less` states it.
    pub fn lex_lt(&self, other: &BitVec) -> (r: bool)
        requires
            self.wf(),
            other.wf(),
        ensures
            r <==> lex_less(self@, other@),
    {
        let a_len = self.length();
        let b_len = other.length();
        let min = if a_len < b_len {
            a_len
        } else {
            b_len
        };
        let mut i: usize = 0;
        while i < min
            invariant
                i <= min,
                min == if a_len < b_len { a_len } else { b_len },
                a_len == self@.len(),
                b_len == other@.len(),
                prefix_eq(self@, other@, i as int),
            decreases min - i,
        {
            let a = self.get(i).unwrap();
            let b = other.get(i).unwrap();
            if a != b {
                proof {
                    if !a {
                        assert(prefix_eq(self@, other@, i as int));
                    } else {
                        assert forall|k: int|
                            0 <= k < self@.len() && k < other@.len() && #[trigger] prefix_eq(
                            self@, other@, k) implies !(!self@[k] && other@[k]) by {
                            if k > i as int {
                                assert(self@[i as int] == other@[i as int]);
                            }
                        }
                        assert(!(self@.len() < other@.len() && prefix_eq(
                            self@, other@, self@.len() as int)));
                    }
                }
                return !a;
            }
            i = i + 1;
        }
        proof {
            if a_len < b_len {
                assert(prefix_eq(self@, other@, self@.len() as int));
            } else {
                assert forall|k: int|
                    0 <= k < self@.len() && k < other@.len() && #[trigger] prefix_eq(
                    self@, other@, k) implies !(!self@[k] && other@[k]) by {
                    assert(self@[k] == other@[k]);
                }
            }
        }
        a_len < b_len
    }

    /// Whether this buffer's range `[at, at + m)` holds exactly the bits of
    /// `other`, where `m` is `other`'s length.
    pub fn matches_at(&self, at: usize, other: &BitVec) -> (r: bool)
        requires
            self.wf(),
            other.wf(),
            at + other@.len() <= self@.len(),
        ensures
            r <==> self@.subrange(at as int, at + other@.len()) =~= other@,
    {
        let m = other.length();
        let mut i: usize = 0;
        while i < m
            invariant
                i <= m,
                m == other@.len(),
                at + m <= self@.len(),
                forall|j: int| 0 <= j < i ==> self@[at + j] == other@[j],
            decreases m - i,
        {
            if self.get(at + i).unwrap() != other.get(i).unwrap() {
                proof {
                    assert(self@.subrange(at as int, at + other@.len())[i as int] != other@[
                        i as int]);
                }
                return false;
            }
            i = i + 1;
        }
        assert(self@.subrange(at as int, at + other@.len()) =~= other@);
        true
    }

    /// `other` appears at the start of this buffer.
    pub fn starts_with(&self, other: &BitVec) -> (r: bool)
        requires
            self.wf(),
            other.wf(),
        ensures
            r <==> (other@.len() <= self@.len() && self@.subrange(0, other@.len() as int)
                =~= other@),
    {
        if other.length() > self.length() {
            return false;
        }
        self.matches_at(0, other)
    }

    /// `other` appears at the end of this buffer.
    pub fn ends_with(&self, other: &BitVec) -> (r: bool)
        requires
            self.wf(),
            other.wf(),
        ensures
            r <==> (other@.len() <= self@.len() && self@.subrange(
                self@.len() - other@.len(),
                self@.len() as int,
            ) =~= other@),
    {
        if other.length() > self.length() {
            return false;
        }
        self.matches_at(self.length() - other.length(), other)
    }

    /// `other` appears somewhere in this buffer as a contiguous run.
    pub fn contains(&self, other: &BitVec) -> (r: bool)
        requires
            self.wf(),
            other.wf(),
        ensures
            r <==> (other@.len() <= self@.len() && exists|off: int|
                0 <= off <= self@.len() - other@.len() && #[trigger] self@.subrange(
                    off,
                    off + other@.len(),
                ) =~= other@),
    {
        let m = other.length();
        if m > self.length() {
            return false;
        }
        let last = self.length() - m;
        let mut off: usize = 0;
        while off <= last
            invariant
                off <= last + 1,
                last == self@.len() - m,
                m == other@.len(),
                m <= self@.len(),
                forall|o: int|
                    0 <= o < off ==> !(#[trigger] self@.subrange(o, o + other@.len()) =~= other@),
            decreases last - off + 1,
        {
            if self.matches_at(off, other) {
                return true;
            }
            off = off + 1;
        }
        false
    }
}

} // verus!
