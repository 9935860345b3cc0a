//! Crate-level laws: facts that relate several operations, stated once and
//! proved against the operations' own contracts.

use vstd::arithmetic::div_mod::lemma_small_mod;
use vstd::prelude::*;

use crate::bits::BitVec;

verus! {

/// Law: decomposition then reassembly is the identity.  Splitting any bit
/// range into its partial head, whole-element body and partial tail, then
/// copying each region back in order into a fresh buffer, reproduces the
/// original content exactly.
pub proof fn lemma_decompose_reassemble(s: Seq<bool>, a: int, b: int)
    requires
        0 <= a <= b <= s.len(),
    ensures
        s.subrange(0, a) + s.subrange(a, b) + s.subrange(b, s.len() as int) =~= s,
{
}

/// Law: wherever the accelerated copy path applies, it produces exactly the
/// bit-by-bit path's result.  Both paths promise the same spliced view, so
/// from equal starting buffers the outcomes are pointwise equal.
pub proof fn lemma_copy_paths_agree(
    dst0: Seq<bool>,
    src: Seq<bool>,
    fast: Seq<bool>,
    slow: Seq<bool>,
    dst_at: int,
    src_at: int,
    n: int,
)
    requires
        0 <= n,
        0 <= dst_at,
        0 <= src_at,
        dst_at + n <= dst0.len(),
        src_at + n <= src.len(),
        fast.len() == dst0.len(),
        slow.len() == dst0.len(),
        forall|j: int| dst_at <= j < dst_at + n ==> fast[j] == src[src_at + (j - dst_at)],
        forall|j: int|
            0 <= j < dst0.len() && !(dst_at <= j < dst_at + n) ==> fast[j] == dst0[j],
        forall|j: int| dst_at <= j < dst_at + n ==> slow[j] == src[src_at + (j - dst_at)],
        forall|j: int|
            0 <= j < dst0.len() && !(dst_at <= j < dst_at + n) ==> slow[j] == dst0[j],
    ensures
        fast =~= slow,
{
}

/// Law: rotation by any multiple of the length, zero and the length itself
/// included, moves no bit.  The hypotheses are exactly what `rotate_left`
/// ensures of its result.
pub proof fn lemma_rotate_identity(s: Seq<bool>, t: Seq<bool>, by: int)
    requires
        s.len() == t.len(),
        s.len() > 0,
        0 <= by,
        by % s.len() as int == 0,
        forall|i: int|
            0 <= i < s.len() ==> t[i] == s[(i + (by % s.len() as int)) % s.len() as int],
    ensures
        t =~= s,
{
    assert forall|i: int| 0 <= i < s.len() implies t[i] == s[i] by {
        lemma_small_mod(i as nat, s.len());
    }
}

/// Law: splitting a view at any valid index and rejoining head and tail
/// recovers the original content.
pub proof fn lemma_split_rejoin(s: Seq<bool>, k: int)
    requires
        0 <= k <= s.len(),
    ensures
        s.subrange(0, k) + s.subrange(k, s.len() as int) =~= s,
{
}

impl BitVec {
    /// A fresh buffer holding this buffer's content repeated `times` over.
    pub fn repeat(&self, times: usize) -> (r: BitVec)
        requires
            self.wf(),
            times * self@.len() <= crate::MAX_BITS,
        ensures
            r.wf(),
            r.order.same_policy(&self.order),
            r@.len() == times * self@.len(),
            forall|i: int| 0 <= i < r@.len() ==> r@[i] == self@[i % self@.len() as int],
    {
        let n = self.length();
        let order = self.order.duplicate();
        proof {
            assert(times as int * n as int >= 0) by (nonlinear_arith)
                requires
                    times >= 0,
                    n >= 0,
            ;
        }
        let mut r = BitVec::repeat_bit(order, false, times * n);
        let mut k: usize = 0;
        while k < times
            invariant
                k <= times,
                n == self@.len(),
                r.wf(),
                r.order.same_policy(&self.order),
                r@.len() == times as int * n as int,
                forall|i: int| 0 <= i < k as int * n as int ==> r@[i] == self@[i % n as int],
            decreases times - k,
        {
            proof {
                assert(k as int * n as int + n <= times as int * n as int) by (nonlinear_arith)
                    requires
                        k < times,
                        n >= 0,
                ;
            }
            r.copy_from(k * n, self, 0, n);
            k = k + 1;
            proof {
                assert(k as int * n as int == (k as int - 1) * n as int + n as int)
                    by (nonlinear_arith);
                assert forall|i: int|
                    0 <= i < k as int * n as int implies r@[i] == self@[i % n as int] by {
                    if i >= (k as int - 1) * n as int {
                        let j = i - (k as int - 1) * n as int;
                        vstd::arithmetic::div_mod::lemma_mod_multiples_vanish(
                            k as int - 1,
                            j,
                            n as int,
                        );
                        lemma_small_mod(j as nat, n as nat);
                        assert(n as int * (k as int - 1) == (k as int - 1) * n as int)
                            by (nonlinear_arith);
                    }
                }
            }
        }
        proof {
            if n == 0 {
                assert(times as int * n as int == 0) by (nonlinear_arith)
                    requires
                        n == 0,
                ;
            }
        }
        r
    }
}

} // verus!
