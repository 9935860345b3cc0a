//! Ordering policies: the mapping from logical bit index to physical bit
//! position within one storage element.
//!
//! A policy is resolved, once, to its lookup table for a concrete
//! register width, and the table is validated to be a bijection on
//! `[0, width)` before it can be used: a non-bijective policy would silently
//! corrupt unrelated bits, so constructing one is impossible here.

use vstd::prelude::*;

verus! {

/// The register widths eligible to back bit storage, in bits.
pub open spec fn width_ok(w: u8) -> bool {
    w == 8 || w == 16 || w == 32 || w == 64
}

/// An ordering policy, resolved to its lookup table for one register
/// width: entry `i` is the physical bit position of logical index `i`.
pub struct BitOrder {
    pub width: u8,
    pub table: Vec<u8>,
}

impl BitOrder {
    /// The table is total over `[0, width)`, lands in `[0, width)`, and no
    /// two logical indices share a physical position.
    pub open spec fn wf(&self) -> bool {
        &&& width_ok(self.width)
        &&& self.table@.len() == self.width as int
        &&& forall|i: int|
            0 <= i < self.width as int ==> self.table@[i] < self.width
        &&& forall|i: int, j: int|
            0 <= i < self.width as int && 0 <= j < self.width as int && i != j
                ==> self.table@[i] != self.table@[j]
    }

    pub open spec fn spec_width(&self) -> int {
        self.width as int
    }

    /// The physical bit position assigned to logical index `i`.
    pub open spec fn at_spec(&self, i: int) -> int {
        self.table@[i] as int
    }

    /// Two policies agree when they map every index alike.
    pub open spec fn same_policy(&self, other: &BitOrder) -> bool {
        self.width == other.width && self.table@ =~= other.table@
    }

    pub fn width(&self) -> (w: u8)
        ensures
            w as int == self.spec_width(),
    {
        self.width
    }

    /// The physical bit position of logical index `index`.
    pub fn at(&self, index: u8) -> (pos: u8)
        requires
            self.wf(),
            index < self.spec_width(),
        ensures
            pos as int == self.at_spec(index as int),
            pos < self.spec_width(),
    {
        self.table[index as usize]
    }

    /// An identical copy of this policy.
    pub fn duplicate(&self) -> (r: BitOrder)
        ensures
            r.width == self.width,
            r.table@ =~= self.table@,
            r.same_policy(self),
            self.wf() ==> r.wf(),
    {
        let mut table: Vec<u8> = Vec::new();
        let mut i: usize = 0;
        while i < self.table.len()
            invariant
                i <= self.table@.len(),
                table@.len() == i as int,
                forall|j: int| 0 <= j < i as int ==> table@[j] == self.table@[j],
            decreases self.table@.len() - i,
        {
            table.push(self.table[i]);
            i = i + 1;
        }
        BitOrder { width: self.width, table }
    }

    /// Least-significant-first: logical index `i` is physical position `i`.
    pub fn lsb0(width: u8) -> (r: BitOrder)
        requires
            width_ok(width),
        ensures
            r.wf(),
            r.spec_width() == width as int,
            forall|i: int| 0 <= i < width as int ==> r.at_spec(i) == i,
    {
        let mut table: Vec<u8> = Vec::new();
        let mut i: u8 = 0;
        while i < width
            invariant
                i <= width,
                table@.len() == i as int,
                forall|j: int| 0 <= j < i as int ==> table@[j] == j,
            decreases width - i,
        {
            table.push(i);
            i = i + 1;
        }
        BitOrder { width, table }
    }

    /// Most-significant-first: logical index `i` is physical position
    /// `width - 1 - i`.
    pub fn msb0(width: u8) -> (r: BitOrder)
        requires
            width_ok(width),
        ensures
            r.wf(),
            r.spec_width() == width as int,
            forall|i: int| 0 <= i < width as int ==> r.at_spec(i) == width - 1 - i,
    {
        let mut table: Vec<u8> = Vec::new();
        let mut i: u8 = 0;
        while i < width
            invariant
                i <= width,
                table@.len() == i as int,
                forall|j: int| 0 <= j < i as int ==> table@[j] == width - 1 - j,
            decreases width - i,
        {
            table.push(width - 1 - i);
            i = i + 1;
        }
        BitOrder { width, table }
    }

    /// The native-order alias: resolved once to the policy matching this
    /// target's in-memory bit convention, which is least-significant-first.
    pub fn local_bits(width: u8) -> (r: BitOrder)
        requires
            width_ok(width),
        ensures
            r.wf(),
            r.spec_width() == width as int,
            forall|i: int| 0 <= i < width as int ==> r.at_spec(i) == i,
    {
        BitOrder::lsb0(width)
    }

    /// Resolve an untrusted, caller-supplied lookup table.  The table is
    /// accepted exactly when it is a bijection on `[0, width)`; anything else
    /// is refused, never constructed.
    pub fn new(width: u8, table: Vec<u8>) -> (r: Option<BitOrder>)
        ensures
            r is Some <==> {
                &&& width_ok(width)
                &&& table@.len() == width as int
                &&& forall|i: int| 0 <= i < width as int ==> table@[i] < width
                &&& forall|i: int, j: int|
                    0 <= i < width as int && 0 <= j < width as int && i != j
                        ==> table@[i] != table@[j]
            },
            r is Some ==> {
                &&& r.unwrap().wf()
                &&& r.unwrap().spec_width() == width as int
                &&& forall|i: int|
                    0 <= i < width as int ==> r.unwrap().at_spec(i) == table@[i] as int
            },
    {
        if !(width == 8 || width == 16 || width == 32 || width == 64) {
            return None;
        }
        if table.len() != width as usize {
            return None;
        }
        // A physical position may be claimed by at most one logical index:
        // `seen[p]` records whether some earlier entry already maps to `p`.
        let mut seen: Vec<bool> = Vec::new();
        let mut p: u8 = 0;
        while p < width
            invariant
                p <= width,
                seen@.len() == p as int,
                forall|k: int| 0 <= k < p as int ==> !seen@[k],
            decreases width - p,
        {
            seen.push(false);
            p = p + 1;
        }
        let mut i: usize = 0;
        while i < width as usize
            invariant
                i <= width as usize,
                width_ok(width),
                table@.len() == width as int,
                seen@.len() == width as int,
                forall|j: int| 0 <= j < i as int ==> table@[j] < width,
                forall|a: int, b: int|
                    0 <= a < i as int && 0 <= b < i as int && a != b
                        ==> table@[a] != table@[b],
                forall|k: int|
                    0 <= k < width as int
                        ==> (seen@[k] <==> exists|j: int|
                            0 <= j < i as int && table@[j] == k),
            decreases width as usize - i,
        {
            let entry = table[i];
            if entry >= width {
                return None;
            }
            if seen[entry as usize] {
                return None;
            }
            seen.set(entry as usize, true);
            assert(forall|k: int|
                0 <= k < width as int
                    ==> (seen@[k] <==> exists|j: int|
                        0 <= j < i as int + 1 && table@[j] == k)) by {
                assert(forall|k: int|
                    0 <= k < width as int && seen@[k] && k != entry as int
                        ==> exists|j: int| 0 <= j < i as int && #[trigger] table@[j] == k);
                assert(table@[i as int] == entry as int);
            }
            i = i + 1;
        }
        Some(BitOrder { width, table })
    }
}

/// Physical position `p` is the image of some logical index under `o`.
pub open spec fn covers(o: &BitOrder, p: int) -> bool {
    exists|i: int| 0 <= i < o.spec_width() && #[trigger] o.at_spec(i) == p
}

/// A policy is a bijection on `[0, width)`: injective, and every physical
/// position is some logical index's image.
pub open spec fn bijective(o: &BitOrder) -> bool {
    &&& forall|i: int, j: int|
        0 <= i < o.spec_width() && 0 <= j < o.spec_width() && i != j
            ==> o.at_spec(i) != o.at_spec(j)
    &&& forall|p: int| 0 <= p < o.spec_width() ==> #[trigger] covers(o, p)
}

/// Law: every policy that construction accepts is a bijection on
/// `[0, width)`.  Injectivity is the validated table's own invariant;
/// surjectivity follows because the width distinct images all land inside
/// `[0, width)`, which holds only width positions.
pub proof fn lemma_wf_is_bijection(o: &BitOrder)
    requires
        o.wf(),
    ensures
        bijective(o),
{
    let w = o.spec_width();
    let f = |i: int| o.at_spec(i);
    let dom = vstd::set_lib::set_int_range(0, w);
    let im = dom.map(f);
    vstd::set_lib::lemma_int_range(0, w);
    vstd::set_lib::lemma_map_size(dom, im, f);
    assert(im.subset_of(vstd::set_lib::set_int_range(0, w))) by {
        assert forall|p: int| im.contains(p) implies 0 <= p < w by {
            let i = choose|i: int| dom.contains(i) && f(i) == p;
            assert(o.at_spec(i) < w);
        }
    }
    vstd::set_lib::lemma_subset_equality(im, vstd::set_lib::set_int_range(0, w));
    assert forall|p: int| 0 <= p < w implies #[trigger] covers(o, p) by {
        assert(im.contains(p));
        let i = choose|i: int| dom.contains(i) && f(i) == p;
        assert(0 <= i < w && o.at_spec(i) == p);
    }
}

/// Law: the least-significant-first policy is a bijection on `[0, width)`,
/// for every supported register width.
pub proof fn lemma_lsb0_is_bijection(o: &BitOrder)
    requires
        o.wf(),
        forall|i: int| 0 <= i < o.spec_width() ==> o.at_spec(i) == i,
    ensures
        bijective(o),
{
    lemma_wf_is_bijection(o);
}

/// Law: the most-significant-first policy is a bijection on `[0, width)`,
/// for every supported register width.
pub proof fn lemma_msb0_is_bijection(o: &BitOrder)
    requires
        o.wf(),
        forall|i: int| 0 <= i < o.spec_width() ==> o.at_spec(i) == o.spec_width() - 1 - i,
    ensures
        bijective(o),
{
    lemma_wf_is_bijection(o);
}

} // verus!
