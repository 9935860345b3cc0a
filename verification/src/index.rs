//! Bounded index and position values: a logical index or physical position
//! is always below its register width, enforced at construction.

use vstd::prelude::*;

use crate::order::{width_ok, BitOrder};

verus! {

/// A logical bit index within one storage element, before the policy
/// mapping: always `0 <= value < width`.
#[derive(Clone, Copy, PartialEq, Eq, Structural, Debug)]
pub struct BitIdx {
    pub width: u8,
    pub value: u8,
}

/// A physical bit position within one storage element, after the policy
/// mapping: always `0 <= value < width`.
#[derive(Clone, Copy, PartialEq, Eq, Structural, Debug)]
pub struct BitPos {
    pub width: u8,
    pub value: u8,
}

impl BitIdx {
    pub open spec fn wf(&self) -> bool {
        width_ok(self.width) && self.value < self.width
    }

    /// Accepted exactly when the value lies inside the element.
    pub fn new(width: u8, value: u8) -> (r: Option<BitIdx>)
        ensures
            r is Some <==> (width_ok(width) && value < width),
            r is Some ==> r.unwrap() == (BitIdx { width, value }),
    {
        if (width == 8 || width == 16 || width == 32 || width == 64) && value < width {
            Some(BitIdx { width, value })
        } else {
            None
        }
    }

    pub fn value(&self) -> (v: u8)
        ensures
            v == self.value,
    {
        self.value
    }

    /// The next index, wrapping at the element boundary; the flag reports
    /// the carry, on which the caller advances the element address.
    pub fn next(&self) -> (r: (BitIdx, bool))
        requires
            self.wf(),
        ensures
            r.0.wf(),
            r.0.width == self.width,
            r.1 <==> self.value + 1 == self.width,
            r.0.value as int == if self.value + 1 == self.width {
                0int
            } else {
                self.value + 1
            },
    {
        if self.value + 1 == self.width {
            (BitIdx { width: self.width, value: 0 }, true)
        } else {
            (BitIdx { width: self.width, value: self.value + 1 }, false)
        }
    }
}

impl BitPos {
    pub open spec fn wf(&self) -> bool {
        width_ok(self.width) && self.value < self.width
    }

    /// Accepted exactly when the value lies inside the element.
    pub fn new(width: u8, value: u8) -> (r: Option<BitPos>)
        ensures
            r is Some <==> (width_ok(width) && value < width),
            r is Some ==> r.unwrap() == (BitPos { width, value }),
    {
        if (width == 8 || width == 16 || width == 32 || width == 64) && value < width {
            Some(BitPos { width, value })
        } else {
            None
        }
    }

    pub fn value(&self) -> (v: u8)
        ensures
            v == self.value,
    {
        self.value
    }
}

impl BitOrder {
    /// The physical position of a bounded logical index, as a bounded value.
    pub fn at_idx(&self, index: BitIdx) -> (pos: BitPos)
        requires
            self.wf(),
            index.wf(),
            index.width as int == self.spec_width(),
        ensures
            pos.wf(),
            pos.width == index.width,
            pos.value as int == self.at_spec(index.value as int),
    {
        BitPos { width: index.width, value: self.at(index.value) }
    }
}

} // verus!
