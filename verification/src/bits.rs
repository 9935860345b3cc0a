//! The owning bit buffer: a byte array addressed bit-by-bit through an
//! ordering policy.
//!
//! A buffer stores elements of the policy's register width as little-endian
//! byte groups.  Logical bit `i` lives at absolute position `head + i`; its
//! element is that position divided by the width, its in-element index the
//! remainder, and the ordering policy maps the index onto the physical
//! bit lane.  Every operation in the crate reduces to this one address
//! computation.

use vstd::arithmetic::div_mod::{
    lemma_fundamental_div_mod, lemma_fundamental_div_mod_converse,
};
use vstd::prelude::*;

use crate::order::BitOrder;
use crate::MAX_BITS;

verus! {

pub struct BitVec {
    pub order: BitOrder,
    pub bytes: Vec<u8>,
    pub head: u8,
    pub len: usize,
}

/// Bytes touched by an element range stay inside the buffer: for any
/// physical position of the element holding absolute bit `abs`, the byte
/// offset is a valid index.
proof fn lemma_loc_in_bounds(w: int, n: int, abs: int, pos: int)
    requires
        w == 8 || w == 16 || w == 32 || w == 64,
        n % (w / 8) == 0,
        0 <= abs < n * 8,
        0 <= pos < w,
    ensures
        0 <= (abs / w) * (w / 8) + pos / 8 < n,
{
    let d = w / 8;
    let e = abs / w;
    let k = n / d;
    lemma_fundamental_div_mod(n, d);
    assert(n == d * k);
    lemma_fundamental_div_mod(abs, w);
    assert(w * e <= abs);
    assert(e < k) by (nonlinear_arith)
        requires
            w * e <= abs,
            abs < n * 8,
            n == d * k,
            w == 8 * d,
            w > 0,
            d > 0,
    ;
    assert(e >= 0) by (nonlinear_arith)
        requires
            w * e + abs % w == abs,
            0 <= abs % w < w,
            abs >= 0,
            w > 0,
    ;
    lemma_fundamental_div_mod(pos, 8);
    assert(pos / 8 < d);
    assert(e * d + pos / 8 < n) by (nonlinear_arith)
        requires
            e < k,
            e >= 0,
            pos / 8 < d,
            pos / 8 >= 0,
            n == d * k,
            d > 0,
    ;
    assert(e * d >= 0) by (nonlinear_arith)
        requires
            e >= 0,
            d > 0,
    ;
}

impl BitVec {
    pub open spec fn spec_width(&self) -> int {
        self.order.spec_width()
    }

    /// The policy is valid, the starting index is inside one element, the
    /// byte buffer holds whole elements, and the denoted range fits both the
    /// buffer and the addressable limit.
    pub open spec fn wf(&self) -> bool {
        &&& self.order.wf()
        &&& (self.head as int) < self.spec_width()
        &&& (self.bytes@.len() as int) % (self.spec_width() / 8) == 0
        &&& self.head + self.len <= self.bytes@.len() * 8
        &&& self.len <= MAX_BITS
        &&& self.bytes@.len() * 8 <= MAX_BITS + 64
    }

    /// Absolute bit position of logical bit `i`, counted from the buffer's
    /// first element.
    pub open spec fn loc_abs(&self, i: int) -> int {
        self.head + i
    }

    /// Element holding logical bit `i`.
    pub open spec fn loc_elem(&self, i: int) -> int {
        self.loc_abs(i) / self.spec_width()
    }

    /// In-element logical index of logical bit `i`, before the policy mapping.
    pub open spec fn loc_idx(&self, i: int) -> int {
        self.loc_abs(i) % self.spec_width()
    }

    /// Physical bit lane of logical bit `i`, after the policy mapping.
    pub open spec fn loc_pos(&self, i: int) -> int {
        self.order.at_spec(self.loc_idx(i))
    }

    /// Byte of the buffer holding logical bit `i`.
    pub open spec fn loc_byte(&self, i: int) -> int {
        self.loc_elem(i) * (self.spec_width() / 8) + self.loc_pos(i) / 8
    }

    /// Bit lane within that byte.
    pub open spec fn loc_bit(&self, i: int) -> int {
        self.loc_pos(i) % 8
    }

    /// The value of logical bit `i`.
    pub open spec fn nth(&self, i: int) -> bool {
        (self.bytes@[self.loc_byte(i)] >> (self.loc_bit(i) as u8)) & 1 == 1
    }

    /// Two buffers share policy, starting index, length and capacity; only
    /// the stored bytes may differ.
    pub open spec fn same_shape(&self, other: &BitVec) -> bool {
        &&& self.order.same_policy(&other.order)
        &&& self.head == other.head
        &&& self.len == other.len
        &&& self.bytes@.len() == other.bytes@.len()
    }

    /// The location of every valid bit is a valid byte and lane.
    pub proof fn lemma_loc(&self, i: int)
        requires
            self.wf(),
            0 <= i < self.len,
        ensures
            0 <= self.loc_byte(i) < self.bytes@.len(),
            0 <= self.loc_bit(i) < 8,
            0 <= self.loc_idx(i) < self.spec_width(),
            0 <= self.loc_pos(i) < self.spec_width(),
            0 <= self.loc_elem(i),
    {
        let w = self.spec_width();
        let abs = self.loc_abs(i);
        lemma_fundamental_div_mod(abs, w);
        lemma_loc_in_bounds(w, self.bytes@.len() as int, abs, self.loc_pos(i));
        lemma_fundamental_div_mod(self.loc_pos(i), 8);
    }

    /// Distinct valid bits live at distinct (byte, lane) locations: the
    /// policy's injectivity, carried down to the byte level.
    pub proof fn lemma_loc_distinct(&self, i: int, j: int)
        requires
            self.wf(),
            0 <= i < self.len,
            0 <= j < self.len,
            i != j,
        ensures
            self.loc_byte(i) != self.loc_byte(j) || self.loc_bit(i) != self.loc_bit(j),
    {
        let w = self.spec_width();
        let d = w / 8;
        self.lemma_loc(i);
        self.lemma_loc(j);
        lemma_fundamental_div_mod(self.loc_abs(i), w);
        lemma_fundamental_div_mod(self.loc_abs(j), w);
        if self.loc_elem(i) == self.loc_elem(j) {
            // Same element: the in-element indices differ, so the policy
            // sends them to different physical lanes.
            assert(self.loc_idx(i) != self.loc_idx(j)) by (nonlinear_arith)
                requires
                    self.loc_abs(i) == w * self.loc_elem(i) + self.loc_idx(i),
                    self.loc_abs(j) == w * self.loc_elem(j) + self.loc_idx(j),
                    self.loc_elem(i) == self.loc_elem(j),
                    self.loc_abs(i) != self.loc_abs(j),
            ;
            assert(self.loc_pos(i) != self.loc_pos(j));
            lemma_fundamental_div_mod(self.loc_pos(i), 8);
            lemma_fundamental_div_mod(self.loc_pos(j), 8);
            if self.loc_pos(i) / 8 == self.loc_pos(j) / 8 {
                assert(self.loc_bit(i) != self.loc_bit(j));
            } else {
                assert(self.loc_byte(i) != self.loc_byte(j)) by (nonlinear_arith)
                    requires
                        self.loc_byte(i) == self.loc_elem(i) * d + self.loc_pos(i) / 8,
                        self.loc_byte(j) == self.loc_elem(j) * d + self.loc_pos(j) / 8,
                        self.loc_elem(i) == self.loc_elem(j),
                        self.loc_pos(i) / 8 != self.loc_pos(j) / 8,
                ;
            }
        } else {
            // Different elements: byte offsets land in disjoint element
            // byte groups.
            lemma_fundamental_div_mod(self.loc_pos(i), 8);
            lemma_fundamental_div_mod(self.loc_pos(j), 8);
            lemma_fundamental_div_mod_converse(
                self.loc_byte(i), d, self.loc_elem(i), self.loc_pos(i) / 8);
            lemma_fundamental_div_mod_converse(
                self.loc_byte(j), d, self.loc_elem(j), self.loc_pos(j) / 8);
            assert(self.loc_byte(i) / d != self.loc_byte(j) / d);
        }
    }

    pub fn width(&self) -> (w: u8)
        ensures
            w as int == self.spec_width(),
    {
        self.order.width()
    }

    pub fn length(&self) -> (n: usize)
        ensures
            n == self@.len(),
    {
        self.len
    }

    pub fn is_empty(&self) -> (r: bool)
        ensures
            r == (self@.len() == 0),
    {
        self.len == 0
    }

    /// Byte and lane of logical bit `index`.
    fn locate(&self, index: usize) -> (r: (usize, u8))
        requires
            self.wf(),
            index < self.len,
        ensures
            r.0 as int == self.loc_byte(index as int),
            r.1 as int == self.loc_bit(index as int),
            r.0 < self.bytes@.len(),
            r.1 < 8,
    {
        proof {
            self.lemma_loc(index as int);
        }
        let w = self.order.width() as usize;
        let abs = self.head as usize + index;
        let elem = abs / w;
        let idx = (abs % w) as u8;
        let pos = self.order.at(idx);
        let byte = elem * (w / 8) + (pos / 8) as usize;
        (byte, pos % 8)
    }

    /// Read one bit.  Some exactly on the valid indices.
    pub fn get(&self, index: usize) -> (r: Option<bool>)
        requires
            self.wf(),
        ensures
            index < self@.len() ==> r == Some(self@[index as int]),
            index >= self@.len() ==> r is None,
    {
        if index < self.len {
            let (byte, bit) = self.locate(index);
            Some(((self.bytes[byte] >> bit) & 1) == 1)
        } else {
            None
        }
    }

    /// Write one bit as a masked read-modify-write: no sibling bit of the
    /// touched byte changes.
    pub fn set_bit(&mut self, index: usize, value: bool)
        requires
            old(self).wf(),
            index < old(self).len,
        ensures
            final(self).wf(),
            final(self).same_shape(old(self)),
            final(self).order == old(self).order,
            final(self).head == old(self).head,
            final(self).len == old(self).len,
            final(self).bytes@.len() == old(self).bytes@.len(),
            final(self)@ =~= old(self)@.update(index as int, value),
    {
        let (byte, bit) = self.locate(index);
        let b = self.bytes[byte];
        let nb = if value {
            b | (1u8 << bit)
        } else {
            b & !(1u8 << bit)
        };
        self.bytes.set(byte, nb);
        proof {
            assert(self.order == old(self).order);
            let i = index as int;
            lemma_write_bit(b, bit, value);
            assert(self.nth(i) == value);
            assert forall|j: int| 0 <= j < self.len && j != i implies
                self.nth(j) == old(self).nth(j) by {
                old(self).lemma_loc(j);
                old(self).lemma_loc_distinct(i, j);
                if old(self).loc_byte(j) != old(self).loc_byte(i) {
                    assert(self.bytes@[self.loc_byte(j)] == old(self).bytes@[self.loc_byte(j)]);
                } else {
                    lemma_write_bit_other(b, bit, (old(self).loc_bit(j)) as u8, value);
                }
            }
        }
    }
}

/// The bit of a little-endian element value selected by physical position
/// `pos` equals the bit of the extracted byte at the in-byte lane.
proof fn lemma_elem_byte_bit(v: u64, pos: u8)
    by (bit_vector)
    requires
        pos < 64,
    ensures
        ((((v >> (8 * ((pos / 8) as u64))) as u8) >> (pos % 8)) & 1 == 1)
            <==> ((v >> (pos as u64)) & 1 == 1),
{
}

/// Constant bytes hold the same value at every lane.
proof fn lemma_const_byte(q: u8)
    by (bit_vector)
    requires
        q < 8,
    ensures
        (0xffu8 >> q) & 1 == 1,
        (0u8 >> q) & 1 == 0,
{
}

/// Rounding a length up to whole elements stays within one element of it.
proof fn lemma_ceil_elems(len: int, w: int)
    requires
        w == 8 || w == 16 || w == 32 || w == 64,
        0 <= len,
    ensures
        len <= ((len + (w - 1)) / w) * w <= len + (w - 1),
        0 <= (len + (w - 1)) / w,
        (((len + (w - 1)) / w) * (w / 8)) % (w / 8) == 0,
        (((len + (w - 1)) / w) * (w / 8)) * 8 == ((len + (w - 1)) / w) * w,
{
    let ne = (len + (w - 1)) / w;
    lemma_fundamental_div_mod(len + (w - 1), w);
    assert(len <= ne * w <= len + (w - 1)) by (nonlinear_arith)
        requires
            len + (w - 1) == w * ne + (len + (w - 1)) % w,
            0 <= (len + (w - 1)) % w < w,
    ;
    assert(ne >= 0) by (nonlinear_arith)
        requires
            len <= ne * w,
            len >= 0,
            w > 0,
            len + (w - 1) >= w * ne,
    ;
    let d = w / 8;
    lemma_fundamental_div_mod_converse(ne * d, d, ne, 0);
    assert((ne * d) * 8 == ne * w) by (nonlinear_arith)
        requires
            w == 8 * d,
    ;
}

/// The bit read from an element value: physical position `pos` of `v`.
pub open spec fn elem_bit(v: u64, pos: int) -> bool {
    (v >> (pos as u64)) & 1 == 1
}

/// Byte `t` of the little-endian encoding of an element value.
pub open spec fn le_byte(v: u64, t: int) -> u8 {
    (v >> ((8 * t) as u64)) as u8
}

/// The byte of a flattened element sequence: element `k`, byte offset `t`.
pub open spec fn flat_index(bytes: Seq<u8>, d: int, k: int, t: int) -> u8 {
    bytes[k * d + t]
}

impl BitVec {
    /// A buffer of `len` copies of one bit, starting at index zero.
    pub fn repeat_bit(order: BitOrder, value: bool, len: usize) -> (r: BitVec)
        requires
            order.wf(),
            len <= MAX_BITS,
        ensures
            r.wf(),
            r.order == order,
            r.head == 0,
            r@.len() == len,
            forall|i: int| 0 <= i < len ==> r@[i] == value,
    {
        let w = order.width() as usize;
        let nelems = (len + (w - 1)) / w;
        proof {
            lemma_ceil_elems(len as int, w as int);
        }
        let nbytes = nelems * (w / 8);
        let fill: u8 = if value {
            0xff
        } else {
            0
        };
        let mut bytes: Vec<u8> = Vec::new();
        let mut i: usize = 0;
        while i < nbytes
            invariant
                i <= nbytes,
                bytes@.len() == i as int,
                forall|j: int| 0 <= j < i as int ==> bytes@[j] == fill,
            decreases nbytes - i,
        {
            bytes.push(fill);
            i = i + 1;
        }
        let r = BitVec { order, bytes, head: 0, len };
        proof {
            assert forall|i: int| 0 <= i < len implies r.nth(i) == value by {
                r.lemma_loc(i);
                lemma_const_byte(r.loc_bit(i) as u8);
            }
        }
        r
    }

    /// A buffer holding exactly the given bit values, in logical order.
    pub fn from_bools(order: BitOrder, values: &Vec<bool>) -> (r: BitVec)
        requires
            order.wf(),
            values@.len() <= MAX_BITS,
        ensures
            r.wf(),
            r.order == order,
            r.head == 0,
            r@ =~= values@,
    {
        let n = values.len();
        let mut r = BitVec::repeat_bit(order, false, n);
        let mut i: usize = 0;
        while i < n
            invariant
                i <= n,
                r.wf(),
                r.order == order,
                r.head == 0,
                r@.len() == n as int,
                forall|j: int| 0 <= j < i as int ==> r@[j] == values@[j],
            decreases n - i,
        {
            r.set_bit(i, values[i]);
            i = i + 1;
        }
        r
    }

    /// Wrap a contiguous sequence of register elements as a full-length
    /// buffer.  Refused exactly when the total bit length would exceed the
    /// addressable limit.  Only the low `width` bits of each element value
    /// are stored.
    pub fn from_elems(order: BitOrder, elems: &Vec<u64>) -> (r: Option<BitVec>)
        requires
            order.wf(),
        ensures
            r is Some <==> elems@.len() * order.spec_width() <= MAX_BITS,
            r is Some ==> {
                let v = r.unwrap();
                &&& v.wf()
                &&& v.order == order
                &&& v.head == 0
                &&& v@.len() == elems@.len() * order.spec_width()
                &&& forall|i: int|
                    0 <= i < v@.len()
                        ==> v@[i] == elem_bit(
                            elems@[i / order.spec_width()],
                            order.at_spec(i % order.spec_width()),
                        )
            },
    {
        let w = order.width() as usize;
        if elems.len() > MAX_BITS / w {
            proof {
                lemma_fundamental_div_mod(MAX_BITS as int, w as int);
                assert(elems@.len() * (w as int) > MAX_BITS) by (nonlinear_arith)
                    requires
                        elems@.len() > MAX_BITS as int / (w as int),
                        MAX_BITS as int == (w as int) * (MAX_BITS as int / (w as int)) + (
                        MAX_BITS as int) % (w as int),
                        0 <= (MAX_BITS as int) % (w as int) < w as int,
                        w > 0,
                ;
            }
            return None;
        }
        proof {
            lemma_fundamental_div_mod(MAX_BITS as int, w as int);
            assert(elems@.len() * (w as int) <= MAX_BITS) by (nonlinear_arith)
                requires
                    elems@.len() <= MAX_BITS as int / (w as int),
                    MAX_BITS as int == (w as int) * (MAX_BITS as int / (w as int)) + (
                    MAX_BITS as int) % (w as int),
                    0 <= (MAX_BITS as int) % (w as int),
                    w > 0,
            ;
        }
        let total = elems.len() * w;
        BitVec::from_raw_parts(order, elems, 0, total)
    }

    /// Construct a view from raw parts: an element sequence, a starting
    /// logical index inside the first element, and a bit length.  `None` when
    /// the starting index is out of the element, or the denoted range leaves
    /// the sequence or exceeds the addressable limit.
    pub fn from_raw_parts(order: BitOrder, elems: &Vec<u64>, head: usize, len: usize) -> (r:
        Option<BitVec>)
        requires
            order.wf(),
        ensures
            r is Some <==> {
                let total = elems@.len() * order.spec_width();
                &&& head < order.spec_width()
                &&& total <= MAX_BITS
                &&& head + len <= total
            },
            r is Some ==> {
                let v = r.unwrap();
                &&& v.wf()
                &&& v.order == order
                &&& v.head == head
                &&& v@.len() == len
                &&& forall|i: int|
                    0 <= i < v@.len()
                        ==> v@[i] == elem_bit(
                            elems@[(head + i) / order.spec_width()],
                            order.at_spec((head + i) % order.spec_width()),
                        )
            },
    {
        let w = order.width() as usize;
        let d = w / 8;
        if head >= w {
            return None;
        }
        if len > MAX_BITS {
            return None;
        }
        if elems.len() > MAX_BITS / w {
            proof {
                lemma_fundamental_div_mod(MAX_BITS as int, w as int);
                assert(elems@.len() * (w as int) > MAX_BITS) by (nonlinear_arith)
                    requires
                        elems@.len() > MAX_BITS as int / (w as int),
                        MAX_BITS as int == (w as int) * (MAX_BITS as int / (w as int)) + (
                        MAX_BITS as int) % (w as int),
                        0 <= (MAX_BITS as int) % (w as int) < w as int,
                        w > 0,
                ;
            }
            return None;
        }
        let total = elems.len() * w;
        proof {
            lemma_fundamental_div_mod(MAX_BITS as int, w as int);
            assert(elems@.len() * (w as int) <= MAX_BITS) by (nonlinear_arith)
                requires
                    elems@.len() <= MAX_BITS as int / (w as int),
                    MAX_BITS as int == (w as int) * (MAX_BITS as int / (w as int)) + (
                    MAX_BITS as int) % (w as int),
                    0 <= (MAX_BITS as int) % (w as int),
                    w > 0,
            ;
        }
        if head + len > total {
            return None;
        }
        let real_len = len;
        // Flatten the elements into little-endian byte groups.
        let mut bytes: Vec<u8> = Vec::new();
        let mut e: usize = 0;
        while e < elems.len()
            invariant
                e <= elems@.len(),
                bytes@.len() == e as int * d as int,
                d == w / 8,
                w == order.spec_width(),
                forall|k: int, t: int|
                    0 <= k < e as int && 0 <= t < d as int
                        ==> #[trigger] flat_index(bytes@, d as int, k, t) == le_byte(elems@[k], t),
            decreases elems@.len() - e,
        {
            let v = elems[e];
            let mut t: usize = 0;
            while t < d
                invariant
                    t <= d,
                    d == w / 8,
                    d <= 8,
                    w == order.spec_width(),
                    bytes@.len() == e as int * d as int + t as int,
                    e < elems@.len(),
                    v == elems@[e as int],
                    forall|k: int, tt: int|
                        0 <= k < e as int && 0 <= tt < d as int
                            ==> #[trigger] flat_index(bytes@, d as int, k, tt) == le_byte(
                                elems@[k],
                                tt,
                            ),
                    forall|tt: int|
                        0 <= tt < t as int
                            ==> #[trigger] flat_index(bytes@, d as int, e as int, tt) == le_byte(
                                v,
                                tt,
                            ),
                decreases d - t,
            {
                let ghost prev = bytes@;
                bytes.push(#[verifier::truncate] ((v >> (8 * t as u64)) as u8));
                t = t + 1;
                proof {
                    assert(bytes@ =~= prev.push(le_byte(v, t as int - 1)));
                    assert forall|k: int, tt: int|
                        0 <= k < e as int && 0 <= tt < d as int implies #[trigger] flat_index(
                        bytes@,
                        d as int,
                        k,
                        tt,
                    ) == le_byte(elems@[k], tt) by {
                        assert(flat_index(prev, d as int, k, tt) == le_byte(elems@[k], tt));
                        assert(0 <= k * (d as int) + tt < e as int * (d as int))
                            by (nonlinear_arith)
                            requires
                                0 <= k < e as int,
                                0 <= tt < d as int,
                                d > 0,
                        ;
                    }
                    assert forall|tt: int| 0 <= tt < t as int implies #[trigger] flat_index(
                        bytes@,
                        d as int,
                        e as int,
                        tt,
                    ) == le_byte(v, tt) by {
                        if tt < t as int - 1 {
                            assert(flat_index(prev, d as int, e as int, tt) == le_byte(v, tt));
                        } else {
                            assert(bytes@[e as int * (d as int) + tt] == le_byte(v, tt));
                        }
                    }
                }
            }
            e = e + 1;
            proof {
                assert(bytes@.len() == e as int * d as int) by (nonlinear_arith)
                    requires
                        bytes@.len() == (e as int - 1) * (d as int) + (d as int),
                ;
            }
        }
        proof {
            lemma_fundamental_div_mod_converse(
                bytes@.len() as int,
                d as int,
                elems@.len() as int,
                0,
            );
            assert(bytes@.len() * 8 == elems@.len() * (w as int)) by (nonlinear_arith)
                requires
                    bytes@.len() == elems@.len() * (d as int),
                    w == 8 * d,
            ;
        }
        let r = BitVec { order, bytes, head: head as u8, len: real_len };
        proof {
            assert forall|i: int| 0 <= i < r@.len() implies r@[i] == elem_bit(
                elems@[(head + i) / (w as int)],
                r.order.at_spec((head + i) % (w as int)),
            ) by {
                r.lemma_loc(i);
                let el = r.loc_elem(i);
                let pos = r.loc_pos(i);
                lemma_fundamental_div_mod(r.loc_abs(i), w as int);
                assert(0 <= el < elems@.len()) by (nonlinear_arith)
                    requires
                        r.loc_abs(i) == (w as int) * el + r.loc_idx(i),
                        0 <= r.loc_idx(i) < w as int,
                        0 <= r.loc_abs(i) < elems@.len() * (w as int),
                        w > 0,
                ;
                assert(flat_index(r.bytes@, d as int, el, pos / 8) == le_byte(elems@[el], pos / 8));
                lemma_fundamental_div_mod(pos, 8);
                lemma_elem_byte_bit(elems@[el], pos as u8);
            }
        }
        Some(r)
    }
}

impl BitVec {
    /// The shared-handle write: the same masked read-modify-write as
    /// `set_bit`, stated separately because it is the whole aliasing
    /// discipline -- a single-bit write never touches sibling bits of the
    /// shared element, so writers of disjoint bits cannot corrupt each
    /// other.  No atomicity across threads is provided or claimed.
    pub fn set_aliased(&mut self, index: usize, value: bool)
        requires
            old(self).wf(),
            index < old(self).len,
        ensures
            final(self).wf(),
            final(self).same_shape(old(self)),
            final(self).order == old(self).order,
            final(self)@ =~= old(self)@.update(index as int, value),
    {
        self.set_bit(index, value);
    }
}

/// Setting lane `p` of a byte yields that value at lane `p`.
proof fn lemma_write_bit(b: u8, p: u8, value: bool)
    by (bit_vector)
    requires
        p < 8,
    ensures
        ((b | (1u8 << p)) >> p) & 1 == 1,
        ((b & !(1u8 << p)) >> p) & 1 == 0,
{
}

/// Setting lane `p` of a byte leaves every other lane as it was.
proof fn lemma_write_bit_other(b: u8, p: u8, q: u8, value: bool)
    by (bit_vector)
    requires
        p < 8,
        q < 8,
        p != q,
    ensures
        ((b | (1u8 << p)) >> q) & 1 == (b >> q) & 1,
        ((b & !(1u8 << p)) >> q) & 1 == (b >> q) & 1,
{
}

impl View for BitVec {
    type V = Seq<bool>;

    open spec fn view(&self) -> Seq<bool> {
        Seq::new(self.len as nat, |i: int| self.nth(i))
    }
}

} // verus!
