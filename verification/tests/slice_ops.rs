use bitvec::bits::BitVec;
use bitvec::order::BitOrder;
use bitvec::ptr::BitPtr;
use bitvec::MAX_BITS;

fn pat(order: BitOrder, bits: &[u8]) -> BitVec {
    let v: Vec<bool> = bits.iter().map(|&b| b != 0).collect();
    BitVec::from_bools(order, &v)
}

fn assert_bits(v: &BitVec, bits: &[u8]) {
    assert_eq!(v.length(), bits.len());
    for (i, &b) in bits.iter().enumerate() {
        assert_eq!(v.get(i), Some(b != 0), "bit {}", i);
    }
}

#[test]
fn construction() {
    let bits = BitVec::from_elems(BitOrder::local_bits(8), &vec![0u64]).unwrap();
    assert_eq!(bits.length(), 8);

    let raw = BitVec::from_raw_parts(BitOrder::local_bits(8), &vec![0u64], 0, 8);
    assert!(raw.is_some());
    assert!(raw.unwrap().eq_bits(&bits));
    assert!(
        BitVec::from_raw_parts(BitOrder::local_bits(8), &vec![0u64], 0, !0).is_none()
    );

    let raw_mut = BitVec::from_raw_parts(BitOrder::local_bits(8), &vec![0u64], 0, 8);
    assert!(raw_mut.is_some());
    let mut writable = raw_mut.unwrap();
    writable.set_bit(0, true);
    assert_eq!(writable.get(0), Some(true));

    let data = vec![0u64; 2];
    assert!(BitVec::from_elems(BitOrder::msb0(16), &data).is_some());
    assert!(BitVec::from_raw_parts(BitOrder::msb0(16), &data, 0, 32).is_some());
}

#[test]
fn cmp() {
    let bits = BitVec::from_elems(BitOrder::msb0(8), &vec![0x45u64]).unwrap();
    let a = bits.subvec(0, 3); // 010
    let b = bits.subvec(0, 4); // 0100
    let c = bits.subvec(0, 5); // 01000
    let d = bits.subvec(4, 8); // 0101

    assert!(a.lex_lt(&b)); // by length
    assert!(b.lex_lt(&c)); // by length
    assert!(c.lex_lt(&d)); // by different bit
}

#[test]
fn get_set() {
    let mut bits = BitVec::repeat_bit(BitOrder::local_bits(8), false, 8);

    for n in 0..8 {
        assert!(!bits.get(n).unwrap());
        bits.set_bit(n, true);
        assert!(bits.get(n).unwrap());
    }

    assert!(bits.get(9).is_none());
    assert!(bits.get(9).is_none());
    assert!(bits.try_range_ptr(8, 10).is_none());
    assert!(bits.try_range_ptr(8, 10).is_none());

    assert_eq!(bits.first(), Some(true));
    bits.set_bit(0, false);
    assert_eq!(bits.last(), Some(true));
    bits.set_bit(7, false);

    bits.set_bit(1, false);
    assert_bits(&bits, &[0, 0, 1, 1, 1, 1, 1, 0]);
    assert!(bits.try_range_ptr(100, 8).is_none());
    assert!(bits.try_range_ptr(0, 100).is_none());

    let mut a = pat(BitOrder::msb0(8), &[0, 1]);
    let mut b = pat(BitOrder::lsb0(16), &[1, 0]);
    assert_bits(&a, &[0, 1]);
    assert_bits(&b, &[1, 0]);
    a.swap_with(&mut b);
    assert_bits(&a, &[1, 0]);
    assert_bits(&b, &[0, 1]);

    let proxy_slice = a.subvec(0, 1);
    assert_bits(&proxy_slice, &[1]);

    let mut shared = BitVec::repeat_bit(BitOrder::lsb0(8), false, 8);
    shared.set_aliased(0, true);
    assert!(shared.get(0).unwrap());
}

#[test]
fn memcpy() {
    let mut dst = BitVec::repeat_bit(BitOrder::local_bits(64), false, 500);
    let src = BitVec::repeat_bit(BitOrder::local_bits(64), true, 500);

    // Equal heads fall into the fast path.
    dst.copy_from(10, &src, 74, 10);
    dst.copy_from(100, &src, 36, 400);

    // Unequal heads trip the slow path.
    dst.copy_from(0, &src, 10, 490);
    assert!(dst.all(0, 500));
}

#[test]
fn batch_copy() {
    let mut l = BitVec::repeat_bit(BitOrder::lsb0(64), false, 500);
    let mut m = BitVec::repeat_bit(BitOrder::msb0(64), false, 500);

    let l2 = BitVec::repeat_bit(BitOrder::lsb0(64), true, 500);
    let m2 = BitVec::repeat_bit(BitOrder::msb0(64), true, 500);

    assert!(l.not_any(0, 500));
    l.copy_from(0, &l2, 0, 500);
    assert!(l.all(0, 500));

    assert!(m.not_any(0, 500));
    m.copy_from(0, &m2, 0, 500);
    assert!(m.all(0, 500));
}

#[test]
fn query() {
    let data = vec![0x0Fu64, 0xFF, 0xF0, 0, 0x0E];
    let bits = BitVec::from_elems(BitOrder::msb0(8), &data).unwrap();

    assert!(bits.all(36, 39));
    assert!(bits.all(4, 20));
    assert!(bits.any(0, 8));
    assert!(bits.any(4, 20));
    assert!(bits.not_all(32, 40));
    assert!(bits.not_any(0, 4));
    assert!(bits.some(0, 8));

    assert_eq!(bits.count_ones(1, 7), 3);
    assert_eq!(bits.count_zeros(1, 7), 3);
    assert_eq!(bits.count_ones(0, 24), 16);
    assert_eq!(bits.count_zeros(16, 40), 17);

    let o = || BitOrder::local_bits(64);
    assert!(!pat(o(), &[0]).contains(&pat(o(), &[0, 1])));
    assert!(pat(o(), &[0, 1, 0]).contains(&pat(o(), &[1, 0])));
    assert!(pat(o(), &[0, 1, 0]).starts_with(&pat(o(), &[0, 1])));
    assert!(pat(o(), &[0, 1, 0]).ends_with(&pat(o(), &[1, 0])));
}

#[test]
fn modify() {
    let mut bits = BitVec::from_elems(BitOrder::local_bits(8), &vec![0b0000_1111u64]).unwrap();
    bits.swap(3, 4);
    assert!(bits.eq_bits(
        &BitVec::from_elems(BitOrder::local_bits(8), &vec![0b0001_0111u64]).unwrap()
    ));

    let mut bits = BitVec::from_elems(BitOrder::lsb0(8), &vec![0b0001_0111u64]).unwrap();
    bits.reverse(1, 7);
    assert!(bits.eq_bits(
        &BitVec::from_elems(BitOrder::lsb0(8), &vec![0b0110_1001u64]).unwrap()
    ));
    let mut bits = BitVec::from_elems(BitOrder::msb0(8), &vec![0b0110_1001u64]).unwrap();
    bits.reverse(1, 7);

    bits.copy_within(2, 4, 0);
    assert!(bits.eq_bits(
        &BitVec::from_elems(BitOrder::msb0(8), &vec![0b0101_0111u64]).unwrap()
    ));

    bits.copy_within(5, 8, 2);
    assert!(bits.eq_bits(
        &BitVec::from_elems(BitOrder::msb0(8), &vec![0b0111_1111u64]).unwrap()
    ));
}

#[test]
fn split() {
    assert!(
        BitVec::repeat_bit(BitOrder::local_bits(64), false, 0)
            .split_first()
            .is_none()
    );
    let one = BitVec::from_elems(BitOrder::lsb0(8), &vec![1u64]).unwrap();
    let (head, rest) = one.split_first().unwrap();
    assert!(head);
    assert_eq!(rest.len, 7);
    assert!(one.subvec(1, 8).not_any(0, 7));

    let mut data = BitVec::repeat_bit(BitOrder::lsb0(8), false, 8);
    data.set_bit(0, true);
    assert!(data.eq_bits(&BitVec::from_elems(BitOrder::lsb0(8), &vec![1u64]).unwrap()));

    assert!(
        BitVec::repeat_bit(BitOrder::local_bits(64), false, 0)
            .split_last()
            .is_none()
    );
    let one = BitVec::from_elems(BitOrder::msb0(8), &vec![1u64]).unwrap();
    let (tail, rest) = one.split_last().unwrap();
    assert!(tail);
    assert_eq!(rest.len, 7);

    let mut data = BitVec::repeat_bit(BitOrder::msb0(8), false, 8);
    data.set_bit(7, true);
    assert!(data.eq_bits(&BitVec::from_elems(BitOrder::msb0(8), &vec![1u64]).unwrap()));

    let mut bits = BitVec::from_elems(BitOrder::msb0(8), &vec![0b0000_1111u64]).unwrap();
    let (left, right) = bits.split_at(4);
    assert_eq!((left.len, right.len), (4, 4));
    assert!(bits.not_any(0, 4));
    assert!(bits.all(4, 8));

    bits.set_all(0, 4, true);
    bits.set_all(4, 8, false);
    assert!(bits.eq_bits(
        &BitVec::from_elems(BitOrder::msb0(8), &vec![0b1111_0000u64]).unwrap()
    ));

    let bits = BitVec::from_elems(BitOrder::lsb0(8), &vec![0u64]).unwrap();
    let base_ptr = BitPtr::new(8, 0, 0, 0).unwrap();
    let next_ptr = BitPtr::new(8, 1, 0, 0).unwrap();
    let (l, _) = bits.split_at(0);
    let (_, r) = bits.split_at(8);
    assert_eq!(l, base_ptr);
    assert_eq!(r, next_ptr);
}

#[test]
fn shift() {
    let mut bits = BitVec::repeat_bit(BitOrder::local_bits(64), true, 6);
    bits.shift_left(0);
    bits.shift_right(0);
    assert_bits(&bits, &[1, 1, 1, 1, 1, 1]);

    bits.shift_left(4);
    assert_bits(&bits, &[1, 1, 0, 0, 0, 0]);
    bits.shift_right(2);
    assert_bits(&bits, &[0, 0, 1, 1, 0, 0]);
}

#[test]
fn invert() {
    let mut bits = BitVec::from_elems(BitOrder::lsb0(8), &vec![0u64; 4]).unwrap();

    bits.invert(2, 6);
    assert!(bits.all(2, 6));

    bits.invert(12, 28);
    assert!(bits.all(12, 28));

    assert!(bits.eq_bits(
        &BitVec::from_elems(BitOrder::lsb0(8), &vec![0x3Cu64, 0xF0, 0xFF, 0x0F]).unwrap()
    ));
}

#[test]
fn rotate() {
    let mut bits = pat(BitOrder::local_bits(64), &[0, 1, 0, 0, 1, 0]);

    bits.rotate_left(0);
    bits.rotate_right(0);
    bits.rotate_left(6);
    bits.rotate_right(6);

    assert_bits(&bits, &[0, 1, 0, 0, 1, 0]);
}

fn swizzle(width: u8) -> BitOrder {
    let mask: u8 = match width {
        8 => 0b100,
        16 => 0b1100,
        32 => 0b11100,
        64 => 0b111100,
        _ => unreachable!("No other integers are supported"),
    };
    let table: Vec<u8> = (0..width).map(|i| i ^ mask).collect();
    BitOrder::new(width, table).unwrap()
}

#[test]
fn unspecialized() {
    let mut bits = BitVec::from_elems(swizzle(8), &vec![0xFFu64, 0]).unwrap();

    bits.copy_within(4, 12, 8);
    bits.copy_within(0, 4, 12);
    assert!(bits.all(0, 16));
    assert!(bits.subvec(0, 8).eq_bits(&bits.subvec(8, 16)));

    // Dodge the memcpy accelerant: a misaligned source forces the slow path.
    let zeros9 = BitVec::repeat_bit(swizzle(8), false, 9);
    let src = zeros9.subvec(1, 9);
    bits.copy_from(0, &src, 0, 8);
    assert!(bits.eq_bits(&BitVec::from_elems(swizzle(8), &vec![0u64, 0xFF]).unwrap()));
}

#[test]
fn misc() {
    let bits = pat(BitOrder::local_bits(64), &[0, 1, 0, 0]);

    let bitptr_1 = bits.bitptr();
    let bitptr_2 = bits.range_ptr(0, bits.length());
    assert_eq!(bitptr_1, bitptr_2);

    let bitptr_1 = bits.bitptr();
    let bitptr_2 = bits.bitptr();
    assert_eq!(bitptr_1, bitptr_2);

    let o = || BitOrder::local_bits(64);
    let mut a = pat(o(), &[0, 0, 0, 0]);
    let mut b = pat(o(), &[0, 1, 0, 1]);
    let mut c = pat(o(), &[0, 0, 1, 1]);

    a.copy_from(0, &b, 0, 4);
    assert!(a.eq_bits(&b));
    b.swap_with(&mut c);
    a.copy_from(0, &b, 0, 4);
    assert!(a.eq_bits(&b));

    assert_eq!(a.to_bools(), vec![false, false, true, true]);
}

#[test]
fn repetition() {
    let bits = pat(BitOrder::local_bits(64), &[0, 0, 1, 1]);
    let bv = bits.repeat(2);
    assert_bits(&bv, &[0, 0, 1, 1, 0, 0, 1, 1]);
}

#[test]
fn pointer_offset() {
    let lsb0 = BitVec::from_elems(BitOrder::lsb0(8), &vec![0u64; 2]).unwrap();
    let msb0 = BitVec::from_elems(BitOrder::msb0(8), &vec![0u64; 2]).unwrap();

    assert_eq!(msb0.range_ptr(2, 16).offset_from(&msb0.range_ptr(12, 16)), 10);
    assert_eq!(msb0.range_ptr(5, 16).offset_from(&msb0.range_ptr(10, 16)), 5);
    assert_eq!(msb0.range_ptr(8, 16).offset_from(&msb0.range_ptr(4, 16)), -4);
    assert_eq!(msb0.range_ptr(14, 16).offset_from(&msb0.range_ptr(1, 16)), -13);

    let mo = BitOrder::msb0(8);
    let lo = BitOrder::lsb0(8);
    assert_eq!(
        msb0.range_ptr(0, 16).electrical_distance(&msb0.range_ptr(15, 16), &mo),
        1
    );
    assert_eq!(
        msb0.range_ptr(15, 16).electrical_distance(&msb0.range_ptr(0, 16), &mo),
        -1
    );
    assert_eq!(
        lsb0.range_ptr(7, 16).electrical_distance(&lsb0.range_ptr(8, 16), &lo),
        1
    );
    assert_eq!(
        lsb0.range_ptr(8, 16).electrical_distance(&lsb0.range_ptr(7, 16), &lo),
        -1
    );
}

#[test]
fn alignment() {
    let bits = BitVec::from_elems(BitOrder::msb0(32), &vec![0u64; 3]).unwrap();

    let bp = bits.range_ptr(10, 20);
    let (l0, c0, r0) = bp.align_to(8);
    assert_eq!(l0, bp);
    assert!(c0.is_empty());
    assert!(r0.is_empty());

    let (l1, c1, r1) = bits.range_ptr(10, 86).align_to(8);
    assert_eq!(l1.len, 22);
    assert_eq!(r1.len, 22);
    assert_eq!(c1.len, 32);

    let (l2, c2, r2) = c1.align_to(16);
    assert!(l2.is_empty());
    assert!(r2.is_empty());
    assert_eq!(c1.len, c2.len);
}

#[test]
fn limits() {
    // Over-length or misplaced raw parts are refused, never constructed.
    assert!(BitVec::from_raw_parts(BitOrder::lsb0(8), &vec![0u64], 8, 0).is_none());
    assert!(BitVec::from_raw_parts(BitOrder::lsb0(8), &vec![0u64], 0, 9).is_none());
    assert!(BitVec::from_raw_parts(BitOrder::lsb0(8), &vec![0u64], 0, MAX_BITS + 1).is_none());
    assert!(BitPtr::new(12, 0, 0, 0).is_none());
    assert!(BitPtr::new(8, 0, 8, 0).is_none());
    assert!(BitPtr::new(8, 0, 0, MAX_BITS + 1).is_none());
    let p = BitPtr::new(8, 0, 4, 4).unwrap();
    assert!(p.offset(-5).is_none());
    assert_eq!(p.offset(-4).unwrap(), BitPtr::new(8, 0, 0, 4).unwrap());
    assert_eq!(p.offset(12).unwrap(), BitPtr::new(8, 2, 0, 4).unwrap());
    assert_eq!(p.span_elems(), 1);
    assert_eq!(BitPtr::new(8, 0, 4, 5).unwrap().span_elems(), 2);
}
