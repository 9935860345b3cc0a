use bitvec::bits::BitVec;
use bitvec::order::BitOrder;

fn pat(order: BitOrder, bits: &[u8]) -> BitVec {
    let v: Vec<bool> = bits.iter().map(|&b| b != 0).collect();
    BitVec::from_bools(order, &v)
}

#[test]
fn iterators() {
    let two = BitVec::repeat_bit(BitOrder::local_bits(64), false, 2);
    assert!(two.iter().nth(2).is_none());
    assert!(two.iter().nth_back(2).is_none());

    let bits = BitVec::repeat_bit(BitOrder::local_bits(64), false, 4);

    assert!(bits.chunks(2).nth(2).is_none());
    assert!(bits.chunks(2).nth_back(2).is_none());
    assert!(bits.chunks(2).nth(2).is_none());
    assert!(bits.chunks(2).nth_back(2).is_none());

    assert!(bits.rchunks(2).nth(2).is_none());
    assert!(bits.rchunks(2).nth_back(2).is_none());
    assert!(bits.rchunks(2).nth(2).is_none());
    assert!(bits.rchunks(2).nth_back(2).is_none());
    let empty = BitVec::repeat_bit(BitOrder::local_bits(64), false, 0);
    assert!(empty.rchunks(1).next().is_none());

    let on_set = |_i: usize, bit: bool| bit;

    let v = pat(BitOrder::msb0(8), &[0, 1, 0, 0, 1, 0, 0, 0]);
    let mut sp = v.split();
    for len in [1usize, 2, 3] {
        let (a, b) = sp.next(&on_set).unwrap();
        assert_eq!(b - a, len);
    }
    assert!(sp.next(&on_set).is_none());

    let mut data = BitVec::from_elems(BitOrder::msb0(8), &vec![0b0100_1000u64]).unwrap();
    let mut sp = data.split();
    let mut segs = Vec::new();
    for len in [1usize, 2, 3] {
        let (a, b) = sp.next(&on_set).unwrap();
        assert_eq!(b - a, len);
        segs.push((a, b));
    }
    for (a, b) in segs {
        data.set_all(a, b, true);
    }
    assert!(data.eq_bits(&BitVec::from_elems(BitOrder::msb0(8), &vec![0xFFu64]).unwrap()));

    let v = pat(BitOrder::msb0(8), &[0, 1, 0, 0, 1, 0, 0, 0]);
    let mut rs = v.rsplit();
    for len in [3usize, 2, 1] {
        let (a, b) = rs.next(&on_set).unwrap();
        assert_eq!(b - a, len);
    }
    assert!(rs.next(&on_set).is_none());

    let mut data = BitVec::from_elems(BitOrder::msb0(8), &vec![0b0100_1000u64]).unwrap();
    let mut rs = data.rsplit();
    let mut segs = Vec::new();
    for len in [3usize, 2, 1] {
        let (a, b) = rs.next(&on_set).unwrap();
        assert_eq!(b - a, len);
        segs.push((a, b));
    }
    for (a, b) in segs {
        data.set_all(a, b, true);
    }
    assert!(data.eq_bits(&BitVec::from_elems(BitOrder::msb0(8), &vec![0xFFu64]).unwrap()));

    let v = pat(BitOrder::msb0(8), &[0, 1, 0, 0, 1, 0, 0, 0]);
    let mut sn = v.splitn(2);
    for len in [1usize, 6] {
        let (a, b) = sn.next(&on_set).unwrap();
        assert_eq!(b - a, len);
    }
    assert!(sn.next(&on_set).is_none());

    let mut data = BitVec::from_elems(BitOrder::msb0(8), &vec![0b0100_1000u64]).unwrap();
    let mut sn = data.splitn(2);
    let mut segs = Vec::new();
    for len in [1usize, 6] {
        let (a, b) = sn.next(&on_set).unwrap();
        assert_eq!(b - a, len);
        segs.push((a, b));
    }
    for (a, b) in segs {
        data.set_all(a, b, true);
    }
    assert!(data.eq_bits(&BitVec::from_elems(BitOrder::msb0(8), &vec![0xFFu64]).unwrap()));

    let v = pat(BitOrder::msb0(8), &[0, 1, 0, 0, 1, 0, 0, 0]);
    let mut rn = v.rsplitn(2);
    for len in [3usize, 4] {
        let (a, b) = rn.next(&on_set).unwrap();
        assert_eq!(b - a, len);
    }
    assert!(rn.next(&on_set).is_none());

    let mut data = BitVec::from_elems(BitOrder::msb0(8), &vec![0b0100_1000u64]).unwrap();
    let mut rn = data.rsplitn(2);
    let mut segs = Vec::new();
    for len in [3usize, 4] {
        let (a, b) = rn.next(&on_set).unwrap();
        assert_eq!(b - a, len);
        segs.push((a, b));
    }
    for (a, b) in segs {
        data.set_all(a, b, true);
    }
    assert!(data.eq_bits(&BitVec::from_elems(BitOrder::msb0(8), &vec![0xFFu64]).unwrap()));
}

#[test]
fn iter() {
    let bits = pat(BitOrder::lsb0(8), &[0, 1, 1, 0, 1, 0, 0, 1]);
    let mut iter = bits.iter();

    assert_eq!(iter.as_ptr(), bits.range_ptr(0, 8));
    assert_eq!(iter.next(), Some(false));
    assert_eq!(iter.as_ptr(), bits.range_ptr(1, 8));
    assert_eq!(iter.next(), Some(true));

    assert_eq!(iter.as_ptr(), bits.range_ptr(2, 8));
    assert_eq!(iter.next_back(), Some(true));
    assert_eq!(iter.as_ptr(), bits.range_ptr(2, 7));
    assert_eq!(iter.next_back(), Some(false));

    assert_eq!(iter.as_ptr(), bits.range_ptr(2, 6));
    assert_eq!(iter.next(), Some(true));
    assert_eq!(iter.as_ptr(), bits.range_ptr(3, 6));
    assert_eq!(iter.next(), Some(false));

    assert_eq!(iter.as_ptr(), bits.range_ptr(4, 6));
    assert_eq!(iter.next_back(), Some(false));
    assert_eq!(iter.as_ptr(), bits.range_ptr(4, 5));

    assert_eq!(iter.next_back(), Some(true));
    assert!(iter.as_ptr().is_empty());
    assert!(iter.next().is_none());
    assert!(iter.next_back().is_none());

    let iter2 = iter.clone();
    assert!(iter2.as_ptr().is_empty());
}

#[test]
fn iter_mut() {
    let mut bits = pat(BitOrder::msb0(8), &[0, 1, 1, 0, 1, 0, 0, 1]);
    let mut iter = bits.index_iter();

    let i = iter.next().unwrap();
    bits.set_bit(i, true);
    let i = iter.nth_back(1).unwrap();
    bits.set_bit(i, true);
    let i = iter.nth(2).unwrap();
    bits.set_bit(i, true);
    let i = iter.next_back().unwrap();
    bits.set_bit(i, true);

    assert_eq!(iter.as_ptr(), bits.range_ptr(4, 5));

    let bitptr = bits.bitptr();
    assert_eq!(bits.index_iter().as_ptr(), bitptr);
    assert_eq!(bits.index_iter().as_ptr(), bitptr);
}

#[test]
fn windows() {
    let bits = BitVec::repeat_bit(BitOrder::local_bits(8), false, 8);

    let mut windows = bits.windows(5);
    assert_eq!(windows.next().unwrap(), bits.range_ptr(0, 5));
    assert_eq!(windows.next_back().unwrap(), bits.range_ptr(3, 8));

    let mut windows = bits.windows(3);
    assert_eq!(windows.nth(2).unwrap(), bits.range_ptr(2, 5));
    assert_eq!(windows.nth_back(2).unwrap(), bits.range_ptr(3, 6));
    assert!(windows.next().is_none());
    assert!(windows.next_back().is_none());
    assert!(windows.nth(1).is_none());
    assert!(windows.nth_back(1).is_none());
}

#[test]
fn chunks() {
    let bits = BitVec::repeat_bit(BitOrder::lsb0(16), false, 16);

    let mut chunks = bits.chunks(5);
    assert_eq!(chunks.next().unwrap(), bits.range_ptr(0, 5));
    assert_eq!(chunks.next_back().unwrap(), bits.range_ptr(15, 16));

    let mut chunks = bits.chunks(3);
    assert_eq!(chunks.nth(2).unwrap(), bits.range_ptr(6, 9));
    assert_eq!(chunks.nth_back(2).unwrap(), bits.range_ptr(9, 12));
}

#[test]
fn chunks_mut() {
    let bits = BitVec::repeat_bit(BitOrder::msb0(16), false, 16);

    let (one, two, three, four) = (
        bits.range_ptr(0, 5),
        bits.range_ptr(15, 16),
        bits.range_ptr(6, 9),
        bits.range_ptr(9, 12),
    );

    let mut chunks = bits.chunks(5);
    assert_eq!(chunks.next().unwrap(), one);
    assert_eq!(chunks.next_back().unwrap(), two);

    let mut chunks = bits.chunks(3);
    assert_eq!(chunks.nth(2).unwrap(), three);
    assert_eq!(chunks.nth_back(2).unwrap(), four);
}

#[test]
fn chunks_exact() {
    let bits = BitVec::repeat_bit(BitOrder::lsb0(32), false, 32);

    let mut chunks = bits.chunks_exact(5);
    assert_eq!(chunks.remainder(), bits.range_ptr(30, 32));
    assert_eq!(chunks.next().unwrap(), bits.range_ptr(0, 5));
    assert_eq!(chunks.next_back().unwrap(), bits.range_ptr(25, 30));
    assert_eq!(chunks.nth(1).unwrap(), bits.range_ptr(10, 15));
    assert_eq!(chunks.nth_back(1).unwrap(), bits.range_ptr(15, 20));

    assert!(chunks.next().is_none());
    assert!(chunks.next_back().is_none());
    assert!(chunks.nth(1).is_none());
    assert!(chunks.nth_back(1).is_none());
}

#[test]
fn chunks_exact_mut() {
    let bits = BitVec::repeat_bit(BitOrder::msb0(32), false, 32);

    let (one, two, three, four, rest) = (
        bits.range_ptr(0, 5),
        bits.range_ptr(10, 15),
        bits.range_ptr(15, 20),
        bits.range_ptr(25, 30),
        bits.range_ptr(30, 32),
    );

    let mut chunks = bits.chunks_exact(5);
    assert_eq!(chunks.next().unwrap(), one);
    assert_eq!(chunks.next_back().unwrap(), four);
    assert_eq!(chunks.nth(1).unwrap(), two);
    assert_eq!(chunks.nth_back(1).unwrap(), three);

    assert!(chunks.next().is_none());
    assert!(chunks.next_back().is_none());
    assert!(chunks.nth(1).is_none());
    assert!(chunks.nth_back(1).is_none());

    assert_eq!(chunks.into_remainder(), rest);
}

#[test]
fn rchunks() {
    let bits = BitVec::repeat_bit(BitOrder::lsb0(16), false, 16);

    let mut rchunks = bits.rchunks(5);
    assert_eq!(rchunks.next().unwrap(), bits.range_ptr(11, 16));
    assert_eq!(rchunks.next_back().unwrap(), bits.range_ptr(0, 1));

    let mut rchunks = bits.rchunks(3);
    assert_eq!(rchunks.nth(2).unwrap(), bits.range_ptr(7, 10));
    assert_eq!(rchunks.nth_back(2).unwrap(), bits.range_ptr(4, 7));
}

#[test]
fn rchunks_mut() {
    let bits = BitVec::repeat_bit(BitOrder::msb0(16), false, 16);

    let (one, two, three, four) = (
        bits.range_ptr(11, 16),
        bits.range_ptr(0, 1),
        bits.range_ptr(7, 10),
        bits.range_ptr(4, 7),
    );

    let mut rchunks = bits.rchunks(5);
    assert_eq!(rchunks.next().unwrap(), one);
    assert_eq!(rchunks.next_back().unwrap(), two);

    let mut rchunks = bits.rchunks(3);
    assert_eq!(rchunks.nth(2).unwrap(), three);
    assert_eq!(rchunks.nth_back(2).unwrap(), four);
}

#[test]
fn rchunks_exact() {
    let bits = BitVec::repeat_bit(BitOrder::lsb0(32), false, 32);

    let mut rchunks = bits.rchunks_exact(5);
    assert_eq!(rchunks.remainder(), bits.range_ptr(0, 2));
    assert_eq!(rchunks.next().unwrap(), bits.range_ptr(27, 32));
    assert_eq!(rchunks.next_back().unwrap(), bits.range_ptr(2, 7));
    assert_eq!(rchunks.nth(1).unwrap(), bits.range_ptr(17, 22));
    assert_eq!(rchunks.nth_back(1).unwrap(), bits.range_ptr(12, 17));

    assert!(rchunks.next().is_none());
    assert!(rchunks.next_back().is_none());
    assert!(rchunks.nth(1).is_none());
    assert!(rchunks.nth_back(1).is_none());
}

#[test]
fn rchunks_exact_mut() {
    let bits = BitVec::repeat_bit(BitOrder::msb0(32), false, 32);

    let (rest, one, two, three, four) = (
        bits.range_ptr(0, 2),
        bits.range_ptr(2, 7),
        bits.range_ptr(12, 17),
        bits.range_ptr(17, 22),
        bits.range_ptr(27, 32),
    );

    let mut rchunks = bits.rchunks_exact(5);
    assert_eq!(rchunks.next().unwrap(), four);
    assert_eq!(rchunks.next_back().unwrap(), one);
    assert_eq!(rchunks.nth(1).unwrap(), three);
    assert_eq!(rchunks.nth_back(1).unwrap(), two);

    assert!(rchunks.next().is_none());
    assert!(rchunks.next_back().is_none());
    assert!(rchunks.nth(1).is_none());
    assert!(rchunks.nth_back(1).is_none());

    assert_eq!(rchunks.into_remainder(), rest);
}

#[test]
fn iter_ones_zeros() {
    //                                              0  1  2  3  4  5  6  7
    let bits = pat(BitOrder::local_bits(64), &[0, 0, 1, 1, 0, 1, 0, 1]);
    let mut ones = bits.iter_ones();
    let mut zeros = bits.iter_zeros();

    assert_eq!(ones.next(), Some(2));
    assert_eq!(zeros.next(), Some(0));
    assert_eq!(ones.next_back(), Some(7));
    assert_eq!(zeros.next_back(), Some(6));

    assert_eq!(ones.size_hint(), (2, Some(2)));
    assert_eq!(zeros.size_hint(), (2, Some(2)));
    assert_eq!(ones.clone().count(), 2);
    assert_eq!(zeros.clone().count(), 2);

    assert_eq!(ones.clone().last(), Some(5));
    assert_eq!(zeros.clone().last(), Some(4));

    assert!(ones.nth(2).is_none());
    assert!(zeros.nth(2).is_none());
    assert!(ones.nth_back(0).is_none());
    assert!(zeros.nth_back(0).is_none());
}
