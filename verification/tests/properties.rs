use bitvec::bits::BitVec;
use bitvec::index::{BitIdx, BitPos};
use bitvec::order::BitOrder;

fn pat(order: BitOrder, bits: &[u8]) -> BitVec {
    let v: Vec<bool> = bits.iter().map(|&b| b != 0).collect();
    BitVec::from_bools(order, &v)
}

#[test]
fn canonical_orders_are_bijections() {
    for w in [8u8, 16, 32, 64] {
        let lsb = BitOrder::lsb0(w);
        let msb = BitOrder::msb0(w);
        let mut lsb_seen = vec![false; w as usize];
        let mut msb_seen = vec![false; w as usize];
        for i in 0..w {
            assert_eq!(lsb.at(i), i);
            assert_eq!(msb.at(i), w - 1 - i);
            assert!(!lsb_seen[lsb.at(i) as usize]);
            assert!(!msb_seen[msb.at(i) as usize]);
            lsb_seen[lsb.at(i) as usize] = true;
            msb_seen[msb.at(i) as usize] = true;
        }
    }
}

#[test]
fn order_validation_rejects_non_bijections() {
    // An entry out of range.
    assert!(BitOrder::new(8, vec![0, 1, 2, 3, 4, 5, 6, 8]).is_none());
    // A repeated physical position.
    assert!(BitOrder::new(8, vec![0, 1, 2, 3, 4, 5, 6, 6]).is_none());
    // A short table.
    assert!(BitOrder::new(8, vec![0, 1, 2]).is_none());
    // An unsupported width.
    assert!(BitOrder::new(7, vec![0, 1, 2, 3, 4, 5, 6]).is_none());
    // A genuine permutation is accepted.
    assert!(BitOrder::new(8, vec![7, 6, 5, 4, 3, 2, 1, 0]).is_some());
}

#[test]
fn bounded_indices_carry_at_the_boundary() {
    assert!(BitIdx::new(8, 8).is_none());
    assert!(BitPos::new(8, 8).is_none());
    assert!(BitIdx::new(12, 3).is_none());
    let idx = BitIdx::new(8, 6).unwrap();
    let (next, carried) = idx.next();
    assert!(!carried);
    assert_eq!(next.value(), 7);
    let (wrapped, carried) = next.next();
    assert!(carried);
    assert_eq!(wrapped.value(), 0);
    let msb = BitOrder::msb0(8);
    assert_eq!(msb.at_idx(idx).value(), 1);
}

#[test]
fn decompose_reassemble_round_trip() {
    // Decompose a boundary-crossing range, copy each region back into a
    // fresh buffer in order, and compare with the original content.
    let mut src = BitVec::repeat_bit(BitOrder::msb0(8), false, 40);
    for i in [3usize, 9, 10, 17, 22, 31, 38] {
        src.set_bit(i, true);
    }
    let range = src.range_ptr(5, 37);
    let (h, b, t) = range.decompose();
    assert_eq!(h.len + b.len + t.len, range.len);
    assert_eq!(b.len % 8, 0);

    let mut rebuilt = BitVec::repeat_bit(BitOrder::msb0(8), false, 32);
    let whole = src.subvec(5, 37);
    rebuilt.copy_from(0, &whole.subvec(0, h.len), 0, h.len);
    rebuilt.copy_from(h.len, &whole.subvec(h.len, h.len + b.len), 0, b.len);
    rebuilt.copy_from(h.len + b.len, &whole.subvec(h.len + b.len, 32), 0, t.len);
    assert!(rebuilt.eq_bits(&whole));
}

#[test]
fn copy_paths_agree_on_aligned_ranges() {
    // The scenario with both paths applicable: all-ones source, all-zero
    // destination, aligned ten-bit ranges.
    let src = BitVec::repeat_bit(BitOrder::lsb0(64), true, 500);

    let mut fast = BitVec::repeat_bit(BitOrder::lsb0(64), false, 500);
    fast.copy_bits_fast(10, &src, 74, 10);

    let mut slow = BitVec::repeat_bit(BitOrder::lsb0(64), false, 500);
    slow.copy_bits(10, &src, 74, 10);

    assert!(fast.eq_bits(&slow));
    // Exactly the ten destination bits are set.
    assert!(fast.not_any(0, 10));
    assert!(fast.all(10, 20));
    assert!(fast.not_any(20, 500));
    assert_eq!(fast.count_ones(0, 500), 10);
}

#[test]
fn fill_paths_agree_on_any_range() {
    // The accelerated fill and the bit-by-bit fill share one contract, so
    // any range, aligned or not, comes out identical.
    for (a, b) in [(0usize, 96usize), (10, 86), (3, 5), (8, 40), (17, 17)] {
        let mut fast = BitVec::from_elems(BitOrder::msb0(32), &vec![0u64; 3]).unwrap();
        let mut slow = BitVec::from_elems(BitOrder::msb0(32), &vec![0u64; 3]).unwrap();
        fast.fill(a, b, true);
        slow.set_all(a, b, true);
        assert!(fast.eq_bits(&slow));
        assert_eq!(fast.count_ones(0, 96), b - a);
        assert!(fast.all(a, b));
    }
}

#[test]
fn invert_paths_agree_on_any_range() {
    for (a, b) in [(0usize, 64usize), (10, 54), (3, 5), (8, 40), (17, 17)] {
        let mut fast = BitVec::from_elems(BitOrder::lsb0(16), &vec![0x5A5Au64; 4]).unwrap();
        let mut slow = BitVec::from_elems(BitOrder::lsb0(16), &vec![0x5A5Au64; 4]).unwrap();
        fast.invert_fast(a, b);
        slow.invert(a, b);
        assert!(fast.eq_bits(&slow));
        // Inverting twice restores the original.
        fast.invert_fast(a, b);
        assert!(fast.eq_bits(
            &BitVec::from_elems(BitOrder::lsb0(16), &vec![0x5A5Au64; 4]).unwrap()
        ));
    }
}

#[test]
fn equality_paths_agree() {
    let mut a = BitVec::from_elems(BitOrder::msb0(16), &vec![0x5A5Au64; 4]).unwrap();
    let b = BitVec::from_elems(BitOrder::msb0(16), &vec![0x5A5Au64; 4]).unwrap();
    assert!(a.eq_bits_fast(&b));
    assert!(a.eq_bits(&b));
    a.set_bit(37, true);
    assert!(!a.eq_bits_fast(&b));
    assert!(!a.eq_bits(&b));
    a.set_bit(37, false);
    assert!(a.eq_bits_fast(&b));
    let short = BitVec::repeat_bit(BitOrder::msb0(16), false, 10);
    assert!(!short.eq_bits_fast(&b));
}

#[test]
fn rotate_cyclic_permutation() {
    let mut bits = pat(BitOrder::local_bits(64), &[0, 1, 0, 0, 1, 0]);
    bits.rotate_left(2);
    assert_eq!(bits.to_bools(), vec![false, false, true, false, false, true]);
    bits.rotate_right(2);
    assert_eq!(bits.to_bools(), vec![false, true, false, false, true, false]);
}

#[test]
fn strict_prefix_sorts_first() {
    let o = || BitOrder::local_bits(64);
    let short = pat(o(), &[0, 1, 0]);
    for tail in [0u8, 1] {
        let long = pat(o(), &[0, 1, 0, tail]);
        assert!(short.lex_lt(&long));
        assert!(!long.lex_lt(&short));
    }
}

#[test]
fn counts_partition_every_range() {
    // Zero, one and many element boundaries crossed.
    let data = vec![0x5Au64, 0xC3, 0x0F, 0xF0, 0x99];
    let bits = BitVec::from_elems(BitOrder::msb0(8), &data).unwrap();
    for (a, b) in [(0usize, 0usize), (2, 7), (3, 12), (6, 37), (0, 40), (8, 16)] {
        assert_eq!(bits.count_ones(a, b) + bits.count_zeros(a, b), b - a);
    }
}

#[test]
fn bounds_reporting_is_exact() {
    // Reading one past the final valid bit is refused at exactly that index.
    let bits = pat(BitOrder::local_bits(64), &[0]);
    assert!(bits.get(0).is_some());
    assert!(bits.get(1).is_none());
    assert!(bits.try_range_ptr(0, 2).is_none());
    assert!(bits.try_range_ptr(2, 1).is_none());
}

#[test]
fn shift_scenarios() {
    let mut bits = BitVec::repeat_bit(BitOrder::local_bits(64), true, 6);
    bits.shift_left(4);
    assert_eq!(
        bits.to_bools(),
        vec![true, true, false, false, false, false]
    );
    bits.shift_right(2);
    assert_eq!(
        bits.to_bools(),
        vec![false, false, true, true, false, false]
    );
    // Shifting by the full length or more clears everything.
    bits.shift_left(6);
    assert!(bits.not_any(0, 6));
    let mut bits = BitVec::repeat_bit(BitOrder::local_bits(64), true, 6);
    bits.shift_right(7);
    assert!(bits.not_any(0, 6));
}

#[test]
fn split_rejoin_every_index() {
    let src = pat(BitOrder::msb0(8), &[1, 0, 1, 1, 0, 0, 1, 0, 1, 1]);
    let n = src.length();
    for k in 0..=n {
        let (left, right) = src.split_at(k);
        assert_eq!(left.len + right.len, n);
        let mut rebuilt = BitVec::repeat_bit(BitOrder::msb0(8), false, n);
        rebuilt.copy_from(0, &src.subvec(0, k), 0, k);
        rebuilt.copy_from(k, &src.subvec(k, n), 0, n - k);
        assert!(rebuilt.eq_bits(&src));
    }
    // Splitting at the extremes keeps the original pointer identity.
    let (all, after) = src.split_at(n);
    assert_eq!(all, src.bitptr());
    assert_eq!(after.len, 0);
    let (before, all) = src.split_at(0);
    assert_eq!(all, src.bitptr());
    assert_eq!(before.len, 0);
}

#[test]
fn reverse_is_involutive() {
    let mut bits = pat(BitOrder::lsb0(16), &[1, 0, 0, 1, 1, 0, 1, 0, 0, 1, 1]);
    let orig = bits.subvec(0, 11);
    bits.reverse(2, 9);
    bits.reverse(2, 9);
    assert!(bits.eq_bits(&orig));
    bits.reverse(0, 11);
    assert_eq!(bits.get(0), Some(true));
    assert_eq!(bits.get(10), Some(true));
}

#[test]
fn invert_flips_exactly_the_range() {
    let mut bits = pat(BitOrder::msb0(8), &[1, 0, 1, 0, 1, 0, 1, 0, 1, 0]);
    bits.invert(3, 7);
    assert_eq!(
        bits.to_bools(),
        vec![true, false, true, true, false, true, false, false, true, false]
    );
}
