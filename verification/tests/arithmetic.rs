use bitvec::arith::rca1;
use bitvec::cursor::{BigEndian, LittleEndian};
use bitvec::range::BitRange;
use bitvec::slice::BitSlice;

#[test]
fn full_adder_truth_table() {
    assert_eq!(rca1(false, false, false), (false, false));
    assert_eq!(rca1(true, false, false), (true, false));
    assert_eq!(rca1(false, true, false), (true, false));
    assert_eq!(rca1(false, false, true), (true, false));
    assert_eq!(rca1(true, true, false), (false, true));
    assert_eq!(rca1(true, false, true), (false, true));
    assert_eq!(rca1(false, true, true), (false, true));
    assert_eq!(rca1(true, true, true), (true, true));
}

#[test]
fn reverse_addition_of_four_bits() {
    let mut a = [0b0000_1010u8];
    let b = [0b0000_1100u8];
    let ab = BitSlice::<LittleEndian, u8>::from_slice_mut(&mut a)
        .unwrap()
        .index_range(BitRange::To(4))
        .unwrap();
    let bb = BitSlice::<LittleEndian, u8>::from_slice(&b)
        .unwrap()
        .index_range(BitRange::To(4))
        .unwrap();
    let carry = ab.add_assign_reverse(&mut a, &bb.to_vec(&b));
    assert!(carry);
    assert_eq!(a[0], 0b0000_0110);
    assert_eq!(a[0], (10 + 12) % 16);
}

#[test]
fn reverse_addition_pads_a_short_addend() {
    // 101111 + 0010__ read left to right, least significant first
    let mut store = [0b1011_1100u8];
    let bits = BitSlice::<BigEndian, u8>::from_slice_mut(&mut store)
        .unwrap()
        .index_range(BitRange::To(6))
        .unwrap();
    let carry = bits.add_assign_reverse(&mut store, &[false, false, true, false]);
    assert!(carry);
    assert_eq!(store[0], 0b1000_0000);
    let carry = bits.add_assign_reverse(&mut store, &[]);
    assert!(!carry);
    assert_eq!(store[0], 0b1000_0000);
}

#[test]
fn reverse_addition_matches_integers() {
    for a in 0..32u8 {
        for b in 0..64u8 {
            let mut store = [a << 1];
            let bits = BitSlice::<LittleEndian, u8>::from_slice_mut(&mut store)
                .unwrap()
                .index_range(BitRange::Closed(1, 6))
                .unwrap();
            let addend: Vec<bool> = (0..6).map(|i| b >> i & 1 == 1).collect();
            let carry = bits.add_assign_reverse(&mut store, &addend);
            let sum = a as u32 + (b & 31) as u32;
            assert_eq!(store[0], ((sum % 32) as u8) << 1);
            assert_eq!(carry, sum >= 32);
        }
    }
}

#[test]
fn addition_wraps_from_the_largest_number() {
    let mut src = [0b1110_1111u8, 0b0000_0001];
    let whole = BitSlice::<BigEndian, u8>::from_slice_mut(&mut src).unwrap();
    let (nums, one) = whole.split_at(12).unwrap();
    let (accum, steps) = nums.split_at(4).unwrap();
    let addend = one.to_vec(&src);
    accum.add_assign(&mut src, &addend);
    assert_eq!(accum.to_vec(&src), steps.index_range(BitRange::To(4)).unwrap().to_vec(&src));
    accum.add_assign(&mut src, &addend);
    assert_eq!(accum.to_vec(&src), steps.index_range(BitRange::From(4)).unwrap().to_vec(&src));
    assert_eq!(src, [0b0000_1111, 0b0000_0001]);
}

#[test]
fn addition_matches_integers() {
    for a in 0..32u8 {
        for b in 0..128u8 {
            let mut store = [a << 2];
            let bits = BitSlice::<BigEndian, u8>::from_slice_mut(&mut store)
                .unwrap()
                .index_range(BitRange::Closed(1, 6))
                .unwrap();
            // seven bits, most significant first; only the last five are used
            let addend: Vec<bool> = (0..7).map(|i| b >> (6 - i) & 1 == 1).collect();
            bits.add_assign(&mut store, &addend);
            assert_eq!(store[0], ((a + (b & 31)) % 32) << 2);
        }
    }
}

#[test]
fn addition_pads_a_short_addend_on_the_left() {
    // 100111 + __0010
    let mut store = [0b1001_1100u8];
    let bits = BitSlice::<BigEndian, u8>::from_slice_mut(&mut store)
        .unwrap()
        .index_range(BitRange::To(6))
        .unwrap();
    bits.add_assign(&mut store, &[false, false, true, false]);
    assert_eq!(store[0], 0b1010_0100);
}

#[test]
fn negate_a_positive_number() {
    let mut src = [0b0110_1010u8];
    let bits = BitSlice::<BigEndian, u8>::from_slice_mut(&mut src).unwrap();
    let num = bits.index_range(BitRange::To(4)).unwrap();
    num.neg(&mut src);
    assert_eq!(src[0], 0b1010_1010);
    assert_eq!(
        num.to_vec(&src),
        bits.index_range(BitRange::From(4)).unwrap().to_vec(&src)
    );
}

#[test]
fn negate_a_negative_number() {
    let mut src = [0b1010_0110u8];
    let bits = BitSlice::<BigEndian, u8>::from_slice_mut(&mut src).unwrap();
    let num = bits.index_range(BitRange::To(4)).unwrap();
    num.neg(&mut src);
    assert_eq!(src[0], 0b0110_0110);
}

#[test]
fn negate_the_most_negative_number() {
    let mut src = [128u8];
    let bits = BitSlice::<BigEndian, u8>::from_slice_mut(&mut src).unwrap();
    bits.neg(&mut src);
    assert!(bits.not_any(&src));
    bits.neg(&mut src);
    assert!(bits.not_any(&src));
}

#[test]
fn negate_zero_and_nothing() {
    let mut src = [0u8, 0xFF];
    let bits = BitSlice::<BigEndian, u8>::from_slice_mut(&mut src).unwrap();
    bits.index_range(BitRange::To(8)).unwrap().neg(&mut src);
    assert_eq!(src, [0, 0xFF]);
    bits.index_range(BitRange::Closed(3, 3)).unwrap().neg(&mut src);
    assert_eq!(src, [0, 0xFF]);
    BitSlice::<BigEndian, u8>::empty().neg(&mut src);
    assert_eq!(src, [0, 0xFF]);
}

#[test]
fn negate_twice_gives_the_number_back() {
    for v in 0..=255u8 {
        let mut store = [v];
        let bits = BitSlice::<BigEndian, u8>::from_slice_mut(&mut store).unwrap();
        bits.neg(&mut store);
        if v == 128 {
            assert_eq!(store[0], 0);
        } else {
            assert_eq!(store[0], v.wrapping_neg());
        }
        bits.neg(&mut store);
        if v == 128 {
            assert_eq!(store[0], 0);
        } else {
            assert_eq!(store[0], v);
        }
    }
}

#[test]
fn negate_one_bit() {
    let mut store = [0b0100_0000u8];
    let bits = BitSlice::<BigEndian, u8>::from_slice_mut(&mut store).unwrap();
    bits.index_range(BitRange::Closed(1, 2)).unwrap().neg(&mut store);
    assert_eq!(store[0], 0);
}
