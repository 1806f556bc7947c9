use bitvec::cursor::{BigEndian, LittleEndian};
use bitvec::range::BitRange;
use bitvec::slice::BitSlice;

#[test]
fn shift_left_inside_a_range() {
    let mut src = [0x4Bu8, 0xA5];
    let bits = BitSlice::<BigEndian, u8>::from_slice_mut(&mut src).unwrap();
    bits.index_range(BitRange::Closed(2, 14)).unwrap().shl_assign(&mut src, 3);
    assert_eq!(src, [0b01_011_101, 0b001_000_01]);
}

#[test]
fn shift_right_inside_a_range() {
    let mut src = [0x4Bu8, 0xA5];
    let bits = BitSlice::<BigEndian, u8>::from_slice_mut(&mut src).unwrap();
    bits.index_range(BitRange::Closed(2, 14)).unwrap().shr_assign(&mut src, 3);
    assert_eq!(src, [0b01_000_00_1, 0b011_101_01]);
}

#[test]
fn shift_by_zero_changes_nothing() {
    let mut src = [0x4Bu8, 0xA5];
    let bits = BitSlice::<BigEndian, u8>::from_slice_mut(&mut src).unwrap();
    bits.shl_assign(&mut src, 0);
    assert_eq!(src, [0x4B, 0xA5]);
    bits.shr_assign(&mut src, 0);
    assert_eq!(src, [0x4B, 0xA5]);
}

#[test]
fn shift_by_the_length_or_more_clears() {
    for shamt in [12usize, 13, 100, usize::MAX] {
        let mut src = [0xFFu8, 0xFF];
        let bits = BitSlice::<BigEndian, u8>::from_slice_mut(&mut src).unwrap();
        let part = bits.index_range(BitRange::Closed(2, 14)).unwrap();
        part.shl_assign(&mut src, shamt);
        assert!(part.not_any(&src));
        assert_eq!(src, [0xC0, 0x03]);
        let mut src = [0xFFu8, 0xFF];
        part.shr_assign(&mut src, shamt);
        assert!(part.not_any(&src));
        assert_eq!(src, [0xC0, 0x03]);
    }
}

fn by_hand_left(bits: &[bool], by: usize) -> Vec<bool> {
    (0..bits.len()).map(|i| i + by < bits.len() && bits[i + by]).collect()
}

fn by_hand_right(bits: &[bool], by: usize) -> Vec<bool> {
    (0..bits.len()).map(|i| i >= by && bits[i - by]).collect()
}

#[test]
fn whole_elements_shift_as_bits_do() {
    let seed = [0x81u8, 0x42, 0x24, 0x18, 0xFF, 0x01];
    for shamt in 0..=50usize {
        let mut store = seed;
        let bits = BitSlice::<BigEndian, u8>::from_slice_mut(&mut store).unwrap();
        let want = by_hand_left(&bits.to_vec(&seed), shamt);
        bits.shl_assign(&mut store, shamt);
        assert_eq!(bits.to_vec(&store), want);
        let mut store = seed;
        let want = by_hand_right(&bits.to_vec(&seed), shamt);
        bits.shr_assign(&mut store, shamt);
        assert_eq!(bits.to_vec(&store), want);
    }
}

#[test]
fn whole_element_shift_moves_elements() {
    let mut store = [1u16, 2, 3, 4, 5];
    let bits = BitSlice::<LittleEndian, u16>::from_slice_mut(&mut store).unwrap();
    let inner = bits.index_range(BitRange::Closed(16, 80)).unwrap();
    inner.shl_assign(&mut store, 32);
    assert_eq!(store, [1, 4, 5, 0, 0]);
    inner.shr_assign(&mut store, 16);
    assert_eq!(store, [1, 0, 4, 5, 0]);
    // In this ordering a shift towards the front lowers each element's value.
    inner.shl_assign(&mut store, 17);
    assert_eq!(store, [1, 2 | 0x8000, 2, 0, 0]);
}

#[test]
fn partial_views_shift_and_keep_their_surroundings() {
    let seed = [0xDEADu16, 0xBEEF, 0x1234];
    for (start, end) in [(3usize, 45usize), (0, 40), (8, 48), (5, 11), (16, 32)] {
        for shamt in 0..=45usize {
            let mut store = seed;
            let bits = BitSlice::<BigEndian, u16>::from_slice_mut(&mut store).unwrap();
            let part = bits.index_range(BitRange::Closed(start, end)).unwrap();
            let before = bits.to_vec(&seed);
            part.shl_assign(&mut store, shamt);
            let after = bits.to_vec(&store);
            assert_eq!(after[..start], before[..start]);
            assert_eq!(after[end..], before[end..]);
            assert_eq!(after[start..end], by_hand_left(&before[start..end], shamt)[..]);
            let mut store = seed;
            part.shr_assign(&mut store, shamt);
            let after = bits.to_vec(&store);
            assert_eq!(after[..start], before[..start]);
            assert_eq!(after[end..], before[end..]);
            assert_eq!(after[start..end], by_hand_right(&before[start..end], shamt)[..]);
        }
    }
}
