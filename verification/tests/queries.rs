use bitvec::cursor::{BigEndian, LittleEndian};
use bitvec::range::BitRange;
use bitvec::slice::BitSlice;

fn be(store: &[u8]) -> BitSlice<BigEndian, u8> {
    BitSlice::<BigEndian, u8>::from_slice(store).unwrap()
}

#[test]
fn from_slice_spans_every_bit() {
    let src = [1u8, 2, 3];
    let bits = be(&src);
    assert_eq!(bits.len(), 24);
    assert!(bits.fits(&src));
    assert_eq!(bits.as_slice(&src).len(), 3);
    assert_eq!(bits.index(&src, 7), Ok(true));
    assert_eq!(bits.index(&src, 14), Ok(true));
    assert_eq!(bits.index(&src, 22), Ok(true));
    assert_eq!(bits.index(&src, 23), Ok(true));
    assert_eq!(bits.index(&src, 0), Ok(false));
}

#[test]
fn little_endian_starts_at_the_low_bit() {
    let mut src = [1u8, 2, 3];
    let bits = BitSlice::<LittleEndian, u8>::from_slice_mut(&mut src).unwrap();
    assert_eq!(bits.index(&src, 0), Ok(true));
    assert_eq!(bits.set(&mut src, 0, false), Ok(()));
    assert_eq!(bits.index(&src, 0), Ok(false));
    assert_eq!(src, [0, 2, 3]);
}

#[test]
fn from_element_is_one_whole_element() {
    let elt: u8 = !0;
    let bits = BitSlice::<LittleEndian, u8>::from_element(&elt);
    assert_eq!(bits.len(), 8);
    assert!(bits.all(&[elt]));
    let wide: u64 = 1 << 63;
    let bits = BitSlice::<BigEndian, u64>::from_element(&wide);
    assert_eq!(bits.len(), 64);
    assert_eq!(bits.index(&[wide], 0), Ok(true));
    assert_eq!(bits.count_ones(&[wide]), 1);
}

#[test]
fn from_element_mut_can_be_written() {
    let mut elt: u8 = !0;
    let bits = BitSlice::<LittleEndian, u8>::from_element_mut(&mut elt);
    let mut store = [elt];
    assert_eq!(bits.set(&mut store, 0, false), Ok(()));
    assert!(!bits.all(&store));
    assert_eq!(store[0], 0xFE);
}

#[test]
fn empty_view_queries() {
    let store: [u8; 0] = [];
    let bits = BitSlice::<BigEndian, u8>::empty();
    assert_eq!(bits.len(), 0);
    assert!(bits.is_empty());
    assert!(bits.all(&store));
    assert!(!bits.any(&store));
    assert!(!bits.some(&store));
    assert!(!bits.not_all(&store));
    assert!(bits.not_any(&store));
    assert_eq!(bits.count_ones(&store), 0);
    assert_eq!(bits.count_zeros(&store), 0);
    let same = BitSlice::<BigEndian, u8>::empty_mut();
    assert_eq!(same.len(), 0);
    assert!(same.all(&[7u8]));
}

#[test]
fn all_on_ranges() {
    let src = [0xFDu8];
    let bits = be(&src);
    assert!(bits.index_range(BitRange::To(4)).unwrap().all(&src));
    assert!(!bits.index_range(BitRange::From(4)).unwrap().all(&src));
    assert!(!bits.index_range(BitRange::To(4)).unwrap().not_all(&src));
    assert!(bits.index_range(BitRange::From(4)).unwrap().not_all(&src));
}

#[test]
fn any_on_ranges() {
    let src = [0x40u8];
    let bits = be(&src);
    assert!(bits.index_range(BitRange::To(4)).unwrap().any(&src));
    assert!(!bits.index_range(BitRange::From(4)).unwrap().any(&src));
    assert!(!bits.index_range(BitRange::To(4)).unwrap().not_any(&src));
    assert!(bits.index_range(BitRange::From(4)).unwrap().not_any(&src));
}

#[test]
fn some_on_ranges() {
    let src = [0b111_000_10u8];
    let bits = be(&src);
    assert!(!bits.index_range(BitRange::Closed(0, 3)).unwrap().some(&src));
    assert!(!bits.index_range(BitRange::Closed(3, 6)).unwrap().some(&src));
    assert!(bits.index_range(BitRange::From(6)).unwrap().some(&src));
}

#[test]
fn counts_over_two_elements() {
    let src = [0xFDu8, 0x25];
    let bits = be(&src);
    assert_eq!(bits.count_ones(&src), 10);
    assert_eq!(bits.count_zeros(&src), 6);
}

#[test]
fn counts_add_up_on_every_range() {
    let src = [0xA7u16, 0x00FF, 0x8001, 0xFFFF];
    let bits = BitSlice::<LittleEndian, u16>::from_slice(&src).unwrap();
    for start in 0..=64usize {
        for end in start..=64usize {
            let part = bits.index_range(BitRange::Closed(start, end)).unwrap();
            let ones = part.count_ones(&src);
            let zeros = part.count_zeros(&src);
            assert_eq!(ones + zeros, part.len());
            let by_hand = part.to_vec(&src).iter().filter(|b| **b).count();
            assert_eq!(ones, by_hand);
            assert_eq!(part.all(&src), zeros == 0);
            assert_eq!(part.any(&src), ones != 0);
        }
    }
}

#[test]
fn counts_through_every_shape() {
    let src = [0xFFFF_0000u32, 0x0F0F_0F0F, 0x8000_0001];
    let bits = BitSlice::<BigEndian, u32>::from_slice(&src).unwrap();
    // inside one element
    assert_eq!(bits.index_range(BitRange::Closed(12, 20)).unwrap().count_ones(&src), 4);
    // from inside one element into the next, no whole element between
    assert_eq!(bits.index_range(BitRange::Closed(30, 36)).unwrap().count_ones(&src), 0);
    // across a whole element
    assert_eq!(bits.index_range(BitRange::Closed(16, 65)).unwrap().count_ones(&src), 17);
    // to the end of an element
    assert_eq!(bits.index_range(BitRange::Closed(8, 64)).unwrap().count_ones(&src), 24);
    // from the start of an element
    assert_eq!(bits.index_range(BitRange::Closed(32, 65)).unwrap().count_ones(&src), 17);
    // whole elements
    assert_eq!(bits.index_range(BitRange::Closed(32, 96)).unwrap().count_ones(&src), 18);
    assert_eq!(bits.index_range(BitRange::Closed(32, 96)).unwrap().count_zeros(&src), 46);
}

#[test]
fn point_reads_report_out_of_range() {
    let src = [0b0010_0000u8];
    let bits = be(&src);
    assert_eq!(bits.index(&src, 2), Ok(true));
    assert_eq!(bits.index(&src, 3), Ok(false));
    assert_eq!(bits.index(&src, 8), Err(bitvec::error::BitError::IndexOutOfRange));
    assert_eq!(bits.get(&src, 2), Some(true));
    assert_eq!(bits.get(&src, 8), None);
    assert!(bits.get_unchecked(&src, 2));
}

#[test]
fn to_vec_reads_in_view_order() {
    let src = [0b1010_0000u8];
    let bits = be(&src);
    assert_eq!(
        bits.to_vec(&src),
        vec![true, false, true, false, false, false, false, false]
    );
    let bits = BitSlice::<LittleEndian, u8>::from_slice(&src).unwrap();
    assert_eq!(
        bits.to_vec(&src),
        vec![false, false, false, false, false, true, false, true]
    );
}
