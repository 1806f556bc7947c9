use bitvec::cursor::{BigEndian, LittleEndian};
use bitvec::error::BitError;
use bitvec::range::BitRange;
use bitvec::slice::BitSlice;

#[test]
fn ranges_in_every_shape() {
    let store = [0u8; 4];
    let bits = BitSlice::<BigEndian, u8>::from_slice(&store).unwrap();
    let parts = |range| bits.index_range(range).unwrap().bitptr().raw_parts();
    assert_eq!(parts(BitRange::Closed(3, 20)), (0, 3, 17));
    assert_eq!(parts(BitRange::Closed(8, 9)), (1, 0, 1));
    assert_eq!(parts(BitRange::Inclusive(3, 19)), (0, 3, 17));
    assert_eq!(parts(BitRange::From(13)), (1, 5, 19));
    assert_eq!(parts(BitRange::To(13)), (0, 0, 13));
    assert_eq!(parts(BitRange::ToInclusive(12)), (0, 0, 13));
    assert_eq!(parts(BitRange::Full), (0, 0, 32));
    assert_eq!(parts(BitRange::Closed(32, 32)), (4, 0, 0));
    assert_eq!(parts(BitRange::Inclusive(9, usize::MAX)), (1, 1, 23));
    assert_eq!(parts(BitRange::ToInclusive(usize::MAX)), (0, 0, 32));
}

#[test]
fn ranges_of_ranges() {
    let store = [0u16; 4];
    let bits = BitSlice::<LittleEndian, u16>::from_slice(&store).unwrap();
    let part = bits.index_range(BitRange::Closed(10, 60)).unwrap();
    let inner = part.index_range(BitRange::Closed(8, 30)).unwrap();
    assert_eq!(inner.bitptr().raw_parts(), (1, 2, 22));
    assert_eq!(inner.get_range_unchecked(22, 22).len(), 0);
}

#[test]
fn ranges_that_do_not_lie_inside() {
    let store = [0u8; 2];
    let bits = BitSlice::<BigEndian, u8>::from_slice(&store).unwrap();
    for range in [
        BitRange::Closed(5, 4),
        BitRange::Closed(0, 17),
        BitRange::Closed(17, 17),
        BitRange::Inclusive(0, 16),
        BitRange::Inclusive(5, 3),
        BitRange::From(17),
        BitRange::To(17),
        BitRange::ToInclusive(16),
    ] {
        assert_eq!(bits.index_range(range).err(), Some(BitError::InvalidRange));
        assert_eq!(range.normalize(16), Err(BitError::InvalidRange));
    }
    assert_eq!(BitRange::Inclusive(4, 3).normalize(16), Ok((4, 4)));
    assert_eq!(BitRange::Full.normalize(0), Ok((0, 0)));
}

#[test]
fn split_in_the_middle() {
    let store = [0b1010_0100u8];
    let bits = BitSlice::<BigEndian, u8>::from_slice(&store).unwrap();
    let (a, rest) = bits.split_at_unchecked(2);
    let (b, rest) = rest.split_at_unchecked(3);
    assert_eq!(a.to_vec(&store), [true, false]);
    assert_eq!(b.to_vec(&store), [true, false, false]);
    assert_eq!(rest.to_vec(&store), [true, false, false]);
}

#[test]
fn split_halves_are_written_apart() {
    let mut store = [0u8];
    let mut bits = BitSlice::<BigEndian, u8>::from_slice_mut(&mut store).unwrap();
    let (a, mut rest) = bits.split_at_mut_unchecked(2);
    let (b, rest) = rest.split_at_mut_unchecked(3);
    let mut guard = a.at(&store, 0).unwrap();
    guard.set(true);
    guard.commit(&mut store);
    let mut guard = b.at(&store, 0).unwrap();
    guard.set(true);
    guard.commit(&mut store);
    let mut guard = rest.at(&store, 0).unwrap();
    guard.set(true);
    guard.commit(&mut store);
    assert_eq!(store[0], 0b1010_0100);
    assert_eq!(bits.len(), 8);
}

#[test]
fn split_at_the_ends() {
    let store = [0xFFu8, 0];
    let bits = BitSlice::<BigEndian, u8>::from_slice(&store)
        .unwrap()
        .index_range(BitRange::Closed(4, 12))
        .unwrap();
    let (left, right) = bits.split_at_unchecked(0);
    assert_eq!(left.bitptr().raw_parts(), (0, 0, 0));
    assert_eq!(right.bitptr().raw_parts(), (0, 4, 8));
    let (left, right) = bits.split_at_unchecked(8);
    assert_eq!(left.bitptr().raw_parts(), (0, 4, 8));
    assert_eq!(right.bitptr().raw_parts(), (0, 0, 0));
    let (left, right) = bits.split_at(4).unwrap();
    assert_eq!(left.bitptr().raw_parts(), (0, 4, 4));
    assert_eq!(right.bitptr().raw_parts(), (1, 0, 4));
    assert!(left.all(&store));
    assert!(right.not_any(&store));
    assert_eq!(bits.split_at(9).err(), Some(BitError::IndexOutOfRange));
    let nothing = BitSlice::<BigEndian, u8>::empty();
    let (left, right) = nothing.split_at(0).unwrap();
    assert!(left.is_empty() && right.is_empty());
}

#[test]
fn body_leaves_the_edges_out() {
    let src = [1u8, 66];
    let bits = BitSlice::<BigEndian, u8>::from_slice(&src).unwrap();
    let ones: u32 = bits.as_slice(&src).iter().map(|elt| elt.count_ones()).sum();
    assert_eq!(ones, 3);
    let store = [1u8, 2, 3, 4, 5];
    let bits = BitSlice::<BigEndian, u8>::from_slice(&store).unwrap();
    let body = |start, end| bits.index_range(BitRange::Closed(start, end)).unwrap().as_slice(&store).to_vec();
    assert_eq!(body(0, 40), [1, 2, 3, 4, 5]);
    assert_eq!(body(3, 40), [2, 3, 4, 5]);
    assert_eq!(body(0, 37), [1, 2, 3, 4]);
    assert_eq!(body(3, 37), [2, 3, 4]);
    assert_eq!(body(8, 16), [2]);
    assert_eq!(body(9, 15), [] as [u8; 0]);
    assert_eq!(body(9, 17), [] as [u8; 0]);
    assert_eq!(body(12, 12), [] as [u8; 0]);
}

#[test]
fn body_can_be_written() {
    let mut src = [1u8, 64];
    let bits = BitSlice::<BigEndian, u8>::from_slice_mut(&mut src).unwrap();
    for elt in bits.as_mut_slice(&mut src) {
        *elt |= 2;
    }
    assert_eq!(bits.as_slice(&src), &[3, 66]);
    let mut store = [0u8; 4];
    let bits = BitSlice::<BigEndian, u8>::from_slice_mut(&mut store).unwrap();
    let part = bits.index_range(BitRange::Closed(5, 27)).unwrap();
    for elt in part.as_mut_slice(&mut store) {
        *elt = 0xAA;
    }
    assert_eq!(store, [0, 0xAA, 0xAA, 0]);
    assert!(BitSlice::<BigEndian, u8>::empty().as_mut_slice(&mut store).is_empty());
}

#[test]
fn total_slice_takes_the_edges_in() {
    let store = [1u8, 2, 3, 4, 5];
    let bits = BitSlice::<BigEndian, u8>::from_slice(&store).unwrap();
    let total = |start, end| {
        bits.index_range(BitRange::Closed(start, end)).unwrap().as_total_slice(&store).to_vec()
    };
    assert_eq!(total(0, 40), [1, 2, 3, 4, 5]);
    assert_eq!(total(3, 37), [1, 2, 3, 4, 5]);
    assert_eq!(total(9, 15), [2]);
    assert_eq!(total(9, 17), [2, 3]);
    assert_eq!(total(16, 24), [3]);
    assert_eq!(total(12, 12), [] as [u8; 0]);
}

#[test]
fn guard_commits_what_it_holds() {
    let mut src = [0u8];
    let bits = BitSlice::<BigEndian, u8>::from_slice_mut(&mut src).unwrap();
    let mut guard = bits.at(&src, 0).unwrap();
    assert!(!*guard.deref());
    guard.set(true);
    assert!(*guard.deref());
    assert_eq!(src[0], 0);
    guard.commit(&mut src);
    assert_eq!(src[0], 0x80);
    assert_eq!(bits.index(&src, 0), Ok(true));
}

#[test]
fn guard_commits_even_when_unchanged() {
    let mut src = [0b0001_0000u8, 0];
    let bits = BitSlice::<BigEndian, u8>::from_slice_mut(&mut src).unwrap();
    let guard = bits.at_unchecked(&src, 3);
    assert!(*guard.deref());
    // the bit changes under the guard; the guard writes its own value back
    bits.set(&mut src, 3, false).unwrap();
    guard.commit(&mut src);
    assert_eq!(src, [0b0001_0000, 0]);
    let mut guard = bits.at(&src, 12).unwrap();
    guard.set(true);
    guard.set(false);
    guard.set(true);
    guard.commit(&mut src);
    assert_eq!(src, [0b0001_0000, 0b0000_1000]);
}

#[test]
fn guard_refuses_an_index_past_the_view() {
    let src = [0u8];
    let bits = BitSlice::<BigEndian, u8>::from_slice(&src)
        .unwrap()
        .index_range(BitRange::To(5))
        .unwrap();
    assert!(bits.at(&src, 4).is_ok());
    assert_eq!(bits.at(&src, 5).err(), Some(BitError::IndexOutOfRange));
    assert_eq!(bits.at(&src, usize::MAX).err(), Some(BitError::IndexOutOfRange));
}

#[test]
fn view_fits_its_buffer_only() {
    let store = [0u32; 3];
    let bits = BitSlice::<LittleEndian, u32>::from_slice(&store).unwrap();
    assert!(bits.fits(&store));
    assert!(!bits.fits(&store[..2]));
    assert!(bits.index_range(BitRange::To(64)).unwrap().fits(&store[..2]));
    assert!(!bits.index_range(BitRange::To(65)).unwrap().fits(&store[..2]));
    assert!(BitSlice::<LittleEndian, u32>::empty().fits(&[]));
}
