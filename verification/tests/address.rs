use bitvec::cursor::{BigEndian, Cursor, LittleEndian, Local};
use bitvec::domain::BitDomain;
use bitvec::error::BitError;
use bitvec::pointer::{offset, BitPtr, MAX_BITS};
use bitvec::store::BitStore;

#[test]
fn address_gives_its_parts_back() {
    for (base, head, len) in [(0usize, 0u8, 0usize), (5, 3, 17), (1, 7, 1), (9, 0, 64), (0, 7, 1000)] {
        let ptr = BitPtr::<u8>::new(base, head, len).unwrap();
        assert_eq!(ptr.raw_parts(), (base, head, len));
        assert_eq!(ptr.base(), base);
        assert_eq!(ptr.head(), head);
        assert_eq!(ptr.len(), len);
    }
    for head in 0..64u8 {
        let ptr = BitPtr::<u64>::new(12345, head, 777).unwrap();
        assert_eq!(ptr.raw_parts(), (12345, head, 777));
    }
    for head in 0..32u8 {
        let ptr = BitPtr::<u32>::new(3, head, 0).unwrap();
        assert_eq!(ptr.raw_parts(), (3, head, 0));
    }
    for head in 0..16u8 {
        let ptr = BitPtr::<u16>::new(usize::MAX / 4, head, 5).unwrap();
        assert_eq!(ptr.raw_parts(), (usize::MAX / 4, head, 5));
    }
}

#[test]
fn address_is_two_words() {
    assert_eq!(
        std::mem::size_of::<BitPtr<u8>>(),
        2 * std::mem::size_of::<usize>()
    );
    assert_eq!(
        std::mem::size_of::<BitPtr<u64>>(),
        std::mem::size_of::<&[u64]>()
    );
    assert_eq!(
        std::mem::size_of::<bitvec::slice::BitSlice<BigEndian, u32>>(),
        std::mem::size_of::<&[u32]>()
    );
}

#[test]
fn address_refuses_a_head_past_the_element() {
    assert_eq!(BitPtr::<u8>::new(0, 8, 1).err(), Some(BitError::HeadOutOfRange));
    assert_eq!(BitPtr::<u16>::new(0, 16, 1).err(), Some(BitError::HeadOutOfRange));
    assert_eq!(BitPtr::<u32>::new(0, 32, 0).err(), Some(BitError::HeadOutOfRange));
    assert_eq!(BitPtr::<u64>::new(0, 64, usize::MAX).err(), Some(BitError::HeadOutOfRange));
    assert_eq!(BitPtr::<u64>::validate(0, 255, 0), Err(BitError::HeadOutOfRange));
    assert!(BitPtr::<u8>::new(0, 7, 1).is_ok());
    assert!(BitPtr::<u64>::new(0, 63, 1).is_ok());
}

#[test]
fn address_refuses_more_than_it_can_hold() {
    assert_eq!(MAX_BITS, usize::MAX >> 3);
    assert!(BitPtr::<u8>::new(0, 0, MAX_BITS).is_ok());
    assert_eq!(BitPtr::<u8>::new(0, 0, MAX_BITS + 1).err(), Some(BitError::CapacityExceeded));
    assert_eq!(BitPtr::<u8>::new(0, 0, usize::MAX).err(), Some(BitError::CapacityExceeded));
    // the last bit would lie in one element more than an address reaches into
    assert_eq!(BitPtr::<u8>::max_elts(), (MAX_BITS >> 3) + 1);
    assert_eq!(BitPtr::<u64>::max_elts(), (MAX_BITS >> 6) + 1);
    assert_eq!(BitPtr::<u8>::new(0, 7, MAX_BITS).err(), Some(BitError::CapacityExceeded));
    assert!(BitPtr::<u8>::new(0, 7, MAX_BITS - 6).is_ok());
    // the elements would lie past what an offset in bytes can name
    assert_eq!(BitPtr::<u8>::new(usize::MAX, 0, 8).err(), Some(BitError::CapacityExceeded));
    assert!(BitPtr::<u8>::new(usize::MAX - 1, 0, 8).is_ok());
    assert_eq!(BitPtr::<u64>::new(usize::MAX / 8, 0, 1).err(), Some(BitError::CapacityExceeded));
    assert!(BitPtr::<u64>::new(usize::MAX / 8 - 1, 0, 64).is_ok());
    assert_eq!(BitPtr::<u64>::new(usize::MAX / 8 + 1, 0, 0).err(), Some(BitError::CapacityExceeded));
}

#[test]
fn element_count_rounds_up() {
    let count = |head: u8, len: usize| BitPtr::<u8>::new(0, head, len).unwrap().elements();
    assert_eq!(count(0, 0), 0);
    assert_eq!(count(0, 1), 1);
    assert_eq!(count(0, 8), 1);
    assert_eq!(count(0, 9), 2);
    assert_eq!(count(7, 1), 1);
    assert_eq!(count(7, 2), 2);
    assert_eq!(count(3, 13), 2);
    assert_eq!(count(3, 14), 3);
    // by the formula, an empty span with a head inside an element counts one
    assert_eq!(count(3, 0), 1);
    let wide = BitPtr::<u64>::new(2, 63, 66).unwrap();
    assert_eq!(wide.elements(), 3);
    assert_eq!(wide.tail(), 1);
}

#[test]
fn tail_is_the_place_after_the_last_bit() {
    let tail = |head: u8, len: usize| BitPtr::<u8>::new(0, head, len).unwrap().tail();
    assert_eq!(tail(0, 0), 0);
    assert_eq!(tail(5, 0), 5);
    assert_eq!(tail(0, 1), 1);
    assert_eq!(tail(0, 8), 8);
    assert_eq!(tail(0, 9), 1);
    assert_eq!(tail(3, 5), 8);
    assert_eq!(tail(3, 6), 1);
}

#[test]
fn fits_compares_with_the_buffer() {
    let ptr = BitPtr::<u16>::new(2, 5, 30).unwrap();
    assert!(!ptr.fits(3));
    assert!(!ptr.fits(4));
    assert!(ptr.fits(5));
    assert!(ptr.fits(6));
    let ends = BitPtr::<u16>::new(2, 0, 32).unwrap();
    assert!(ends.fits(4));
    assert!(!ends.fits(3));
    let nothing = BitPtr::<u16>::new(4, 0, 0).unwrap();
    assert!(nothing.fits(4));
    assert!(!nothing.fits(3));
    assert!(BitPtr::<u16>::empty().fits(0));
}

#[test]
fn offset_steps_over_elements() {
    assert_eq!(offset::<u8>(0, 0), (0, 0));
    assert_eq!(offset::<u8>(3, 4), (0, 7));
    assert_eq!(offset::<u8>(3, 5), (1, 0));
    assert_eq!(offset::<u8>(3, 13), (2, 0));
    assert_eq!(offset::<u8>(7, 100), (13, 3));
    assert_eq!(offset::<u32>(31, 1), (1, 0));
    assert_eq!(offset::<u64>(1, 640), (10, 1));
}

#[test]
fn offset_steps_back_over_elements() {
    assert_eq!(offset::<u8>(3, -3), (0, 0));
    assert_eq!(offset::<u8>(3, -4), (-1, 7));
    assert_eq!(offset::<u8>(0, -1), (-1, 7));
    assert_eq!(offset::<u8>(0, -8), (-1, 0));
    assert_eq!(offset::<u8>(0, -9), (-2, 7));
    assert_eq!(offset::<u16>(5, -100), (-6, 1));
    assert_eq!(offset::<u64>(63, -64), (-1, 63));
    assert_eq!(offset::<u64>(63, -128), (-2, 63));
    assert_eq!(offset::<u64>(63, -63), (0, 0));
}

#[test]
fn offset_at_the_ends_of_the_range() {
    let (elts, head) = offset::<u8>(7, isize::MAX);
    assert_eq!(elts as i128 * 8 + head as i128, isize::MAX as i128 + 7);
    let (elts, head) = offset::<u8>(0, isize::MIN);
    assert_eq!(elts as i128 * 8 + head as i128, isize::MIN as i128);
    let (elts, head) = offset::<u64>(63, isize::MIN);
    assert_eq!(elts as i128 * 64 + head as i128, isize::MIN as i128 + 63);
    assert!(head < 64);
    for by in -200isize..200 {
        for head in 0..16u8 {
            let (elts, new) = offset::<u16>(head, by);
            assert!(new < 16);
            assert_eq!(elts * 16 + new as isize, head as isize + by);
        }
    }
}

fn domain(base: usize, head: u8, len: usize) -> BitDomain {
    BitPtr::<u8>::new(base, head, len).unwrap().domain()
}

#[test]
fn domain_of_nothing_is_empty() {
    assert!(matches!(domain(0, 0, 0), BitDomain::Empty));
    assert!(matches!(domain(4, 5, 0), BitDomain::Empty));
    assert!(!domain(0, 0, 0).is_spanning());
}

#[test]
fn domain_inside_one_element_is_minor() {
    assert!(matches!(domain(2, 3, 2), BitDomain::Minor(3, 2, 5)));
    assert!(matches!(domain(0, 1, 6), BitDomain::Minor(1, 0, 7)));
    assert!(matches!(domain(0, 6, 1), BitDomain::Minor(6, 0, 7)));
}

#[test]
fn domain_over_two_partial_elements_is_major_with_no_body() {
    match domain(2, 3, 8) {
        BitDomain::Major(h, head, body, tail, t) => {
            assert_eq!((h, head, tail, t), (3, 2, 3, 3));
            assert_eq!(body, 3..3);
        }
        _ => panic!("not major"),
    }
    match domain(1, 7, 2) {
        BitDomain::Major(h, head, body, tail, t) => {
            assert_eq!((h, head, tail, t), (7, 1, 2, 1));
            assert!(body.is_empty());
        }
        _ => panic!("not major"),
    }
}

#[test]
fn domain_over_partial_ends_is_major() {
    match domain(1, 5, 30) {
        BitDomain::Major(h, head, body, tail, t) => {
            assert_eq!((h, head, tail, t), (5, 1, 5, 3));
            assert_eq!(body, 2..5);
        }
        _ => panic!("not major"),
    }
}

#[test]
fn domain_to_the_end_of_an_element_is_partial_head() {
    match domain(1, 5, 19) {
        BitDomain::PartialHead(h, head, body) => {
            assert_eq!((h, head), (5, 1));
            assert_eq!(body, 2..4);
        }
        _ => panic!("not partial head"),
    }
    match domain(1, 5, 3) {
        BitDomain::PartialHead(h, head, body) => {
            assert_eq!((h, head), (5, 1));
            assert_eq!(body, 2..2);
        }
        _ => panic!("not partial head"),
    }
}

#[test]
fn domain_from_the_start_of_an_element_is_partial_tail() {
    match domain(1, 0, 19) {
        BitDomain::PartialTail(body, tail, t) => {
            assert_eq!((tail, t), (3, 3));
            assert_eq!(body, 1..3);
        }
        _ => panic!("not partial tail"),
    }
    match domain(1, 0, 3) {
        BitDomain::PartialTail(body, tail, t) => {
            assert_eq!((tail, t), (1, 3));
            assert_eq!(body, 1..1);
        }
        _ => panic!("not partial tail"),
    }
}

#[test]
fn domain_of_whole_elements_is_spanning() {
    match domain(1, 0, 24) {
        BitDomain::Spanning(body) => assert_eq!(body, 1..4),
        _ => panic!("not spanning"),
    }
    assert!(domain(0, 0, 8).is_spanning());
    assert!(!domain(0, 0, 7).is_spanning());
    assert!(!domain(0, 1, 7).is_spanning());
}

fn cells(domain: &BitDomain, width: u8) -> Vec<(usize, u8)> {
    let edge = |elt: usize, from: u8, to: u8| (from..to).map(move |p| (elt, p));
    let whole = |body: &std::ops::Range<usize>| {
        body.clone().flat_map(move |e| (0..width).map(move |p| (e, p))).collect::<Vec<_>>()
    };
    match domain {
        BitDomain::Empty => vec![],
        BitDomain::Minor(h, e, t) => edge(*e, *h, *t).collect(),
        BitDomain::Major(h, head, body, tail, t) => edge(*head, *h, width)
            .chain(whole(body))
            .chain(edge(*tail, 0, *t))
            .collect(),
        BitDomain::PartialHead(h, head, body) => edge(*head, *h, width).chain(whole(body)).collect(),
        BitDomain::PartialTail(body, tail, t) => whole(body).into_iter().chain(edge(*tail, 0, *t)).collect(),
        BitDomain::Spanning(body) => whole(body),
    }
}

#[test]
fn domain_names_every_bit_once() {
    for head in 0..16u8 {
        for len in 0..70usize {
            let ptr = BitPtr::<u16>::new(3, head, len).unwrap();
            let want: Vec<(usize, u8)> = (0..len)
                .map(|i| (3 + (head as usize + i) / 16, ((head as usize + i) % 16) as u8))
                .collect();
            assert_eq!(cells(&ptr.domain(), 16), want);
        }
    }
}

#[test]
fn cursors_number_the_bits_from_either_end() {
    assert_eq!(BigEndian::at(0, 8), 7);
    assert_eq!(BigEndian::at(7, 8), 0);
    assert_eq!(BigEndian::at(0, 64), 63);
    assert_eq!(BigEndian::at(5, 16), 10);
    assert_eq!(LittleEndian::at(0, 8), 0);
    assert_eq!(LittleEndian::at(7, 8), 7);
    assert_eq!(LittleEndian::at(31, 32), 31);
    assert_eq!(Local::at(3, 8), LittleEndian::at(3, 8));
}

#[test]
fn masks_are_one_hot_and_all_different() {
    fn sweep<C: Cursor, T: BitStore + PartialEq + std::fmt::Debug>() {
        let mut seen: Vec<u64> = Vec::new();
        for place in 0..T::BITS {
            let mask = T::mask::<C>(place).into_raw();
            assert_eq!(mask.count_ones(), 1);
            assert!(!seen.contains(&mask));
            seen.push(mask);
        }
        assert_eq!(seen.len(), T::BITS as usize);
        assert_eq!(seen.iter().fold(0, |a, m| a | m), T::bits(true).into_raw());
    }
    sweep::<BigEndian, u8>();
    sweep::<LittleEndian, u8>();
    sweep::<BigEndian, u16>();
    sweep::<LittleEndian, u16>();
    sweep::<BigEndian, u32>();
    sweep::<LittleEndian, u32>();
    sweep::<BigEndian, u64>();
    sweep::<LittleEndian, u64>();
    assert_eq!(<u8 as BitStore>::mask::<BigEndian>(0), 0x80);
    assert_eq!(<u8 as BitStore>::mask::<LittleEndian>(0), 0x01);
    assert_eq!(<u32 as BitStore>::mask::<BigEndian>(1), 0x4000_0000);
}
