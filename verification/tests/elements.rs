use bitvec::cursor::{BigEndian, LittleEndian};
use bitvec::nucleus::BitAccess;
use bitvec::store::BitStore;

#[test]
fn constants_of_the_element_types() {
    assert_eq!((<u8 as BitStore>::BITS, <u8 as BitStore>::INDX, <u8 as BitStore>::MASK), (8, 3, 7));
    assert_eq!((<u16 as BitStore>::BITS, <u16 as BitStore>::INDX, <u16 as BitStore>::MASK), (16, 4, 15));
    assert_eq!((<u32 as BitStore>::BITS, <u32 as BitStore>::INDX, <u32 as BitStore>::MASK), (32, 5, 31));
    assert_eq!((<u64 as BitStore>::BITS, <u64 as BitStore>::INDX, <u64 as BitStore>::MASK), (64, 6, 63));
    assert_eq!(<u8 as BitStore>::TYPENAME, "u8");
    assert_eq!(<u16 as BitStore>::TYPENAME, "u16");
    assert_eq!(<u32 as BitStore>::TYPENAME, "u32");
    assert_eq!(<u64 as BitStore>::TYPENAME, "u64");
}

#[test]
fn element_count_ones() {
    assert_eq!(BitStore::count_ones(&0u8), 0);
    assert_eq!(BitStore::count_ones(&128u8), 1);
    assert_eq!(BitStore::count_ones(&192u8), 2);
    assert_eq!(BitStore::count_ones(&224u8), 3);
    assert_eq!(BitStore::count_ones(&240u8), 4);
    assert_eq!(BitStore::count_ones(&248u8), 5);
    assert_eq!(BitStore::count_ones(&252u8), 6);
    assert_eq!(BitStore::count_ones(&254u8), 7);
    assert_eq!(BitStore::count_ones(&255u8), 8);
    assert_eq!(BitStore::count_ones(&u64::MAX), 64);
    assert_eq!(BitStore::count_ones(&0x8000_0001u32), 2);
}

#[test]
fn element_count_zeros() {
    assert_eq!(BitStore::count_zeros(&0u8), 8);
    assert_eq!(BitStore::count_zeros(&1u8), 7);
    assert_eq!(BitStore::count_zeros(&3u8), 6);
    assert_eq!(BitStore::count_zeros(&7u8), 5);
    assert_eq!(BitStore::count_zeros(&15u8), 4);
    assert_eq!(BitStore::count_zeros(&31u8), 3);
    assert_eq!(BitStore::count_zeros(&63u8), 2);
    assert_eq!(BitStore::count_zeros(&127u8), 1);
    assert_eq!(BitStore::count_zeros(&255u8), 0);
    assert_eq!(BitStore::count_zeros(&0u16), 16);
    assert_eq!(BitStore::count_zeros(&0u64), 64);
    assert_eq!(BitStore::count_zeros(&0xFFFF_0000u32), 16);
}

#[test]
fn element_filled_with_one_bit() {
    assert_eq!(<u8 as BitStore>::bits(true), 0xFF);
    assert_eq!(<u8 as BitStore>::bits(false), 0);
    assert_eq!(<u16 as BitStore>::bits(true), 0xFFFF);
    assert_eq!(<u32 as BitStore>::bits(true), 0xFFFF_FFFF);
    assert_eq!(<u64 as BitStore>::bits(true), u64::MAX);
    assert_eq!(<u64 as BitStore>::bits(false), 0);
}

#[test]
fn element_widens_and_narrows() {
    assert_eq!(0xABu8.into_raw(), 0xAB);
    assert_eq!(0xABCDu16.into_raw(), 0xABCD);
    assert_eq!(u32::MAX.into_raw(), 0xFFFF_FFFF);
    assert_eq!(u64::MAX.into_raw(), u64::MAX);
    assert_eq!(<u8 as BitStore>::from_raw(0xFF), 0xFFu8);
    assert_eq!(<u16 as BitStore>::from_raw(0x1234), 0x1234u16);
    assert_eq!(<u32 as BitStore>::from_raw(0xDEAD_BEEF), 0xDEAD_BEEFu32);
    assert_eq!(<u64 as BitStore>::from_raw(u64::MAX), u64::MAX);
    assert_eq!(0x0Fu8.complement(), 0xF0);
    assert_eq!(0u16.complement(), 0xFFFF);
    assert_eq!(1u32.complement(), 0xFFFF_FFFE);
    assert_eq!(u64::MAX.complement(), 0);
}

#[test]
fn plain_access_to_one_bit() {
    let mut elt = 0u8;
    elt.set_plain::<BigEndian>(0, true);
    assert_eq!(elt, 0x80);
    elt.set_plain::<LittleEndian>(0, true);
    assert_eq!(elt, 0x81);
    assert!(elt.get_plain::<BigEndian>(7));
    assert!(!elt.get_plain::<BigEndian>(6));
    elt.set_plain::<BigEndian>(0, false);
    assert_eq!(elt, 0x01);
    let mut wide = 0u64;
    wide.set_plain::<BigEndian>(63, true);
    wide.set_plain::<LittleEndian>(63, true);
    assert_eq!(wide, 0x8000_0000_0000_0001);
    assert!(wide.get_plain::<LittleEndian>(0));
    assert!(!wide.get_plain::<LittleEndian>(1));
}

#[test]
fn access_to_whole_bytes() {
    let mut elt = 0b1100_1010u8;
    assert_eq!(BitAccess::load(&elt), 0b1100_1010);
    BitAccess::erase_bits(&mut elt, 0b1111_0000);
    assert_eq!(elt, 0b1100_0000);
    BitAccess::write_bits(&mut elt, 0b0000_0011);
    assert_eq!(elt, 0b1100_0011);
    BitAccess::toggle_bits(&mut elt, 0b1000_0001);
    assert_eq!(elt, 0b0100_0010);
    BitAccess::store(&mut elt, 7);
    assert_eq!(elt, 7);
    assert_eq!(BitAccess::load(&elt), 7);
}

#[test]
fn access_to_whole_half_words() {
    let mut elt = 0xF0F0u16;
    assert_eq!(BitAccess::load(&elt), 0xF0F0);
    BitAccess::erase_bits(&mut elt, 0xFF00);
    assert_eq!(elt, 0xF000);
    BitAccess::write_bits(&mut elt, 0x000F);
    assert_eq!(elt, 0xF00F);
    BitAccess::toggle_bits(&mut elt, 0x8001);
    assert_eq!(elt, 0x700E);
    BitAccess::store(&mut elt, 0xBEEF);
    assert_eq!(elt, 0xBEEF);
}

#[test]
fn access_to_whole_words() {
    let mut elt = 0xF0F0_F0F0u32;
    assert_eq!(BitAccess::load(&elt), 0xF0F0_F0F0);
    BitAccess::erase_bits(&mut elt, 0xFFFF_0000);
    assert_eq!(elt, 0xF0F0_0000);
    BitAccess::write_bits(&mut elt, 0x0000_00FF);
    assert_eq!(elt, 0xF0F0_00FF);
    BitAccess::toggle_bits(&mut elt, 0x8000_0001);
    assert_eq!(elt, 0x70F0_00FE);
    BitAccess::store(&mut elt, 0xDEAD_BEEF);
    assert_eq!(elt, 0xDEAD_BEEF);
}

#[test]
fn access_to_whole_double_words() {
    let mut elt = 0xF0F0_F0F0_F0F0_F0F0u64;
    assert_eq!(BitAccess::load(&elt), 0xF0F0_F0F0_F0F0_F0F0);
    BitAccess::erase_bits(&mut elt, 0xFFFF_FFFF_0000_0000);
    assert_eq!(elt, 0xF0F0_F0F0_0000_0000);
    BitAccess::write_bits(&mut elt, 0xFF);
    assert_eq!(elt, 0xF0F0_F0F0_0000_00FF);
    BitAccess::toggle_bits(&mut elt, 0x8000_0000_0000_0001);
    assert_eq!(elt, 0x70F0_F0F0_0000_00FE);
    BitAccess::store(&mut elt, 42);
    assert_eq!(elt, 42);
}

#[test]
fn access_to_one_bit() {
    let mut elt = 0u8;
    BitAccess::set_bit::<BigEndian>(&mut elt, 1);
    assert_eq!(elt, 0x40);
    BitAccess::set_bit::<LittleEndian>(&mut elt, 1);
    assert_eq!(elt, 0x42);
    assert!(BitAccess::get::<BigEndian>(&elt, 1));
    assert!(!BitAccess::get::<BigEndian>(&elt, 0));
    BitAccess::invert_bit::<BigEndian>(&mut elt, 0);
    assert_eq!(elt, 0xC2);
    BitAccess::invert_bit::<BigEndian>(&mut elt, 1);
    assert_eq!(elt, 0x82);
    BitAccess::clear_bit::<LittleEndian>(&mut elt, 1);
    assert_eq!(elt, 0x80);
    BitAccess::clear_bit::<LittleEndian>(&mut elt, 1);
    assert_eq!(elt, 0x80);
    BitAccess::set::<BigEndian>(&mut elt, 7, true);
    assert_eq!(elt, 0x81);
    BitAccess::set::<BigEndian>(&mut elt, 0, false);
    assert_eq!(elt, 0x01);
}

#[test]
fn access_to_one_bit_of_wide_elements() {
    let mut half = 0u16;
    BitAccess::set::<BigEndian>(&mut half, 0, true);
    BitAccess::set::<LittleEndian>(&mut half, 0, true);
    assert_eq!(half, 0x8001);
    let mut word = u32::MAX;
    BitAccess::set::<BigEndian>(&mut word, 31, false);
    BitAccess::clear_bit::<LittleEndian>(&mut word, 31);
    assert_eq!(word, 0x7FFF_FFFE);
    let mut wide = 0u64;
    BitAccess::invert_bit::<BigEndian>(&mut wide, 32);
    assert_eq!(wide, 0x8000_0000);
    assert!(BitAccess::get::<LittleEndian>(&wide, 31));
    assert!(!BitAccess::get::<LittleEndian>(&wide, 32));
}
