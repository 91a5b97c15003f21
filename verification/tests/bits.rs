use compression::bits::{bit_of_byte, u32_from_be, u32_to_be, BitWriter, Bits};

#[test]
fn new_bits_are_empty() {
    let bits = Bits::new();
    assert_eq!(bits.len(), 0);
    assert_eq!(bits.get(0), None);
    assert_eq!(bits.to_bools(), Vec::<bool>::new());
}

#[test]
fn bools_round_trip() {
    let bools = [true, false, false, true, true];
    let bits = Bits::from_bools(&bools);
    assert_eq!(bits.len(), 5);
    assert_eq!(bits.get(0), Some(true));
    assert_eq!(bits.get(1), Some(false));
    assert_eq!(bits.get(4), Some(true));
    assert_eq!(bits.get(5), None);
    assert_eq!(bits.to_bools(), bools.to_vec());
}

#[test]
fn extended_appends_and_leaves_the_source() {
    let bits = Bits::from_bools(&[true, false]);
    let longer = bits.extended(true);
    assert_eq!(longer.to_bools(), vec![true, false, true]);
    assert_eq!(bits.to_bools(), vec![true, false]);
}

#[test]
fn pack_is_most_significant_bit_first_with_cleared_padding() {
    let bits = Bits::from_bools(&[true, false, true, true, false, false, false, false, true, true]);
    assert_eq!(bits.pack(), vec![0b1011_0000, 0b1100_0000]);
    assert_eq!(Bits::new().pack(), Vec::<u8>::new());
    assert_eq!(Bits::from_bools(&[true; 8]).pack(), vec![0xFF]);
}

#[test]
fn unpack_drops_the_padding() {
    let bits = Bits::unpack(&[0b1011_0000, 0b1100_0000], 6);
    assert_eq!(
        bits.to_bools(),
        vec![true, false, true, true, false, false, false, false, true, true]
    );
    assert_eq!(Bits::unpack(&[0xA5], 0).len(), 8);
    assert_eq!(Bits::unpack(&[0xA5], 7).to_bools(), vec![true]);
    assert_eq!(Bits::unpack(&[], 3).len(), 0);
}

#[test]
fn unpack_undoes_pack() {
    let bools = [false, true, true, false, true, false, true, true, true, false, false];
    let bytes = Bits::from_bools(&bools).pack();
    assert_eq!(bytes.len(), 2);
    assert_eq!(Bits::unpack(&bytes, 5).to_bools(), bools.to_vec());
}

#[test]
fn bits_of_a_byte_count_from_the_top() {
    assert!(bit_of_byte(0b1000_0000, 0));
    assert!(!bit_of_byte(0b1000_0000, 1));
    assert!(bit_of_byte(0b0000_0001, 7));
    assert!(!bit_of_byte(0b1111_1110, 7));
    assert!(bit_of_byte(0b0001_0000, 3));
}

#[test]
fn big_endian_bytes() {
    assert_eq!(u32_to_be(0x0102_0304), [1, 2, 3, 4]);
    assert_eq!(u32_to_be(0x61), [0, 0, 0, 0x61]);
    assert_eq!(u32_from_be(1, 2, 3, 4), 0x0102_0304);
    assert_eq!(u32_from_be(0xFF, 0xFF, 0xFF, 0xFF), u32::MAX);
}

#[test]
fn writer_reports_the_padding() {
    let mut w = BitWriter::new();
    for bit in [true, true, true, false, true, false, true, false, false] {
        w.push(bit);
    }
    assert_eq!(w.finish(), (vec![0xEA, 0x00], 7));
    let mut w = BitWriter::new();
    for _ in 0..16 {
        w.push(true);
    }
    assert_eq!(w.finish(), (vec![0xFF, 0xFF], 0));
    assert_eq!(BitWriter::new().finish(), (Vec::<u8>::new(), 0));
}
