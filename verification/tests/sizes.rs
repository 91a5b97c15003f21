use compression::bits::size_of_bits;

#[test]
fn sizes_in_bits() {
    assert_eq!(size_of_bits::<char>(), 32);
    assert_eq!(size_of_bits::<u8>(), 8);
    assert_eq!(size_of_bits::<u64>(), 64);
}
