use compression::error::CodecError;
use compression::letter::HuffLetterAsBytes;

#[test]
fn a_symbol_is_its_code_point_in_four_bytes() {
    assert_eq!('a'.as_be_bytes(), vec![0, 0, 0, 0x61]);
    assert_eq!('€'.as_be_bytes(), vec![0, 0, 0x20, 0xAC]);
    assert_eq!('\u{10FFFF}'.as_be_bytes(), vec![0, 0x10, 0xFF, 0xFF]);
}

#[test]
fn four_bytes_of_a_code_point_are_a_symbol() {
    assert_eq!(char::try_from_be_bytes(&[0, 0, 0, 0x61]), Ok('a'));
    assert_eq!(char::try_from_be_bytes(&[0, 1, 0xF6, 0x42]), Ok('🙂'));
}

#[test]
fn other_bytes_are_no_symbol() {
    assert_eq!(char::try_from_be_bytes(&[0, 0, 0x61]), Err(CodecError::MalformedTree));
    assert_eq!(char::try_from_be_bytes(&[0, 0, 0, 0, 0x61]), Err(CodecError::MalformedTree));
    assert_eq!(char::try_from_be_bytes(&[0, 0, 0xD8, 0x00]), Err(CodecError::MalformedTree));
    assert_eq!(char::try_from_be_bytes(&[0, 0x11, 0, 0]), Err(CodecError::MalformedTree));
    assert_eq!(char::try_from_be_bytes(&[0x61, 0, 0, 0]), Err(CodecError::MalformedTree));
}
