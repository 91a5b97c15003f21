use compression::container::{compress, decompress};
use compression::error::{CodecError, HeaderFault};

#[test]
fn aaabbc_round_trip() {
    let bytes = compress("aaabbc");
    assert_eq!(decompress(&bytes).unwrap(), "aaabbc");
}

#[test]
fn aaabbc_container_bytes() {
    let bytes = compress("aaabbc");
    // tree: 1 1 0 'c' 0 'b' 0 'a' = 101 bits in 13 bytes, 3 bits unused;
    // data: 1 1 1 01 01 00 = 9 bits in 2 bytes, 7 bits unused
    assert_eq!(bytes.len(), 20);
    assert_eq!(bytes[0], 0x37);
    assert_eq!(&bytes[1..5], &[0, 0, 0, 13]);
    assert_eq!(
        &bytes[5..18],
        &[0xC0, 0x00, 0x00, 0x0C, 0x60, 0x00, 0x00, 0x06, 0x20, 0x00, 0x00, 0x03, 0x08]
    );
    assert_eq!(&bytes[18..], &[0xEA, 0x00]);
}

#[test]
fn declared_tree_length_is_the_length_of_the_tree() {
    for text in ["aaabbc", "a", "hello, world", "äöü€"] {
        let bytes = compress(text);
        let declared = u32::from_be_bytes([bytes[1], bytes[2], bytes[3], bytes[4]]) as usize;
        let symbols = {
            let mut seen: Vec<char> = text.chars().collect();
            seen.sort();
            seen.dedup();
            seen.len()
        };
        assert_eq!(declared, (34 * symbols - 1 + 7) / 8);
        assert!(5 + declared < bytes.len());
    }
}

#[test]
fn single_symbol_round_trip() {
    let bytes = compress("aaaa");
    assert_eq!(bytes, vec![0x74, 0, 0, 0, 5, 0x00, 0x00, 0x00, 0x30, 0x80, 0x00]);
    assert_eq!(decompress(&bytes).unwrap(), "aaaa");
    assert_eq!(decompress(&compress("x")).unwrap(), "x");
}

#[test]
fn texts_round_trip() {
    for text in [
        "ab",
        "abc",
        "the quick brown fox jumps over the lazy dog",
        "Größe: 10 €, naïve café — 日本語 🙂🙂",
        "\n\t\0 mixed \u{10FFFF} ends",
        "aaaaaaaaaaaaaaaaaaaaaaaaaaaaaaaaaaaaaaaaaaaaaaaaaaaaaaaaaaaaaaaab",
    ] {
        assert_eq!(decompress(&compress(text)).unwrap(), text);
    }
}

#[test]
fn padding_counts_are_at_most_seven() {
    for n in 1..40 {
        let text: String = (0..n).map(|i| char::from(b'a' + (i % 5) as u8)).collect();
        let bytes = compress(&text);
        assert!(bytes[0] >> 4 <= 7);
        assert!(bytes[0] & 0x0F <= 7);
        assert_eq!(decompress(&bytes).unwrap(), text);
    }
}

#[test]
fn truncated_header_is_refused() {
    assert_eq!(decompress(&[]), Err(CodecError::MalformedHeader(HeaderFault::Truncated)));
    assert_eq!(
        decompress(&[0x00, 0, 0, 0]),
        Err(CodecError::MalformedHeader(HeaderFault::Truncated))
    );
}

#[test]
fn padding_above_seven_is_refused() {
    assert_eq!(
        decompress(&[0x80, 0, 0, 0, 0]),
        Err(CodecError::MalformedHeader(HeaderFault::InvalidPadding))
    );
    assert_eq!(
        decompress(&[0x08, 0, 0, 0, 0]),
        Err(CodecError::MalformedHeader(HeaderFault::InvalidPadding))
    );
    let mut bytes = compress("aaabbc");
    bytes[0] = 0xF7;
    assert_eq!(decompress(&bytes), Err(CodecError::MalformedHeader(HeaderFault::InvalidPadding)));
}

#[test]
fn a_tree_longer_than_the_rest_is_refused() {
    assert_eq!(
        decompress(&[0x00, 0, 0, 0, 6, 1, 2, 3, 4, 5]),
        Err(CodecError::MalformedHeader(HeaderFault::TruncatedTree))
    );
    assert_eq!(
        decompress(&[0x00, 0xFF, 0xFF, 0xFF, 0xFF]),
        Err(CodecError::MalformedHeader(HeaderFault::TruncatedTree))
    );
}

#[test]
fn a_malformed_tree_is_refused() {
    assert_eq!(decompress(&[0x00, 0, 0, 0, 0]), Err(CodecError::MalformedTree));
    assert_eq!(decompress(&[0x00, 0, 0, 0, 1, 0xFF]), Err(CodecError::MalformedTree));
    let mut bytes = compress("aaaa");
    bytes[0] = 0x64;
    assert_eq!(decompress(&bytes), Err(CodecError::MalformedTree));
}

#[test]
fn truncated_data_is_refused() {
    // without its last byte and with no padding the data ends with the first
    // bit of a code of two
    let mut bytes = compress("aaabbc");
    bytes.pop();
    bytes[0] = 0x30;
    assert_eq!(decompress(&bytes), Err(CodecError::TruncatedData));
}

#[test]
fn a_container_without_data_holds_no_text() {
    let bytes = compress("aaabbc");
    assert_eq!(decompress(&bytes[..18]).unwrap(), "");
}

#[test]
fn errors_describe_themselves() {
    assert_eq!(
        CodecError::MalformedHeader(HeaderFault::Truncated).describe(),
        "truncated header"
    );
    assert_eq!(
        CodecError::MalformedHeader(HeaderFault::InvalidPadding).describe(),
        "invalid header"
    );
    assert_eq!(
        CodecError::MalformedHeader(HeaderFault::TruncatedTree).describe(),
        "truncated tree"
    );
    assert_eq!(CodecError::MalformedTree.describe(), "malformed tree");
    assert_eq!(CodecError::UnknownSymbol('x').describe(), "symbol not in alphabet");
    assert_eq!(CodecError::TruncatedData.describe(), "truncated data");
    assert_eq!(CodecError::UncorrectableBlock(3).describe(), "uncorrectable block");
    assert_eq!(CodecError::PartialBlock.describe(), "input is not a whole number of blocks");
}
