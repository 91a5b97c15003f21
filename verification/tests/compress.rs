use compression::compress::{
    calc_padding_bits, compress_to_writer, compress_with_tree, decompress_to_writer, offset_bytes,
    CompressData,
};
use compression::error::CodecError;
use compression::tree::Tree;
use compression::weights::build_weights;

fn coded_tree(text: &str) -> Tree {
    let mut tree = Tree::build_from_weights(build_weights(text));
    tree.assign_codes();
    tree
}

#[test]
fn padding_of_bit_counts() {
    assert_eq!(calc_padding_bits(0), 0);
    assert_eq!(calc_padding_bits(1), 7);
    assert_eq!(calc_padding_bits(7), 1);
    assert_eq!(calc_padding_bits(8), 0);
    assert_eq!(calc_padding_bits(9), 7);
    assert_eq!(calc_padding_bits(101), 3);
    assert_eq!(calc_padding_bits(usize::MAX), 1);
}

#[test]
fn aaabbc_code_bits() {
    let data = compress_with_tree(String::from("aaabbc"), coded_tree("aaabbc")).ok().unwrap();
    let (bytes, padding, tree) = data.into_inner();
    assert_eq!(bytes, vec![0b1110_1010, 0b0000_0000]);
    assert_eq!(padding, 7);
    assert_eq!(tree.root().freq(), 6);
}

#[test]
fn whole_bytes_have_no_padding() {
    let data = compress_with_tree(String::from("aaaaaaaa"), coded_tree("ab")).ok().unwrap();
    let (bytes, padding, _) = data.into_inner();
    assert_eq!(bytes, vec![0xFF]);
    assert_eq!(padding, 0);
}

#[test]
fn a_symbol_without_a_code_is_refused() {
    let r = compress_with_tree(String::from("abxy"), coded_tree("aaabbc"));
    assert_eq!(r.err(), Some(CodecError::UnknownSymbol('x')));
}

#[test]
fn compress_data_keeps_its_parts() {
    let data = CompressData::new(vec![1, 2, 3], 5, coded_tree("ab"));
    let (bytes, padding, tree) = data.into_inner();
    assert_eq!(bytes, vec![1, 2, 3]);
    assert_eq!(padding, 5);
    assert!(tree.root().has_children());
}

#[test]
fn compress_to_writer_appends() {
    let mut out = vec![0xAB];
    let padding = compress_to_writer(String::from("aaabbc"), &mut out, coded_tree("aaabbc"));
    assert_eq!(padding, Ok(7));
    assert_eq!(out, vec![0xAB, 0xEA, 0x00]);
    let mut out = vec![0xAB];
    let r = compress_to_writer(String::from("q"), &mut out, coded_tree("aaabbc"));
    assert_eq!(r, Err(CodecError::UnknownSymbol('q')));
    assert_eq!(out, vec![0xAB]);
}

#[test]
fn decompress_walks_the_tree() {
    let tree = coded_tree("aaabbc");
    let mut out = vec!['>'];
    assert_eq!(decompress_to_writer(&[0xEA, 0x00], &mut out, &tree, 7), Ok(()));
    assert_eq!(out, vec!['>', 'a', 'a', 'a', 'b', 'b', 'c']);
}

#[test]
fn decompress_of_nothing_is_nothing() {
    let tree = coded_tree("aaabbc");
    let mut out = Vec::new();
    assert_eq!(decompress_to_writer(&[], &mut out, &tree, 0), Ok(()));
    assert_eq!(out, Vec::<char>::new());
}

#[test]
fn data_that_ends_below_the_root_is_refused() {
    let tree = coded_tree("aaabbc");
    let mut out = vec!['>'];
    // 1 1 1 01 01 0: the last bit starts a code and no bit follows
    assert_eq!(
        decompress_to_writer(&[0xEA], &mut out, &tree, 0),
        Err(CodecError::TruncatedData)
    );
    assert_eq!(out, vec!['>']);
}

#[test]
fn a_single_leaf_gives_its_symbol_for_every_bit() {
    let tree = coded_tree("zzz");
    let mut out = Vec::new();
    assert_eq!(decompress_to_writer(&[0b1010_0000], &mut out, &tree, 4), Ok(()));
    assert_eq!(out, vec!['z', 'z', 'z', 'z']);
}

#[test]
fn offset_bytes_moves_bits_back() {
    assert_eq!(offset_bytes(&[0xFF, 0x01], 3), vec![0x1F, 0xE0, 0x20]);
    assert_eq!(offset_bytes(&[0xFF, 0x01], 0), vec![0xFF, 0x01]);
    assert_eq!(offset_bytes(&[0x80], 8), vec![0x00, 0x80]);
    assert_eq!(offset_bytes(&[], 3), vec![0x00]);
    assert_eq!(offset_bytes(&[], 0), Vec::<u8>::new());
}
