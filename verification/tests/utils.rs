use compression::container::compress;
use compression::error::CodecError;
use compression::hamming::flip_bit;
use compression::utils::{decode, encode, protect, protect_padded, recover};

#[test]
fn a_container_of_whole_blocks_round_trips() {
    let text = "a".repeat(32);
    assert_eq!(compress(&text).len(), 14);
    let out = encode(&text);
    assert_eq!(
        out,
        vec![71, 128, 0, 0, 0, 10, 0, 0, 16, 1, 194, 0, 0, 0, 0, 0]
    );
    assert_eq!(decode(&out, true), Ok((Some(text), 0)));
    assert_eq!(decode(&out, false), Ok((None, 0)));
}

#[test]
fn one_wrong_bit_in_each_block_is_corrected() {
    let text = "a".repeat(32);
    let mut out = encode(&text);
    let mut first = [0u8; 8];
    first.copy_from_slice(&out[..8]);
    out[..8].copy_from_slice(&flip_bit(first, 13));
    let mut second = [0u8; 8];
    second.copy_from_slice(&out[8..]);
    out[8..].copy_from_slice(&flip_bit(second, 60));
    assert_eq!(decode(&out, true), Ok((Some(text), 2)));
    assert_eq!(decode(&out, false), Ok((None, 2)));
}

#[test]
fn a_block_that_cannot_be_corrected_is_named() {
    let mut out = encode(&"a".repeat(32));
    let mut second = [0u8; 8];
    second.copy_from_slice(&out[8..]);
    let once = flip_bit(second, 63);
    second.copy_from_slice(&once);
    out[8..].copy_from_slice(&flip_bit(second, 0));
    assert_eq!(decode(&out, true), Err(CodecError::UncorrectableBlock(1)));
    assert_eq!(recover(&out, false), Err(CodecError::UncorrectableBlock(1)));
}

#[test]
fn partial_blocks_are_refused() {
    assert_eq!(protect(&[1, 2, 3]), Err(CodecError::PartialBlock));
    assert_eq!(recover(&[0; 9], true), Err(CodecError::PartialBlock));
    assert_eq!(decode(&[0; 7], true), Err(CodecError::PartialBlock));
}

#[test]
fn protect_and_recover_whole_blocks() {
    let bytes: Vec<u8> = (0..21).collect();
    let out = protect(&bytes).unwrap();
    assert_eq!(out.len(), 24);
    assert_eq!(recover(&out, true), Ok((Some(bytes), 0)));
    assert_eq!(protect(&[]), Ok(vec![]));
    assert_eq!(recover(&[], true), Ok((Some(vec![]), 0)));
}

#[test]
fn the_last_block_is_filled_with_zero_bytes() {
    let out = protect_padded(&[1, 2, 3]);
    assert_eq!(out, protect(&[1, 2, 3, 0, 0, 0, 0]).unwrap());
    assert_eq!(recover(&out, true), Ok((Some(vec![1, 2, 3, 0, 0, 0, 0]), 0)));
}

#[test]
fn zero_bytes_that_fill_a_block_reach_the_decoder_as_data() {
    // the container of "aaabbc" is 20 bytes: one zero byte fills the third
    // block and decodes to code bits of 'c'
    let out = encode("aaabbc");
    assert_eq!(out.len(), 24);
    assert_eq!(decode(&out, true), Ok((Some(String::from("aaabbccccc")), 0)));
}
