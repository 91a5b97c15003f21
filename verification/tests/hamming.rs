use compression::error::CodecError;
use compression::hamming::{decode, encode, flip_bit};

const BLOCK: [u8; 7] = [0x12, 0x34, 0x56, 0x78, 0x9A, 0xBC, 0xDE];

fn as_code(bytes: &[u8]) -> [u8; 8] {
    let mut code = [0u8; 8];
    code.copy_from_slice(bytes);
    code
}

#[test]
fn encode_sets_the_parity_bits() {
    assert_eq!(encode(BLOCK), vec![0x80, 0x90, 0xD1, 0x59, 0xF1, 0x35, 0x79, 0xBC]);
    assert_eq!(encode([0; 7]), vec![0; 8]);
    assert_eq!(encode([0xFF; 7]), vec![0x1F, 0xFF, 0xFF, 0xFF, 0xFF, 0xFF, 0xFF, 0xFE]);
}

#[test]
fn decode_without_noise() {
    let code = as_code(&encode(BLOCK));
    assert_eq!(decode(code, true), Ok((Some(BLOCK.to_vec()), 0)));
    assert_eq!(decode(code, false), Ok((None, 0)));
}

#[test]
fn every_block_of_one_repeated_byte_comes_back() {
    for byte in 0..=255u8 {
        let block = [byte, byte.wrapping_mul(3), !byte, byte, byte ^ 0x5A, 0, byte];
        let code = as_code(&encode(block));
        assert_eq!(decode(code, true), Ok((Some(block.to_vec()), 0)));
    }
}

#[test]
fn one_wrong_bit_is_corrected() {
    let code = as_code(&encode(BLOCK));
    for i in 0..64 {
        let noisy = as_code(&flip_bit(code, i));
        assert_ne!(noisy, code);
        assert_eq!(decode(noisy, true), Ok((Some(BLOCK.to_vec()), 1)));
        assert_eq!(decode(noisy, false), Ok((None, 1)));
    }
}

#[test]
fn two_wrong_bits_are_never_taken_for_none() {
    let code = as_code(&encode(BLOCK));
    for i in 0..64 {
        for k in 0..64 {
            if i != k {
                let noisy = as_code(&flip_bit(as_code(&flip_bit(code, i)), k));
                match decode(noisy, true) {
                    Ok((_, passes)) => assert_eq!(passes, 1),
                    Err(e) => assert_eq!(e, CodecError::UncorrectableBlock(0)),
                }
            }
        }
    }
}

#[test]
fn a_syndrome_behind_the_frame_is_refused() {
    let code = as_code(&encode(BLOCK));
    // positions 63 and 0 together give the syndrome 64 + 1
    let noisy = as_code(&flip_bit(as_code(&flip_bit(code, 63)), 0));
    assert_eq!(decode(noisy, true), Err(CodecError::UncorrectableBlock(0)));
}

#[test]
fn flip_bit_counts_from_the_most_significant_bit() {
    assert_eq!(flip_bit([0; 8], 0), vec![0x80, 0, 0, 0, 0, 0, 0, 0]);
    assert_eq!(flip_bit([0; 8], 63), vec![0, 0, 0, 0, 0, 0, 0, 0x01]);
    assert_eq!(flip_bit([0xFF; 8], 9), vec![0xFF, 0xBF, 0xFF, 0xFF, 0xFF, 0xFF, 0xFF, 0xFF]);
}
