//! Letters: what a tree's leaves can hold, and how a letter stands in a
//! serialized tree.

use crate::bits::{be_bytes, lemma_be_bytes_of_value, lemma_be_roundtrip, u32_from_be, u32_to_be};
use crate::error::CodecError;
use crate::weights::lemma_code_point;
use std::fmt::Debug;
use std::hash::Hash;
use vstd::prelude::*;

verus! {

/// A code point that is a symbol: a Unicode scalar value.
pub open spec fn is_scalar(x: u32) -> bool {
    x <= 0xD7FF || (0xE000 <= x && x <= 0x10FFFF)
}

/// `char::from_u32`: the symbol with code point `i`, where `i` is a Unicode
/// scalar value, and `None` where it is not.
pub assume_specification[ char::from_u32 ](i: u32) -> (r: Option<char>)
    ensures
        is_scalar(i) ==> r == Some(i as char),
        !is_scalar(i) ==> r is None,
;

/// A letter of an alphabet.
pub trait HuffLetter: Clone + Eq + Hash + Debug {

}

impl HuffLetter for char {

}

impl<'a> HuffLetter for &'a str {

}

impl HuffLetter for String {

}

/// A letter that a serialized tree can hold: it has a form in bytes from
/// which it can be read back.
pub trait HuffLetterAsBytes: HuffLetter + Sized {
    /// The bytes that stand for the letter.
    spec fn be_bytes_spec(&self) -> Seq<u8>;

    /// The letter that `bytes` stand for. Bytes that stand for no letter are
    /// refused.
    fn try_from_be_bytes(bytes: &[u8]) -> (r: Result<Self, CodecError>)
        ensures
            match r {
                Ok(letter) => letter.be_bytes_spec() == bytes@,
                Err(e) => e == CodecError::MalformedTree && forall|letter: Self|
                    #[trigger] letter.be_bytes_spec() != bytes@,
            },
    ;

    /// The bytes that stand for the letter.
    fn as_be_bytes(&self) -> (bytes: Vec<u8>)
        ensures
            bytes@ == self.be_bytes_spec(),
    ;
}

impl HuffLetterAsBytes for char {
    /// The four bytes of the code point, most significant first.
    open spec fn be_bytes_spec(&self) -> Seq<u8> {
        be_bytes(*self as u32)
    }

    fn try_from_be_bytes(bytes: &[u8]) -> (r: Result<Self, CodecError>) {
        if bytes.len() != 4 {
            proof {
                assert forall|letter: char| #[trigger] letter.be_bytes_spec() != bytes@ by {
                    lemma_be_roundtrip(letter as u32);
                }
            }
            return Err(CodecError::MalformedTree);
        }
        let value = u32_from_be(bytes[0], bytes[1], bytes[2], bytes[3]);
        proof {
            assert(bytes@ =~= seq![bytes@[0], bytes@[1], bytes@[2], bytes@[3]]);
            lemma_be_bytes_of_value(bytes@);
        }
        match char::from_u32(value) {
            Some(letter) => {
                proof {
                    lemma_code_point(letter);
                }
                Ok(letter)
            },
            None => {
                proof {
                    assert forall|letter: char| #[trigger] letter.be_bytes_spec() != bytes@ by {
                        lemma_be_roundtrip(letter as u32);
                        lemma_code_point(letter);
                    }
                }
                Err(CodecError::MalformedTree)
            },
        }
    }

    fn as_be_bytes(&self) -> (bytes: Vec<u8>) {
        let four = u32_to_be(*self as u32);
        let mut bytes: Vec<u8> = Vec::new();
        bytes.push(four[0]);
        bytes.push(four[1]);
        bytes.push(four[2]);
        bytes.push(four[3]);
        assert(bytes@ =~= be_bytes(*self as u32));
        bytes
    }
}

} // verus!
