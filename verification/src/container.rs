//! The container: padding counts, the length of the tree, the serialized
//! tree and the coded data, in one sequence of bytes.

use crate::bits::{
    be_bytes, be_value, lemma_unpack_pack, pack, padding_for, u32_from_be, u32_to_be, Bits,
};
use crate::codes::lemma_codes;
use crate::compress::{
    calc_padding_bits, compress_with_tree, data_bits, decompress_to_writer, encoded, run,
    unknown_at,
};
use crate::error::{CodecError, HeaderFault};
use crate::merge::{huffman, lemma_huffman};
use crate::node::{lemma_serialized_len, Shape};
use crate::parse::{lemma_serialized_unique, starts_at};
use crate::tree::Tree;
use crate::weights::{build_weights, frequencies, has_symbol, is_table_of, lemma_ascending_len};
use vstd::prelude::*;
use vstd::slice::slice_subrange;

verus! {

/// The first byte of a container: the tree's padding count in the high four
/// bits, the data's in the low four.
pub open spec fn header_byte(tree_padding: nat, data_padding: nat) -> u8 {
    (tree_padding * 16 + data_padding) as u8
}

/// The container of a serialized tree and coded data: the header byte, the
/// number of the tree's bytes as four bytes, most significant first, the
/// tree's bits packed, and the data's bits packed.
pub open spec fn container(tree_bits: Seq<bool>, code_bits: Seq<bool>) -> Seq<u8> {
    seq![header_byte(padding_for(tree_bits.len()), padding_for(code_bits.len()))] + be_bytes(
        pack(tree_bits).len() as u32,
    ) + pack(tree_bits) + pack(code_bits)
}

/// The container of `text`: its Huffman tree and its symbols' codes.
pub open spec fn compressed(text: Seq<char>) -> Seq<u8> {
    let tree = huffman(frequencies(text));
    container(tree.serialized(), encoded(tree.codes(), text))
}

/// `t` is the tree that `bits` serialize, with every frequency zero.
pub open spec fn is_tree_of(t: Shape, bits: Seq<bool>) -> bool {
    t.serialized() == bits && t.blank() == t
}

/// The tree that `bits` serialize, where they serialize one.
pub open spec fn tree_of(bits: Seq<bool>) -> Option<Shape> {
    if exists|t: Shape| is_tree_of(t, bits) {
        Some(choose|t: Shape| is_tree_of(t, bits))
    } else {
        None
    }
}

/// The text that a container holds, or what is wrong with the container.
pub open spec fn decompressed(bytes: Seq<u8>) -> Result<Seq<char>, CodecError> {
    if bytes.len() < 5 {
        Err(CodecError::MalformedHeader(HeaderFault::Truncated))
    } else {
        let tree_padding = (bytes[0] / 16) as nat;
        let data_padding = (bytes[0] % 16) as nat;
        let tree_len = be_value(bytes.subrange(1, 5)) as int;
        if tree_padding > 7 || data_padding > 7 {
            Err(CodecError::MalformedHeader(HeaderFault::InvalidPadding))
        } else if tree_len > bytes.len() - 5 {
            Err(CodecError::MalformedHeader(HeaderFault::TruncatedTree))
        } else {
            match tree_of(data_bits(bytes.subrange(5, 5 + tree_len), tree_padding)) {
                None => Err(CodecError::MalformedTree),
                Some(tree) => match run(
                    tree,
                    None,
                    data_bits(bytes.subrange(5 + tree_len, bytes.len() as int), data_padding),
                    0,
                ) {
                    Some(text) => Ok(text),
                    None => Err(CodecError::TruncatedData),
                },
            }
        }
    }
}

/// Bits serialize one tree at most.
pub proof fn lemma_tree_of(t: Shape, bits: Seq<bool>)
    requires
        is_tree_of(t, bits),
    ensures
        tree_of(bits) == Some(t),
{
    let chosen = choose|t: Shape| is_tree_of(t, bits);
    assert(bits.subrange(0, bits.len() as int) =~= bits);
    assert(starts_at(bits, 0, t.serialized()));
    assert(starts_at(bits, 0, chosen.serialized()));
    lemma_serialized_unique(bits, 0, chosen, t);
}

/// `String::from_iter` on a vector of symbols: the string of these symbols in
/// their order.
#[verifier::external_body]
fn string_of(chars: Vec<char>) -> (text: String)
    ensures
        text@ == chars@,
{
    String::from_iter(chars)
}

/// The symbols of the Huffman tree of a text are the text's symbols, and the
/// tree is small enough for its byte length to fit 32 bits.
pub proof fn lemma_text_tree(text: Seq<char>, pairs: Seq<(char, nat)>)
    requires
        text.len() > 0,
        is_table_of(pairs, text),
    ensures
        pairs.len() > 0,
        forall|i: int|
            0 <= i < text.len() ==> huffman(pairs).codes().contains_key(#[trigger] text[i]),
        huffman(pairs).serialized().len() <= 34 * 0x110000,
{
    assert(text.contains(text[0]));
    assert(has_symbol(pairs, text[0]));
    lemma_huffman(pairs);
    lemma_ascending_len(pairs);
    lemma_serialized_len(huffman(pairs));
    assert forall|i: int| 0 <= i < text.len() implies huffman(pairs).codes().contains_key(
        #[trigger] text[i],
    ) by {
        assert(text.contains(text[i]));
        assert(has_symbol(pairs, text[i]));
        lemma_codes(huffman(pairs), text[i]);
    }
}

/// Compresses `text` into a container.
pub fn compress(text: &str) -> (bytes: Vec<u8>)
    requires
        text@.len() > 0,
    ensures
        bytes@ == compressed(text@),
{
    let weights = build_weights(text);
    let ghost pairs = weights.pairs();
    proof {
        lemma_text_tree(text@, pairs);
    }
    let mut tree = Tree::build_from_weights(weights);
    tree.assign_codes();
    let ghost shape = tree@;
    let tree_bin = tree.as_bin();
    let tree_padding = calc_padding_bits(tree_bin.len());
    let tree_bytes = tree_bin.pack();
    proof {
        lemma_unpack_pack(shape.serialized());
    }
    let mut out: Vec<u8> = Vec::new();
    match compress_with_tree(text.to_owned(), tree) {
        Err(_) => {
            // the tree was built from the text: every symbol has a code
            proof {
                let i = choose|i: int| unknown_at(shape.codes(), text@, i);
                assert(shape.codes().contains_key(text@[i]));
                assert(false);
            }
        },
        Ok(data) => {
            let (data_bytes, data_padding, _) = data.into_inner();
            let tree_len: u32 = tree_bytes.len() as u32;
            let len_bytes = u32_to_be(tree_len);
            out.push(tree_padding * 16 + data_padding);
            out.push(len_bytes[0]);
            out.push(len_bytes[1]);
            out.push(len_bytes[2]);
            out.push(len_bytes[3]);
            let mut tree_part = tree_bytes;
            let mut data_part = data_bytes;
            out.append(&mut tree_part);
            out.append(&mut data_part);
            assert(out@ =~= compressed(text@));
        },
    }
    out
}

/// Reads the text back from a container.
pub fn decompress(bytes: &[u8]) -> (r: Result<String, CodecError>)
    requires
        64 * bytes@.len() <= usize::MAX,
    ensures
        match r {
            Ok(text) => decompressed(bytes@) == Ok::<Seq<char>, CodecError>(text@),
            Err(e) => decompressed(bytes@) == Err::<Seq<char>, CodecError>(e),
        },
{
    let len = bytes.len();
    if len < 5 {
        return Err(CodecError::MalformedHeader(HeaderFault::Truncated));
    }
    let header = bytes[0];
    let tree_padding: u8 = header / 16;
    let data_padding: u8 = header % 16;
    if tree_padding > 7 || data_padding > 7 {
        return Err(CodecError::MalformedHeader(HeaderFault::InvalidPadding));
    }
    let declared = u32_from_be(bytes[1], bytes[2], bytes[3], bytes[4]);
    proof {
        assert(bytes@.subrange(1, 5) =~= seq![bytes@[1], bytes@[2], bytes@[3], bytes@[4]]);
    }
    if declared as u64 > (len - 5) as u64 {
        return Err(CodecError::MalformedHeader(HeaderFault::TruncatedTree));
    }
    let tree_len: usize = declared as usize;
    let tree_part = slice_subrange(bytes, 5, 5 + tree_len);
    let data_part = slice_subrange(bytes, 5 + tree_len, len);
    let tree_bin = Bits::unpack(tree_part, tree_padding);
    let ghost tree_bits = data_bits(tree_part@, tree_padding as nat);
    assert(tree_bin@ == tree_bits);
    match Tree::try_from_bin(tree_bin) {
        Err(e) => {
            proof {
                assert forall|t: Shape| !is_tree_of(t, tree_bits) by {
                    assert(t.serialized() != tree_bits);
                }
            }
            Err(e)
        },
        Ok(tree) => {
            proof {
                lemma_tree_of(tree@, tree_bits);
            }
            let mut symbols: Vec<char> = Vec::new();
            match decompress_to_writer(data_part, &mut symbols, &tree, data_padding) {
                Err(e) => Err(e),
                Ok(_) => {
                    proof {
                        let text = run(tree@, None, data_bits(data_part@, data_padding as nat), 0)->0;
                        assert(Seq::<char>::empty() + text =~= text);
                    }
                    Ok(string_of(symbols))
                },
            }
        },
    }
}

} // verus!
