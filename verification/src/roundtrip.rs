//! Decoding undoes coding: what holds between `compressed` and
//! `decompressed`.

use crate::bits::{
    be_bytes, lemma_be_roundtrip, lemma_padded_len, lemma_unpack_pack, pack, padding_for,
};
use crate::codes::{code_leads, lemma_codes};
use crate::compress::{data_bits, encoded, prepend, run};
use crate::container::{
    compressed, container, decompressed, header_byte, is_tree_of, lemma_text_tree, lemma_tree_of,
};
use crate::error::{CodecError, HeaderFault};
use crate::merge::{huffman, lemma_huffman_single};
use crate::node::{lemma_blank, lemma_blank_leaf_at, Shape};
use crate::weights::{
    count_in, frequencies, has_symbol, is_table_of, lemma_table_exists, lemma_table_unique,
    occurrences,
};
use vstd::prelude::*;

verus! {

/// The code bits of the first `k` symbols begin the code bits of the text.
pub proof fn lemma_encoded_take(codes: Map<char, Seq<bool>>, text: Seq<char>, k: int)
    requires
        0 <= k <= text.len(),
    ensures
        encoded(codes, text.take(k)).len() <= encoded(codes, text).len(),
        encoded(codes, text).take(encoded(codes, text.take(k)).len() as int) == encoded(
            codes,
            text.take(k),
        ),
    decreases text.len(),
{
    let all = encoded(codes, text);
    if k == text.len() {
        assert(text.take(k) =~= text);
        assert(all.take(all.len() as int) =~= all);
    } else {
        let shorter = text.drop_last();
        lemma_encoded_take(codes, shorter, k);
        assert(shorter.take(k) =~= text.take(k));
        let part = encoded(codes, text.take(k));
        assert(all.take(part.len() as int) =~= encoded(codes, shorter).take(part.len() as int));
    }
}

/// Bits that spell the rest of a code from the cursor's node bring the cursor
/// to the code's leaf: decoding gives the leaf's symbol and goes on behind
/// the code.
pub proof fn lemma_walk(
    root: Shape,
    state: Option<Shape>,
    bits: Seq<bool>,
    pos: int,
    code: Seq<bool>,
    k: int,
    c: char,
)
    requires
        0 <= k <= code.len(),
        0 <= pos,
        pos + code.len() - k <= bits.len(),
        forall|j: int| k <= j < code.len() ==> bits[pos + j - k] == #[trigger] code[j],
        match state {
            Some(node) => node,
            None => root,
        } is Internal,
        match state {
            Some(node) => node,
            None => root,
        }.leaf_at(code, k) == Some(c),
    ensures
        run(root, state, bits, pos) == prepend(c, run(root, None, bits, pos + code.len() - k)),
    decreases code.len() - k,
{
    let at = match state {
        Some(node) => node,
        None => root,
    };
    assert(k < code.len());
    assert(bits[pos + k - k] == code[k]);
    let below = if bits[pos] {
        *at->right
    } else {
        *at->left
    };
    assert(below.leaf_at(code, k + 1) == Some(c));
    match below {
        Shape::Leaf { symbol, .. } => {},
        Shape::Internal { .. } => {
            assert forall|j: int| k + 1 <= j < code.len() implies bits[pos + 1 + j - (k + 1)]
                == #[trigger] code[j] by {
                assert(bits[pos + j - k] == code[j]);
            }
            lemma_walk(root, Some(below), bits, pos + 1, code, k + 1, c);
        },
    }
}

/// Decoding the code bits of a text from behind its first `k` symbols gives
/// the rest of the text.
pub proof fn lemma_run_from(root: Shape, codes: Map<char, Seq<bool>>, text: Seq<char>, k: int)
    requires
        0 <= k <= text.len(),
        forall|i: int|
            0 <= i < text.len() ==> codes.contains_key(#[trigger] text[i]) && code_leads(
                root,
                codes[text[i]],
                text[i],
            ),
    ensures
        run(root, None, encoded(codes, text), encoded(codes, text.take(k)).len() as int) == Some(
            text.skip(k),
        ),
    decreases text.len() - k,
{
    let bits = encoded(codes, text);
    let pos = encoded(codes, text.take(k)).len() as int;
    lemma_encoded_take(codes, text, k);
    if k == text.len() {
        assert(text.take(k) =~= text);
        assert(text.skip(k) =~= Seq::<char>::empty());
    } else {
        let c = text[k];
        let code = codes[c];
        let longer = text.take(k + 1);
        assert(longer.drop_last() =~= text.take(k));
        assert(longer.last() == c);
        assert(encoded(codes, longer) == encoded(codes, text.take(k)) + code);
        lemma_encoded_take(codes, text, k + 1);
        let next = encoded(codes, longer).len() as int;
        assert(next == pos + code.len());
        assert forall|j: int| 0 <= j < code.len() implies bits[pos + j] == #[trigger] code[j] by {
            assert(bits.take(next)[pos + j] == encoded(codes, longer)[pos + j]);
        }
        lemma_run_from(root, codes, text, k + 1);
        assert(code_leads(root, code, c));
        match root {
            Shape::Leaf { symbol, .. } => {
                assert(run(root, None, bits, pos) == prepend(c, run(root, None, bits, pos + 1)));
            },
            Shape::Internal { .. } => {
                assert forall|j: int| 0 <= j < code.len() implies bits[pos + j - 0]
                    == #[trigger] code[j] by {
                    assert(bits[pos + j] == code[j]);
                }
                lemma_walk(root, None, bits, pos, code, 0, c);
            },
        }
        assert(seq![c] + text.skip(k + 1) =~= text.skip(k));
    }
}

/// Decoding the code bits of a text with the tree whose codes they are gives
/// the text, whatever the tree's frequencies.
pub proof fn lemma_run_encoded(t: Shape, text: Seq<char>)
    requires
        forall|i: int| 0 <= i < text.len() ==> t.codes().contains_key(#[trigger] text[i]),
    ensures
        run(t.blank(), None, encoded(t.codes(), text), 0) == Some(text),
{
    let codes = t.codes();
    let root = t.blank();
    lemma_blank(t);
    assert forall|i: int| 0 <= i < text.len() implies codes.contains_key(#[trigger] text[i])
        && code_leads(root, codes[text[i]], text[i]) by {
        lemma_codes(t, text[i]);
        lemma_blank_leaf_at(t, codes[text[i]], 0);
    }
    lemma_run_from(root, codes, text, 0);
    assert(text.take(0) =~= Seq::<char>::empty());
    assert(text.skip(0) =~= text);
}

/// A container of a tree and the code bits of a text, coded with the tree's
/// codes, holds the text.
pub proof fn lemma_container_roundtrip(t: Shape, text: Seq<char>)
    requires
        forall|i: int| 0 <= i < text.len() ==> t.codes().contains_key(#[trigger] text[i]),
        t.serialized().len() <= 34 * 0x110000,
    ensures
        decompressed(container(t.serialized(), encoded(t.codes(), text))) == Ok::<
            Seq<char>,
            CodecError,
        >(text),
{
    let tree_bits = t.serialized();
    let code_bits = encoded(t.codes(), text);
    let bytes = container(tree_bits, code_bits);
    let tree_bytes = pack(tree_bits);
    let code_bytes = pack(code_bits);
    let tree_padding = padding_for(tree_bits.len());
    let code_padding = padding_for(code_bits.len());
    lemma_padded_len(tree_bits);
    lemma_padded_len(code_bits);
    lemma_unpack_pack(tree_bits);
    lemma_unpack_pack(code_bits);
    let tree_len = tree_bytes.len() as int;
    lemma_be_roundtrip(tree_len as u32);
    assert(bytes[0] == header_byte(tree_padding, code_padding));
    assert(bytes.subrange(1, 5) =~= be_bytes(tree_len as u32));
    assert(bytes.subrange(5, 5 + tree_len) =~= tree_bytes);
    assert(bytes.subrange(5 + tree_len, bytes.len() as int) =~= code_bytes);
    assert(data_bits(tree_bytes, tree_padding) == tree_bits);
    assert(data_bits(code_bytes, code_padding) == code_bits);
    lemma_blank(t);
    assert(is_tree_of(t.blank(), tree_bits));
    lemma_tree_of(t.blank(), tree_bits);
    lemma_run_encoded(t, text);
}

/// Decompressing what compressing a text gives is the text.
pub proof fn lemma_compress_roundtrip(text: Seq<char>)
    requires
        text.len() > 0,
    ensures
        decompressed(compressed(text)) == Ok::<Seq<char>, CodecError>(text),
{
    lemma_table_exists(text);
    lemma_text_tree(text, frequencies(text));
    lemma_container_roundtrip(huffman(frequencies(text)), text);
}

/// A text of one symbol repeated has that symbol with the text's length as
/// its whole frequency table.
pub proof fn lemma_single_symbol_table(text: Seq<char>, c: char)
    requires
        text.len() > 0,
        forall|i: int| 0 <= i < text.len() ==> text[i] == c,
    ensures
        frequencies(text) == seq![(c, text.len())],
{
    let pairs = seq![(c, text.len())];
    lemma_repeated(text, c);
    assert(pairs[0].0 == c);
    assert forall|x: char| has_symbol(pairs, x) <==> text.contains(x) by {
        if text.contains(x) {
            let i = choose|i: int| 0 <= i < text.len() && text[i] == x;
        }
        if x == c {
            assert(text[0] == c);
        }
    }
    assert forall|x: char| count_in(pairs, x) == occurrences(text, x) by {
        lemma_repeated_other(text, c, x);
        if has_symbol(pairs, x) {
            let i = choose|i: int| 0 <= i < pairs.len() && #[trigger] pairs[i].0 == x;
        }
    }
    assert(is_table_of(pairs, text));
    lemma_table_exists(text);
    lemma_table_unique(pairs, frequencies(text), text);
}

proof fn lemma_repeated(text: Seq<char>, c: char)
    requires
        forall|i: int| 0 <= i < text.len() ==> text[i] == c,
    ensures
        occurrences(text, c) == text.len(),
    decreases text.len(),
{
    if text.len() > 0 {
        assert forall|i: int| 0 <= i < text.drop_last().len() implies text.drop_last()[i] == c by {
            assert(text[i] == c);
        }
        lemma_repeated(text.drop_last(), c);
        assert(text[text.len() - 1] == c);
    }
}

proof fn lemma_repeated_other(text: Seq<char>, c: char, x: char)
    requires
        forall|i: int| 0 <= i < text.len() ==> text[i] == c,
    ensures
        x != c ==> occurrences(text, x) == 0,
        x == c ==> occurrences(text, x) == text.len(),
    decreases text.len(),
{
    if text.len() > 0 {
        assert forall|i: int| 0 <= i < text.drop_last().len() implies text.drop_last()[i] == c by {
            assert(text[i] == c);
        }
        lemma_repeated_other(text.drop_last(), c, x);
        assert(text[text.len() - 1] == c);
    }
}

/// A text of one symbol repeated compresses with a tree that is a single
/// leaf, to a container that holds the text.
pub proof fn lemma_single_symbol(text: Seq<char>, c: char)
    requires
        text.len() > 0,
        forall|i: int| 0 <= i < text.len() ==> text[i] == c,
    ensures
        huffman(frequencies(text)) == (Shape::Leaf { symbol: c, freq: text.len() }),
        decompressed(compressed(text)) == Ok::<Seq<char>, CodecError>(text),
{
    lemma_single_symbol_table(text, c);
    lemma_huffman_single(frequencies(text));
    lemma_compress_roundtrip(text);
}

/// Both padding counts in the container of a text are at most seven.
pub proof fn lemma_padding_in_range(text: Seq<char>)
    ensures
        compressed(text).len() >= 5,
        compressed(text)[0] / 16 <= 7,
        compressed(text)[0] % 16 <= 7,
{
    let tree = huffman(frequencies(text));
    lemma_padded_len(tree.serialized());
    lemma_padded_len(encoded(tree.codes(), text));
}

/// A container whose header holds a padding count above seven is refused
/// for its header.
pub proof fn lemma_padding_refused(bytes: Seq<u8>)
    requires
        bytes.len() >= 5,
        bytes[0] / 16 > 7 || bytes[0] % 16 > 7,
    ensures
        decompressed(bytes) == Err::<Seq<char>, CodecError>(
            CodecError::MalformedHeader(HeaderFault::InvalidPadding),
        ),
{
}

} // verus!
