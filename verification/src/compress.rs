//! Coding a text with the codes of a tree, and decoding it by walking the
//! tree.

use crate::bits::{
    bit_of_byte, bits_get, bits_len, lemma_padded_len, lemma_to_bits_len, pack, padding_for,
    unpack, zeros, BitWriter, Bits,
};
use crate::codes::lemma_codes;
use crate::error::CodecError;
use crate::node::{Node, Shape};
use crate::tree::{code_map, Tree};
use crate::weights::{chars_of, lemma_code_point};
use std::collections::HashMap;
use vstd::prelude::*;

verus! {

/// The codes of the symbols of `text`, one behind the other.
pub open spec fn encoded(codes: Map<char, Seq<bool>>, text: Seq<char>) -> Seq<bool>
    decreases text.len(),
{
    if text.len() == 0 {
        Seq::empty()
    } else {
        encoded(codes, text.drop_last()) + codes[text.last()]
    }
}

/// Position `i` holds the first symbol of `text` that has no code.
pub open spec fn unknown_at(codes: Map<char, Seq<bool>>, text: Seq<char>, i: int) -> bool {
    &&& 0 <= i < text.len()
    &&& !codes.contains_key(text[i])
    &&& forall|k: int| 0 <= k < i ==> codes.contains_key(#[trigger] text[k])
}

/// The bits of packed data: all bits of `bytes` but the last `padding`.
pub open spec fn data_bits(bytes: Seq<u8>, padding: nat) -> Seq<bool> {
    if 8 * bytes.len() >= padding {
        unpack(bytes).take(8 * bytes.len() - padding)
    } else {
        Seq::empty()
    }
}

/// `rest` behind `c`, where there is a rest.
pub open spec fn prepend(c: char, rest: Option<Seq<char>>) -> Option<Seq<char>> {
    match rest {
        Some(text) => Some(seq![c] + text),
        None => None,
    }
}

/// The text that the bits from position `pos` decode to. The cursor stands at
/// the root (`cur` is `None`) or at a node below it. Each bit moves a cursor
/// that stands at an internal node to the left child if cleared, to the right
/// child if set; a cursor that then stands at a leaf gives the leaf's symbol
/// and returns to the root. `None` where the bits end with the cursor below
/// the root.
pub open spec fn run(root: Shape, cur: Option<Shape>, bits: Seq<bool>, pos: int) -> Option<
    Seq<char>,
>
    decreases bits.len() - pos,
{
    if pos < 0 || pos >= bits.len() {
        if cur is None {
            Some(Seq::empty())
        } else {
            None
        }
    } else {
        let at = match cur {
            Some(node) => node,
            None => root,
        };
        let below = match at {
            Shape::Internal { left, right, .. } => if bits[pos] {
                *right
            } else {
                *left
            },
            Shape::Leaf { .. } => at,
        };
        match below {
            Shape::Leaf { symbol, .. } => prepend(symbol, run(root, None, bits, pos + 1)),
            Shape::Internal { .. } => run(root, Some(below), bits, pos + 1),
        }
    }
}

/// `text` in front of `rest`, where there is a rest.
pub open spec fn in_front(text: Seq<char>, rest: Option<Seq<char>>) -> Option<Seq<char>> {
    match rest {
        Some(more) => Some(text + more),
        None => None,
    }
}

/// The number of bits that are unused in the last byte of `bit_count` packed
/// bits.
pub fn calc_padding_bits(bit_count: usize) -> (padding: u8)
    ensures
        padding == padding_for(bit_count as nat),
        padding <= 7,
{
    let n: u8 = (8 - bit_count % 8) as u8;
    if n == 8 {
        0
    } else {
        n
    }
}

/// Packed code bits, the number of unused bits in their last byte, and the
/// tree whose codes they are.
#[derive(Debug)]
pub struct CompressData {
    comp_bytes: Vec<u8>,
    padding_bits: u8,
    huff_tree: Tree,
}

impl CompressData {
    /// The packed code bits.
    pub closed spec fn bytes(&self) -> Seq<u8> {
        self.comp_bytes@
    }

    /// The number of unused bits in the last byte.
    pub closed spec fn padding(&self) -> u8 {
        self.padding_bits
    }

    /// The tree whose codes the bits are.
    pub closed spec fn tree(&self) -> Tree {
        self.huff_tree
    }

    /// There is at least one byte, and at most seven of its bits are unused.
    pub open spec fn wf(&self) -> bool {
        self.bytes().len() > 0 && self.padding() <= 7
    }

    /// Packed code bits with their padding count and their tree.
    pub fn new(comp_bytes: Vec<u8>, padding_bits: u8, huff_tree: Tree) -> (data: Self)
        requires
            comp_bytes@.len() > 0,
            padding_bits <= 7,
        ensures
            data.wf(),
            data.bytes() == comp_bytes@,
            data.padding() == padding_bits,
            data.tree() == huff_tree,
    {
        CompressData { comp_bytes, padding_bits, huff_tree }
    }

    /// The packed code bits, their padding count and their tree.
    pub fn into_inner(self) -> (parts: (Vec<u8>, u8, Tree))
        ensures
            parts.0@ == self.bytes(),
            parts.1 == self.padding(),
            parts.2 == self.tree(),
    {
        (self.comp_bytes, self.padding_bits, self.huff_tree)
    }
}

/// Every code has a bit, so a text has at least as many code bits as symbols.
pub proof fn lemma_encoded_len(t: Shape, text: Seq<char>)
    requires
        forall|i: int| 0 <= i < text.len() ==> t.codes().contains_key(#[trigger] text[i]),
    ensures
        encoded(t.codes(), text).len() >= text.len(),
    decreases text.len(),
{
    if text.len() > 0 {
        lemma_encoded_len(t, text.drop_last());
        lemma_codes(t, text.last());
        assert(t.codes().contains_key(text[text.len() - 1]));
    }
}

/// Appends the code bits of `symbols` to `w`, or gives the first symbol
/// without a code.
fn write_codes(w: &mut BitWriter, symbols: &[char], codes: &HashMap<u32, Bits>) -> (r: Result<
    (),
    CodecError,
>)
    requires
        old(w).wf(),
    ensures
        final(w).wf(),
        match r {
            Ok(_) => {
                &&& forall|i: int|
                    0 <= i < symbols@.len() ==> code_map(codes@).contains_key(
                        #[trigger] symbols@[i],
                    )
                &&& final(w)@ == old(w)@ + encoded(code_map(codes@), symbols@)
            },
            Err(e) => exists|i: int|
                unknown_at(code_map(codes@), symbols@, i) && e == CodecError::UnknownSymbol(
                    symbols@[i],
                ),
        },
{
    let ghost table = code_map(codes@);
    let ghost before = w@;
    let mut i: usize = 0;
    assert(symbols@.take(0) =~= Seq::<char>::empty());
    assert(w@ =~= before + encoded(table, symbols@.take(0)));
    while i < symbols.len()
        invariant
            i <= symbols@.len(),
            w.wf(),
            table == code_map(codes@),
            forall|k: int| 0 <= k < i ==> table.contains_key(#[trigger] symbols@[k]),
            w@ == before + encoded(table, symbols@.take(i as int)),
        decreases symbols@.len() - i,
    {
        let letter: char = symbols[i];
        proof {
            lemma_code_point(letter);
        }
        match codes.get(&(letter as u32)) {
            None => {
                assert(unknown_at(table, symbols@, i as int));
                return Err(CodecError::UnknownSymbol(letter));
            },
            Some(code) => {
                let n = bits_len(code);
                let ghost so_far = w@;
                let mut j: usize = 0;
                assert(w@ =~= so_far + code@.take(0));
                while j < n
                    invariant
                        j <= n,
                        n == code@.len(),
                        w.wf(),
                        w@ == so_far + code@.take(j as int),
                    decreases n - j,
                {
                    w.push(bits_get(code, j));
                    j = j + 1;
                    assert(w@ =~= so_far + code@.take(j as int));
                }
                proof {
                    assert(code@.take(n as int) =~= code@);
                    assert(table[letter] == code@);
                    let now = symbols@.take(i + 1);
                    assert(now.drop_last() =~= symbols@.take(i as int));
                    assert(now.last() == letter);
                    assert(w@ =~= before + encoded(table, now));
                }
            },
        }
        i = i + 1;
    }
    assert(symbols@.take(symbols@.len() as int) =~= symbols@);
    Ok(())
}

/// Codes `letters` with the codes of `huff_tree`: the code bits packed into
/// bytes, most significant bit first, with the number of unused bits of the
/// last byte. A symbol without a code in the tree is an error.
pub fn compress_with_tree(letters: String, huff_tree: Tree) -> (r: Result<
    CompressData,
    CodecError,
>)
    requires
        letters@.len() > 0,
        huff_tree.has_codes(),
    ensures
        match r {
            Ok(data) => {
                &&& forall|i: int|
                    0 <= i < letters@.len() ==> huff_tree@.codes().contains_key(
                        #[trigger] letters@[i],
                    )
                &&& data.wf()
                &&& data.bytes() == pack(encoded(huff_tree@.codes(), letters@))
                &&& data.padding() == padding_for(encoded(huff_tree@.codes(), letters@).len())
                &&& data.tree() == huff_tree
            },
            Err(e) => exists|i: int|
                unknown_at(huff_tree@.codes(), letters@, i) && e == CodecError::UnknownSymbol(
                    letters@[i],
                ),
        },
{
    let symbols = chars_of(letters.as_str());
    let codes = huff_tree.read_codes();
    let mut w = BitWriter::new();
    match write_codes(&mut w, symbols.as_slice(), &codes) {
        Err(e) => Err(e),
        Ok(_) => {
            let ghost bits = encoded(huff_tree@.codes(), letters@);
            assert(w@ =~= bits);
            let (bytes, padding) = w.finish();
            proof {
                lemma_encoded_len(huff_tree@, letters@);
                lemma_padded_len(bits);
            }
            Ok(CompressData::new(bytes, padding, huff_tree))
        },
    }
}

/// Codes `letters` with the codes of `tree`, appends the packed bytes to
/// `writer` and returns the number of unused bits of the last byte. On an
/// error `writer` is as it was.
pub fn compress_to_writer(letters: String, writer: &mut Vec<u8>, tree: Tree) -> (r: Result<
    u8,
    CodecError,
>)
    requires
        letters@.len() > 0,
        tree.has_codes(),
    ensures
        match r {
            Ok(padding) => {
                &&& forall|i: int|
                    0 <= i < letters@.len() ==> tree@.codes().contains_key(#[trigger] letters@[i])
                &&& final(writer)@ == old(writer)@ + pack(encoded(tree@.codes(), letters@))
                &&& padding == padding_for(encoded(tree@.codes(), letters@).len())
            },
            Err(e) => {
                &&& exists|i: int|
                    unknown_at(tree@.codes(), letters@, i) && e == CodecError::UnknownSymbol(
                        letters@[i],
                    )
                &&& final(writer)@ == old(writer)@
            },
        },
{
    match compress_with_tree(letters, tree) {
        Err(e) => Err(e),
        Ok(data) => {
            let (mut comp_bytes, padding_bits, _) = data.into_inner();
            writer.append(&mut comp_bytes);
            Ok(padding_bits)
        },
    }
}

/// The bits of `bytes` moved back by `n` bits: `n` cleared bits, then the bits
/// of `bytes`, packed again.
pub fn offset_bytes(bytes: &[u8], n: usize) -> (moved: Vec<u8>)
    ensures
        moved@ == pack(zeros(n as nat) + unpack(bytes@)),
{
    let mut w = BitWriter::new();
    let mut k: usize = 0;
    assert(w@ =~= zeros(0));
    while k < n
        invariant
            k <= n,
            w.wf(),
            w@ == zeros(k as nat),
        decreases n - k,
    {
        w.push(false);
        k = k + 1;
        assert(w@ =~= zeros(k as nat));
    }
    let ghost all = unpack(bytes@);
    let mut i: usize = 0;
    assert(w@ =~= zeros(n as nat) + all.take(0));
    while i < bytes.len()
        invariant
            i <= bytes@.len(),
            all == unpack(bytes@),
            w.wf(),
            w@ == zeros(n as nat) + all.take(8 * i),
        decreases bytes@.len() - i,
    {
        let byte = bytes[i];
        let mut j: u8 = 0;
        while j < 8
            invariant
                j <= 8,
                i < bytes@.len(),
                byte == bytes@[i as int],
                all == unpack(bytes@),
                w.wf(),
                w@ == zeros(n as nat) + all.take(8 * i + j),
            decreases 8 - j,
        {
            let bit = bit_of_byte(byte, j);
            proof {
                let at = 8 * i + j;
                assert(at / 8 == i as int);
                assert(at % 8 == j as int);
                assert(all[at] == bit);
            }
            w.push(bit);
            j = j + 1;
            assert(w@ =~= zeros(n as nat) + all.take(8 * i + j));
        }
        i = i + 1;
    }
    assert(all.take(8 * (bytes@.len() as int)) =~= all);
    let (moved, _) = w.finish();
    moved
}

/// Decodes `bytes`, without the last `padding_bits` bits, by walking `tree`,
/// and appends the symbols to `writer`. Data that ends between the root and a
/// leaf is an error, and leaves `writer` as it was.
pub fn decompress_to_writer(bytes: &[u8], writer: &mut Vec<char>, tree: &Tree, padding_bits: u8) -> (r:
    Result<(), CodecError>)
    requires
        padding_bits <= 7,
    ensures
        match r {
            Ok(_) => run(tree@, None, data_bits(bytes@, padding_bits as nat), 0) is Some
                && final(writer)@ == old(writer)@ + run(
                tree@,
                None,
                data_bits(bytes@, padding_bits as nat),
                0,
            )->0,
            Err(e) => {
                &&& e == CodecError::TruncatedData
                &&& run(tree@, None, data_bits(bytes@, padding_bits as nat), 0) is None
                &&& final(writer)@ == old(writer)@
            },
        },
{
    let ghost bits = data_bits(bytes@, padding_bits as nat);
    let ghost root = tree@;
    let mut out: Vec<char> = Vec::new();
    let top: &Node = tree.root();
    let mut current: &Node = top;
    let mut below_root = false;
    let len = bytes.len();
    let mut i: usize = 0;
    proof {
        assert(in_front(out@, run(root, None, bits, 0)) == run(root, None, bits, 0)) by {
            match run(root, None, bits, 0) {
                Some(text) => {
                    assert(out@ + text =~= text);
                },
                None => {},
            }
        }
    }
    while i < len
        invariant
            i <= len,
            len == bytes@.len(),
            padding_bits <= 7,
            bits == data_bits(bytes@, padding_bits as nat),
            root == tree@,
            *top == tree.root_spec(),
            below_root ==> current@ is Internal,
            !below_root ==> *current == *top,
            i < len ==> 8 * i <= bits.len(),
            i == len ==> 8 * i >= bits.len(),
            run(root, None, bits, 0) == in_front(
                out@,
                run(
                    root,
                    if below_root {
                        Some(current@)
                    } else {
                        None
                    },
                    bits,
                    8 * i,
                ),
            ),
        decreases len - i,
    {
        let byte = bytes[i];
        let limit: u8 = if i == len - 1 {
            8 - padding_bits
        } else {
            8
        };
        let mut j: u8 = 0;
        while j < limit
            invariant
                j <= limit,
                limit <= 8,
                i < len,
                len == bytes@.len(),
                byte == bytes@[i as int],
                padding_bits <= 7,
                limit == if i == len - 1 {
                    8 - padding_bits
                } else {
                    8
                },
                bits == data_bits(bytes@, padding_bits as nat),
                root == tree@,
                *top == tree.root_spec(),
                below_root ==> current@ is Internal,
                !below_root ==> *current == *top,
                run(root, None, bits, 0) == in_front(
                    out@,
                    run(
                        root,
                        if below_root {
                            Some(current@)
                        } else {
                            None
                        },
                        bits,
                        8 * i + j,
                    ),
                ),
            decreases limit - j,
        {
            let bit = bit_of_byte(byte, j);
            let ghost at = 8 * i + j;
            let ghost state = if below_root {
                Some(current@)
            } else {
                None
            };
            let ghost text = out@;
            proof {
                lemma_to_bits_len(byte as nat, 8);
                assert(at / 8 == i as int);
                assert(at % 8 == j as int);
                assert(at < bits.len());
                assert(bits[at] == bit);
            }
            if current.has_children() {
                current = if bit {
                    current.right_child().unwrap()
                } else {
                    current.left_child().unwrap()
                };
            }
            match current.letter() {
                Some(symbol) => {
                    out.push(symbol);
                    current = top;
                    below_root = false;
                    proof {
                        let rest = run(root, None, bits, at + 1);
                        assert(run(root, state, bits, at) == prepend(symbol, rest));
                        match rest {
                            Some(more) => {
                                assert(text + (seq![symbol] + more) =~= text.push(symbol) + more);
                            },
                            None => {},
                        }
                    }
                },
                None => {
                    below_root = true;
                    proof {
                        assert(run(root, state, bits, at) == run(
                            root,
                            Some(current@),
                            bits,
                            at + 1,
                        ));
                    }
                },
            }
            j = j + 1;
        }
        i = i + 1;
    }
    if below_root {
        Err(CodecError::TruncatedData)
    } else {
        proof {
            assert(out@ + Seq::<char>::empty() =~= out@);
        }
        writer.append(&mut out);
        Ok(())
    }
}

} // verus!
