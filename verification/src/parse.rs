//! Reading a tree back from its serialized form.

use crate::bits::{
    be_bytes, bits_get, bits_len, bits_new, bits_push, from_bits, lemma_be_roundtrip,
    lemma_pack_unpack, lemma_unpack_pack, pack, padded, size_of_bits, two_pow, unpack, Bits,
};
use crate::error::CodecError;
use crate::letter::HuffLetterAsBytes;
use crate::node::{lemma_blank, lemma_serialized_len, symbol_bits, Node, Shape};
use crate::tree::{set_codes_in_child_branches, Tree};
use crate::weights::lemma_code_point;
use vstd::prelude::*;

verus! {

broadcast use vstd::layout::layout_of_primitives;

/// `part` stands in `bits` at position `pos`.
pub open spec fn starts_at(bits: Seq<bool>, pos: int, part: Seq<bool>) -> bool {
    &&& 0 <= pos
    &&& pos + part.len() <= bits.len()
    &&& bits.subrange(pos, pos + part.len()) == part
}

/// Two parts stand one behind the other just where their concatenation
/// stands.
pub proof fn lemma_starts_at_concat(bits: Seq<bool>, pos: int, x: Seq<bool>, y: Seq<bool>)
    ensures
        starts_at(bits, pos, x + y) <==> starts_at(bits, pos, x) && starts_at(
            bits,
            pos + x.len(),
            y,
        ),
{
    if starts_at(bits, pos, x + y) {
        let whole = bits.subrange(pos, pos + (x + y).len());
        assert(bits.subrange(pos, pos + x.len()) =~= whole.subrange(0, x.len() as int));
        assert(whole.subrange(0, x.len() as int) =~= x);
        assert(bits.subrange(pos + x.len(), pos + x.len() + y.len()) =~= whole.subrange(
            x.len() as int,
            (x + y).len() as int,
        ));
        assert(whole.subrange(x.len() as int, (x + y).len() as int) =~= y);
    }
    if starts_at(bits, pos, x) && starts_at(bits, pos + x.len(), y) {
        assert(bits.subrange(pos, pos + (x + y).len()) =~= bits.subrange(pos, pos + x.len())
            + bits.subrange(pos + x.len(), pos + x.len() + y.len()));
    }
}

/// Symbols with the same 32 bits are the same.
pub proof fn lemma_symbol_bits_injective(c: char, d: char)
    requires
        symbol_bits(c) == symbol_bits(d),
    ensures
        c == d,
{
    lemma_pack_unpack(be_bytes(c as u32));
    lemma_pack_unpack(be_bytes(d as u32));
    lemma_be_roundtrip(c as u32);
    lemma_be_roundtrip(d as u32);
    lemma_code_point(c);
    lemma_code_point(d);
}

/// Bits whose groups of eight spell `bytes` are the bits of `bytes`.
pub proof fn lemma_unpack_of_chunks(bits: Seq<bool>, bytes: Seq<u8>)
    requires
        bits.len() == 8 * bytes.len(),
        forall|j: int|
            0 <= j < bytes.len() ==> bytes[j] == #[trigger] from_bits(
                bits.subrange(8 * j, 8 * j + 8),
            ),
    ensures
        unpack(bytes) == bits,
{
    lemma_unpack_pack(bits);
    assert(padded(bits) =~= bits);
    assert(pack(bits) =~= bytes);
}

/// The tree that is serialized at a position of a bit sequence is one tree,
/// up to frequencies.
pub proof fn lemma_serialized_unique(bits: Seq<bool>, pos: int, a: Shape, b: Shape)
    requires
        starts_at(bits, pos, a.serialized()),
        starts_at(bits, pos, b.serialized()),
    ensures
        a.blank() == b.blank(),
        a.serialized() == b.serialized(),
    decreases a,
{
    lemma_serialized_len(a);
    lemma_serialized_len(b);
    assert(bits.subrange(pos, pos + a.serialized().len())[0] == bits[pos]);
    assert(bits.subrange(pos, pos + b.serialized().len())[0] == bits[pos]);
    match a {
        Shape::Leaf { symbol: c, .. } => {
            assert(a.serialized()[0] == false);
            match b {
                Shape::Leaf { symbol: d, .. } => {
                    lemma_starts_at_concat(bits, pos, seq![false], symbol_bits(c));
                    lemma_starts_at_concat(bits, pos, seq![false], symbol_bits(d));
                    lemma_symbol_bits_injective(c, d);
                },
                Shape::Internal { left, right, .. } => {
                    assert(b.serialized() == seq![true] + left.serialized() + right.serialized());
                    assert(b.serialized()[0] == true);
                },
            }
        },
        Shape::Internal { left: al, right: ar, .. } => {
            assert(a.serialized() == seq![true] + al.serialized() + ar.serialized());
            assert(a.serialized()[0] == true);
            match b {
                Shape::Leaf { .. } => {
                    assert(b.serialized()[0] == false);
                },
                Shape::Internal { left: bl, right: br, .. } => {
                    lemma_starts_at_concat(
                        bits,
                        pos,
                        seq![true] + al.serialized(),
                        ar.serialized(),
                    );
                    lemma_starts_at_concat(bits, pos, seq![true], al.serialized());
                    lemma_starts_at_concat(
                        bits,
                        pos,
                        seq![true] + bl.serialized(),
                        br.serialized(),
                    );
                    lemma_starts_at_concat(bits, pos, seq![true], bl.serialized());
                    lemma_serialized_unique(bits, pos + 1, *al, *bl);
                    lemma_serialized_unique(
                        bits,
                        pos + 1 + al.serialized().len(),
                        *ar,
                        *br,
                    );
                },
            }
        },
    }
}

/// The byte that the eight bits from position `pos` spell.
fn read_byte(bits: &Bits, pos: usize) -> (byte: u8)
    requires
        pos + 8 <= bits@.len(),
    ensures
        byte == from_bits(bits@.subrange(pos as int, pos + 8)),
{
    let len = bits_len(bits);
    let mut acc: u8 = 0;
    let mut k: usize = 0;
    assert(bits@.subrange(pos as int, pos as int) =~= Seq::<bool>::empty());
    while k < 8
        invariant
            k <= 8,
            pos + 8 <= bits@.len(),
            len == bits@.len(),
            acc == from_bits(bits@.subrange(pos as int, pos + k)),
            acc < two_pow(k as nat),
        decreases 8 - k,
    {
        let bit = bits_get(bits, pos + k);
        proof {
            reveal_with_fuel(two_pow, 9);
            let now = bits@.subrange(pos as int, pos + k + 1);
            assert(now.drop_last() =~= bits@.subrange(pos as int, pos + k));
            assert(now.last() == bit);
        }
        acc = 2 * acc + if bit {
            1u8
        } else {
            0u8
        };
        k = k + 1;
    }
    acc
}

/// Reads the tree that is serialized from position `pos`, and gives the
/// position behind it.
fn read_branches_from_bits(bits: &Bits, pos: usize) -> (r: Result<(Node, usize), CodecError>)
    requires
        pos <= bits@.len(),
    ensures
        match r {
            Ok(found) => {
                &&& starts_at(bits@, pos as int, found.0@.serialized())
                &&& found.1 == pos + found.0@.serialized().len()
                &&& found.0@.blank() == found.0@
                &&& found.0.uncoded()
            },
            Err(e) => e == CodecError::MalformedTree && forall|t: Shape|
                !starts_at(bits@, pos as int, #[trigger] t.serialized()),
        },
    decreases bits@.len() - pos,
{
    let len = bits_len(bits);
    if pos >= len {
        proof {
            assert forall|t: Shape| !starts_at(bits@, pos as int, #[trigger] t.serialized()) by {
                lemma_serialized_len(t);
            }
        }
        return Err(CodecError::MalformedTree);
    }
    let tag = bits_get(bits, pos);
    if tag {
        let left = match read_branches_from_bits(bits, pos + 1) {
            Ok(found) => found,
            Err(e) => {
                proof {
                    assert forall|t: Shape| !starts_at(
                        bits@,
                        pos as int,
                        #[trigger] t.serialized(),
                    ) by {
                        if starts_at(bits@, pos as int, t.serialized()) {
                            lemma_tag(bits@, pos as int, t);
                            lemma_children_start(bits@, pos as int, t);
                        }
                    }
                }
                return Err(e);
            },
        };
        let right = match read_branches_from_bits(bits, left.1) {
            Ok(found) => found,
            Err(e) => {
                proof {
                    assert forall|t: Shape| !starts_at(
                        bits@,
                        pos as int,
                        #[trigger] t.serialized(),
                    ) by {
                        if starts_at(bits@, pos as int, t.serialized()) {
                            lemma_tag(bits@, pos as int, t);
                            lemma_children_start(bits@, pos as int, t);
                            lemma_serialized_unique(bits@, pos + 1, *t->left, left.0@);
                        }
                    }
                }
                return Err(e);
            },
        };
        let ghost l = left.0@;
        let ghost r = right.0@;
        let node = Node::new(None, 0, Some((left.0, right.0)));
        proof {
            lemma_starts_at_concat(bits@, pos + 1, l.serialized(), r.serialized());
            assert(bits@.subrange(pos as int, pos + 1) =~= seq![true]);
            lemma_starts_at_concat(bits@, pos as int, seq![true], l.serialized() + r.serialized());
            assert(seq![true] + (l.serialized() + r.serialized()) =~= node@.serialized());
        }
        Ok((node, right.1))
    } else {
        let width = size_of_bits::<char>();
        if len - pos - 1 < width {
            proof {
                assert forall|t: Shape| !starts_at(
                    bits@,
                    pos as int,
                    #[trigger] t.serialized(),
                ) by {
                    if starts_at(bits@, pos as int, t.serialized()) {
                        lemma_tag(bits@, pos as int, t);
                        lemma_serialized_len(t);
                    }
                }
            }
            return Err(CodecError::MalformedTree);
        }
        assert(width == 32);
        let b0 = read_byte(bits, pos + 1);
        let b1 = read_byte(bits, pos + 9);
        let b2 = read_byte(bits, pos + 17);
        let b3 = read_byte(bits, pos + 25);
        let four: [u8; 4] = [b0, b1, b2, b3];
        let ghost payload = bits@.subrange(pos + 1, pos + 33);
        let ghost bytes = seq![b0, b1, b2, b3];
        proof {
            assert(four@ =~= bytes);
            assert(payload.subrange(0, 8) =~= bits@.subrange(pos + 1, pos + 9));
            assert(payload.subrange(8, 16) =~= bits@.subrange(pos + 9, pos + 17));
            assert(payload.subrange(16, 24) =~= bits@.subrange(pos + 17, pos + 25));
            assert(payload.subrange(24, 32) =~= bits@.subrange(pos + 25, pos + 33));
            assert forall|j: int| 0 <= j < 4 implies bytes[j] == #[trigger] from_bits(
                payload.subrange(8 * j, 8 * j + 8),
            ) by {
                if j == 0 {
                } else if j == 1 {
                } else if j == 2 {
                } else {
                }
            }
            lemma_unpack_of_chunks(payload, bytes);
        }
        match char::try_from_be_bytes(four.as_slice()) {
            Ok(letter) => {
                let node = Node::new(Some(letter), 0, None);
                proof {
                    assert(symbol_bits(letter) == payload);
                    assert(bits@.subrange(pos as int, pos + 1) =~= seq![false]);
                    lemma_starts_at_concat(bits@, pos as int, seq![false], payload);
                }
                Ok((node, pos + 33))
            },
            Err(e) => {
                proof {
                    assert forall|t: Shape| !starts_at(
                        bits@,
                        pos as int,
                        #[trigger] t.serialized(),
                    ) by {
                        if starts_at(bits@, pos as int, t.serialized()) {
                            lemma_tag(bits@, pos as int, t);
                            let c = t->symbol;
                            lemma_starts_at_concat(bits@, pos as int, seq![false], symbol_bits(c));
                            lemma_pack_unpack(be_bytes(c as u32));
                            lemma_pack_unpack(bytes);
                            assert(c.be_bytes_spec() == bytes);
                        }
                    }
                }
                Err(e)
            },
        }
    }
}

/// The first bit of a serialized tree tells a leaf from an internal node.
proof fn lemma_tag(bits: Seq<bool>, pos: int, t: Shape)
    requires
        starts_at(bits, pos, t.serialized()),
    ensures
        pos < bits.len(),
        bits[pos] <==> t is Internal,
{
    lemma_serialized_len(t);
    assert(bits.subrange(pos, pos + t.serialized().len())[0] == bits[pos]);
    match t {
        Shape::Leaf { symbol, .. } => {
            assert(t.serialized()[0] == false);
        },
        Shape::Internal { left, right, .. } => {
            assert(t.serialized() == seq![true] + left.serialized() + right.serialized());
            assert(t.serialized()[0] == true);
        },
    }
}

/// Behind the tag of an internal node stand its children, left first.
proof fn lemma_children_start(bits: Seq<bool>, pos: int, t: Shape)
    requires
        starts_at(bits, pos, t.serialized()),
        t is Internal,
    ensures
        starts_at(bits, pos + 1, t->left.serialized()),
        starts_at(bits, pos + 1 + t->left.serialized().len(), t->right.serialized()),
{
    let l = t->left.serialized();
    let r = t->right.serialized();
    assert(t.serialized() == seq![true] + l + r);
    lemma_starts_at_concat(bits, pos, seq![true] + l, r);
    lemma_starts_at_concat(bits, pos, seq![true], l);
}

impl Tree {
    /// The tree that `bin` is the serialized form of, with its codes
    /// assigned and every frequency zero. `bin` is malformed where it is the
    /// serialized form of no tree: where it ends early, goes on behind the
    /// root, or holds a leaf whose 32 bits are no symbol's.
    pub fn try_from_bin(bin: Bits) -> (r: Result<Tree, CodecError>)
        ensures
            match r {
                Ok(tree) => {
                    &&& tree@.serialized() == bin@
                    &&& tree@.blank() == tree@
                    &&& tree.wf()
                    &&& tree.has_codes()
                    &&& tree@ is Internal ==> tree.root_spec().code_spec() is None
                },
                Err(e) => e == CodecError::MalformedTree && forall|t: Shape|
                    #[trigger] t.serialized() != bin@,
            },
    {
        let len = bits_len(&bin);
        match read_branches_from_bits(&bin, 0) {
            Err(e) => {
                proof {
                    assert forall|t: Shape| #[trigger] t.serialized() != bin@ by {
                        if t.serialized() == bin@ {
                            assert(bin@.subrange(0, bin@.len() as int) =~= bin@);
                            assert(starts_at(bin@, 0, t.serialized()));
                        }
                    }
                }
                Err(e)
            },
            Ok(found) => {
                let mut root = found.0;
                if found.1 != len {
                    proof {
                        assert forall|t: Shape| #[trigger] t.serialized() != bin@ by {
                            if t.serialized() == bin@ {
                                assert(bin@.subrange(0, bin@.len() as int) =~= bin@);
                                assert(starts_at(bin@, 0, t.serialized()));
                                lemma_serialized_unique(bin@, 0, t, root@);
                            }
                        }
                    }
                    return Err(CodecError::MalformedTree);
                }
                proof {
                    assert(bin@.subrange(0, bin@.len() as int) =~= bin@);
                    lemma_serialized_len(root@);
                    lemma_blank(root@);
                }
                if root.has_children() {
                    set_codes_in_child_branches(&mut root, None);
                } else {
                    let mut code = bits_new();
                    bits_push(&mut code, false);
                    root.set_code(code);
                }
                Ok(Tree::from_root(root))
            },
        }
    }
}

} // verus!
