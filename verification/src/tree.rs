//! The Huffman tree: built from a frequency table or read from its
//! serialized form, with the codes of its symbols.

use crate::bits::{
    be_bytes, bit_of_byte, bits_clone, bits_new, bits_push, lemma_to_bits_len, max_bits, unpack,
    Bits,
};
use crate::merge::{
    enter, huffman, join, leaf_row, lemma_enter, lemma_enter_is_insert, lemma_huffman,
    lemma_leaf_row, lemma_row_split, lemma_sorted_row, merged, row_consistent, row_weight, slot,
    sorted_row,
};
use crate::letter::HuffLetterAsBytes;
use crate::node::{lemma_serialized_len, symbol_bits, Node, Shape};
use crate::weights::{lemma_ascending_len, lemma_code_point, total, FrequencyTable};
use std::collections::HashMap;
use std::hash::BuildHasher;
use vstd::prelude::*;
use vstd::std_specs::hash::builds_valid_hashers;

verus! {

/// The trees of a row of nodes, as values.
pub open spec fn shapes(row: Seq<Node>) -> Seq<Shape> {
    Seq::new(row.len(), |i: int| row[i].shape())
}

/// The codes of a table, each under the symbol whose code point is its key.
pub open spec fn code_map(table: Map<u32, Bits>) -> Map<char, Seq<bool>> {
    Map::new(|c: char| table.contains_key(c as u32), |c: char| table[c as u32]@)
}

/// No node of a row holds a code, nor does a node below one.
pub open spec fn all_uncoded(row: Seq<Node>) -> bool {
    forall|i: int| 0 <= i < row.len() ==> (#[trigger] row[i]).uncoded()
}

/// `std::collections::HashMap::with_hasher`: an empty map.
#[verifier::external_body]
fn table_with_hasher<S: BuildHasher>(hash_builder: S) -> (table: HashMap<u32, Bits, S>)
    ensures
        table@.dom() == Set::<u32>::empty(),
{
    HashMap::with_hasher(hash_builder)
}

/// `std::hash::RandomState::new`: a hasher state with keys of its own.
pub assume_specification[ std::hash::RandomState::new ]() -> std::hash::RandomState;

/// Enters `node` into a row kept by falling frequency, behind every node
/// whose frequency is at least its own.
fn enter_node(row: &mut Vec<Node>, node: Node)
    ensures
        shapes(final(row)@) == enter(shapes(old(row)@), node@),
        all_uncoded(old(row)@) && node.uncoded() ==> all_uncoded(final(row)@),
{
    let ghost nodes = row@;
    let ghost before = shapes(row@);
    let f = node.freq();
    let mut i: usize = row.len();
    assert(before.take(i as int) =~= before);
    while i > 0 && row[i - 1].freq() < f
        invariant
            i <= row@.len(),
            before == shapes(row@),
            slot(before, f as nat) == slot(before.take(i as int), f as nat),
        decreases i,
    {
        assert(before.take(i as int).drop_last() =~= before.take(i - 1));
        i = i - 1;
    }
    proof {
        lemma_enter_is_insert(before, node@);
        if i > 0 {
            assert(before.take(i as int).last() == before[i - 1]);
        }
        assert(slot(before, f as nat) == i);
    }
    row.insert(i, node);
    assert(shapes(row@) =~= before.insert(i as int, node@));
    proof {
        if all_uncoded(nodes) && node.uncoded() {
            assert forall|k: int| 0 <= k < row@.len() implies (#[trigger] row@[k]).uncoded() by {
                if k < i {
                    assert(row@[k] == nodes[k]);
                } else if k > i {
                    assert(row@[k] == nodes[k - 1]);
                }
            }
        }
    }
}

/// A Huffman tree. It owns its root.
#[derive(Debug)]
pub struct Tree {
    root: Box<Node>,
}

impl View for Tree {
    type V = Shape;

    open spec fn view(&self) -> Shape {
        self.root_spec().shape()
    }
}

impl Tree {
    /// The root node.
    pub closed spec fn root_spec(&self) -> Node {
        *self.root
    }

    /// Frequencies add up, and the serialized tree fits a bit vector.
    pub open spec fn wf(&self) -> bool {
        &&& self@.consistent()
        &&& self@.serialized().len() <= max_bits()
    }

    /// Every node below the root holds the path that leads to it; a root that
    /// is a leaf holds the one-bit code of a cleared bit.
    pub open spec fn has_codes(&self) -> bool {
        match self.root_spec() {
            Node::Leaf { code, .. } => code is Some && code->0@ == seq![false],
            Node::Internal { .. } => self.root_spec().coded(Seq::empty()),
        }
    }

    /// The tree with `root` as its root.
    pub(crate) fn from_root(root: Node) -> (tree: Tree)
        ensures
            tree.root_spec() == root,
    {
        Tree { root: Box::new(root) }
    }

    /// The root node.
    pub fn root(&self) -> (node: &Node)
        ensures
            *node == self.root_spec(),
    {
        &*self.root
    }

    /// The Huffman tree of `weights`, without codes.
    pub fn build_from_weights(weights: FrequencyTable) -> (tree: Tree)
        requires
            weights.wf(),
            weights.pairs().len() > 0,
        ensures
            tree@ == huffman(weights.pairs()),
            tree.wf(),
            tree.root_spec().uncoded(),
    {
        let ghost pairs = weights.pairs();
        let ghost leaves = leaf_row(pairs);
        let mut row: Vec<Node> = Vec::new();
        let n = weights.len();
        let mut i: usize = 0;
        proof {
            lemma_leaf_row(pairs);
            assert(leaves.take(0) =~= Seq::<Shape>::empty());
            assert(shapes(row@) =~= sorted_row(leaves.take(0)));
        }
        while i < n
            invariant
                i <= n,
                n == pairs.len(),
                weights.pairs() == pairs,
                leaves == leaf_row(pairs),
                leaves.len() == pairs.len(),
                all_uncoded(row@),
                forall|k: int|
                    0 <= k < pairs.len() ==> #[trigger] leaves[k] == (Shape::Leaf {
                        symbol: pairs[k].0,
                        freq: pairs[k].1,
                    }),
                shapes(row@) == sorted_row(leaves.take(i as int)),
            decreases n - i,
        {
            let entry = weights.entry(i);
            let leaf = Node::new(Some(entry.0), entry.1, None);
            proof {
                assert(leaf@ == leaves[i as int]);
                assert(leaves.take(i + 1).drop_last() =~= leaves.take(i as int));
                assert(leaves.take(i + 1).last() == leaves[i as int]);
            }
            enter_node(&mut row, leaf);
            i = i + 1;
        }
        proof {
            assert(leaves.take(n as int) =~= leaves);
            lemma_sorted_row(leaves);
        }
        while row.len() > 1
            invariant
                row@.len() >= 1,
                merged(shapes(row@)) == huffman(pairs),
                row_weight(shapes(row@)) == total(pairs),
                total(pairs) <= usize::MAX,
                row_consistent(shapes(row@)),
                all_uncoded(row@),
            decreases row@.len(),
        {
            let ghost before = shapes(row@);
            let ghost nodes = row@;
            let ghost len = before.len() as int;
            let a = row.pop().unwrap();
            let b = row.pop().unwrap();
            proof {
                assert(a == nodes[len - 1] && b == nodes[len - 2]);
                assert(a.uncoded() && b.uncoded());
                assert forall|k: int| 0 <= k < row@.len() implies (#[trigger] row@[k]).uncoded() by {
                    assert(row@[k] == nodes[k]);
                }
                lemma_row_split(before);
                assert(shapes(row@) =~= before.take(len - 2));
                assert(a@ == before[len - 1]);
                assert(b@ == before[len - 2]);
            }
            let sum: usize = a.freq() + b.freq();
            let top = Node::new(None, sum, Some((a, b)));
            proof {
                assert(top@ == join(before[len - 1], before[len - 2]));
                assert(before[len - 1].consistent() && before[len - 2].consistent());
                assert(row_consistent(before.take(len - 2))) by {
                    assert forall|k: int| 0 <= k < len - 2 implies (#[trigger] before.take(
                        len - 2,
                    )[k]).consistent() by {
                        assert(before.take(len - 2)[k] == before[k]);
                    }
                }
                lemma_enter(before.take(len - 2), top@);
            }
            enter_node(&mut row, top);
        }
        let ghost last = row@[0];
        let root = row.pop().unwrap();
        proof {
            assert(root == last);
            lemma_huffman(pairs);
            lemma_serialized_len(root@);
            lemma_ascending_len(pairs);
        }
        Tree { root: Box::new(root) }
    }

    /// Gives every node below the root the path that leads to it, and a root
    /// that is a leaf the code of one cleared bit.
    pub fn assign_codes(&mut self)
        requires
            old(self).wf(),
        ensures
            final(self)@ == old(self)@,
            final(self).wf(),
            final(self).has_codes(),
            final(self)@ is Internal ==> final(self).root_spec().code_spec() == old(
                self,
            ).root_spec().code_spec(),
    {
        proof {
            lemma_serialized_len(self@);
        }
        if self.root.has_children() {
            set_codes_in_child_branches(&mut *self.root, None);
        } else {
            let mut code = bits_new();
            bits_push(&mut code, false);
            self.root.set_code(code);
        }
    }

    /// The code of each symbol, under the symbol's code point, in a map made
    /// with `hash_builder`.
    pub fn read_codes_with_hasher<S: BuildHasher>(&self, hash_builder: S) -> (codes: HashMap<
        u32,
        Bits,
        S,
    >)
        requires
            self.has_codes(),
        ensures
            builds_valid_hashers::<S>() ==> code_map(codes@) == self@.codes(),
    {
        let mut codes: HashMap<u32, Bits, S> = table_with_hasher(hash_builder);
        let root = self.root();
        proof {
            assert(codes@ =~= Map::<u32, Bits>::empty());
            assert(code_map(codes@) =~= Map::<char, Seq<bool>>::empty());
        }
        match root {
            Node::Leaf { letter, code, .. } => {
                let ghost before = codes@;
                match code {
                    Some(bits) => {
                        codes.insert(*letter as u32, bits_clone(bits));
                        proof {
                            if builds_valid_hashers::<S>() {
                                lemma_code_map_insert(before, *letter, bits@);
                                assert(code_map(codes@) =~= map![*letter => seq![false]]);
                            }
                        }
                    },
                    None => {},
                }
            },
            Node::Internal { left, right, .. } => {
                collect_codes(&mut codes, &**left, Ghost(Seq::empty().push(false)));
                collect_codes(&mut codes, &**right, Ghost(Seq::empty().push(true)));
            },
        }
        codes
    }

    /// The code of each symbol, under the symbol's code point.
    pub fn read_codes(&self) -> (codes: HashMap<u32, Bits>)
        requires
            self.has_codes(),
        ensures
            code_map(codes@) == self@.codes(),
    {
        broadcast use vstd::std_specs::hash::axiom_random_state_builds_valid_hashers;

        self.read_codes_with_hasher(std::hash::RandomState::new())
    }

    /// The tree serialized in preorder.
    pub fn as_bin(&self) -> (bin: Bits)
        requires
            self.wf(),
        ensures
            bin@ == self@.serialized(),
    {
        let mut bin = bits_new();
        set_tree_as_bin(&mut bin, self.root());
        bin
    }
}

/// Adding a code under a symbol's code point adds it under the symbol.
proof fn lemma_code_map_insert(table: Map<u32, Bits>, c: char, code: Seq<bool>)
    ensures
        forall|bits: Bits|
            bits@ == code ==> code_map(#[trigger] table.insert(c as u32, bits)) == code_map(
                table,
            ).insert(c, code),
{
    assert forall|bits: Bits| bits@ == code implies code_map(
        #[trigger] table.insert(c as u32, bits),
    ) == code_map(table).insert(c, code) by {
        let l = code_map(table.insert(c as u32, bits));
        let r = code_map(table).insert(c, code);
        assert forall|d: char| l.contains_key(d) <==> r.contains_key(d) by {
            lemma_code_point(d);
            lemma_code_point(c);
        }
        assert forall|d: char| l.contains_key(d) implies l[d] == r[d] by {
            lemma_code_point(d);
            lemma_code_point(c);
        }
        assert(l =~= r);
    }
}

/// Adds the codes of the leaves at and below `node` to `codes`.
fn collect_codes<S: BuildHasher>(codes: &mut HashMap<u32, Bits, S>, node: &Node, path: Ghost<
    Seq<bool>,
>)
    requires
        node.code_spec() is Some,
        node.code_spec()->0@ == path@,
        node.coded(path@),
    ensures
        builds_valid_hashers::<S>() ==> code_map(final(codes)@) == node@.gather(
            path@,
            code_map(old(codes)@),
        ),
    decreases node,
{
    match node {
        Node::Leaf { letter, code, .. } => {
            let ghost before = codes@;
            match code {
                Some(bits) => {
                    codes.insert(*letter as u32, bits_clone(bits));
                    proof {
                        lemma_code_map_insert(before, *letter, bits@);
                    }
                },
                None => {},
            }
        },
        Node::Internal { left, right, .. } => {
            collect_codes(codes, &**left, Ghost(path@.push(false)));
            collect_codes(codes, &**right, Ghost(path@.push(true)));
        },
    }
}

/// Gives each node below `parent` the path that leads to it, where
/// `parent_code` leads to `parent`: nothing for the root.
pub(crate) fn set_codes_in_child_branches(parent: &mut Node, parent_code: Option<&Bits>)
    requires
        match parent_code {
            Some(code) => code@.len() + old(parent)@.height() <= max_bits(),
            None => old(parent)@.height() <= max_bits(),
        },
    ensures
        final(parent)@ == old(parent)@,
        final(parent).code_spec() == old(parent).code_spec(),
        final(parent).coded(
            match parent_code {
                Some(code) => code@,
                None => Seq::empty(),
            },
        ),
    decreases *old(parent),
{
    match parent {
        Node::Leaf { .. } => {},
        Node::Internal { left, right, .. } => {
            let mut left_code = match parent_code {
                Some(code) => bits_clone(code),
                None => bits_new(),
            };
            let mut right_code = bits_clone(&left_code);
            bits_push(&mut left_code, false);
            bits_push(&mut right_code, true);
            set_codes_in_child_branches(left, Some(&left_code));
            left.set_code(left_code);
            set_codes_in_child_branches(right, Some(&right_code));
            right.set_code(right_code);
        },
    }
}

/// Appends the serialized form of the tree below `node` to `tree_bin`.
fn set_tree_as_bin(tree_bin: &mut Bits, node: &Node)
    requires
        old(tree_bin)@.len() + node@.serialized().len() <= max_bits(),
    ensures
        final(tree_bin)@ == old(tree_bin)@ + node@.serialized(),
    decreases node,
{
    let ghost before = tree_bin@;
    match node {
        Node::Leaf { letter, .. } => {
            bits_push(tree_bin, false);
            let bytes = letter.as_be_bytes();
            let ghost payload = symbol_bits(*letter);
            let mut j: usize = 0;
            assert(tree_bin@ =~= before + seq![false] + payload.take(0));
            while j < 4
                invariant
                    j <= 4,
                    bytes@ == be_bytes(*letter as u32),
                    payload == unpack(bytes@),
                    before.len() + 33 <= max_bits(),
                    tree_bin@ == before + seq![false] + payload.take(8 * j),
                decreases 4 - j,
            {
                let byte = bytes[j];
                let mut k: u8 = 0;
                while k < 8
                    invariant
                        j < 4,
                        k <= 8,
                        byte == bytes@[j as int],
                        payload == unpack(bytes@),
                        bytes@.len() == 4,
                        before.len() + 33 <= max_bits(),
                        tree_bin@ == before + seq![false] + payload.take(8 * j + k),
                    decreases 8 - k,
                {
                    let bit = bit_of_byte(byte, k);
                    proof {
                        lemma_to_bits_len(byte as nat, 8);
                        let at = 8 * j + k;
                        assert(at / 8 == j as int);
                        assert(at % 8 == k as int);
                        assert(payload[at] == bit);
                        assert(payload.take(at + 1) =~= payload.take(at).push(bit));
                    }
                    bits_push(tree_bin, bit);
                    k = k + 1;
                    assert(tree_bin@ =~= before + seq![false] + payload.take(8 * j + k));
                }
                j = j + 1;
            }
            assert(payload.take(32) =~= payload);
            assert(tree_bin@ =~= before + node@.serialized());
        },
        Node::Internal { left, right, .. } => {
            bits_push(tree_bin, true);
            set_tree_as_bin(tree_bin, &**left);
            set_tree_as_bin(tree_bin, &**right);
            assert(tree_bin@ =~= before + node@.serialized());
        },
    }
}

} // verus!
