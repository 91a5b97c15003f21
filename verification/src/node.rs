//! The nodes of a Huffman tree and what a tree of them means.

use crate::bits::{be_bytes, unpack, Bits};
use vstd::prelude::*;

verus! {

/// A Huffman tree as a value: a leaf with its symbol, or two subtrees, each
/// with the frequency it was built with.
pub enum Shape {
    Leaf { symbol: char, freq: nat },
    Internal { freq: nat, left: Box<Shape>, right: Box<Shape> },
}

/// The 32 bits that stand for `c` in a serialized tree: its code point as four
/// bytes, most significant first.
pub open spec fn symbol_bits(c: char) -> Seq<bool> {
    unpack(be_bytes(c as u32))
}

impl Shape {
    /// The frequency at the tree's root.
    pub open spec fn freq(self) -> nat {
        match self {
            Shape::Leaf { freq, .. } => freq,
            Shape::Internal { freq, .. } => freq,
        }
    }

    /// Every internal node's frequency is the sum of its children's.
    pub open spec fn consistent(self) -> bool
        decreases self,
    {
        match self {
            Shape::Leaf { .. } => true,
            Shape::Internal { freq, left, right } => {
                &&& freq == left.freq() + right.freq()
                &&& left.consistent()
                &&& right.consistent()
            },
        }
    }

    /// The same tree with every frequency zero, as a serialized tree gives it.
    pub open spec fn blank(self) -> Shape
        decreases self,
    {
        match self {
            Shape::Leaf { symbol, .. } => Shape::Leaf { symbol, freq: 0 },
            Shape::Internal { left, right, .. } => Shape::Internal {
                freq: 0,
                left: Box::new(left.blank()),
                right: Box::new(right.blank()),
            },
        }
    }

    /// The symbols of the leaves.
    pub open spec fn symbols(self) -> Set<char>
        decreases self,
    {
        match self {
            Shape::Leaf { symbol, .. } => set![symbol],
            Shape::Internal { left, right, .. } => left.symbols().union(right.symbols()),
        }
    }

    /// The number of leaves.
    pub open spec fn leaf_count(self) -> nat
        decreases self,
    {
        match self {
            Shape::Leaf { .. } => 1,
            Shape::Internal { left, right, .. } => left.leaf_count() + right.leaf_count(),
        }
    }

    /// The longest way from the root to a leaf, in edges.
    pub open spec fn height(self) -> nat
        decreases self,
    {
        match self {
            Shape::Leaf { .. } => 0,
            Shape::Internal { left, right, .. } => {
                let l = left.height();
                let r = right.height();
                if l >= r {
                    l + 1
                } else {
                    r + 1
                }
            },
        }
    }

    /// The tree in preorder: a set bit and the two subtrees for an internal
    /// node, a cleared bit and the symbol's 32 bits for a leaf.
    pub open spec fn serialized(self) -> Seq<bool>
        decreases self,
    {
        match self {
            Shape::Leaf { symbol, .. } => seq![false] + symbol_bits(symbol),
            Shape::Internal { left, right, .. } => seq![true] + left.serialized()
                + right.serialized(),
        }
    }

    /// The symbol of the leaf at which `path`, read from position `from`, ends
    /// when followed from the root: a cleared bit goes left, a set bit right.
    /// `None` where the path stops above a leaf or goes on below one.
    pub open spec fn leaf_at(self, path: Seq<bool>, from: int) -> Option<char>
        decreases self,
    {
        match self {
            Shape::Leaf { symbol, .. } => if from == path.len() {
                Some(symbol)
            } else {
                None
            },
            Shape::Internal { left, right, .. } => if 0 <= from < path.len() {
                if path[from] {
                    right.leaf_at(path, from + 1)
                } else {
                    left.leaf_at(path, from + 1)
                }
            } else {
                None
            },
        }
    }

    /// `codes` with, for each leaf below a node reached by `path`, the leaf's
    /// symbol set to the path to that leaf; leaves are taken from left to
    /// right, so of two leaves with one symbol the right one counts.
    pub open spec fn gather(self, path: Seq<bool>, codes: Map<char, Seq<bool>>) -> Map<
        char,
        Seq<bool>,
    >
        decreases self,
    {
        match self {
            Shape::Leaf { symbol, .. } => codes.insert(symbol, path),
            Shape::Internal { left, right, .. } => right.gather(
                path.push(true),
                left.gather(path.push(false), codes),
            ),
        }
    }

    /// The code of each symbol: the path from the root to its leaf. A tree
    /// that is one leaf gives its symbol the one-bit code of a cleared bit.
    pub open spec fn codes(self) -> Map<char, Seq<bool>> {
        match self {
            Shape::Leaf { symbol, .. } => map![symbol => seq![false]],
            Shape::Internal { .. } => self.gather(Seq::empty(), Map::empty()),
        }
    }
}

/// A symbol takes 32 bits.
pub proof fn lemma_symbol_bits_len(c: char)
    ensures
        symbol_bits(c).len() == 32,
{
}

/// A tree of `n` leaves takes `34 n - 1` bits and is less than `n` high.
pub proof fn lemma_serialized_len(t: Shape)
    ensures
        t.serialized().len() == 34 * t.leaf_count() - 1,
        t.leaf_count() >= 1,
        t.height() < t.leaf_count(),
    decreases t,
{
    match t {
        Shape::Leaf { symbol, .. } => {
            lemma_symbol_bits_len(symbol);
        },
        Shape::Internal { left, right, .. } => {
            lemma_serialized_len(*left);
            lemma_serialized_len(*right);
        },
    }
}

/// Frequencies do not show in the serialized form, nor in where paths lead.
pub proof fn lemma_blank(t: Shape)
    ensures
        t.blank().serialized() == t.serialized(),
        t.blank().blank() == t.blank(),
        t.blank().consistent(),
        t.blank().symbols() == t.symbols(),
        t.blank().leaf_count() == t.leaf_count(),
        t.blank().height() == t.height(),
        t.blank() is Leaf <==> t is Leaf,
    decreases t,
{
    match t {
        Shape::Leaf { .. } => {},
        Shape::Internal { left, right, .. } => {
            lemma_blank(*left);
            lemma_blank(*right);
        },
    }
}

/// Paths lead to the same leaves whatever the frequencies.
pub proof fn lemma_blank_leaf_at(t: Shape, path: Seq<bool>, from: int)
    ensures
        t.blank().leaf_at(path, from) == t.leaf_at(path, from),
    decreases t,
{
    match t {
        Shape::Leaf { .. } => {},
        Shape::Internal { left, right, .. } => {
            lemma_blank_leaf_at(*left, path, from + 1);
            lemma_blank_leaf_at(*right, path, from + 1);
        },
    }
}

/// A node of a Huffman tree: a leaf with its symbol, or an internal node that
/// owns its two children. Each holds its frequency and, once codes are
/// assigned, the path that leads to it from the root.
#[derive(Debug)]
pub enum Node {
    Leaf { letter: char, freq: usize, code: Option<Bits> },
    Internal { freq: usize, code: Option<Bits>, left: Box<Node>, right: Box<Node> },
}

impl View for Node {
    type V = Shape;

    open spec fn view(&self) -> Shape {
        self.shape()
    }
}

impl Node {
    /// The tree below the node as a value.
    pub open spec fn shape(&self) -> Shape
        decreases self,
    {
        match self {
            Node::Leaf { letter, freq, .. } => Shape::Leaf { symbol: *letter, freq: *freq as nat },
            Node::Internal { freq, left, right, .. } => Shape::Internal {
                freq: *freq as nat,
                left: Box::new(left.shape()),
                right: Box::new(right.shape()),
            },
        }
    }

    /// The code that the node holds.
    pub open spec fn code_spec(&self) -> Option<Bits> {
        match self {
            Node::Leaf { code, .. } => *code,
            Node::Internal { code, .. } => *code,
        }
    }

    /// Neither the node nor a node below it holds a code.
    pub open spec fn uncoded(&self) -> bool
        decreases self,
    {
        match self {
            Node::Leaf { code, .. } => code is None,
            Node::Internal { code, left, right, .. } => code is None && left.uncoded()
                && right.uncoded(),
        }
    }

    /// Every node below this one holds the path that leads to it, given that
    /// `path` leads to this one.
    pub open spec fn coded(&self, path: Seq<bool>) -> bool
        decreases self,
    {
        match self {
            Node::Leaf { .. } => true,
            Node::Internal { left, right, .. } => {
                &&& left.code_spec() is Some
                &&& left.code_spec()->0@ == path.push(false)
                &&& left.coded(path.push(false))
                &&& right.code_spec() is Some
                &&& right.code_spec()->0@ == path.push(true)
                &&& right.coded(path.push(true))
            },
        }
    }

    /// A node without a code: a leaf for `letter` where there are no
    /// children, else an internal node over them.
    pub fn new(letter: Option<char>, weight: usize, children: Option<(Node, Node)>) -> (node: Node)
        requires
            letter is Some <==> children is None,
        ensures
            node.code_spec() is None,
            match children {
                None => node == (Node::Leaf { letter: letter->0, freq: weight, code: None }),
                Some(pair) => node == (Node::Internal {
                    freq: weight,
                    code: None,
                    left: Box::new(pair.0),
                    right: Box::new(pair.1),
                }),
            },
    {
        match children {
            Some(pair) => Node::Internal {
                freq: weight,
                code: None,
                left: Box::new(pair.0),
                right: Box::new(pair.1),
            },
            None => Node::Leaf { letter: letter.unwrap(), freq: weight, code: None },
        }
    }

    /// The node's frequency.
    pub fn freq(&self) -> (f: usize)
        ensures
            f == self@.freq(),
    {
        match self {
            Node::Leaf { freq, .. } => *freq,
            Node::Internal { freq, .. } => *freq,
        }
    }

    /// The path from the root to this node, once codes are assigned.
    pub fn code(&self) -> (code: Option<&Bits>)
        ensures
            match code {
                Some(bits) => self.code_spec() == Some(*bits),
                None => self.code_spec() is None,
            },
    {
        match self {
            Node::Leaf { code, .. } => code.as_ref(),
            Node::Internal { code, .. } => code.as_ref(),
        }
    }

    /// A leaf's symbol.
    pub fn letter(&self) -> (letter: Option<char>)
        ensures
            letter == match self@ {
                Shape::Leaf { symbol, .. } => Some(symbol),
                Shape::Internal { .. } => None,
            },
    {
        match self {
            Node::Leaf { letter, .. } => Some(*letter),
            Node::Internal { .. } => None,
        }
    }

    /// The left child of an internal node.
    pub fn left_child(&self) -> (child: Option<&Node>)
        ensures
            match self {
                Node::Leaf { .. } => child is None,
                Node::Internal { left, .. } => child == Some(&**left),
            },
    {
        match self {
            Node::Leaf { .. } => None,
            Node::Internal { left, .. } => Some(&**left),
        }
    }

    /// The right child of an internal node.
    pub fn right_child(&self) -> (child: Option<&Node>)
        ensures
            match self {
                Node::Leaf { .. } => child is None,
                Node::Internal { right, .. } => child == Some(&**right),
            },
    {
        match self {
            Node::Leaf { .. } => None,
            Node::Internal { right, .. } => Some(&**right),
        }
    }

    /// The left child of an internal node, to be changed in place.
    pub fn left_child_mut(&mut self) -> (child: Option<&mut Node>)
        ensures
            match *old(self) {
                Node::Leaf { .. } => child is None && *final(self) == *old(self),
                Node::Internal { freq, code, left, right } => {
                    &&& child is Some
                    &&& *child->0 == *left
                    &&& *final(self) == (Node::Internal {
                        freq,
                        code,
                        left: Box::new(*final(child->0)),
                        right,
                    })
                },
            },
    {
        match self {
            Node::Leaf { .. } => None,
            Node::Internal { left, .. } => Some(&mut **left),
        }
    }

    /// The right child of an internal node, to be changed in place.
    pub fn right_child_mut(&mut self) -> (child: Option<&mut Node>)
        ensures
            match *old(self) {
                Node::Leaf { .. } => child is None && *final(self) == *old(self),
                Node::Internal { freq, code, left, right } => {
                    &&& child is Some
                    &&& *child->0 == *right
                    &&& *final(self) == (Node::Internal {
                        freq,
                        code,
                        left,
                        right: Box::new(*final(child->0)),
                    })
                },
            },
    {
        match self {
            Node::Leaf { .. } => None,
            Node::Internal { right, .. } => Some(&mut **right),
        }
    }

    /// Whether the node is an internal node.
    pub fn has_children(&self) -> (internal: bool)
        ensures
            internal == (self@ is Internal),
            internal == (self is Internal),
    {
        match self {
            Node::Leaf { .. } => false,
            Node::Internal { .. } => true,
        }
    }

    /// Sets the code that the node holds and leaves the rest as it is.
    pub fn set_code(&mut self, code: Bits)
        ensures
            final(self).code_spec() == Some(code),
            final(self)@ == old(self)@,
            forall|path: Seq<bool>| final(self).coded(path) == old(self).coded(path),
            match *old(self) {
                Node::Leaf { letter, freq, .. } => *final(self) == (Node::Leaf {
                    letter,
                    freq,
                    code: Some(code),
                }),
                Node::Internal { freq, left, right, .. } => *final(self) == (Node::Internal {
                    freq,
                    code: Some(code),
                    left,
                    right,
                }),
            },
    {
        match self {
            Node::Leaf { code: held, .. } => {
                *held = Some(code);
            },
            Node::Internal { code: held, .. } => {
                *held = Some(code);
            },
        }
    }

    /// The children of an internal node, to be taken left first.
    pub fn children_iter(&self) -> (children: Option<ChildrenIter<'_>>)
        ensures
            match children {
                Some(iter) => self is Internal && *iter.parent() == *self && iter.child_pos() == 0,
                None => self is Leaf,
            },
    {
        if self.has_children() {
            Some(ChildrenIter::new(self))
        } else {
            None
        }
    }
}

/// Hands out the children of a node: the left one, then the right one.
pub struct ChildrenIter<'a> {
    parent: &'a Node,
    child_pos: u8,
}

impl<'a> ChildrenIter<'a> {
    /// The node whose children are handed out.
    pub closed spec fn parent(&self) -> &'a Node {
        self.parent
    }

    /// How many children were asked for, up to two.
    pub closed spec fn child_pos(&self) -> u8 {
        self.child_pos
    }

    /// Hands out the children of `parent`, none of them taken yet.
    pub fn new(parent: &'a Node) -> (iter: Self)
        ensures
            *iter.parent() == *parent,
            iter.child_pos() == 0,
    {
        ChildrenIter { parent, child_pos: 0 }
    }

    /// The next child: the left one at the first call, the right one at the
    /// second, and none after that or for a leaf.
    pub fn next(&mut self) -> (child: Option<&'a Node>)
        ensures
            final(self).parent() == old(self).parent(),
            final(self).child_pos() == if old(self).child_pos() < 2 {
                (old(self).child_pos() + 1) as u8
            } else {
                old(self).child_pos()
            },
            child == match *old(self).parent() {
                Node::Leaf { .. } => None::<&Node>,
                Node::Internal { left, right, .. } => if old(self).child_pos() == 0 {
                    Some(&*left)
                } else if old(self).child_pos() == 1 {
                    Some(&*right)
                } else {
                    None
                },
            },
    {
        if self.child_pos == 0 {
            self.child_pos = 1;
            self.parent.left_child()
        } else if self.child_pos == 1 {
            self.child_pos = 2;
            self.parent.right_child()
        } else {
            None
        }
    }
}

} // verus!
