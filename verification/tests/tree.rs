use compression::bits::Bits;
use compression::error::CodecError;
use compression::node::{ChildrenIter, Node};
use compression::tree::Tree;
use compression::weights::build_weights;

fn coded_tree(text: &str) -> Tree {
    let mut tree = Tree::build_from_weights(build_weights(text));
    tree.assign_codes();
    tree
}

fn code_of(tree: &Tree, c: char) -> Vec<bool> {
    tree.read_codes()[&(c as u32)].to_bools()
}

#[test]
fn aaabbc_tree_shape() {
    let tree = Tree::build_from_weights(build_weights("aaabbc"));
    let root = tree.root();
    assert!(root.has_children());
    assert_eq!(root.freq(), 6);
    assert_eq!(root.letter(), None);
    let left = root.left_child().unwrap();
    let right = root.right_child().unwrap();
    assert_eq!(right.letter(), Some('a'));
    assert_eq!(right.freq(), 3);
    assert!(!right.has_children());
    assert_eq!(left.freq(), 3);
    assert_eq!(left.left_child().unwrap().letter(), Some('c'));
    assert_eq!(left.left_child().unwrap().freq(), 1);
    assert_eq!(left.right_child().unwrap().letter(), Some('b'));
    assert_eq!(left.right_child().unwrap().freq(), 2);
}

#[test]
fn aaabbc_codes() {
    let tree = coded_tree("aaabbc");
    let codes = tree.read_codes();
    assert_eq!(codes.len(), 3);
    assert_eq!(code_of(&tree, 'a'), vec![true]);
    assert_eq!(code_of(&tree, 'b'), vec![false, true]);
    assert_eq!(code_of(&tree, 'c'), vec![false, false]);
}

#[test]
fn equal_frequencies_go_by_code_point() {
    let tree = coded_tree("abc");
    assert_eq!(code_of(&tree, 'a'), vec![false]);
    assert_eq!(code_of(&tree, 'c'), vec![true, false]);
    assert_eq!(code_of(&tree, 'b'), vec![true, true]);
    let tree = coded_tree("ba");
    assert_eq!(code_of(&tree, 'b'), vec![false]);
    assert_eq!(code_of(&tree, 'a'), vec![true]);
}

#[test]
fn single_symbol_tree_is_a_leaf_with_one_bit() {
    let tree = coded_tree("aaaa");
    assert!(!tree.root().has_children());
    assert_eq!(tree.root().letter(), Some('a'));
    assert_eq!(tree.root().freq(), 4);
    assert_eq!(tree.root().code().unwrap().to_bools(), vec![false]);
    assert_eq!(code_of(&tree, 'a'), vec![false]);
    assert_eq!(tree.read_codes().len(), 1);
}

#[test]
fn no_code_begins_another() {
    let tree = coded_tree("the quick brown fox jumps over the lazy dog");
    let codes = tree.read_codes();
    for (a, code_a) in codes.iter() {
        for (b, code_b) in codes.iter() {
            if a != b {
                let x = code_a.to_bools();
                let y = code_b.to_bools();
                assert!(!(x.len() <= y.len() && y[..x.len()] == x[..]));
            }
        }
    }
}

#[test]
fn nodes_hold_their_paths_once_codes_are_assigned() {
    let tree = Tree::build_from_weights(build_weights("aaabbc"));
    assert!(tree.root().left_child().unwrap().code().is_none());
    let tree = coded_tree("aaabbc");
    let root = tree.root();
    assert!(root.code().is_none());
    let left = root.left_child().unwrap();
    assert_eq!(left.code().unwrap().to_bools(), vec![false]);
    assert_eq!(left.right_child().unwrap().code().unwrap().to_bools(), vec![false, true]);
    assert_eq!(root.right_child().unwrap().code().unwrap().to_bools(), vec![true]);
}

#[test]
fn read_codes_with_a_given_hasher() {
    let tree = coded_tree("aaabbc");
    let codes = tree.read_codes_with_hasher(std::hash::RandomState::new());
    assert_eq!(codes.len(), 3);
    assert_eq!(codes[&('c' as u32)].to_bools(), vec![false, false]);
}

#[test]
fn as_bin_is_preorder() {
    let tree = coded_tree("ba");
    let bin = tree.as_bin();
    assert_eq!(bin.len(), 67);
    let mut want = vec![true, false];
    want.extend((0..32).map(|k| (('b' as u32) >> (31 - k)) & 1 == 1));
    want.push(false);
    want.extend((0..32).map(|k| (('a' as u32) >> (31 - k)) & 1 == 1));
    assert_eq!(bin.to_bools(), want);
    assert_eq!(bin.pack(), vec![0x80, 0x00, 0x00, 0x18, 0x80, 0x00, 0x00, 0x0C, 0x20]);
}

#[test]
fn try_from_bin_undoes_as_bin() {
    let tree = coded_tree("aaabbc€");
    let back = Tree::try_from_bin(tree.as_bin()).ok().unwrap();
    assert_eq!(back.as_bin().to_bools(), tree.as_bin().to_bools());
    assert_eq!(back.root().freq(), 0);
    let codes = back.read_codes();
    let first = tree.read_codes();
    assert_eq!(codes.len(), first.len());
    for (symbol, code) in first.iter() {
        assert_eq!(codes[symbol].to_bools(), code.to_bools());
    }
}

#[test]
fn try_from_bin_reads_a_single_leaf() {
    let tree = Tree::try_from_bin(Bits::unpack(&[0x00, 0x00, 0x00, 0x30, 0x80], 7)).ok().unwrap();
    assert_eq!(tree.root().letter(), Some('a'));
    assert_eq!(tree.root().code().unwrap().to_bools(), vec![false]);
}

#[test]
fn bits_that_end_early_are_no_tree() {
    assert_eq!(Tree::try_from_bin(Bits::new()).err(), Some(CodecError::MalformedTree));
    assert_eq!(
        Tree::try_from_bin(Bits::unpack(&[0x00, 0x00, 0x00, 0x30], 0)).err(),
        Some(CodecError::MalformedTree)
    );
    assert_eq!(
        Tree::try_from_bin(Bits::from_bools(&[true, true, true])).err(),
        Some(CodecError::MalformedTree)
    );
    // an internal node with its left leaf only
    assert_eq!(
        Tree::try_from_bin(Bits::unpack(&[0x80, 0x00, 0x00, 0x18, 0x40], 6)).err(),
        Some(CodecError::MalformedTree)
    );
}

#[test]
fn bits_behind_the_root_are_no_tree() {
    assert_eq!(
        Tree::try_from_bin(Bits::unpack(&[0x00, 0x00, 0x00, 0x30, 0x80], 6)).err(),
        Some(CodecError::MalformedTree)
    );
}

#[test]
fn a_payload_that_is_no_code_point_is_no_tree() {
    // 0x0000D800, a surrogate
    assert_eq!(
        Tree::try_from_bin(Bits::unpack(&[0x00, 0x00, 0x6C, 0x00, 0x00], 7)).err(),
        Some(CodecError::MalformedTree)
    );
    // 0x00110000, above the last code point
    assert_eq!(
        Tree::try_from_bin(Bits::unpack(&[0x00, 0x08, 0x80, 0x00, 0x00], 7)).err(),
        Some(CodecError::MalformedTree)
    );
}

#[test]
fn node_new_makes_leaves_and_internal_nodes() {
    let leaf = Node::new(Some('x'), 5, None);
    assert_eq!(leaf.letter(), Some('x'));
    assert_eq!(leaf.freq(), 5);
    assert!(!leaf.has_children());
    assert!(leaf.left_child().is_none());
    assert!(leaf.right_child().is_none());
    assert!(leaf.code().is_none());
    assert!(leaf.children_iter().is_none());
    let top = Node::new(None, 7, Some((Node::new(Some('l'), 3, None), Node::new(Some('r'), 4, None))));
    assert!(top.has_children());
    assert_eq!(top.letter(), None);
    assert_eq!(top.freq(), 7);
    assert_eq!(top.left_child().unwrap().letter(), Some('l'));
    assert_eq!(top.right_child().unwrap().letter(), Some('r'));
}

#[test]
fn set_code_and_mutable_children() {
    let mut top =
        Node::new(None, 2, Some((Node::new(Some('l'), 1, None), Node::new(Some('r'), 1, None))));
    top.set_code(Bits::from_bools(&[true]));
    assert_eq!(top.code().unwrap().to_bools(), vec![true]);
    top.left_child_mut().unwrap().set_code(Bits::from_bools(&[true, false]));
    top.right_child_mut().unwrap().set_code(Bits::from_bools(&[true, true]));
    assert_eq!(top.left_child().unwrap().code().unwrap().to_bools(), vec![true, false]);
    assert_eq!(top.right_child().unwrap().code().unwrap().to_bools(), vec![true, true]);
    assert_eq!(top.left_child().unwrap().letter(), Some('l'));
    let mut leaf = Node::new(Some('x'), 1, None);
    assert!(leaf.left_child_mut().is_none());
    assert!(leaf.right_child_mut().is_none());
}

#[test]
fn children_come_left_first() {
    let top =
        Node::new(None, 2, Some((Node::new(Some('l'), 1, None), Node::new(Some('r'), 1, None))));
    let mut children = top.children_iter().unwrap();
    assert_eq!(children.next().unwrap().letter(), Some('l'));
    assert_eq!(children.next().unwrap().letter(), Some('r'));
    assert!(children.next().is_none());
    assert!(children.next().is_none());
    let leaf = Node::new(Some('x'), 1, None);
    let mut none = ChildrenIter::new(&leaf);
    assert!(none.next().is_none());
}
