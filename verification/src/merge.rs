//! What the greedy merge makes of a frequency table.
//!
//! The working row holds the trees that are still to be merged, by falling
//! frequency. A tree enters the row behind every tree whose frequency is at
//! least its own, so of two trees with one frequency the one that entered
//! first stays first. The leaves enter in the order of their symbols' code
//! points. Each step takes the last two trees of the row, makes the last one
//! the left child and the one before it the right child of a new node, and
//! enters that node.

use crate::node::Shape;
use crate::weights::{has_symbol, lemma_code_point, total};
use vstd::prelude::*;

verus! {

/// One leaf for each pair, in the order of the pairs.
pub open spec fn leaf_row(pairs: Seq<(char, nat)>) -> Seq<Shape>
    decreases pairs.len(),
{
    if pairs.len() == 0 {
        Seq::empty()
    } else {
        leaf_row(pairs.drop_last()).push(
            Shape::Leaf { symbol: pairs.last().0, freq: pairs.last().1 },
        )
    }
}

/// The place at which a tree of frequency `f` enters `row`: behind the last
/// tree whose frequency is at least `f`.
pub open spec fn slot(row: Seq<Shape>, f: nat) -> int
    decreases row.len(),
{
    if row.len() == 0 {
        0
    } else if row.last().freq() >= f {
        row.len() as int
    } else {
        slot(row.drop_last(), f)
    }
}

/// `row` with `x` entered at its place.
pub open spec fn enter(row: Seq<Shape>, x: Shape) -> Seq<Shape> {
    let at = slot(row, x.freq());
    Seq::new(
        (row.len() + 1) as nat,
        |i: int|
            if i < at {
                row[i]
            } else if i == at {
                x
            } else {
                row[i - 1]
            },
    )
}

/// The trees of `nodes` entered one after the other into an empty row.
pub open spec fn sorted_row(nodes: Seq<Shape>) -> Seq<Shape>
    decreases nodes.len(),
{
    if nodes.len() == 0 {
        Seq::empty()
    } else {
        enter(sorted_row(nodes.drop_last()), nodes.last())
    }
}

/// The node over `a` as left and `b` as right child.
pub open spec fn join(a: Shape, b: Shape) -> Shape {
    Shape::Internal { freq: a.freq() + b.freq(), left: Box::new(a), right: Box::new(b) }
}

/// The tree that is left when the last two trees of the row are joined and
/// the result entered, until one tree remains.
pub open spec fn merged(row: Seq<Shape>) -> Shape
    decreases row.len(),
{
    if row.len() <= 1 {
        row[0]
    } else {
        let n = row.len() as int;
        merged(enter(row.take(n - 2), join(row[n - 1], row[n - 2])))
    }
}

/// The Huffman tree of a frequency table given as its pairs.
pub open spec fn huffman(pairs: Seq<(char, nat)>) -> Shape {
    merged(sorted_row(leaf_row(pairs)))
}

/// The symbols of all leaves of the trees of a row.
pub open spec fn row_symbols(row: Seq<Shape>) -> Set<char>
    decreases row.len(),
{
    if row.len() == 0 {
        Set::empty()
    } else {
        row_symbols(row.drop_last()).union(row.last().symbols())
    }
}

/// The number of leaves of the trees of a row.
pub open spec fn row_leaves(row: Seq<Shape>) -> nat
    decreases row.len(),
{
    if row.len() == 0 {
        0
    } else {
        row_leaves(row.drop_last()) + row.last().leaf_count()
    }
}

/// The sum of the frequencies of the trees of a row.
pub open spec fn row_weight(row: Seq<Shape>) -> nat
    decreases row.len(),
{
    if row.len() == 0 {
        0
    } else {
        row_weight(row.drop_last()) + row.last().freq()
    }
}

/// In every tree of the row the frequencies add up.
pub open spec fn row_consistent(row: Seq<Shape>) -> bool {
    forall|i: int| 0 <= i < row.len() ==> (#[trigger] row[i]).consistent()
}

/// A tree enters a row at one of its places or at its end.
pub proof fn lemma_slot_range(row: Seq<Shape>, f: nat)
    ensures
        0 <= slot(row, f) <= row.len(),
    decreases row.len(),
{
    if row.len() > 0 && row.last().freq() < f {
        lemma_slot_range(row.drop_last(), f);
    }
}

/// Entering a tree inserts it at its place.
pub proof fn lemma_enter_is_insert(row: Seq<Shape>, x: Shape)
    ensures
        0 <= slot(row, x.freq()) <= row.len(),
        enter(row, x) == row.insert(slot(row, x.freq()), x),
{
    lemma_slot_range(row, x.freq());
    assert(enter(row, x) =~= row.insert(slot(row, x.freq()), x));
}

proof fn lemma_row_insert(row: Seq<Shape>, at: int, x: Shape)
    requires
        0 <= at <= row.len(),
    ensures
        row_symbols(row.insert(at, x)) == row_symbols(row).union(x.symbols()),
        row_leaves(row.insert(at, x)) == row_leaves(row) + x.leaf_count(),
        row_weight(row.insert(at, x)) == row_weight(row) + x.freq(),
    decreases row.len(),
{
    let after = row.insert(at, x);
    if at == row.len() {
        assert(after.drop_last() =~= row);
    } else {
        lemma_row_insert(row.drop_last(), at, x);
        assert(after.drop_last() =~= row.drop_last().insert(at, x));
        assert(after.last() == row.last());
        assert(row_symbols(after) =~= row_symbols(row).union(x.symbols()));
    }
}

/// Entering a tree adds its leaves and its frequency to the row's.
pub proof fn lemma_enter(row: Seq<Shape>, x: Shape)
    ensures
        enter(row, x).len() == row.len() + 1,
        row_symbols(enter(row, x)) == row_symbols(row).union(x.symbols()),
        row_leaves(enter(row, x)) == row_leaves(row) + x.leaf_count(),
        row_weight(enter(row, x)) == row_weight(row) + x.freq(),
        row_consistent(row) && x.consistent() ==> row_consistent(enter(row, x)),
{
    lemma_enter_is_insert(row, x);
    lemma_row_insert(row, slot(row, x.freq()), x);
}

/// Taking the last two trees off a row takes their leaves and frequencies.
pub proof fn lemma_row_split(row: Seq<Shape>)
    requires
        row.len() >= 2,
    ensures
        row_symbols(row) == row_symbols(row.take(row.len() - 2)).union(
            row[row.len() - 2].symbols(),
        ).union(row[row.len() - 1].symbols()),
        row_leaves(row) == row_leaves(row.take(row.len() - 2)) + row[row.len()
            - 2].leaf_count() + row[row.len() - 1].leaf_count(),
        row_weight(row) == row_weight(row.take(row.len() - 2)) + row[row.len() - 2].freq()
            + row[row.len() - 1].freq(),
{
    let n = row.len() as int;
    reveal_with_fuel(row_symbols, 3);
    reveal_with_fuel(row_leaves, 3);
    reveal_with_fuel(row_weight, 3);
    assert(row.drop_last().drop_last() =~= row.take(n - 2));
    assert(row.drop_last().last() == row[n - 2]);
    assert(row_symbols(row) =~= row_symbols(row.take(n - 2)).union(row[n - 2].symbols()).union(
        row[n - 1].symbols(),
    ));
}

/// The merged tree has the leaves of the row and the sum of its frequencies.
pub proof fn lemma_merged(row: Seq<Shape>)
    requires
        row.len() >= 1,
        row_consistent(row),
    ensures
        merged(row).symbols() == row_symbols(row),
        merged(row).leaf_count() == row_leaves(row),
        merged(row).freq() == row_weight(row),
        merged(row).consistent(),
    decreases row.len(),
{
    if row.len() == 1 {
        reveal_with_fuel(row_symbols, 3);
        reveal_with_fuel(row_leaves, 3);
        reveal_with_fuel(row_weight, 3);
        assert(row.drop_last() =~= Seq::<Shape>::empty());
        assert(row_symbols(row) =~= row[0].symbols());
    } else {
        let n = row.len() as int;
        let rest = row.take(n - 2);
        let top = join(row[n - 1], row[n - 2]);
        assert(row[n - 1].consistent() && row[n - 2].consistent());
        assert(row_consistent(rest)) by {
            assert forall|i: int| 0 <= i < rest.len() implies (#[trigger] rest[i]).consistent() by {
                assert(rest[i] == row[i]);
            }
        }
        lemma_enter(rest, top);
        lemma_row_split(row);
        lemma_merged(enter(rest, top));
        assert(row_symbols(row) =~= row_symbols(enter(rest, top)));
    }
}

/// Entering trees one after the other keeps their leaves and frequencies.
pub proof fn lemma_sorted_row(nodes: Seq<Shape>)
    requires
        row_consistent(nodes),
    ensures
        sorted_row(nodes).len() == nodes.len(),
        row_symbols(sorted_row(nodes)) == row_symbols(nodes),
        row_leaves(sorted_row(nodes)) == row_leaves(nodes),
        row_weight(sorted_row(nodes)) == row_weight(nodes),
        row_consistent(sorted_row(nodes)),
    decreases nodes.len(),
{
    if nodes.len() > 0 {
        assert(row_consistent(nodes.drop_last())) by {
            assert forall|i: int| 0 <= i < nodes.drop_last().len() implies (
            #[trigger] nodes.drop_last()[i]).consistent() by {
                assert(nodes.drop_last()[i] == nodes[i]);
            }
        }
        assert(nodes.last().consistent());
        lemma_sorted_row(nodes.drop_last());
        lemma_enter(sorted_row(nodes.drop_last()), nodes.last());
    }
}

/// The row of leaves holds each pair's symbol and count, and nothing else.
pub proof fn lemma_leaf_row(pairs: Seq<(char, nat)>)
    ensures
        leaf_row(pairs).len() == pairs.len(),
        forall|i: int|
            0 <= i < pairs.len() ==> #[trigger] leaf_row(pairs)[i] == (Shape::Leaf {
                symbol: pairs[i].0,
                freq: pairs[i].1,
            }),
        row_consistent(leaf_row(pairs)),
        row_symbols(leaf_row(pairs)) == Set::new(|c: char| has_symbol(pairs, c)),
        row_leaves(leaf_row(pairs)) == pairs.len(),
        row_weight(leaf_row(pairs)) == total(pairs),
    decreases pairs.len(),
{
    let want = Set::new(|c: char| has_symbol(pairs, c));
    if pairs.len() == 0 {
        assert forall|c: char| !has_symbol(pairs, c) by {}
        assert(row_symbols(leaf_row(pairs)) =~= want);
    } else {
        let fewer = pairs.drop_last();
        lemma_leaf_row(fewer);
        lemma_code_point(pairs.last().0);
        assert(leaf_row(pairs).drop_last() =~= leaf_row(fewer));
        let got = row_symbols(leaf_row(pairs));
        assert forall|c: char| got.contains(c) <==> want.contains(c) by {
            if has_symbol(fewer, c) {
                let i = choose|i: int| 0 <= i < fewer.len() && #[trigger] fewer[i].0 == c;
                assert(pairs[i].0 == c);
            }
            if has_symbol(pairs, c) {
                let i = choose|i: int| 0 <= i < pairs.len() && #[trigger] pairs[i].0 == c;
                if i < pairs.len() - 1 {
                    assert(fewer[i].0 == c);
                }
            }
            if c == pairs.last().0 {
                assert(pairs[pairs.len() - 1].0 == c);
            }
        }
        assert(got =~= want);
    }
}

/// The Huffman tree of a table has one leaf for each symbol of the table, the
/// sum of the counts as its frequency, and sums of frequencies throughout.
pub proof fn lemma_huffman(pairs: Seq<(char, nat)>)
    requires
        pairs.len() > 0,
    ensures
        huffman(pairs).symbols() == Set::new(|c: char| has_symbol(pairs, c)),
        huffman(pairs).leaf_count() == pairs.len(),
        huffman(pairs).freq() == total(pairs),
        huffman(pairs).consistent(),
{
    lemma_leaf_row(pairs);
    lemma_sorted_row(leaf_row(pairs));
    lemma_merged(sorted_row(leaf_row(pairs)));
}

/// A table of one symbol gives a tree that is one leaf.
pub proof fn lemma_huffman_single(pairs: Seq<(char, nat)>)
    requires
        pairs.len() == 1,
    ensures
        huffman(pairs) == (Shape::Leaf { symbol: pairs[0].0, freq: pairs[0].1 }),
{
    lemma_leaf_row(pairs);
    let leaves = leaf_row(pairs);
    assert(leaves.drop_last() =~= Seq::<Shape>::empty());
    assert(sorted_row(leaves.drop_last()) =~= Seq::<Shape>::empty());
    let row = sorted_row(leaves);
    assert(row == enter(Seq::<Shape>::empty(), leaves.last()));
    assert(row.len() == 1);
    assert(slot(Seq::<Shape>::empty(), leaves.last().freq()) == 0);
    assert(row[0] == leaves[0]);
}

} // verus!
