//! What holds of the codes of a tree: each is the path to a leaf with its
//! symbol, and none is the beginning of another.

use crate::node::Shape;
use vstd::prelude::*;

verus! {

/// `p` is the beginning of `q`.
pub open spec fn is_prefix(p: Seq<bool>, q: Seq<bool>) -> bool {
    p.len() <= q.len() && q.take(p.len() as int) == p
}

/// `code` is a code for `c` in `root`: the path from the root to a leaf with
/// the symbol `c` or, where the root is that leaf, a single bit.
pub open spec fn code_leads(root: Shape, code: Seq<bool>, c: char) -> bool {
    match root {
        Shape::Leaf { symbol, .. } => symbol == c && code.len() == 1,
        Shape::Internal { .. } => root.leaf_at(code, 0) == Some(c),
    }
}

/// What gathering the codes below a node does to one symbol's entry.
pub proof fn lemma_gather(t: Shape, path: Seq<bool>, codes: Map<char, Seq<bool>>, c: char)
    ensures
        t.gather(path, codes).contains_key(c) <==> codes.contains_key(c) || t.symbols().contains(
            c,
        ),
        t.symbols().contains(c) ==> is_prefix(path, t.gather(path, codes)[c]) && t.leaf_at(
            t.gather(path, codes)[c],
            path.len() as int,
        ) == Some(c),
        !t.symbols().contains(c) && codes.contains_key(c) ==> t.gather(path, codes)[c] == codes[c],
    decreases t,
{
    match t {
        Shape::Leaf { symbol, .. } => {
            if symbol == c {
                assert(path.take(path.len() as int) =~= path);
            }
        },
        Shape::Internal { left, right, .. } => {
            let lower = left.gather(path.push(false), codes);
            let all = right.gather(path.push(true), lower);
            lemma_gather(*left, path.push(false), codes, c);
            lemma_gather(*right, path.push(true), lower, c);
            if right.symbols().contains(c) {
                let code = all[c];
                assert(code.take(path.len() as int) =~= code.take(path.len() as int + 1).take(
                    path.len() as int,
                ));
                assert(path.push(true).take(path.len() as int) =~= path);
                assert(code[path.len() as int] == code.take(path.len() as int + 1)[path.len() as int]);
            } else if left.symbols().contains(c) {
                let code = all[c];
                assert(code.take(path.len() as int) =~= code.take(path.len() as int + 1).take(
                    path.len() as int,
                ));
                assert(path.push(false).take(path.len() as int) =~= path);
                assert(code[path.len() as int] == code.take(path.len() as int + 1)[path.len() as int]);
            }
        },
    }
}

/// The symbols that have a code are the symbols of the leaves, and each code
/// leads to a leaf with its symbol.
pub proof fn lemma_codes(t: Shape, c: char)
    ensures
        t.codes().contains_key(c) <==> t.symbols().contains(c),
        t.symbols().contains(c) ==> code_leads(t, t.codes()[c], c) && t.codes()[c].len() >= 1,
{
    match t {
        Shape::Leaf { symbol, .. } => {},
        Shape::Internal { .. } => {
            lemma_gather(t, Seq::empty(), Map::empty(), c);
        },
    }
}

/// Of two paths that end at leaves, one the beginning of the other, both are
/// the same path.
pub proof fn lemma_leaf_paths(t: Shape, p: Seq<bool>, q: Seq<bool>, from: int)
    requires
        is_prefix(p, q),
        0 <= from <= p.len(),
        t.leaf_at(p, from) is Some,
        t.leaf_at(q, from) is Some,
    ensures
        p == q,
        t.leaf_at(p, from) == t.leaf_at(q, from),
    decreases t,
{
    match t {
        Shape::Leaf { .. } => {
            assert(q.take(p.len() as int) =~= q);
        },
        Shape::Internal { left, right, .. } => {
            assert(p[from] == q.take(p.len() as int)[from]);
            if p[from] {
                lemma_leaf_paths(*right, p, q, from + 1);
            } else {
                lemma_leaf_paths(*left, p, q, from + 1);
            }
        },
    }
}

/// No code of a tree is the beginning of the code of another symbol.
pub proof fn lemma_prefix_free(t: Shape, a: char, b: char)
    requires
        a != b,
        t.codes().contains_key(a),
        t.codes().contains_key(b),
    ensures
        !is_prefix(t.codes()[a], t.codes()[b]),
{
    lemma_codes(t, a);
    lemma_codes(t, b);
    match t {
        Shape::Leaf { .. } => {},
        Shape::Internal { .. } => {
            if is_prefix(t.codes()[a], t.codes()[b]) {
                lemma_leaf_paths(t, t.codes()[a], t.codes()[b], 0);
            }
        },
    }
}

} // verus!
