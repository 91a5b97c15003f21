//! Counting the symbols of a text and the pairs of neighbouring symbols.

use crate::weights::{chars_of, lemma_code_point};
use vstd::prelude::*;

verus! {

/// What is counted: a symbol, or a symbol with the symbol in front of it.
#[derive(Clone, Copy, Debug, PartialEq, Eq, Structural)]
pub enum Gram {
    Single(char),
    Pair(char, char),
}

/// `g` ends at the last symbol of `s`.
pub open spec fn ends_with(s: Seq<char>, g: Gram) -> bool {
    match g {
        Gram::Single(c) => s.len() >= 1 && s[s.len() - 1] == c,
        Gram::Pair(a, b) => s.len() >= 2 && s[s.len() - 2] == a && s[s.len() - 1] == b,
    }
}

/// How often `g` occurs in `s`.
pub open spec fn gram_count(s: Seq<char>, g: Gram) -> nat
    decreases s.len(),
{
    if s.len() == 0 {
        0
    } else {
        gram_count(s.drop_last(), g) + if ends_with(s, g) {
            1nat
        } else {
            0nat
        }
    }
}

/// `g` is one of the grams of `entries`.
pub open spec fn has_gram(entries: Seq<(Gram, nat)>, g: Gram) -> bool {
    exists|i: int| 0 <= i < entries.len() && #[trigger] entries[i].0 == g
}

/// The count that `entries` give for `g`: zero where they do not hold it.
pub open spec fn count_of(entries: Seq<(Gram, nat)>, g: Gram) -> nat {
    if has_gram(entries, g) {
        let i = choose|i: int| 0 <= i < entries.len() && #[trigger] entries[i].0 == g;
        entries[i].1
    } else {
        0
    }
}

/// No gram stands twice in `entries`.
pub open spec fn distinct(entries: Seq<(Gram, nat)>) -> bool {
    forall|i: int, j: int|
        0 <= i < j < entries.len() ==> (#[trigger] entries[i]).0 != (#[trigger] entries[j]).0
}

/// `entries` with one more occurrence of `g` counted: at its place where the
/// gram is there, at the end where it is new.
pub open spec fn counted(entries: Seq<(Gram, nat)>, g: Gram) -> Seq<(Gram, nat)> {
    if has_gram(entries, g) {
        let i = choose|i: int| 0 <= i < entries.len() && #[trigger] entries[i].0 == g;
        entries.update(i, (g, (entries[i].1 + 1) as nat))
    } else {
        entries.push((g, 1nat))
    }
}

/// The grams of `s` with their counts, in the order in which they first end.
pub open spec fn tally(s: Seq<char>) -> Seq<(Gram, nat)>
    decreases s.len(),
{
    if s.len() == 0 {
        Seq::empty()
    } else {
        let singles = counted(tally(s.drop_last()), Gram::Single(s.last()));
        if s.len() >= 2 {
            counted(singles, Gram::Pair(s[s.len() - 2], s.last()))
        } else {
            singles
        }
    }
}

/// In distinct entries a gram stands at one place only.
pub proof fn lemma_count_at(entries: Seq<(Gram, nat)>, i: int)
    requires
        distinct(entries),
        0 <= i < entries.len(),
    ensures
        has_gram(entries, entries[i].0),
        count_of(entries, entries[i].0) == entries[i].1,
{
    let g = entries[i].0;
    let j = choose|j: int| 0 <= j < entries.len() && #[trigger] entries[j].0 == g;
    if j < i {
        assert(entries[j].0 != entries[i].0);
    }
    if i < j {
        assert(entries[i].0 != entries[j].0);
    }
}

/// Counting one more occurrence keeps the entries distinct and raises the
/// count of the gram, and of no other, by one.
pub proof fn lemma_counted(before: Seq<(Gram, nat)>, g: Gram)
    requires
        distinct(before),
    ensures
        distinct(counted(before, g)),
        forall|h: Gram| has_gram(counted(before, g), h) <==> has_gram(before, h) || h == g,
        forall|h: Gram|
            count_of(counted(before, g), h) == count_of(before, h) + if h == g {
                1nat
            } else {
                0nat
            },
{
    let after = counted(before, g);
    if has_gram(before, g) {
        let i = choose|i: int| 0 <= i < before.len() && #[trigger] before[i].0 == g;
        assert forall|a: int, b: int| 0 <= a < b < after.len() implies (#[trigger] after[a]).0 != (
        #[trigger] after[b]).0 by {
            assert(after[a].0 == before[a].0);
            assert(after[b].0 == before[b].0);
            assert(before[a].0 != before[b].0);
        }
        assert forall|h: Gram| has_gram(after, h) <==> has_gram(before, h) || h == g by {
            if has_gram(after, h) {
                let k = choose|k: int| 0 <= k < after.len() && #[trigger] after[k].0 == h;
                assert(before[k].0 == h);
            }
            if has_gram(before, h) {
                let k = choose|k: int| 0 <= k < before.len() && #[trigger] before[k].0 == h;
                assert(after[k].0 == h);
            }
        }
        assert forall|h: Gram|
            count_of(after, h) == count_of(before, h) + if h == g {
                1nat
            } else {
                0nat
            } by {
            if has_gram(after, h) {
                let k = choose|k: int| 0 <= k < after.len() && #[trigger] after[k].0 == h;
                assert(before[k].0 == h);
                lemma_count_at(after, k);
                lemma_count_at(before, k);
                if h == g {
                    lemma_count_at(before, i);
                }
            }
        }
    } else {
        let n = before.len() as int;
        assert forall|a: int, b: int| 0 <= a < b < after.len() implies (#[trigger] after[a]).0 != (
        #[trigger] after[b]).0 by {
            assert(after[a] == before[a]);
            if b < n {
                assert(after[b] == before[b]);
                assert(before[a].0 != before[b].0);
            } else {
                assert(before[a].0 != g);
            }
        }
        assert forall|h: Gram| has_gram(after, h) <==> has_gram(before, h) || h == g by {
            if has_gram(after, h) {
                let k = choose|k: int| 0 <= k < after.len() && #[trigger] after[k].0 == h;
                if k < n {
                    assert(before[k].0 == h);
                }
            }
            if has_gram(before, h) {
                let k = choose|k: int| 0 <= k < before.len() && #[trigger] before[k].0 == h;
                assert(after[k].0 == h);
            }
            if h == g {
                assert(after[n].0 == h);
            }
        }
        assert forall|h: Gram|
            count_of(after, h) == count_of(before, h) + if h == g {
                1nat
            } else {
                0nat
            } by {
            if has_gram(after, h) {
                let k = choose|k: int| 0 <= k < after.len() && #[trigger] after[k].0 == h;
                lemma_count_at(after, k);
                if k < n {
                    assert(before[k].0 == h);
                    lemma_count_at(before, k);
                }
            }
        }
    }
}

/// The tally of a text holds each gram once, with the number of its
/// occurrences, which is at most the length of the text.
pub proof fn lemma_tally(s: Seq<char>)
    ensures
        distinct(tally(s)),
        forall|g: Gram| count_of(tally(s), g) == gram_count(s, g),
        forall|g: Gram| gram_count(s, g) <= s.len(),
    decreases s.len(),
{
    if s.len() == 0 {
        assert forall|g: Gram| !has_gram(tally(s), g) by {}
    } else {
        let shorter = s.drop_last();
        lemma_tally(shorter);
        lemma_code_point(s.last());
        let single = Gram::Single(s.last());
        let singles = counted(tally(shorter), single);
        lemma_counted(tally(shorter), single);
        if s.len() >= 2 {
            lemma_code_point(s[s.len() - 2]);
            let pair = Gram::Pair(s[s.len() - 2], s.last());
            lemma_counted(singles, pair);
            assert forall|g: Gram| count_of(tally(s), g) == gram_count(s, g) by {
                assert(count_of(tally(shorter), g) == gram_count(shorter, g));
            }
        } else {
            assert forall|g: Gram| count_of(tally(s), g) == gram_count(s, g) by {
                assert(count_of(tally(shorter), g) == gram_count(shorter, g));
            }
        }
        assert forall|g: Gram| gram_count(s, g) <= s.len() by {
            assert(gram_count(shorter, g) <= shorter.len());
        }
    }
}

/// The tally of a text gives one gram the number of its occurrences.
pub proof fn lemma_tally_at(s: Seq<char>, g: Gram)
    ensures
        distinct(tally(s)),
        count_of(tally(s), g) == gram_count(s, g),
        gram_count(s, g) <= s.len(),
{
    lemma_tally(s);
}

/// Grams with their counts.
#[derive(Debug)]
pub struct GramTable {
    entries: Vec<(Gram, usize)>,
}

impl GramTable {
    /// The grams with their counts, in the order in which they came.
    pub closed spec fn entries(&self) -> Seq<(Gram, nat)> {
        Seq::new(self.entries@.len(), |i: int| (self.entries@[i].0, self.entries@[i].1 as nat))
    }

    /// The count of `g`: zero where the table does not hold it.
    pub open spec fn count(&self, g: Gram) -> nat {
        count_of(self.entries(), g)
    }

    /// A table without grams.
    pub fn new() -> (table: GramTable)
        ensures
            table.entries() == Seq::<(Gram, nat)>::empty(),
    {
        let table = GramTable { entries: Vec::new() };
        assert(table.entries() =~= Seq::<(Gram, nat)>::empty());
        table
    }

    /// The number of grams.
    pub fn len(&self) -> (n: usize)
        ensures
            n == self.entries().len(),
    {
        self.entries.len()
    }

    /// The gram and count at place `i`.
    pub fn entry(&self, i: usize) -> (e: (Gram, usize))
        requires
            i < self.entries().len(),
        ensures
            (e.0, e.1 as nat) == self.entries()[i as int],
    {
        self.entries[i]
    }

    /// The count of `g`.
    pub fn get(&self, g: Gram) -> (n: usize)
        requires
            distinct(self.entries()),
        ensures
            n == self.count(g),
    {
        let mut i: usize = 0;
        while i < self.entries.len()
            invariant
                i <= self.entries@.len(),
                distinct(self.entries()),
                forall|k: int| 0 <= k < i ==> (#[trigger] self.entries()[k]).0 != g,
            decreases self.entries@.len() - i,
        {
            if self.entries[i].0 == g {
                proof {
                    lemma_count_at(self.entries(), i as int);
                }
                return self.entries[i].1;
            }
            i = i + 1;
        }
        0
    }

    /// Counts one more occurrence of `g`.
    fn record(&mut self, g: Gram)
        requires
            distinct(old(self).entries()),
            count_of(old(self).entries(), g) < usize::MAX,
        ensures
            final(self).entries() == counted(old(self).entries(), g),
    {
        let ghost before = self.entries();
        let mut i: usize = 0;
        while i < self.entries.len()
            invariant
                i <= self.entries@.len(),
                self.entries() == before,
                before == old(self).entries(),
                distinct(before),
                count_of(before, g) < usize::MAX,
                forall|k: int| 0 <= k < i ==> (#[trigger] before[k]).0 != g,
            decreases self.entries@.len() - i,
        {
            if self.entries[i].0 == g {
                let n: usize = self.entries[i].1;
                proof {
                    lemma_count_at(before, i as int);
                    let j = choose|j: int| 0 <= j < before.len() && #[trigger] before[j].0 == g;
                    if j != i {
                        assert(before[j].0 != before[i as int].0);
                    }
                }
                self.entries.set(i, (g, n + 1));
                assert(self.entries() =~= counted(before, g));
                return ;
            }
            i = i + 1;
        }
        proof {
            assert(!has_gram(before, g)) by {
                if has_gram(before, g) {
                    let j = choose|j: int| 0 <= j < before.len() && #[trigger] before[j].0 == g;
                }
            }
        }
        self.entries.push((g, 1));
        assert(self.entries() =~= counted(before, g));
    }
}

/// How often each symbol of `s` occurs, and how often each pair of
/// neighbouring symbols.
pub fn build_weights(s: Vec<char>) -> (table: GramTable)
    ensures
        table.entries() == tally(s@),
        distinct(table.entries()),
        forall|g: Gram| table.count(g) == gram_count(s@, g),
{
    let mut table = GramTable::new();
    let mut i: usize = 0;
    assert(s@.take(0) =~= Seq::<char>::empty());
    while i < s.len()
        invariant
            i <= s@.len(),
            table.entries() == tally(s@.take(i as int)),
        decreases s@.len() - i,
    {
        let ghost seen = s@.take(i as int);
        let ghost now = s@.take(i + 1);
        proof {
            lemma_tally(seen);
            assert(now.drop_last() =~= seen);
            assert(now.last() == s@[i as int]);
        }
        let last: char = s[i];
        let single = Gram::Single(last);
        proof {
            lemma_code_point(last);
            lemma_tally_at(seen, single);
        }
        table.record(single);
        if i != 0 {
            let first: char = s[i - 1];
            let pair = Gram::Pair(first, last);
            proof {
                lemma_code_point(first);
                lemma_counted(tally(seen), single);
                lemma_tally_at(seen, pair);
                assert(count_of(counted(tally(seen), single), pair) == count_of(tally(seen), pair));
                assert(now[now.len() - 2] == s@[i - 1]);
            }
            table.record(pair);
        }
        i = i + 1;
    }
    proof {
        assert(s@.take(s@.len() as int) =~= s@);
        lemma_tally(s@);
    }
    table
}

/// A table for counts of a second kind over `s`: nothing is counted into it.
pub fn build_second(s: &str) -> (table: GramTable)
    ensures
        table.entries() == Seq::<(Gram, nat)>::empty(),
{
    let _ = chars_of(s);
    GramTable::new()
}

} // verus!
