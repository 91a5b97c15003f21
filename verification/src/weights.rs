//! The frequency table: how often each symbol occurs in a text.

use vstd::prelude::*;

verus! {

/// How often `c` occurs in `s`.
pub open spec fn occurrences(s: Seq<char>, c: char) -> nat
    decreases s.len(),
{
    if s.len() == 0 {
        0
    } else {
        occurrences(s.drop_last(), c) + if s.last() == c {
            1nat
        } else {
            0nat
        }
    }
}

/// `c` is the symbol of one of `pairs`.
pub open spec fn has_symbol(pairs: Seq<(char, nat)>, c: char) -> bool {
    exists|i: int| 0 <= i < pairs.len() && #[trigger] pairs[i].0 == c
}

/// The count that `pairs` gives for `c`: zero where `c` is no symbol of them.
pub open spec fn count_in(pairs: Seq<(char, nat)>, c: char) -> nat {
    if has_symbol(pairs, c) {
        let i = choose|i: int| 0 <= i < pairs.len() && #[trigger] pairs[i].0 == c;
        pairs[i].1
    } else {
        0
    }
}

/// The symbols rise strictly by code point, so none occurs twice.
pub open spec fn ascending(pairs: Seq<(char, nat)>) -> bool {
    forall|i: int, j: int|
        0 <= i < j < pairs.len() ==> (#[trigger] pairs[i].0 as int) < (#[trigger] pairs[j].0 as int)
}

/// A symbol's code point is a Unicode scalar value, and tells the symbol from
/// every other.
pub proof fn lemma_code_point(c: char)
    ensures
        0 <= c as int <= 0xD7FF || 0xE000 <= c as int <= 0x10FFFF,
        c as u32 == c as int,
        c as u32 as char == c,
{
}

/// The sum of the counts.
pub open spec fn total(pairs: Seq<(char, nat)>) -> nat
    decreases pairs.len(),
{
    if pairs.len() == 0 {
        0
    } else {
        total(pairs.drop_last()) + pairs.last().1
    }
}

/// Replacing a pair changes the sum of the counts by the difference of the
/// two counts.
pub proof fn lemma_total_update(pairs: Seq<(char, nat)>, i: int, entry: (char, nat))
    requires
        0 <= i < pairs.len(),
    ensures
        total(pairs.update(i, entry)) + pairs[i].1 == total(pairs) + entry.1,
    decreases pairs.len(),
{
    if i == pairs.len() - 1 {
        assert(pairs.update(i, entry).drop_last() =~= pairs.drop_last());
    } else {
        lemma_total_update(pairs.drop_last(), i, entry);
        assert(pairs.update(i, entry).drop_last() =~= pairs.drop_last().update(i, entry));
    }
}

/// Inserting a pair adds its count to the sum of the counts.
pub proof fn lemma_total_insert(pairs: Seq<(char, nat)>, i: int, entry: (char, nat))
    requires
        0 <= i <= pairs.len(),
    ensures
        total(pairs.insert(i, entry)) == total(pairs) + entry.1,
    decreases pairs.len(),
{
    if i == pairs.len() {
        assert(pairs.insert(i, entry).drop_last() =~= pairs);
    } else {
        lemma_total_insert(pairs.drop_last(), i, entry);
        assert(pairs.insert(i, entry).drop_last() =~= pairs.drop_last().insert(i, entry));
    }
}

/// No count is above the sum of the counts.
pub proof fn lemma_count_le_total(pairs: Seq<(char, nat)>, i: int)
    requires
        0 <= i < pairs.len(),
    ensures
        pairs[i].1 <= total(pairs),
    decreases pairs.len(),
{
    if i < pairs.len() - 1 {
        lemma_count_le_total(pairs.drop_last(), i);
    }
}

/// Strictly rising code points leave room for no more symbols than there are
/// code points.
pub proof fn lemma_ascending_len(pairs: Seq<(char, nat)>)
    requires
        ascending(pairs),
    ensures
        pairs.len() <= 0x110000,
{
    if pairs.len() > 0 {
        lemma_ascending_gap(pairs, pairs.len() - 1);
        lemma_code_point(pairs[pairs.len() - 1].0);
    }
}

proof fn lemma_ascending_gap(pairs: Seq<(char, nat)>, i: int)
    requires
        ascending(pairs),
        0 <= i < pairs.len(),
    ensures
        pairs[i].0 as int >= i,
    decreases i,
{
    if i > 0 {
        lemma_ascending_gap(pairs, i - 1);
        assert((pairs[i - 1].0 as int) < (pairs[i].0 as int));
    } else {
        lemma_code_point(pairs[i].0);
    }
}

/// In rising pairs a symbol stands at one place only.
pub proof fn lemma_count_at(pairs: Seq<(char, nat)>, i: int)
    requires
        ascending(pairs),
        0 <= i < pairs.len(),
    ensures
        has_symbol(pairs, pairs[i].0),
        count_in(pairs, pairs[i].0) == pairs[i].1,
{
    let c = pairs[i].0;
    let j = choose|j: int| 0 <= j < pairs.len() && #[trigger] pairs[j].0 == c;
    assert(j == i) by {
        if j < i {
            assert((pairs[j].0 as int) < (pairs[i].0 as int));
        }
        if i < j {
            assert((pairs[i].0 as int) < (pairs[j].0 as int));
        }
    }
}

/// The number of pairs whose symbol comes before `c`, in rising pairs.
pub open spec fn rank(pairs: Seq<(char, nat)>, c: char) -> int
    decreases pairs.len(),
{
    if pairs.len() == 0 {
        0
    } else if (pairs.last().0 as int) < (c as int) {
        pairs.len() as int
    } else {
        rank(pairs.drop_last(), c)
    }
}

/// Rising pairs with one more occurrence of `c` counted.
pub open spec fn recorded(pairs: Seq<(char, nat)>, c: char) -> Seq<(char, nat)> {
    let i = rank(pairs, c);
    if i < pairs.len() && pairs[i].0 == c {
        pairs.update(i, (c, (pairs[i].1 + 1) as nat))
    } else {
        pairs.insert(i, (c, 1nat))
    }
}

/// The rank of a symbol parts rising pairs into those before it and the rest.
pub proof fn lemma_rank(pairs: Seq<(char, nat)>, c: char)
    requires
        ascending(pairs),
    ensures
        0 <= rank(pairs, c) <= pairs.len(),
        forall|k: int| 0 <= k < rank(pairs, c) ==> (#[trigger] pairs[k].0 as int) < (c as int),
        forall|k: int|
            rank(pairs, c) <= k < pairs.len() ==> (#[trigger] pairs[k].0 as int) >= (c as int),
    decreases pairs.len(),
{
    if pairs.len() > 0 {
        let n = pairs.len() - 1;
        if (pairs.last().0 as int) < (c as int) {
            assert forall|k: int| 0 <= k < pairs.len() implies (#[trigger] pairs[k].0 as int) < (
            c as int) by {
                if k < n {
                    assert((pairs[k].0 as int) < (pairs[n].0 as int));
                }
            }
        } else {
            let fewer = pairs.drop_last();
            assert forall|a: int, b: int| 0 <= a < b < fewer.len() implies (
            #[trigger] fewer[a].0 as int) < (#[trigger] fewer[b].0 as int) by {
                assert((pairs[a].0 as int) < (pairs[b].0 as int));
            }
            lemma_rank(fewer, c);
            assert forall|k: int| 0 <= k < rank(pairs, c) implies (#[trigger] pairs[k].0 as int)
                < (c as int) by {
                assert(fewer[k] == pairs[k]);
            }
            assert forall|k: int| rank(pairs, c) <= k < pairs.len() implies (
            #[trigger] pairs[k].0 as int) >= (c as int) by {
                if k < n {
                    assert(fewer[k] == pairs[k]);
                }
            }
        }
    }
}

/// Counting one more occurrence keeps the pairs rising, adds the symbol where
/// it was not there, and raises its count and the sum of the counts by one.
pub proof fn lemma_recorded(before: Seq<(char, nat)>, c: char)
    requires
        ascending(before),
    ensures
        ascending(recorded(before, c)),
        total(recorded(before, c)) == total(before) + 1,
        forall|x: char|
            count_in(recorded(before, c), x) == count_in(before, x) + if x == c {
                1nat
            } else {
                0nat
            },
        forall|x: char| has_symbol(recorded(before, c), x) <==> has_symbol(before, x) || x == c,
{
    lemma_rank(before, c);
    let i = rank(before, c);
    let code = c as int;
    let after = recorded(before, c);
    if i < before.len() && before[i].0 == c {
        let n = before[i].1;
        lemma_total_update(before, i, (c, (n + 1) as nat));
        assert forall|a: int, b: int| 0 <= a < b < after.len() implies (
        #[trigger] after[a].0 as int) < (#[trigger] after[b].0 as int) by {
            assert(after[a].0 == before[a].0);
            assert(after[b].0 == before[b].0);
            assert((before[a].0 as int) < (before[b].0 as int));
        }
        assert forall|x: char| has_symbol(after, x) <==> has_symbol(before, x) || x == c by {
            if has_symbol(after, x) {
                let k = choose|k: int| 0 <= k < after.len() && #[trigger] after[k].0 == x;
                assert(before[k].0 == x);
            }
            if has_symbol(before, x) {
                let k = choose|k: int| 0 <= k < before.len() && #[trigger] before[k].0 == x;
                assert(after[k].0 == x);
            }
            if x == c {
                assert(after[i].0 == x);
            }
        }
        assert forall|x: char|
            count_in(after, x) == count_in(before, x) + if x == c {
                1nat
            } else {
                0nat
            } by {
            if has_symbol(after, x) {
                let k = choose|k: int| 0 <= k < after.len() && #[trigger] after[k].0 == x;
                assert(before[k].0 == x);
                lemma_count_at(after, k);
                lemma_count_at(before, k);
            }
        }
    } else {
        lemma_total_insert(before, i, (c, 1nat));
        assert forall|k: int| i <= k < before.len() implies code < (
        #[trigger] before[k].0 as int) by {
            if k > i {
                assert((before[i].0 as int) < (before[k].0 as int));
            } else {
                lemma_code_point(before[k].0);
                lemma_code_point(c);
            }
        }
        assert forall|a: int, b: int| 0 <= a < b < after.len() implies (
        #[trigger] after[a].0 as int) < (#[trigger] after[b].0 as int) by {
            if a < i {
                assert(after[a] == before[a]);
            } else if a > i {
                assert(after[a] == before[a - 1]);
            }
            if b < i {
                assert(after[b] == before[b]);
            } else if b > i {
                assert(after[b] == before[b - 1]);
            }
            if a < i && b > i {
                assert((before[a].0 as int) < (before[b - 1].0 as int) || a == b - 1);
            }
            if a > i {
                assert((before[a - 1].0 as int) < (before[b - 1].0 as int));
            }
            if b < i {
                assert((before[a].0 as int) < (before[b].0 as int));
            }
        }
        assert(!has_symbol(before, c)) by {
            if has_symbol(before, c) {
                let k = choose|k: int| 0 <= k < before.len() && #[trigger] before[k].0 == c;
                if k < i {
                    assert((before[k].0 as int) < code);
                } else {
                    assert(code < (before[k].0 as int));
                }
            }
        }
        assert forall|x: char| has_symbol(after, x) <==> has_symbol(before, x) || x == c by {
            if has_symbol(after, x) {
                let k = choose|k: int| 0 <= k < after.len() && #[trigger] after[k].0 == x;
                if k < i {
                    assert(before[k].0 == x);
                } else if k > i {
                    assert(before[k - 1].0 == x);
                }
            }
            if has_symbol(before, x) {
                let k = choose|k: int| 0 <= k < before.len() && #[trigger] before[k].0 == x;
                if k < i {
                    assert(after[k].0 == x);
                } else {
                    assert(after[k + 1].0 == x);
                }
            }
            if x == c {
                assert(after[i].0 == x);
            }
        }
        assert forall|x: char|
            count_in(after, x) == count_in(before, x) + if x == c {
                1nat
            } else {
                0nat
            } by {
            if has_symbol(after, x) {
                let k = choose|k: int| 0 <= k < after.len() && #[trigger] after[k].0 == x;
                lemma_count_at(after, k);
                if k < i {
                    assert(before[k].0 == x);
                    lemma_count_at(before, k);
                } else if k > i {
                    assert(before[k - 1].0 == x);
                    lemma_count_at(before, k - 1);
                }
            }
        }
    }
}

/// Symbols with their counts, kept in the order of the symbols' code points.
#[derive(Debug)]
pub struct FrequencyTable {
    entries: Vec<(char, usize)>,
}

impl FrequencyTable {
    /// The symbols with their counts, in the order of the code points.
    pub closed spec fn pairs(&self) -> Seq<(char, nat)> {
        Seq::new(self.entries@.len(), |i: int| (self.entries@[i].0, self.entries@[i].1 as nat))
    }

    /// The count of `c`: zero where the table does not hold it.
    pub open spec fn count(&self, c: char) -> nat {
        count_in(self.pairs(), c)
    }

    /// No symbol twice, and counts whose sum a `usize` holds.
    pub open spec fn wf(&self) -> bool {
        &&& ascending(self.pairs())
        &&& total(self.pairs()) <= usize::MAX
    }

    /// A table without symbols.
    pub fn new() -> (table: FrequencyTable)
        ensures
            table.wf(),
            table.pairs() == Seq::<(char, nat)>::empty(),
    {
        let table = FrequencyTable { entries: Vec::new() };
        assert(table.pairs() =~= Seq::<(char, nat)>::empty());
        table
    }

    /// The number of symbols.
    pub fn len(&self) -> (n: usize)
        ensures
            n == self.pairs().len(),
    {
        self.entries.len()
    }

    /// Whether the table holds no symbol.
    pub fn is_empty(&self) -> (empty: bool)
        ensures
            empty == (self.pairs().len() == 0),
    {
        self.entries.len() == 0
    }

    /// The symbol and count at place `i` in the order of the code points.
    pub fn entry(&self, i: usize) -> (e: (char, usize))
        requires
            i < self.pairs().len(),
        ensures
            (e.0, e.1 as nat) == self.pairs()[i as int],
    {
        self.entries[i]
    }

    /// The count of `c`.
    pub fn get(&self, c: char) -> (n: usize)
        requires
            self.wf(),
        ensures
            n == self.count(c),
    {
        let mut i: usize = 0;
        while i < self.entries.len()
            invariant
                i <= self.entries@.len(),
                self.wf(),
                forall|k: int| 0 <= k < i ==> (#[trigger] self.pairs()[k]).0 != c,
            decreases self.entries@.len() - i,
        {
            if self.entries[i].0 == c {
                proof {
                    lemma_count_at(self.pairs(), i as int);
                }
                return self.entries[i].1;
            }
            i = i + 1;
        }
        0
    }

    /// Counts one more occurrence of `c`.
    pub fn record(&mut self, c: char)
        requires
            old(self).wf(),
            total(old(self).pairs()) < usize::MAX,
        ensures
            final(self).wf(),
            final(self).pairs() == recorded(old(self).pairs(), c),
    {
        let ghost before = self.pairs();
        let code: u32 = c as u32;
        let mut i: usize = 0;
        let mut searching = true;
        while searching && i < self.entries.len()
            invariant
                i <= self.entries@.len(),
                self.pairs() == before,
                code == c as int,
                forall|k: int| 0 <= k < i ==> (#[trigger] before[k].0 as int) < code,
                !searching ==> i < before.len() && before[i as int].0 as int >= code,
            decreases self.entries@.len() - i + if searching {
                1int
            } else {
                0int
            },
        {
            let symbol: char = self.entries[i].0;
            proof {
                lemma_code_point(symbol);
            }
            if (symbol as u32) < code {
                i = i + 1;
            } else {
                searching = false;
            }
        }
        proof {
            lemma_rank(before, c);
            lemma_recorded(before, c);
            let r = rank(before, c);
            if i < r {
                assert((before[i as int].0 as int) < (c as int));
            }
            if r < i {
                assert((before[r].0 as int) < code);
            }
            assert(r == i);
        }
        if i < self.entries.len() && self.entries[i].0 == c {
            let n: usize = self.entries[i].1;
            proof {
                lemma_count_le_total(before, i as int);
            }
            self.entries.set(i, (c, n + 1));
            assert(self.pairs() =~= before.update(i as int, (c, (n + 1) as nat)));
        } else {
            self.entries.insert(i, (c, 1));
            assert(self.pairs() =~= before.insert(i as int, (c, 1nat)));
        }
    }
}

/// `pairs` is the frequency table of `text`: its symbols are the symbols that
/// occur in `text`, in the order of their code points, each with the number
/// of its occurrences.
pub open spec fn is_table_of(pairs: Seq<(char, nat)>, text: Seq<char>) -> bool {
    &&& ascending(pairs)
    &&& forall|c: char| has_symbol(pairs, c) <==> text.contains(c)
    &&& forall|c: char| count_in(pairs, c) == occurrences(text, c)
}

/// The frequency table of `text`.
pub open spec fn frequencies(text: Seq<char>) -> Seq<(char, nat)> {
    choose|pairs: Seq<(char, nat)>| is_table_of(pairs, text)
}

/// Counting one more symbol of a text gives the table of the longer text.
pub proof fn lemma_recorded_table(pairs: Seq<(char, nat)>, text: Seq<char>, c: char)
    requires
        is_table_of(pairs, text),
    ensures
        is_table_of(recorded(pairs, c), text.push(c)),
{
    lemma_recorded(pairs, c);
    let after = recorded(pairs, c);
    let longer = text.push(c);
    assert forall|x: char| has_symbol(after, x) <==> longer.contains(x) by {
        lemma_occurrences_positive(longer, x);
        lemma_occurrences_positive(text, x);
        lemma_occurrences_push(text, c, x);
    }
    assert forall|x: char| count_in(after, x) == occurrences(longer, x) by {
        lemma_occurrences_push(text, c, x);
    }
}

/// Every text has a frequency table.
pub proof fn lemma_table_exists(text: Seq<char>)
    ensures
        is_table_of(frequencies(text), text),
    decreases text.len(),
{
    if text.len() == 0 {
        let none = Seq::<(char, nat)>::empty();
        assert forall|c: char| !has_symbol(none, c) by {}
        assert forall|c: char| !text.contains(c) by {}
        assert(is_table_of(none, text));
    } else {
        let shorter = text.drop_last();
        lemma_table_exists(shorter);
        lemma_recorded_table(frequencies(shorter), shorter, text.last());
        assert(shorter.push(text.last()) =~= text);
        assert(is_table_of(recorded(frequencies(shorter), text.last()), text));
    }
}

/// A text has one frequency table.
pub proof fn lemma_table_unique(p: Seq<(char, nat)>, q: Seq<(char, nat)>, text: Seq<char>)
    requires
        is_table_of(p, text),
        is_table_of(q, text),
    ensures
        p == q,
{
    lemma_same_symbols(p, q);
    assert forall|i: int| 0 <= i < p.len() implies p[i] == q[i] by {
        lemma_count_at(p, i);
        lemma_count_at(q, i);
    }
    assert(p =~= q);
}

/// Rising pairs with the same symbols hold them at the same places.
proof fn lemma_same_symbols(p: Seq<(char, nat)>, q: Seq<(char, nat)>)
    requires
        ascending(p),
        ascending(q),
        forall|c: char| has_symbol(p, c) <==> has_symbol(q, c),
    ensures
        p.len() == q.len(),
        forall|i: int| 0 <= i < p.len() ==> (#[trigger] p[i]).0 == q[i].0,
    decreases p.len(),
{
    if p.len() == 0 {
        if q.len() > 0 {
            assert(has_symbol(q, q[0].0));
            let i = choose|i: int| 0 <= i < p.len() && #[trigger] p[i].0 == q[0].0;
        }
    } else if q.len() == 0 {
        assert(has_symbol(p, p[0].0));
        let i = choose|i: int| 0 <= i < q.len() && #[trigger] q[i].0 == p[0].0;
    } else {
        let pl = p.last().0;
        let ql = q.last().0;
        assert(has_symbol(p, pl)) by {
            assert(p[p.len() - 1].0 == pl);
        }
        assert(has_symbol(q, ql)) by {
            assert(q[q.len() - 1].0 == ql);
        }
        let i = choose|i: int| 0 <= i < q.len() && #[trigger] q[i].0 == pl;
        let j = choose|j: int| 0 <= j < p.len() && #[trigger] p[j].0 == ql;
        assert(pl == ql) by {
            lemma_code_point(pl);
            lemma_code_point(ql);
            if i < q.len() - 1 {
                assert((q[i].0 as int) < (q[q.len() - 1].0 as int));
            }
            if j < p.len() - 1 {
                assert((p[j].0 as int) < (p[p.len() - 1].0 as int));
            }
        }
        let pf = p.drop_last();
        let qf = q.drop_last();
        assert forall|c: char| has_symbol(pf, c) <==> has_symbol(qf, c) by {
            lemma_drop_last_symbols(p, c);
            lemma_drop_last_symbols(q, c);
        }
        lemma_same_symbols(pf, qf);
        assert forall|k: int| 0 <= k < p.len() implies (#[trigger] p[k]).0 == q[k].0 by {
            if k < p.len() - 1 {
                assert(pf[k].0 == qf[k].0);
            }
        }
    }
}

/// Without their last pair, rising pairs hold the same symbols but the last.
proof fn lemma_drop_last_symbols(p: Seq<(char, nat)>, c: char)
    requires
        ascending(p),
        p.len() > 0,
    ensures
        ascending(p.drop_last()),
        has_symbol(p.drop_last(), c) <==> has_symbol(p, c) && c != p.last().0,
{
    let f = p.drop_last();
    assert forall|a: int, b: int| 0 <= a < b < f.len() implies (#[trigger] f[a].0 as int) < (
    #[trigger] f[b].0 as int) by {
        assert((p[a].0 as int) < (p[b].0 as int));
    }
    if has_symbol(f, c) {
        let i = choose|i: int| 0 <= i < f.len() && #[trigger] f[i].0 == c;
        assert(p[i].0 == c);
        assert((p[i].0 as int) < (p[p.len() - 1].0 as int));
    }
    if has_symbol(p, c) && c != p.last().0 {
        let i = choose|i: int| 0 <= i < p.len() && #[trigger] p[i].0 == c;
        assert(f[i].0 == c);
    }
}

proof fn lemma_occurrences_push(s: Seq<char>, c: char, x: char)
    ensures
        occurrences(s.push(c), x) == occurrences(s, x) + if x == c {
            1nat
        } else {
            0nat
        },
{
    assert(s.push(c).drop_last() =~= s);
}

/// A symbol occurs in a text just where the text contains it.
pub proof fn lemma_occurrences_positive(s: Seq<char>, c: char)
    ensures
        occurrences(s, c) > 0 <==> s.contains(c),
    decreases s.len(),
{
    if s.len() > 0 {
        lemma_occurrences_positive(s.drop_last(), c);
        if s.contains(c) {
            let i = choose|i: int| 0 <= i < s.len() && s[i] == c;
            if i < s.len() - 1 {
                assert(s.drop_last()[i] == c);
            }
        }
        if s.drop_last().contains(c) {
            let i = choose|i: int| 0 <= i < s.drop_last().len() && s.drop_last()[i] == c;
            assert(s[i] == c);
        }
        if s.last() == c {
            assert(s[s.len() - 1] == c);
        }
    }
}

/// The symbols of `text`, each to the vector in turn.
pub fn chars_of(text: &str) -> (chars: Vec<char>)
    ensures
        chars@ == text@,
{
    let mut chars: Vec<char> = Vec::new();
    for c in it: text.chars()
        invariant
            chars@ == text@.take(it.index() as int),
            it.seq() == text@,
    {
        chars.push(c);
        assert(chars@ =~= text@.take(it.index() + 1));
    }
    assert(text@.take(text@.len() as int) =~= text@);
    chars
}

/// Counts the symbols of `symbols`.
pub fn count_symbols(symbols: &[char]) -> (table: FrequencyTable)
    ensures
        table.wf(),
        table.pairs() == frequencies(symbols@),
        is_table_of(table.pairs(), symbols@),
        total(table.pairs()) == symbols@.len(),
{
    let mut table = FrequencyTable::new();
    let mut i: usize = 0;
    proof {
        lemma_table_exists(symbols@.take(0));
        lemma_table_unique(
            Seq::<(char, nat)>::empty(),
            frequencies(symbols@.take(0)),
            symbols@.take(0),
        );
    }
    while i < symbols.len()
        invariant
            i <= symbols@.len(),
            table.wf(),
            total(table.pairs()) == i,
            is_table_of(table.pairs(), symbols@.take(i as int)),
        decreases symbols@.len() - i,
    {
        let ghost seen = symbols@.take(i as int);
        let ghost before = table.pairs();
        table.record(symbols[i]);
        proof {
            lemma_recorded(before, symbols@[i as int]);
            lemma_recorded_table(before, seen, symbols@[i as int]);
            assert(symbols@.take(i + 1) =~= seen.push(symbols@[i as int]));
        }
        i = i + 1;
    }
    proof {
        assert(symbols@.take(symbols@.len() as int) =~= symbols@);
        lemma_table_exists(symbols@);
        lemma_table_unique(table.pairs(), frequencies(symbols@), symbols@);
    }
    table
}

/// The frequency table of `s`: each symbol that occurs in it with the number
/// of its occurrences.
pub fn build_weights(s: &str) -> (table: FrequencyTable)
    ensures
        table.wf(),
        table.pairs() == frequencies(s@),
        is_table_of(table.pairs(), s@),
        total(table.pairs()) == s@.len(),
{
    let symbols = chars_of(s);
    count_symbols(symbols.as_slice())
}

} // verus!
