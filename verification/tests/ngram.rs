use compression::ngram::{build_second, build_weights, Gram};

#[test]
fn symbols_and_pairs_are_counted() {
    let table = build_weights("abab".chars().collect());
    assert_eq!(table.len(), 4);
    assert_eq!(table.entry(0), (Gram::Single('a'), 2));
    assert_eq!(table.entry(1), (Gram::Single('b'), 2));
    assert_eq!(table.entry(2), (Gram::Pair('a', 'b'), 2));
    assert_eq!(table.entry(3), (Gram::Pair('b', 'a'), 1));
    assert_eq!(table.get(Gram::Single('a')), 2);
    assert_eq!(table.get(Gram::Pair('b', 'a')), 1);
    assert_eq!(table.get(Gram::Pair('a', 'a')), 0);
    assert_eq!(table.get(Gram::Single('z')), 0);
}

#[test]
fn a_pair_of_one_symbol_counts_each_neighbourhood() {
    let table = build_weights(vec!['x', 'x', 'x']);
    assert_eq!(table.get(Gram::Single('x')), 3);
    assert_eq!(table.get(Gram::Pair('x', 'x')), 2);
    assert_eq!(table.len(), 2);
}

#[test]
fn one_symbol_has_no_pair() {
    let table = build_weights(vec!['|']);
    assert_eq!(table.len(), 1);
    assert_eq!(table.entry(0), (Gram::Single('|'), 1));
    assert_eq!(build_weights(Vec::new()).len(), 0);
}

#[test]
fn the_second_table_stays_empty() {
    assert_eq!(build_second("abab").len(), 0);
    assert_eq!(build_second("").len(), 0);
}
