use compression::weights::{build_weights, chars_of, count_symbols, FrequencyTable};

#[test]
fn aaabbc_weights() {
    let table = build_weights("aaabbc");
    assert_eq!(table.len(), 3);
    assert_eq!(table.entry(0), ('a', 3));
    assert_eq!(table.entry(1), ('b', 2));
    assert_eq!(table.entry(2), ('c', 1));
    assert_eq!(table.get('a'), 3);
    assert_eq!(table.get('z'), 0);
    assert!(!table.is_empty());
}

#[test]
fn symbols_are_kept_by_code_point() {
    let table = build_weights("zaüaz€a");
    assert_eq!(table.len(), 4);
    assert_eq!(table.entry(0), ('a', 3));
    assert_eq!(table.entry(1), ('z', 2));
    assert_eq!(table.entry(2), ('ü', 1));
    assert_eq!(table.entry(3), ('€', 1));
}

#[test]
fn empty_text_has_an_empty_table() {
    let table = build_weights("");
    assert!(table.is_empty());
    assert_eq!(table.len(), 0);
    assert_eq!(table.get('a'), 0);
}

#[test]
fn record_counts_one_more() {
    let mut table = FrequencyTable::new();
    table.record('b');
    table.record('a');
    table.record('b');
    assert_eq!(table.len(), 2);
    assert_eq!(table.entry(0), ('a', 1));
    assert_eq!(table.entry(1), ('b', 2));
}

#[test]
fn chars_of_gives_the_symbols() {
    assert_eq!(chars_of("aü€"), vec!['a', 'ü', '€']);
    assert_eq!(chars_of(""), Vec::<char>::new());
}

#[test]
fn count_symbols_counts_a_slice() {
    let table = count_symbols(&['x', 'y', 'x']);
    assert_eq!(table.entry(0), ('x', 2));
    assert_eq!(table.entry(1), ('y', 1));
}
