use std::collections::HashMap;
use tet::{Frequencies, Ratio};

fn entropy(table: &Frequencies) -> f64 {
    let mut acc = 0.0;
    for &c in table.alphabet().symbols() {
        let p = table.p(c).unwrap();
        let pi = p.numerator as f64 / p.denominator as f64;
        acc += pi * pi.log2();
    }
    -acc
}

#[test]
fn record_counts_each_symbol() {
    let mut table = Frequencies::new();
    assert_eq!(table.n(), 0);
    for c in "large and appropriate text is recommended".chars() {
        table.record(c);
    }
    assert_eq!(table.n(), 41);
    let mut counts = table.counts();
    counts.sort();
    assert_eq!(counts[0], (' ', 5));
    assert_eq!(counts[1], ('a', 4));
    assert_eq!(counts.iter().map(|e| e.1).sum::<u128>(), 41);
}

#[test]
fn with_map_adopts_counts() {
    let mut map: HashMap<u32, u128> = HashMap::new();
    map.insert('x' as u32, 3);
    map.insert('y' as u32, 4);
    let table = Frequencies::with_map(map);
    assert_eq!(table.n(), 7);
    let mut counts = table.counts();
    counts.sort();
    assert_eq!(counts, vec![('x', 3), ('y', 4)]);
}

#[test]
fn retain_keeps_what_the_predicate_accepts() {
    let mut table = Frequencies::new();
    for c in "a1b2c3a".chars() {
        table.record(c);
    }
    table.retain(|c| c.is_alphabetic());
    let mut counts = table.counts();
    counts.sort();
    assert_eq!(counts, vec![('a', 2), ('b', 1), ('c', 1)]);
    assert_eq!(table.n(), 4);
}

#[test]
fn entry_char_reserves_a_symbol() {
    let mut table = Frequencies::new();
    table.record('a');
    table.entry_char('a');
    table.entry_char('z');
    table.entry_char('z');
    let mut counts = table.counts();
    counts.sort();
    assert_eq!(counts, vec![('a', 1)]);
    assert_eq!(table.reserved_symbols(), &vec!['z']);
    assert_eq!(table.count('a'), Some(1));
    assert_eq!(table.count('z'), None);
    assert_eq!(table.n(), 1);
    assert!(table.counts().iter().all(|e| e.1 >= 1));

    table.record('z');
    assert!(table.reserved_symbols().is_empty());
    assert_eq!(table.count('z'), Some(1));
    assert_eq!(table.n(), 2);
}

#[test]
fn retain_keeps_the_reserved_symbols_that_the_predicate_accepts() {
    let mut table = Frequencies::new();
    table.record('a');
    table.entry_char('1');
    table.entry_char('q');
    table.retain(|c| c.is_alphabetic());
    assert_eq!(table.counts(), vec![('a', 1)]);
    assert_eq!(table.reserved_symbols(), &vec!['q']);
    table.retain(|c| *c == 'q');
    assert_eq!(table.counts(), vec![]);
    assert_eq!(table.reserved_symbols(), &vec!['q']);
    assert_eq!(table.n(), 0);
}

#[test]
fn checked_n_tells_when_the_sum_does_not_fit() {
    let mut map: HashMap<u32, u128> = HashMap::new();
    map.insert('x' as u32, u128::MAX);
    let mut table = Frequencies::with_map(map);
    assert_eq!(table.checked_n(), Some(u128::MAX));
    assert_eq!(table.n(), u128::MAX);
    table.record('y');
    assert_eq!(table.checked_n(), None);
    table.retain(|c| *c == 'y');
    assert_eq!(table.checked_n(), Some(1));
}

#[test]
fn record_adds_one_to_the_sum() {
    let mut table = Frequencies::new();
    let mut seen = 0;
    for c in "hello world".chars() {
        table.record(c);
        seen += 1;
        assert_eq!(table.n(), seen);
    }
    assert_eq!(table.count('l'), Some(3));
    assert_eq!(table.count('o'), Some(2));
    assert!(table.counts().iter().all(|e| e.1 >= 1));
}

#[test]
fn probabilities_are_counts_over_the_sum() {
    let mut table = Frequencies::new();
    for c in "abracadabra".chars() {
        table.record(c);
    }
    table.entry_char('z');
    assert_eq!(table.p('a'), Some(Ratio { numerator: 5, denominator: 11 }));
    assert_eq!(table.p('b'), Some(Ratio { numerator: 2, denominator: 11 }));
    assert_eq!(table.p('d'), Some(Ratio { numerator: 1, denominator: 11 }));
    assert_eq!(table.p('z'), None);
    assert_eq!(table.p('x'), None);

    let alphabet = table.alphabet();
    let numerators: u128 = alphabet.symbols().iter().map(|&c| table.p(c).unwrap().numerator).sum();
    assert_eq!(numerators, table.n());
}

#[test]
fn entropy_is_not_negative() {
    let mut table = Frequencies::new();
    table.record('a');
    assert_eq!(entropy(&table), 0.0);
    table.record('a');
    assert_eq!(entropy(&table), 0.0);
    table.record('b');
    table.record('b');
    assert_eq!(entropy(&table), 1.0);
    for c in "large and appropriate text is recommended".chars() {
        table.record(c);
        assert!(entropy(&table) > 0.0);
    }
}
