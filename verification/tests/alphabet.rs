use tet::{Alphabet, Element, Frequencies, OptimalAlignments, Ratio, Transition};

fn abc() -> Alphabet {
    Alphabet::new(vec!['a', 'b', 'c']).unwrap()
}

#[test]
fn alphabet_holds_each_symbol_once() {
    assert!(Alphabet::new(vec!['a', 'b', 'a']).is_none());
    assert!(Alphabet::new(vec![]).is_some());
    let alphabet = abc();
    assert_eq!(alphabet.len(), 3);
    assert_eq!(alphabet.symbols(), &vec!['a', 'b', 'c']);
    assert_eq!(alphabet.index_of('a'), Some(0));
    assert_eq!(alphabet.index_of('c'), Some(2));
    assert_eq!(alphabet.index_of('d'), None);
    assert!(alphabet.contains('b'));
    assert!(!alphabet.contains('B'));
}

#[test]
fn alphabet_covers_tracks_of_its_symbols() {
    let alphabet = abc();
    assert!(alphabet.covers(&vec![]));
    assert!(alphabet.covers(&vec![Element::Character('a'), Element::Null, Element::Character('c')]));
    assert!(!alphabet.covers(&vec![Element::Character('a'), Element::Character('x')]));

    assert!(OptimalAlignments::new("abc", "cab").covered_by(&alphabet));
    assert!(!OptimalAlignments::new("abc", "cad").covered_by(&alphabet));
    assert!(!OptimalAlignments::new("abd", "cab").covered_by(&alphabet));
}

#[test]
fn channel_pairs_leave_out_the_pair_of_placeholders() {
    let alphabet = Alphabet::new(vec!['a', 'b']).unwrap();
    let (a, b, gap) = (Element::Character('a'), Element::Character('b'), Element::Null);
    assert_eq!(alphabet.elements(), vec![a, b, gap]);
    assert_eq!(
        alphabet.pairs(),
        vec![(a, a), (a, b), (a, gap), (b, a), (b, b), (b, gap), (gap, a), (gap, b)]
    );

    let none = Alphabet::new(vec![]).unwrap();
    assert_eq!(none.elements(), vec![gap]);
    assert_eq!(none.pairs(), vec![]);

    let pairs = abc().pairs();
    assert_eq!(pairs.len(), 4 * 4 - 1);
    assert!(pairs.iter().all(|(i, j)| Transition::of(i, j).is_some()));
}

#[test]
fn transition_probability_is_spread_over_the_symbols() {
    let alphabet = abc();
    assert_eq!(alphabet.spread(Transition::Insertion), Some(3));
    assert_eq!(alphabet.spread(Transition::Substitution), Some(2));
    assert_eq!(alphabet.spread(Transition::Omission), Some(1));
    assert_eq!(alphabet.spread(Transition::Correct), Some(1));
    let none = Alphabet::new(vec![]).unwrap();
    assert_eq!(none.spread(Transition::Insertion), Some(0));
    assert_eq!(none.spread(Transition::Substitution), None);

    let alignments = OptimalAlignments::new("abc", "bcc");
    let (a, b, gap) = (Element::Character('a'), Element::Character('b'), Element::Null);
    let share = alignments.p_i_j(&gap, &a, &alphabet).unwrap();
    assert_eq!(share.probability, alignments.insertion_probability());
    assert_eq!(share.among, 3);
    let share = alignments.p_i_j(&a, &gap, &alphabet).unwrap();
    assert_eq!(share.probability, alignments.omission_probability());
    assert_eq!(share.among, 1);
    let share = alignments.p_i_j(&a, &b, &alphabet).unwrap();
    assert_eq!(share.probability, alignments.substitution_probability());
    assert_eq!(share.among, 2);
    let share = alignments.p_i_j(&a, &a, &alphabet).unwrap();
    assert_eq!(share.probability, alignments.probability_of_correct_entries());
    assert_eq!(share.among, 1);
    assert_eq!(alignments.p_i_j(&gap, &gap, &alphabet), None);
    assert_eq!(alignments.p_i_j(&a, &b, &none), None);
    assert_eq!(
        alignments.p_i_j(&a, &a, &none).map(|s| s.probability),
        Some(Ratio { numerator: 2 * 3, denominator: 3 * 4 })
    );
}

#[test]
fn alphabet_of_a_table_holds_what_was_seen() {
    let mut table = Frequencies::new();
    for c in "abca".chars() {
        table.record(c);
    }
    table.entry_char('z');
    let alphabet = table.alphabet();
    let mut symbols = alphabet.symbols().clone();
    symbols.sort();
    assert_eq!(symbols, vec!['a', 'b', 'c']);
    assert!(!alphabet.contains('z'));
    assert_eq!(table.count('a'), Some(2));
    assert_eq!(table.count('z'), None);
    assert_eq!(table.count('y'), None);
    assert_eq!(table.reserved_symbols(), &vec!['z']);
}
