use tet::{Element, OptimalAlignments, Ratio, Transition};

fn value(r: Ratio) -> f64 {
    r.numerator as f64 / r.denominator as f64
}

fn sample_alignments() -> OptimalAlignments {
    let presented = "my watch fell in the waterprevailing wind from the east";
    let transcribed = "my wacch fell in waterpreviling wind on the east";

    OptimalAlignments::new(presented, transcribed)
}

#[test]
fn msd_test() {
    let d = OptimalAlignments::msd("abcd", "acbd");
    let answer: Vec<Vec<u128>> = vec![
        vec![0, 1, 2, 3, 4],
        vec![1, 0, 1, 2, 3],
        vec![2, 1, 1, 1, 2],
        vec![3, 2, 1, 2, 2],
        vec![4, 3, 2, 2, 2],
    ];

    assert_eq!(d, answer);

    let d = OptimalAlignments::msd("quickly", "qucehkly");
    assert_eq!(d[7][8], 3)
}

#[test]
fn alignment_test() {
    let presented = "quickly";
    let transcribed = "qucehkly";

    let optimal_alignment = OptimalAlignments::new(presented, transcribed);

    assert_eq!(
        optimal_alignment.presented(),
        &vec![
            Element::Character('q'),
            Element::Character('u'),
            Element::Character('i'),
            Element::Character('c'),
            Element::Null,
            Element::Null,
            Element::Character('k'),
            Element::Character('l'),
            Element::Character('y'),
        ]
    );
    assert_eq!(
        optimal_alignment.transcribed(),
        &vec![
            Element::Character('q'),
            Element::Character('u'),
            Element::Null,
            Element::Character('c'),
            Element::Character('e'),
            Element::Character('h'),
            Element::Character('k'),
            Element::Character('l'),
            Element::Character('y'),
        ]
    );
    assert_eq!(optimal_alignment.len(), 9);
    assert_eq!(optimal_alignment.p_null(), Ratio { numerator: 2, denominator: 9 });
}

#[test]
fn probabilities_test() {
    let alignments = sample_alignments();

    assert_eq!(value(alignments.insertion_probability()), 0.0);
    assert_eq!(value(alignments.omission_probability()), 0.12727272727272726);
    assert_eq!(value(alignments.substitution_probability()), 0.03636363636363636);
    assert_eq!(value(alignments.probability_of_correct_entries()), 0.8363636363636363);
}

#[test]
fn sample_counts() {
    let alignments = sample_alignments();

    assert_eq!(alignments.len(), 55);
    assert_eq!(alignments.n(Transition::Insertion), 0);
    assert_eq!(alignments.n(Transition::Omission), 7);
    assert_eq!(alignments.n(Transition::Substitution), 2);
    assert_eq!(alignments.n(Transition::Correct), 46);
    assert_eq!(alignments.presented_symbols(), 55);
    assert_eq!(alignments.presented_gaps(), 0);
}

#[test]
fn msd_of_empty_texts() {
    assert_eq!(OptimalAlignments::msd("", ""), vec![vec![0u128]]);
    assert_eq!(OptimalAlignments::msd("", "abc"), vec![vec![0u128, 1, 2, 3]]);
    assert_eq!(
        OptimalAlignments::msd("abc", ""),
        vec![vec![0u128], vec![1], vec![2], vec![3]]
    );
}

#[test]
fn msd_is_the_edit_distance() {
    let cases: [(&str, &str, u128); 7] = [
        ("kitten", "sitting", 3),
        ("flaw", "lawn", 2),
        ("same", "same", 0),
        ("abc", "xyz", 3),
        ("abcdef", "abdf", 2),
        ("a", "", 1),
        ("h\u{e9}llo", "hello", 1),
    ];
    for (presented, transcribed, distance) in cases {
        let d = OptimalAlignments::msd(presented, transcribed);
        let (x, y) = (presented.chars().count(), transcribed.chars().count());
        assert_eq!(d.len(), x + 1);
        assert!(d.iter().all(|row| row.len() == y + 1));
        assert_eq!(d[x][y], distance);
    }
}

fn spelled(track: &Vec<Element>) -> String {
    track
        .iter()
        .filter_map(|e| match e {
            Element::Character(c) => Some(*c),
            Element::Null => None,
        })
        .collect()
}

#[test]
fn tracks_spell_the_texts_at_least_cost() {
    let cases: [(&str, &str); 8] = [
        ("quickly", "qucehkly"),
        ("kitten", "sitting"),
        ("", ""),
        ("", "abc"),
        ("abc", ""),
        ("aaaa", "aa"),
        ("abab", "baba"),
        ("my watch fell", "my wacch fel"),
    ];
    for (presented, transcribed) in cases {
        let alignments = OptimalAlignments::new(presented, transcribed);
        let (x, y) = (presented.chars().count(), transcribed.chars().count());

        assert_eq!(alignments.presented().len(), alignments.transcribed().len());
        assert_eq!(alignments.len(), alignments.presented().len());
        assert!(alignments.len() >= x.max(y));
        assert!(alignments.len() <= x + y);
        assert_eq!(spelled(alignments.presented()), presented);
        assert_eq!(spelled(alignments.transcribed()), transcribed);
        for (p, t) in alignments.presented().iter().zip(alignments.transcribed().iter()) {
            assert!(!(p.is_null() && t.is_null()));
        }

        let edits = alignments.n(Transition::Insertion)
            + alignments.n(Transition::Omission)
            + alignments.n(Transition::Substitution);
        assert_eq!(edits as u128, OptimalAlignments::msd(presented, transcribed)[x][y]);
    }
}

#[test]
fn last_completed_path_wins() {
    // Each of these pairs has several alignments of least cost. The walk
    // tries the diagonal, then the step up, then the step left, and keeps
    // the path that it completes last.
    let (a, b, gap) = (Element::Character('a'), Element::Character('b'), Element::Null);

    let alignments = OptimalAlignments::new("aa", "a");
    assert_eq!(alignments.presented(), &vec![a, a]);
    assert_eq!(alignments.transcribed(), &vec![a, gap]);

    let alignments = OptimalAlignments::new("a", "aa");
    assert_eq!(alignments.presented(), &vec![a, gap]);
    assert_eq!(alignments.transcribed(), &vec![a, a]);

    let alignments = OptimalAlignments::new("ab", "ba");
    assert_eq!(alignments.presented(), &vec![a, b, gap]);
    assert_eq!(alignments.transcribed(), &vec![gap, b, a]);
}

#[test]
fn transitions_of_cells() {
    let (a, b, gap) = (Element::Character('a'), Element::Character('b'), Element::Null);
    assert_eq!(Transition::of(&gap, &a), Some(Transition::Insertion));
    assert_eq!(Transition::of(&a, &gap), Some(Transition::Omission));
    assert_eq!(Transition::of(&a, &b), Some(Transition::Substitution));
    assert_eq!(Transition::of(&a, &a), Some(Transition::Correct));
    assert_eq!(Transition::of(&gap, &gap), None);
    assert!(gap.is_null());
    assert!(!a.is_null());
}

#[test]
fn probabilities_with_insertions() {
    let alignments = OptimalAlignments::new("quickly", "qucehkly");

    assert_eq!(alignments.n(Transition::Insertion), 2);
    assert_eq!(alignments.n(Transition::Omission), 1);
    assert_eq!(alignments.n(Transition::Substitution), 0);
    assert_eq!(alignments.n(Transition::Correct), 6);
    assert_eq!(alignments.presented_symbols(), 7);
    assert_eq!(alignments.presented_gaps(), 2);

    let insertion = alignments.insertion_probability();
    let omission = alignments.omission_probability();
    let substitution = alignments.substitution_probability();
    let correct = alignments.probability_of_correct_entries();
    assert_eq!(insertion, Ratio { numerator: 2, denominator: 9 });
    assert_eq!(omission, Ratio { numerator: 7, denominator: 63 });
    assert_eq!(substitution, Ratio { numerator: 0, denominator: 63 });
    assert_eq!(correct, Ratio { numerator: 42, denominator: 63 });
    assert_eq!(alignments.probability(Transition::Insertion), insertion);
    assert_eq!(alignments.probability(Transition::Omission), omission);
    assert_eq!(alignments.probability(Transition::Substitution), substitution);
    assert_eq!(alignments.probability(Transition::Correct), correct);

    // The insertions are taken of all cells, the other three of the cells
    // that present a symbol: the three add up to what the insertions leave.
    assert_eq!(
        omission.numerator + substitution.numerator + correct.numerator,
        7 * (9 - 2)
    );
    assert_eq!(
        (omission.numerator + substitution.numerator + correct.numerator) * insertion.denominator,
        (insertion.denominator - insertion.numerator) * omission.denominator
    );
}

#[test]
fn probabilities_without_presented_symbols() {
    let alignments = OptimalAlignments::new("", "ab");
    assert_eq!(alignments.len(), 2);
    assert_eq!(alignments.insertion_probability(), Ratio { numerator: 2, denominator: 2 });
    assert!(alignments.insertion_probability().is_defined());
    assert!(!alignments.omission_probability().is_defined());
    assert!(!alignments.substitution_probability().is_defined());
    assert!(!alignments.probability_of_correct_entries().is_defined());

    let alignments = OptimalAlignments::new("", "");
    assert_eq!(alignments.len(), 0);
    assert!(!alignments.insertion_probability().is_defined());
    assert!(!alignments.p_null().is_defined());
}
