use tet::{characters_per_second, measure, Alphabet, Element, OptimalAlignments, Ratio};

fn value(r: Ratio) -> f64 {
    r.numerator as f64 / r.denominator as f64
}

struct Model<'a> {
    alignments: &'a OptimalAlignments,
    alphabet: &'a Alphabet,
    probabilities: &'a [f64],
}

impl<'a> Model<'a> {
    fn p(&self, c: char) -> Option<f64> {
        self.alphabet.index_of(c).map(|i| self.probabilities[i])
    }

    fn p_dash(&self, i: &Element) -> Option<f64> {
        let p_null = value(self.alignments.p_null());
        match i {
            Element::Null => Some(p_null),
            Element::Character(c) => self.p(*c).map(|p_c| p_c * (1f64 - p_null)),
        }
    }

    fn p_i_j(&self, i: &Element, j: &Element) -> f64 {
        match self.alignments.p_i_j(i, j, self.alphabet) {
            Some(share) => value(share.probability) / share.among as f64,
            None => unreachable!(),
        }
    }

    fn pij(&self, i: &Element, j: &Element) -> Option<f64> {
        self.p_dash(i).map(|p_dash_i| p_dash_i * self.p_i_j(i, j))
    }

    fn p_j_i(&self, i: &Element, j: &Element) -> Option<f64> {
        let mut sum = 0.0;
        for other in self.alphabet.elements() {
            if other.is_null() && j.is_null() {
                continue;
            }
            sum += self.pij(&other, j)?;
        }
        Some(self.pij(i, j)? / sum)
    }

    fn hyx(&self) -> Option<f64> {
        if !self.alignments.covered_by(self.alphabet) {
            return None;
        }
        let mut acc = 0.0;
        for (i, j) in self.alphabet.pairs() {
            let joint = self.pij(&i, &j)?;
            if joint != 0.0 {
                acc += joint * self.p_j_i(&i, &j)?.log2();
            }
        }
        Some(-acc)
    }

    fn ixy(&self) -> Option<f64> {
        self.hyx().map(|hyx| hx(self.probabilities) - hyx)
    }
}

fn hx(probabilities: &[f64]) -> f64 {
    let mut acc = 0.0;
    for &pi in probabilities {
        if pi > 0.0 {
            acc += pi * pi.log2();
        }
    }
    -acc
}

fn alphabet_distribution() -> (Alphabet, Vec<f64>) {
    let alphabets = vec![
        'a', 'b', 'c', 'd', 'e', 'f', 'g', 'h', 'i', 'j', 'k', 'l', 'm', 'n', 'o', 'p', 'q', 'r',
        's', 't', 'u', 'v', 'w', 'x', 'y', 'z', ' ',
    ];

    let distribution = vec![
        0.06545420428810268,
        0.012614349400134882,
        0.022382079660795914,
        0.032895839710101495,
        0.10287480840814522,
        0.019870906945619955,
        0.01628201251975626,
        0.0498866519336527,
        0.05679944220647908,
        0.0009771967640664421,
        0.005621008826086285,
        0.03324279082953061,
        0.020306796250368523,
        0.057236004874678816,
        0.061720746945911634,
        0.015073764715016882,
        0.0008384527300266635,
        0.049980287430261394,
        0.05327793252372975,
        0.07532249847431097,
        0.022804128240333354,
        0.007977317166161044,
        0.017073508770571122,
        0.0014120607927983009,
        0.014305632773116854,
        0.0005138874382474097,
        0.18325568938199557,
    ];

    (Alphabet::new(alphabets).unwrap(), distribution)
}

const PRESENTED: &str = "my watch fell in the waterprevailing wind from the east";
const TRANSCRIBED: &str = "my wacch fell in waterpreviling wind on the east";

#[test]
fn ixy_test() {
    let (alphabet, probabilities) = alphabet_distribution();
    let alignments = OptimalAlignments::new(PRESENTED, TRANSCRIBED);
    let model = Model { alignments: &alignments, alphabet: &alphabet, probabilities: &probabilities };

    // insertion probability
    assert_eq!(value(alignments.insertion_probability()), 0.0);
    // omission probability
    assert_eq!(value(alignments.omission_probability()), 0.12727272727272726);
    // substitution probability
    assert_eq!(value(alignments.substitution_probability()), 0.03636363636363636);
    // correct probability
    assert_eq!(value(alignments.probability_of_correct_entries()), 0.8363636363636363);

    // H(X)
    assert!((hx(&probabilities) - 4.090309047790043).abs() < 0.00000000001);

    // H_Y(X)
    assert!((model.hyx().unwrap() - 0.8515677144377292).abs() < 0.00000000001);

    // I(X,Y): bits/character
    assert!((model.ixy().unwrap() - 3.238741333352314).abs() < 0.00000000001);
}

#[test]
fn text_entry_throughput_test() {
    let (alphabet, probabilities) = alphabet_distribution();

    let measurement = measure(PRESENTED, TRANSCRIBED, &alphabet, 12, 0).unwrap();
    let model = Model {
        alignments: &measurement.alignments,
        alphabet: &alphabet,
        probabilities: &probabilities,
    };
    assert_eq!(value(measurement.characters_per_second), 4.0);

    let throughput = model.ixy().unwrap() * value(measurement.characters_per_second);

    // 3.238741333352314 * 4.0 = 12.954965333409256
    assert!((throughput - 12.954965333409255).abs() < 0.0001);
}

#[test]
fn uncovered_symbol_leaves_the_result_undefined() {
    let (alphabet, probabilities) = alphabet_distribution();

    assert!(measure("quickly", "quick1y", &alphabet, 2, 0).is_none());
    assert!(measure("Quickly", "quickly", &alphabet, 2, 0).is_none());
    assert!(measure("quickly", "qucehkly", &alphabet, 2, 0).is_some());

    let alignments = OptimalAlignments::new("quickly", "quick1y");
    assert!(!alignments.covered_by(&alphabet));
    let model = Model { alignments: &alignments, alphabet: &alphabet, probabilities: &probabilities };
    assert_eq!(model.hyx(), None);
    assert_eq!(model.ixy(), None);
}

#[test]
fn no_time_leaves_the_result_undefined() {
    let (alphabet, _) = alphabet_distribution();

    assert!(measure("quickly", "qucehkly", &alphabet, 0, 0).is_none());
    assert!(measure("quickly", "qucehkly", &alphabet, 0, 1).is_some());
    assert_eq!(characters_per_second(8, 0, 0), None);
    assert_eq!(
        characters_per_second(8, 2, 500_000_000),
        Some(Ratio { numerator: 8_000_000_000, denominator: 2_500_000_000 })
    );
}
