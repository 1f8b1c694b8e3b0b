//! Minimum string distance, the optimal alignment of a presented text with its
//! transcription, and the counts that the alignment yields.

use vstd::prelude::*;
use vstd::string::*;
use crate::alignment::{
    cost, count, gap_fraction, gaps, insertion_fraction, is_aligned, is_alignment_of, last_path,
    left_is_optimal, lemma_count_push, lemma_counts_partition, lemma_diagonal_is_optimal,
    lemma_gaps_push, lemma_last_path_is_optimal, lemma_last_path_len, lemma_symbols_push,
    presented_fraction, symbol_at, symbols, transition_fraction, transition_of, up_is_optimal,
    Transition,
};
use crate::alphabet::{all_symbols_among, spread_of, Alphabet};
use crate::distance::{distance, is_distance_matrix, lemma_distance_at_most_longer, msd_matrix};
use crate::ratio::{product, Ratio};

verus! {

/// One cell of an alignment track: a symbol, or the placeholder that stands
/// opposite an inserted or omitted symbol of the other track.
#[derive(Debug, Clone, Copy, PartialEq, Eq, Structural)]
pub enum Element {
    Character(char),
    Null,
}

impl Element {
    /// Whether this cell is the placeholder.
    pub fn is_null(&self) -> (b: bool)
        ensures
            b == (*self == Element::Null),
    {
        match self {
            Element::Null => true,
            Element::Character(_) => false,
        }
    }
}

/// The symbols of a text, one by one.
pub fn chars_of(text: &str) -> (symbols: Vec<char>)
    ensures
        symbols@ == text@,
{
    let n = text.unicode_len();
    let mut symbols: Vec<char> = Vec::new();
    let mut i: usize = 0;
    while i < n
        invariant
            n == text@.len(),
            i <= n,
            symbols@ == text@.take(i as int),
        decreases n - i,
    {
        symbols.push(text.get_char(i));
        assert(text@.take(i + 1) =~= text@.take(i as int).push(text@[i as int]));
        i += 1;
    }
    assert(text@.take(n as int) =~= text@);
    symbols
}

/// A track with one more cell in front.
fn with_first(first: Element, track: &Vec<Element>) -> (longer: Vec<Element>)
    ensures
        longer@ == seq![first] + track@,
{
    let mut longer = track.clone();
    assert(longer@ =~= track@);
    longer.insert(0, first);
    assert(longer@ =~= seq![first] + track@);
    longer
}

/// The probability that a channel gives to one way of a transition: the
/// probability of the transition, spread evenly over the symbols that it
/// could have produced.
#[derive(Debug, Clone, Copy, PartialEq, Eq, Structural)]
pub struct Share {
    /// The probability of the transition.
    pub probability: Ratio,
    /// The number of symbols over which it is spread.
    pub among: usize,
}

/// The optimal alignment of a presented text with its transcription: two
/// tracks of one length, the first spelling the presented text and the second
/// the transcription, with a placeholder wherever the other track holds a
/// symbol that was inserted or omitted.
#[derive(Debug, PartialEq)]
pub struct OptimalAlignments {
    presented: Vec<Element>,
    transcribed: Vec<Element>,
    len: usize,
}

impl OptimalAlignments {
    /// The presented track.
    pub closed spec fn presented_track(&self) -> Seq<Element> {
        self.presented@
    }

    /// The transcribed track.
    pub closed spec fn transcribed_track(&self) -> Seq<Element> {
        self.transcribed@
    }

    /// The number of aligned cells.
    pub closed spec fn spec_len(&self) -> nat {
        self.len as nat
    }

    /// The two tracks are aligned and the recorded length is theirs.
    pub open spec fn wf(&self) -> bool {
        &&& is_aligned(self.presented_track(), self.transcribed_track())
        &&& self.spec_len() == self.presented_track().len()
    }

    /// The matrix of minimum string distances between the prefixes of
    /// `presented` and those of `transcribed`.
    pub fn msd(presented: &str, transcribed: &str) -> (d: Vec<Vec<u128>>)
        ensures
            is_distance_matrix(d@, presented@, transcribed@),
            d@[presented@.len() as int]@[transcribed@.len() as int] == distance(
                presented@,
                transcribed@,
            ),
    {
        let p = chars_of(presented);
        let t = chars_of(transcribed);
        msd_matrix(&p, &t)
    }

    /// Walks every optimal path from cell `(x, y)` of the distance matrix back
    /// to its origin, depth first, and leaves in `self` the alignment of the
    /// path completed last, followed by the cells handed in.
    fn alignments(
        &mut self,
        presented: &Vec<char>,
        transcribed: &Vec<char>,
        d: &Vec<Vec<u128>>,
        x: usize,
        y: usize,
        p_aligned: Vec<Element>,
        t_aligned: Vec<Element>,
    )
        requires
            is_distance_matrix(d@, presented@, transcribed@),
            x <= presented.len(),
            y <= transcribed.len(),
        ensures
            final(self).presented@ == last_path(presented@, transcribed@, x as nat, y as nat).0
                + p_aligned@,
            final(self).transcribed@ == last_path(presented@, transcribed@, x as nat, y as nat).1
                + t_aligned@,
            final(self).len == old(self).len,
        decreases x + y,
    {
        if x == 0 && y == 0 {
            self.presented = p_aligned;
            self.transcribed = t_aligned;
            assert(self.presented@ =~= Seq::<Element>::empty() + p_aligned@);
            assert(self.transcribed@ =~= Seq::<Element>::empty() + t_aligned@);
            return ;
        }
        let ghost p = presented@;
        let ghost t = transcribed@;
        let ghost (xn, yn) = (x as nat, y as nat);
        proof {
            lemma_distance_at_most_longer(p, t, xn, yn);
            if x > 0 {
                lemma_distance_at_most_longer(p, t, (xn - 1) as nat, yn);
            }
            if y > 0 {
                lemma_distance_at_most_longer(p, t, xn, (yn - 1) as nat);
            }
            if x > 0 && y > 0 {
                lemma_distance_at_most_longer(p, t, (xn - 1) as nat, (yn - 1) as nat);
            }
        }
        let ghost mut diagonal_taken = false;

        if x > 0 && y > 0 {
            if d[x][y] == d[x - 1][y - 1] && presented[x - 1] == transcribed[y - 1] {
                let p_next = with_first(Element::Character(presented[x - 1]), &p_aligned);
                let t_next = with_first(Element::Character(transcribed[y - 1]), &t_aligned);
                self.alignments(presented, transcribed, d, x - 1, y - 1, p_next, t_next);
                proof {
                    diagonal_taken = true;
                }
            }
            if d[x][y] == d[x - 1][y - 1] + 1 {
                let p_next = with_first(Element::Character(presented[x - 1]), &p_aligned);
                let t_next = with_first(Element::Character(transcribed[y - 1]), &t_aligned);
                self.alignments(presented, transcribed, d, x - 1, y - 1, p_next, t_next);
                proof {
                    diagonal_taken = true;
                }
            }
        }
        assert(diagonal_taken ==> x > 0 && y > 0 && {
            let rest = last_path(p, t, (xn - 1) as nat, (yn - 1) as nat);
            &&& self.presented@ =~= rest.0.push(symbol_at(p, xn - 1)) + p_aligned@
            &&& self.transcribed@ =~= rest.1.push(symbol_at(t, yn - 1)) + t_aligned@
        });
        proof {
            if !left_is_optimal(p, t, xn, yn) && !up_is_optimal(p, t, xn, yn) {
                lemma_diagonal_is_optimal(p, t, xn, yn);
                assert(diagonal_taken);
            }
        }

        if x > 0 && d[x][y] == d[x - 1][y] + 1 {
            let p_next = with_first(Element::Character(presented[x - 1]), &p_aligned);
            let t_next = with_first(Element::Null, &t_aligned);
            self.alignments(presented, transcribed, d, x - 1, y, p_next, t_next);
            assert(up_is_optimal(p, t, xn, yn));
            assert({
                let rest = last_path(p, t, (xn - 1) as nat, yn);
                &&& self.presented@ =~= rest.0.push(symbol_at(p, xn - 1)) + p_aligned@
                &&& self.transcribed@ =~= rest.1.push(Element::Null) + t_aligned@
            });
        }
        if y > 0 && d[x][y] == d[x][y - 1] + 1 {
            let p_next = with_first(Element::Null, &p_aligned);
            let t_next = with_first(Element::Character(transcribed[y - 1]), &t_aligned);
            self.alignments(presented, transcribed, d, x, y - 1, p_next, t_next);
            assert(left_is_optimal(p, t, xn, yn));
            assert({
                let rest = last_path(p, t, xn, (yn - 1) as nat);
                &&& self.presented@ =~= rest.0.push(Element::Null) + p_aligned@
                &&& self.transcribed@ =~= rest.1.push(symbol_at(t, yn - 1)) + t_aligned@
            });
        }
    }

    /// Aligns `presented` with `transcribed`: of all the alignments of least
    /// cost, the one that the walk over the distance matrix completes last.
    pub fn new(presented: &str, transcribed: &str) -> (slf: Self)
        ensures
            slf.wf(),
            slf.presented_track() == last_path(
                presented@,
                transcribed@,
                presented@.len(),
                transcribed@.len(),
            ).0,
            slf.transcribed_track() == last_path(
                presented@,
                transcribed@,
                presented@.len(),
                transcribed@.len(),
            ).1,
            is_alignment_of(
                slf.presented_track(),
                slf.transcribed_track(),
                presented@,
                transcribed@,
            ),
            cost(slf.presented_track(), slf.transcribed_track()) == distance(
                presented@,
                transcribed@,
            ),
            slf.spec_len() >= presented@.len(),
            slf.spec_len() >= transcribed@.len(),
            slf.spec_len() <= presented@.len() + transcribed@.len(),
    {
        let mut slf = Self { presented: Vec::new(), transcribed: Vec::new(), len: 0 };
        let p = chars_of(presented);
        let t = chars_of(transcribed);
        let d = msd_matrix(&p, &t);
        let (x, y) = (p.len(), t.len());
        slf.alignments(&p, &t, &d, x, y, Vec::new(), Vec::new());
        proof {
            let path = last_path(p@, t@, x as nat, y as nat);
            lemma_last_path_is_optimal(p@, t@, x as nat, y as nat);
            lemma_last_path_len(p@, t@, x as nat, y as nat);
            assert(slf.presented@ =~= path.0);
            assert(slf.transcribed@ =~= path.1);
            assert(p@.take(x as int) =~= p@);
            assert(t@.take(y as int) =~= t@);
        }
        slf.len = slf.presented.len();
        slf
    }

    /// The presented track.
    pub fn presented(&self) -> (track: &Vec<Element>)
        ensures
            track@ == self.presented_track(),
    {
        &self.presented
    }

    /// The transcribed track.
    pub fn transcribed(&self) -> (track: &Vec<Element>)
        ensures
            track@ == self.transcribed_track(),
    {
        &self.transcribed
    }

    /// The number of aligned cells.
    pub fn len(&self) -> (len: usize)
        ensures
            len == self.spec_len(),
    {
        self.len
    }

    /// The number of aligned cells that show the transition `kind`.
    pub fn n(&self, kind: Transition) -> (n: usize)
        requires
            self.wf(),
        ensures
            n == count(self.presented_track(), self.transcribed_track(), kind),
    {
        let ghost ps = self.presented@;
        let ghost ts = self.transcribed@;
        let mut n: usize = 0;
        let mut i: usize = 0;
        while i < self.len
            invariant
                self.wf(),
                ps == self.presented@,
                ts == self.transcribed@,
                i <= self.len,
                n <= i,
                n == count(ps.take(i as int), ts.take(i as int), kind),
            decreases self.len - i,
        {
            proof {
                lemma_count_push(
                    ps.take(i as int),
                    ts.take(i as int),
                    ps[i as int],
                    ts[i as int],
                    kind,
                );
                assert(ps.take(i + 1) =~= ps.take(i as int).push(ps[i as int]));
                assert(ts.take(i + 1) =~= ts.take(i as int).push(ts[i as int]));
            }
            if Transition::of(&self.presented[i], &self.transcribed[i]) == Some(kind) {
                n += 1;
            }
            i += 1;
        }
        assert(ps.take(i as int) =~= ps);
        assert(ts.take(i as int) =~= ts);
        n
    }

    /// The number of cells that present a placeholder.
    pub fn presented_gaps(&self) -> (n: usize)
        requires
            self.wf(),
        ensures
            n == gaps(self.presented_track()),
    {
        let ghost ps = self.presented@;
        let mut n: usize = 0;
        let mut i: usize = 0;
        while i < self.len
            invariant
                self.wf(),
                ps == self.presented@,
                i <= self.len,
                n <= i,
                n == gaps(ps.take(i as int)),
            decreases self.len - i,
        {
            proof {
                lemma_gaps_push(ps.take(i as int), ps[i as int]);
                assert(ps.take(i + 1) =~= ps.take(i as int).push(ps[i as int]));
            }
            if self.presented[i].is_null() {
                n += 1;
            }
            i += 1;
        }
        assert(ps.take(i as int) =~= ps);
        n
    }

    /// The number of cells that present a symbol.
    pub fn presented_symbols(&self) -> (n: usize)
        requires
            self.wf(),
        ensures
            n == symbols(self.presented_track()).len(),
    {
        let ghost ps = self.presented@;
        let mut n: usize = 0;
        let mut i: usize = 0;
        while i < self.len
            invariant
                self.wf(),
                ps == self.presented@,
                i <= self.len,
                n <= i,
                n == symbols(ps.take(i as int)).len(),
            decreases self.len - i,
        {
            proof {
                lemma_symbols_push(ps.take(i as int), ps[i as int]);
                assert(ps.take(i + 1) =~= ps.take(i as int).push(ps[i as int]));
            }
            if !self.presented[i].is_null() {
                n += 1;
            }
            i += 1;
        }
        assert(ps.take(i as int) =~= ps);
        n
    }

    /// The probability that a cell presents a placeholder.
    pub fn p_null(&self) -> (p: Ratio)
        requires
            self.wf(),
        ensures
            p@ == gap_fraction(self.presented_track()),
    {
        Ratio { numerator: self.presented_gaps() as u128, denominator: self.len as u128 }
    }

    /// The probability of an insertion: the insertions over all cells.
    pub fn insertion_probability(&self) -> (p: Ratio)
        requires
            self.wf(),
        ensures
            p@ == insertion_fraction(self.presented_track(), self.transcribed_track()),
    {
        Ratio { numerator: self.n(Transition::Insertion) as u128, denominator: self.len as u128 }
    }

    /// The probability of the transition `kind` of a presented symbol.
    fn presented_probability(&self, kind: Transition) -> (p: Ratio)
        requires
            self.wf(),
        ensures
            p@ == presented_fraction(self.presented_track(), self.transcribed_track(), kind),
    {
        proof {
            lemma_counts_partition(self.presented@, self.transcribed@);
        }
        let others = self.len - self.n(Transition::Insertion);
        Ratio {
            numerator: product(self.n(kind), others),
            denominator: product(self.presented_symbols(), self.len),
        }
    }

    /// The probability of an omission: the omissions over the presented
    /// symbols, times the probability that a cell is no insertion.
    pub fn omission_probability(&self) -> (p: Ratio)
        requires
            self.wf(),
        ensures
            p@ == presented_fraction(
                self.presented_track(),
                self.transcribed_track(),
                Transition::Omission,
            ),
    {
        self.presented_probability(Transition::Omission)
    }

    /// The probability of a substitution: the substitutions over the presented
    /// symbols, times the probability that a cell is no insertion.
    pub fn substitution_probability(&self) -> (p: Ratio)
        requires
            self.wf(),
        ensures
            p@ == presented_fraction(
                self.presented_track(),
                self.transcribed_track(),
                Transition::Substitution,
            ),
    {
        self.presented_probability(Transition::Substitution)
    }

    /// The probability of a correct entry: the correct entries over the
    /// presented symbols, times the probability that a cell is no insertion.
    pub fn probability_of_correct_entries(&self) -> (p: Ratio)
        requires
            self.wf(),
        ensures
            p@ == presented_fraction(
                self.presented_track(),
                self.transcribed_track(),
                Transition::Correct,
            ),
    {
        self.presented_probability(Transition::Correct)
    }

    /// The probability of the transition `kind`.
    pub fn probability(&self, kind: Transition) -> (p: Ratio)
        requires
            self.wf(),
        ensures
            p@ == transition_fraction(self.presented_track(), self.transcribed_track(), kind),
    {
        match kind {
            Transition::Insertion => self.insertion_probability(),
            Transition::Omission => self.omission_probability(),
            Transition::Substitution => self.substitution_probability(),
            Transition::Correct => self.probability_of_correct_entries(),
        }
    }

    /// The probability that the channel turns the presented cell `i` into
    /// the transcribed cell `j`, over an alphabet: the probability of the
    /// transition that the two cells show, spread over the symbols that the
    /// transition could have produced. It is undefined for two placeholders,
    /// and for a substitution over an alphabet without symbols.
    pub fn p_i_j(&self, i: &Element, j: &Element, alphabet: &Alphabet) -> (share: Option<Share>)
        requires
            self.wf(),
        ensures
            share is Some <==> transition_of(*i, *j) is Some && spread_of(
                transition_of(*i, *j)->0,
                alphabet@.len(),
            ) >= 0,
            share matches Some(s) ==> s.probability@ == transition_fraction(
                self.presented_track(),
                self.transcribed_track(),
                transition_of(*i, *j)->0,
            ) && s.among == spread_of(transition_of(*i, *j)->0, alphabet@.len()),
    {
        match Transition::of(i, j) {
            Some(kind) => match alphabet.spread(kind) {
                Some(among) => Some(Share { probability: self.probability(kind), among }),
                None => None,
            },
            None => None,
        }
    }

    /// Whether the alphabet holds every symbol of the two tracks. Where it
    /// does not, the information that the channel conveys is undefined.
    pub fn covered_by(&self, alphabet: &Alphabet) -> (b: bool)
        ensures
            b == (all_symbols_among(self.presented_track(), alphabet@) && all_symbols_among(
                self.transcribed_track(),
                alphabet@,
            )),
    {
        alphabet.covers(&self.presented) && alphabet.covers(&self.transcribed)
    }
}

} // verus!
