//! The symbols that a distribution gives a probability to.

use vstd::prelude::*;
use crate::alignment::{symbol_at, transition_of, Transition};
use crate::optimal_alignments::Element;

verus! {

/// Every symbol of the track is one of `symbols`.
pub open spec fn all_symbols_among(track: Seq<Element>, symbols: Seq<char>) -> bool {
    forall|i: int|
        0 <= i < track.len() ==> match #[trigger] track[i] {
            Element::Character(c) => symbols.contains(c),
            Element::Null => true,
        }
}

/// The cells that the symbols give: one for each symbol, in order, and the
/// placeholder after them.
pub open spec fn elements_of(symbols: Seq<char>) -> Seq<Element> {
    Seq::new(
        symbols.len() + 1,
        |i: int|
            if i < symbols.len() {
                symbol_at(symbols, i)
            } else {
                Element::Null
            },
    )
}

/// The pairs of cell `a` with each of the cells, in order.
pub open spec fn row_of(cells: Seq<Element>, a: int) -> Seq<(Element, Element)> {
    Seq::new(cells.len(), |b: int| (cells[a], cells[b]))
}

/// The pairs of each of the first `n` cells with each of the cells, row by row.
pub open spec fn rows_of(cells: Seq<Element>, n: nat) -> Seq<(Element, Element)>
    decreases n,
{
    if n == 0 {
        Seq::empty()
    } else {
        rows_of(cells, (n - 1) as nat) + row_of(cells, n - 1)
    }
}

/// The pairs of a presented and a transcribed cell that a channel over the
/// symbols tells apart: every pair of two of the symbols' cells, row by row,
/// but the last, which is the pair of two placeholders.
pub open spec fn pairs_of(symbols: Seq<char>) -> Seq<(Element, Element)> {
    rows_of(elements_of(symbols), symbols.len() + 1).drop_last()
}

/// The rows of pairs hold, for each of the first `n` cells in turn, its pair
/// with each of the cells in turn.
pub proof fn lemma_rows_of(cells: Seq<Element>, n: nat, a: int, b: int)
    requires
        0 <= a < n,
        0 <= b < cells.len(),
    ensures
        rows_of(cells, n).len() == n * cells.len(),
        0 <= a * cells.len() + b < n * cells.len(),
        rows_of(cells, n)[a * cells.len() + b] == (cells[a], cells[b]),
    decreases n,
{
    let width = cells.len() as int;
    lemma_rows_of_len(cells, n);
    lemma_rows_of_len(cells, (n - 1) as nat);
    assert(0 <= a * width + b < n * width) by (nonlinear_arith)
        requires
            0 <= a < n,
            0 <= b < width,
    ;
    assert((n - 1) * width + width == n * width) by (nonlinear_arith);
    if a < n - 1 {
        lemma_rows_of(cells, (n - 1) as nat, a, b);
    } else {
        assert(row_of(cells, n - 1)[b] == (cells[a], cells[b]));
    }
}

/// The rows of pairs hold a pair for each of the first `n` cells and each of
/// the cells.
pub proof fn lemma_rows_of_len(cells: Seq<Element>, n: nat)
    ensures
        rows_of(cells, n).len() == n * cells.len(),
    decreases n,
{
    let width = cells.len() as int;
    if n > 0 {
        lemma_rows_of_len(cells, (n - 1) as nat);
        assert((n - 1) * width + width == n * width) by (nonlinear_arith);
    } else {
        assert(0 * width == 0) by (nonlinear_arith);
    }
}

/// The pairs that a channel over `k` symbols tells apart are all the pairs
/// of two of its `k + 1` cells that show a transition, each once: pair
/// number `a * (k + 1) + b` is that of cell `a` with cell `b`, and only the
/// pair of the two placeholders, which would come last, is left out.
pub proof fn law_pairs_show_transitions(symbols: Seq<char>, a: int, b: int)
    requires
        0 <= a <= symbols.len(),
        0 <= b <= symbols.len(),
        a < symbols.len() || b < symbols.len(),
    ensures
        pairs_of(symbols).len() == (symbols.len() + 1) * (symbols.len() + 1) - 1,
        0 <= a * (symbols.len() + 1) + b < pairs_of(symbols).len(),
        pairs_of(symbols)[a * (symbols.len() + 1) + b] == (
            elements_of(symbols)[a],
            elements_of(symbols)[b],
        ),
        transition_of(elements_of(symbols)[a], elements_of(symbols)[b]) is Some,
        transition_of(
            elements_of(symbols)[symbols.len() as int],
            elements_of(symbols)[symbols.len() as int],
        ) is None,
{
    let cells = elements_of(symbols);
    let n = (symbols.len() + 1) as nat;
    lemma_rows_of(cells, n, a, b);
    assert(a * n + b < n * n - 1) by (nonlinear_arith)
        requires
            0 <= a < n,
            0 <= b < n,
            a < n - 1 || b < n - 1,
    ;
}

/// Over how many symbols the probability of a transition is spread evenly,
/// when the alphabet has `k` symbols: an insertion may be any of them, a
/// substitution any but the presented one, and an omission or a correct
/// entry leaves no choice.
pub open spec fn spread_of(kind: Transition, k: nat) -> int {
    match kind {
        Transition::Insertion => k as int,
        Transition::Substitution => k - 1,
        Transition::Omission => 1,
        Transition::Correct => 1,
    }
}

/// The cell that holds symbol `i` of `symbols`.
fn cell_at(symbols: &Vec<char>, i: usize) -> (cell: Element)
    requires
        i < symbols.len(),
    ensures
        cell == symbol_at(symbols@, i as int),
{
    Element::Character(symbols[i])
}

/// The symbols that a distribution gives a probability to, each once, in a
/// fixed order. The place of a symbol is the place of its probability.
#[derive(Debug, Clone, PartialEq, Eq)]
pub struct Alphabet {
    symbols: Vec<char>,
}

impl View for Alphabet {
    type V = Seq<char>;

    /// The symbols in order.
    closed spec fn view(&self) -> Seq<char> {
        self.symbols@
    }
}

impl Alphabet {
    /// No symbol occurs twice.
    pub open spec fn wf(&self) -> bool {
        self@.no_duplicates()
    }

    /// The alphabet of the given symbols, where none of them occurs twice.
    pub fn new(symbols: Vec<char>) -> (alphabet: Option<Self>)
        ensures
            alphabet is Some <==> symbols@.no_duplicates(),
            alphabet matches Some(a) ==> a.wf() && a@ == symbols@,
    {
        let mut i: usize = 0;
        while i < symbols.len()
            invariant
                i <= symbols.len(),
                symbols@.take(i as int).no_duplicates(),
            decreases symbols.len() - i,
        {
            let mut j: usize = 0;
            while j < i
                invariant
                    j <= i < symbols.len(),
                    forall|k: int| 0 <= k < j ==> symbols@[k] != symbols@[i as int],
                decreases i - j,
            {
                if symbols[j] == symbols[i] {
                    return None;
                }
                j += 1;
            }
            i += 1;
        }
        assert(symbols@.take(i as int) =~= symbols@);
        Some(Alphabet { symbols })
    }

    /// The alphabet of the given symbols, none of which occurs twice.
    pub fn from_distinct(symbols: Vec<char>) -> (alphabet: Self)
        requires
            symbols@.no_duplicates(),
        ensures
            alphabet.wf(),
            alphabet@ == symbols@,
    {
        Alphabet { symbols }
    }

    /// The number of symbols.
    pub fn len(&self) -> (k: usize)
        ensures
            k == self@.len(),
    {
        self.symbols.len()
    }

    /// The symbols in order.
    pub fn symbols(&self) -> (symbols: &Vec<char>)
        ensures
            symbols@ == self@,
    {
        &self.symbols
    }

    /// The first place of `c` among the symbols, where it is one of them.
    pub fn index_of(&self, c: char) -> (place: Option<usize>)
        ensures
            match place {
                Some(i) => i < self@.len() && self@[i as int] == c && forall|k: int|
                    0 <= k < i ==> self@[k] != c,
                None => !self@.contains(c),
            },
    {
        let mut i: usize = 0;
        while i < self.symbols.len()
            invariant
                i <= self.symbols.len(),
                forall|k: int| 0 <= k < i ==> self.symbols@[k] != c,
            decreases self.symbols.len() - i,
        {
            if self.symbols[i] == c {
                return Some(i);
            }
            i += 1;
        }
        None
    }

    /// Whether `c` is one of the symbols.
    pub fn contains(&self, c: char) -> (b: bool)
        ensures
            b == self@.contains(c),
    {
        self.index_of(c).is_some()
    }

    /// Whether every symbol of the track is one of the alphabet's.
    pub fn covers(&self, track: &Vec<Element>) -> (b: bool)
        ensures
            b == all_symbols_among(track@, self@),
    {
        let mut i: usize = 0;
        while i < track.len()
            invariant
                i <= track.len(),
                all_symbols_among(track@.take(i as int), self@),
            decreases track.len() - i,
        {
            match track[i] {
                Element::Character(c) => {
                    if !self.contains(c) {
                        return false;
                    }
                },
                Element::Null => {},
            }
            assert forall|k: int| 0 <= k < i + 1 implies match #[trigger] track@.take(i + 1)[k] {
                Element::Character(c) => self@.contains(c),
                Element::Null => true,
            } by {
                if k < i {
                    assert(track@.take(i as int)[k] == track@[k]);
                }
            }
            i += 1;
        }
        assert(track@.take(i as int) =~= track@);
        true
    }

    /// The cells of the alphabet: one for each symbol, in order, and the
    /// placeholder after them.
    pub fn elements(&self) -> (cells: Vec<Element>)
        ensures
            cells@ == elements_of(self@),
    {
        let mut cells: Vec<Element> = Vec::new();
        let mut i: usize = 0;
        while i < self.symbols.len()
            invariant
                i <= self.symbols.len(),
                cells@.len() == i,
                forall|k: int| 0 <= k < i ==> cells@[k] == symbol_at(self.symbols@, k),
            decreases self.symbols.len() - i,
        {
            cells.push(cell_at(&self.symbols, i));
            i += 1;
        }
        cells.push(Element::Null);
        assert(cells@ =~= elements_of(self@));
        cells
    }

    /// The pairs of a presented and a transcribed cell that a channel over
    /// the alphabet tells apart.
    pub fn pairs(&self) -> (pairs: Vec<(Element, Element)>)
        ensures
            pairs@ == pairs_of(self@),
    {
        let cells = self.elements();
        let n = cells.len();
        let mut pairs: Vec<(Element, Element)> = Vec::new();
        let mut a: usize = 0;
        while a < n
            invariant
                n == cells@.len(),
                n == self@.len() + 1,
                cells@ == elements_of(self@),
                a <= n,
                a < n ==> pairs@ == rows_of(cells@, a as nat),
                a == n ==> pairs@ == rows_of(cells@, n as nat).drop_last(),
            decreases n - a,
        {
            let width = if a + 1 == n {
                n - 1
            } else {
                n
            };
            let mut b: usize = 0;
            while b < width
                invariant
                    n == cells@.len(),
                    a < n,
                    width <= n,
                    b <= width,
                    pairs@ == rows_of(cells@, a as nat) + row_of(cells@, a as int).take(b as int),
                decreases width - b,
            {
                pairs.push((cells[a], cells[b]));
                assert(row_of(cells@, a as int).take(b + 1) =~= row_of(cells@, a as int).take(
                    b as int,
                ).push((cells@[a as int], cells@[b as int])));
                assert(pairs@ =~= rows_of(cells@, a as nat) + row_of(cells@, a as int).take(b + 1));
                b += 1;
            }
            proof {
                let row = row_of(cells@, a as int);
                if a + 1 == n {
                    assert(row.take(n - 1) =~= row.drop_last());
                    assert(pairs@ =~= rows_of(cells@, n as nat).drop_last());
                } else {
                    assert(row.take(n as int) =~= row);
                }
            }
            a += 1;
        }
        pairs
    }

    /// Over how many symbols the probability of the transition `kind` is
    /// spread evenly. A substitution over an alphabet without symbols has no
    /// such number.
    pub fn spread(&self, kind: Transition) -> (among: Option<usize>)
        ensures
            among is Some <==> spread_of(kind, self@.len()) >= 0,
            among matches Some(n) ==> n == spread_of(kind, self@.len()),
    {
        match kind {
            Transition::Insertion => Some(self.symbols.len()),
            Transition::Substitution => if self.symbols.len() >= 1 {
                Some(self.symbols.len() - 1)
            } else {
                None
            },
            Transition::Omission => Some(1),
            Transition::Correct => Some(1),
        }
    }
}

} // verus!
