//! What an alignment of two symbol sequences is, what it costs, and which
//! optimal alignment the backtrace through the distance matrix settles on.

use vstd::prelude::*;
use crate::distance::{distance, distance_at, substitution_cost};
use crate::optimal_alignments::Element;
use crate::ratio::Fraction;

verus! {

/// What happened to a presented symbol on its way into the transcription, as
/// one aligned cell shows it.
#[derive(Debug, Clone, Copy, PartialEq, Eq, Structural)]
pub enum Transition {
    /// A symbol was entered where none was presented.
    Insertion,
    /// A presented symbol was left out.
    Omission,
    /// Another symbol was entered in place of the presented one.
    Substitution,
    /// The presented symbol was entered.
    Correct,
}

/// The transition that a cell with `i` presented and `j` transcribed shows.
/// A cell of two placeholders shows none.
pub open spec fn transition_of(i: Element, j: Element) -> Option<Transition> {
    match (i, j) {
        (Element::Null, Element::Null) => None,
        (Element::Null, Element::Character(_)) => Some(Transition::Insertion),
        (Element::Character(_), Element::Null) => Some(Transition::Omission),
        (Element::Character(a), Element::Character(b)) => if a == b {
            Some(Transition::Correct)
        } else {
            Some(Transition::Substitution)
        },
    }
}

impl Transition {
    /// The transition that a cell with `i` presented and `j` transcribed
    /// shows. A cell of two placeholders shows none.
    pub fn of(i: &Element, j: &Element) -> (kind: Option<Transition>)
        ensures
            kind == transition_of(*i, *j),
    {
        match (i, j) {
            (Element::Null, Element::Null) => None,
            (Element::Null, Element::Character(_)) => Some(Transition::Insertion),
            (Element::Character(_), Element::Null) => Some(Transition::Omission),
            (Element::Character(a), Element::Character(b)) => if *a == *b {
                Some(Transition::Correct)
            } else {
                Some(Transition::Substitution)
            },
        }
    }
}

/// The symbols of a track in order, its placeholders left out.
pub open spec fn symbols(track: Seq<Element>) -> Seq<char>
    decreases track.len(),
{
    if track.len() == 0 {
        Seq::empty()
    } else {
        match track.last() {
            Element::Character(c) => symbols(track.drop_last()).push(c),
            Element::Null => symbols(track.drop_last()),
        }
    }
}

/// The number of cells of the two tracks that show the transition `kind`.
pub open spec fn count(ps: Seq<Element>, ts: Seq<Element>, kind: Transition) -> nat
    recommends
        ps.len() == ts.len(),
    decreases ps.len(),
{
    if ps.len() == 0 || ts.len() == 0 {
        0
    } else {
        count(ps.drop_last(), ts.drop_last(), kind) + if transition_of(ps.last(), ts.last())
            == Some(kind) {
            1nat
        } else {
            0nat
        }
    }
}

/// The number of edits that the two tracks show: every cell but the correct ones.
pub open spec fn cost(ps: Seq<Element>, ts: Seq<Element>) -> nat {
    count(ps, ts, Transition::Insertion) + count(ps, ts, Transition::Omission) + count(
        ps,
        ts,
        Transition::Substitution,
    )
}

/// The two tracks have one length and no cell holds a placeholder in both.
pub open spec fn is_aligned(ps: Seq<Element>, ts: Seq<Element>) -> bool {
    &&& ps.len() == ts.len()
    &&& forall|i: int| 0 <= i < ps.len() ==> transition_of(#[trigger] ps[i], ts[i]) is Some
}

/// The two tracks align `p` with `t`: they are aligned, the presented track
/// spells `p` and the transcribed track spells `t`.
pub open spec fn is_alignment_of(
    ps: Seq<Element>,
    ts: Seq<Element>,
    p: Seq<char>,
    t: Seq<char>,
) -> bool {
    &&& is_aligned(ps, ts)
    &&& symbols(ps) == p
    &&& symbols(ts) == t
}

/// The cell that holds symbol `i` of `s`.
pub open spec fn symbol_at(s: Seq<char>, i: int) -> Element
    recommends
        0 <= i < s.len(),
{
    Element::Character(s[i])
}

/// Whether stepping left from cell `(x, y)` of the distance matrix, which
/// takes a symbol of `t` as inserted, stays on an optimal path.
pub open spec fn left_is_optimal(p: Seq<char>, t: Seq<char>, x: nat, y: nat) -> bool {
    y > 0 && distance_at(p, t, x, y) == distance_at(p, t, x, (y - 1) as nat) + 1
}

/// Whether stepping up from cell `(x, y)` of the distance matrix, which takes
/// a symbol of `p` as omitted, stays on an optimal path.
pub open spec fn up_is_optimal(p: Seq<char>, t: Seq<char>, x: nat, y: nat) -> bool {
    x > 0 && distance_at(p, t, x, y) == distance_at(p, t, (x - 1) as nat, y) + 1
}

/// The alignment of the first `x` symbols of `p` with the first `y` symbols of
/// `t` that a depth-first walk over all optimal paths completes last, when at
/// each cell it tries the diagonal first, then the step up, then the step
/// left: from the corner backwards it steps left where that is optimal, else
/// up where that is optimal, else along the diagonal.
pub open spec fn last_path(p: Seq<char>, t: Seq<char>, x: nat, y: nat) -> (
    Seq<Element>,
    Seq<Element>,
)
    recommends
        x <= p.len(),
        y <= t.len(),
    decreases x + y,
{
    if x == 0 && y == 0 {
        (Seq::empty(), Seq::empty())
    } else if left_is_optimal(p, t, x, y) {
        let rest = last_path(p, t, x, (y - 1) as nat);
        (rest.0.push(Element::Null), rest.1.push(symbol_at(t, y - 1)))
    } else if up_is_optimal(p, t, x, y) {
        let rest = last_path(p, t, (x - 1) as nat, y);
        (rest.0.push(symbol_at(p, x - 1)), rest.1.push(Element::Null))
    } else if x > 0 && y > 0 {
        let rest = last_path(p, t, (x - 1) as nat, (y - 1) as nat);
        (rest.0.push(symbol_at(p, x - 1)), rest.1.push(symbol_at(t, y - 1)))
    } else {
        (Seq::empty(), Seq::empty())
    }
}

/// Where neither the step left nor the step up is optimal, the cell lies in
/// the interior and the diagonal step is optimal.
pub proof fn lemma_diagonal_is_optimal(p: Seq<char>, t: Seq<char>, x: nat, y: nat)
    requires
        x + y > 0,
        !left_is_optimal(p, t, x, y),
        !up_is_optimal(p, t, x, y),
    ensures
        x > 0,
        y > 0,
        distance_at(p, t, x, y) == distance_at(p, t, (x - 1) as nat, (y - 1) as nat)
            + substitution_cost(p[x - 1], t[y - 1]),
{
    if x == 0 {
        assert(distance_at(p, t, x, (y - 1) as nat) == y - 1);
    } else if y == 0 {
        assert(distance_at(p, t, (x - 1) as nat, y) == x - 1);
    }
}

/// What one more cell adds to the symbols of a track.
pub proof fn lemma_symbols_push(track: Seq<Element>, e: Element)
    ensures
        symbols(track.push(e)) == match e {
            Element::Character(c) => symbols(track).push(c),
            Element::Null => symbols(track),
        },
{
    assert(track.push(e).drop_last() =~= track);
}

/// What one more cell adds to a count.
pub proof fn lemma_count_push(
    ps: Seq<Element>,
    ts: Seq<Element>,
    i: Element,
    j: Element,
    kind: Transition,
)
    requires
        ps.len() == ts.len(),
    ensures
        count(ps.push(i), ts.push(j), kind) == count(ps, ts, kind) + if transition_of(i, j)
            == Some(kind) {
            1nat
        } else {
            0nat
        },
{
    assert(ps.push(i).drop_last() =~= ps);
    assert(ts.push(j).drop_last() =~= ts);
}

/// What one more cell adds to the cost.
pub proof fn lemma_cost_push(ps: Seq<Element>, ts: Seq<Element>, i: Element, j: Element)
    requires
        ps.len() == ts.len(),
        transition_of(i, j) is Some,
    ensures
        cost(ps.push(i), ts.push(j)) == cost(ps, ts) + if transition_of(i, j) == Some(
            Transition::Correct,
        ) {
            0nat
        } else {
            1nat
        },
{
    lemma_count_push(ps, ts, i, j, Transition::Insertion);
    lemma_count_push(ps, ts, i, j, Transition::Omission);
    lemma_count_push(ps, ts, i, j, Transition::Substitution);
}

/// The symbols of a track that has `e` as one more cell after those that spell `s`.
pub open spec fn spelled_with(s: Seq<char>, e: Element) -> Seq<char> {
    match e {
        Element::Character(c) => s.push(c),
        Element::Null => s,
    }
}

/// One more cell that shows a transition extends an alignment: the tracks stay
/// aligned, each spells what it spelled and the new cell's symbol, and the cost
/// grows by one unless the cell is a correct entry.
pub proof fn lemma_alignment_push(
    ps: Seq<Element>,
    ts: Seq<Element>,
    i: Element,
    j: Element,
    p: Seq<char>,
    t: Seq<char>,
)
    requires
        is_alignment_of(ps, ts, p, t),
        transition_of(i, j) is Some,
    ensures
        is_alignment_of(ps.push(i), ts.push(j), spelled_with(p, i), spelled_with(t, j)),
        cost(ps.push(i), ts.push(j)) == cost(ps, ts) + if transition_of(i, j) == Some(
            Transition::Correct,
        ) {
            0nat
        } else {
            1nat
        },
{
    lemma_symbols_push(ps, i);
    lemma_symbols_push(ts, j);
    lemma_cost_push(ps, ts, i, j);
    assert forall|k: int| 0 <= k < ps.push(i).len() implies transition_of(
        #[trigger] ps.push(i)[k],
        ts.push(j)[k],
    ) is Some by {
        if k < ps.len() {
            assert(ps.push(i)[k] == ps[k] && ts.push(j)[k] == ts[k]);
        }
    }
}

/// The path that the backtrace settles on is at least as long as the longer of
/// the two prefixes, and no longer than both together.
pub proof fn lemma_last_path_len(p: Seq<char>, t: Seq<char>, x: nat, y: nat)
    requires
        x <= p.len(),
        y <= t.len(),
    ensures
        last_path(p, t, x, y).0.len() == last_path(p, t, x, y).1.len(),
        last_path(p, t, x, y).0.len() >= x,
        last_path(p, t, x, y).0.len() >= y,
        last_path(p, t, x, y).0.len() <= x + y,
    decreases x + y,
{
    if x == 0 && y == 0 {
    } else if left_is_optimal(p, t, x, y) {
        lemma_last_path_len(p, t, x, (y - 1) as nat);
    } else if up_is_optimal(p, t, x, y) {
        lemma_last_path_len(p, t, (x - 1) as nat, y);
    } else {
        lemma_diagonal_is_optimal(p, t, x, y);
        lemma_last_path_len(p, t, (x - 1) as nat, (y - 1) as nat);
    }
}

/// The path that the backtrace settles on aligns the two prefixes and costs
/// exactly their distance.
pub proof fn lemma_last_path_is_optimal(p: Seq<char>, t: Seq<char>, x: nat, y: nat)
    requires
        x <= p.len(),
        y <= t.len(),
    ensures
        is_alignment_of(
            last_path(p, t, x, y).0,
            last_path(p, t, x, y).1,
            p.take(x as int),
            t.take(y as int),
        ),
        cost(last_path(p, t, x, y).0, last_path(p, t, x, y).1) == distance_at(p, t, x, y),
    decreases x + y,
{
    if x == 0 && y == 0 {
        assert(p.take(0) =~= Seq::<char>::empty());
        assert(t.take(0) =~= Seq::<char>::empty());
    } else if left_is_optimal(p, t, x, y) {
        let rest = last_path(p, t, x, (y - 1) as nat);
        lemma_last_path_is_optimal(p, t, x, (y - 1) as nat);
        lemma_alignment_push(
            rest.0,
            rest.1,
            Element::Null,
            symbol_at(t, y - 1),
            p.take(x as int),
            t.take(y - 1),
        );
        assert(t.take(y as int) =~= t.take(y - 1).push(t[y - 1]));
    } else if up_is_optimal(p, t, x, y) {
        let rest = last_path(p, t, (x - 1) as nat, y);
        lemma_last_path_is_optimal(p, t, (x - 1) as nat, y);
        lemma_alignment_push(
            rest.0,
            rest.1,
            symbol_at(p, x - 1),
            Element::Null,
            p.take(x - 1),
            t.take(y as int),
        );
        assert(p.take(x as int) =~= p.take(x - 1).push(p[x - 1]));
    } else {
        lemma_diagonal_is_optimal(p, t, x, y);
        let rest = last_path(p, t, (x - 1) as nat, (y - 1) as nat);
        lemma_last_path_is_optimal(p, t, (x - 1) as nat, (y - 1) as nat);
        lemma_alignment_push(
            rest.0,
            rest.1,
            symbol_at(p, x - 1),
            symbol_at(t, y - 1),
            p.take(x - 1),
            t.take(y - 1),
        );
        assert(p.take(x as int) =~= p.take(x - 1).push(p[x - 1]));
        assert(t.take(y as int) =~= t.take(y - 1).push(t[y - 1]));
    }
}

/// No alignment of two prefixes costs less than their distance.
pub proof fn lemma_alignment_costs_at_least_distance(
    ps: Seq<Element>,
    ts: Seq<Element>,
    p: Seq<char>,
    t: Seq<char>,
    x: nat,
    y: nat,
)
    requires
        x <= p.len(),
        y <= t.len(),
        is_alignment_of(ps, ts, p.take(x as int), t.take(y as int)),
    ensures
        cost(ps, ts) >= distance_at(p, t, x, y),
    decreases ps.len(),
{
    if ps.len() == 0 {
        assert(p.take(x as int).len() == x && t.take(y as int).len() == y);
    } else {
        let (i, j) = (ps.last(), ts.last());
        let (ps0, ts0) = (ps.drop_last(), ts.drop_last());
        assert(ps =~= ps0.push(i));
        assert(ts =~= ts0.push(j));
        lemma_symbols_push(ps0, i);
        lemma_symbols_push(ts0, j);
        lemma_cost_push(ps0, ts0, i, j);
        assert(transition_of(ps[ps.len() - 1], ts[ps.len() - 1]) is Some);
        assert(is_aligned(ps0, ts0)) by {
            assert forall|k: int| 0 <= k < ps0.len() implies transition_of(
                #[trigger] ps0[k],
                ts0[k],
            ) is Some by {
                assert(ps0[k] == ps[k] && ts0[k] == ts[k]);
            }
        }
        match (i, j) {
            (Element::Character(a), Element::Character(b)) => {
                assert(x > 0 && y > 0 && a == p[x - 1] && b == t[y - 1] && symbols(ps0) =~= p.take(
                    x - 1,
                ) && symbols(ts0) =~= t.take(y - 1)) by {
                    assert(symbols(ps0).push(a) == p.take(x as int));
                    assert(symbols(ts0).push(b) == t.take(y as int));
                    assert(symbols(ps0).push(a).len() == x);
                    assert(symbols(ts0).push(b).len() == y);
                    assert(symbols(ps0).push(a).last() == a);
                    assert(symbols(ts0).push(b).last() == b);
                    assert(symbols(ps0).push(a).drop_last() =~= symbols(ps0));
                    assert(symbols(ts0).push(b).drop_last() =~= symbols(ts0));
                    assert(p.take(x as int).drop_last() =~= p.take(x - 1));
                    assert(t.take(y as int).drop_last() =~= t.take(y - 1));
                }
                lemma_alignment_costs_at_least_distance(
                    ps0,
                    ts0,
                    p,
                    t,
                    (x - 1) as nat,
                    (y - 1) as nat,
                );
            },
            (Element::Character(a), Element::Null) => {
                assert(x > 0 && a == p[x - 1] && symbols(ps0) =~= p.take(x - 1)) by {
                    assert(symbols(ps0).push(a) == p.take(x as int));
                    assert(symbols(ps0).push(a).len() == x);
                    assert(symbols(ps0).push(a).last() == a);
                    assert(symbols(ps0).push(a).drop_last() =~= symbols(ps0));
                    assert(p.take(x as int).drop_last() =~= p.take(x - 1));
                }
                lemma_alignment_costs_at_least_distance(ps0, ts0, p, t, (x - 1) as nat, y);
            },
            (Element::Null, Element::Character(b)) => {
                assert(y > 0 && b == t[y - 1] && symbols(ts0) =~= t.take(y - 1)) by {
                    assert(symbols(ts0).push(b) == t.take(y as int));
                    assert(symbols(ts0).push(b).len() == y);
                    assert(symbols(ts0).push(b).last() == b);
                    assert(symbols(ts0).push(b).drop_last() =~= symbols(ts0));
                    assert(t.take(y as int).drop_last() =~= t.take(y - 1));
                }
                lemma_alignment_costs_at_least_distance(ps0, ts0, p, t, x, (y - 1) as nat);
            },
            (Element::Null, Element::Null) => {},
        }
    }
}

/// The number of placeholders in a track.
pub open spec fn gaps(track: Seq<Element>) -> nat
    decreases track.len(),
{
    if track.len() == 0 {
        0
    } else {
        gaps(track.drop_last()) + if track.last() == Element::Null {
            1nat
        } else {
            0nat
        }
    }
}

/// What one more cell adds to the placeholders of a track.
pub proof fn lemma_gaps_push(track: Seq<Element>, e: Element)
    ensures
        gaps(track.push(e)) == gaps(track) + if e == Element::Null {
            1nat
        } else {
            0nat
        },
{
    assert(track.push(e).drop_last() =~= track);
}

/// In aligned tracks every cell shows exactly one transition: the insertions
/// are the cells with a placeholder presented, the omissions those with a
/// placeholder transcribed, and the omissions, substitutions and correct
/// entries together are the cells with a symbol presented.
pub proof fn lemma_counts_partition(ps: Seq<Element>, ts: Seq<Element>)
    requires
        is_aligned(ps, ts),
    ensures
        count(ps, ts, Transition::Insertion) + count(ps, ts, Transition::Omission) + count(
            ps,
            ts,
            Transition::Substitution,
        ) + count(ps, ts, Transition::Correct) == ps.len(),
        count(ps, ts, Transition::Insertion) == gaps(ps),
        count(ps, ts, Transition::Omission) == gaps(ts),
        gaps(ps) + symbols(ps).len() == ps.len(),
        gaps(ts) + symbols(ts).len() == ts.len(),
    decreases ps.len(),
{
    if ps.len() > 0 {
        let (ps0, ts0) = (ps.drop_last(), ts.drop_last());
        assert(is_aligned(ps0, ts0)) by {
            assert forall|k: int| 0 <= k < ps0.len() implies transition_of(
                #[trigger] ps0[k],
                ts0[k],
            ) is Some by {
                assert(ps0[k] == ps[k] && ts0[k] == ts[k]);
            }
        }
        assert(transition_of(ps[ps.len() - 1], ts[ps.len() - 1]) is Some);
        lemma_counts_partition(ps0, ts0);
    }
}

/// The probability that an aligned cell is an insertion: the insertions over
/// all cells.
pub open spec fn insertion_fraction(ps: Seq<Element>, ts: Seq<Element>) -> Fraction {
    Fraction { numerator: count(ps, ts, Transition::Insertion), denominator: ps.len() }
}

/// The probability that a cell presents a placeholder: the placeholders of
/// the presented track over all cells.
pub open spec fn gap_fraction(ps: Seq<Element>) -> Fraction {
    Fraction { numerator: gaps(ps), denominator: ps.len() }
}

/// The probability of the transition `kind` of a presented symbol: the cells
/// that show it over the cells that present a symbol, times the probability
/// that a cell is no insertion.
pub open spec fn presented_fraction(
    ps: Seq<Element>,
    ts: Seq<Element>,
    kind: Transition,
) -> Fraction {
    Fraction {
        numerator: count(ps, ts, kind) * (ps.len() - count(ps, ts, Transition::Insertion)) as nat,
        denominator: symbols(ps).len() * ps.len(),
    }
}

/// The probability of the transition `kind`, as one aligned cell shows it.
pub open spec fn transition_fraction(
    ps: Seq<Element>,
    ts: Seq<Element>,
    kind: Transition,
) -> Fraction {
    match kind {
        Transition::Insertion => insertion_fraction(ps, ts),
        _ => presented_fraction(ps, ts, kind),
    }
}

/// No alignment of `p` with `t` costs less than the minimum string distance
/// between them.
pub proof fn law_distance_is_least_cost(
    p: Seq<char>,
    t: Seq<char>,
    ps: Seq<Element>,
    ts: Seq<Element>,
)
    requires
        is_alignment_of(ps, ts, p, t),
    ensures
        cost(ps, ts) >= distance(p, t),
{
    assert(p.take(p.len() as int) =~= p);
    assert(t.take(t.len() as int) =~= t);
    lemma_alignment_costs_at_least_distance(ps, ts, p, t, p.len(), t.len());
}

/// Some alignment of `p` with `t` costs exactly the minimum string distance
/// between them: the one that the backtrace settles on. Its tracks have one
/// length, which is at least that of the longer text and at most that of both
/// together.
pub proof fn law_distance_is_attained(p: Seq<char>, t: Seq<char>)
    ensures
        is_alignment_of(
            last_path(p, t, p.len(), t.len()).0,
            last_path(p, t, p.len(), t.len()).1,
            p,
            t,
        ),
        cost(last_path(p, t, p.len(), t.len()).0, last_path(p, t, p.len(), t.len()).1)
            == distance(p, t),
        last_path(p, t, p.len(), t.len()).0.len() == last_path(p, t, p.len(), t.len()).1.len(),
        last_path(p, t, p.len(), t.len()).0.len() >= p.len(),
        last_path(p, t, p.len(), t.len()).0.len() >= t.len(),
        last_path(p, t, p.len(), t.len()).0.len() <= p.len() + t.len(),
{
    assert(p.take(p.len() as int) =~= p);
    assert(t.take(t.len() as int) =~= t);
    lemma_last_path_is_optimal(p, t, p.len(), t.len());
    lemma_last_path_len(p, t, p.len(), t.len());
}

/// How the probabilities of the four transitions hang together. The
/// insertions are counted against all cells, the other three against the
/// cells that present a symbol, and each of those three is scaled by the
/// probability that a cell is no insertion. So the three share a
/// denominator, the product of the presented symbols and the cells; their
/// numerators add up to the product of the presented symbols and the cells
/// that are no insertion; and the cells that are no insertion are the cells
/// that present a symbol. Hence the three add up to what the probability of
/// an insertion leaves of one, wherever they are defined. The probability
/// that a cell presents a placeholder is the probability of an insertion.
pub proof fn law_transition_probabilities(ps: Seq<Element>, ts: Seq<Element>)
    requires
        is_aligned(ps, ts),
    ensures
        insertion_fraction(ps, ts).denominator == ps.len(),
        insertion_fraction(ps, ts).numerator + symbols(ps).len() == ps.len(),
        gap_fraction(ps) == insertion_fraction(ps, ts),
        presented_fraction(ps, ts, Transition::Omission).denominator == symbols(ps).len()
            * ps.len(),
        presented_fraction(ps, ts, Transition::Substitution).denominator == symbols(ps).len()
            * ps.len(),
        presented_fraction(ps, ts, Transition::Correct).denominator == symbols(ps).len()
            * ps.len(),
        presented_fraction(ps, ts, Transition::Omission).numerator + presented_fraction(
            ps,
            ts,
            Transition::Substitution,
        ).numerator + presented_fraction(ps, ts, Transition::Correct).numerator == symbols(
            ps,
        ).len() * (ps.len() - insertion_fraction(ps, ts).numerator),
        count(ps, ts, Transition::Omission) + count(ps, ts, Transition::Substitution) + count(
            ps,
            ts,
            Transition::Correct,
        ) == symbols(ps).len(),
        (Fraction {
            numerator: presented_fraction(ps, ts, Transition::Omission).numerator
                + presented_fraction(ps, ts, Transition::Substitution).numerator
                + presented_fraction(ps, ts, Transition::Correct).numerator,
            denominator: symbols(ps).len() * ps.len(),
        }).same_value(
            (Fraction {
                numerator: (ps.len() - insertion_fraction(ps, ts).numerator) as nat,
                denominator: ps.len(),
            }),
        ),
{
    lemma_counts_partition(ps, ts);
    let others = (ps.len() - count(ps, ts, Transition::Insertion)) as nat;
    let (om, su, co) = (
        count(ps, ts, Transition::Omission),
        count(ps, ts, Transition::Substitution),
        count(ps, ts, Transition::Correct),
    );
    let (shown, cells) = (symbols(ps).len(), ps.len());
    assert(om * others + su * others + co * others == (om + su + co) * others)
        by (nonlinear_arith);
    assert((shown * others) * cells == others * (shown * cells)) by (nonlinear_arith);
}

} // verus!
