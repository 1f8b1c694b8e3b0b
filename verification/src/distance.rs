//! The minimum string distance between two symbol sequences, as a dense matrix.

use vstd::prelude::*;

verus! {

/// What it costs to put `b` where `a` was presented.
pub open spec fn substitution_cost(a: char, b: char) -> nat {
    if a == b {
        0
    } else {
        1
    }
}

/// The least of three numbers.
pub open spec fn min3(a: nat, b: nat, c: nat) -> nat {
    if a <= b && a <= c {
        a
    } else if b <= c {
        b
    } else {
        c
    }
}

/// The minimum string distance between the first `i` symbols of `p` and the
/// first `j` symbols of `t`.
pub open spec fn distance_at(p: Seq<char>, t: Seq<char>, i: nat, j: nat) -> nat
    recommends
        i <= p.len(),
        j <= t.len(),
    decreases i + j,
{
    if i == 0 {
        j
    } else if j == 0 {
        i
    } else {
        min3(
            distance_at(p, t, (i - 1) as nat, j) + 1,
            distance_at(p, t, i, (j - 1) as nat) + 1,
            distance_at(p, t, (i - 1) as nat, (j - 1) as nat) + substitution_cost(
                p[i - 1],
                t[j - 1],
            ),
        )
    }
}

/// The minimum string distance between `p` and `t`.
pub open spec fn distance(p: Seq<char>, t: Seq<char>) -> nat {
    distance_at(p, t, p.len(), t.len())
}

/// `d` has a row for each prefix of `p`, a column for each prefix of `t`, and
/// holds in each cell the distance between the two prefixes.
pub open spec fn is_distance_matrix(d: Seq<Vec<u128>>, p: Seq<char>, t: Seq<char>) -> bool {
    &&& d.len() == p.len() + 1
    &&& forall|i: int| 0 <= i < d.len() ==> (#[trigger] d[i]).len() == t.len() + 1
    &&& forall|i: int, j: int|
        0 <= i <= p.len() && 0 <= j <= t.len() ==> (#[trigger] d[i][j]) as nat == distance_at(
            p,
            t,
            i as nat,
            j as nat,
        )
}

/// A distance never exceeds the longer of the two prefixes.
pub proof fn lemma_distance_at_most_longer(p: Seq<char>, t: Seq<char>, i: nat, j: nat)
    ensures
        distance_at(p, t, i, j) <= if i >= j {
            i
        } else {
            j
        },
    decreases i + j,
{
    if i != 0 && j != 0 {
        lemma_distance_at_most_longer(p, t, (i - 1) as nat, (j - 1) as nat);
    }
}

/// A distance is at least the difference of the two prefixes' lengths.
pub proof fn lemma_distance_at_least_difference(p: Seq<char>, t: Seq<char>, i: nat, j: nat)
    ensures
        distance_at(p, t, i, j) + j >= i,
        distance_at(p, t, i, j) + i >= j,
    decreases i + j,
{
    if i != 0 && j != 0 {
        lemma_distance_at_least_difference(p, t, (i - 1) as nat, j);
        lemma_distance_at_least_difference(p, t, i, (j - 1) as nat);
        lemma_distance_at_least_difference(p, t, (i - 1) as nat, (j - 1) as nat);
    }
}

/// The minimum string distance between two texts lies between the
/// difference of their lengths and the length of the longer one. It is the
/// length of the other text where one of them is empty, and nothing between
/// a text and itself.
pub proof fn law_distance_bounds(p: Seq<char>, t: Seq<char>)
    ensures
        distance(p, t) + t.len() >= p.len(),
        distance(p, t) + p.len() >= t.len(),
        distance(p, t) <= p.len() || distance(p, t) <= t.len(),
        p.len() == 0 ==> distance(p, t) == t.len(),
        t.len() == 0 ==> distance(p, t) == p.len(),
        distance(p, p) == 0,
{
    lemma_distance_at_least_difference(p, t, p.len(), t.len());
    lemma_distance_at_most_longer(p, t, p.len(), t.len());
    lemma_distance_to_itself(p, p.len());
}

/// Nothing lies between a prefix of a text and itself.
pub proof fn lemma_distance_to_itself(p: Seq<char>, i: nat)
    ensures
        distance_at(p, p, i, i) == 0,
    decreases i,
{
    if i != 0 {
        lemma_distance_to_itself(p, (i - 1) as nat);
    }
}

/// The least of three matrix entries.
fn least(a: u128, b: u128, c: u128) -> (m: u128)
    ensures
        m as nat == min3(a as nat, b as nat, c as nat),
{
    if a <= b && a <= c {
        a
    } else if b <= c {
        b
    } else {
        c
    }
}

/// The first row of the matrix: the distance from nothing to each prefix of `t`.
fn first_row(p: &Vec<char>, t: &Vec<char>) -> (row: Vec<u128>)
    ensures
        row.len() == t.len() + 1,
        forall|j: int|
            0 <= j <= t.len() ==> (#[trigger] row[j]) as nat == distance_at(p@, t@, 0, j as nat),
{
    let mut row: Vec<u128> = Vec::new();
    row.push(0);
    let mut j: usize = 0;
    while j < t.len()
        invariant
            j <= t.len(),
            row.len() == j + 1,
            forall|k: int|
                0 <= k <= j ==> (#[trigger] row[k]) as nat == distance_at(p@, t@, 0, k as nat),
        decreases t.len() - j,
    {
        j += 1;
        row.push(j as u128);
    }
    row
}

/// Row `i` of the matrix, from the row above it.
fn next_row(p: &Vec<char>, t: &Vec<char>, i: usize, above: &Vec<u128>) -> (row: Vec<u128>)
    requires
        1 <= i <= p.len(),
        above.len() == t.len() + 1,
        forall|j: int|
            0 <= j <= t.len() ==> (#[trigger] above[j]) as nat == distance_at(
                p@,
                t@,
                (i - 1) as nat,
                j as nat,
            ),
    ensures
        row.len() == t.len() + 1,
        forall|j: int|
            0 <= j <= t.len() ==> (#[trigger] row[j]) as nat == distance_at(
                p@,
                t@,
                i as nat,
                j as nat,
            ),
{
    let mut row: Vec<u128> = Vec::new();
    row.push(i as u128);
    let mut j: usize = 0;
    while j < t.len()
        invariant
            1 <= i <= p.len(),
            j <= t.len(),
            row.len() == j + 1,
            above.len() == t.len() + 1,
            forall|k: int|
                0 <= k <= t.len() ==> (#[trigger] above[k]) as nat == distance_at(
                    p@,
                    t@,
                    (i - 1) as nat,
                    k as nat,
                ),
            forall|k: int|
                0 <= k <= j ==> (#[trigger] row[k]) as nat == distance_at(
                    p@,
                    t@,
                    i as nat,
                    k as nat,
                ),
        decreases t.len() - j,
    {
        proof {
            lemma_distance_at_most_longer(p@, t@, (i - 1) as nat, (j + 1) as nat);
            lemma_distance_at_most_longer(p@, t@, i as nat, j as nat);
            lemma_distance_at_most_longer(p@, t@, (i - 1) as nat, j as nat);
        }
        let up: u128 = above[j + 1] + 1;
        let left: u128 = row[j] + 1;
        let step: u128 = if p[i - 1] == t[j] {
            0
        } else {
            1
        };
        let diagonal: u128 = above[j] + step;
        row.push(least(up, left, diagonal));
        j += 1;
    }
    row
}

/// The matrix of minimum string distances between the prefixes of `p` and
/// those of `t`: the entry in row `i` and column `j` is the distance between
/// the first `i` symbols of `p` and the first `j` symbols of `t`.
pub fn msd_matrix(p: &Vec<char>, t: &Vec<char>) -> (d: Vec<Vec<u128>>)
    ensures
        is_distance_matrix(d@, p@, t@),
{
    let mut d: Vec<Vec<u128>> = Vec::new();
    d.push(first_row(p, t));
    let mut i: usize = 0;
    while i < p.len()
        invariant
            i <= p.len(),
            d.len() == i + 1,
            forall|k: int| 0 <= k <= i ==> (#[trigger] d[k]).len() == t.len() + 1,
            forall|k: int, j: int|
                0 <= k <= i && 0 <= j <= t.len() ==> (#[trigger] d[k][j]) as nat == distance_at(
                    p@,
                    t@,
                    k as nat,
                    j as nat,
                ),
        decreases p.len() - i,
    {
        let row = next_row(p, t, i + 1, &d[i]);
        d.push(row);
        i += 1;
    }
    d
}

} // verus!
