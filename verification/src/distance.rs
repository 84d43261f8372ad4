//! Edit distance between two byte strings, and its computation inside a
//! diagonal band.
//!
//! `levenshtein` is the textbook distance: the least number of single-byte
//! insertions, deletions and substitutions that turn one string into the
//! other. `bounded_levenshtein` computes it with two rolling rows and looks
//! only at the cells that lie within `max_dist` of the main diagonal; what it
//! returns is `bounded_distance`, which agrees with `levenshtein` whenever
//! the distance is within the bound and exceeds the bound otherwise.

use vstd::prelude::*;
use vstd::string::StringSliceAdditionalSpecFns;

verus! {

/// The least of three numbers.
pub open spec fn least_of_three(x: nat, y: nat, z: nat) -> nat {
    if x <= y {
        if x <= z { x } else { z }
    } else {
        if y <= z { y } else { z }
    }
}

/// What it costs to put `y` where `x` stands: nothing if they are equal.
pub open spec fn substitution_cost(x: u8, y: u8) -> nat {
    if x == y { 0 } else { 1 }
}

/// The Levenshtein distance between `a` and `b`.
pub open spec fn levenshtein(a: Seq<u8>, b: Seq<u8>) -> nat
    decreases a.len() + b.len(),
{
    if a.len() == 0 {
        b.len()
    } else if b.len() == 0 {
        a.len()
    } else {
        least_of_three(
            levenshtein(a, b.drop_last()) + 1,
            levenshtein(a.drop_last(), b) + 1,
            levenshtein(a.drop_last(), b.drop_last()) + substitution_cost(a.last(), b.last()),
        )
    }
}

/// Whether cell `(i, j)` lies within `bound` of the main diagonal.
pub open spec fn in_band(i: nat, j: nat, bound: nat) -> bool {
    i <= j + bound && j <= i + bound
}

/// Cell `(i, j)` of the banded table for `s` against `l`: the first row and
/// the first column count up from zero, a cell outside the band holds
/// `bound + 1`, and a cell inside it is computed from its three neighbours.
pub open spec fn banded(s: Seq<u8>, l: Seq<u8>, bound: nat, i: nat, j: nat) -> nat
    decreases i + j,
{
    if i == 0 {
        j
    } else if j == 0 {
        i
    } else if !in_band(i, j, bound) {
        bound + 1
    } else {
        least_of_three(
            banded(s, l, bound, i, (j - 1) as nat) + 1,
            banded(s, l, bound, (i - 1) as nat, j) + 1,
            banded(s, l, bound, (i - 1) as nat, (j - 1) as nat) + substitution_cost(
                s[i - 1],
                l[j - 1],
            ),
        )
    }
}

/// What `bounded_levenshtein` returns for `a`, `b` and `bound`: the shorter
/// string runs down the rows; if the lengths alone differ by more than the
/// bound the answer is `bound + 1`, else it is the last cell of the banded
/// table.
pub open spec fn bounded_distance(a: Seq<u8>, b: Seq<u8>, bound: nat) -> nat {
    let s = if a.len() <= b.len() { a } else { b };
    let l = if a.len() <= b.len() { b } else { a };
    if l.len() - s.len() > bound {
        bound + 1
    } else {
        banded(s, l, bound, s.len(), l.len())
    }
}

/// No cell of the banded table exceeds the larger of its two coordinates.
pub proof fn lemma_banded_upper_bound(s: Seq<u8>, l: Seq<u8>, bound: nat, i: nat, j: nat)
    ensures
        banded(s, l, bound, i, j) <= if i >= j { i } else { j },
    decreases i + j,
{
    if i > 0 && j > 0 && in_band(i, j, bound) {
        lemma_banded_upper_bound(s, l, bound, (i - 1) as nat, (j - 1) as nat);
    }
}

/// Two strings are at least as far apart as their lengths differ.
pub proof fn lemma_levenshtein_lower_bound(a: Seq<u8>, b: Seq<u8>)
    ensures
        levenshtein(a, b) + a.len() >= b.len(),
        levenshtein(a, b) + b.len() >= a.len(),
    decreases a.len() + b.len(),
{
    if a.len() > 0 && b.len() > 0 {
        lemma_levenshtein_lower_bound(a, b.drop_last());
        lemma_levenshtein_lower_bound(a.drop_last(), b);
        lemma_levenshtein_lower_bound(a.drop_last(), b.drop_last());
    }
}

/// The distance does not depend on the order of its arguments.
pub proof fn lemma_levenshtein_symmetric(a: Seq<u8>, b: Seq<u8>)
    ensures
        levenshtein(a, b) == levenshtein(b, a),
    decreases a.len() + b.len(),
{
    if a.len() > 0 && b.len() > 0 {
        lemma_levenshtein_symmetric(a, b.drop_last());
        lemma_levenshtein_symmetric(a.drop_last(), b);
        lemma_levenshtein_symmetric(a.drop_last(), b.drop_last());
    }
}

/// A string is at distance zero from itself.
pub proof fn lemma_levenshtein_identical(a: Seq<u8>)
    ensures
        levenshtein(a, a) == 0,
    decreases a.len(),
{
    if a.len() > 0 {
        lemma_levenshtein_identical(a.drop_last());
    }
}

/// The distance between two prefixes, written by the recurrence over their
/// last bytes.
proof fn lemma_prefix_distance_unfolds(s: Seq<u8>, l: Seq<u8>, i: nat, j: nat)
    requires
        0 < i <= s.len(),
        0 < j <= l.len(),
    ensures
        levenshtein(s.take(i as int), l.take(j as int)) == least_of_three(
            levenshtein(s.take(i as int), l.take(j - 1)) + 1,
            levenshtein(s.take(i - 1), l.take(j as int)) + 1,
            levenshtein(s.take(i - 1), l.take(j - 1)) + substitution_cost(s[i - 1], l[j - 1]),
        ),
{
    assert(s.take(i as int).drop_last() =~= s.take(i - 1));
    assert(l.take(j as int).drop_last() =~= l.take(j - 1));
}

/// Inside the bound the banded table holds the true distance between the
/// prefixes; where the true distance exceeds the bound, so does the table.
pub proof fn lemma_banded_agrees(s: Seq<u8>, l: Seq<u8>, bound: nat, i: nat, j: nat)
    requires
        i <= s.len(),
        j <= l.len(),
    ensures
        levenshtein(s.take(i as int), l.take(j as int)) <= bound ==> banded(s, l, bound, i, j)
            == levenshtein(s.take(i as int), l.take(j as int)),
        levenshtein(s.take(i as int), l.take(j as int)) > bound ==> banded(s, l, bound, i, j)
            > bound,
    decreases i + j,
{
    if i == 0 || j == 0 {
    } else if !in_band(i, j, bound) {
        lemma_levenshtein_lower_bound(s.take(i as int), l.take(j as int));
    } else {
        lemma_prefix_distance_unfolds(s, l, i, j);
        lemma_banded_agrees(s, l, bound, i, (j - 1) as nat);
        lemma_banded_agrees(s, l, bound, (i - 1) as nat, j);
        lemma_banded_agrees(s, l, bound, (i - 1) as nat, (j - 1) as nat);
    }
}

/// Swapping the two strings transposes the banded table.
pub proof fn lemma_banded_transposes(s: Seq<u8>, l: Seq<u8>, bound: nat, i: nat, j: nat)
    ensures
        banded(s, l, bound, i, j) == banded(l, s, bound, j, i),
    decreases i + j,
{
    if i > 0 && j > 0 && in_band(i, j, bound) {
        lemma_banded_transposes(s, l, bound, i, (j - 1) as nat);
        lemma_banded_transposes(s, l, bound, (i - 1) as nat, j);
        lemma_banded_transposes(s, l, bound, (i - 1) as nat, (j - 1) as nat);
    }
}

/// The bounded distance is the true distance whenever that is within the
/// bound, and is greater than the bound otherwise.
pub proof fn lemma_bounded_distance_agrees(a: Seq<u8>, b: Seq<u8>, bound: nat)
    ensures
        levenshtein(a, b) <= bound ==> bounded_distance(a, b, bound) == levenshtein(a, b),
        levenshtein(a, b) > bound ==> bounded_distance(a, b, bound) > bound,
{
    let s = if a.len() <= b.len() { a } else { b };
    let l = if a.len() <= b.len() { b } else { a };
    lemma_levenshtein_symmetric(a, b);
    lemma_levenshtein_lower_bound(s, l);
    assert(s.take(s.len() as int) =~= s);
    assert(l.take(l.len() as int) =~= l);
    lemma_banded_agrees(s, l, bound, s.len(), l.len());
}

/// The bounded distance does not depend on the order of its arguments.
pub proof fn lemma_bounded_distance_symmetric(a: Seq<u8>, b: Seq<u8>, bound: nat)
    ensures
        bounded_distance(a, b, bound) == bounded_distance(b, a, bound),
{
    if a.len() == b.len() {
        lemma_banded_transposes(a, b, bound, a.len(), b.len());
    }
}

/// The bounded edit distance between `a` and `b`, over their bytes: the
/// Levenshtein distance if that is at most `max_dist`, and some value above
/// `max_dist` if it is not.
pub fn bounded_levenshtein(a: &str, b: &str, max_dist: usize) -> (d: usize)
    ensures
        d == bounded_distance(a.spec_bytes(), b.spec_bytes(), max_dist as nat),
        d == bounded_distance(b.spec_bytes(), a.spec_bytes(), max_dist as nat),
        levenshtein(a.spec_bytes(), b.spec_bytes()) <= max_dist ==> d == levenshtein(
            a.spec_bytes(),
            b.spec_bytes(),
        ),
        levenshtein(a.spec_bytes(), b.spec_bytes()) > max_dist ==> d > max_dist,
{
    proof {
        lemma_bounded_distance_agrees(a.spec_bytes(), b.spec_bytes(), max_dist as nat);
        lemma_bounded_distance_symmetric(a.spec_bytes(), b.spec_bytes(), max_dist as nat);
    }
    let a_bytes = a.as_bytes();
    let b_bytes = b.as_bytes();
    if a_bytes.len() <= b_bytes.len() {
        banded_last_cell(a_bytes, b_bytes, max_dist)
    } else {
        banded_last_cell(b_bytes, a_bytes, max_dist)
    }
}

/// Fills the banded table for `shorter` against `longer` row by row, keeping
/// the previous and the current row only, and returns its last cell. Column
/// `j` of a row is kept at index `j - 1`; column zero is the row's number.
fn banded_last_cell(shorter: &[u8], longer: &[u8], max_dist: usize) -> (d: usize)
    requires
        shorter@.len() <= longer@.len(),
    ensures
        d == bounded_distance(shorter@, longer@, max_dist as nat),
{
    let m: usize = shorter.len();
    let n: usize = longer.len();
    if n - m > max_dist {
        return max_dist + 1;
    }
    let ghost s = shorter@;
    let ghost l = longer@;
    let ghost bound = max_dist as nat;
    let mut prev: Vec<usize> = Vec::new();
    let mut curr: Vec<usize> = Vec::new();
    let mut col: usize = 0;
    while col < n
        invariant
            col <= n,
            prev.len() == col,
            curr.len() == col,
            forall|t: int| 0 <= t < col ==> prev[t] == banded(s, l, bound, 0, (t + 1) as nat),
        decreases n - col,
    {
        prev.push(col + 1);
        curr.push(0);
        col += 1;
    }
    let mut row: usize = 0;
    while row < m
        invariant
            row <= m,
            m == s.len(),
            n == l.len(),
            m <= n,
            s == shorter@,
            l == longer@,
            bound == max_dist as nat,
            prev.len() == n,
            curr.len() == n,
            forall|t: int|
                0 <= t < n ==> prev[t] == banded(s, l, bound, row as nat, (t + 1) as nat),
        decreases m - row,
    {
        let i: usize = row + 1;
        let sc: u8 = shorter[row];
        col = 0;
        while col < n
            invariant
                col <= n,
                i == row + 1,
                i <= m,
                m == s.len(),
                n == l.len(),
                m <= n,
                s == shorter@,
                l == longer@,
                sc == s[row as int],
                bound == max_dist as nat,
                prev.len() == n,
                curr.len() == n,
                forall|t: int|
                    0 <= t < n ==> prev[t] == banded(s, l, bound, row as nat, (t + 1) as nat),
                forall|t: int|
                    0 <= t < col ==> curr[t] == banded(s, l, bound, i as nat, (t + 1) as nat),
            decreases n - col,
        {
            let j: usize = col + 1;
            let outside: bool = if j > i {
                j - i > max_dist
            } else {
                i - j > max_dist
            };
            proof {
                lemma_banded_upper_bound(s, l, bound, i as nat, j as nat);
                assert(outside == !in_band(i as nat, j as nat, bound));
            }
            let cell: usize = if outside {
                max_dist + 1
            } else {
                let left: usize = if col == 0 {
                    i
                } else {
                    curr[col - 1]
                };
                let up: usize = prev[col];
                let diag: usize = if col == 0 {
                    row
                } else {
                    prev[col - 1]
                };
                let least: usize = if left < up {
                    left
                } else {
                    up
                };
                assert(left == banded(s, l, bound, i as nat, (j - 1) as nat));
                assert(up == banded(s, l, bound, (i - 1) as nat, j as nat));
                assert(diag == banded(s, l, bound, (i - 1) as nat, (j - 1) as nat));
                if sc == longer[col] {
                    if diag <= least {
                        diag
                    } else {
                        least + 1
                    }
                } else {
                    if diag < least {
                        diag + 1
                    } else {
                        least + 1
                    }
                }
            };
            assert(cell == banded(s, l, bound, i as nat, j as nat));
            curr.set(col, cell);
            col += 1;
        }
        std::mem::swap(&mut prev, &mut curr);
        row += 1;
    }
    if n == 0 {
        0
    } else {
        prev[n - 1]
    }
}

} // verus!
