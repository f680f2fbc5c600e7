//! Counts over a board's cells, with the facts the engine needs about them.

use vstd::prelude::*;
use crate::cell::{Cell, is_mine};
use crate::grid::{adjacent, lemma_split_index};

verus! {

/// Number of mines among the first `m` cells.
pub open spec fn mines_before(s: Seq<Cell>, m: int) -> nat
    decreases m,
{
    if m <= 0 {
        0
    } else {
        mines_before(s, m - 1) + if is_mine(s[m - 1]) { 1nat } else { 0nat }
    }
}

/// Number of mines adjacent to `k` among the first `m` cells.
pub open spec fn adjacent_mines_before(n: nat, s: Seq<Cell>, k: int, m: int) -> nat
    decreases m,
{
    if m <= 0 {
        0
    } else {
        adjacent_mines_before(n, s, k, m - 1)
            + if adjacent(n, k, m - 1) && is_mine(s[m - 1]) { 1nat } else { 0nat }
    }
}

/// Number of mines among the neighbours of cell `k`.
pub open spec fn mines_around(n: nat, s: Seq<Cell>, k: int) -> nat {
    adjacent_mines_before(n, s, k, (n * n) as int)
}

/// Number of closed cells among the first `m` cells.
pub open spec fn closed_before(s: Seq<Cell>, m: int) -> nat
    decreases m,
{
    if m <= 0 {
        0
    } else {
        closed_before(s, m - 1) + if s[m - 1].is_opened { 0nat } else { 1nat }
    }
}

/// Turning the one safe cell `p` into a mine adds one to the mines counted.
pub proof fn lemma_mines_before_add(s1: Seq<Cell>, s2: Seq<Cell>, p: int, m: int)
    requires
        s1.len() == s2.len(),
        0 <= p < s1.len(),
        m <= s1.len(),
        !is_mine(s1[p]),
        is_mine(s2[p]),
        forall|j: int| 0 <= j < s1.len() && j != p ==> is_mine(#[trigger] s1[j]) == is_mine(s2[j]),
    ensures
        mines_before(s2, m) == mines_before(s1, m) + if 0 <= p < m { 1nat } else { 0nat },
    decreases m,
{
    if m > 0 {
        lemma_mines_before_add(s1, s2, p, m - 1);
    }
}

/// Turning the one safe cell `p` into a mine adds one to the adjacent mines
/// counted for each cell that `p` touches, and nothing for the others.
pub proof fn lemma_adjacent_mines_add(n: nat, s1: Seq<Cell>, s2: Seq<Cell>, k: int, p: int, m: int)
    requires
        s1.len() == s2.len(),
        0 <= p < s1.len(),
        m <= s1.len(),
        !is_mine(s1[p]),
        is_mine(s2[p]),
        forall|j: int| 0 <= j < s1.len() && j != p ==> is_mine(#[trigger] s1[j]) == is_mine(s2[j]),
    ensures
        adjacent_mines_before(n, s2, k, m) == adjacent_mines_before(n, s1, k, m)
            + if 0 <= p < m && adjacent(n, k, p) { 1nat } else { 0nat },
    decreases m,
{
    if m > 0 {
        lemma_adjacent_mines_add(n, s1, s2, k, p, m - 1);
    }
}

/// Counts of mines depend on which cells are mines and on nothing else.
pub proof fn lemma_counts_same_mines(n: nat, s1: Seq<Cell>, s2: Seq<Cell>, k: int, m: int)
    requires
        s1.len() == s2.len(),
        m <= s1.len(),
        forall|j: int| 0 <= j < s1.len() ==> is_mine(#[trigger] s1[j]) == is_mine(s2[j]),
    ensures
        mines_before(s2, m) == mines_before(s1, m),
        adjacent_mines_before(n, s2, k, m) == adjacent_mines_before(n, s1, k, m),
    decreases m,
{
    if m > 0 {
        lemma_counts_same_mines(n, s1, s2, k, m - 1);
    }
}

/// A cell is never its own neighbour, so fewer than `m` mines touch it when it
/// lies among the first `m` cells.
pub proof fn lemma_adjacent_mines_bound(n: nat, s: Seq<Cell>, k: int, m: int)
    ensures
        adjacent_mines_before(n, s, k, m) <= if m <= 0 { 0 } else if 0 <= k < m { m - 1 } else { m },
    decreases m,
{
    if m > 0 {
        lemma_adjacent_mines_bound(n, s, k, m - 1);
    }
}

/// With no mine at all, no cell has a mine around it.
pub proof fn lemma_no_mines(n: nat, s: Seq<Cell>, k: int, m: int)
    requires
        m <= s.len(),
        forall|j: int| 0 <= j < s.len() ==> !is_mine(#[trigger] s[j]),
    ensures
        adjacent_mines_before(n, s, k, m) == 0,
        mines_before(s, m) == 0,
    decreases m,
{
    if m > 0 {
        lemma_no_mines(n, s, k, m - 1);
    }
}

/// Opening the one closed cell `q` leaves one closed cell fewer.
pub proof fn lemma_closed_before_open(s1: Seq<Cell>, s2: Seq<Cell>, q: int, m: int)
    requires
        s1.len() == s2.len(),
        0 <= q < s1.len(),
        m <= s1.len(),
        !s1[q].is_opened,
        s2[q].is_opened,
        forall|j: int| 0 <= j < s1.len() && j != q ==> (#[trigger] s1[j]).is_opened == s2[j].is_opened,
    ensures
        closed_before(s2, m) + if 0 <= q < m { 1nat } else { 0nat } == closed_before(s1, m),
    decreases m,
{
    if m > 0 {
        lemma_closed_before_open(s1, s2, q, m - 1);
    }
}

/// How many of the eight positions `k + d`, for the offsets `d` of a
/// neighbour in a grid of side `n`, lie in `[0, m)`.
pub open spec fn offsets_below(n: int, k: int, m: int) -> int {
    let f = |d: int| if 0 <= k + d < m { 1int } else { 0int };
    f(-n - 1) + f(-n) + f(-n + 1) + f(-1) + f(1) + f(n - 1) + f(n) + f(n + 1)
}

/// A neighbour of `k` lies at one of the eight offsets from it.
pub proof fn lemma_adjacent_offset(n: nat, k: int, j: int)
    requires
        n > 0,
        adjacent(n, k, j),
    ensures
        j - k == -n - 1 || j - k == -n || j - k == -n + 1 || j - k == -1
            || j - k == 1 || j - k == n - 1 || j - k == n || j - k == n + 1,
{
    lemma_split_index(n, k);
    lemma_split_index(n, j);
    let rk = k / (n as int);
    let rj = j / (n as int);
    assert(rj * n - rk * n == (rj - rk) * n) by (nonlinear_arith);
    if rj - rk == 1 {
        assert((rj - rk) * n == n) by (nonlinear_arith)
            requires rj - rk == 1;
    } else if rj - rk == -1 {
        assert((rj - rk) * n == -n) by (nonlinear_arith)
            requires rj - rk == -1;
    } else {
        assert((rj - rk) * n == 0) by (nonlinear_arith)
            requires rj - rk == 0;
    }
}

/// The adjacent mines among the first `m` cells are no more than the
/// neighbour positions below `m`.
pub proof fn lemma_adjacent_mines_offsets(n: nat, s: Seq<Cell>, k: int, m: int)
    requires
        n > 0,
    ensures
        adjacent_mines_before(n, s, k, m) <= if m <= 0 { 0 } else { offsets_below(n as int, k, m) },
    decreases m,
{
    if m > 0 {
        lemma_adjacent_mines_offsets(n, s, k, m - 1);
        if adjacent(n, k, m - 1) {
            lemma_adjacent_offset(n, k, m - 1);
        }
    }
}

/// No cell has more than eight mines around it.
pub proof fn lemma_mines_around_at_most_eight(n: nat, s: Seq<Cell>, k: int)
    requires
        n > 0,
    ensures
        mines_around(n, s, k) <= 8,
{
    lemma_adjacent_mines_offsets(n, s, k, (n * n) as int);
}

} // verus!
