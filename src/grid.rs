//! Geometry of a square grid of side `n` whose cells are stored row by row,
//! the cell at row `r` and column `c` standing at index `r * n + c`.

use vstd::prelude::*;
use vstd::arithmetic::div_mod::{lemma_fundamental_div_mod, lemma_fundamental_div_mod_converse};

verus! {

/// Row of the cell stored at index `k`.
pub open spec fn row(n: nat, k: int) -> int {
    k / (n as int)
}

/// Column of the cell stored at index `k`.
pub open spec fn col(n: nat, k: int) -> int {
    k % (n as int)
}

/// `k` is the index of a cell of the grid.
pub open spec fn in_grid(n: nat, k: int) -> bool {
    0 <= k < n * n
}

/// `a` and `b` are two distinct cells of the grid that touch by a side or a
/// corner: one of the (up to) eight neighbours of each other.
pub open spec fn adjacent(n: nat, a: int, b: int) -> bool {
    &&& in_grid(n, a)
    &&& in_grid(n, b)
    &&& a != b
    &&& -1 <= row(n, a) - row(n, b) <= 1
    &&& -1 <= col(n, a) - col(n, b) <= 1
}

/// The index built from a row and a column lies in the grid and gives them back.
pub proof fn lemma_index_of(n: nat, r: int, c: int)
    requires
        n > 0,
        0 <= r < n,
        0 <= c < n,
    ensures
        0 <= r * n <= r * n + c < n * n,
        row(n, r * n + c) == r,
        col(n, r * n + c) == c,
{
    assert(0 <= r * n) by (nonlinear_arith)
        requires 0 <= r, n > 0;
    assert(r * n + c < n * n) by (nonlinear_arith)
        requires 0 <= r < n, 0 <= c < n;
    lemma_fundamental_div_mod_converse(r * n + c, n as int, r, c);
}

/// Every cell of the grid is its row times the side plus its column.
pub proof fn lemma_split_index(n: nat, k: int)
    requires
        n > 0,
        in_grid(n, k),
    ensures
        0 <= row(n, k) < n,
        0 <= col(n, k) < n,
        k == row(n, k) * n + col(n, k),
{
    lemma_fundamental_div_mod(k, n as int);
    assert((n as int) * row(n, k) == row(n, k) * n) by (nonlinear_arith);
    assert(0 <= row(n, k) < n) by (nonlinear_arith)
        requires 0 <= k < n * n, n > 0, k == (n as int) * row(n, k) + col(n, k), 0 <= col(n, k) < n;
}

/// (row, column) pair of `a` comes strictly before that of `b` in row-major order.
pub open spec fn before(ra: int, ca: int, rb: int, cb: int) -> bool {
    ra < rb || (ra == rb && ca < cb)
}

fn push_cell(v: &mut Vec<usize>, n: usize, k: Ghost<int>, r: usize, c: usize)
    requires
        n > 0,
        r < n,
        c < n,
        n * n <= usize::MAX,
        in_grid(n as nat, k@),
        r != row(n as nat, k@) || c != col(n as nat, k@),
        -1 <= r - row(n as nat, k@) <= 1,
        -1 <= c - col(n as nat, k@) <= 1,
        forall|i: int| 0 <= i < old(v)@.len() ==> adjacent(n as nat, k@, #[trigger] old(v)@[i] as int),
        old(v)@.no_duplicates(),
        forall|i: int| 0 <= i < old(v)@.len()
            ==> #[trigger] before(row(n as nat, old(v)@[i] as int), col(n as nat, old(v)@[i] as int), r as int, c as int),
    ensures
        final(v)@ == old(v)@.push((r * n + c) as usize),
        final(v)@.no_duplicates(),
        final(v)@.contains((r * n + c) as usize),
        forall|y: usize| old(v)@.contains(y) ==> final(v)@.contains(y),
        forall|i: int| 0 <= i < final(v)@.len() ==> adjacent(n as nat, k@, #[trigger] final(v)@[i] as int),
        row(n as nat, r * n + c) == r,
        col(n as nat, r * n + c) == c,
        forall|i: int| 0 <= i < final(v)@.len() ==> {
            let x = #[trigger] final(v)@[i] as int;
            before(row(n as nat, x), col(n as nat, x), r as int, c as int) || x == r * n + c
        },
{
    proof {
        lemma_index_of(n as nat, r as int, c as int);
    }
    let x = r * n + c;
    assert(!v@.contains(x)) by {
        if v@.contains(x) {
            let i = choose|i: int| 0 <= i < v@.len() && v@[i] == x;
            assert(before(row(n as nat, v@[i] as int), col(n as nat, v@[i] as int), r as int, c as int));
        }
    }
    let ghost pre = v@;
    v.push(x);
    assert(v@[v@.len() - 1] == x);
    assert forall|y: usize| pre.contains(y) implies v@.contains(y) by {
        let i = choose|i: int| 0 <= i < pre.len() && pre[i] == y;
        assert(v@[i] == y);
    }
}

/// The neighbours of cell `k`, in row-major order: exactly the cells adjacent
/// to it, each once.
pub fn neighbors(n: usize, k: usize) -> (v: Vec<usize>)
    requires
        n > 0,
        n * n <= usize::MAX,
        k < n * n,
    ensures
        v@.len() <= 8,
        v@.no_duplicates(),
        forall|i: int| 0 <= i < v@.len() ==> adjacent(n as nat, k as int, #[trigger] v@[i] as int),
        forall|j: int| adjacent(n as nat, k as int, j) ==> v@.contains(j as usize),
{
    proof {
        lemma_split_index(n as nat, k as int);
    }
    let r = k / n;
    let c = k % n;
    let up = r > 0;
    let down = r + 1 < n;
    let left = c > 0;
    let right = c + 1 < n;
    let mut v: Vec<usize> = Vec::new();
    if up && left {
        push_cell(&mut v, n, Ghost(k as int), r - 1, c - 1);
    }
    if up {
        push_cell(&mut v, n, Ghost(k as int), r - 1, c);
    }
    if up && right {
        push_cell(&mut v, n, Ghost(k as int), r - 1, c + 1);
    }
    if left {
        push_cell(&mut v, n, Ghost(k as int), r, c - 1);
    }
    if right {
        push_cell(&mut v, n, Ghost(k as int), r, c + 1);
    }
    if down && left {
        push_cell(&mut v, n, Ghost(k as int), r + 1, c - 1);
    }
    if down {
        push_cell(&mut v, n, Ghost(k as int), r + 1, c);
    }
    if down && right {
        push_cell(&mut v, n, Ghost(k as int), r + 1, c + 1);
    }
    assert forall|j: int| adjacent(n as nat, k as int, j) implies v@.contains(j as usize) by {
        lemma_split_index(n as nat, j);
    }
    v
}

} // verus!
