//! The board: a square of `n * n` cells stored row by row, with the mines
//! placed on it, and the operations of play on it.

use vstd::prelude::*;
use crate::cell::{Cell, CellKind, is_mine, expands};
use crate::counting::{
    closed_before, lemma_adjacent_mines_add, lemma_adjacent_mines_bound, lemma_closed_before_open,
    lemma_counts_same_mines, lemma_mines_around_at_most_eight, lemma_mines_before_add, lemma_no_mines,
    mines_around, mines_before,
};
use crate::grid::{adjacent, in_grid, neighbors};

verus! {

/// Every safe cell's count is the number of mines among its neighbours.
pub open spec fn counts_correct(n: nat, s: Seq<Cell>) -> bool {
    forall|k: int| 0 <= k < s.len() && !is_mine(#[trigger] s[k])
        ==> s[k].kind == CellKind::SafeWithCount(mines_around(n, s, k) as usize)
}

/// A board of side `n` holding the `m` mines of `s`, with at least one safe
/// cell and correct counts.
pub open spec fn valid_board(n: nat, m: nat, s: Seq<Cell>) -> bool {
    &&& n > 0
    &&& n * n <= usize::MAX
    &&& s.len() == n * n
    &&& m < n * n
    &&& mines_before(s, s.len() as int) == m
    &&& counts_correct(n, s)
}

/// `s` after a mine is put on its safe cell `p`: each safe neighbour of `p`
/// counts one mine more.
pub open spec fn with_mine(n: nat, s: Seq<Cell>, p: int) -> Seq<Cell> {
    Seq::new(s.len(), |j: int|
        if j == p {
            Cell { is_opened: s[j].is_opened, kind: CellKind::Mine }
        } else if adjacent(n, j, p) && !is_mine(s[j]) {
            Cell {
                is_opened: s[j].is_opened,
                kind: CellKind::SafeWithCount((s[j].kind->SafeWithCount_0 + 1) as usize),
            }
        } else {
            s[j]
        })
}

/// `q` is the safe cell of `s` that has exactly `t` safe cells before it.
pub open spec fn nth_safe(s: Seq<Cell>, q: int, t: int) -> bool {
    &&& 0 <= q < s.len()
    &&& !is_mine(s[q])
    &&& q - mines_before(s, q) == t
}

/// `path` is a walk of the reveal started at `p`: closed cells of the grid,
/// consecutive ones adjacent, every one but the last a zero-count cell.
pub open spec fn reveal_path(n: nat, s: Seq<Cell>, p: int, path: Seq<int>) -> bool {
    &&& path.len() > 0
    &&& path[0] == p
    &&& forall|i: int| 0 <= i < path.len() ==> in_grid(n, #[trigger] path[i]) && !s[path[i]].is_opened
    &&& forall|i: int| 0 <= i < path.len() - 1
        ==> expands(s[#[trigger] path[i]]) && adjacent(n, path[i], path[i + 1])
}

/// Opening `p` on `s` reveals cell `x`: the closed region of zero counts
/// connected to `p`, with the numbered cells and mines that border it.
pub open spec fn revealed(n: nat, s: Seq<Cell>, p: int, x: int) -> bool {
    exists|path: Seq<int>| #[trigger] reveal_path(n, s, p, path) && path.last() == x
}

/// `s` once `p` is opened.
pub open spec fn opened_after(n: nat, s: Seq<Cell>, p: int) -> Seq<Cell> {
    Seq::new(s.len(), |x: int| Cell { is_opened: s[x].is_opened || revealed(n, s, p, x), kind: s[x].kind })
}

/// The reveal goes on from a revealed zero-count cell to each closed neighbour.
pub proof fn lemma_reach_step(n: nat, s: Seq<Cell>, p: int, y: int, x: int)
    requires
        revealed(n, s, p, y),
        expands(s[y]),
        adjacent(n, y, x),
        !s[x].is_opened,
    ensures
        revealed(n, s, p, x),
{
    let path = choose|path: Seq<int>| #[trigger] reveal_path(n, s, p, path) && path.last() == y;
    let longer = path.push(x);
    assert forall|i: int| 0 <= i < longer.len() - 1
        implies expands(s[#[trigger] longer[i]]) && adjacent(n, longer[i], longer[i + 1]) by {
        if i < path.len() - 1 {
            assert(longer[i] == path[i] && longer[i + 1] == path[i + 1]);
        }
    }
    assert forall|i: int| 0 <= i < longer.len() implies in_grid(n, #[trigger] longer[i]) && !s[longer[i]].is_opened by {
        if i < path.len() {
            assert(longer[i] == path[i]);
        }
    }
    assert(reveal_path(n, s, p, longer) && longer.last() == x);
}

/// A board whose opened cells hold `p` and are closed under the reveal's
/// moves holds every cell of every walk of the reveal.
proof fn lemma_reached_opened(n: nat, s0: Seq<Cell>, s: Seq<Cell>, p: int, path: Seq<int>, i: int)
    requires
        s.len() == s0.len(),
        s0.len() == n * n,
        0 <= p < s.len(),
        s[p].is_opened,
        forall|y: int, z: int| adjacent(n, y, z) && (#[trigger] s[y]).is_opened && expands(s0[y])
            ==> (#[trigger] s[z]).is_opened,
        reveal_path(n, s0, p, path),
        0 <= i < path.len(),
    ensures
        s[path[i]].is_opened,
    decreases i,
{
    if i > 0 {
        lemma_reached_opened(n, s0, s, p, path, i - 1);
        assert(expands(s0[path[i - 1]]) && adjacent(n, path[i - 1], path[i - 1 + 1]));
    }
}

/// Opening the same cell a second time changes nothing: the reveal leaves
/// its starting cell opened, and no reveal starts from an opened cell.
pub proof fn lemma_open_idempotent(n: nat, s: Seq<Cell>, p: int)
    requires
        0 <= p < s.len(),
        s.len() == n * n,
    ensures
        opened_after(n, opened_after(n, s, p), p) == opened_after(n, s, p),
{
    let s1 = opened_after(n, s, p);
    if !s[p].is_opened {
        let single = seq![p];
        assert(reveal_path(n, s, p, single) && single.last() == p);
    }
    assert(s1[p].is_opened);
    assert forall|x: int| 0 <= x < s1.len() implies !revealed(n, s1, p, x) by {
        if revealed(n, s1, p, x) {
            let path = choose|path: Seq<int>| #[trigger] reveal_path(n, s1, p, path) && path.last() == x;
            assert(in_grid(n, path[0]) && !s1[path[0]].is_opened);
        }
    }
    assert(opened_after(n, s1, p) =~= s1);
}

/// Opening `p` reveals the whole closed zero-count region connected to it
/// with its border: `p` itself if it was closed, and every neighbour of each
/// zero-count cell that the reveal opened.
pub proof fn lemma_open_covers_region(n: nat, s: Seq<Cell>, p: int)
    requires
        0 <= p < s.len(),
        s.len() == n * n,
    ensures
        opened_after(n, s, p)[p].is_opened,
        forall|y: int, x: int| #![trigger revealed(n, s, p, y), adjacent(n, y, x)]
            revealed(n, s, p, y) && expands(s[y]) && adjacent(n, y, x)
            ==> opened_after(n, s, p)[x].is_opened,
{
    if !s[p].is_opened {
        let single = seq![p];
        assert(reveal_path(n, s, p, single) && single.last() == p);
    }
    assert forall|y: int, x: int| #![trigger revealed(n, s, p, y), adjacent(n, y, x)]
        revealed(n, s, p, y) && expands(s[y]) && adjacent(n, y, x)
        implies opened_after(n, s, p)[x].is_opened by {
        if !s[x].is_opened {
            lemma_reach_step(n, s, p, y, x);
        }
    }
}

/// Opening `p` never crosses a numbered cell: each cell it opens but `p`
/// touches a zero-count cell that it opened too.
pub proof fn lemma_open_contained(n: nat, s: Seq<Cell>, p: int)
    requires
        0 <= p < s.len(),
        s.len() == n * n,
    ensures
        forall|x: int| 0 <= x < s.len() && x != p && !s[x].is_opened && #[trigger] opened_after(n, s, p)[x].is_opened
            ==> exists|y: int| #[trigger] revealed(n, s, p, y) && expands(s[y]) && adjacent(n, y, x),
{
    assert forall|x: int| 0 <= x < s.len() && x != p && !s[x].is_opened && #[trigger] opened_after(n, s, p)[x].is_opened
        implies exists|y: int| #[trigger] revealed(n, s, p, y) && expands(s[y]) && adjacent(n, y, x) by {
        let path = choose|path: Seq<int>| #[trigger] reveal_path(n, s, p, path) && path.last() == x;
        let k = path.len() - 2;
        assert(path.len() >= 2);
        let prefix = path.subrange(0, k + 1);
        assert(prefix[0] == path[0]);
        assert forall|i: int| 0 <= i < prefix.len() implies in_grid(n, #[trigger] prefix[i]) && !s[prefix[i]].is_opened by {
            assert(prefix[i] == path[i]);
        }
        assert forall|i: int| 0 <= i < prefix.len() - 1
            implies expands(s[#[trigger] prefix[i]]) && adjacent(n, prefix[i], prefix[i + 1]) by {
            assert(prefix[i] == path[i] && prefix[i + 1] == path[i + 1]);
        }
        assert(reveal_path(n, s, p, prefix) && prefix.last() == path[k]);
        assert(revealed(n, s, p, path[k]));
        assert(path[k + 1] == x);
        assert(expands(s[path[k]]) && adjacent(n, path[k], path[k + 1]));
    }
}

/// On a valid board no safe cell counts more than eight mines.
pub proof fn lemma_counts_at_most_eight(n: nat, m: nat, s: Seq<Cell>)
    requires
        valid_board(n, m, s),
    ensures
        forall|k: int| 0 <= k < s.len() && !is_mine(#[trigger] s[k]) ==> s[k].kind->SafeWithCount_0 <= 8,
{
    assert forall|k: int| 0 <= k < s.len() && !is_mine(#[trigger] s[k]) implies s[k].kind->SafeWithCount_0 <= 8 by {
        lemma_mines_around_at_most_eight(n, s, k);
    }
}

/// `s` with every mine opened and every other cell as it was.
pub open spec fn mines_shown(s: Seq<Cell>) -> Seq<Cell> {
    Seq::new(s.len(), |x: int| if is_mine(s[x]) { Cell { is_opened: true, kind: s[x].kind } } else { s[x] })
}

/// Every safe cell of `s` is opened; mines may be either.
pub open spec fn all_safe_opened(s: Seq<Cell>) -> bool {
    forall|x: int| 0 <= x < s.len() && !is_mine(#[trigger] s[x]) ==> s[x].is_opened
}

/// Two boards with their mines at the same places are valid together.
proof fn lemma_same_mines_valid(n: nat, m: nat, s1: Seq<Cell>, s2: Seq<Cell>)
    requires
        valid_board(n, m, s1),
        s2.len() == s1.len(),
        forall|x: int| 0 <= x < s1.len() ==> (#[trigger] s2[x]).kind == s1[x].kind,
    ensures
        valid_board(n, m, s2),
{
    lemma_counts_same_mines(n, s1, s2, 0, s1.len() as int);
    assert forall|k: int| 0 <= k < s2.len() && !is_mine(#[trigger] s2[k])
        implies s2[k].kind == CellKind::SafeWithCount(mines_around(n, s2, k) as usize) by {
        lemma_counts_same_mines(n, s1, s2, k, (n * n) as int);
        assert(!is_mine(s1[k]));
    }
}

/// Relies on rand::random::<usize>: a number drawn from the thread's
/// generator; nothing is known of its value.
#[verifier::external_body]
fn random_usize() -> (r: usize) {
    rand::random::<usize>()
}

/// A square board of cells with the mines placed on it. Every board that
/// the constructors hand out is valid (`wf`), and play keeps it so: the
/// cells' kinds never change, only whether they are opened.
pub struct Board {
    n: usize,
    mines: usize,
    cells: Vec<Cell>,
}

impl View for Board {
    type V = Seq<Cell>;

    closed spec fn view(&self) -> Seq<Cell> {
        self.cells@
    }
}

impl Board {
    /// Side of the square.
    pub closed spec fn side(&self) -> nat {
        self.n as nat
    }

    /// Number of mines on the board.
    pub closed spec fn mine_total(&self) -> nat {
        self.mines as nat
    }

    pub open spec fn wf(&self) -> bool {
        valid_board(self.side(), self.mine_total(), self@)
    }

    /// A board of side `n` without mines, every cell closed.
    pub fn empty(n: usize) -> (b: Board)
        requires
            n > 0,
            n * n <= usize::MAX,
        ensures
            b.wf(),
            b.side() == n,
            b.mine_total() == 0,
            forall|k: int| 0 <= k < b@.len()
                ==> #[trigger] b@[k] == (Cell { is_opened: false, kind: CellKind::SafeWithCount(0) }),
    {
        let total = n * n;
        let mut cells: Vec<Cell> = Vec::new();
        while cells.len() < total
            invariant
                cells.len() <= total,
                forall|k: int| 0 <= k < cells@.len()
                    ==> #[trigger] cells@[k] == (Cell { is_opened: false, kind: CellKind::SafeWithCount(0) }),
            decreases total - cells.len(),
        {
            cells.push(Cell::default());
        }
        let b = Board { n, mines: 0, cells };
        proof {
            assert(n * n > 0) by (nonlinear_arith)
                requires n > 0;
            lemma_no_mines(n as nat, b@, 0, b@.len() as int);
            assert forall|k: int| 0 <= k < b@.len() && !is_mine(#[trigger] b@[k])
                implies b@[k].kind == CellKind::SafeWithCount(mines_around(n as nat, b@, k) as usize) by {
                lemma_no_mines(n as nat, b@, k, (n * n) as int);
            }
        }
        b
    }

    /// Puts a mine on the safe cell `p`, raising the count of each safe
    /// neighbour by one.
    pub fn place_mine(&mut self, p: usize)
        requires
            old(self).wf(),
            p < old(self)@.len(),
            !is_mine(old(self)@[p as int]),
            old(self).mine_total() + 1 < old(self).side() * old(self).side(),
        ensures
            final(self).wf(),
            final(self).side() == old(self).side(),
            final(self).mine_total() == old(self).mine_total() + 1,
            final(self)@ == with_mine(old(self).side(), old(self)@, p as int),
    {
        let ghost s0 = self.cells@;
        let ghost nn = self.n as nat;
        let ghost m0 = self.mines;
        let opened = self.cells[p].is_opened;
        self.cells.set(p, Cell { is_opened: opened, kind: CellKind::Mine });
        let nb = neighbors(self.n, p);
        let mut i: usize = 0;
        while i < nb.len()
            invariant
                nn == self.n,
                m0 == self.mines,
                m0 + 1 < nn * nn,
                nn * nn <= usize::MAX,
                s0.len() == nn * nn,
                self.cells@.len() == s0.len(),
                0 <= p < s0.len(),
                !is_mine(s0[p as int]),
                counts_correct(nn, s0),
                i <= nb@.len(),
                nb@.no_duplicates(),
                forall|t: int| 0 <= t < nb@.len() ==> adjacent(nn, p as int, #[trigger] nb@[t] as int),
                forall|j: int| adjacent(nn, p as int, j) ==> nb@.contains(j as usize),
                forall|j: int| 0 <= j < s0.len() ==> #[trigger] self.cells@[j] == if j == p {
                    Cell { is_opened: s0[j].is_opened, kind: CellKind::Mine }
                } else if adjacent(nn, j, p as int) && !is_mine(s0[j]) && nb@.subrange(0, i as int).contains(j as usize) {
                    Cell {
                        is_opened: s0[j].is_opened,
                        kind: CellKind::SafeWithCount((s0[j].kind->SafeWithCount_0 + 1) as usize),
                    }
                } else {
                    s0[j]
                },
            decreases nb.len() - i,
        {
            let q = nb[i];
            let c = self.cells[q];
            assert(!nb@.subrange(0, i as int).contains(q)) by {
                if nb@.subrange(0, i as int).contains(q) {
                    let t = choose|t: int| 0 <= t < i && nb@.subrange(0, i as int)[t] == q;
                    assert(nb@[t] == nb@[i as int]);
                }
            }
            assert(nb@.subrange(0, i + 1) == nb@.subrange(0, i as int).push(q));
            match c.kind {
                CellKind::Mine => {},
                CellKind::SafeWithCount(count) => {
                    proof {
                        assert(adjacent(nn, p as int, q as int));
                        assert(self.cells@[q as int] == s0[q as int]);
                        assert(!is_mine(s0[q as int]));
                        lemma_adjacent_mines_bound(nn, s0, q as int, (nn * nn) as int);
                        assert(0 <= q < nn * nn);
                        assert(mines_around(nn, s0, q as int) <= nn * nn - 1);
                        assert(count == mines_around(nn, s0, q as int));
                    }
                    self.cells.set(q, Cell { is_opened: c.is_opened, kind: CellKind::SafeWithCount(count + 1) });
                },
            }
            proof {
                let ghost sub = nb@.subrange(0, i + 1);
                assert forall|j: int| 0 <= j < s0.len() && j != q implies
                    (#[trigger] sub.contains(j as usize) <==> nb@.subrange(0, i as int).contains(j as usize)) by {
                    if sub.contains(j as usize) {
                        let t = choose|t: int| 0 <= t < sub.len() && sub[t] == j as usize;
                        if t < i {
                            assert(nb@.subrange(0, i as int)[t] == j as usize);
                        }
                    }
                    if nb@.subrange(0, i as int).contains(j as usize) {
                        let t = choose|t: int| 0 <= t < i && nb@.subrange(0, i as int)[t] == j as usize;
                        assert(sub[t] == j as usize);
                    }
                }
                assert(sub.contains(q)) by {
                    assert(sub[i as int] == q);
                }
            }
            i = i + 1;
        }
        self.mines = self.mines + 1;
        proof {
            let s1 = with_mine(nn, s0, p as int);
            assert forall|j: int| 0 <= j < s0.len() implies #[trigger] self.cells@[j] == s1[j] by {
                assert(nb@.subrange(0, i as int) =~= nb@);
                if j != p && adjacent(nn, j, p as int) && !is_mine(s0[j]) {
                    assert(adjacent(nn, p as int, j));
                    assert(nb@.contains(j as usize));
                }
            }
            assert(self.cells@ =~= s1);
            lemma_mines_before_add(s0, s1, p as int, s0.len() as int);
            assert forall|k: int| 0 <= k < s1.len() && !is_mine(#[trigger] s1[k])
                implies s1[k].kind == CellKind::SafeWithCount(mines_around(nn, s1, k) as usize) by {
                lemma_adjacent_mines_add(nn, s0, s1, k, p as int, (nn * nn) as int);
                lemma_adjacent_mines_bound(nn, s0, k, (nn * nn) as int);
            }
        }
    }

    /// Index of the safe cell with exactly `t` safe cells before it.
    fn nth_safe_index(&self, t: usize) -> (q: usize)
        requires
            self.wf(),
            t < self.side() * self.side() - self.mine_total(),
        ensures
            nth_safe(self@, q as int, t as int),
    {
        let ghost s = self.cells@;
        let len = self.cells.len();
        let mut j: usize = 0;
        let mut seen: usize = 0;
        while j < len
            invariant
                s == self.cells@,
                len == s.len(),
                j <= len,
                seen == j - mines_before(s, j as int),
                seen <= t,
                t < len - mines_before(s, len as int),
            decreases len - j,
        {
            if let CellKind::SafeWithCount(_) = self.cells[j].kind {
                if seen == t {
                    return j;
                }
                seen = seen + 1;
            }
            j = j + 1;
        }
        0
    }

    /// Puts a mine on the safe cell picked by `draw`: the one with
    /// `draw % s` safe cells before it, where `s` is the number of safe cells.
    pub fn place_drawn_mine(&mut self, draw: usize)
        requires
            old(self).wf(),
            old(self).mine_total() + 1 < old(self).side() * old(self).side(),
        ensures
            final(self).wf(),
            final(self).side() == old(self).side(),
            final(self).mine_total() == old(self).mine_total() + 1,
            exists|q: int| #![trigger with_mine(old(self).side(), old(self)@, q)]
                nth_safe(old(self)@, q, draw as int % (old(self).side() * old(self).side() - old(self).mine_total()) as int)
                && final(self)@ == with_mine(old(self).side(), old(self)@, q),
    {
        let safe = self.cells.len() - self.mines;
        let q = self.nth_safe_index(draw % safe);
        self.place_mine(q);
    }

    /// A board of side `n` with `m` mines at random places, every cell closed.
    pub fn generate(n: usize, m: usize) -> (b: Board)
        requires
            n > 0,
            n * n <= usize::MAX,
            m < n * n,
        ensures
            b.wf(),
            b.side() == n,
            b.mine_total() == m,
            mines_before(b@, b@.len() as int) == m,
            counts_correct(n as nat, b@),
            forall|k: int| 0 <= k < b@.len() ==> !(#[trigger] b@[k]).is_opened,
    {
        let mut b = Board::empty(n);
        while b.mines < m
            invariant
                b.wf(),
                b.side() == n,
                b.mine_total() <= m,
                m < n * n,
                forall|k: int| 0 <= k < b@.len() ==> !(#[trigger] b@[k]).is_opened,
            decreases m - b.mines,
        {
            let draw = random_usize();
            let ghost before = b@;
            b.place_drawn_mine(draw);
            assert forall|k: int| 0 <= k < b@.len() implies !(#[trigger] b@[k]).is_opened by {
                let q = choose|q: int| nth_safe(before, q, draw as int % (n * n - b.mine_total() + 1) as int)
                    && b@ == with_mine(n as nat, before, q);
                assert(!before[k].is_opened);
            }
        }
        b
    }

    /// Opens cell `p` and, where it is a closed safe cell with no mine
    /// around, goes on with its neighbours: the whole zero-count region
    /// connected to `p` is revealed, with its bordering cells.
    pub fn open_empty_cells(&mut self, p: usize)
        requires
            old(self).wf(),
            p < old(self)@.len(),
        ensures
            final(self).wf(),
            final(self).side() == old(self).side(),
            final(self).mine_total() == old(self).mine_total(),
            final(self)@ == opened_after(old(self).side(), old(self)@, p as int),
    {
        let ghost s0 = self.cells@;
        let ghost nn = self.n as nat;
        let ghost len = s0.len();
        let ghost m0 = self.mines;
        let mut stack: Vec<usize> = Vec::new();
        stack.push(p);
        proof {
            assert(stack@[0] == p);
            if !s0[p as int].is_opened {
                let single = seq![p as int];
                assert(reveal_path(nn, s0, p as int, single) && single.last() == p);
            }
        }
        while stack.len() > 0
            invariant
                nn == self.n,
                nn > 0,
                nn * nn <= usize::MAX,
                len == nn * nn,
                s0.len() == len,
                self.cells@.len() == len,
                p < len,
                self.mines == m0,
                valid_board(nn, m0 as nat, s0),
                forall|x: int| 0 <= x < len ==> (#[trigger] self.cells@[x]).kind == s0[x].kind,
                forall|x: int| 0 <= x < len && s0[x].is_opened ==> (#[trigger] self.cells@[x]).is_opened,
                forall|x: int| 0 <= x < len && (#[trigger] self.cells@[x]).is_opened
                    ==> s0[x].is_opened || revealed(nn, s0, p as int, x),
                forall|i: int| 0 <= i < stack@.len() ==> #[trigger] stack@[i] < len
                    && (s0[stack@[i] as int].is_opened || revealed(nn, s0, p as int, stack@[i] as int)),
                forall|y: int, x: int| adjacent(nn, y, x) && (#[trigger] self.cells@[y]).is_opened && expands(s0[y])
                    ==> (#[trigger] self.cells@[x]).is_opened || stack@.contains(x as usize),
                self.cells@[p as int].is_opened || stack@.contains(p),
            decreases 9 * closed_before(self.cells@, len as int) + stack@.len(),
        {
            let ghost before = self.cells@;
            let ghost stack0 = stack@;
            let q = stack.pop().unwrap();
            assert(q == stack0[stack0.len() - 1]);
            assert forall|x: usize| stack0.contains(x) && x != q implies stack@.contains(x) by {
                let i = choose|i: int| 0 <= i < stack0.len() && stack0[i] == x;
                assert(stack@[i] == x);
            }
            if !self.cells[q].is_opened {
                let c = self.cells[q];
                self.cells.set(q, Cell { is_opened: true, kind: c.kind });
                proof {
                    lemma_closed_before_open(before, self.cells@, q as int, len as int);
                }
                if c.kind == CellKind::SafeWithCount(0) {
                    let mut nb = neighbors(self.n, q);
                    let ghost popped = stack@;
                    let ghost added = nb@;
                    stack.append(&mut nb);
                    proof {
                        assert forall|x: usize| popped.contains(x) implies stack@.contains(x) by {
                            let i = choose|i: int| 0 <= i < popped.len() && popped[i] == x;
                            assert(stack@[i] == x);
                        }
                        assert forall|x: usize| added.contains(x) implies stack@.contains(x) by {
                            let i = choose|i: int| 0 <= i < added.len() && added[i] == x;
                            assert(stack@[popped.len() + i] == x);
                        }
                        assert forall|i: int| 0 <= i < stack@.len() implies #[trigger] stack@[i] < len
                            && (s0[stack@[i] as int].is_opened || revealed(nn, s0, p as int, stack@[i] as int)) by {
                            if i >= popped.len() {
                                let x = added[i - popped.len()];
                                assert(adjacent(nn, q as int, x as int));
                                if !s0[x as int].is_opened {
                                    lemma_reach_step(nn, s0, p as int, q as int, x as int);
                                }
                            }
                        }
                    }
                }
            }
        }
        proof {
            assert forall|x: int| 0 <= x < len implies #[trigger] self.cells@[x]
                == opened_after(nn, s0, p as int)[x] by {
                if revealed(nn, s0, p as int, x) {
                    let path = choose|path: Seq<int>| #[trigger] reveal_path(nn, s0, p as int, path) && path.last() == x;
                    lemma_reached_opened(nn, s0, self.cells@, p as int, path, path.len() - 1);
                }
            }
            assert(self.cells@ =~= opened_after(nn, s0, p as int));
            lemma_same_mines_valid(nn, self.mines as nat, s0, self.cells@);
        }
    }

    /// Opens every mine, leaving the other cells as they are.
    pub fn open_mines(&mut self)
        requires
            old(self).wf(),
        ensures
            final(self).wf(),
            final(self).side() == old(self).side(),
            final(self).mine_total() == old(self).mine_total(),
            final(self)@ == mines_shown(old(self)@),
    {
        let ghost s0 = self.cells@;
        let ghost n0 = self.n;
        let ghost m0 = self.mines;
        let len = self.cells.len();
        let mut i: usize = 0;
        while i < len
            invariant
                len == s0.len(),
                self.n == n0,
                self.mines == m0,
                valid_board(n0 as nat, m0 as nat, s0),
                self.cells@.len() == len,
                i <= len,
                forall|x: int| 0 <= x < len ==> #[trigger] self.cells@[x] == if x < i {
                    mines_shown(s0)[x]
                } else {
                    s0[x]
                },
            decreases len - i,
        {
            let c = self.cells[i];
            if c.kind == CellKind::Mine {
                self.cells.set(i, Cell { is_opened: true, kind: c.kind });
            }
            i = i + 1;
        }
        proof {
            assert(self.cells@ =~= mines_shown(s0));
            lemma_same_mines_valid(self.n as nat, self.mines as nat, s0, self.cells@);
        }
    }

    /// The board is won: no safe cell is left closed.
    pub fn is_win(&self) -> (r: bool)
        ensures
            r == all_safe_opened(self@),
    {
        let len = self.cells.len();
        let mut i: usize = 0;
        while i < len
            invariant
                len == self@.len(),
                i <= len,
                forall|x: int| 0 <= x < i && !is_mine(#[trigger] self@[x]) ==> self@[x].is_opened,
            decreases len - i,
        {
            let c = self.cells[i];
            if c.kind != CellKind::Mine && !c.is_opened {
                return false;
            }
            i = i + 1;
        }
        true
    }

    /// The cell at index `k`.
    pub fn cell(&self, k: usize) -> (c: Cell)
        requires
            k < self@.len(),
        ensures
            c == self@[k as int],
            self.wf() ==> (c.kind matches CellKind::SafeWithCount(count) ==> count <= 8),
    {
        proof {
            if self.wf() {
                lemma_counts_at_most_eight(self.n as nat, self.mines as nat, self.cells@);
            }
        }
        self.cells[k]
    }

    /// Side of the square.
    pub fn side_len(&self) -> (n: usize)
        ensures
            n == self.side(),
    {
        self.n
    }

    /// Number of mines on the board.
    pub fn mine_count(&self) -> (m: usize)
        ensures
            m == self.mine_total(),
    {
        self.mines
    }

    /// Number of cells, `side * side`.
    pub fn len(&self) -> (l: usize)
        ensures
            l == self@.len(),
    {
        self.cells.len()
    }
}

} // verus!
