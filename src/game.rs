//! The game: one board and where the round stands, driven by the player's
//! selections and resets.

use vstd::prelude::*;
use crate::board::{Board, all_safe_opened, mines_shown, opened_after};
use crate::cell::is_mine;

verus! {

/// Where a round stands. `Won` and `Lost` hold until the next reset.
#[derive(Clone, Copy, Debug, PartialEq, Eq, Structural)]
pub enum GameState {
    InProgress,
    Won,
    Lost,
}

/// Why a game cannot be set up with the asked side and mine count.
#[derive(Clone, Copy, Debug, PartialEq, Eq, Structural)]
pub enum ConfigError {
    /// `side * side` does not fit in a `usize`.
    BoardTooLarge,
    /// The mines would fill the board: there must be fewer than `side * side`.
    TooManyMines,
}

/// One round: a board and where the round stands.
pub struct Game {
    board: Board,
    state: GameState,
}

impl Game {
    /// The board of the round.
    pub closed spec fn grid(&self) -> Board {
        self.board
    }

    /// Where the round stands.
    pub closed spec fn status(&self) -> GameState {
        self.state
    }

    pub open spec fn wf(&self) -> bool {
        self.grid().wf()
    }

    /// A new round on a fresh board of side `n` with `m` random mines.
    pub fn new(n: usize, m: usize) -> (r: Result<Game, ConfigError>)
        ensures
            r is Ok <==> n * n <= usize::MAX && m < n * n,
            n * n > usize::MAX <==> r == Err::<Game, ConfigError>(ConfigError::BoardTooLarge),
            n * n <= usize::MAX && m >= n * n <==> r == Err::<Game, ConfigError>(ConfigError::TooManyMines),
            r is Ok ==> {
                let g = r->Ok_0;
                &&& g.wf()
                &&& g.status() == GameState::InProgress
                &&& g.grid().side() == n
                &&& g.grid().mine_total() == m
                &&& forall|k: int| 0 <= k < g.grid()@.len() ==> !(#[trigger] g.grid()@[k]).is_opened
            },
    {
        match n.checked_mul(n) {
            None => Err(ConfigError::BoardTooLarge),
            Some(total) => {
                if m >= total {
                    Err(ConfigError::TooManyMines)
                } else {
                    Ok(Game { board: Board::generate(n, m), state: GameState::InProgress })
                }
            },
        }
    }

    /// A round on the given board, as yet undecided.
    pub fn from_board(board: Board) -> (g: Game)
        requires
            board.wf(),
        ensures
            g.wf(),
            g.grid() == board,
            g.status() == GameState::InProgress,
    {
        Game { board, state: GameState::InProgress }
    }

    /// The player selects cell `index`. In a round that is over nothing
    /// happens. Otherwise a mine loses the round and shows every mine; a safe
    /// cell is opened as `Board::open_empty_cells` does, and the round is won once no
    /// safe cell is left closed.
    pub fn select(&mut self, index: usize)
        requires
            old(self).wf(),
            index < old(self).grid()@.len(),
        ensures
            final(self).wf(),
            final(self).grid().side() == old(self).grid().side(),
            final(self).grid().mine_total() == old(self).grid().mine_total(),
            old(self).status() != GameState::InProgress ==> *final(self) == *old(self),
            old(self).status() == GameState::InProgress && is_mine(old(self).grid()@[index as int]) ==> {
                &&& final(self).status() == GameState::Lost
                &&& final(self).grid()@ == mines_shown(old(self).grid()@)
            },
            old(self).status() == GameState::InProgress && !is_mine(old(self).grid()@[index as int]) ==> {
                let s = opened_after(old(self).grid().side(), old(self).grid()@, index as int);
                &&& final(self).grid()@ == s
                &&& final(self).status() == if all_safe_opened(s) { GameState::Won } else { GameState::InProgress }
            },
    {
        if self.state != GameState::InProgress {
            return;
        }
        let c = self.board.cell(index);
        if c.kind == crate::cell::CellKind::Mine {
            self.state = GameState::Lost;
            self.board.open_mines();
        } else {
            self.board.open_empty_cells(index);
            if self.board.is_win() {
                self.state = GameState::Won;
            }
        }
    }

    /// Starts a new round: a fresh random board of the same side and mine
    /// count, undecided.
    pub fn reset(&mut self)
        requires
            old(self).wf(),
        ensures
            final(self).wf(),
            final(self).status() == GameState::InProgress,
            final(self).grid().side() == old(self).grid().side(),
            final(self).grid().mine_total() == old(self).grid().mine_total(),
            forall|k: int| 0 <= k < final(self).grid()@.len() ==> !(#[trigger] final(self).grid()@[k]).is_opened,
    {
        let n = self.board.side_len();
        let m = self.board.mine_count();
        self.board = Board::generate(n, m);
        self.state = GameState::InProgress;
    }

    /// The board of the round.
    pub fn board(&self) -> (b: &Board)
        ensures
            *b == self.grid(),
    {
        &self.board
    }

    /// Where the round stands.
    pub fn state(&self) -> (s: GameState)
        ensures
            s == self.status(),
    {
        self.state
    }
}

} // verus!
