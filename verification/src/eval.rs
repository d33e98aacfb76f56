//! The static evaluator: an immediate, non-searched score for a position.
//! It first checks whether the side that just moved has completed a line;
//! otherwise it sums a small positional bonus for each visible piece,
//! weighting the two diagonals higher.

use vstd::prelude::*;

use crate::game::BOARD_CELLS;
use crate::game::BOARD_DIM;
use crate::game::Color;
use crate::game::GameState;
use crate::game::spec_at;
use crate::game::spec_other;
use crate::game::spec_top_color;
use crate::score::Score;
use crate::score::spec_for_color;

verus! {

/// Every cell of row `r` shows `color` on top.
pub open spec fn spec_row_win(g: GameState, color: Color, r: int) -> bool {
    forall|c: int|
        0 <= c < BOARD_DIM as int ==> spec_top_color(#[trigger] spec_at(g.board, r, c)) == color
}

/// Every cell of column `c` shows `color` on top.
pub open spec fn spec_col_win(g: GameState, color: Color, c: int) -> bool {
    forall|r: int|
        0 <= r < BOARD_DIM as int ==> spec_top_color(#[trigger] spec_at(g.board, r, c)) == color
}

/// Every cell of the main diagonal shows `color` on top.
pub open spec fn spec_main_diag_win(g: GameState, color: Color) -> bool {
    forall|i: int|
        0 <= i < BOARD_DIM as int ==> spec_top_color(#[trigger] spec_at(g.board, i, i)) == color
}

/// Every cell of the anti-diagonal shows `color` on top.
pub open spec fn spec_anti_diag_win(g: GameState, color: Color) -> bool {
    forall|i: int|
        0 <= i < BOARD_DIM as int ==> spec_top_color(
            #[trigger] spec_at(g.board, i, BOARD_DIM as int - i - 1),
        ) == color
}

/// `color` controls some full row, column, or diagonal.
pub open spec fn spec_wins(g: GameState, color: Color) -> bool {
    ||| exists|r: int| 0 <= r < BOARD_DIM as int && spec_row_win(g, color, r)
    ||| exists|c: int| 0 <= c < BOARD_DIM as int && spec_col_win(g, color, c)
    ||| spec_main_diag_win(g, color)
    ||| spec_anti_diag_win(g, color)
}

/// The heuristic contribution of the cell with row-major index `idx`:
/// nothing for an empty top, otherwise 3 on a diagonal and 2 elsewhere,
/// positive for white and negative for black on top.
pub open spec fn spec_cell_value(g: GameState, idx: int) -> int {
    let r = idx / BOARD_DIM as int;
    let c = idx % BOARD_DIM as int;
    let tc = spec_top_color(spec_at(g.board, r, c));
    if tc is Empty {
        0
    } else {
        let base: int = if r == c || r == BOARD_DIM as int - c - 1 {
            3
        } else {
            2
        };
        if tc is White {
            base
        } else {
            -base
        }
    }
}

/// The heuristic contributions of the first `n` cells, summed.
pub open spec fn spec_heur_sum(g: GameState, n: int) -> int
    decreases n,
{
    if n <= 0 {
        0
    } else {
        spec_heur_sum(g, n - 1) + spec_cell_value(g, n - 1)
    }
}

/// The partial heuristic sum over `n` cells stays within `3 * n` of zero.
pub proof fn lemma_heur_sum_bounds(g: GameState, n: int)
    requires
        n >= 0,
    ensures
        -3 * n <= spec_heur_sum(g, n) <= 3 * n,
    decreases n,
{
    if n > 0 {
        lemma_heur_sum_bounds(g, n - 1);
    }
}

/// The static score of a position: if the side that just moved (the
/// opposite of the side to move) controls a full line, its win marker;
/// otherwise the heuristic sum over all cells.
pub open spec fn spec_raw_score(g: GameState) -> Score {
    let check_winner = spec_other(g.turn);
    if spec_wins(g, check_winner) {
        spec_for_color(check_winner)
    } else {
        Score::Balanced(spec_heur_sum(g, BOARD_CELLS as int) as i32)
    }
}

/// Law: a position with a full top-color row, column, or diagonal for the
/// side that just moved scores as that side's win marker, whatever the
/// other cells hold. (The evaluator checks only the side that just moved:
/// a line completed for the side still to move is not reported, since a
/// move can only ever finish a line for its own mover.)
pub proof fn lemma_evaluator_win_detection(g: GameState, c: Color)
    requires
        c == spec_other(g.turn),
        spec_wins(g, c),
    ensures
        spec_raw_score(g) == spec_for_color(c),
{
}

impl GameState {
    /// Whether every cell of row `r` shows `color` on top.
    fn row_wins(&self, color: Color, r: usize) -> (b: bool)
        requires
            r < BOARD_DIM,
        ensures
            b == spec_row_win(*self, color, r as int),
    {
        let mut c: usize = 0;
        while c < BOARD_DIM
            invariant
                0 <= c <= BOARD_DIM,
                r < BOARD_DIM,
                forall|j: int|
                    0 <= j < c as int ==> spec_top_color(#[trigger] spec_at(self.board, r as int, j))
                        == color,
            decreases BOARD_DIM - c,
        {
            if self.board.at(r, c).top_color() != color {
                return false;
            }
            c = c + 1;
        }
        true
    }

    /// Whether every cell of column `c` shows `color` on top.
    fn col_wins(&self, color: Color, c: usize) -> (b: bool)
        requires
            c < BOARD_DIM,
        ensures
            b == spec_col_win(*self, color, c as int),
    {
        let mut r: usize = 0;
        while r < BOARD_DIM
            invariant
                0 <= r <= BOARD_DIM,
                c < BOARD_DIM,
                forall|j: int|
                    0 <= j < r as int ==> spec_top_color(#[trigger] spec_at(self.board, j, c as int))
                        == color,
            decreases BOARD_DIM - r,
        {
            if self.board.at(r, c).top_color() != color {
                return false;
            }
            r = r + 1;
        }
        true
    }

    /// Whether every cell of the main diagonal shows `color` on top.
    fn main_diag_wins(&self, color: Color) -> (b: bool)
        ensures
            b == spec_main_diag_win(*self, color),
    {
        let mut i: usize = 0;
        while i < BOARD_DIM
            invariant
                0 <= i <= BOARD_DIM,
                forall|j: int|
                    0 <= j < i as int ==> spec_top_color(#[trigger] spec_at(self.board, j, j))
                        == color,
            decreases BOARD_DIM - i,
        {
            if self.board.at(i, i).top_color() != color {
                return false;
            }
            i = i + 1;
        }
        true
    }

    /// Whether every cell of the anti-diagonal shows `color` on top.
    fn anti_diag_wins(&self, color: Color) -> (b: bool)
        ensures
            b == spec_anti_diag_win(*self, color),
    {
        let mut i: usize = 0;
        while i < BOARD_DIM
            invariant
                0 <= i <= BOARD_DIM,
                forall|j: int|
                    0 <= j < i as int ==> spec_top_color(
                        #[trigger] spec_at(self.board, j, BOARD_DIM as int - j - 1),
                    ) == color,
            decreases BOARD_DIM - i,
        {
            if self.board.at(i, BOARD_DIM - i - 1).top_color() != color {
                return false;
            }
            i = i + 1;
        }
        true
    }

    /// The static score of this position, computed without search: the win
    /// marker of the side that just moved if it controls a full line, else
    /// the heuristic balance of the visible pieces.
    pub fn raw_score(&self) -> (r: Score)
        ensures
            r == spec_raw_score(*self),
    {
        let check_winner = self.turn.other();

        let mut i: usize = 0;
        while i < BOARD_DIM
            invariant
                0 <= i <= BOARD_DIM,
                forall|j: int| 0 <= j < i as int ==> !spec_row_win(*self, check_winner, j),
                forall|j: int| 0 <= j < i as int ==> !spec_col_win(*self, check_winner, j),
                check_winner == spec_other(self.turn),
            decreases BOARD_DIM - i,
        {
            if self.row_wins(check_winner, i) || self.col_wins(check_winner, i) {
                return Score::for_color(check_winner);
            }
            i = i + 1;
        }

        if self.main_diag_wins(check_winner) || self.anti_diag_wins(check_winner) {
            return Score::for_color(check_winner);
        }

        let mut score: i32 = 0;
        let mut idx: usize = 0;
        while idx < BOARD_CELLS
            invariant
                0 <= idx <= BOARD_CELLS,
                score as int == spec_heur_sum(*self, idx as int),
                !spec_wins(*self, spec_other(self.turn)),
            decreases BOARD_CELLS - idx,
        {
            proof {
                lemma_heur_sum_bounds(*self, idx as int);
            }
            let r = idx / BOARD_DIM;
            let c = idx % BOARD_DIM;
            let color = self.board.at(r, c).top_color();
            if color != Color::Empty {
                let base: i32 = if r == c || r == BOARD_DIM - c - 1 {
                    3
                } else {
                    2
                };
                if color == Color::White {
                    score = score + base;
                } else {
                    score = score - base;
                }
            }
            idx = idx + 1;
        }
        proof {
            lemma_heur_sum_bounds(*self, BOARD_CELLS as int);
        }
        Score::Balanced(score)
    }
}

} // verus!
