//! Static positional evaluator: per-stone pattern scores summed over the
//! four directions, with the opponent's total weighted 1.1 against the
//! mover's own.

use vstd::prelude::*;

use crate::board::{
    count_dir_spec, dir_delta, in_bounds, open_dir_spec, valid_delta, Game, GameModel,
};
use crate::{EMPTY, MAX_SIZE, WIN};

verus! {

/// The opponent of `p`.
pub open spec fn opponent(p: i8) -> i8 {
    (3 - p) as i8
}

/// Run length through (r, c) along direction `d` counting stones of `p`.
pub open spec fn line_count(g: Seq<Seq<i8>>, size: int, r: int, c: int, d: int, p: i8) -> int {
    let (dr, dc) = dir_delta(d);
    1 + count_dir_spec(g, size, r, c, dr, dc, p) + count_dir_spec(g, size, r, c, -dr, -dc, p)
}

/// Number of open ends (0..2) of the run through (r, c) along direction `d`.
pub open spec fn line_open(g: Seq<Seq<i8>>, size: int, r: int, c: int, d: int, p: i8) -> int {
    let (dr, dc) = dir_delta(d);
    (if open_dir_spec(g, size, r, c, dr, dc, p) {
        1int
    } else {
        0int
    }) + (if open_dir_spec(g, size, r, c, -dr, -dc, p) {
        1int
    } else {
        0int
    })
}

/// Pattern tables. Table 0 scores a standing stone for the evaluator;
/// tables 1 and 2 score a candidate placement for the ranker, for the
/// mover's own stone and for a denied opponent stone respectively.
pub open spec fn table_score(t: int, count: int, open: int) -> int {
    if t == 1 {
        if count >= 5 {
            50000
        } else if count == 4 {
            10000
        } else if count == 3 && open == 2 {
            5000
        } else if count == 3 && open == 1 {
            1000
        } else if count == 2 && open == 2 {
            500
        } else {
            10
        }
    } else if t == 2 {
        if count >= 5 {
            50000
        } else if count == 4 {
            12000
        } else if count == 3 && open == 2 {
            6000
        } else if count == 3 && open == 1 {
            1100
        } else if count == 2 && open == 2 {
            550
        } else {
            10
        }
    } else {
        if count >= 5 {
            WIN as int
        } else if count == 4 && open == 2 {
            10000
        } else if count == 4 && open == 1 {
            5000
        } else if count == 3 && open == 2 {
            5000
        } else if count == 3 && open == 1 {
            500
        } else if count == 2 && open == 2 {
            500
        } else if count == 2 && open == 1 {
            50
        } else {
            10
        }
    }
}

/// Sum of the table-`t` scores of the runs through (r, c) over the first
/// `d` directions.
pub open spec fn dirs_score(
    t: int,
    g: Seq<Seq<i8>>,
    size: int,
    r: int,
    c: int,
    p: i8,
    d: int,
) -> int
    decreases d,
{
    if d <= 0 {
        0
    } else {
        dirs_score(t, g, size, r, c, p, d - 1) + table_score(
            t,
            line_count(g, size, r, c, d - 1, p),
            line_open(g, size, r, c, d - 1, p),
        )
    }
}

/// Evaluator score of the stone of `p` standing at (r, c): all four
/// directions under table 0.
pub open spec fn pos_score(g: Seq<Seq<i8>>, size: int, r: int, c: int, p: i8) -> int {
    dirs_score(0, g, size, r, c, p, 4)
}

/// Sum of `pos_score` over the stones of `p` in the first `j` cells of row
/// `i`.
pub open spec fn row_score(g: Seq<Seq<i8>>, size: int, p: i8, i: int, j: int) -> int
    decreases j,
{
    if j <= 0 {
        0
    } else {
        row_score(g, size, p, i, j - 1) + (if g[i][j - 1] == p {
            pos_score(g, size, i, j - 1, p)
        } else {
            0
        })
    }
}

/// Sum of `pos_score` over the stones of `p` in the first `i` rows.
pub open spec fn player_score_upto(g: Seq<Seq<i8>>, size: int, p: i8, i: int) -> int
    decreases i,
{
    if i <= 0 {
        0
    } else {
        player_score_upto(g, size, p, i - 1) + row_score(g, size, p, i - 1, size)
    }
}

/// A player's whole-board score: the sum of that player's per-stone
/// pattern scores.
pub open spec fn player_score(g: Seq<Seq<i8>>, size: int, p: i8) -> int {
    player_score_upto(g, size, p, size)
}

/// Whole-position score from the mover's perspective: own score minus 1.1
/// times the opponent's, the fraction taken as a rounded-down integer.
pub open spec fn eval_spec(m: GameModel) -> int {
    let s = m.grid.len() as int;
    player_score(m.grid, s, m.turn) - (player_score(m.grid, s, opponent(m.turn)) * 11) / 10
}

pub proof fn lemma_table_bounds(t: int, count: int, open: int)
    ensures
        10 <= table_score(t, count, open) <= WIN as int,
{
}

pub proof fn lemma_dirs_score_bounds(t: int, g: Seq<Seq<i8>>, size: int, r: int, c: int, p: i8, d: int)
    requires
        0 <= d <= 4,
    ensures
        0 <= dirs_score(t, g, size, r, c, p, d) <= d * (WIN as int),
    decreases d,
{
    if d > 0 {
        lemma_dirs_score_bounds(t, g, size, r, c, p, d - 1);
        lemma_table_bounds(t, line_count(g, size, r, c, d - 1, p), line_open(g, size, r, c, d - 1, p));
    }
}

pub proof fn lemma_row_score_bounds(g: Seq<Seq<i8>>, size: int, p: i8, i: int, j: int)
    requires
        0 <= j,
    ensures
        0 <= row_score(g, size, p, i, j) <= j * 4 * (WIN as int),
    decreases j,
{
    if j > 0 {
        lemma_row_score_bounds(g, size, p, i, j - 1);
        lemma_dirs_score_bounds(0, g, size, i, j - 1, p, 4);
    }
}

pub proof fn lemma_player_upto_bounds(g: Seq<Seq<i8>>, size: int, p: i8, i: int)
    requires
        0 <= i,
        0 <= size,
    ensures
        0 <= player_score_upto(g, size, p, i) <= i * size * 4 * (WIN as int),
    decreases i,
{
    if i > 0 {
        lemma_player_upto_bounds(g, size, p, i - 1);
        lemma_row_score_bounds(g, size, p, i - 1, size);
        assert((i - 1) * size * 4 * (WIN as int) + size * 4 * (WIN as int) == i * size * 4 * (
        WIN as int)) by (nonlinear_arith);
    } else {
        assert(i * size * 4 * (WIN as int) == 0) by (nonlinear_arith)
            requires
                i == 0,
        ;
    }
}

/// A player's score is nonnegative and bounded by the board area times the
/// largest per-stone score.
pub proof fn lemma_player_score_bounds(g: Seq<Seq<i8>>, size: int, p: i8)
    requires
        0 <= size <= MAX_SIZE as int,
    ensures
        0 <= player_score(g, size, p) <= 419_430_400_000,
{
    lemma_player_upto_bounds(g, size, p, size);
    assert(size * size * 4 * (WIN as int) <= 419_430_400_000) by (nonlinear_arith)
        requires
            0 <= size <= 1024,
    ;
}

pub proof fn lemma_row_score_zero(g: Seq<Seq<i8>>, size: int, p: i8, i: int, j: int)
    requires
        forall|jj: int| 0 <= jj < j ==> g[i][jj] != p,
    ensures
        row_score(g, size, p, i, j) == 0,
    decreases j,
{
    if j > 0 {
        lemma_row_score_zero(g, size, p, i, j - 1);
    }
}

proof fn lemma_player_upto_zero(g: Seq<Seq<i8>>, size: int, p: i8, i: int)
    requires
        forall|ii: int, jj: int| 0 <= ii < i && 0 <= jj < size ==> g[ii][jj] != p,
    ensures
        player_score_upto(g, size, p, i) == 0,
    decreases i,
{
    if i > 0 {
        lemma_player_upto_zero(g, size, p, i - 1);
        lemma_row_score_zero(g, size, p, i - 1, size);
    }
}

/// A player without a stone on the board scores 0.
pub proof fn lemma_player_score_zero(g: Seq<Seq<i8>>, size: int, p: i8)
    requires
        forall|ii: int, jj: int| 0 <= ii < size && 0 <= jj < size ==> g[ii][jj] != p,
    ensures
        player_score(g, size, p) == 0,
{
    lemma_player_upto_zero(g, size, p, size);
}

/// The whole-position score stays well inside the score range the search
/// works with.
pub proof fn lemma_eval_bounds(m: GameModel)
    requires
        1 <= m.grid.len() <= MAX_SIZE,
    ensures
        -crate::SCORE_LIMIT < eval_spec(m) < crate::SCORE_LIMIT,
{
    let s = m.grid.len() as int;
    lemma_player_score_bounds(m.grid, s, m.turn);
    lemma_player_score_bounds(m.grid, s, opponent(m.turn));
    let opp = player_score(m.grid, s, opponent(m.turn));
    assert(0 <= (opp * 11) / 10 <= 461_373_440_000) by (nonlinear_arith)
        requires
            0 <= opp <= 419_430_400_000,
    ;
}

impl Game {
    /// Walks from (row, col) in the sense (dr, dc): how many contiguous
    /// stones of `player` lie beyond the anchor, and whether the cell just
    /// past them is an in-bounds empty cell.
    fn scan_dir(&self, row: usize, col: usize, dr: i32, dc: i32, player: i8) -> (r: (usize, bool))
        requires
            self.wf(),
            in_bounds(self.model().grid.len() as int, row as int, col as int),
            valid_delta(dr as int, dc as int),
        ensures
            r.0 == count_dir_spec(
                self.model().grid,
                self.model().grid.len() as int,
                row as int,
                col as int,
                dr as int,
                dc as int,
                player,
            ),
            r.1 == open_dir_spec(
                self.model().grid,
                self.model().grid.len() as int,
                row as int,
                col as int,
                dr as int,
                dc as int,
                player,
            ),
            r.0 <= MAX_SIZE + 1,
    {
        let ghost grid = self.model().grid;
        let ghost s = self.model().grid.len() as int;
        proof {
            self.lemma_wf();
            self.lemma_repr();
        }
        let n32: i32 = self.size as i32;
        let mut count: usize = 0;
        let mut r: i32 = row as i32 + dr;
        let mut c: i32 = col as i32 + dc;
        let ghost d0 = crate::board::dir_dist(
            s,
            row as int + dr as int,
            col as int + dc as int,
            dr as int,
            dc as int,
        );
        while r >= 0 && r < n32 && c >= 0 && c < n32 && self.board[r as usize][c as usize] == player
            invariant
                self.wf(),
                grid == self.model().grid,
                s == self.model().grid.len() as int,
                s == self.size as int,
                n32 as int == s,
                1 <= s <= MAX_SIZE,
                self.board@.len() == s,
                forall|k: int| 0 <= k < s ==> (#[trigger] self.board@[k])@.len() == s,
                forall|k: int| 0 <= k < s ==> #[trigger] grid[k] == self.board@[k]@,
                in_bounds(s, row as int, col as int),
                valid_delta(dr as int, dc as int),
                -1 <= r as int <= s,
                -1 <= c as int <= s,
                in_bounds(s, r as int - dr as int, c as int - dc as int),
                d0 == crate::board::dir_dist(
                    s,
                    row as int + dr as int,
                    col as int + dc as int,
                    dr as int,
                    dc as int,
                ),
                count as int == d0 - crate::board::dir_dist(s, r as int, c as int, dr as int, dc as int),
                0 <= count <= MAX_SIZE + 1,
                count_dir_spec(grid, s, row as int, col as int, dr as int, dc as int, player)
                    == count + count_dir_spec(
                    grid,
                    s,
                    r as int - dr as int,
                    c as int - dc as int,
                    dr as int,
                    dc as int,
                    player,
                ),
                open_dir_spec(grid, s, row as int, col as int, dr as int, dc as int, player)
                    == open_dir_spec(
                    grid,
                    s,
                    r as int - dr as int,
                    c as int - dc as int,
                    dr as int,
                    dc as int,
                    player,
                ),
            decreases crate::board::dir_dist(s, r as int, c as int, dr as int, dc as int),
        {
            proof {
                assert(grid[r as int] == self.board@[r as int]@);
                assert(grid[r as int][c as int] == player);
            }
            count = count + 1;
            r = r + dr;
            c = c + dc;
        }
        let open: bool = r >= 0 && r < n32 && c >= 0 && c < n32 && self.board[r as usize][c
            as usize] == EMPTY;
        proof {
            if in_bounds(s, r as int, c as int) {
                assert(grid[r as int] == self.board@[r as int]@);
            }
        }
        (count, open)
    }

    /// Run length and open ends through (row, col) for `player` along
    /// direction `d`, scanning both senses and stopping at the first
    /// non-matching cell.
    pub(crate) fn eval_line(&self, row: usize, col: usize, d: usize, player: i8) -> (r: (usize, usize))
        requires
            self.wf(),
            in_bounds(self.model().grid.len() as int, row as int, col as int),
            d < 4,
        ensures
            r.0 == line_count(
                self.model().grid,
                self.model().grid.len() as int,
                row as int,
                col as int,
                d as int,
                player,
            ),
            r.1 == line_open(
                self.model().grid,
                self.model().grid.len() as int,
                row as int,
                col as int,
                d as int,
                player,
            ),
    {
        let (dr, dc) = crate::board::dir_delta_exec(d);
        let fwd = self.scan_dir(row, col, dr, dc, player);
        let bwd = self.scan_dir(row, col, -dr, -dc, player);
        let count = 1 + fwd.0 + bwd.0;
        let open = (if fwd.1 {
            1usize
        } else {
            0usize
        }) + (if bwd.1 {
            1usize
        } else {
            0usize
        });
        (count, open)
    }

    /// Evaluator score of the stone of `player` at (row, col): per-direction
    /// table-0 pattern scores summed over the four directions.
    pub fn eval_position(&self, row: usize, col: usize, player: i8) -> (score: i64)
        requires
            self.wf(),
            in_bounds(self.model().grid.len() as int, row as int, col as int),
        ensures
            score == pos_score(
                self.model().grid,
                self.model().grid.len() as int,
                row as int,
                col as int,
                player,
            ),
            0 <= score <= 4 * WIN,
    {
        let ghost grid = self.model().grid;
        let ghost s = self.model().grid.len() as int;
        let mut score: i64 = 0;
        let mut d: usize = 0;
        while d < 4
            invariant
                self.wf(),
                grid == self.model().grid,
                s == self.model().grid.len() as int,
                in_bounds(s, row as int, col as int),
                d <= 4,
                score == dirs_score(0, grid, s, row as int, col as int, player, d as int),
                0 <= score <= d * (WIN as int),
            decreases 4 - d,
        {
            let (count, open) = self.eval_line(row, col, d, player);
            let bonus: i64 = table_bonus(0, count, open);
            proof {
                lemma_table_bounds(
                    0,
                    line_count(grid, s, row as int, col as int, d as int, player),
                    line_open(grid, s, row as int, col as int, d as int, player),
                );
            }
            score = score + bonus;
            d = d + 1;
        }
        score
    }

    /// A player's whole-board score: `pos_score` summed over that player's
    /// stones.
    pub fn evaluate_player(&self, player: i8) -> (score: i64)
        requires
            self.wf(),
        ensures
            score == player_score(
                self.model().grid,
                self.model().grid.len() as int,
                player,
            ),
            0 <= score <= 419_430_400_000,
    {
        let ghost grid = self.model().grid;
        let ghost s = self.model().grid.len() as int;
        proof {
            self.lemma_wf();
            self.lemma_repr();
            lemma_player_score_bounds(grid, s, player);
        }
        let size = self.size;
        let mut score: i64 = 0;
        let mut i: usize = 0;
        while i < size
            invariant
                self.wf(),
                grid == self.model().grid,
                s == self.model().grid.len() as int,
                s == size as int,
                1 <= s <= MAX_SIZE,
                self.board@.len() == s,
                forall|k: int| 0 <= k < s ==> (#[trigger] self.board@[k])@.len() == s,
                forall|k: int| 0 <= k < s ==> #[trigger] grid[k] == self.board@[k]@,
                i <= size,
                score == player_score_upto(grid, s, player, i as int),
                0 <= score <= (i as int) * s * 4 * (WIN as int),
            decreases size - i,
        {
            let mut j: usize = 0;
            let ghost row_base = score;
            while j < size
                invariant
                    self.wf(),
                    grid == self.model().grid,
                    s == self.model().grid.len() as int,
                    s == size as int,
                    1 <= s <= MAX_SIZE,
                    self.board@.len() == s,
                forall|k: int| 0 <= k < s ==> (#[trigger] self.board@[k])@.len() == s,
                    forall|k: int| 0 <= k < s ==> #[trigger] grid[k] == self.board@[k]@,
                    i < size,
                    j <= size,
                    row_base == player_score_upto(grid, s, player, i as int),
                    0 <= row_base <= (i as int) * s * 4 * (WIN as int),
                    score == row_base + row_score(grid, s, player, i as int, j as int),
                    0 <= score - row_base <= (j as int) * 4 * (WIN as int),
                decreases size - j,
            {
                proof {
                    assert(grid[i as int] == self.board@[i as int]@);
                    lemma_row_score_bounds(grid, s, player, i as int, j as int);
                    lemma_player_upto_bounds(grid, s, player, i as int);
                    assert((i as int) * s * 4 * (WIN as int) + s * 4 * (WIN as int) <= (
                    MAX_SIZE as int) * (MAX_SIZE as int) * 4 * (WIN as int) + (MAX_SIZE as int)
                        * 4 * (WIN as int)) by (nonlinear_arith)
                        requires
                            0 <= (i as int) < s <= MAX_SIZE as int,
                    ;
                }
                if self.board[i][j] == player {
                    let bonus = self.eval_position(i, j, player);
                    score = score + bonus;
                } else {
                }
                j = j + 1;
            }
            proof {
                lemma_player_upto_bounds(grid, s, player, i as int + 1);
            }
            i = i + 1;
        }
        score
    }

    /// Whole-position score from the perspective of the side to move: own
    /// score minus 1.1 times the opponent's.
    pub fn evaluate(&self) -> (score: i64)
        requires
            self.wf(),
        ensures
            score == eval_spec(self.model()),
            -crate::SCORE_LIMIT < score < crate::SCORE_LIMIT,
    {
        let ghost m = self.model();
        proof {
            self.lemma_wf();
        }
        let me = self.current_player();
        let own = self.evaluate_player(me);
        let opp = self.evaluate_player(3 - me);
        proof {
            assert(3 - me == opponent(m.turn));
            lemma_eval_bounds(m);
            assert(0 <= (opp as int * 11) / 10 <= 461_373_440_000) by (nonlinear_arith)
                requires
                    0 <= opp as int <= 419_430_400_000,
            ;
        }
        own - (opp * 11) / 10
    }
}

/// Table lookup shared by evaluator and ranker.
pub(crate) fn table_bonus(t: u8, count: usize, open: usize) -> (score: i64)
    ensures
        score == table_score(t as int, count as int, open as int),
{
    if t == 1 {
        if count >= 5 {
            50000
        } else if count == 4 {
            10000
        } else if count == 3 && open == 2 {
            5000
        } else if count == 3 && open == 1 {
            1000
        } else if count == 2 && open == 2 {
            500
        } else {
            10
        }
    } else if t == 2 {
        if count >= 5 {
            50000
        } else if count == 4 {
            12000
        } else if count == 3 && open == 2 {
            6000
        } else if count == 3 && open == 1 {
            1100
        } else if count == 2 && open == 2 {
            550
        } else {
            10
        }
    } else {
        if count >= 5 {
            WIN
        } else if count == 4 && open == 2 {
            10000
        } else if count == 4 && open == 1 {
            5000
        } else if count == 3 && open == 2 {
            5000
        } else if count == 3 && open == 1 {
            500
        } else if count == 2 && open == 2 {
            500
        } else if count == 2 && open == 1 {
            50
        } else {
            10
        }
    }
}

} // verus!
