//! The host-facing surface: a standalone win check over a plain occupancy
//! grid, the request-boundary error taxonomy, and a placement entry point
//! that reports which rule a bad placement broke.

use vstd::prelude::*;

use crate::board::{
    apply_spec, count_dir_spec, dir_delta_exec, grid_wf, in_bounds, rows_view, run_len,
    valid_delta, win_at, Game,
};
use crate::{EMPTY, MAX_SIZE};

verus! {

/// Why a request failed: coordinates outside the grid, a placement on a
/// non-empty cell, or no candidate cell left to play.
#[derive(Clone, Copy, Debug, PartialEq, Eq, Structural)]
pub enum GomokuError {
    InvalidPosition,
    OccupiedCell,
    NoLegalMove,
}

impl GomokuError {
    /// A short description of the failure for the host.
    pub fn describe(&self) -> (s: &'static str)
        ensures
            match self {
                GomokuError::InvalidPosition => s@ == "Invalid position"@,
                GomokuError::OccupiedCell => s@ == "Cell is occupied"@,
                GomokuError::NoLegalMove => s@ == "No valid move found"@,
            },
    {
        match self {
            GomokuError::InvalidPosition => "Invalid position",
            GomokuError::OccupiedCell => "Cell is occupied",
            GomokuError::NoLegalMove => "No valid move found",
        }
    }
}

/// What the standalone win check reports: whether the last placement
/// completed five in a row, and for which player.
#[derive(Clone, Copy, Debug)]
pub struct WinStatus {
    pub is_win: bool,
    pub winner: Option<i8>,
}

/// The status the standalone win check owes for the stone at (r, c).
pub open spec fn win_status_spec(g: Seq<Seq<i8>>, size: int, r: int, c: int) -> WinStatus {
    if win_at(g, size, r, c) {
        WinStatus { is_win: true, winner: Some(g[r][c]) }
    } else {
        WinStatus { is_win: false, winner: None }
    }
}

/// Counts the contiguous stones of `player` strictly beyond (row, col) in
/// the sense (dr, dc), on a plain occupancy grid.
pub fn count_dir(
    board: &Vec<Vec<i8>>,
    size: usize,
    row: usize,
    col: usize,
    dr: i32,
    dc: i32,
    player: i8,
) -> (n: usize)
    requires
        size == board@.len(),
        1 <= size <= MAX_SIZE,
        grid_wf(rows_view(board@), size as int),
        in_bounds(size as int, row as int, col as int),
        valid_delta(dr as int, dc as int),
    ensures
        n == count_dir_spec(
            rows_view(board@),
            size as int,
            row as int,
            col as int,
            dr as int,
            dc as int,
            player,
        ),
        n <= MAX_SIZE + 1,
{
    let ghost grid = rows_view(board@);
    let ghost s = size as int;
    proof {
        assert forall|k: int| 0 <= k < s implies (#[trigger] board@[k])@.len() == s by {
            assert(grid[k] == board@[k]@);
            assert(grid[k].len() == s);
        }
    }
    let n32: i32 = size as i32;
    let mut count: usize = 0;
    let mut r: i32 = row as i32 + dr;
    let mut c: i32 = col as i32 + dc;
    let ghost d0 = crate::board::dir_dist(
        s,
        row as int + dr as int,
        col as int + dc as int,
        dr as int,
        dc as int,
    );
    while r >= 0 && r < n32 && c >= 0 && c < n32 && board[r as usize][c as usize] == player
        invariant
            grid == rows_view(board@),
            s == size as int,
            s == board@.len(),
            n32 as int == s,
            1 <= s <= MAX_SIZE,
            forall|k: int| 0 <= k < s ==> (#[trigger] board@[k])@.len() == s,
            in_bounds(s, row as int, col as int),
            valid_delta(dr as int, dc as int),
            -1 <= r as int <= s,
            -1 <= c as int <= s,
            in_bounds(s, r as int - dr as int, c as int - dc as int),
            d0 == crate::board::dir_dist(
                s,
                row as int + dr as int,
                col as int + dc as int,
                dr as int,
                dc as int,
            ),
            count as int == d0 - crate::board::dir_dist(s, r as int, c as int, dr as int, dc as int),
            0 <= count <= MAX_SIZE + 1,
            count_dir_spec(grid, s, row as int, col as int, dr as int, dc as int, player) == count
                + count_dir_spec(
                grid,
                s,
                r as int - dr as int,
                c as int - dc as int,
                dr as int,
                dc as int,
                player,
            ),
        decreases crate::board::dir_dist(s, r as int, c as int, dr as int, dc as int),
    {
        proof {
            assert(grid[r as int] == board@[r as int]@);
            assert(grid[r as int][c as int] == player);
        }
        count = count + 1;
        r = r + dr;
        c = c + dc;
    }
    proof {
        if in_bounds(s, r as int, c as int) {
            assert(grid[r as int] == board@[r as int]@);
        }
    }
    count
}

/// The standalone host-facing win check: given a full occupancy grid and
/// the coordinates of the last-placed stone, reports whether that
/// placement completes five or more in a row and for which player, using
/// the same four-direction contiguous-run scan as the engine.
pub fn check_win(board: &Vec<Vec<i8>>, row: usize, col: usize) -> (r: Result<
    WinStatus,
    GomokuError,
>)
    requires
        1 <= board@.len() <= MAX_SIZE,
        grid_wf(rows_view(board@), board@.len() as int),
    ensures
        match r {
            Result::Err(e) => {
                &&& e == GomokuError::InvalidPosition
                &&& !in_bounds(board@.len() as int, row as int, col as int)
            },
            Result::Ok(st) => {
                &&& in_bounds(board@.len() as int, row as int, col as int)
                &&& st.is_win == win_at(
                    rows_view(board@),
                    board@.len() as int,
                    row as int,
                    col as int,
                )
                &&& st.winner == win_status_spec(
                    rows_view(board@),
                    board@.len() as int,
                    row as int,
                    col as int,
                ).winner
            },
        },
{
    let ghost grid = rows_view(board@);
    let ghost s = board@.len() as int;
    let size = board.len();
    if row >= size || col >= size {
        return Result::Err(GomokuError::InvalidPosition);
    }
    proof {
        assert(grid[row as int] == board@[row as int]@);
    }
    let player = board[row][col];
    if player == EMPTY {
        return Result::Ok(WinStatus { is_win: false, winner: None });
    }
    let mut d: usize = 0;
    while d < 4
        invariant
            grid == rows_view(board@),
            s == board@.len() as int,
            s == size as int,
            1 <= s <= MAX_SIZE,
            grid_wf(grid, s),
            in_bounds(s, row as int, col as int),
            player == grid[row as int][col as int],
            player != EMPTY,
            d <= 4,
            forall|dd: int|
                0 <= dd < d ==> #[trigger] run_len(grid, s, row as int, col as int, dd) < 5,
        decreases 4 - d,
    {
        let (dr, dc) = dir_delta_exec(d);
        let fwd = count_dir(board, size, row, col, dr, dc, player);
        let bwd = count_dir(board, size, row, col, -dr, -dc, player);
        let total = 1 + fwd + bwd;
        proof {
            assert(total as int == run_len(grid, s, row as int, col as int, d as int));
        }
        if total >= 5 {
            return Result::Ok(WinStatus { is_win: true, winner: Some(player) });
        }
        d = d + 1;
    }
    Result::Ok(WinStatus { is_win: false, winner: None })
}

impl Game {
    /// Places the mover's stone at (row, col), or reports exactly which
    /// rule the placement broke: coordinates outside the grid, or a cell
    /// already occupied.
    pub fn try_apply(&mut self, row: usize, col: usize) -> (r: Result<(), GomokuError>)
        requires
            old(self).wf(),
        ensures
            final(self).wf(),
            match r {
                Result::Ok(()) => {
                    &&& in_bounds(old(self).model().grid.len() as int, row as int, col as int)
                    &&& old(self).model().grid[row as int][col as int] == EMPTY
                    &&& final(self).model() == apply_spec(
                        old(self).model(),
                        row as int,
                        col as int,
                    )
                },
                Result::Err(e) => {
                    &&& final(self).model() == old(self).model()
                    &&& (e == GomokuError::InvalidPosition <==> !in_bounds(
                        old(self).model().grid.len() as int,
                        row as int,
                        col as int,
                    ))
                    &&& (e == GomokuError::OccupiedCell <==> (in_bounds(
                        old(self).model().grid.len() as int,
                        row as int,
                        col as int,
                    ) && old(self).model().grid[row as int][col as int] != EMPTY))
                },
            },
    {
        let size = self.size();
        if row >= size || col >= size {
            return Result::Err(GomokuError::InvalidPosition);
        }
        if self.cell(row, col) != EMPTY {
            return Result::Err(GomokuError::OccupiedCell);
        }
        let ok = self.make_move(row, col);
        proof {
            assert(ok);
        }
        Result::Ok(())
    }
}

} // verus!
