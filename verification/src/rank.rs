//! Candidate ranking support: which empty cells are worth searching, how a
//! single placement scores, and descending-order sorting of scored moves.

use vstd::prelude::*;

use crate::board::{in_bounds, rows_view, Game};
use crate::eval::{dirs_score, opponent};
use crate::zobrist::key_at;
use crate::{EMPTY, MAX_SIZE, WIN};

verus! {

/// Some stone lies within the radius-2 window around (r, c).
pub open spec fn has_neighbor_spec(g: Seq<Seq<i8>>, size: int, r: int, c: int) -> bool {
    exists|a: int, b: int|
        {
            &&& -2 <= a <= 2
            &&& -2 <= b <= 2
            &&& !(a == 0 && b == 0)
            &&& in_bounds(size, r + a, c + b)
            &&& #[trigger] g[r + a][c + b] != EMPTY
        }
}

/// An empty in-bounds cell with at least one stone in its radius-2 window.
pub open spec fn is_candidate(g: Seq<Seq<i8>>, size: int, r: int, c: int) -> bool {
    &&& in_bounds(size, r, c)
    &&& g[r][c] == EMPTY
    &&& has_neighbor_spec(g, size, r, c)
}

/// No stone anywhere on the grid.
pub open spec fn board_empty(g: Seq<Seq<i8>>, size: int) -> bool {
    forall|i: int, j: int| in_bounds(size, i, j) ==> #[trigger] g[i][j] == EMPTY
}

/// Base ranking score of placing at (r, c): the mover's own placement under
/// table 1 plus the denied opponent placement under table 2.
pub open spec fn move_base_spec(g: Seq<Seq<i8>>, size: int, r: int, c: int, me: i8) -> int {
    let ga = g.update(r, g[r].update(c, me));
    let gd = g.update(r, g[r].update(c, opponent(me)));
    dirs_score(1, ga, size, r, c, me, 4) + dirs_score(2, gd, size, r, c, opponent(me), 4)
}

impl Game {
    /// Whether any stone stands on the board.
    pub fn has_any_stone(&self) -> (b: bool)
        requires
            self.wf(),
        ensures
            b == !board_empty(self.model().grid, self.model().grid.len() as int),
    {
        let ghost grid = self.model().grid;
        let ghost s = self.model().grid.len() as int;
        proof {
            self.lemma_wf();
            self.lemma_repr();
        }
        let size = self.size;
        let mut i: usize = 0;
        while i < size
            invariant
                self.wf(),
                grid == self.model().grid,
                s == self.model().grid.len() as int,
                s == size as int,
                self.board@.len() == s,
                forall|k: int| 0 <= k < s ==> (#[trigger] self.board@[k])@.len() == s,
                forall|k: int| 0 <= k < s ==> #[trigger] grid[k] == self.board@[k]@,
                i <= size,
                forall|a: int, b: int|
                    0 <= a < i && 0 <= b < s ==> #[trigger] grid[a][b] == EMPTY,
            decreases size - i,
        {
            let mut j: usize = 0;
            while j < size
                invariant
                    self.wf(),
                    grid == self.model().grid,
                    s == self.model().grid.len() as int,
                    s == size as int,
                    self.board@.len() == s,
                    forall|k: int| 0 <= k < s ==> (#[trigger] self.board@[k])@.len() == s,
                    forall|k: int| 0 <= k < s ==> #[trigger] grid[k] == self.board@[k]@,
                    i < size,
                    j <= size,
                    forall|a: int, b: int|
                        0 <= a < i && 0 <= b < s ==> #[trigger] grid[a][b] == EMPTY,
                    forall|b: int| 0 <= b < j ==> #[trigger] grid[i as int][b] == EMPTY,
                decreases size - j,
            {
                if self.board[i][j] != EMPTY {
                    proof {
                        assert(grid[i as int][j as int] != EMPTY);
                        assert(!board_empty(grid, s));
                    }
                    return true;
                }
                j = j + 1;
            }
            i = i + 1;
        }
        false
    }

    /// Whether the empty cell (row, col) has a stone within its radius-2
    /// window.
    pub fn has_neighbor(&self, row: usize, col: usize) -> (b: bool)
        requires
            self.wf(),
            in_bounds(self.model().grid.len() as int, row as int, col as int),
        ensures
            b == has_neighbor_spec(
                self.model().grid,
                self.model().grid.len() as int,
                row as int,
                col as int,
            ),
    {
        let ghost grid = self.model().grid;
        let ghost s = self.model().grid.len() as int;
        proof {
            self.lemma_wf();
            self.lemma_repr();
        }
        let n32: i32 = self.size as i32;
        let mut a: i32 = -2;
        while a <= 2
            invariant
                self.wf(),
                grid == self.model().grid,
                s == self.model().grid.len() as int,
                s == self.size as int,
                n32 as int == s,
                1 <= s <= MAX_SIZE,
                self.board@.len() == s,
                forall|k: int| 0 <= k < s ==> (#[trigger] self.board@[k])@.len() == s,
                forall|k: int| 0 <= k < s ==> #[trigger] grid[k] == self.board@[k]@,
                in_bounds(s, row as int, col as int),
                -2 <= a as int <= 3,
                forall|x: int, y: int|
                    {
                        &&& -2 <= x < a as int
                        &&& -2 <= y <= 2
                        &&& !(x == 0 && y == 0)
                        &&& in_bounds(s, row as int + x, col as int + y)
                    } ==> #[trigger] grid[row as int + x][col as int + y] == EMPTY,
            decreases 3 - a,
        {
            let mut b: i32 = -2;
            while b <= 2
                invariant
                    self.wf(),
                    grid == self.model().grid,
                    s == self.model().grid.len() as int,
                    s == self.size as int,
                    n32 as int == s,
                    1 <= s <= MAX_SIZE,
                    self.board@.len() == s,
                    forall|k: int| 0 <= k < s ==> (#[trigger] self.board@[k])@.len() == s,
                    forall|k: int| 0 <= k < s ==> #[trigger] grid[k] == self.board@[k]@,
                    in_bounds(s, row as int, col as int),
                    -2 <= a as int <= 2,
                    -2 <= b as int <= 3,
                    forall|x: int, y: int|
                        {
                            &&& -2 <= x < a as int
                            &&& -2 <= y <= 2
                            &&& !(x == 0 && y == 0)
                            &&& in_bounds(s, row as int + x, col as int + y)
                        } ==> #[trigger] grid[row as int + x][col as int + y] == EMPTY,
                    forall|y: int|
                        {
                            &&& -2 <= y < b as int
                            &&& !(a as int == 0 && y == 0)
                            &&& in_bounds(s, row as int + a as int, col as int + y)
                        } ==> #[trigger] grid[row as int + a as int][col as int + y] == EMPTY,
                decreases 3 - b,
            {
                if !(a == 0 && b == 0) {
                    let r = row as i32 + a;
                    let c = col as i32 + b;
                    if r >= 0 && r < n32 && c >= 0 && c < n32 {
                        if self.board[r as usize][c as usize] != EMPTY {
                            proof {
                                assert(grid[r as int] == self.board@[r as int]@);
                                assert(grid[row as int + a as int][col as int + b as int]
                                    != EMPTY);
                            }
                            return true;
                        }
                    }
                }
                b = b + 1;
            }
            a = a + 1;
        }
        false
    }

    /// Ranking score of placing at the empty cell (row, col): offense for
    /// the side to move plus defense for denying the opponent the same
    /// cell. The position is left untouched.
    pub fn score_move(&mut self, row: usize, col: usize) -> (score: i64)
        requires
            old(self).wf(),
            in_bounds(old(self).model().grid.len() as int, row as int, col as int),
            old(self).model().grid[row as int][col as int] == EMPTY,
        ensures
            final(self).wf(),
            final(self).model() == old(self).model(),
            score == move_base_spec(
                old(self).model().grid,
                old(self).model().grid.len() as int,
                row as int,
                col as int,
                old(self).model().turn,
            ),
            0 <= score <= 8 * WIN,
    {
        let ghost m0 = self.model();
        let ghost s = self.model().grid.len() as int;
        proof {
            self.lemma_wf();
        }
        let me = self.current_player();
        let opp = 3 - me;
        let a = self.scored_placement(1, me, row, col);
        let b = self.scored_placement(2, opp, row, col);
        proof {
            assert(opp == opponent(m0.turn));
        }
        a + b
    }

    /// Places a stone of `p` at (row, col), sums its table-`t` direction
    /// scores, and removes it again.
    fn scored_placement(&mut self, t: u8, p: i8, row: usize, col: usize) -> (score: i64)
        requires
            old(self).wf(),
            in_bounds(old(self).model().grid.len() as int, row as int, col as int),
            old(self).model().grid[row as int][col as int] == EMPTY,
            p == 1 || p == 2,
        ensures
            final(self).wf(),
            final(self).model() == old(self).model(),
            score == dirs_score(
                t as int,
                old(self).model().grid.update(
                    row as int,
                    old(self).model().grid[row as int].update(col as int, p),
                ),
                old(self).model().grid.len() as int,
                row as int,
                col as int,
                p,
                4,
            ),
            0 <= score <= 4 * WIN,
    {
        proof {
            self.lemma_wf();
            self.lemma_repr();
        }
        let ghost m0 = self.model();
        let ghost s = self.size as int;
        self.place_stone(row, col, p);
        let ghost ga = m0.grid.update(row as int, m0.grid[row as int].update(col as int, p));
        let ghost grid = self.model().grid;
        let mut score: i64 = 0;
        let mut d: usize = 0;
        while d < 4
            invariant
                self.wf(),
                grid == self.model().grid,
                grid == ga,
                s == self.model().grid.len() as int,
                in_bounds(s, row as int, col as int),
                d <= 4,
                score == dirs_score(t as int, grid, s, row as int, col as int, p, d as int),
                0 <= score <= d * (WIN as int),
            decreases 4 - d,
        {
            let (count, open) = self.eval_line(row, col, d, p);
            let bonus: i64 = crate::eval::table_bonus(t, count, open);
            proof {
                crate::eval::lemma_table_bounds(
                    t as int,
                    crate::eval::line_count(grid, s, row as int, col as int, d as int, p),
                    crate::eval::line_open(grid, s, row as int, col as int, d as int, p),
                );
            }
            score = score + bonus;
            d = d + 1;
        }
        let ghost m1 = self.model();
        self.remove_stone(row, col, p);
        proof {
            assert(m1.grid[row as int] == m0.grid[row as int].update(col as int, p));
            assert(m1.grid[row as int].update(col as int, EMPTY) =~~= m0.grid[row as int]);
            assert(self.model().grid =~~= m0.grid);
            crate::board::lemma_xor_cancel(m0.zhash, key_at(s, row as int, col as int, p));
            assert(self.model() =~~= m0);
        }
        score
    }
}

/// Whether scored moves stand in descending score order.
pub open spec fn sorted_desc(s: Seq<((usize, usize), i64)>) -> bool {
    forall|i: int, j: int| 0 <= i < j < s.len() ==> (#[trigger] s[i]).1 >= (#[trigger] s[j]).1
}

/// Sorts scored moves by descending score. Every element of the result
/// comes from the input and every input element appears in the result.
pub(crate) fn sort_moves(v: Vec<((usize, usize), i64)>) -> (r: Vec<((usize, usize), i64)>)
    ensures
        sorted_desc(r@),
        r@.len() == v@.len(),
        forall|y: ((usize, usize), i64)| r@.contains(y) ==> v@.contains(y),
        forall|k: int| 0 <= k < v@.len() ==> r@.contains(#[trigger] v@[k]),
        (forall|k1: int, k2: int|
            0 <= k1 < k2 < v@.len() ==> (#[trigger] v@[k1]).0 != (#[trigger] v@[k2]).0) ==> (
        forall|k1: int, k2: int|
            0 <= k1 < k2 < r@.len() ==> (#[trigger] r@[k1]).0 != (#[trigger] r@[k2]).0),
{
    let mut out: Vec<((usize, usize), i64)> = Vec::new();
    let mut idx: usize = 0;
    while idx < v.len()
        invariant
            idx <= v@.len(),
            out@.len() == idx,
            sorted_desc(out@),
            forall|y: ((usize, usize), i64)| out@.contains(y) ==> v@.contains(y),
            forall|k: int| 0 <= k < idx ==> out@.contains(#[trigger] v@[k]),
            forall|p: int|
                0 <= p < out@.len() ==> exists|k: int|
                    0 <= k < idx && v@[k] == #[trigger] out@[p],
            (forall|k1: int, k2: int|
                0 <= k1 < k2 < v@.len() ==> (#[trigger] v@[k1]).0 != (#[trigger] v@[k2]).0) ==> (
            forall|p: int, q: int|
                0 <= p < q < out@.len() ==> (#[trigger] out@[p]).0 != (#[trigger] out@[q]).0),
        decreases v@.len() - idx,
    {
        let x = v[idx];
        let mut j: usize = 0;
        while j < out.len() && out[j].1 >= x.1
            invariant
                j <= out@.len(),
                forall|k: int| 0 <= k < j ==> (#[trigger] out@[k]).1 >= x.1,
            decreases out@.len() - j,
        {
            j = j + 1;
        }
        let ghost out0 = out@;
        out.insert(j, x);
        proof {
            out0.insert_ensures(j as int, x);
            assert(out@ == out0.insert(j as int, x));
            // descending order is kept around the insertion point
            assert forall|p: int, q: int| 0 <= p < q < out@.len() implies (#[trigger] out@[p]).1
                >= (#[trigger] out@[q]).1 by {
                if q < j {
                } else if p < j && q == j {
                } else if p < j && q > j {
                } else if p == j {
                    assert(out@[q] == out0[q - 1]);
                    if j < out0.len() {
                        assert(out0[j as int].1 < x.1);
                        assert(out0[q - 1].1 <= out0[j as int].1);
                    }
                } else {
                }
            }
            // the inserted list holds the old elements and x, nothing else
            assert forall|y: ((usize, usize), i64)| out@.contains(y) implies v@.contains(y) by {
                let k = choose|k: int| 0 <= k < out@.len() && out@[k] == y;
                if k < j {
                    assert(out0[k] == y);
                    assert(out0.contains(y));
                } else if k == j {
                    assert(v@[idx as int] == y);
                } else {
                    assert(out0[k - 1] == y);
                    assert(out0.contains(y));
                }
            }
            assert forall|k: int| 0 <= k < idx + 1 implies out@.contains(#[trigger] v@[k]) by {
                if k < idx {
                    let ghost i0 = choose|i0: int| 0 <= i0 < out0.len() && out0[i0] == v@[k];
                    if i0 < j {
                        assert(out@[i0] == v@[k]);
                    } else {
                        assert(out@[i0 + 1] == v@[k]);
                    }
                } else {
                    assert(out@[j as int] == v@[k]);
                }
            }
            // each element of the grown list originates in the scanned prefix
            assert forall|p: int| 0 <= p < out@.len() implies exists|k: int|
                0 <= k < idx + 1 && v@[k] == #[trigger] out@[p] by {
                if p < j {
                    assert(out@[p] == out0[p]);
                    let k0 = choose|k0: int| 0 <= k0 < idx && v@[k0] == out0[p];
                    assert(v@[k0] == out@[p]);
                } else if p == j {
                    assert(out@[p] == v@[idx as int]);
                } else {
                    assert(out@[p] == out0[p - 1]);
                    let k0 = choose|k0: int| 0 <= k0 < idx && v@[k0] == out0[p - 1];
                    assert(v@[k0] == out@[p]);
                }
            }
            // with pairwise-distinct input cells, the list keeps cells distinct
            if forall|k1: int, k2: int|
                0 <= k1 < k2 < v@.len() ==> (#[trigger] v@[k1]).0 != (#[trigger] v@[k2]).0 {
                assert forall|p: int, q: int| 0 <= p < q < out@.len() implies (
                #[trigger] out@[p]).0 != (#[trigger] out@[q]).0 by {
                    if q < j {
                        assert(out@[p] == out0[p] && out@[q] == out0[q]);
                    } else if p < j && q == j {
                        assert(out@[p] == out0[p] && out@[q] == v@[idx as int]);
                        let kp = choose|kp: int| 0 <= kp < idx && v@[kp] == out0[p];
                        assert(v@[kp].0 != v@[idx as int].0);
                    } else if p < j && q > j {
                        assert(out@[p] == out0[p] && out@[q] == out0[q - 1]);
                    } else if p == j {
                        assert(out@[p] == v@[idx as int] && out@[q] == out0[q - 1]);
                        let kq = choose|kq: int| 0 <= kq < idx && v@[kq] == out0[q - 1];
                        assert(v@[kq].0 != v@[idx as int].0);
                    } else {
                        assert(out@[p] == out0[p - 1] && out@[q] == out0[q - 1]);
                    }
                }
            }
        }
        idx = idx + 1;
    }
    out
}

} // verus!
