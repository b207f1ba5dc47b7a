//! Board state: an N x N grid of cells, the side to move, and the
//! incremental position hash, with paired apply/undo of single stone
//! placements and five-in-a-row detection anchored at a cell.

use vstd::prelude::*;

use crate::zobrist::{key_at, zob_wf, ZobristHash};
use crate::{EMPTY, MAX_SIZE};

verus! {

/// Cells hold 0 (empty), 1 (player one) or 2 (player two).
pub open spec fn cell_valid(v: i8) -> bool {
    v == 0 || v == 1 || v == 2
}

pub open spec fn in_bounds(size: int, r: int, c: int) -> bool {
    0 <= r < size && 0 <= c < size
}

/// A square grid of valid cells.
pub open spec fn grid_wf(g: Seq<Seq<i8>>, size: int) -> bool {
    &&& g.len() == size
    &&& forall|i: int| 0 <= i < size ==> (#[trigger] g[i]).len() == size
    &&& forall|i: int, j: int|
        in_bounds(size, i, j) ==> cell_valid(#[trigger] g[i][j])
}

/// The sequence of row views of an owned grid.
pub open spec fn rows_view(b: Seq<Vec<i8>>) -> Seq<Seq<i8>> {
    Seq::new(b.len(), |i: int| b[i]@)
}

/// Hash contribution of one cell: the key of its stone, or 0 if empty.
pub open spec fn cell_key(size: int, r: int, c: int, v: i8) -> u64 {
    if v == 1 || v == 2 {
        key_at(size, r, c, v)
    } else {
        0
    }
}

/// XOR of the keys of the first `j` cells of row `r`.
pub open spec fn row_hash(row: Seq<i8>, size: int, r: int, j: int) -> u64
    decreases j,
{
    if j <= 0 {
        0
    } else {
        row_hash(row, size, r, j - 1) ^ cell_key(size, r, j - 1, row[j - 1])
    }
}

/// XOR of the keys of all occupied cells in the first `i` rows.
pub open spec fn grid_hash_upto(g: Seq<Seq<i8>>, size: int, i: int) -> u64
    decreases i,
{
    if i <= 0 {
        0
    } else {
        grid_hash_upto(g, size, i - 1) ^ row_hash(g[i - 1], size, i - 1, size)
    }
}

/// The position hash: XOR of per-cell per-player keys over all occupied
/// cells.
pub open spec fn grid_hash(g: Seq<Seq<i8>>, size: int) -> u64 {
    grid_hash_upto(g, size, size)
}

pub proof fn lemma_xor_zero(a: u64)
    ensures
        a ^ 0 == a,
        0 ^ a == a,
{
    assert(a ^ 0 == a) by (bit_vector);
    assert(0 ^ a == a) by (bit_vector);
}

pub proof fn lemma_xor_shuffle(a: u64, b: u64, c: u64)
    ensures
        a ^ b == b ^ a,
        (a ^ b) ^ c == (a ^ c) ^ b,
{
    assert(a ^ b == b ^ a) by (bit_vector);
    assert((a ^ b) ^ c == (a ^ c) ^ b) by (bit_vector);
}

pub proof fn lemma_xor_cancel(a: u64, k: u64)
    ensures
        (a ^ k) ^ k == a,
{
    assert((a ^ k) ^ k == a) by (bit_vector);
}

pub proof fn lemma_xor_assoc(a: u64, b: u64, c: u64)
    ensures
        (a ^ b) ^ c == a ^ (b ^ c),
{
    assert((a ^ b) ^ c == a ^ (b ^ c)) by (bit_vector);
}

pub proof fn lemma_xor_cancel_chain(a: u64, k: u64, n: u64)
    ensures
        (a ^ k) ^ (k ^ n) == a ^ n,
{
    assert((a ^ k) ^ (k ^ n) == a ^ n) by (bit_vector);
}

/// Replacing the cell at column `c` XORs out its old key and XORs in the
/// new one, as far as the first `j` columns are concerned.
pub(crate) proof fn lemma_row_hash_update(row: Seq<i8>, size: int, r: int, c: int, v: i8, j: int)
    requires
        0 <= c < row.len(),
        0 <= j <= row.len(),
    ensures
        row_hash(row.update(c, v), size, r, j) == row_hash(row, size, r, j) ^ (if c < j {
            cell_key(size, r, c, row[c]) ^ cell_key(size, r, c, v)
        } else {
            0
        }),
    decreases j,
{
    let row2 = row.update(c, v);
    if j <= 0 {
        lemma_xor_zero(row_hash(row, size, r, j));
    } else {
        lemma_row_hash_update(row, size, r, c, v, j - 1);
        let a = row_hash(row, size, r, j - 1);
        let k_old = cell_key(size, r, c, row[c]);
        let k_new = cell_key(size, r, c, v);
        if c == j - 1 {
            // prefix unchanged, last cell rewritten
            lemma_xor_zero(a);
            assert(row_hash(row2, size, r, j - 1) == a);
            assert(row2[j - 1] == v);
            assert(row_hash(row2, size, r, j) == a ^ k_new);
            lemma_xor_cancel_chain(a, k_old, k_new);
        } else {
            assert(row2[j - 1] == row[j - 1]);
            let k_last = cell_key(size, r, j - 1, row[j - 1]);
            if c < j - 1 {
                assert(row_hash(row2, size, r, j - 1) == a ^ (k_old ^ k_new));
                assert(row_hash(row2, size, r, j) == (a ^ (k_old ^ k_new)) ^ k_last);
                lemma_xor_shuffle(a, k_old ^ k_new, k_last);
            } else {
                lemma_xor_zero(a);
                assert(row_hash(row2, size, r, j - 1) == a);
                lemma_xor_zero(row_hash(row, size, r, j));
            }
        }
    }
}

/// Replacing one cell of the grid XORs out its old key and XORs in the new
/// one, as far as the first `i` rows are concerned.
pub(crate) proof fn lemma_grid_hash_update(g: Seq<Seq<i8>>, size: int, r: int, c: int, v: i8, i: int)
    requires
        grid_wf(g, size),
        in_bounds(size, r, c),
        0 <= i <= size,
    ensures
        grid_hash_upto(g.update(r, g[r].update(c, v)), size, i) == grid_hash_upto(g, size, i) ^ (
        if r < i {
            cell_key(size, r, c, g[r][c]) ^ cell_key(size, r, c, v)
        } else {
            0
        }),
    decreases i,
{
    let g2 = g.update(r, g[r].update(c, v));
    if i <= 0 {
        lemma_xor_zero(grid_hash_upto(g, size, i));
    } else {
        lemma_grid_hash_update(g, size, r, c, v, i - 1);
        let a = grid_hash_upto(g, size, i - 1);
        let delta = cell_key(size, r, c, g[r][c]) ^ cell_key(size, r, c, v);
        if r == i - 1 {
            // prefix rows unchanged, row r rewritten at column c
            lemma_xor_zero(a);
            assert(grid_hash_upto(g2, size, i - 1) == a);
            assert(g2[i - 1] == g[r].update(c, v));
            lemma_row_hash_update(g[r], size, r, c, v, size);
            assert(row_hash(g2[i - 1], size, i - 1, size) == row_hash(g[r], size, r, size)
                ^ delta);
            assert(grid_hash_upto(g2, size, i) == a ^ (row_hash(g[r], size, r, size) ^ delta));
            lemma_xor_assoc(a, row_hash(g[r], size, r, size), delta);
        } else {
            assert(g2[i - 1] == g[i - 1]);
            let k_last = row_hash(g[i - 1], size, i - 1, size);
            if r < i - 1 {
                assert(grid_hash_upto(g2, size, i - 1) == a ^ delta);
                assert(grid_hash_upto(g2, size, i) == (a ^ delta) ^ k_last);
                lemma_xor_shuffle(a, delta, k_last);
            } else {
                lemma_xor_zero(a);
                assert(grid_hash_upto(g2, size, i - 1) == a);
                lemma_xor_zero(grid_hash_upto(g, size, i));
            }
        }
    }
}

/// The state of a position as contracts speak of it: grid, side to move and
/// position hash.
#[verifier::ext_equal]
pub ghost struct GameModel {
    pub grid: Seq<Seq<i8>>,
    pub turn: i8,
    pub zhash: u64,
}

/// A well-formed position: square grid of valid cells within the supported
/// edge length, a real side to move, and a hash that equals the XOR of the
/// keys of all occupied cells.
pub open spec fn model_wf(m: GameModel) -> bool {
    &&& 1 <= m.grid.len() <= MAX_SIZE
    &&& grid_wf(m.grid, m.grid.len() as int)
    &&& m.turn == 1 || m.turn == 2
    &&& m.zhash == grid_hash(m.grid, m.grid.len() as int)
}

/// The state after placing the mover's stone at (r, c): the cell is filled,
/// the turn flips, and the stone's key is XOR-ed into the hash.
pub open spec fn apply_spec(m: GameModel, r: int, c: int) -> GameModel {
    GameModel {
        grid: m.grid.update(r, m.grid[r].update(c, m.turn)),
        turn: (3 - m.turn) as i8,
        zhash: m.zhash ^ key_at(m.grid.len() as int, r, c, m.turn),
    }
}

/// The state after removing the stone of `player` at (r, c) and giving
/// `player` back the move: the exact inverse of `apply_spec`.
pub open spec fn undo_spec(m: GameModel, r: int, c: int, player: i8) -> GameModel {
    GameModel {
        grid: m.grid.update(r, m.grid[r].update(c, EMPTY)),
        turn: player,
        zhash: m.zhash ^ key_at(m.grid.len() as int, r, c, player),
    }
}

/// A step delta is one cell along one of the 8 axis senses.
pub open spec fn valid_delta(dr: int, dc: int) -> bool {
    &&& -1 <= dr <= 1
    &&& -1 <= dc <= 1
    &&& !(dr == 0 && dc == 0)
}

/// The four scan directions; each is also walked in its opposite sense.
pub open spec fn dir_delta(d: int) -> (int, int) {
    if d == 0 {
        (0, 1)
    } else if d == 1 {
        (1, 0)
    } else if d == 2 {
        (1, 1)
    } else {
        (1, -1)
    }
}

/// Cells left before the scan must leave the board: a termination measure.
pub open spec fn dir_dist(size: int, r: int, c: int, dr: int, dc: int) -> int {
    if dr == 1 {
        size - r
    } else if dr == -1 {
        r + 1
    } else if dc == 1 {
        size - c
    } else {
        c + 1
    }
}

/// Number of contiguous stones of `p` strictly beyond (r, c) in the sense
/// (dr, dc).
pub open spec fn count_dir_spec(
    g: Seq<Seq<i8>>,
    size: int,
    r: int,
    c: int,
    dr: int,
    dc: int,
    p: i8,
) -> int
    decreases dir_dist(size, r, c, dr, dc),
{
    if !valid_delta(dr, dc) || !in_bounds(size, r, c) {
        0
    } else if !in_bounds(size, r + dr, c + dc) {
        0
    } else if g[r + dr][c + dc] != p {
        0
    } else {
        1 + count_dir_spec(g, size, r + dr, c + dc, dr, dc, p)
    }
}

/// Whether the first cell past the contiguous run of `p` beyond (r, c) in
/// the sense (dr, dc) is an in-bounds empty cell.
pub open spec fn open_dir_spec(
    g: Seq<Seq<i8>>,
    size: int,
    r: int,
    c: int,
    dr: int,
    dc: int,
    p: i8,
) -> bool
    decreases dir_dist(size, r, c, dr, dc),
{
    if !valid_delta(dr, dc) || !in_bounds(size, r, c) {
        false
    } else if !in_bounds(size, r + dr, c + dc) {
        false
    } else if g[r + dr][c + dc] == p {
        open_dir_spec(g, size, r + dr, c + dc, dr, dc, p)
    } else {
        g[r + dr][c + dc] == EMPTY
    }
}

/// Total run length through (r, c) along direction `d`: the anchor stone
/// plus the contiguous stones of the same player in both senses.
pub open spec fn run_len(g: Seq<Seq<i8>>, size: int, r: int, c: int, d: int) -> int {
    let (dr, dc) = dir_delta(d);
    1 + count_dir_spec(g, size, r, c, dr, dc, g[r][c]) + count_dir_spec(
        g,
        size,
        r,
        c,
        -dr,
        -dc,
        g[r][c],
    )
}

/// The stone at (r, c) completes a run of 5 or more in some direction.
pub open spec fn win_at(g: Seq<Seq<i8>>, size: int, r: int, c: int) -> bool {
    &&& g[r][c] != EMPTY
    &&& exists|d: int| 0 <= d < 4 && #[trigger] run_len(g, size, r, c, d) >= 5
}

/// Undoing a placement with the mover and coordinates of the matching
/// apply restores the position exactly, hash included.
pub proof fn lemma_apply_undo(m: GameModel, r: int, c: int)
    requires
        0 <= r < m.grid.len(),
        0 <= c < m.grid[r].len(),
        m.grid[r][c] == EMPTY,
    ensures
        undo_spec(apply_spec(m, r, c), r, c, m.turn) == m,
{
    let m1 = apply_spec(m, r, c);
    assert(m1.grid[r] == m.grid[r].update(c, m.turn));
    assert(m1.grid[r].update(c, EMPTY) =~= m.grid[r]);
    assert(m1.grid.update(r, m1.grid[r].update(c, EMPTY)) =~~= m.grid);
    lemma_xor_cancel(m.zhash, key_at(m.grid.len() as int, r, c, m.turn));
    assert(undo_spec(m1, r, c, m.turn) =~~= m);
}

/// Board state, side to move, and incremental hash.
pub struct Game {
    pub(crate) board: Vec<Vec<i8>>,
    pub(crate) size: usize,
    pub(crate) current: i8,
    pub(crate) zobrist: ZobristHash,
}

impl Game {
    /// The abstract position this value represents.
    pub closed spec fn model(&self) -> GameModel {
        GameModel { grid: rows_view(self.board@), turn: self.current, zhash: self.zobrist.hash }
    }

    /// Representation invariant; it implies `model_wf(self.model())`.
    pub closed spec fn wf(&self) -> bool {
        &&& model_wf(self.model())
        &&& self.size == self.board@.len()
        &&& zob_wf(self.zobrist, self.size as int)
    }

    /// What `wf` guarantees about the abstract position.
    pub proof fn lemma_wf(&self)
        requires
            self.wf(),
        ensures
            model_wf(self.model()),
    {
    }

    /// Links the abstract grid to the stored rows.
    pub(crate) proof fn lemma_repr(&self)
        requires
            self.wf(),
        ensures
            self.board@.len() == self.size,
            self.model().grid.len() == self.size,
            forall|i: int|
                0 <= i < self.size ==> (#[trigger] self.board@[i])@.len() == self.size,
            forall|i: int|
                0 <= i < self.size ==> #[trigger] self.model().grid[i] == self.board@[i]@,
    {
        assert forall|i: int| 0 <= i < self.size implies #[trigger] self.model().grid[i]
            == self.board@[i]@ by {
            assert(rows_view(self.board@)[i] == self.board@[i]@);
        }
        assert forall|i: int| 0 <= i < self.size implies (#[trigger] self.board@[i])@.len()
            == self.size by {
            assert(self.model().grid[i] == self.board@[i]@);
            assert(self.model().grid[i].len() == self.size);
        }
    }

    /// Builds a position from a host-supplied occupancy grid and side to
    /// move, computing the hash of the given stones.
    pub fn from_board(board: Vec<Vec<i8>>, current_player: i8) -> (g: Game)
        requires
            1 <= board@.len() <= MAX_SIZE,
            grid_wf(rows_view(board@), board@.len() as int),
            current_player == 1 || current_player == 2,
        ensures
            g.wf(),
            g.model().grid == rows_view(board@),
            g.model().turn == current_player,
    {
        let size = board.len();
        let ghost grid = rows_view(board@);
        proof {
            assert forall|i: int| 0 <= i < size implies (#[trigger] board@[i])@.len()
                == size by {
                assert(grid[i] == board@[i]@);
                assert(grid[i].len() == size);
            }
        }
        let mut zob = ZobristHash::new(size);
        let mut i: usize = 0;
        while i < size
            invariant
                size == board@.len(),
                1 <= size <= MAX_SIZE,
                grid == rows_view(board@),
                grid_wf(grid, size as int),
                forall|k: int| 0 <= k < size ==> (#[trigger] board@[k])@.len() == size,
                i <= size,
                zob_wf(zob, size as int),
                zob.size == size,
                zob.hash == grid_hash_upto(grid, size as int, i as int),
            decreases size - i,
        {
            let ghost row = grid[i as int];
            proof {
                assert(row == board@[i as int]@);
                lemma_xor_zero(zob.hash);
                assert(row_hash(row, size as int, i as int, 0) == 0);
            }
            let mut j: usize = 0;
            while j < size
                invariant
                    size == board@.len(),
                    1 <= size <= MAX_SIZE,
                    grid == rows_view(board@),
                    grid_wf(grid, size as int),
                    forall|k: int| 0 <= k < size ==> (#[trigger] board@[k])@.len() == size,
                    i < size,
                    row == grid[i as int],
                    row == board@[i as int]@,
                    j <= size,
                    zob_wf(zob, size as int),
                    zob.size == size,
                    zob.hash == grid_hash_upto(grid, size as int, i as int) ^ row_hash(
                        row,
                        size as int,
                        i as int,
                        j as int,
                    ),
                decreases size - j,
            {
                let v: i8 = board[i][j];
                let ghost upto = grid_hash_upto(grid, size as int, i as int);
                proof {
                    assert(row[j as int] == v);
                    assert(cell_valid(v));
                }
                if v != EMPTY {
                    zob.toggle(i, j, v);
                    proof {
                        assert(cell_key(size as int, i as int, j as int, v) == key_at(
                            size as int,
                            i as int,
                            j as int,
                            v,
                        ));
                        lemma_xor_assoc(
                            upto,
                            row_hash(row, size as int, i as int, j as int),
                            cell_key(size as int, i as int, j as int, v),
                        );
                        assert(row_hash(row, size as int, i as int, j as int + 1) == row_hash(
                            row,
                            size as int,
                            i as int,
                            j as int,
                        ) ^ cell_key(size as int, i as int, j as int, v));
                    }
                } else {
                    proof {
                        assert(cell_key(size as int, i as int, j as int, v) == 0);
                        lemma_xor_zero(row_hash(row, size as int, i as int, j as int));
                        assert(row_hash(row, size as int, i as int, j as int + 1) == row_hash(
                            row,
                            size as int,
                            i as int,
                            j as int,
                        ));
                    }
                }
                j = j + 1;
            }
            proof {
                assert(grid_hash_upto(grid, size as int, i as int + 1) == grid_hash_upto(
                    grid,
                    size as int,
                    i as int,
                ) ^ row_hash(grid[i as int], size as int, i as int, size as int));
            }
            i = i + 1;
        }
        let g = Game { board, size, current: current_player, zobrist: zob };
        proof {
            assert(g.model().grid == grid);
        }
        g
    }

    /// Edge length of the board.
    pub fn size(&self) -> (n: usize)
        requires
            self.wf(),
        ensures
            n == self.model().grid.len(),
    {
        self.size
    }

    /// The side to move.
    pub fn current_player(&self) -> (p: i8)
        ensures
            p == self.model().turn,
    {
        self.current
    }

    /// The incremental position hash.
    pub fn current_hash(&self) -> (h: u64)
        ensures
            h == self.model().zhash,
    {
        self.zobrist.get_hash()
    }

    /// The cell value at (row, col).
    pub fn cell(&self, row: usize, col: usize) -> (v: i8)
        requires
            self.wf(),
            in_bounds(self.model().grid.len() as int, row as int, col as int),
        ensures
            v == self.model().grid[row as int][col as int],
    {
        proof {
            self.lemma_repr();
        }
        self.board[row][col]
    }

    /// Places the mover's stone at (row, col) if that cell exists and is
    /// empty, updating the hash incrementally and flipping the turn;
    /// otherwise leaves the position untouched and reports failure.
    pub fn make_move(&mut self, row: usize, col: usize) -> (ok: bool)
        requires
            old(self).wf(),
        ensures
            final(self).wf(),
            ok == {
                &&& (row as int) < old(self).model().grid.len()
                &&& (col as int) < old(self).model().grid.len()
                &&& old(self).model().grid[row as int][col as int] == EMPTY
            },
            !ok ==> final(self).model() == old(self).model(),
            ok ==> final(self).model() == apply_spec(old(self).model(), row as int, col as int),
    {
        proof {
            self.lemma_repr();
        }
        if row >= self.size || col >= self.size || self.board[row][col] != EMPTY {
            return false;
        }
        let ghost m0 = self.model();
        let ghost s = self.size as int;
        let player = self.current;
        self.board[row].set(col, player);
        self.zobrist.toggle(row, col, player);
        self.current = 3 - player;
        proof {
            let bnew = self.board@;
            assert forall|i: int| 0 <= i < bnew.len() implies #[trigger] rows_view(bnew)[i]
                == bnew[i]@ by {}
            assert(rows_view(bnew) =~~= m0.grid.update(
                (row as int),
                m0.grid[row as int].update(col as int, player),
            ));
            lemma_grid_hash_update(m0.grid, s, row as int, col as int, player, s);
            lemma_xor_zero(key_at(s, row as int, col as int, player));
            assert(self.model() =~~= apply_spec(m0, row as int, col as int));
        }
        true
    }

    /// Removes the stone of `player` at (row, col) and gives `player` back
    /// the move: the exact inverse of a matching `make_move`.
    pub fn undo_move(&mut self, row: usize, col: usize, player: i8)
        requires
            old(self).wf(),
            (row as int) < old(self).model().grid.len(),
            (col as int) < old(self).model().grid.len(),
            old(self).model().grid[row as int][col as int] == player,
            player == 1 || player == 2,
        ensures
            final(self).wf(),
            final(self).model() == undo_spec(old(self).model(), row as int, col as int, player),
    {
        proof {
            self.lemma_repr();
        }
        let ghost m0 = self.model();
        let ghost s = self.size as int;
        self.board[row].set(col, EMPTY);
        self.zobrist.toggle(row, col, player);
        self.current = player;
        proof {
            let bnew = self.board@;
            assert forall|i: int| 0 <= i < bnew.len() implies #[trigger] rows_view(bnew)[i]
                == bnew[i]@ by {}
            assert(rows_view(bnew) =~~= m0.grid.update(
                (row as int),
                m0.grid[row as int].update(col as int, EMPTY),
            ));
            lemma_grid_hash_update(m0.grid, s, row as int, col as int, EMPTY, s);
            lemma_xor_zero(key_at(s, row as int, col as int, player));
            assert(self.model() =~~= undo_spec(m0, row as int, col as int, player));
        }
    }

    /// Counts the contiguous stones of `player` strictly beyond (row, col)
    /// in the sense (dr, dc).
    pub fn count_dir(&self, row: usize, col: usize, dr: i32, dc: i32, player: i8) -> (n: usize)
        requires
            self.wf(),
            in_bounds(self.model().grid.len() as int, row as int, col as int),
            valid_delta(dr as int, dc as int),
        ensures
            n == count_dir_spec(
                self.model().grid,
                self.model().grid.len() as int,
                row as int,
                col as int,
                dr as int,
                dc as int,
                player,
            ),
            n <= MAX_SIZE + 1,
    {
        let ghost grid = self.model().grid;
        let ghost s = self.model().grid.len() as int;
        proof {
            self.lemma_repr();
        }
        let n32: i32 = self.size as i32;
        let mut count: usize = 0;
        let mut r: i32 = row as i32 + dr;
        let mut c: i32 = col as i32 + dc;
        let ghost d0 = dir_dist(s, row as int + dr as int, col as int + dc as int, dr as int, dc as int);
        while r >= 0 && r < n32 && c >= 0 && c < n32 && self.board[r as usize][c as usize] == player
            invariant
                self.wf(),
                grid == self.model().grid,
                s == self.model().grid.len() as int,
                s == self.size as int,
                n32 as int == s,
                1 <= s <= MAX_SIZE,
                forall|k: int| 0 <= k < s ==> (#[trigger] self.board@[k])@.len() == s,
                forall|k: int| 0 <= k < s ==> #[trigger] grid[k] == self.board@[k]@,
                in_bounds(s, row as int, col as int),
                valid_delta(dr as int, dc as int),
                -1 <= r as int <= s,
                -1 <= c as int <= s,
                in_bounds(s, r as int - dr as int, c as int - dc as int),
                d0 == dir_dist(s, row as int + dr as int, col as int + dc as int, dr as int, dc as int),
                count as int == d0 - dir_dist(s, r as int, c as int, dr as int, dc as int),
                0 <= count <= MAX_SIZE + 1,
                count_dir_spec(grid, s, row as int, col as int, dr as int, dc as int, player)
                    == count + count_dir_spec(
                    grid,
                    s,
                    r as int - dr as int,
                    c as int - dc as int,
                    dr as int,
                    dc as int,
                    player,
                ),
            decreases dir_dist(s, r as int, c as int, dr as int, dc as int),
        {
            proof {
                assert(grid[r as int] == self.board@[r as int]@);
                assert(grid[r as int][c as int] == player);
                assert(count_dir_spec(grid, s, r as int - dr as int, c as int - dc as int,
                    dr as int, dc as int, player) == 1 + count_dir_spec(grid, s, r as int,
                    c as int, dr as int, dc as int, player));
            }
            count = count + 1;
            r = r + dr;
            c = c + dc;
        }
        proof {
            if in_bounds(s, r as int, c as int) {
                assert(grid[r as int] == self.board@[r as int]@);
            }
            assert(count_dir_spec(grid, s, r as int - dr as int, c as int - dc as int, dr as int,
                dc as int, player) == 0);
        }
        count
    }

    /// Whether the stone at (row, col) completes a run of 5 or more in any
    /// of the four directions; an empty cell never wins.
    pub fn check_win(&self, row: usize, col: usize) -> (b: bool)
        requires
            self.wf(),
            in_bounds(self.model().grid.len() as int, row as int, col as int),
        ensures
            b == win_at(self.model().grid, self.model().grid.len() as int, row as int, col as int),
    {
        let ghost grid = self.model().grid;
        let ghost s = self.model().grid.len() as int;
        proof {
            self.lemma_repr();
            assert(grid[row as int] == self.board@[row as int]@);
        }
        let player = self.board[row][col];
        if player == EMPTY {
            return false;
        }
        let mut d: usize = 0;
        while d < 4
            invariant
                self.wf(),
                grid == self.model().grid,
                s == self.model().grid.len() as int,
                in_bounds(s, row as int, col as int),
                player == grid[row as int][col as int],
                player != EMPTY,
                d <= 4,
                forall|dd: int|
                    0 <= dd < d ==> #[trigger] run_len(grid, s, row as int, col as int, dd) < 5,
            decreases 4 - d,
        {
            let (dr, dc) = dir_delta_exec(d);
            let fwd = self.count_dir(row, col, dr, dc, player);
            let bwd = self.count_dir(row, col, -dr, -dc, player);
            let total = 1 + fwd + bwd;
            proof {
                assert(total as int == run_len(grid, s, row as int, col as int, d as int));
            }
            if total >= 5 {
                return true;
            }
            d = d + 1;
        }
        false
    }

    /// Whether placing a stone of `player` on the empty cell (row, col)
    /// would complete a run of 5 or more; the position is left untouched.
    pub fn would_win(&mut self, player: i8, row: usize, col: usize) -> (b: bool)
        requires
            old(self).wf(),
            in_bounds(old(self).model().grid.len() as int, row as int, col as int),
            old(self).model().grid[row as int][col as int] == EMPTY,
            player == 1 || player == 2,
        ensures
            final(self).wf(),
            final(self).model() == old(self).model(),
            b == win_at(
                old(self).model().grid.update(
                    row as int,
                    old(self).model().grid[row as int].update(col as int, player),
                ),
                old(self).model().grid.len() as int,
                row as int,
                col as int,
            ),
    {
        proof {
            self.lemma_repr();
        }
        let ghost m0 = self.model();
        let ghost s = self.size as int;
        self.board[row].set(col, player);
        self.zobrist.toggle(row, col, player);
        proof {
            let bnew = self.board@;
            assert forall|i: int| 0 <= i < bnew.len() implies #[trigger] rows_view(bnew)[i]
                == bnew[i]@ by {}
            assert(rows_view(bnew) =~~= m0.grid.update(
                (row as int),
                m0.grid[row as int].update(col as int, player),
            ));
            lemma_grid_hash_update(m0.grid, s, row as int, col as int, player, s);
            lemma_xor_zero(key_at(s, row as int, col as int, player));
            assert(self.wf());
        }
        let b = self.check_win(row, col);
        let ghost m1 = self.model();
        proof {
            self.lemma_repr();
        }
        self.board[row].set(col, EMPTY);
        self.zobrist.toggle(row, col, player);
        proof {
            let bnew = self.board@;
            assert forall|i: int| 0 <= i < bnew.len() implies #[trigger] rows_view(bnew)[i]
                == bnew[i]@ by {}
            assert(rows_view(bnew) =~~= m1.grid.update(
                (row as int),
                m1.grid[row as int].update(col as int, EMPTY),
            ));
            assert(m1.grid[row as int] == m0.grid[row as int].update(col as int, player));
            assert(m1.grid[row as int].update(col as int, EMPTY) =~~= m0.grid[row as int]);
            assert(rows_view(bnew) =~~= m0.grid);
            lemma_grid_hash_update(m1.grid, s, row as int, col as int, EMPTY, s);
            lemma_xor_zero(key_at(s, row as int, col as int, EMPTY));
            lemma_xor_cancel(m0.zhash, key_at(s, row as int, col as int, player));
            assert(self.model() =~~= m0);
        }
        b
    }


    /// Sets the empty cell (row, col) to `p`, updating the hash; the turn
    /// is untouched.
    pub(crate) fn place_stone(&mut self, row: usize, col: usize, p: i8)
        requires
            old(self).wf(),
            in_bounds(old(self).model().grid.len() as int, row as int, col as int),
            old(self).model().grid[row as int][col as int] == EMPTY,
            p == 1 || p == 2,
        ensures
            final(self).wf(),
            final(self).model().grid == old(self).model().grid.update(
                row as int,
                old(self).model().grid[row as int].update(col as int, p),
            ),
            final(self).model().turn == old(self).model().turn,
            final(self).model().zhash == old(self).model().zhash ^ key_at(
                old(self).model().grid.len() as int,
                row as int,
                col as int,
                p,
            ),
    {
        proof {
            self.lemma_repr();
        }
        let ghost m0 = self.model();
        let ghost s = self.size as int;
        self.board[row].set(col, p);
        self.zobrist.toggle(row, col, p);
        proof {
            let bnew = self.board@;
            assert forall|i: int| 0 <= i < bnew.len() implies #[trigger] rows_view(bnew)[i]
                == bnew[i]@ by {}
            assert(rows_view(bnew) =~~= m0.grid.update(
                (row as int),
                m0.grid[row as int].update(col as int, p),
            ));
            lemma_grid_hash_update(m0.grid, s, row as int, col as int, p, s);
            lemma_xor_zero(key_at(s, row as int, col as int, p));
        }
    }

    /// Clears the cell (row, col) holding a stone of `p`, updating the
    /// hash; the turn is untouched. The exact inverse of `place_stone`.
    pub(crate) fn remove_stone(&mut self, row: usize, col: usize, p: i8)
        requires
            old(self).wf(),
            in_bounds(old(self).model().grid.len() as int, row as int, col as int),
            old(self).model().grid[row as int][col as int] == p,
            p == 1 || p == 2,
        ensures
            final(self).wf(),
            final(self).model().grid == old(self).model().grid.update(
                row as int,
                old(self).model().grid[row as int].update(col as int, EMPTY),
            ),
            final(self).model().turn == old(self).model().turn,
            final(self).model().zhash == old(self).model().zhash ^ key_at(
                old(self).model().grid.len() as int,
                row as int,
                col as int,
                p,
            ),
    {
        proof {
            self.lemma_repr();
        }
        let ghost m0 = self.model();
        let ghost s = self.size as int;
        self.board[row].set(col, EMPTY);
        self.zobrist.toggle(row, col, p);
        proof {
            let bnew = self.board@;
            assert forall|i: int| 0 <= i < bnew.len() implies #[trigger] rows_view(bnew)[i]
                == bnew[i]@ by {}
            assert(rows_view(bnew) =~~= m0.grid.update(
                (row as int),
                m0.grid[row as int].update(col as int, EMPTY),
            ));
            lemma_grid_hash_update(m0.grid, s, row as int, col as int, EMPTY, s);
            lemma_xor_zero(key_at(s, row as int, col as int, p));
        }
    }

    /// An exact copy of the position, sharing nothing with the original.
    pub fn duplicate(&self) -> (g: Game)
        requires
            self.wf(),
        ensures
            g.wf(),
            g.model() == self.model(),
    {
        proof {
            self.lemma_repr();
        }
        let size = self.size;
        let mut board: Vec<Vec<i8>> = Vec::new();
        let mut i: usize = 0;
        while i < size
            invariant
                self.wf(),
                size == self.size,
                forall|k: int| 0 <= k < size ==> (#[trigger] self.board@[k])@.len() == size,
                forall|k: int| 0 <= k < size ==> #[trigger] self.model().grid[k] == self.board@[k]@,
                i <= size,
                board@.len() == i,
                forall|k: int| 0 <= k < i ==> (#[trigger] board@[k])@ == self.model().grid[k],
            decreases size - i,
        {
            let mut row: Vec<i8> = Vec::new();
            let mut j: usize = 0;
            while j < size
                invariant
                    self.wf(),
                    size == self.size,
                    forall|k: int| 0 <= k < size ==> (#[trigger] self.board@[k])@.len() == size,
                    forall|k: int|
                        0 <= k < size ==> #[trigger] self.model().grid[k] == self.board@[k]@,
                    i < size,
                    j <= size,
                    row@.len() == j,
                    forall|k: int| 0 <= k < j ==> row@[k] == self.model().grid[i as int][k],
                decreases size - j,
            {
                row.push(self.board[i][j]);
                j = j + 1;
            }
            proof {
                assert(row@ =~= self.model().grid[i as int]);
            }
            board.push(row);
            i = i + 1;
        }
        let zob = ZobristHash {
            table: copy_keys(&self.zobrist.table),
            hash: self.zobrist.hash,
            size: self.zobrist.size,
        };
        let g = Game { board, size, current: self.current, zobrist: zob };
        proof {
            assert(rows_view(g.board@) =~~= self.model().grid);
            assert(g.model() =~~= self.model());
        }
        g
    }
}

pub(crate) fn dir_delta_exec(d: usize) -> (p: (i32, i32))
    requires
        d < 4,
    ensures
        (p.0 as int, p.1 as int) == dir_delta(d as int),
        valid_delta(p.0 as int, p.1 as int),
        valid_delta(-p.0 as int, -p.1 as int),
{
    if d == 0 {
        (0, 1)
    } else if d == 1 {
        (1, 0)
    } else if d == 2 {
        (1, 1)
    } else {
        (1, -1)
    }
}

fn copy_keys(t: &Vec<u64>) -> (r: Vec<u64>)
    ensures
        r@ == t@,
{
    let mut r: Vec<u64> = Vec::new();
    let mut i: usize = 0;
    while i < t.len()
        invariant
            i <= t@.len(),
            r@ == t@.take(i as int),
        decreases t@.len() - i,
    {
        r.push(t[i]);
        proof {
            assert(r@ =~= t@.take(i as int + 1));
        }
        i = i + 1;
    }
    proof {
        assert(t@.take(t@.len() as int) =~= t@);
    }
    r
}

} // verus!
