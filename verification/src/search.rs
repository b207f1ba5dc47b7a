//! Iterative-deepening negamax with alpha-beta pruning, a transposition
//! cache, killer moves and a history table, plus the tactical
//! short-circuits in front of the full search.

use std::collections::HashMap;
use vstd::prelude::*;

use crate::board::{apply_spec, in_bounds, win_at, Game, GameModel};
use crate::eval::eval_spec;
use crate::rank::{
    board_empty, is_candidate, move_base_spec, sort_moves, sorted_desc,
};
use crate::{EMPTY, HIST_CAP, INF, MAX_DEPTH, MAX_SIZE, SCORE_LIMIT, WIN};

verus! {

broadcast use vstd::std_specs::hash::group_hash_axioms;

/// How the score stored in a transposition entry bounds the true value.
pub enum TTFlag {
    Exact,
    LowerBound,
    UpperBound,
}

/// What one completed search stored for a position hash.
pub struct TTEntry {
    pub depth: i64,
    pub score: i64,
    pub flag: TTFlag,
    pub best_move: Option<(usize, usize)>,
}

/// Scores kept by the cache stay within the range the search works with.
pub open spec fn tt_entry_wf(e: TTEntry) -> bool {
    &&& -SCORE_LIMIT <= e.score <= SCORE_LIMIT
    &&& 0 <= e.depth <= MAX_DEPTH
}

/// Search engine state for one move request: transposition cache, killer
/// moves per ply, and the per-cell history table.
pub struct AI {
    tt: HashMap<u64, TTEntry>,
    killers: Vec<(Option<(usize, usize)>, Option<(usize, usize)>)>,
    history: Vec<Vec<i64>>,
    size: usize,
}

impl AI {
    /// Edge length of the boards this engine searches.
    pub closed spec fn size_spec(&self) -> int {
        self.size as int
    }

    /// The transposition cache contents.
    pub closed spec fn tt_view(&self) -> Map<u64, TTEntry> {
        self.tt@
    }

    /// The two killer moves recorded for ply `p`, if any cutoffs happened
    /// there yet.
    pub closed spec fn killer_pair(&self, p: int) -> (Option<(usize, usize)>, Option<(
        usize,
        usize,
    )>) {
        self.killers@[p]
    }

    /// The accumulated history value of cell (r, c).
    pub closed spec fn history_at(&self, r: int, c: int) -> int {
        self.history@[r]@[c] as int
    }

    pub closed spec fn wf(&self) -> bool {
        &&& 1 <= self.size <= MAX_SIZE
        &&& self.killers@.len() == 32
        &&& self.history@.len() == self.size
        &&& forall|i: int|
            0 <= i < self.size ==> (#[trigger] self.history@[i])@.len() == self.size
        &&& forall|i: int, j: int|
            in_bounds(self.size as int, i, j) ==> 0 <= #[trigger] self.history@[i]@[j]
                <= HIST_CAP
        &&& forall|k: u64| self.tt@.contains_key(k) ==> tt_entry_wf(#[trigger] self.tt@[k])
    }

    /// A fresh engine: empty cache, empty killer slots, history all zero.
    pub fn new(size: usize) -> (ai: AI)
        requires
            1 <= size <= MAX_SIZE,
        ensures
            ai.wf(),
            ai.size_spec() == size as int,
            ai.tt_view() == Map::<u64, TTEntry>::empty(),
            forall|i: int, j: int|
                in_bounds(size as int, i, j) ==> #[trigger] ai.history_at(i, j) == 0,
            forall|q: int|
                0 <= q < 32 ==> #[trigger] ai.killer_pair(q) == (
                None::<(usize, usize)>,
                None::<(usize, usize)>,
                ),
    {
        let tt: HashMap<u64, TTEntry> = HashMap::new();
        let mut killers: Vec<(Option<(usize, usize)>, Option<(usize, usize)>)> = Vec::new();
        let mut k: usize = 0;
        while k < 32
            invariant
                k <= 32,
                killers@.len() == k,
                forall|q: int|
                    0 <= q < k ==> #[trigger] killers@[q] == (
                    None::<(usize, usize)>,
                    None::<(usize, usize)>,
                    ),
            decreases 32 - k,
        {
            killers.push((None, None));
            k = k + 1;
        }
        let mut history: Vec<Vec<i64>> = Vec::new();
        let mut i: usize = 0;
        while i < size
            invariant
                i <= size,
                history@.len() == i,
                forall|a: int| 0 <= a < i ==> (#[trigger] history@[a])@.len() == size,
                forall|a: int, b: int|
                    0 <= a < i && 0 <= b < size ==> #[trigger] history@[a]@[b] == 0,
            decreases size - i,
        {
            let mut row: Vec<i64> = Vec::new();
            let mut j: usize = 0;
            while j < size
                invariant
                    j <= size,
                    row@.len() == j,
                    forall|b: int| 0 <= b < j ==> #[trigger] row@[b] == 0,
                decreases size - j,
            {
                row.push(0);
                j = j + 1;
            }
            history.push(row);
            i = i + 1;
        }
        AI { tt, killers, history, size }
    }

    /// Promotes `mv` to killer slot 0 of the capped ply, demoting the
    /// previous slot-0 move, unless `mv` already holds slot 0.
    pub fn update_killers(&mut self, ply: usize, mv: (usize, usize))
        requires
            old(self).wf(),
        ensures
            final(self).wf(),
            final(self).size_spec() == old(self).size_spec(),
            final(self).tt_view() == old(self).tt_view(),
            forall|r: int, c: int|
                in_bounds(old(self).size_spec(), r, c) ==> #[trigger] final(self).history_at(r, c)
                    == old(self).history_at(r, c),
            ({
                let p = if (ply as int) < 31 {
                    ply as int
                } else {
                    31int
                };
                &&& (old(self).killer_pair(p).0 == Some(mv) ==> final(self).killer_pair(p)
                    == old(self).killer_pair(p))
                &&& (old(self).killer_pair(p).0 != Some(mv) ==> final(self).killer_pair(p) == (
                Some(mv),
                old(self).killer_pair(p).0,
                ))
                &&& forall|q: int|
                    0 <= q < 32 && q != p ==> #[trigger] final(self).killer_pair(q) == old(
                        self,
                    ).killer_pair(q)
            }),
    {
        let p = if ply < 31 {
            ply
        } else {
            31
        };
        let pair = self.killers[p];
        let already = match pair.0 {
            Some(k0) => k0.0 == mv.0 && k0.1 == mv.1,
            None => false,
        };
        proof {
            assert(already == (pair.0 == Some(mv)));
        }
        if !already {
            self.killers.set(p, (Some(mv), pair.0));
        }
    }

    /// Adds a cutoff bonus to the history value of (r, c), saturating at
    /// the cap so the table only ever grows.
    fn add_history(&mut self, r: usize, c: usize, amount: i64)
        requires
            old(self).wf(),
            in_bounds(old(self).size_spec(), r as int, c as int),
            0 <= amount <= 10000,
        ensures
            final(self).wf(),
            final(self).size_spec() == old(self).size_spec(),
            final(self).tt_view() == old(self).tt_view(),
            forall|a: int, b: int|
                in_bounds(old(self).size_spec(), a, b) ==> #[trigger] final(self).history_at(a, b)
                    >= old(self).history_at(a, b),
            final(self).history_at(r as int, c as int) == (if old(self).history_at(r as int, c as int)
                + amount <= HIST_CAP {
                old(self).history_at(r as int, c as int) + amount
            } else {
                HIST_CAP as int
            }),
            forall|a: int, b: int|
                in_bounds(old(self).size_spec(), a, b) && !(a == r as int && b == c as int)
                    ==> #[trigger] final(self).history_at(a, b) == old(self).history_at(a, b),
    {
        let row = &self.history[r];
        let v = row[c];
        let bumped: i64 = if v + amount <= HIST_CAP {
            v + amount
        } else {
            HIST_CAP
        };
        let mut row2 = Vec::new();
        let mut j: usize = 0;
        let ghost old_row = self.history@[r as int]@;
        while j < self.history[r].len()
            invariant
                old(self).wf(),
                self == old(self),
                old_row == self.history@[r as int]@,
                (r as int) < self.history@.len(),
                j <= old_row.len(),
                row2@.len() == j,
                forall|b: int| 0 <= b < j && b != c as int ==> #[trigger] row2@[b] == old_row[b],
                forall|b: int| 0 <= b < j && b == c as int ==> #[trigger] row2@[b] == bumped,
                v == old_row[c as int],
                0 <= bumped <= HIST_CAP,
                v <= bumped,
            decreases old_row.len() - j,
        {
            if j == c {
                row2.push(bumped);
            } else {
                row2.push(self.history[r][j]);
            }
            j = j + 1;
        }
        self.history.set(r, row2);
    }
}

impl AI {
    /// Restricts and orders the empty cells worth searching: the center
    /// alone on an empty board; otherwise every empty cell near a stone,
    /// scored, boosted by the transposition hint, the killer moves of this
    /// ply and the history table, sorted descending and cut to the top 15.
    pub fn get_ordered_moves_phase1(
        &self,
        game: &mut Game,
        ply: usize,
        tt_move: Option<(usize, usize)>,
    ) -> (ms: Vec<(usize, usize)>)
        requires
            self.wf(),
            old(game).wf(),
            self.size_spec() == old(game).model().grid.len() as int,
        ensures
            final(game).wf(),
            final(game).model() == old(game).model(),
            is_ranked(*self, old(game).model(), ply as int, tt_move, ms@),
            forall|k: int|
                0 <= k < ms@.len() ==> {
                    let mv = #[trigger] ms@[k];
                    &&& in_bounds(old(game).model().grid.len() as int, mv.0 as int, mv.1 as int)
                    &&& old(game).model().grid[mv.0 as int][mv.1 as int] == EMPTY
                },
    {
        let ghost m = game.model();
        let ghost s = m.grid.len() as int;
        proof {
            game.lemma_wf();
        }
        let size = game.size();
        if !game.has_any_stone() {
            let mut ms: Vec<(usize, usize)> = Vec::new();
            ms.push((size / 2, size / 2));
            proof {
                assert(0 <= s / 2 < s) by (nonlinear_arith)
                    requires
                        1 <= s,
                ;
                assert(in_bounds(s, s / 2, s / 2));
                assert(m.grid[s / 2][s / 2] == EMPTY);
            }
            return ms;
        }
        let ply_c: usize = if ply < 31 {
            ply
        } else {
            31
        };
        let kp = self.killers[ply_c];
        let mut scored: Vec<((usize, usize), i64)> = Vec::new();
        let mut i: usize = 0;
        while i < size
            invariant
                self.wf(),
                game.wf(),
                game.model() == m,
                m == old(game).model(),
                s == m.grid.len() as int,
                s == size as int,
                self.size_spec() == s,
                1 <= s <= MAX_SIZE,
                ply_c as int == if (ply as int) < 31 { ply as int } else { 31int },
                (ply_c as int) < 32,
                kp == self.killer_pair(ply_c as int),
                i <= size,
                forall|k: int|
                    0 <= k < scored@.len() ==> {
                        let y = #[trigger] scored@[k];
                        &&& is_candidate(m.grid, s, y.0.0 as int, y.0.1 as int)
                        &&& y.1 as int == total_move_score(
                            *self,
                            m,
                            ply as int,
                            tt_move,
                            y.0.0 as int,
                            y.0.1 as int,
                        )
                    },
                forall|r: int, c: int|
                    is_candidate(m.grid, s, r, c) && r < i as int ==> exists|k: int|
                        0 <= k < scored@.len() && (#[trigger] scored@[k]).0.0 as int == r
                            && scored@[k].0.1 as int == c,
                forall|k: int|
                    0 <= k < scored@.len() ==> ((#[trigger] scored@[k]).0.0 as int) < i as int,
                forall|k1: int, k2: int|
                    0 <= k1 < k2 < scored@.len() ==> (#[trigger] scored@[k1]).0 != (
                    #[trigger] scored@[k2]).0,
            decreases size - i,
        {
            let mut j: usize = 0;
            while j < size
                invariant
                    self.wf(),
                    game.wf(),
                    game.model() == m,
                    s == m.grid.len() as int,
                    s == size as int,
                    self.size_spec() == s,
                    1 <= s <= MAX_SIZE,
                    ply_c as int == if (ply as int) < 31 { ply as int } else { 31int },
                    (ply_c as int) < 32,
                    kp == self.killer_pair(ply_c as int),
                    i < size,
                    j <= size,
                    forall|k: int|
                        0 <= k < scored@.len() ==> {
                            let y = #[trigger] scored@[k];
                            &&& is_candidate(m.grid, s, y.0.0 as int, y.0.1 as int)
                            &&& y.1 as int == total_move_score(
                                *self,
                                m,
                                ply as int,
                                tt_move,
                                y.0.0 as int,
                                y.0.1 as int,
                            )
                        },
                    forall|r: int, c: int|
                        is_candidate(m.grid, s, r, c) && r < i as int ==> exists|k: int|
                            0 <= k < scored@.len() && (#[trigger] scored@[k]).0.0 as int == r
                                && scored@[k].0.1 as int == c,
                    forall|c: int|
                        is_candidate(m.grid, s, i as int, c) && c < j as int ==> exists|k: int|
                            0 <= k < scored@.len() && (#[trigger] scored@[k]).0.0 as int == i as int
                                && scored@[k].0.1 as int == c,
                    forall|k: int|
                        0 <= k < scored@.len() ==> {
                            let y = #[trigger] scored@[k];
                            ||| (y.0.0 as int) < i as int
                            ||| (y.0.0 as int == i as int && (y.0.1 as int) < j as int)
                        },
                    forall|k1: int, k2: int|
                        0 <= k1 < k2 < scored@.len() ==> (#[trigger] scored@[k1]).0 != (
                        #[trigger] scored@[k2]).0,
                decreases size - j,
            {
                if game.cell(i, j) == EMPTY {
                    if game.has_neighbor(i, j) {
                        let base = game.score_move(i, j);
                        let mut sc: i64 = base;
                        match tt_move {
                            Some(mv) => {
                                if mv.0 == i && mv.1 == j {
                                    sc = sc + 10_000_000;
                                }
                            },
                            None => {},
                        }
                        let k0_hit = match kp.0 {
                            Some(k0) => k0.0 == i && k0.1 == j,
                            None => false,
                        };
                        let k1_hit = match kp.1 {
                            Some(k1) => k1.0 == i && k1.1 == j,
                            None => false,
                        };
                        if k0_hit {
                            sc = sc + 1_000_000;
                        } else if k1_hit {
                            sc = sc + 500_000;
                        }
                        let h = self.history[i][j];
                        sc = sc + h;
                        proof {
                            assert(0 <= h <= HIST_CAP);
                            assert(sc as int == total_move_score(
                                *self,
                                m,
                                ply as int,
                                tt_move,
                                i as int,
                                j as int,
                            ));
                        }
                        let ghost scored0 = scored@;
                        scored.push(((i, j), sc));
                        proof {
                            assert forall|r: int, c: int|
                                is_candidate(m.grid, s, r, c) && (r < i as int || (r == i as int
                                    && c < j as int)) implies exists|k: int|
                                0 <= k < scored@.len() && (#[trigger] scored@[k]).0.0 as int == r
                                    && scored@[k].0.1 as int == c by {
                                if r < i as int || (r == i as int && c < j as int) {
                                    let k0 = choose|k0: int|
                                        0 <= k0 < scored0.len() && (#[trigger] scored0[k0]).0.0
                                            as int == r && scored0[k0].0.1 as int == c;
                                    assert(scored@[k0] == scored0[k0]);
                                }
                            }
                            assert(scored@[scored@.len() - 1] == ((i, j), sc));
                            assert forall|k1: int, k2: int|
                                0 <= k1 < k2 < scored@.len() implies (#[trigger] scored@[k1]).0
                                != (#[trigger] scored@[k2]).0 by {
                                if k2 == scored@.len() - 1 {
                                    assert(scored@[k1] == scored0[k1]);
                                    assert((scored0[k1].0.0 as int) < i as int || (scored0[k1].0.0
                                        as int == i as int && (scored0[k1].0.1 as int) < j
                                        as int));
                                } else {
                                    assert(scored@[k1] == scored0[k1]);
                                    assert(scored@[k2] == scored0[k2]);
                                }
                            }
                        }
                    }
                }
                j = j + 1;
            }
            i = i + 1;
        }
        let sorted = sort_moves(scored);
        let lim: usize = if sorted.len() < 15 {
            sorted.len()
        } else {
            15
        };
        let mut ms: Vec<(usize, usize)> = Vec::new();
        let mut k: usize = 0;
        while k < lim
            invariant
                lim <= sorted@.len(),
                k <= lim,
                ms@.len() == k,
                forall|q: int| 0 <= q < k ==> #[trigger] ms@[q] == sorted@[q].0,
            decreases lim - k,
        {
            ms.push(sorted[k].0);
            k = k + 1;
        }
        proof {
            // every sorted element came from the collected candidates
            assert forall|q: int| 0 <= q < sorted@.len() implies {
                let y = #[trigger] sorted@[q];
                &&& is_candidate(m.grid, s, y.0.0 as int, y.0.1 as int)
                &&& y.1 as int == total_move_score(
                    *self,
                    m,
                    ply as int,
                    tt_move,
                    y.0.0 as int,
                    y.0.1 as int,
                )
            } by {
                assert(sorted@.contains(sorted@[q]));
                let idx = choose|idx: int|
                    0 <= idx < scored@.len() && scored@[idx] == sorted@[q];
            }
            // every candidate cell appears in the sorted listing
            assert forall|r: int, c: int| is_candidate(m.grid, s, r, c) implies exists|q: int|
                0 <= q < sorted@.len() && (#[trigger] sorted@[q]).0.0 as int == r
                    && sorted@[q].0.1 as int == c by {
                let k0 = choose|k0: int|
                    0 <= k0 < scored@.len() && (#[trigger] scored@[k0]).0.0 as int == r
                        && scored@[k0].0.1 as int == c;
                assert(sorted@.contains(scored@[k0]));
                let q0 = choose|q0: int| 0 <= q0 < sorted@.len() && sorted@[q0] == scored@[k0];
                assert(sorted@[q0].0.0 as int == r && sorted@[q0].0.1 as int == c);
            }
            assert(forall|k1: int, k2: int|
                0 <= k1 < k2 < scored@.len() ==> (#[trigger] scored@[k1]).0 != (
                #[trigger] scored@[k2]).0);
            assert(ranked_full(*self, m, ply as int, tt_move, sorted@));
            let taken = sorted@.take(if sorted@.len() < 15 {
                sorted@.len() as int
            } else {
                15int
            }).map_values(|y: ((usize, usize), i64)| y.0);
            assert(ms@ =~= taken);
            assert(is_ranked(*self, m, ply as int, tt_move, ms@));
        }
        ms
    }
}

/// The full ranking score of a candidate: base placement score plus the
/// transposition-hint, killer and history ordering boosts.
pub open spec fn total_move_score(
    ai: AI,
    m: GameModel,
    ply: int,
    ttm: Option<(usize, usize)>,
    r: int,
    c: int,
) -> int {
    let s = m.grid.len() as int;
    let p = if ply < 31 {
        ply
    } else {
        31
    };
    let kp = ai.killer_pair(p);
    move_base_spec(m.grid, s, r, c, m.turn) + (match ttm {
        Some(mv) => {
            if mv.0 == r && mv.1 == c {
                10_000_000int
            } else {
                0int
            }
        },
        None => 0int,
    }) + (if (match kp.0 {
        Some(k0) => k0.0 == r && k0.1 == c,
        None => false,
    }) {
        1_000_000int
    } else if (match kp.1 {
        Some(k1) => k1.0 == r && k1.1 == c,
        None => false,
    }) {
        500_000int
    } else {
        0int
    }) + ai.history_at(r, c)
}

/// A full, descending-sorted listing of every candidate with its ranking
/// score.
pub open spec fn ranked_full(
    ai: AI,
    m: GameModel,
    ply: int,
    ttm: Option<(usize, usize)>,
    full: Seq<((usize, usize), i64)>,
) -> bool {
    let s = m.grid.len() as int;
    &&& sorted_desc(full)
    &&& forall|k: int|
        0 <= k < full.len() ==> {
            let y = #[trigger] full[k];
            &&& is_candidate(m.grid, s, y.0.0 as int, y.0.1 as int)
            &&& y.1 as int == total_move_score(ai, m, ply, ttm, y.0.0 as int, y.0.1 as int)
        }
    &&& forall|r: int, c: int|
        is_candidate(m.grid, s, r, c) ==> exists|k: int|
            0 <= k < full.len() && (#[trigger] full[k]).0.0 as int == r && full[k].0.1 as int == c
    &&& forall|k1: int, k2: int|
        0 <= k1 < k2 < full.len() ==> (#[trigger] full[k1]).0 != (#[trigger] full[k2]).0
}

/// What the candidate ranker hands the search: the center alone on an
/// empty board, otherwise the top 15 of a descending-sorted listing of all
/// candidates.
pub open spec fn is_ranked(
    ai: AI,
    m: GameModel,
    ply: int,
    ttm: Option<(usize, usize)>,
    ms: Seq<(usize, usize)>,
) -> bool {
    let s = m.grid.len() as int;
    if board_empty(m.grid, s) {
        &&& ms.len() == 1
        &&& ms[0].0 as int == s / 2
        &&& ms[0].1 as int == s / 2
    } else {
        exists|full: Seq<((usize, usize), i64)>|
            {
                &&& #[trigger] ranked_full(ai, m, ply, ttm, full)
                &&& ms == full.take(if full.len() < 15 {
                    full.len() as int
                } else {
                    15int
                }).map_values(|y: ((usize, usize), i64)| y.0)
            }
    }
}


/// Placing a stone of `p` on the empty cell (r, c) completes a run of 5
/// or more.
pub open spec fn wins_for(m: GameModel, p: i8, r: int, c: int) -> bool {
    win_at(
        m.grid.update(r, m.grid[r].update(c, p)),
        m.grid.len() as int,
        r,
        c,
    )
}

/// The root score of answering candidate `c` with a one-ply search: the
/// negated static evaluation of the position after the placement.
pub open spec fn root_val(m: GameModel, c: (usize, usize)) -> int {
    -eval_spec(apply_spec(m, c.0 as int, c.1 as int))
}

/// What a one-ply root search picks from the ranked candidates `ms`: no
/// move when every answer is at or below the search floor, otherwise the
/// first candidate attaining the maximum negated static evaluation.
pub open spec fn depth_one_pick(m: GameModel, ms: Seq<(usize, usize)>, mv: Option<(usize, usize)>) -> bool {
    &&& ((forall|j: int| 0 <= j < ms.len() ==> #[trigger] root_val(m, ms[j]) <= -(INF as int))
        ==> mv is None)
    &&& ((exists|j: int| 0 <= j < ms.len() && #[trigger] root_val(m, ms[j]) > -(INF as int))
        ==> exists|k: int|
        {
            &&& 0 <= k < ms.len()
            &&& mv == Some(ms[k])
            &&& #[trigger] root_val(m, ms[k]) > -(INF as int)
            &&& forall|j: int| 0 <= j < k ==> root_val(m, ms[j]) < root_val(m, ms[k])
            &&& forall|j: int| 0 <= j < ms.len() ==> root_val(m, ms[j]) <= root_val(m, ms[k])
        })
}

/// Some listed candidate decides the move tactically: an immediate win
/// for the mover, or an opponent completion to block.
pub open spec fn tactical_hit(m: GameModel, ms: Seq<(usize, usize)>) -> bool {
    exists|i: int|
        0 <= i < ms.len() && (#[trigger] wins_for(m, m.turn, ms[i].0 as int, ms[i].1 as int)
            || wins_for(m, crate::eval::opponent(m.turn), ms[i].0 as int, ms[i].1 as int))
}

/// How the tactical phases pin the selected move: if some listed candidate
/// wins at once for the mover, the first such is returned; failing that,
/// if some listed candidate would win for the opponent, the first such is
/// returned as the forced block.
pub open spec fn find_move_post(
    m: GameModel,
    ms: Seq<(usize, usize)>,
    mv: Option<(usize, usize)>,
) -> bool {
    let opp = crate::eval::opponent(m.turn);
    &&& ((exists|i: int|
        0 <= i < ms.len() && #[trigger] wins_for(m, m.turn, ms[i].0 as int, ms[i].1 as int))
        ==> (exists|k: int|
        {
            &&& 0 <= k < ms.len()
            &&& #[trigger] wins_for(m, m.turn, ms[k].0 as int, ms[k].1 as int)
            &&& forall|i: int|
                0 <= i < k ==> !wins_for(m, m.turn, #[trigger] ms[i].0 as int, ms[i].1 as int)
            &&& mv == Some(ms[k])
        }))
    &&& ((forall|i: int|
        0 <= i < ms.len() ==> !wins_for(m, m.turn, #[trigger] ms[i].0 as int, ms[i].1 as int))
        && (exists|i: int|
        0 <= i < ms.len() && #[trigger] wins_for(m, opp, ms[i].0 as int, ms[i].1 as int)) ==> (
    exists|k: int|
        {
            &&& 0 <= k < ms.len()
            &&& #[trigger] wins_for(m, opp, ms[k].0 as int, ms[k].1 as int)
            &&& forall|i: int|
                0 <= i < k ==> !wins_for(m, opp, #[trigger] ms[i].0 as int, ms[i].1 as int)
            &&& mv == Some(ms[k])
        }))
}

/// No table writes, no killer writes, no history writes: the engine state
/// `a1` carries exactly the tables of `a0`.
pub open spec fn tables_unchanged(a0: AI, a1: AI) -> bool {
    &&& a1.tt_view() == a0.tt_view()
    &&& forall|q: int| 0 <= q < 32 ==> #[trigger] a1.killer_pair(q) == a0.killer_pair(q)
    &&& forall|r: int, c: int|
        in_bounds(a0.size_spec(), r, c) ==> #[trigger] a1.history_at(r, c) == a0.history_at(r, c)
}

/// The move hint a cache entry offers for the position hashed `h`, if any.
pub open spec fn tt_hint(ai: AI, h: u64) -> Option<(usize, usize)> {
    if ai.tt_view().contains_key(h) {
        ai.tt_view()[h].best_move
    } else {
        None
    }
}

/// Alpha after the cache probe raised it with a qualifying lower bound.
pub open spec fn tt_raised_alpha(ai: AI, h: u64, depth: i64, alpha: i64) -> i64 {
    if ai.tt_view().contains_key(h) {
        let e = ai.tt_view()[h];
        if e.depth >= depth && (e.flag is LowerBound) && e.score > alpha {
            e.score
        } else {
            alpha
        }
    } else {
        alpha
    }
}

/// The cache probe alone decides the node: a stored search at least as
/// deep whose score is exact, or whose bound empties the alpha-beta
/// window.
pub open spec fn tt_cutoff(ai: AI, h: u64, depth: i64, alpha: i64, beta: i64) -> bool {
    ai.tt_view().contains_key(h) && {
        let e = ai.tt_view()[h];
        e.depth >= depth && ((e.flag is Exact) || tt_raised_alpha(ai, h, depth, alpha) >= beta)
    }
}

/// What one searched node (probe did not cut, depth >= 1) returns and
/// stores, over a valid ranking `ms` of its candidates. A position without
/// candidates scores the neutral 0 and writes nothing. With an open window
/// and a listed immediate win, the score reaches the window edge or the
/// terminal value `WIN - depth`. Without a listed immediate win the node
/// completes and records its result for this hash - depth searched, score,
/// the alpha-beta bound kind, and a legal recommended move - unless a
/// strictly deeper result already stands there.
pub open spec fn negamax_search_post(
    ai0: AI,
    ai1: AI,
    m: GameModel,
    depth: i64,
    alpha0: i64,
    beta: i64,
    ms: Seq<(usize, usize)>,
    score: i64,
) -> bool {
    let s = m.grid.len() as int;
    let h = m.zhash;
    &&& (ms.len() == 0 ==> score == 0 && tables_unchanged(ai0, ai1))
    &&& ((ms.len() > 0 && alpha0 < beta && exists|i: int|
        0 <= i < ms.len() && #[trigger] wins_for(m, m.turn, ms[i].0 as int, ms[i].1 as int))
        ==> score as int >= if (beta as int) <= WIN - depth {
            beta as int
        } else {
            WIN - depth
        })
    &&& ((ms.len() > 0 && forall|i: int|
        0 <= i < ms.len() ==> !wins_for(m, m.turn, #[trigger] ms[i].0 as int, ms[i].1 as int))
        ==> {
        &&& ai1.tt_view().contains_key(h)
        &&& ((!ai0.tt_view().contains_key(h) || ai0.tt_view()[h].depth <= depth) ==> {
            let e = ai1.tt_view()[h];
            &&& e.depth == depth
            &&& e.score == score
            &&& (score <= alpha0 ==> e.flag is UpperBound)
            &&& (score > alpha0 && score >= beta ==> e.flag is LowerBound)
            &&& (alpha0 < score < beta ==> e.flag is Exact)
            &&& match e.best_move {
                Some(bm) => in_bounds(s, bm.0 as int, bm.1 as int) && m.grid[bm.0 as int][bm.1
                    as int] == EMPTY,
                None => true,
            }
        })
    })
}

impl AI {
    /// One negamax node with alpha-beta pruning: transposition lookup and
    /// possible cutoff, static evaluation at the horizon, otherwise the
    /// ranked candidates in order with paired apply/undo around every
    /// branch, killer/history updates on a cutoff, and a store of the
    /// result unless a strictly deeper one already stands for this hash.
    /// The position handed in is returned exactly as it was; the decided
    /// paths - cache cutoff, horizon, no candidates - leave every table
    /// untouched.
    pub fn negamax(&mut self, game: &mut Game, depth: i64, alpha: i64, beta: i64, ply: usize) -> (
        score: i64)
        requires
            old(self).wf(),
            old(game).wf(),
            old(self).size_spec() == old(game).model().grid.len() as int,
            0 <= depth <= MAX_DEPTH as i64,
            -SCORE_LIMIT <= alpha <= SCORE_LIMIT,
            -SCORE_LIMIT <= beta <= SCORE_LIMIT,
            ply as int + depth as int <= 2 * (MAX_DEPTH as int),
        ensures
            final(self).wf(),
            final(game).wf(),
            final(game).model() == old(game).model(),
            final(self).size_spec() == old(self).size_spec(),
            -SCORE_LIMIT <= score <= SCORE_LIMIT,
            forall|a: int, b: int|
                in_bounds(old(self).size_spec(), a, b) ==> #[trigger] final(self).history_at(a, b)
                    >= old(self).history_at(a, b),
            forall|k: u64|
                old(self).tt_view().contains_key(k)
                    ==> #[trigger] final(self).tt_view().contains_key(k),
            tt_cutoff(*old(self), old(game).model().zhash, depth, alpha, beta) ==> (score == old(
                self,
            ).tt_view()[old(game).model().zhash].score && tables_unchanged(
                *old(self),
                *final(self),
            )),
            (!tt_cutoff(*old(self), old(game).model().zhash, depth, alpha, beta) && depth == 0)
                ==> (score == eval_spec(old(game).model()) && tables_unchanged(
                *old(self),
                *final(self),
            )),
            (!tt_cutoff(*old(self), old(game).model().zhash, depth, alpha, beta) && depth >= 1)
                ==> exists|ms: Seq<(usize, usize)>|
                {
                    &&& #[trigger] is_ranked(
                        *old(self),
                        old(game).model(),
                        ply as int,
                        tt_hint(*old(self), old(game).model().zhash),
                        ms,
                    )
                    &&& negamax_search_post(
                        *old(self),
                        *final(self),
                        old(game).model(),
                        depth,
                        tt_raised_alpha(*old(self), old(game).model().zhash, depth, alpha),
                        beta,
                        ms,
                        score,
                    )
                },
        decreases depth,
    {
        let ghost m = game.model();
        let ghost s = m.grid.len() as int;
        let ghost h = m.zhash;
        proof {
            game.lemma_wf();
        }
        let hash = game.current_hash();
        proof {
            assert(hash == h);
        }
        let mut tt_move: Option<(usize, usize)> = None;
        let mut a = alpha;
        let mut keep_old = false;
        let looked = self.tt.get(&hash);
        match looked {
            Some(e) => {
                tt_move = e.best_move;
                if e.depth > depth {
                    keep_old = true;
                }
                if e.depth >= depth {
                    let mut cut = false;
                    match e.flag {
                        TTFlag::Exact => {
                            cut = true;
                        },
                        TTFlag::LowerBound => {
                            if e.score > a {
                                a = e.score;
                            }
                        },
                        TTFlag::UpperBound => {},
                    }
                    if cut || a >= beta {
                        proof {
                            assert(tt_cutoff(*old(self), h, depth, alpha, beta));
                        }
                        return e.score;
                    }
                }
            },
            None => {},
        }
        let ghost a0 = tt_raised_alpha(*old(self), h, depth, alpha);
        proof {
            assert(!tt_cutoff(*old(self), h, depth, alpha, beta));
            assert(a == a0);
            assert(tt_move == tt_hint(*old(self), h));
            assert(keep_old == (old(self).tt_view().contains_key(h) && old(
                self,
            ).tt_view()[h].depth > depth));
        }
        if depth <= 0 {
            return game.evaluate();
        }
        let moves = self.get_ordered_moves_phase1(game, ply, tt_move);
        if moves.len() == 0 {
            proof {
                assert(is_ranked(*old(self), m, ply as int, tt_hint(*old(self), h), moves@));
                assert(negamax_search_post(
                    *old(self),
                    *self,
                    m,
                    depth,
                    a0,
                    beta,
                    moves@,
                    0,
                ));
            }
            return 0;
        }
        let mut best_score: i64 = -INF;
        let mut best_move: Option<(usize, usize)> = None;
        let alpha_orig = a;
        let mut idx: usize = 0;
        let mut cut = false;
        while idx < moves.len() && !cut
            invariant
                self.wf(),
                game.wf(),
                game.model() == m,
                m == old(game).model(),
                h == m.zhash,
                s == m.grid.len() as int,
                1 <= s <= MAX_SIZE,
                self.size_spec() == s,
                self.size_spec() == old(self).size_spec(),
                m.turn == 1 || m.turn == 2,
                1 <= depth <= MAX_DEPTH as i64,
                ply as int + depth as int <= 2 * (MAX_DEPTH as int),
                -SCORE_LIMIT <= beta <= SCORE_LIMIT,
                -SCORE_LIMIT <= a <= SCORE_LIMIT,
                -SCORE_LIMIT <= best_score <= SCORE_LIMIT,
                alpha_orig == a0,
                a0 == tt_raised_alpha(*old(self), h, depth, alpha),
                !tt_cutoff(*old(self), h, depth, alpha, beta),
                keep_old == (old(self).tt_view().contains_key(h) && old(
                    self,
                ).tt_view()[h].depth > depth),
                is_ranked(*old(self), m, ply as int, tt_hint(*old(self), h), moves@),
                moves@.len() > 0,
                a == alpha_orig || a <= best_score,
                cut ==> best_score >= beta || alpha_orig >= beta,
                !cut ==> forall|j: int|
                    0 <= j < idx ==> !wins_for(m, m.turn, #[trigger] moves@[j].0 as int, moves@[j].1 as int),
                idx <= moves@.len(),
                forall|k: int|
                    0 <= k < moves@.len() ==> {
                        let mv = #[trigger] moves@[k];
                        &&& in_bounds(s, mv.0 as int, mv.1 as int)
                        &&& m.grid[mv.0 as int][mv.1 as int] == EMPTY
                    },
                match best_move {
                    Some(mv) => in_bounds(s, mv.0 as int, mv.1 as int) && m.grid[mv.0 as int][mv.1
                        as int] == EMPTY,
                    None => true,
                },
                forall|x: int, y: int|
                    in_bounds(s, x, y) ==> #[trigger] self.history_at(x, y) >= old(
                        self,
                    ).history_at(x, y),
                forall|k: u64|
                    old(self).tt_view().contains_key(k) ==> #[trigger] self.tt_view().contains_key(
                        k,
                    ),
            decreases moves@.len() - idx,
        {
            let mv = moves[idx];
            let row = mv.0;
            let col = mv.1;
            let player = game.current_player();
            proof {
                game.lemma_wf();
            }
            let ok = game.make_move(row, col);
            proof {
                assert(ok);
                assert(m.grid[row as int].len() == s);
            }
            if game.check_win(row, col) {
                let ghost mw = game.model();
                game.undo_move(row, col, player);
                proof {
                    assert(mw == apply_spec(m, row as int, col as int));
                    assert(player == m.turn);
                    crate::board::lemma_apply_undo(m, row as int, col as int);
                    assert(game.model() == crate::board::undo_spec(
                        mw,
                        row as int,
                        col as int,
                        player,
                    ));
                    assert(game.model() == m);
                    assert(wins_for(m, m.turn, moves@[idx as int].0 as int, moves@[idx as int].1 as int));
                    assert(is_ranked(*old(self), m, ply as int, tt_hint(*old(self), h), moves@));
                    assert(negamax_search_post(
                        *old(self),
                        *self,
                        m,
                        depth,
                        a0,
                        beta,
                        moves@,
                        (WIN - depth) as i64,
                    ));
                }
                return WIN - depth;
            }
            let child = self.negamax(game, depth - 1, -beta, -a, ply + 1);
            let score = -child;
            game.undo_move(row, col, player);
            proof {
                crate::board::lemma_apply_undo(m, row as int, col as int);
            }
            if score > best_score {
                best_score = score;
                best_move = Some((row, col));
            }
            if score > a {
                a = score;
            }
            if a >= beta {
                match best_move {
                    Some(bm) => {
                        proof {
                            assert(depth * depth <= 4096) by (nonlinear_arith)
                                requires
                                    1 <= depth <= 64,
                            ;
                        }
                        self.update_killers(ply, bm);
                        self.add_history(bm.0, bm.1, depth * depth);
                    },
                    None => {},
                }
                cut = true;
            }
            idx = idx + 1;
        }
        let flag = if best_score <= alpha_orig {
            TTFlag::UpperBound
        } else if best_score >= beta {
            TTFlag::LowerBound
        } else {
            TTFlag::Exact
        };
        let ghost tt0 = self.tt@;
        let ghost pre = *self;
        if !keep_old {
            self.tt.insert(hash, TTEntry { depth, score: best_score, flag, best_move });
        }
        proof {
            assert forall|k: u64| self.tt@.contains_key(k) implies tt_entry_wf(
                #[trigger] self.tt@[k],
            ) by {
                if k != hash || keep_old {
                    assert(tt0.contains_key(k));
                }
            }
            assert forall|x: int, y: int| in_bounds(s, x, y) implies #[trigger] self.history_at(
                x,
                y,
            ) >= old(self).history_at(x, y) by {
                assert(self.history_at(x, y) == pre.history_at(x, y));
                assert(pre.history_at(x, y) >= old(self).history_at(x, y));
            }
            assert forall|k: u64| old(self).tt_view().contains_key(k) implies #[trigger] self
                .tt_view().contains_key(k) by {
                assert(pre.tt_view().contains_key(k));
            }
            if cut {
                assert(best_score >= beta || alpha_orig >= beta);
            } else {
                assert(forall|j: int|
                    0 <= j < moves@.len() ==> !wins_for(m, m.turn, #[trigger] moves@[j].0 as int,
                        moves@[j].1 as int));
            }
            assert(self.tt_view().contains_key(h));
            if !keep_old {
                assert(self.tt_view()[h] == TTEntry { depth, score: best_score, flag, best_move });
            }
            // breakdown of the searched-node postcondition
            assert(moves@.len() > 0);
            if a0 < beta && (exists|i: int|
                0 <= i < moves@.len() && #[trigger] wins_for(m, m.turn, moves@[i].0 as int, moves@[i].1 as int)) {
                assert(cut);
                assert(best_score >= beta);
                assert(best_score as int >= if (beta as int) <= WIN - depth {
                    beta as int
                } else {
                    WIN - depth
                });
            }
            if (forall|i: int|
                0 <= i < moves@.len() ==> !wins_for(m, m.turn, #[trigger] moves@[i].0 as int,
                    moves@[i].1 as int)) {
                assert(self.tt_view().contains_key(h));
                if !(old(self).tt_view().contains_key(h) && old(self).tt_view()[h].depth > depth) {
                    assert(!keep_old);
                    let e = self.tt_view()[h];
                    assert(e.depth == depth);
                    assert(e.score == best_score);
                    assert(best_score <= a0 ==> e.flag is UpperBound);
                    assert(best_score > a0 && best_score >= beta ==> e.flag is LowerBound);
                    assert(a0 < best_score < beta ==> e.flag is Exact);
                }
            }
            assert(negamax_search_post(
                *old(self),
                *self,
                m,
                depth,
                a0,
                beta,
                moves@,
                best_score,
            ));
        }
        best_score
    }

    /// One full-width alpha-beta pass at a fixed depth from the root,
    /// returning the best root move found, if any move beats the search
    /// floor. For a depth-1 pass on a fresh cache the result is pinned
    /// exactly: the first ranked candidate with the best negated static
    /// evaluation, or no move when every answer sits at or below the
    /// floor.
    pub fn search_depth(&mut self, game: &mut Game, depth: usize) -> (mv: Option<(usize, usize)>)
        requires
            old(self).wf(),
            old(game).wf(),
            old(self).size_spec() == old(game).model().grid.len() as int,
            1 <= depth <= MAX_DEPTH,
        ensures
            final(self).wf(),
            final(game).wf(),
            final(game).model() == old(game).model(),
            final(self).size_spec() == old(self).size_spec(),
            mv matches Some(b) ==> {
                let m = old(game).model();
                let s = m.grid.len() as int;
                &&& in_bounds(s, b.0 as int, b.1 as int)
                &&& m.grid[b.0 as int][b.1 as int] == EMPTY
                &&& (board_empty(m.grid, s) ==> b.0 as int == s / 2 && b.1 as int == s / 2)
                &&& (!board_empty(m.grid, s) ==> is_candidate(m.grid, s, b.0 as int, b.1 as int))
            },
            (board_empty(old(game).model().grid, old(game).model().grid.len() as int) && old(
                self,
            ).tt_view() == Map::<u64, TTEntry>::empty() && depth == 1) ==> (mv matches Some(b)
                && b.0 as int == old(game).model().grid.len() as int / 2 && b.1 as int == old(
                game,
            ).model().grid.len() as int / 2),
            exists|ms: Seq<(usize, usize)>|
                {
                    &&& #[trigger] is_ranked(
                        *old(self),
                        old(game).model(),
                        0,
                        None::<(usize, usize)>,
                        ms,
                    )
                    &&& (ms.len() == 0 ==> mv is None)
                    &&& (mv matches Some(b) ==> exists|k: int| 0 <= k < ms.len() && ms[k] == b)
                    &&& ((depth == 1 && old(self).tt_view() == Map::<u64, TTEntry>::empty())
                        ==> depth_one_pick(old(game).model(), ms, mv))
                },
    {
        let ghost m = game.model();
        let ghost s = m.grid.len() as int;
        proof {
            game.lemma_wf();
        }
        let moves = self.get_ordered_moves_phase1(game, 0, None);
        let ghost pin = depth == 1 && old(self).tt_view() == Map::<u64, TTEntry>::empty();
        let ghost empty_case = board_empty(m.grid, s) && old(self).tt_view() == Map::<
            u64,
            TTEntry,
        >::empty() && depth == 1;
        let mut best: Option<(usize, usize)> = None;
        let mut a: i64 = -INF;
        let beta: i64 = INF;
        let mut idx: usize = 0;
        proof {
            if board_empty(m.grid, s) {
                assert(moves@.len() == 1);
            } else {
                let full = choose|full: Seq<((usize, usize), i64)>|
                    ranked_full(*self, m, 0, None::<(usize, usize)>, full) && moves@ == full.take(
                        if full.len() < 15 {
                            full.len() as int
                        } else {
                            15int
                        },
                    ).map_values(|y: ((usize, usize), i64)| y.0);
                assert forall|k: int| 0 <= k < moves@.len() implies is_candidate(
                    m.grid,
                    s,
                    (#[trigger] moves@[k]).0 as int,
                    moves@[k].1 as int,
                ) by {
                    assert(moves@[k] == full.take(
                        if full.len() < 15 {
                            full.len() as int
                        } else {
                            15int
                        },
                    ).map_values(|y: ((usize, usize), i64)| y.0)[k]);
                    assert(full[k].0 == moves@[k]);
                }
            }
        }
        while idx < moves.len()
            invariant
                self.wf(),
                game.wf(),
                game.model() == m,
                m == old(game).model(),
                s == m.grid.len() as int,
                1 <= s <= MAX_SIZE,
                self.size_spec() == s,
                self.size_spec() == old(self).size_spec(),
                m.turn == 1 || m.turn == 2,
                1 <= depth <= MAX_DEPTH,
                idx <= moves@.len(),
                -SCORE_LIMIT <= a <= SCORE_LIMIT,
                beta == INF,
                forall|k: int|
                    0 <= k < moves@.len() ==> {
                        let mv = #[trigger] moves@[k];
                        &&& in_bounds(s, mv.0 as int, mv.1 as int)
                        &&& m.grid[mv.0 as int][mv.1 as int] == EMPTY
                    },
                forall|k: int|
                    0 <= k < moves@.len() && !board_empty(m.grid, s) ==> is_candidate(
                        m.grid,
                        s,
                        (#[trigger] moves@[k]).0 as int,
                        moves@[k].1 as int,
                    ),
                board_empty(m.grid, s) ==> moves@.len() == 1 && moves@[0].0 as int == s / 2
                    && moves@[0].1 as int == s / 2,
                match best {
                    Some(b) => {
                        &&& in_bounds(s, b.0 as int, b.1 as int)
                        &&& m.grid[b.0 as int][b.1 as int] == EMPTY
                        &&& (board_empty(m.grid, s) ==> b.0 as int == s / 2 && b.1 as int == s
                            / 2)
                        &&& (!board_empty(m.grid, s) ==> is_candidate(
                            m.grid,
                            s,
                            b.0 as int,
                            b.1 as int,
                        ))
                    },
                    None => true,
                },
                empty_case == (board_empty(m.grid, s) && old(self).tt_view() == Map::<
                    u64,
                    TTEntry,
                >::empty() && depth == 1),
                empty_case && idx > 0 ==> (best matches Some(b) && b.0 as int == s / 2
                    && b.1 as int == s / 2),
                empty_case && idx == 0 ==> self.tt_view() == Map::<u64, TTEntry>::empty(),
                idx == 0 ==> a == -INF && best matches None::<(usize, usize)>,
                is_ranked(*old(self), m, 0, None::<(usize, usize)>, moves@),
                match best {
                    Some(b) => exists|k: int| 0 <= k < idx && moves@[k] == b,
                    None => true,
                },
                pin == (depth == 1 && old(self).tt_view() == Map::<u64, TTEntry>::empty()),
                pin ==> self.tt_view() == Map::<u64, TTEntry>::empty(),
                pin ==> match best {
                    None => a == -INF && (forall|j: int|
                        0 <= j < idx ==> #[trigger] root_val(m, moves@[j]) <= -(INF as int)),
                    Some(b) => exists|k: int|
                        {
                            &&& 0 <= k < idx
                            &&& moves@[k] == b
                            &&& a as int == root_val(m, moves@[k])
                            &&& #[trigger] root_val(m, moves@[k]) > -(INF as int)
                            &&& forall|j: int|
                                0 <= j < k ==> #[trigger] root_val(m, moves@[j]) < root_val(
                                    m,
                                    moves@[k],
                                )
                            &&& forall|j: int|
                                0 <= j < idx ==> #[trigger] root_val(m, moves@[j]) <= root_val(
                                    m,
                                    moves@[k],
                                )
                        },
                },
            decreases moves@.len() - idx,
        {
            let mv = moves[idx];
            let row = mv.0;
            let col = mv.1;
            let player = game.current_player();
            proof {
                game.lemma_wf();
            }
            let ok = game.make_move(row, col);
            proof {
                assert(ok);
                assert(m.grid[row as int].len() == s);
            }
            let ghost m1 = game.model();
            let child = self.negamax(game, depth as i64 - 1, -beta, -a, 1);
            let score = -child;
            game.undo_move(row, col, player);
            proof {
                crate::board::lemma_apply_undo(m, row as int, col as int);
                if empty_case && idx == 0 {
                    // the center reply is evaluated statically: the mover
                    // to come has no stone, so the score cannot be positive
                    assert(m1 == apply_spec(m, row as int, col as int));
                    let g1 = m1.grid;
                    assert forall|x: int, y: int| 0 <= x < s && 0 <= y < s implies g1[x][y]
                        != m1.turn by {
                        if x == row as int && y == col as int {
                            assert(g1[x][y] == m.turn);
                        } else {
                            assert(g1[x] == if x == row as int {
                                m.grid[row as int].update(col as int, m.turn)
                            } else {
                                m.grid[x]
                            });
                            assert(g1[x][y] == m.grid[x][y]);
                            assert(m.grid[x][y] == EMPTY);
                        }
                    }
                    crate::eval::lemma_player_score_zero(g1, s, m1.turn);
                    crate::eval::lemma_player_score_bounds(g1, s, crate::eval::opponent(m1.turn));
                    let opp_sc = crate::eval::player_score(g1, s, crate::eval::opponent(m1.turn));
                    assert((opp_sc * 11) / 10 >= 0) by (nonlinear_arith)
                        requires
                            opp_sc >= 0,
                    ;
                    assert(eval_spec(m1) <= 0);
                    assert(child == eval_spec(m1));
                    assert(score >= 0);
                }
            }
            let ghost a_prev = a;
            let ghost best_prev = best;
            if score > a {
                a = score;
                best = Some((row, col));
            }
            proof {
                if empty_case && idx == 0 {
                    assert(score > -INF);
                    assert(best matches Some(b) && b.0 as int == s / 2 && b.1 as int == s / 2);
                }
                if pin {
                    assert(child == eval_spec(m1));
                    assert(m1 == apply_spec(m, row as int, col as int));
                    assert(score as int == root_val(m, moves@[idx as int]));
                    if score > a_prev {
                        // the new best strictly beats everything before it
                        assert forall|j: int| 0 <= j < idx as int implies #[trigger] root_val(
                            m,
                            moves@[j],
                        ) < root_val(m, moves@[idx as int]) by {
                            match best_prev {
                                None => {
                                    assert(root_val(m, moves@[j]) <= -(INF as int));
                                },
                                Some(b) => {
                                    let kprev = choose|k: int|
                                        0 <= k < idx as int && moves@[k] == b && a_prev as int
                                            == root_val(m, moves@[k]) && #[trigger] root_val(
                                            m,
                                            moves@[k],
                                        ) > -(INF as int);
                                    assert(root_val(m, moves@[j]) <= a_prev as int);
                                },
                            }
                        }
                        assert(root_val(m, moves@[idx as int]) > -(INF as int));
                    } else {
                        // the previous best still dominates
                        match best_prev {
                            None => {
                                assert(score <= a_prev && a_prev == -INF);
                                assert(root_val(m, moves@[idx as int]) <= -(INF as int));
                            },
                            Some(b) => {
                                let kprev = choose|k: int|
                                    0 <= k < idx as int && moves@[k] == b && a_prev as int
                                        == root_val(m, moves@[k]) && #[trigger] root_val(
                                        m,
                                        moves@[k],
                                    ) > -(INF as int);
                                assert(root_val(m, moves@[idx as int]) <= a_prev as int);
                            },
                        }
                    }
                }
            }
            idx = idx + 1;
        }
        best
    }
}


impl AI {
    /// Top-level move selection: the first ranked candidate that wins at
    /// once for the side to move; failing that, the first that would win
    /// for the opponent, as a forced block; failing that, iterative
    /// deepening from depth 1 to `depth`, each completed pass overwriting
    /// the previous best root move. A move decided tactically leaves the
    /// engine's tables untouched: no search ran. With no candidate cell at all (a full
    /// board) there is no move; otherwise a pass keeps a move exactly when
    /// some root line scores above the search floor, so on a position every
    /// line of which is already lost beyond the floor the search can still
    /// report no move.
    #[verifier::rlimit(60)]
    pub fn find_move(&mut self, game: &Game, depth: usize) -> (mv: Option<(usize, usize)>)
        requires
            old(self).wf(),
            game.wf(),
            old(self).size_spec() == game.model().grid.len() as int,
            1 <= depth <= MAX_DEPTH,
        ensures
            final(self).wf(),
            final(self).size_spec() == old(self).size_spec(),
            mv matches Some(b) ==> in_bounds(game.model().grid.len() as int, b.0 as int, b.1 as int)
                && game.model().grid[b.0 as int][b.1 as int] == EMPTY,
            exists|ms: Seq<(usize, usize)>|
                {
                    &&& #[trigger] is_ranked(
                        *old(self),
                        game.model(),
                        0,
                        None::<(usize, usize)>,
                        ms,
                    )
                    &&& find_move_post(game.model(), ms, mv)
                    &&& (ms.len() == 0 ==> mv is None)
                    &&& (tactical_hit(game.model(), ms) ==> tables_unchanged(
                        *old(self),
                        *final(self),
                    ))
                },
            (board_empty(game.model().grid, game.model().grid.len() as int) && old(self).tt_view()
                == Map::<u64, TTEntry>::empty()) ==> (mv matches Some(b) && b.0 as int
                == game.model().grid.len() as int / 2 && b.1 as int == game.model().grid.len()
                as int / 2),
            (depth == 1 && old(self).tt_view() == Map::<u64, TTEntry>::empty()) ==> exists|ms: Seq<
                (usize, usize),
            >|
                {
                    &&& #[trigger] is_ranked(*old(self), game.model(), 0, None::<(usize, usize)>, ms)
                    &&& (!tactical_hit(game.model(), ms) ==> depth_one_pick(game.model(), ms, mv))
                },
    {
        let ghost m = game.model();
        let ghost s = m.grid.len() as int;
        proof {
            game.lemma_wf();
        }
        let mut g = game.duplicate();
        let moves = self.get_ordered_moves_phase1(&mut g, 0, None);
        let me = g.current_player();
        let mut idx: usize = 0;
        while idx < moves.len()
            invariant
                self.wf(),
                self.size_spec() == old(self).size_spec(),
                tables_unchanged(*old(self), *self),
                *self == *old(self),
                g.wf(),
                g.model() == m,
                m == game.model(),
                s == m.grid.len() as int,
                1 <= s <= MAX_SIZE,
                me == m.turn,
                me == 1 || me == 2,
                idx <= moves@.len(),
                is_ranked(*old(self), m, 0, None::<(usize, usize)>, moves@),
                forall|k: int|
                    0 <= k < moves@.len() ==> {
                        let c = #[trigger] moves@[k];
                        &&& in_bounds(s, c.0 as int, c.1 as int)
                        &&& m.grid[c.0 as int][c.1 as int] == EMPTY
                    },
                forall|j: int|
                    0 <= j < idx ==> !wins_for(m, m.turn, #[trigger] moves@[j].0 as int, moves@[j].1 as int),
            decreases moves@.len() - idx,
        {
            let cand = moves[idx];
            proof {
                g.lemma_wf();
            }
            if g.would_win(me, cand.0, cand.1) {
                proof {
                    assert(wins_for(m, m.turn, cand.0 as int, cand.1 as int));
                    assert(find_move_post(m, moves@, Some(moves@[idx as int])));
                    if board_empty(m.grid, s) {
                        assert(moves@.len() == 1 && idx == 0);
                    }
                }
                return Some(cand);
            }
            idx = idx + 1;
        }
        let opp = 3 - me;
        let mut idx2: usize = 0;
        while idx2 < moves.len()
            invariant
                self.wf(),
                self.size_spec() == old(self).size_spec(),
                tables_unchanged(*old(self), *self),
                *self == *old(self),
                g.wf(),
                g.model() == m,
                m == game.model(),
                s == m.grid.len() as int,
                1 <= s <= MAX_SIZE,
                me == m.turn,
                me == 1 || me == 2,
                opp == crate::eval::opponent(m.turn),
                opp == 1 || opp == 2,
                idx2 <= moves@.len(),
                is_ranked(*old(self), m, 0, None::<(usize, usize)>, moves@),
                forall|k: int|
                    0 <= k < moves@.len() ==> {
                        let c = #[trigger] moves@[k];
                        &&& in_bounds(s, c.0 as int, c.1 as int)
                        &&& m.grid[c.0 as int][c.1 as int] == EMPTY
                    },
                forall|j: int|
                    0 <= j < moves@.len() ==> !wins_for(m, m.turn, #[trigger] moves@[j].0 as int,
                        moves@[j].1 as int),
                forall|j: int|
                    0 <= j < idx2 ==> !wins_for(m, opp, #[trigger] moves@[j].0 as int, moves@[j].1 as int),
            decreases moves@.len() - idx2,
        {
            let cand = moves[idx2];
            proof {
                g.lemma_wf();
            }
            if g.would_win(opp, cand.0, cand.1) {
                proof {
                    assert(wins_for(m, opp, cand.0 as int, cand.1 as int));
                    assert(find_move_post(m, moves@, Some(moves@[idx2 as int])));
                    if board_empty(m.grid, s) {
                        assert(moves@.len() == 1 && idx2 == 0);
                    }
                }
                return Some(cand);
            }
            idx2 = idx2 + 1;
        }
        proof {
            if moves@.len() == 0 {
                assert(!board_empty(m.grid, s));
                let full = choose|full: Seq<((usize, usize), i64)>|
                    ranked_full(*old(self), m, 0, None::<(usize, usize)>, full) && moves@
                        == full.take(
                        if full.len() < 15 {
                            full.len() as int
                        } else {
                            15int
                        },
                    ).map_values(|y: ((usize, usize), i64)| y.0);
                assert(full.len() == 0);
                assert forall|r: int, c: int| !is_candidate(m.grid, s, r, c) by {
                    if is_candidate(m.grid, s, r, c) {
                        let k = choose|k: int|
                            0 <= k < full.len() && (#[trigger] full[k]).0.0 as int == r
                                && full[k].0.1 as int == c;
                    }
                }
            }
        }
        let ghost no_cand = moves@.len() == 0;
        let ghost pin2 = depth == 1 && old(self).tt_view() == Map::<u64, TTEntry>::empty();
        let mut best: Option<(usize, usize)> = None;
        let mut d: usize = 1;
        while d <= depth
            invariant
                pin2 == (depth == 1 && old(self).tt_view() == Map::<u64, TTEntry>::empty()),
                d == 1 ==> *self == *old(self) && best is None,
                pin2 && d > 1 ==> exists|ms: Seq<(usize, usize)>|
                    {
                        &&& #[trigger] is_ranked(*old(self), m, 0, None::<(usize, usize)>, ms)
                        &&& depth_one_pick(m, ms, best)
                    },
                self.wf(),
                self.size_spec() == old(self).size_spec(),
                self.size_spec() == s,
                g.wf(),
                g.model() == m,
                m == game.model(),
                s == m.grid.len() as int,
                1 <= s <= MAX_SIZE,
                1 <= depth <= MAX_DEPTH,
                1 <= d <= depth + 1,
                is_ranked(*old(self), m, 0, None::<(usize, usize)>, moves@),
                forall|j: int|
                    0 <= j < moves@.len() ==> !wins_for(m, m.turn, #[trigger] moves@[j].0 as int,
                        moves@[j].1 as int),
                forall|j: int|
                    0 <= j < moves@.len() ==> !wins_for(
                        m,
                        crate::eval::opponent(m.turn),
                        #[trigger] moves@[j].0 as int,
                        moves@[j].1 as int,
                    ),
                no_cand == (moves@.len() == 0),
                no_cand ==> (forall|r: int, c: int| !is_candidate(m.grid, s, r, c))
                    && !board_empty(m.grid, s),
                no_cand ==> best is None,
                match best {
                    Some(b) => {
                        &&& in_bounds(s, b.0 as int, b.1 as int)
                        &&& m.grid[b.0 as int][b.1 as int] == EMPTY
                        &&& (board_empty(m.grid, s) ==> b.0 as int == s / 2 && b.1 as int == s
                            / 2)
                    },
                    None => true,
                },
                (board_empty(m.grid, s) && old(self).tt_view() == Map::<u64, TTEntry>::empty())
                    ==> ((d == 1 && self.tt_view() == old(self).tt_view()) || (best matches Some(
                    b,
                ) && b.0 as int == s / 2 && b.1 as int == s / 2)),
            decreases depth - d + 1,
        {
            let ghost best_before = best;
            let found = self.search_depth(&mut g, d);
            match found {
                Some(b) => {
                    proof {
                        if no_cand {
                            assert(is_candidate(m.grid, s, b.0 as int, b.1 as int));
                            assert(false);
                        }
                    }
                    best = Some(b);
                },
                None => {},
            }
            proof {
                if pin2 && d == 1 {
                    let ms_sd = choose|ms: Seq<(usize, usize)>|
                        #[trigger] is_ranked(*old(self), m, 0, None::<(usize, usize)>, ms)
                            && depth_one_pick(m, ms, found);
                    assert(best == found);
                    assert(is_ranked(*old(self), m, 0, None::<(usize, usize)>, ms_sd));
                    assert(depth_one_pick(m, ms_sd, best));
                }
            }
            d = d + 1;
        }
        proof {
            assert(find_move_post(m, moves@, best));
        }
        best
    }
}

} // verus!
