//! Cross-cutting guarantees of the engine, stated and proved over the
//! same specification functions that the executable contracts use.

use vstd::prelude::*;

use crate::board::{
    apply_spec, lemma_apply_undo, run_len, undo_spec, win_at, GameModel,
};
use crate::host::win_status_spec;
use crate::EMPTY;

verus! {

/// Every placement in the sequence lands, in order, on an in-range empty
/// cell.
pub open spec fn can_apply_all(m: GameModel, ms: Seq<(int, int)>) -> bool
    decreases ms.len(),
{
    if ms.len() == 0 {
        true
    } else {
        let mv = ms[0];
        &&& 0 <= mv.0 < m.grid.len()
        &&& 0 <= mv.1 < m.grid[mv.0].len()
        &&& m.grid[mv.0][mv.1] == EMPTY
        &&& can_apply_all(apply_spec(m, mv.0, mv.1), ms.drop_first())
    }
}

/// The position after applying the placements in order.
pub open spec fn apply_all(m: GameModel, ms: Seq<(int, int)>) -> GameModel
    decreases ms.len(),
{
    if ms.len() == 0 {
        m
    } else {
        apply_all(apply_spec(m, ms[0].0, ms[0].1), ms.drop_first())
    }
}

/// The applied placements together with the player who made each one.
pub open spec fn trace_of(m: GameModel, ms: Seq<(int, int)>) -> Seq<(int, int, i8)>
    decreases ms.len(),
{
    if ms.len() == 0 {
        Seq::empty()
    } else {
        seq![(ms[0].0, ms[0].1, m.turn)] + trace_of(apply_spec(m, ms[0].0, ms[0].1), ms.drop_first())
    }
}

/// The position after undoing the traced placements from the last one back
/// to the first.
pub open spec fn undo_all(g: GameModel, tr: Seq<(int, int, i8)>) -> GameModel
    decreases tr.len(),
{
    if tr.len() == 0 {
        g
    } else {
        let x = tr.last();
        undo_all(undo_spec(g, x.0, x.1, x.2), tr.drop_last())
    }
}

proof fn lemma_undo_all_append(g: GameModel, a: Seq<(int, int, i8)>, b: Seq<(int, int, i8)>)
    ensures
        undo_all(g, a + b) == undo_all(undo_all(g, b), a),
    decreases b.len(),
{
    if b.len() == 0 {
        assert(a + b =~= a);
    } else {
        let x = b.last();
        assert((a + b).last() == x);
        assert((a + b).drop_last() =~= a + b.drop_last());
        lemma_undo_all_append(undo_spec(g, x.0, x.1, x.2), a, b.drop_last());
    }
}

/// Hash self-inverse: applying any legal sequence of placements and then
/// undoing the same placements in reverse order, each with the player who
/// made it, restores the position exactly - in particular the hash
/// returns to its original value.
pub proof fn lemma_apply_undo_all(m: GameModel, ms: Seq<(int, int)>)
    requires
        can_apply_all(m, ms),
    ensures
        undo_all(apply_all(m, ms), trace_of(m, ms)) == m,
        undo_all(apply_all(m, ms), trace_of(m, ms)).zhash == m.zhash,
    decreases ms.len(),
{
    if ms.len() > 0 {
        let mv = ms[0];
        let m1 = apply_spec(m, mv.0, mv.1);
        lemma_apply_undo(m, mv.0, mv.1);
        lemma_apply_undo_all(m1, ms.drop_first());
        let head = seq![(mv.0, mv.1, m.turn)];
        let rest_tr = trace_of(m1, ms.drop_first());
        assert(trace_of(m, ms) == head + rest_tr);
        assert(apply_all(m, ms) == apply_all(m1, ms.drop_first()));
        lemma_undo_all_append(apply_all(m1, ms.drop_first()), head, rest_tr);
        assert(undo_all(apply_all(m1, ms.drop_first()), rest_tr) == m1);
        assert(head.drop_last() =~= Seq::<(int, int, i8)>::empty());
        assert(head.len() == 1);
        assert(head.last() == (mv.0, mv.1, m.turn));
        assert(undo_all(undo_spec(m1, mv.0, mv.1, m.turn), head.drop_last()) == undo_spec(
            m1,
            mv.0,
            mv.1,
            m.turn,
        ));
        assert(undo_all(m1, head) == undo_spec(m1, mv.0, mv.1, m.turn));
    }
}

/// Win-check agreement: the standalone host-facing status and the engine's
/// internal win predicate agree on every grid and cell - the status claims
/// a win exactly when the engine's check does, and then names the player
/// standing on the anchor cell.
pub proof fn lemma_win_check_agreement(g: Seq<Seq<i8>>, size: int, r: int, c: int)
    ensures
        win_status_spec(g, size, r, c).is_win == win_at(g, size, r, c),
        win_at(g, size, r, c) ==> win_status_spec(g, size, r, c).winner == Some(g[r][c]),
        !win_at(g, size, r, c) ==> win_status_spec(g, size, r, c).winner is None,
{
}

/// Run-length exactness: a stone whose runs are all of length 4 or less
/// wins in no direction, and one with a run of 5 or more in any of the
/// four directions wins.
pub proof fn lemma_run_length_exactness(g: Seq<Seq<i8>>, size: int, r: int, c: int)
    ensures
        (forall|d: int| 0 <= d < 4 ==> #[trigger] run_len(g, size, r, c, d) <= 4) ==> !win_at(
            g,
            size,
            r,
            c,
        ),
        (g[r][c] != EMPTY && exists|d: int|
            0 <= d < 4 && #[trigger] run_len(g, size, r, c, d) >= 5) ==> win_at(g, size, r, c),
{
}

} // verus!
