//! Upper bounds on the score reachable from a position, for branch-and-bound
//! pruning. They are admissible: no game played on from a position scores
//! more than its bound. They are also loose, for speed.
use crate::game::board::{in_margin, Pos, MARGIN, OFFSET};
use crate::game::moves::{is_legal, Move};
use crate::game::state::{
    all_points, cells_follow_history, lemma_play_records, placeable, view_play, GameState, GameView,
};
use crate::search::nrpa::macros::applied;
use crate::search::systematic::{lemma_legal_view, legal_step, legal_view, path_legal};
use vstd::prelude::*;

verus! {

/// The number of cells on which a point may be placed: the grid less its
/// margin, `120 × 120`.
pub const PLACEABLE_CELLS: u32 = 14400;

/// `c` can be played on from `v`: each move legal in turn, and each on the
/// grid, as `GameState::apply` requires.
pub open spec fn continuation(v: GameView, c: Seq<Move>) -> bool {
    &&& path_legal(v, c)
    &&& forall|i: int| 0 <= i < c.len() ==> placeable(#[trigger] c[i])
}

/// The number of a placeable cell, row by row, in `0 .. PLACEABLE_CELLS`.
pub open spec fn cell_number(p: Pos) -> int {
    (p.0 + OFFSET - MARGIN) * 120 + (p.1 + OFFSET - MARGIN)
}

/// Distinct placeable points are at most as many as the placeable cells.
proof fn lemma_placeable_count(s: Seq<Pos>)
    requires
        s.no_duplicates(),
        forall|i: int| 0 <= i < s.len() ==> in_margin(#[trigger] s[i]),
    ensures
        s.len() <= PLACEABLE_CELLS,
{
    let t = s.map_values(|p: Pos| cell_number(p));
    assert forall|i: int, j: int| 0 <= i < t.len() && 0 <= j < t.len() && i != j implies t[i] != t[j] by {
        let a = s[i];
        let b = s[j];
        assert(in_margin(a) && in_margin(b));
        let ax = a.0 + OFFSET - MARGIN;
        let ay = a.1 + OFFSET - MARGIN;
        let bx = b.0 + OFFSET - MARGIN;
        let by = b.1 + OFFSET - MARGIN;
        assert(ax != bx || ay != by);
        assert(ax * 120 + ay != bx * 120 + by) by (nonlinear_arith)
            requires
                0 <= ax < 120,
                0 <= ay < 120,
                0 <= bx < 120,
                0 <= by < 120,
                ax != bx || ay != by,
        ;
    }
    assert(t.no_duplicates());
    t.unique_seq_to_set();
    vstd::set_lib::lemma_int_range(0, 14400);
    assert forall|x: int| t.to_set().contains(x) implies vstd::set_lib::set_int_range(0, 14400).contains(x) by {
        let i = choose|i: int| 0 <= i < t.len() && t[i] == x;
        let a = s[i];
        assert(in_margin(a));
        let ax = a.0 + OFFSET - MARGIN;
        let ay = a.1 + OFFSET - MARGIN;
        assert(0 <= ax * 120 + ay < 14400) by (nonlinear_arith)
            requires
                0 <= ax < 120,
                0 <= ay < 120,
        ;
    }
    vstd::set_lib::lemma_len_subset(t.to_set(), vstd::set_lib::set_int_range(0, 14400));
}

/// The moves played in turn from a position equal the abstract play.
proof fn lemma_applied_is_play(v: GameView, s: Seq<Move>)
    ensures
        applied(v, s) == view_play(v, s),
    decreases s.len(),
{
    reveal(applied);
    if s.len() > 0 {
        lemma_applied_is_play(v, s.drop_last());
    }
}

/// A continuation places new points, each once, on free placeable cells: the
/// cells of `v` followed by the continuation's points have no repeats.
proof fn lemma_continuation_points(v: GameView, c: Seq<Move>)
    requires
        cells_follow_history(v),
        continuation(v, c),
    ensures
        (v.cells + c.map_values(|m: Move| m.pos)).no_duplicates(),
{
    let ps = c.map_values(|m: Move| m.pos);
    let all = v.cells + ps;
    assert forall|j: int| 0 <= j < c.len() implies !v.cells.contains(#[trigger] c[j].pos) && forall|i: int|
        0 <= i < j ==> c[i].pos != c[j].pos by {
        assert(legal_step(v, c, j));
        reveal(legal_step);
        let w = applied(v, c.take(j));
        assert(legal_view(w, c[j]));
        lemma_applied_is_play(v, c.take(j));
        lemma_play_records(v, c.take(j));
        assert(!w.occupied.contains(c[j].pos));
        assert(v.occupied == v.cells.to_set());
        if v.cells.contains(c[j].pos) {
            assert(v.occupied.contains(c[j].pos));
        }
        assert forall|i: int| 0 <= i < j implies c[i].pos != c[j].pos by {
            assert(c.take(j)[i] == c[i]);
            assert(crate::game::state::points_of(c.take(j)).contains(c[i].pos));
        }
    }
    assert forall|a: int, b: int| 0 <= a < all.len() && 0 <= b < all.len() && a != b implies all[a] != all[b] by {
        let cl = v.cells.len() as int;
        if a < cl && b < cl {
            assert(all_points(v)[a] == v.cells[a] && all_points(v)[b] == v.cells[b]);
        } else if a < cl {
            assert(all[b] == c[b - cl].pos);
            assert(v.cells.contains(all[a]));
        } else if b < cl {
            assert(all[a] == c[a - cl].pos);
            assert(v.cells.contains(all[b]));
        } else if a < b {
            assert(all[a] == c[a - cl].pos && all[b] == c[b - cl].pos);
        } else {
            assert(all[a] == c[a - cl].pos && all[b] == c[b - cl].pos);
        }
    }
}

/// An admissible bound on the total score reachable from `state`, given the
/// number `legal_count` of its legal moves: with none the game is over and the
/// bound is the score; otherwise every further move places a new point on a
/// free placeable cell, so the bound is the score plus the number of free
/// placeable cells.
pub fn upper_bound(state: &GameState, legal_count: usize) -> (r: u32)
    requires
        state.wf(),
        cells_follow_history(state@),
        legal_count == 0 ==> forall|m: Move| !is_legal(state, m),
    ensures
        r == if legal_count == 0 {
            state.history@.len() as int
        } else {
            state.history@.len() + PLACEABLE_CELLS - state.board.cells@.len()
        },
        forall|c: Seq<Move>| continuation(state@, c) ==> state.history@.len() + c.len() <= r,
{
    let ghost v = state@;
    proof {
        assert(v.cells + Seq::<Move>::empty().map_values(|m: Move| m.pos) =~= v.cells);
        assert forall|i: int| 0 <= i < v.cells.len() implies in_margin(#[trigger] v.cells[i]) by {
            state.board.lemma_cells_in_margin(i);
        }
        assert(v.cells.no_duplicates()) by {
            assert forall|a: int, b: int| 0 <= a < v.cells.len() && 0 <= b < v.cells.len() && a != b implies v.cells[a]
                != v.cells[b] by {
                assert(all_points(v)[a] == v.cells[a] && all_points(v)[b] == v.cells[b]);
            }
        }
        lemma_placeable_count(v.cells);
        assert forall|c: Seq<Move>| continuation(v, c) implies v.history.len() + c.len() <= (if legal_count == 0 {
            v.history.len() as int
        } else {
            v.history.len() + PLACEABLE_CELLS - v.cells.len()
        }) by {
            if c.len() > 0 && legal_count == 0 {
                assert(legal_step(v, c, 0));
                reveal(legal_step);
                assert(c.take(0) =~= Seq::<Move>::empty());
                assert(applied(v, Seq::<Move>::empty()) == v) by {
                    reveal(applied);
                }
                lemma_legal_view(state, c[0]);
            }
            lemma_continuation_points(v, c);
            let all = v.cells + c.map_values(|m: Move| m.pos);
            assert forall|i: int| 0 <= i < all.len() implies in_margin(#[trigger] all[i]) by {
                if i >= v.cells.len() {
                    assert(all[i] == c[i - v.cells.len()].pos);
                    assert(placeable(c[i - v.cells.len()]));
                }
            }
            lemma_placeable_count(all);
        }
    }
    let score = state.history.len() as u32;
    if legal_count == 0 {
        return score;
    }
    score + (PLACEABLE_CELLS - state.board.cells.len() as u32)
}

} // verus!
