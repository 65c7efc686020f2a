//! The game state: variant, board, drawn lines, history and redo stack.
use crate::game::board::{in_grid, in_margin, Board, Pos};
use crate::game::line::Line;
use crate::game::line_index::LineIndex;
use crate::game::moves::Move;
use crate::game::rules::{variant_len, Variant};
use crate::record::cross::{in_cross, initial_cross, points_sorted};
use vstd::prelude::*;

verus! {

/// A move whose point may be placed and whose line lies on the grid.
pub open spec fn placeable(m: Move) -> bool {
    in_margin(m.pos) && in_grid(m.line.origin)
}

/// Whether `p` belongs to the initial cross of `variant`.
pub open spec fn cross_point(variant: Variant, p: Pos) -> bool {
    in_cross(variant_len(variant) as int, p.0 as int, p.1 as int)
}

/// The abstract state of a game.
pub struct GameView {
    pub variant: Variant,
    pub occupied: Set<Pos>,
    pub lines: Set<Line>,
    pub cells: Seq<Pos>,
    pub history: Seq<Move>,
    pub redo: Seq<Move>,
}

/// The state after applying `mv`.
pub open spec fn view_apply(v: GameView, mv: Move) -> GameView {
    GameView {
        variant: v.variant,
        occupied: v.occupied.insert(mv.pos),
        lines: v.lines.insert(mv.line),
        cells: v.cells.push(mv.pos),
        history: v.history.push(mv),
        redo: Seq::empty(),
    }
}

/// The state after undoing the last move (of a non-empty history).
pub open spec fn view_undo(v: GameView) -> GameView {
    let mv = v.history.last();
    GameView {
        variant: v.variant,
        occupied: v.occupied.remove(mv.pos),
        lines: v.lines.remove(mv.line),
        cells: v.cells.drop_last(),
        history: v.history.drop_last(),
        redo: v.redo.push(mv),
    }
}

/// The state after redoing the last undone move (of a non-empty redo stack).
pub open spec fn view_redo(v: GameView) -> GameView {
    let mv = v.redo.last();
    GameView {
        variant: v.variant,
        occupied: v.occupied.insert(mv.pos),
        lines: v.lines.insert(mv.line),
        cells: v.cells.push(mv.pos),
        history: v.history.push(mv),
        redo: v.redo.drop_last(),
    }
}

/// The lines drawn by a list of moves.
pub open spec fn lines_of(ms: Seq<Move>) -> Set<Line> {
    Set::new(|l: Line| exists|i: int| 0 <= i < ms.len() && (#[trigger] ms[i]).line == l)
}

/// The drawn lines are exactly those of the history, and no line occurs twice
/// among the history and the redo stack.
pub open spec fn lines_follow_history(v: GameView) -> bool {
    let all = v.history + v.redo;
    &&& v.lines == lines_of(v.history)
    &&& forall|i: int, j: int| 0 <= i < j < all.len() ==> (#[trigger] all[i]).line != (#[trigger] all[j]).line
}

/// Applying a move whose line is not drawn yet (as for every legal move) keeps
/// the drawn lines those of the history.
pub proof fn lemma_apply_follows_history(v: GameView, mv: Move)
    requires
        lines_follow_history(v),
        !v.lines.contains(mv.line),
    ensures
        lines_follow_history(view_apply(v, mv)),
{
    let w = view_apply(v, mv);
    let h = v.history;
    assert(v.history + v.redo =~= h + v.redo);
    assert forall|l: Line| w.lines.contains(l) <==> lines_of(w.history).contains(l) by {
        if l == mv.line {
            assert(w.history[h.len() as int] == mv);
        } else if lines_of(h).contains(l) {
            let i = choose|i: int| 0 <= i < h.len() && (#[trigger] h[i]).line == l;
            assert(w.history[i] == h[i]);
        }
        if lines_of(w.history).contains(l) {
            let i = choose|i: int| 0 <= i < w.history.len() && (#[trigger] w.history[i]).line == l;
            if i < h.len() {
                assert(w.history[i] == h[i]);
                assert(lines_of(h).contains(l));
            }
        }
    }
    assert(w.lines =~= lines_of(w.history));
    let all = w.history + w.redo;
    assert(all =~= h.push(mv));
    assert forall|i: int, j: int| 0 <= i < j < all.len() implies (#[trigger] all[i]).line != (#[trigger] all[j]).line by {
        let old_all = v.history + v.redo;
        if j < h.len() {
            assert(all[i] == old_all[i] && all[j] == old_all[j]);
        } else {
            assert(all[i] == h[i]);
            assert(lines_of(h).contains(h[i].line));
        }
    }
}

/// Undoing keeps the drawn lines those of the history.
pub proof fn lemma_undo_follows_history(v: GameView)
    requires
        lines_follow_history(v),
        v.history.len() > 0,
    ensures
        lines_follow_history(view_undo(v)),
{
    let w = view_undo(v);
    let h = v.history;
    let last = h.len() - 1;
    let old_all = h + v.redo;
    let all = w.history + w.redo;
    assert(all.len() == old_all.len());
    assert forall|k: int| 0 <= k < all.len() implies #[trigger] all[k] == old_all[if k < last {
        k
    } else if k < all.len() - 1 {
        k + 1
    } else {
        last
    }] by {
        if k < last {
            assert(all[k] == h[k]);
        } else if k < all.len() - 1 {
            assert(all[k] == v.redo[k - last]);
            assert(old_all[k + 1] == v.redo[k - last]);
        }
    }
    assert forall|l: Line| w.lines.contains(l) <==> lines_of(w.history).contains(l) by {
        if lines_of(w.history).contains(l) {
            let i = choose|i: int| 0 <= i < w.history.len() && (#[trigger] w.history[i]).line == l;
            assert(w.history[i] == h[i]);
            assert(old_all[i] == h[i] && old_all[last] == h[last]);
            assert(lines_of(h).contains(l));
        }
        if w.lines.contains(l) {
            assert(lines_of(h).contains(l));
            let i = choose|i: int| 0 <= i < h.len() && (#[trigger] h[i]).line == l;
            assert(i != last);
            assert(w.history[i] == h[i]);
        }
    }
    assert(w.lines =~= lines_of(w.history));
    assert forall|i: int, j: int| 0 <= i < j < all.len() implies (#[trigger] all[i]).line != (#[trigger] all[j]).line by {
        let mi = if i < last { i } else if i < all.len() - 1 { i + 1 } else { last };
        let mj = if j < last { j } else if j < all.len() - 1 { j + 1 } else { last };
        assert(all[i] == old_all[mi] && all[j] == old_all[mj]);
        assert(mi != mj);
        if mi < mj {
            assert(old_all[mi].line != old_all[mj].line);
        } else {
            assert(old_all[mj].line != old_all[mi].line);
        }
    }
}

/// Redoing keeps the drawn lines those of the history.
pub proof fn lemma_redo_follows_history(v: GameView)
    requires
        lines_follow_history(v),
        v.redo.len() > 0,
    ensures
        lines_follow_history(view_redo(v)),
{
    let w = view_redo(v);
    let h = v.history;
    let mv = v.redo.last();
    let old_all = h + v.redo;
    let all = w.history + w.redo;
    let top = old_all.len() - 1;
    assert(all.len() == old_all.len());
    assert forall|k: int| 0 <= k < all.len() implies #[trigger] all[k] == old_all[if k < h.len() {
        k
    } else if k == h.len() {
        top
    } else {
        k - 1
    }] by {
        if k < h.len() {
            assert(all[k] == h[k]);
        } else if k > h.len() {
            assert(all[k] == v.redo[k - h.len() - 1]);
        }
    }
    assert(old_all[top] == mv);
    assert forall|l: Line| w.lines.contains(l) <==> lines_of(w.history).contains(l) by {
        if l == mv.line {
            assert(w.history[h.len() as int] == mv);
        } else if lines_of(h).contains(l) {
            let i = choose|i: int| 0 <= i < h.len() && (#[trigger] h[i]).line == l;
            assert(w.history[i] == h[i]);
        }
        if lines_of(w.history).contains(l) {
            let i = choose|i: int| 0 <= i < w.history.len() && (#[trigger] w.history[i]).line == l;
            if i < h.len() {
                assert(w.history[i] == h[i]);
                assert(lines_of(h).contains(l));
            }
        }
    }
    assert(w.lines =~= lines_of(w.history));
    assert forall|i: int, j: int| 0 <= i < j < all.len() implies (#[trigger] all[i]).line != (#[trigger] all[j]).line by {
        let mi = if i < h.len() { i } else if i == h.len() { top } else { i - 1 };
        let mj = if j < h.len() { j } else if j == h.len() { top } else { j - 1 };
        assert(all[i] == old_all[mi] && all[j] == old_all[mj]);
        assert(mi != mj);
        if mi < mj {
            assert(old_all[mi].line != old_all[mj].line);
        } else {
            assert(old_all[mj].line != old_all[mi].line);
        }
    }
}

/// The placed cells followed by the points of the redo stack.
pub open spec fn all_points(v: GameView) -> Seq<Pos> {
    v.cells + v.redo.map_values(|m: Move| m.pos)
}

/// The occupied points are the placed cells, no point is placed or waiting on
/// the redo stack twice, and the history's points are the last cells, in order.
pub open spec fn cells_follow_history(v: GameView) -> bool {
    &&& all_points(v).no_duplicates()
    &&& v.occupied == v.cells.to_set()
    &&& v.history.len() <= v.cells.len()
    &&& forall|i: int|
        0 <= i < v.history.len() ==> v.cells[v.cells.len() - v.history.len() + i] == #[trigger] v.history[i].pos
}

/// Applying a move on a free point keeps the cells following the history.
pub proof fn lemma_apply_cells(v: GameView, mv: Move)
    requires
        cells_follow_history(v),
        !v.occupied.contains(mv.pos),
    ensures
        cells_follow_history(view_apply(v, mv)),
{
    let w = view_apply(v, mv);
    let old_all = all_points(v);
    let all = all_points(w);
    assert(w.redo.map_values(|m: Move| m.pos) =~= Seq::<Pos>::empty());
    assert(all =~= v.cells.push(mv.pos));
    assert forall|i: int, j: int| 0 <= i < all.len() && 0 <= j < all.len() && i != j implies all[i] != all[j] by {
        if i < v.cells.len() && j < v.cells.len() {
            assert(old_all[i] == v.cells[i] && old_all[j] == v.cells[j]);
        } else if i < v.cells.len() {
            assert(v.cells.to_set().contains(v.cells[i]));
        } else {
            assert(v.cells.to_set().contains(v.cells[j]));
        }
    }
    assert(w.occupied =~= w.cells.to_set()) by {
        assert forall|p: Pos| w.occupied.contains(p) <==> w.cells.to_set().contains(p) by {
            if w.cells.contains(p) && p != mv.pos {
                let i = choose|i: int| 0 <= i < w.cells.len() && w.cells[i] == p;
                assert(v.cells[i] == p);
                assert(v.cells.contains(p));
            }
            if v.cells.contains(p) {
                let i = choose|i: int| 0 <= i < v.cells.len() && v.cells[i] == p;
                assert(w.cells[i] == p);
            }
            if p == mv.pos {
                assert(w.cells[v.cells.len() as int] == p);
            }
        }
    }
    assert forall|i: int| 0 <= i < w.history.len() implies w.cells[w.cells.len() - w.history.len() + i] == #[trigger] w.history[i].pos by {
        if i < v.history.len() {
            assert(w.history[i] == v.history[i]);
        }
    }
}

/// Undoing keeps the cells following the history.
pub proof fn lemma_undo_cells(v: GameView)
    requires
        cells_follow_history(v),
        v.history.len() > 0,
    ensures
        cells_follow_history(view_undo(v)),
{
    let w = view_undo(v);
    let c = v.cells.len() - 1;
    let mv = v.history.last();
    assert(v.cells[c] == mv.pos);
    let old_all = all_points(v);
    let all = all_points(w);
    assert(all.len() == old_all.len());
    assert forall|k: int| 0 <= k < all.len() implies #[trigger] all[k] == old_all[if k < c {
        k
    } else if k < all.len() - 1 {
        k + 1
    } else {
        c
    }] by {
        if k < c {
            assert(all[k] == v.cells[k]);
        } else if k < all.len() - 1 {
            assert(all[k] == v.redo[k - c].pos);
            assert(old_all[k + 1] == v.redo[k - c].pos);
        } else {
            assert(all[k] == mv.pos);
        }
    }
    assert forall|i: int, j: int| 0 <= i < all.len() && 0 <= j < all.len() && i != j implies all[i] != all[j] by {
        let mi = if i < c { i } else if i < all.len() - 1 { i + 1 } else { c };
        let mj = if j < c { j } else if j < all.len() - 1 { j + 1 } else { c };
        assert(all[i] == old_all[mi] && all[j] == old_all[mj]);
    }
    assert forall|p: Pos| w.occupied.contains(p) <==> w.cells.to_set().contains(p) by {
        if w.cells.contains(p) {
            let i = choose|i: int| 0 <= i < w.cells.len() && w.cells[i] == p;
            assert(v.cells[i] == p && old_all[i] == p && old_all[c] == mv.pos);
            assert(v.cells.contains(p));
        }
        if v.cells.contains(p) && p != mv.pos {
            let i = choose|i: int| 0 <= i < v.cells.len() && v.cells[i] == p;
            assert(i != c);
            assert(w.cells[i] == p);
        }
    }
    assert(w.occupied =~= w.cells.to_set());
    assert forall|i: int| 0 <= i < w.history.len() implies w.cells[w.cells.len() - w.history.len() + i] == #[trigger] w.history[i].pos by {
        assert(w.history[i] == v.history[i]);
    }
}

/// Redoing keeps the cells following the history.
pub proof fn lemma_redo_cells(v: GameView)
    requires
        cells_follow_history(v),
        v.redo.len() > 0,
    ensures
        cells_follow_history(view_redo(v)),
{
    let w = view_redo(v);
    let c = v.cells.len() as int;
    let mv = v.redo.last();
    let old_all = all_points(v);
    let all = all_points(w);
    let top = old_all.len() - 1;
    assert(old_all[top] == mv.pos);
    assert(all.len() == old_all.len());
    assert forall|k: int| 0 <= k < all.len() implies #[trigger] all[k] == old_all[if k < c {
        k
    } else if k == c {
        top
    } else {
        k - 1
    }] by {
        if k < c {
            assert(all[k] == v.cells[k]);
        } else if k > c {
            assert(all[k] == v.redo[k - c - 1].pos);
            assert(old_all[k - 1] == v.redo[k - c - 1].pos);
        }
    }
    assert forall|i: int, j: int| 0 <= i < all.len() && 0 <= j < all.len() && i != j implies all[i] != all[j] by {
        let mi = if i < c { i } else if i == c { top } else { i - 1 };
        let mj = if j < c { j } else if j == c { top } else { j - 1 };
        assert(all[i] == old_all[mi] && all[j] == old_all[mj]);
    }
    assert forall|p: Pos| w.occupied.contains(p) <==> w.cells.to_set().contains(p) by {
        if w.cells.contains(p) && p != mv.pos {
            let i = choose|i: int| 0 <= i < w.cells.len() && w.cells[i] == p;
            assert(v.cells[i] == p);
            assert(v.cells.contains(p));
        }
        if v.cells.contains(p) {
            let i = choose|i: int| 0 <= i < v.cells.len() && v.cells[i] == p;
            assert(w.cells[i] == p);
        }
        if p == mv.pos {
            assert(w.cells[c] == p);
        }
    }
    assert(w.occupied =~= w.cells.to_set());
    assert forall|i: int| 0 <= i < w.history.len() implies w.cells[w.cells.len() - w.history.len() + i] == #[trigger] w.history[i].pos by {
        if i < v.history.len() {
            assert(w.history[i] == v.history[i]);
        }
    }
}

/// The state after undoing `k` moves.
pub open spec fn undo_n(v: GameView, k: nat) -> GameView
    decreases k,
{
    if k == 0 {
        v
    } else {
        undo_n(view_undo(v), (k - 1) as nat)
    }
}

/// The state after redoing `k` moves.
pub open spec fn redo_n(v: GameView, k: nat) -> GameView
    decreases k,
{
    if k == 0 {
        v
    } else {
        view_redo(redo_n(v, (k - 1) as nat))
    }
}

/// Undoing any number of moves of the history and then redoing as many
/// restores the state exactly.
pub proof fn lemma_undo_then_redo(v: GameView, k: nat)
    requires
        cells_follow_history(v),
        lines_follow_history(v),
        k <= v.history.len(),
    ensures
        redo_n(undo_n(v, k), k) == v,
    decreases k,
{
    if k > 0 {
        let u = view_undo(v);
        lemma_undo_cells(v);
        lemma_undo_follows_history(v);
        lemma_undo_then_redo(u, (k - 1) as nat);
        assert(undo_n(v, k) == undo_n(u, (k - 1) as nat));
        assert(redo_n(undo_n(v, k), k) == view_redo(redo_n(undo_n(u, (k - 1) as nat), (k - 1) as nat)));
        let h = v.history;
        let c = v.cells.len() - 1;
        assert(v.cells[c] == h[h.len() - 1].pos);
        assert(v.cells.to_set().contains(v.cells[c]));
        assert(lines_of(h).contains(h[h.len() - 1].line));
        lemma_redo_after_undo(v);
    }
}

/// The state after applying the moves `ms` in order.
pub open spec fn view_play(v: GameView, ms: Seq<Move>) -> GameView
    decreases ms.len(),
{
    if ms.len() == 0 {
        v
    } else {
        view_apply(view_play(v, ms.drop_last()), ms.last())
    }
}

/// The points placed by a list of moves.
pub open spec fn points_of(ms: Seq<Move>) -> Set<Pos> {
    Set::new(|p: Pos| exists|i: int| 0 <= i < ms.len() && (#[trigger] ms[i]).pos == p)
}

/// Playing moves records them: the history grows by exactly those moves, so
/// the score grows by their number; their points become occupied and their
/// lines drawn, and the redo stack is empty after at least one move.
pub proof fn lemma_play_records(v: GameView, ms: Seq<Move>)
    ensures
        view_play(v, ms).variant == v.variant,
        view_play(v, ms).history == v.history + ms,
        view_play(v, ms).history.len() == v.history.len() + ms.len(),
        view_play(v, ms).lines == v.lines + lines_of(ms),
        view_play(v, ms).occupied == v.occupied + points_of(ms),
        ms.len() > 0 ==> view_play(v, ms).redo.len() == 0,
    decreases ms.len(),
{
    if ms.len() == 0 {
        assert(v.history + ms =~= v.history);
        assert(v.lines + lines_of(ms) =~= v.lines);
        assert(v.occupied + points_of(ms) =~= v.occupied);
    } else {
        let front = ms.drop_last();
        let mv = ms.last();
        lemma_play_records(v, front);
        assert(v.history + ms =~= (v.history + front).push(mv));
        assert forall|l: Line| (v.lines + lines_of(ms)).contains(l) <==> (v.lines + lines_of(front)).insert(
            mv.line,
        ).contains(l) by {
            if lines_of(ms).contains(l) {
                let i = choose|i: int| 0 <= i < ms.len() && (#[trigger] ms[i]).line == l;
                if i < front.len() {
                    assert(front[i] == ms[i]);
                }
            }
            if lines_of(front).contains(l) {
                let i = choose|i: int| 0 <= i < front.len() && (#[trigger] front[i]).line == l;
                assert(ms[i] == front[i]);
            }
            if l == mv.line {
                assert(ms[ms.len() - 1] == mv);
            }
        }
        assert(v.lines + lines_of(ms) =~= (v.lines + lines_of(front)).insert(mv.line));
        assert forall|p: Pos| (v.occupied + points_of(ms)).contains(p) <==> (v.occupied + points_of(
            front,
        )).insert(mv.pos).contains(p) by {
            if points_of(ms).contains(p) {
                let i = choose|i: int| 0 <= i < ms.len() && (#[trigger] ms[i]).pos == p;
                if i < front.len() {
                    assert(front[i] == ms[i]);
                }
            }
            if points_of(front).contains(p) {
                let i = choose|i: int| 0 <= i < front.len() && (#[trigger] front[i]).pos == p;
                assert(ms[i] == front[i]);
            }
            if p == mv.pos {
                assert(ms[ms.len() - 1] == mv);
            }
        }
        assert(v.occupied + points_of(ms) =~= (v.occupied + points_of(front)).insert(mv.pos));
    }
}

/// An operation on a game: play a move, undo the last one, or redo the last
/// one undone.
pub enum GameOp {
    Apply(Move),
    Undo,
    Redo,
}

/// The state after one operation, as `GameState::apply`, `undo` and `redo`
/// change it: a move off the grid is refused, and undoing or redoing with
/// nothing to undo or redo changes nothing.
pub open spec fn view_op(v: GameView, op: GameOp) -> GameView {
    match op {
        GameOp::Apply(m) => if placeable(m) {
            view_apply(v, m)
        } else {
            v
        },
        GameOp::Undo => if v.history.len() > 0 {
            view_undo(v)
        } else {
            v
        },
        GameOp::Redo => if v.redo.len() > 0 {
            view_redo(v)
        } else {
            v
        },
    }
}

/// The state after the operations `ops` in order.
pub open spec fn view_ops(v: GameView, ops: Seq<GameOp>) -> GameView
    decreases ops.len(),
{
    if ops.len() == 0 {
        v
    } else {
        view_op(view_ops(v, ops.drop_last()), ops.last())
    }
}

/// How many moves of `ops` were played, undone and redone (refused moves and
/// undos or redos with nothing to act on not counted).
pub open spec fn op_counts(v: GameView, ops: Seq<GameOp>) -> (nat, nat, nat)
    decreases ops.len(),
{
    if ops.len() == 0 {
        (0, 0, 0)
    } else {
        let c = op_counts(v, ops.drop_last());
        let w = view_ops(v, ops.drop_last());
        match ops.last() {
            GameOp::Apply(m) => if placeable(m) {
                ((c.0 + 1) as nat, c.1, c.2)
            } else {
                c
            },
            GameOp::Undo => if w.history.len() > 0 {
                (c.0, (c.1 + 1) as nat, c.2)
            } else {
                c
            },
            GameOp::Redo => if w.redo.len() > 0 {
                (c.0, c.1, (c.2 + 1) as nat)
            } else {
                c
            },
        }
    }
}

/// The score counts moves over any run of operations: it is the starting
/// score plus the moves played and redone, less the moves undone.
pub proof fn lemma_score_counts(v: GameView, ops: Seq<GameOp>)
    ensures
        view_ops(v, ops).history.len() == v.history.len() + op_counts(v, ops).0 + op_counts(v, ops).2
            - op_counts(v, ops).1,
    decreases ops.len(),
{
    if ops.len() > 0 {
        lemma_score_counts(v, ops.drop_last());
    }
}

#[derive(Debug, Clone)]
pub struct GameState {
    pub variant: Variant,
    pub board: Board,
    /// Conflict index of drawn lines (the acceleration structure for move
    /// generation).
    pub line_index: LineIndex,
    pub history: Vec<Move>,
    pub redo_stack: Vec<Move>,
}

impl View for GameState {
    type V = GameView;

    open spec fn view(&self) -> GameView {
        GameView {
            variant: self.variant,
            occupied: Set::new(|p: Pos| self.board.occupied(p)),
            lines: Set::new(|l: Line| self.line_index.has(l)),
            cells: self.board.cells@,
            history: self.history@,
            redo: self.redo_stack@,
        }
    }
}

impl GameState {
    /// Well-formedness: consistent board and index; the last cells are the
    /// history's points; every recorded move is placeable.
    pub open spec fn wf(&self) -> bool {
        &&& self.board.wf()
        &&& self.line_index.wf()
        &&& self.history@.len() <= self.board.cells@.len()
        &&& forall|i: int|
            0 <= i < self.history@.len() ==> self.board.cells@[self.board.cells@.len()
                - self.history@.len() + i] == #[trigger] self.history@[i].pos
        &&& forall|i: int| 0 <= i < self.history@.len() ==> placeable(#[trigger] self.history@[i])
        &&& forall|i: int| 0 <= i < self.redo_stack@.len() ==> placeable(#[trigger] self.redo_stack@[i])
    }

    /// A new game: the initial cross and nothing else; its cells are the cross
    /// points in row-major order.
    pub fn new(variant: Variant) -> (r: Self)
        ensures
            r.wf(),
            r.variant == variant,
            forall|p: Pos| #[trigger] r.board.occupied(p) == cross_point(variant, p),
            forall|p: Pos| #[trigger] r.board.cells@.contains(p) == cross_point(variant, p),
            points_sorted(r.board.cells@),
            r.board.cells@.len() == 12 * (variant_len(variant) - 2),
            forall|l: Line| !r.line_index.has(l),
            r.history@.len() == 0,
            r.redo_stack@.len() == 0,
            lines_follow_history(r@),
            cells_follow_history(r@),
    {
        let mut s = Self {
            variant,
            board: Board::new(),
            line_index: LineIndex::new(),
            history: Vec::new(),
            redo_stack: Vec::new(),
        };
        s.setup_cross();
        proof {
            assert(s@.lines =~= lines_of(s.history@));
            let cells = s.board.cells@;
            assert(all_points(s@) =~= cells);
            assert forall|i: int, j: int| 0 <= i < cells.len() && 0 <= j < cells.len() && i != j implies cells[i]
                != cells[j] by {
                if i < j {
                    assert(crate::record::cross::point_lt(cells[i], cells[j]));
                } else {
                    assert(crate::record::cross::point_lt(cells[j], cells[i]));
                }
            }
            assert(s@.occupied =~= cells.to_set());
        }
        s
    }

    /// Place the initial hollow cross (see [`initial_cross`]).
    fn setup_cross(&mut self)
        requires
            old(self).board.wf(),
            old(self).line_index.wf(),
            old(self).board.cells@.len() == 0,
            forall|p: Pos| !old(self).board.occupied(p),
            old(self).history@.len() == 0,
            old(self).redo_stack@.len() == 0,
        ensures
            final(self).wf(),
            final(self).variant == old(self).variant,
            final(self).line_index == old(self).line_index,
            final(self).history@.len() == 0,
            final(self).redo_stack@.len() == 0,
            forall|p: Pos| #[trigger] final(self).board.occupied(p) == cross_point(final(self).variant, p),
            forall|p: Pos| #[trigger] final(self).board.cells@.contains(p) == cross_point(final(self).variant, p),
            points_sorted(final(self).board.cells@),
            final(self).board.cells@.len() == 12 * (variant_len(final(self).variant) - 2),
    {
        let rv = match self.variant {
            Variant::T4 => crate::record::model::Variant::T4,
            Variant::D4 => crate::record::model::Variant::D4,
            Variant::T5 => crate::record::model::Variant::T5,
            Variant::D5 => crate::record::model::Variant::D5,
        };
        let pts = initial_cross(rv);
        let ghost n = variant_len(self.variant) as int;
        let ghost idx0 = self.line_index;
        let ghost var0 = self.variant;
        assert(crate::record::model::variant_line_len(rv) == n);
        let mut i: usize = 0;
        while i < pts.len()
            invariant
                i <= pts@.len(),
                self.line_index == idx0,
                idx0.wf(),
                self.variant == var0,
                n == variant_len(self.variant),
                self.board.wf(),
                self.board.cells@ == pts@.take(i as int),
                self.history@.len() == 0,
                self.redo_stack@.len() == 0,
                forall|p: (i16, i16)| pts@.contains(p) <==> in_cross(n, p.0 as int, p.1 as int),
                forall|p: Pos| #[trigger] self.board.occupied(p) == pts@.take(i as int).contains(p),
            decreases pts@.len() - i,
        {
            let p = pts[i];
            assert(pts@.contains(p));
            assert(in_margin(p));
            let ghost before = self.board.cells@;
            let ok = self.board.insert(p);
            assert(ok);
            proof {
                let s0 = pts@.take(i as int);
                let s1 = pts@.take(i + 1);
                assert(s1 == s0.push(p));
                assert forall|q: Pos| #[trigger] self.board.occupied(q) == s1.contains(q) by {
                    if s0.contains(q) {
                        let k = choose|k: int| 0 <= k < s0.len() && s0[k] == q;
                        assert(s1[k] == q);
                    }
                    if s1.contains(q) && q != p {
                        let k = choose|k: int| 0 <= k < s1.len() && s1[k] == q;
                        assert(k < i);
                        assert(s0[k] == q);
                    }
                    if q == p {
                        assert(s1[i as int] == q);
                    }
                }
            }
            i = i + 1;
        }
        proof {
            assert(pts@.take(pts@.len() as int) == pts@);
        }
    }

    pub fn score(&self) -> (r: usize)
        ensures
            r == self.history@.len(),
    {
        self.history.len()
    }

    /// Apply a move. Returns `false` without changing anything if its point
    /// would fall within the grid margin or its line off the grid.
    pub fn apply(&mut self, mv: Move) -> (r: bool)
        requires
            old(self).wf(),
        ensures
            final(self).wf(),
            r == placeable(mv),
            r ==> final(self)@ == view_apply(old(self)@, mv),
            !r ==> final(self)@ == old(self)@,
            final(self)@ == view_op(old(self)@, GameOp::Apply(mv)),
            lines_follow_history(old(self)@) && !old(self)@.lines.contains(mv.line) ==> lines_follow_history(
                final(self)@,
            ),
            cells_follow_history(old(self)@) && !old(self)@.occupied.contains(mv.pos) ==> cells_follow_history(
                final(self)@,
            ),
    {
        proof {
            if cells_follow_history(self@) && !self@.occupied.contains(mv.pos) {
                lemma_apply_cells(self@, mv);
            }
            if lines_follow_history(self@) && !self@.lines.contains(mv.line) {
                lemma_apply_follows_history(self@, mv);
            }
        }
        if !crate::game::line_index::on_grid(mv.line.origin) {
            return false;
        }
        let ghost old_state = *self;
        if !self.board.insert(mv.pos) {
            proof {
                assert(self@.occupied =~= old_state@.occupied);
            }
            return false;
        }
        self.line_index.insert(&mv.line);
        self.history.push(mv);
        self.redo_stack.clear();
        proof {
            assert(self@.occupied =~= old_state@.occupied.insert(mv.pos));
            assert(self@.lines =~= old_state@.lines.insert(mv.line));
            assert(self@.redo =~= Seq::<Move>::empty());
            assert forall|i: int| 0 <= i < self.history@.len() implies self.board.cells@[self.board.cells@.len()
                - self.history@.len() + i] == #[trigger] self.history@[i].pos by {
                if i < old_state.history@.len() {
                    assert(self.history@[i] == old_state.history@[i]);
                }
            }
            assert forall|i: int| 0 <= i < self.history@.len() implies placeable(#[trigger] self.history@[i]) by {
                if i < old_state.history@.len() {
                    assert(self.history@[i] == old_state.history@[i]);
                }
            }
        }
        true
    }

    /// Undo the last move, returning it (`None` when there is nothing to undo).
    pub fn undo(&mut self) -> (r: Option<Move>)
        requires
            old(self).wf(),
        ensures
            final(self).wf(),
            old(self).history@.len() == 0 ==> r is None && final(self)@ == old(self)@,
            old(self).history@.len() > 0 ==> r == Some(old(self).history@.last()) && final(self)@
                == view_undo(old(self)@),
            final(self)@ == view_op(old(self)@, GameOp::Undo),
            lines_follow_history(old(self)@) ==> lines_follow_history(final(self)@),
            cells_follow_history(old(self)@) ==> cells_follow_history(final(self)@),
    {
        proof {
            if lines_follow_history(self@) && self.history@.len() > 0 {
                lemma_undo_follows_history(self@);
            }
            if cells_follow_history(self@) && self.history@.len() > 0 {
                lemma_undo_cells(self@);
            }
        }
        if self.history.len() == 0 {
            return None;
        }
        let ghost old_state = *self;
        let mv = self.history.pop().unwrap();
        proof {
            assert(placeable(old_state.history@[old_state.history@.len() - 1]));
            assert(old_state.board.cells@[old_state.board.cells@.len() - 1] == mv.pos);
        }
        self.board.remove(mv.pos);
        self.line_index.remove(&mv.line);
        self.redo_stack.push(mv);
        proof {
            assert(self@.occupied =~= old_state@.occupied.remove(mv.pos));
            assert(self@.lines =~= old_state@.lines.remove(mv.line));
            assert forall|i: int| 0 <= i < self.history@.len() implies self.board.cells@[self.board.cells@.len()
                - self.history@.len() + i] == #[trigger] self.history@[i].pos by {
                assert(self.history@[i] == old_state.history@[i]);
            }
            assert forall|i: int| 0 <= i < self.history@.len() implies placeable(#[trigger] self.history@[i]) by {
                assert(self.history@[i] == old_state.history@[i]);
            }
            assert forall|i: int| 0 <= i < self.redo_stack@.len() implies placeable(#[trigger] self.redo_stack@[i]) by {
                if i < old_state.redo_stack@.len() {
                    assert(self.redo_stack@[i] == old_state.redo_stack@[i]);
                }
            }
        }
        Some(mv)
    }

    /// Redo the last undone move, returning it (`None` when there is none).
    pub fn redo(&mut self) -> (r: Option<Move>)
        requires
            old(self).wf(),
        ensures
            final(self).wf(),
            old(self).redo_stack@.len() == 0 ==> r is None && final(self)@ == old(self)@,
            old(self).redo_stack@.len() > 0 ==> r == Some(old(self).redo_stack@.last())
                && final(self)@ == view_redo(old(self)@),
            final(self)@ == view_op(old(self)@, GameOp::Redo),
            lines_follow_history(old(self)@) ==> lines_follow_history(final(self)@),
            cells_follow_history(old(self)@) ==> cells_follow_history(final(self)@),
    {
        proof {
            if lines_follow_history(self@) && self.redo_stack@.len() > 0 {
                lemma_redo_follows_history(self@);
            }
            if cells_follow_history(self@) && self.redo_stack@.len() > 0 {
                lemma_redo_cells(self@);
            }
        }
        if self.redo_stack.len() == 0 {
            return None;
        }
        let ghost old_state = *self;
        let mv = self.redo_stack.pop().unwrap();
        proof {
            assert(placeable(old_state.redo_stack@[old_state.redo_stack@.len() - 1]));
        }
        let _ = self.board.insert(mv.pos);
        self.line_index.insert(&mv.line);
        self.history.push(mv);
        proof {
            assert(self@.occupied =~= old_state@.occupied.insert(mv.pos));
            assert(self@.lines =~= old_state@.lines.insert(mv.line));
            assert forall|i: int| 0 <= i < self.history@.len() implies self.board.cells@[self.board.cells@.len()
                - self.history@.len() + i] == #[trigger] self.history@[i].pos by {
                if i < old_state.history@.len() {
                    assert(self.history@[i] == old_state.history@[i]);
                }
            }
            assert forall|i: int| 0 <= i < self.history@.len() implies placeable(#[trigger] self.history@[i]) by {
                if i < old_state.history@.len() {
                    assert(self.history@[i] == old_state.history@[i]);
                }
            }
            assert forall|i: int| 0 <= i < self.redo_stack@.len() implies placeable(#[trigger] self.redo_stack@[i]) by {
                assert(self.redo_stack@[i] == old_state.redo_stack@[i]);
            }
        }
        Some(mv)
    }

    pub fn can_undo(&self) -> (r: bool)
        ensures
            r == (self.history@.len() > 0),
    {
        self.history.len() != 0
    }

    pub fn can_redo(&self) -> (r: bool)
        ensures
            r == (self.redo_stack@.len() > 0),
    {
        self.redo_stack.len() != 0
    }

    /// Bounding box of all placed cells: `(min_x, min_y, max_x, max_y)`.
    pub fn bounding_box(&self) -> (r: Option<(i16, i16, i16, i16)>)
        ensures
            r is None <==> self.board.cells@.len() == 0,
            r matches Some(b) ==> is_bounding_box(self.board.cells@, b),
    {
        if self.board.cells.len() == 0 {
            return None;
        }
        let cells = &self.board.cells;
        let (x0, y0) = cells[0];
        let (mut min_x, mut min_y, mut max_x, mut max_y) = (x0, y0, x0, y0);
        let mut i: usize = 1;
        proof {
            let s1 = cells@.take(1);
            assert(s1[0] == (x0, y0));
            assert(s1.len() == 1);
        }
        while i < cells.len()
            invariant
                1 <= i <= cells@.len(),
                is_bounding_box(cells@.take(i as int), (min_x, min_y, max_x, max_y)),
            decreases cells@.len() - i,
        {
            let (x, y) = cells[i];
            let ghost pre = cells@.take(i as int);
            if x < min_x {
                min_x = x;
            }
            if y < min_y {
                min_y = y;
            }
            if x > max_x {
                max_x = x;
            }
            if y > max_y {
                max_y = y;
            }
            proof {
                let s = cells@.take(i + 1);
                assert(s == pre.push((x, y)));
                let b = (min_x, min_y, max_x, max_y);
                assert forall|k: int| 0 <= k < s.len() implies b.0 <= #[trigger] s[k].0 <= b.2 && b.1
                    <= s[k].1 <= b.3 by {
                    if k < pre.len() {
                        assert(s[k] == pre[k]);
                    }
                }
                let last = s.len() - 1;
                if x == min_x {
                    assert(s[last].0 == b.0);
                } else {
                    let k = choose|k: int| 0 <= k < pre.len() && pre[k].0 == b.0;
                    assert(s[k].0 == b.0);
                }
                if y == min_y {
                    assert(s[last].1 == b.1);
                } else {
                    let k = choose|k: int| 0 <= k < pre.len() && pre[k].1 == b.1;
                    assert(s[k].1 == b.1);
                }
                if x == max_x {
                    assert(s[last].0 == b.2);
                } else {
                    let k = choose|k: int| 0 <= k < pre.len() && pre[k].0 == b.2;
                    assert(s[k].0 == b.2);
                }
                if y == max_y {
                    assert(s[last].1 == b.3);
                } else {
                    let k = choose|k: int| 0 <= k < pre.len() && pre[k].1 == b.3;
                    assert(s[k].1 == b.3);
                }
            }
            i = i + 1;
        }
        proof {
            assert(cells@.take(cells@.len() as int) == cells@);
        }
        Some((min_x, min_y, max_x, max_y))
    }
}

/// A copy of a vector of words.
fn copy_words(v: &Vec<u128>) -> (r: Vec<u128>)
    ensures
        r@ == v@,
{
    let mut out: Vec<u128> = Vec::new();
    let mut i: usize = 0;
    while i < v.len()
        invariant
            i <= v@.len(),
            out@ == v@.take(i as int),
        decreases v@.len() - i,
    {
        out.push(v[i]);
        proof {
            assert(out@ =~= v@.take(i + 1));
        }
        i = i + 1;
    }
    proof {
        assert(v@.take(v@.len() as int) =~= v@);
    }
    out
}

/// A copy of a vector of points.
fn copy_points(v: &Vec<Pos>) -> (r: Vec<Pos>)
    ensures
        r@ == v@,
{
    let mut out: Vec<Pos> = Vec::new();
    let mut i: usize = 0;
    while i < v.len()
        invariant
            i <= v@.len(),
            out@ == v@.take(i as int),
        decreases v@.len() - i,
    {
        out.push(v[i]);
        proof {
            assert(out@ =~= v@.take(i + 1));
        }
        i = i + 1;
    }
    proof {
        assert(v@.take(v@.len() as int) =~= v@);
    }
    out
}

/// A copy of a vector of moves.
fn copy_move_list(v: &Vec<Move>) -> (r: Vec<Move>)
    ensures
        r@ == v@,
{
    let mut out: Vec<Move> = Vec::new();
    let mut i: usize = 0;
    while i < v.len()
        invariant
            i <= v@.len(),
            out@ == v@.take(i as int),
        decreases v@.len() - i,
    {
        out.push(v[i]);
        proof {
            assert(out@ =~= v@.take(i + 1));
        }
        i = i + 1;
    }
    proof {
        assert(v@.take(v@.len() as int) =~= v@);
    }
    out
}

impl GameState {
    /// An independent copy of the game (same board, lines, history and redo
    /// stack).
    pub fn duplicate(&self) -> (r: Self)
        requires
            self.wf(),
        ensures
            r.wf(),
            r@ == self@,
            r.variant == self.variant,
            r.history@ == self.history@,
    {
        let board = Board { cells: copy_points(&self.board.cells), grid: copy_words(&self.board.grid) };
        let line_index = LineIndex {
            h: copy_words(&self.line_index.h),
            v: copy_words(&self.line_index.v),
            dp: copy_words(&self.line_index.dp),
            dn: copy_words(&self.line_index.dn),
        };
        let r = GameState {
            variant: self.variant,
            board,
            line_index,
            history: copy_move_list(&self.history),
            redo_stack: copy_move_list(&self.redo_stack),
        };
        proof {
            assert forall|p: Pos| r.board.occupied(p) == self.board.occupied(p) by {}
            assert forall|l: Line| r.line_index.has(l) == self.line_index.has(l) by {}
            assert(r@.occupied =~= self@.occupied);
            assert(r@.lines =~= self@.lines);
        }
        r
    }
}

/// `b = (min_x, min_y, max_x, max_y)` is the bounding box of the points `s`:
/// every point lies inside and each bound is attained.
pub open spec fn is_bounding_box(s: Seq<Pos>, b: (i16, i16, i16, i16)) -> bool {
    &&& forall|k: int| 0 <= k < s.len() ==> b.0 <= #[trigger] s[k].0 <= b.2 && b.1 <= s[k].1 <= b.3
    &&& exists|k: int| 0 <= k < s.len() && s[k].0 == b.0
    &&& exists|k: int| 0 <= k < s.len() && s[k].1 == b.1
    &&& exists|k: int| 0 <= k < s.len() && s[k].0 == b.2
    &&& exists|k: int| 0 <= k < s.len() && s[k].1 == b.3
}

/// Undoing a just-applied move restores the points, the lines and the
/// history, and leaves that move on the redo stack — provided its point was
/// free and its line not yet drawn (as for every legal move).
pub proof fn lemma_undo_after_apply(v: GameView, mv: Move)
    requires
        !v.occupied.contains(mv.pos),
        !v.lines.contains(mv.line),
    ensures
        view_undo(view_apply(v, mv)) == (GameView { redo: seq![mv], ..v }),
{
    let w = view_undo(view_apply(v, mv));
    assert(w.occupied =~= v.occupied);
    assert(w.lines =~= v.lines);
    assert(v.cells.push(mv.pos).drop_last() =~= v.cells);
    assert(v.history.push(mv).drop_last() =~= v.history);
    assert(w.history =~= v.history);
    assert(w.redo =~= seq![mv]);
}

/// Redoing a just-undone move restores the state exactly, provided the last
/// move's point is the last placed cell and its point and line are present
/// (as they are after playing it).
pub proof fn lemma_redo_after_undo(v: GameView)
    requires
        v.history.len() > 0,
        v.cells.len() > 0,
        v.cells.last() == v.history.last().pos,
        v.occupied.contains(v.history.last().pos),
        v.lines.contains(v.history.last().line),
    ensures
        view_redo(view_undo(v)) == v,
{
    let w = view_redo(view_undo(v));
    assert(w.occupied =~= v.occupied);
    assert(w.lines =~= v.lines);
    assert(w.cells =~= v.cells);
    assert(w.history =~= v.history);
    assert(w.redo =~= v.redo);
}

} // verus!
