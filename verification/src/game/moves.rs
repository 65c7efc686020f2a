//! Moves and legal-move generation.
//!
//! A move is a (pos, line, line_pos) triple where `pos` is an empty cell, `line`
//! is a new line of `line_len` consecutive cells through `pos` at offset
//! `line_pos`, all other cells of `line` are occupied, and `line` does not
//! conflict with any drawn parallel line (touch rule).
use crate::game::bits::{bit, lemma_bit_and, lemma_bit_not, lemma_bit_shr, lowest_bit};
use crate::game::board::{in_grid, in_margin, Board, Pos, OFFSET};
use crate::game::line::{dir_delta, dir_index, line_point, pos_int, Dir, Line};
use crate::game::line_index::{lines_conflict_spec, LineIndex};
use crate::game::rules::{variant_forbid, variant_len, TouchMode};
use crate::game::state::{
    cells_follow_history, is_bounding_box, lemma_apply_cells, lemma_apply_follows_history,
    lines_follow_history, lines_of, view_apply, GameState,
};
use vstd::prelude::*;

verus! {

/// A single game move: place a new point at `pos` and draw `line`.
/// `line_pos` is the 0-based index of `pos` within the line (0 = origin end).
#[derive(Debug, Clone, Copy, PartialEq, Eq, Hash)]
pub struct Move {
    pub pos: Pos,
    pub line: Line,
    pub line_pos: u8,
}

impl Move {
    pub fn new(pos: Pos, line: Line, line_pos: u8) -> (r: Self)
        ensures
            r.pos == pos,
            r.line == line,
            r.line_pos == line_pos,
    {
        Self { pos, line, line_pos }
    }
}

/// Whether the integer point `p` is an occupied board point.
pub open spec fn occupied_at(b: &Board, p: (int, int)) -> bool {
    -32768 <= p.0 <= 32767 && -32768 <= p.1 <= 32767 && b.occupied((p.0 as i16, p.1 as i16))
}

/// Whether the touch rule forbids drawing `line` next to the drawn lines.
pub open spec fn line_blocked(idx: &LineIndex, line: Line, forbid: int) -> bool {
    exists|l: Line| #[trigger] idx.has(l) && lines_conflict_spec(l, line, forbid)
}

/// Whether `m` is a legal move in `s`.
pub open spec fn is_legal(s: &GameState, m: Move) -> bool {
    let n = variant_len(s.variant) as int;
    &&& m.line_pos < n
    &&& pos_int(m.pos) == line_point(m.line, m.line_pos as int)
    &&& !s.board.occupied(m.pos)
    &&& forall|k: int|
        0 <= k < n && k != m.line_pos ==> #[trigger] occupied_at(&s.board, line_point(m.line, k))
    &&& !line_blocked(&s.line_index, m.line, variant_forbid(s.variant) as int)
}

/// Occupancy of grid cell `(gx, gy)`.
pub open spec fn cell_occ(b: &Board, gx: int, gy: int) -> bool {
    0 <= gx < 128 && 0 <= gy < 128 && bit(b.grid@[gy], gx as u128)
}

/// Occupancy of cell `k` of the window at grid origin `(gx, gy)` along `d`.
pub open spec fn wcell(b: &Board, gx: int, gy: int, d: Dir, k: int) -> bool {
    cell_occ(b, gx + k * dir_delta(d).0, gy + k * dir_delta(d).1)
}

/// The window has exactly cell `j` empty.
pub open spec fn window_ok(b: &Board, n: int, gx: int, gy: int, d: Dir, j: int) -> bool {
    &&& !wcell(b, gx, gy, d, j)
    &&& forall|k: int| 0 <= k < n && k != j ==> #[trigger] wcell(b, gx, gy, d, k)
}

/// The line whose origin is grid cell `(gx, gy)`.
pub open spec fn window_line(gx: int, gy: int, d: Dir) -> Line {
    Line { origin: ((gx - OFFSET) as i16, (gy - OFFSET) as i16), dir: d }
}

/// The move filling cell `j` of the window at grid origin `(gx, gy)`.
pub open spec fn window_move(gx: int, gy: int, d: Dir, j: int) -> Move {
    Move {
        pos: ((gx - OFFSET + j * dir_delta(d).0) as i16, (gy - OFFSET + j * dir_delta(d).1) as i16),
        line: window_line(gx, gy, d),
        line_pos: j as u8,
    }
}

/// Grid row of a move's line origin.
pub open spec fn move_gy(m: Move) -> int {
    m.line.origin.1 + OFFSET
}

/// Grid column of a move's line origin.
pub open spec fn move_gx(m: Move) -> int {
    m.line.origin.0 + OFFSET
}

/// The rows scanned for direction `d`: every window touching rows
/// `[min_gy, max_gy]` whose cells all stay on the grid.
pub open spec fn row_lo(min_gy: int, d: Dir, span: int) -> int {
    if dir_delta(d).1 == 0 {
        if min_gy > 0 { min_gy } else { 0 }
    } else if dir_delta(d).1 > 0 {
        if min_gy - span > 0 { min_gy - span } else { 0 }
    } else {
        if min_gy > span { min_gy } else { span }
    }
}

/// Upper end of the scanned rows (see [`row_lo`]).
pub open spec fn row_hi(max_gy: int, d: Dir, span: int) -> int {
    if dir_delta(d).1 == 0 {
        if max_gy < 127 { max_gy } else { 127 }
    } else if dir_delta(d).1 > 0 {
        if max_gy < 127 - span { max_gy } else { 127 - span }
    } else {
        if max_gy + span < 127 { max_gy + span } else { 127 }
    }
}

/// Moves of direction `d` already produced by the row scan when it stands at
/// row `gy`, offset `j` and column `lo`, on top of the moves `out0`.
pub open spec fn emitted(
    s: &GameState,
    out0: Seq<Move>,
    d: Dir,
    gy: int,
    j: int,
    lo: int,
    m: Move,
) -> bool {
    ||| out0.contains(m)
    ||| is_legal(s, m) && m.line.dir == d && (move_gy(m) < gy || (move_gy(m) == gy && (m.line_pos < j
        || (m.line_pos == j && move_gx(m) < lo))))
}

/// Whether `m` lies before the row scan's cursor at row `gy`, offset `j` and
/// column `lo`.
pub open spec fn before_cursor(m: Move, gy: int, j: int, lo: int) -> bool {
    if move_gy(m) != gy {
        move_gy(m) < gy
    } else if m.line_pos as int != j {
        m.line_pos < j
    } else {
        move_gx(m) < lo
    }
}

/// The order in which the generator emits moves: by direction (`H`, `V`, `DP`,
/// `DN`), then by the row of the line's origin, then by the offset of the new
/// point in the line, then by the column of the origin (the point itself
/// breaks the remaining ties).
pub open spec fn scan_lt(a: Move, b: Move) -> bool {
    if a.line.dir != b.line.dir {
        dir_index(a.line.dir) < dir_index(b.line.dir)
    } else if move_gy(a) != move_gy(b) {
        move_gy(a) < move_gy(b)
    } else if a.line_pos != b.line_pos {
        a.line_pos < b.line_pos
    } else if move_gx(a) != move_gx(b) {
        move_gx(a) < move_gx(b)
    } else if a.pos.0 != b.pos.0 {
        a.pos.0 < b.pos.0
    } else {
        a.pos.1 < b.pos.1
    }
}

/// Whether `s` is strictly increasing in the generator's order.
pub open spec fn scan_sorted(s: Seq<Move>) -> bool {
    forall|i: int, j: int| 0 <= i < j < s.len() ==> scan_lt(#[trigger] s[i], #[trigger] s[j])
}

/// The generator's order is a strict total order on moves.
pub proof fn lemma_scan_lt_order(a: Move, b: Move, c: Move)
    ensures
        !scan_lt(a, a),
        scan_lt(a, b) ==> !scan_lt(b, a),
        a != b ==> scan_lt(a, b) || scan_lt(b, a),
        scan_lt(a, b) && scan_lt(b, c) ==> scan_lt(a, c),
{
}

/// A list of moves is fixed by its contents once it is in the generator's
/// order: two sorted lists with the same moves are equal.
pub proof fn lemma_scan_sorted_unique(a: Seq<Move>, b: Seq<Move>)
    requires
        scan_sorted(a),
        scan_sorted(b),
        forall|m: Move| a.contains(m) <==> b.contains(m),
    ensures
        a == b,
    decreases a.len(),
{
    if a.len() == 0 {
        if b.len() > 0 {
            assert(b.contains(b[0]));
        }
    } else {
        assert(a.contains(a[0]));
        assert(b.len() > 0);
        assert(b.contains(b[0]));
        let k = choose|k: int| 0 <= k < b.len() && b[k] == a[0];
        let l = choose|l: int| 0 <= l < a.len() && a[l] == b[0];
        lemma_scan_lt_order(a[0], b[0], a[0]);
        if k > 0 && l > 0 {
            assert(scan_lt(b[0], b[k]));
            assert(scan_lt(a[0], a[l]));
        }
        assert(a[0] == b[0]);
        let a1 = a.drop_first();
        let b1 = b.drop_first();
        assert forall|m: Move| a1.contains(m) <==> b1.contains(m) by {
            if a1.contains(m) {
                let i = choose|i: int| 0 <= i < a1.len() && a1[i] == m;
                assert(a[i + 1] == m);
                assert(scan_lt(a[0], a[i + 1]));
                lemma_scan_lt_order(a[0], m, a[0]);
                assert(b.contains(m));
                let q = choose|q: int| 0 <= q < b.len() && b[q] == m;
                assert(q != 0);
                assert(b1[q - 1] == m);
            }
            if b1.contains(m) {
                let i = choose|i: int| 0 <= i < b1.len() && b1[i] == m;
                assert(b[i + 1] == m);
                assert(scan_lt(b[0], b[i + 1]));
                lemma_scan_lt_order(b[0], m, b[0]);
                assert(a.contains(m));
                let q = choose|q: int| 0 <= q < a.len() && a[q] == m;
                assert(q != 0);
                assert(a1[q - 1] == m);
            }
        }
        lemma_scan_sorted_unique(a1, b1);
        assert(a =~= seq![a[0]] + a1);
        assert(b =~= seq![b[0]] + b1);
    }
}

/// Steps along a window stay small.
proof fn lemma_steps(k: int, d: Dir)
    requires
        0 <= k <= 8,
    ensures
        -8 <= k * dir_delta(d).0 <= 8,
        -8 <= k * dir_delta(d).1 <= 8,
        dir_delta(d).0 == 0 ==> k * dir_delta(d).0 == 0,
        dir_delta(d).0 == 1 ==> k * dir_delta(d).0 == k,
        dir_delta(d).1 == 0 ==> k * dir_delta(d).1 == 0,
        dir_delta(d).1 == 1 ==> k * dir_delta(d).1 == k,
        dir_delta(d).1 == -1 ==> k * dir_delta(d).1 == -k,
{
    let (dx, dy) = dir_delta(d);
    assert(-8 <= k * dx <= 8 && -8 <= k * dy <= 8) by (nonlinear_arith)
        requires
            0 <= k <= 8,
            -1 <= dx <= 1,
            -1 <= dy <= 1,
    ;
}

/// A window inside the scanned rows is legal exactly when it has exactly the
/// cell `j` empty and its line is not blocked.
proof fn lemma_window_legal(s: &GameState, gx: int, gy: int, d: Dir, j: int)
    requires
        s.wf(),
        0 <= gx < 128,
        0 <= gy < 128,
        0 <= j < variant_len(s.variant),
    ensures
        is_legal(s, window_move(gx, gy, d, j)) == (window_ok(
            &s.board,
            variant_len(s.variant) as int,
            gx,
            gy,
            d,
            j,
        ) && !line_blocked(
            &s.line_index,
            window_line(gx, gy, d),
            variant_forbid(s.variant) as int,
        )),
{
    let n = variant_len(s.variant) as int;
    let m = window_move(gx, gy, d, j);
    let b = &s.board;
    lemma_steps(j, d);
    assert(m.line.origin.0 == gx - OFFSET && m.line.origin.1 == gy - OFFSET);
    assert forall|k: int| 0 <= k < n implies #[trigger] occupied_at(b, line_point(m.line, k))
        == wcell(b, gx, gy, d, k) by {
        lemma_steps(k, d);
    }
    assert(pos_int(m.pos) == line_point(m.line, j));
    assert(b.occupied(m.pos) == wcell(b, gx, gy, d, j));
    if is_legal(s, m) {
        assert forall|k: int| 0 <= k < n && k != j implies #[trigger] wcell(b, gx, gy, d, k) by {
            assert(occupied_at(b, line_point(m.line, k)));
        }
    }
    if window_ok(b, n, gx, gy, d, j) {
        assert forall|k: int| 0 <= k < n && k != m.line_pos implies #[trigger] occupied_at(
            b,
            line_point(m.line, k),
        ) by {
            assert(wcell(b, gx, gy, d, k));
        }
    }
}

/// A legal move is the window move at its own origin, inside the scanned
/// rows, given the bounding rows of the placed cells.
proof fn lemma_legal_is_window(s: &GameState, m: Move, min_y: i16, max_y: i16)
    requires
        s.wf(),
        is_legal(s, m),
        forall|i: int|
            0 <= i < s.board.cells@.len() ==> min_y <= #[trigger] s.board.cells@[i].1 <= max_y,
    ensures
        0 <= move_gx(m) < 128,
        row_lo(min_y + OFFSET, m.line.dir, variant_len(s.variant) - 1) <= move_gy(m) <= row_hi(
            max_y + OFFSET,
            m.line.dir,
            variant_len(s.variant) - 1,
        ),
        m == window_move(move_gx(m), move_gy(m), m.line.dir, m.line_pos as int),
{
    let n = variant_len(s.variant) as int;
    let j = m.line_pos as int;
    let k = if j == 0 { 1int } else { 0int };
    let d = m.line.dir;
    lemma_steps(k, d);
    lemma_steps(j, d);
    assert(occupied_at(&s.board, line_point(m.line, k)));
    let p = line_point(m.line, k);
    let q = (p.0 as i16, p.1 as i16);
    s.board.lemma_occupied(q);
    let c = choose|c: int| 0 <= c < s.board.cells@.len() && s.board.cells@[c] == q;
    assert(min_y <= s.board.cells@[c].1 <= max_y);
    assert(in_margin(q));
    let w = window_move(move_gx(m), move_gy(m), d, j);
    assert(w.pos == m.pos);
    assert(w.line.origin == m.line.origin);
}

/// A line, once drawn, is never drawn again: after a move is played, no legal
/// move lies on its line (a line conflicts with itself under every rule).
pub proof fn lemma_drawn_line_not_legal(s: &GameState, m: Move)
    requires
        s@.lines.contains(m.line),
    ensures
        !is_legal(s, m),
{
    assert(s.line_index.has(m.line));
    assert(lines_conflict_spec(m.line, m.line, variant_forbid(s.variant) as int));
}

/// Legality stated over the history: `m` completes a line of the board through
/// its empty point, and its line conflicts with no line of a move already
/// played.
pub open spec fn legal_by_history(s: &GameState, m: Move) -> bool {
    let n = variant_len(s.variant) as int;
    &&& m.line_pos < n
    &&& pos_int(m.pos) == line_point(m.line, m.line_pos as int)
    &&& !s.board.occupied(m.pos)
    &&& forall|k: int|
        0 <= k < n && k != m.line_pos ==> #[trigger] occupied_at(&s.board, line_point(m.line, k))
    &&& forall|i: int|
        0 <= i < s.history@.len() ==> !lines_conflict_spec(
            (#[trigger] s.history@[i]).line,
            m.line,
            variant_forbid(s.variant) as int,
        )
}

/// Wherever the drawn lines are those of the history (as in every game played
/// from a new one, see `GameState::apply`, `undo` and `redo`), a move is legal
/// exactly when it is legal against the history's lines.
pub proof fn lemma_legal_against_history(s: &GameState, m: Move)
    requires
        s.wf(),
        lines_follow_history(s@),
    ensures
        is_legal(s, m) <==> legal_by_history(s, m),
{
    let f = variant_forbid(s.variant) as int;
    if line_blocked(&s.line_index, m.line, f) {
        let l = choose|l: Line| #[trigger] s.line_index.has(l) && lines_conflict_spec(l, m.line, f);
        assert(s@.lines.contains(l));
        assert(lines_of(s.history@).contains(l));
        let i = choose|i: int| 0 <= i < s.history@.len() && (#[trigger] s.history@[i]).line == l;
        assert(lines_conflict_spec(s.history@[i].line, m.line, f));
    }
    if !line_blocked(&s.line_index, m.line, f) {
        assert forall|i: int| 0 <= i < s.history@.len() implies !lines_conflict_spec(
            (#[trigger] s.history@[i]).line,
            m.line,
            f,
        ) by {
            let l = s.history@[i].line;
            assert(lines_of(s.history@).contains(l));
            assert(s@.lines.contains(l));
            assert(s.line_index.has(l));
        }
    }
}

/// Playing a legal move keeps the drawn lines, and the placed cells, following
/// the history.
pub proof fn lemma_legal_move_follows_history(s: &GameState, m: Move)
    requires
        is_legal(s, m),
    ensures
        lines_follow_history(s@) ==> lines_follow_history(view_apply(s@, m)),
        cells_follow_history(s@) ==> cells_follow_history(view_apply(s@, m)),
{
    if s@.lines.contains(m.line) {
        lemma_drawn_line_not_legal(s, m);
    }
    if lines_follow_history(s@) {
        lemma_apply_follows_history(s@, m);
    }
    if cells_follow_history(s@) {
        assert(!s@.occupied.contains(m.pos));
        lemma_apply_cells(s@, m);
    }
}

/// A point, once placed, is never played again.
pub proof fn lemma_placed_point_not_legal(s: &GameState, m: Move)
    requires
        s@.occupied.contains(m.pos),
    ensures
        !is_legal(s, m),
{
    assert(s.board.occupied(m.pos));
}

/// Index of the first occupied cell of a window whose empty cell is `j`.
pub open spec fn first_occ(j: int) -> int {
    if j == 0 {
        1
    } else {
        0
    }
}

/// The point from which the scan of [`legal_moves_dir_scalar_append`] finds
/// `m`: the first occupied point of its line.
pub open spec fn anchor_of(m: Move) -> (int, int) {
    line_point(m.line, first_occ(m.line_pos as int))
}

/// What the scan has emitted after the first `ci` cells, and the offsets
/// below `off` of cell `ci`.
pub open spec fn scalar_found(s: &GameState, out0: Seq<Move>, dir: Dir, ci: int, off: int, m: Move) -> bool {
    let cells = s.board.cells@;
    ||| out0.contains(m)
    ||| (is_legal(s, m) && m.line.dir == dir && ((exists|j: int|
        0 <= j < ci && #[trigger] pos_int(cells[j]) == anchor_of(m)) || (0 <= ci < cells.len()
        && pos_int(cells[ci]) == anchor_of(m) && first_occ(m.line_pos as int) < off)))
}

/// A legal move on the line `l` is the move at the window's only empty cell.
proof fn lemma_scalar_window(s: &GameState, l: Line, e: int, m: Move)
    requires
        0 <= e < variant_len(s.variant),
        !occupied_at(&s.board, line_point(l, e)),
        forall|k: int|
            0 <= k < variant_len(s.variant) && k != e ==> #[trigger] occupied_at(&s.board, line_point(l, k)),
        is_legal(s, m),
        m.line == l,
    ensures
        m.line_pos == e,
{
    let lp = m.line_pos as int;
    assert(!occupied_at(&s.board, line_point(l, lp))) by {
        assert(pos_int(m.pos) == line_point(l, lp));
    }
    if lp != e {
        assert(occupied_at(&s.board, line_point(l, lp)));
    }
}

/// No legal move lies on a line with two empty cells, or with none.
proof fn lemma_scalar_no_window(s: &GameState, l: Line, m: Move)
    requires
        is_legal(s, m),
        m.line == l,
    ensures
        !occupied_at(&s.board, line_point(l, m.line_pos as int)),
        forall|j: int|
            0 <= j < variant_len(s.variant) && j != m.line_pos ==> #[trigger] occupied_at(&s.board, line_point(l, j)),
{
    assert(pos_int(m.pos) == line_point(l, m.line_pos as int));
}

/// A move found from point `cell` at offset `off` lies on the line starting
/// `off` steps back from `cell`.
proof fn lemma_scalar_line(s: &GameState, m: Move, cell: Pos, off: int, dir: Dir)
    requires
        is_legal(s, m),
        m.line.dir == dir,
        pos_int(cell) == anchor_of(m),
        first_occ(m.line_pos as int) == off,
        in_margin(cell),
    ensures
        m.line == (Line { origin: ((cell.0 - off * dir_delta(dir).0) as i16, (cell.1 - off * dir_delta(dir).1) as i16), dir }),
{
    lemma_steps(off, dir);
}

/// Scalar reference generator for one direction (appends, does not clear):
/// for each placed point and each offset, the window of the line starting
/// that far back is checked for exactly one empty cell; a window is taken
/// only from its first occupied point, so each is examined once per point.
pub fn legal_moves_dir_scalar_append(state: &GameState, out: &mut Vec<Move>, dir: Dir)
    requires
        state.wf(),
    ensures
        forall|m: Move|
            #[trigger] final(out)@.contains(m) <==> (old(out)@.contains(m) || (is_legal(state, m)
                && m.line.dir == dir)),
{
    let ghost out0 = out@;
    let n = state.variant.len();
    let max_overlap: u8 = match state.variant.touch_mode() {
        TouchMode::Touching => 1,
        TouchMode::Disjoint => 0,
    };
    let forbid = n - 1 - max_overlap;
    let (dx, dy) = dir.delta();
    let mut ci: usize = 0;
    while ci < state.board.cells.len()
        invariant
            ci <= state.board.cells@.len(),
            state.wf(),
            n == variant_len(state.variant),
            forbid == variant_forbid(state.variant),
            (dx, dy) == dir_delta(dir),
            forall|m: Move| #[trigger] out@.contains(m) <==> scalar_found(state, out0, dir, ci as int, 0, m),
        decreases state.board.cells@.len() - ci,
    {
        let cell = state.board.cells[ci];
        proof {
            state.board.lemma_cells_in_margin(ci as int);
        }
        let mut offset: u8 = 0;
        while offset < n
            invariant
                ci < state.board.cells@.len(),
                cell == state.board.cells@[ci as int],
                in_margin(cell),
                offset <= n,
                state.wf(),
                n == variant_len(state.variant),
                forbid == variant_forbid(state.variant),
                (dx, dy) == dir_delta(dir),
                forall|m: Move| #[trigger] out@.contains(m) <==> scalar_found(state, out0, dir, ci as int, offset as int, m),
            decreases n - offset,
        {
            proof {
                lemma_steps(offset as int, dir);
            }
            let origin = (cell.0 - offset as i16 * dx, cell.1 - offset as i16 * dy);
            let ghost l = Line { origin, dir };
            let mut occ: u8 = 0;
            let mut empty_idx: Option<u8> = None;
            let mut multi = false;
            let mut k: u8 = 0;
            while k < n && !multi
                invariant
                    k <= n,
                    4 <= n <= 5,
                    state.wf(),
                    (dx, dy) == dir_delta(dir),
                    -100 <= origin.0 <= 100 && -100 <= origin.1 <= 100,
                    l == (Line { origin, dir }),
                    occ <= k,
                    empty_idx is None ==> !multi && occ == k && forall|j: int| 0 <= j < k ==> #[trigger] occupied_at(&state.board, line_point(l, j)),
                    empty_idx matches Some(e) ==> e < k && !occupied_at(&state.board, line_point(l, e as int))
                        && (!multi ==> occ + 1 == k && forall|j: int| 0 <= j < k && j != e ==> #[trigger] occupied_at(&state.board, line_point(l, j))),
                    multi ==> empty_idx is Some && exists|j: int| 0 <= j < k && j != empty_idx->0 && !occupied_at(&state.board, #[trigger] line_point(l, j)),
                decreases n - k,
            {
                proof {
                    lemma_steps(k as int, dir);
                }
                let p = (origin.0 + k as i16 * dx, origin.1 + k as i16 * dy);
                proof {
                    assert(pos_int(p) == line_point(l, k as int));
                }
                if state.board.contains(p) {
                    occ = occ + 1;
                } else {
                    match empty_idx {
                        None => empty_idx = Some(k),
                        Some(_) => multi = true,
                    }
                }
                k = k + 1;
            }
            let ghost o = (origin.0 as int, origin.1 as int);
            proof {
                assert(in_grid(origin));
                assert(l.origin == origin);
            }
            if !multi && occ == n - 1 {
                let e = empty_idx.unwrap();
                let first: u8 = if e == 0 {
                    1
                } else {
                    0
                };
                if offset == first {
                    let line = Line::new(origin, dir);
                    if !state.line_index.conflicts(&line, forbid) {
                        proof {
                            lemma_steps(e as int, dir);
                        }
                        let mv = Move::new((origin.0 + e as i16 * dx, origin.1 + e as i16 * dy), line, e);
                        let ghost before = out@;
                        out.push(mv);
                        proof {
                            assert(is_legal(state, mv));
                            assert(anchor_of(mv) == pos_int(cell));
                            assert forall|m: Move| #[trigger] out@.contains(m) <==> scalar_found(state, out0, dir, ci as int, offset + 1, m) by {
                                if is_legal(state, m) && m.line.dir == dir && pos_int(state.board.cells@[ci as int]) == anchor_of(m)
                                    && first_occ(m.line_pos as int) == offset {
                                    lemma_scalar_line(state, m, cell, offset as int, dir);
                                    lemma_scalar_window(state, l, e as int, m);
                                    assert(m == mv);
                                }
                                if m == mv {
                                    assert(out@[out@.len() - 1] == mv);
                                }
                                if before.contains(m) {
                                    let q = choose|q: int| 0 <= q < before.len() && before[q] == m;
                                    assert(out@[q] == m);
                                }
                                if out@.contains(m) && m != mv {
                                    let q = choose|q: int| 0 <= q < out@.len() && out@[q] == m;
                                    assert(before.contains(m));
                                }
                            }
                        }
                    } else {
                        proof {
                            assert forall|m: Move| #[trigger] out@.contains(m) <==> scalar_found(state, out0, dir, ci as int, offset + 1, m) by {
                                if is_legal(state, m) && m.line.dir == dir && pos_int(state.board.cells@[ci as int]) == anchor_of(m)
                                    && first_occ(m.line_pos as int) == offset {
                                    lemma_scalar_line(state, m, cell, offset as int, dir);
                                    lemma_scalar_window(state, l, e as int, m);
                                }
                            }
                        }
                    }
                } else {
                    proof {
                        assert forall|m: Move| #[trigger] out@.contains(m) <==> scalar_found(state, out0, dir, ci as int, offset + 1, m) by {
                            if is_legal(state, m) && m.line.dir == dir && pos_int(state.board.cells@[ci as int]) == anchor_of(m)
                                && first_occ(m.line_pos as int) == offset {
                                lemma_scalar_line(state, m, cell, offset as int, dir);
                                lemma_scalar_window(state, l, e as int, m);
                            }
                        }
                    }
                }
            } else {
                proof {
                    assert forall|m: Move| #[trigger] out@.contains(m) <==> scalar_found(state, out0, dir, ci as int, offset + 1, m) by {
                        if is_legal(state, m) && m.line.dir == dir && pos_int(state.board.cells@[ci as int]) == anchor_of(m)
                            && first_occ(m.line_pos as int) == offset {
                            lemma_scalar_line(state, m, cell, offset as int, dir);
                            lemma_scalar_no_window(state, l, m);
                            if multi {
                                let e = empty_idx->0;
                                let j = choose|j: int| 0 <= j < k && j != e && !occupied_at(&state.board, #[trigger] line_point(l, j));
                                assert(j == m.line_pos || e == m.line_pos);
                            } else {
                                assert(empty_idx is None);
                                assert(occupied_at(&state.board, line_point(l, m.line_pos as int)));
                            }
                        }
                    }
                }
            }
            offset = offset + 1;
        }
        proof {
            assert forall|m: Move| #[trigger] out@.contains(m) <==> scalar_found(state, out0, dir, ci + 1, 0, m) by {
                if is_legal(state, m) && m.line.dir == dir && pos_int(state.board.cells@[ci as int]) == anchor_of(m) {
                    assert(first_occ(m.line_pos as int) < n);
                }
            }
        }
        ci = ci + 1;
    }
    proof {
        assert forall|m: Move| #[trigger] out@.contains(m) <==> (out0.contains(m) || (is_legal(state, m) && m.line.dir == dir)) by {
            if is_legal(state, m) && m.line.dir == dir {
                let a = anchor_of(m);
                let f = first_occ(m.line_pos as int);
                assert(occupied_at(&state.board, line_point(m.line, f)));
                let q = (a.0 as i16, a.1 as i16);
                state.board.lemma_occupied(q);
                let j = choose|j: int| 0 <= j < state.board.cells@.len() && state.board.cells@[j] == q;
                assert(pos_int(state.board.cells@[j]) == a);
            }
        }
    }
}

/// Full scalar reference generator (every direction): exactly the legal
/// moves.
pub fn legal_moves_scalar_into(state: &GameState, out: &mut Vec<Move>)
    requires
        state.wf(),
    ensures
        forall|m: Move| #[trigger] final(out)@.contains(m) <==> is_legal(state, m),
{
    out.clear();
    let dirs = Dir::all();
    let mut i: usize = 0;
    while i < 4
        invariant
            i <= 4,
            state.wf(),
            dirs@ == seq![Dir::H, Dir::V, Dir::DP, Dir::DN],
            forall|m: Move| #[trigger] out@.contains(m) <==> (is_legal(state, m) && dir_index(m.line.dir) < i),
        decreases 4 - i,
    {
        let d = dirs[i];
        assert(dir_index(d) == i);
        let ghost before = out@;
        legal_moves_dir_scalar_append(state, out, d);
        proof {
            assert forall|m: Move| #[trigger] out@.contains(m) <==> (is_legal(state, m) && dir_index(m.line.dir) < i + 1) by {
                if m.line.dir == d {
                    assert(dir_index(m.line.dir) == i);
                }
                if dir_index(m.line.dir) == i {
                    assert(m.line.dir == d);
                }
            }
        }
        i = i + 1;
    }
    proof {
        assert forall|m: Move| #[trigger] out@.contains(m) <==> is_legal(state, m) by {
            assert(dir_index(m.line.dir) < 4);
        }
    }
}

/// Generate all legal moves from the current game state, each once, in the
/// generator's order ([`scan_lt`]); by [`lemma_scan_sorted_unique`] that fixes
/// the list.
pub fn legal_moves(state: &GameState) -> (r: Vec<Move>)
    requires
        state.wf(),
    ensures
        forall|m: Move| r@.contains(m) <==> is_legal(state, m),
        r@.no_duplicates(),
        scan_sorted(r@),
{
    let mut moves = Vec::new();
    legal_moves_into(state, &mut moves);
    moves
}

/// Same as [`legal_moves`] but writes into a caller-owned buffer (cleared
/// first), so a search can reuse one allocation across nodes.
pub fn legal_moves_into(state: &GameState, moves: &mut Vec<Move>)
    requires
        state.wf(),
    ensures
        forall|m: Move| final(moves)@.contains(m) <==> is_legal(state, m),
        final(moves)@.no_duplicates(),
        scan_sorted(final(moves)@),
{
    moves.clear();
    let bb = state.bounding_box();
    match bb {
        None => {
            proof {
                assert forall|m: Move| !is_legal(state, m) by {
                    if is_legal(state, m) {
                        let j = m.line_pos as int;
                        let k = if j == 0 { 1int } else { 0int };
                        assert(occupied_at(&state.board, line_point(m.line, k)));
                        let p = line_point(m.line, k);
                        state.board.lemma_occupied((p.0 as i16, p.1 as i16));
                    }
                }
            }
        },
        Some((_, min_y, _, max_y)) => {
            let dirs = Dir::all();
            let mut i: usize = 0;
            while i < 4
                invariant
                    i <= 4,
                    state.wf(),
                    dirs@ == seq![Dir::H, Dir::V, Dir::DP, Dir::DN],
                    forall|c: int|
                        0 <= c < state.board.cells@.len() ==> min_y <= #[trigger] state.board.cells@[c].1
                            <= max_y,
                    moves@.no_duplicates(),
                    forall|m: Move|
                        #[trigger] moves@.contains(m) <==> (is_legal(state, m) && dir_index(m.line.dir) < i),
                    forall|k: int| 0 <= k < moves@.len() ==> dir_index((#[trigger] moves@[k]).line.dir) < i,
                    scan_sorted(moves@),
                decreases 4 - i,
            {
                let d = dirs[i];
                assert(dir_index(d) == i);
                assert forall|m: Move| #[trigger] moves@.contains(m) implies m.line.dir != d by {
                    assert(dir_index(m.line.dir) < i);
                }
                let ghost before = moves@;
                append_dir(state, moves, min_y, max_y, d);
                proof {
                    assert forall|a: int, b: int| 0 <= a < b < moves@.len() implies scan_lt(
                        #[trigger] moves@[a],
                        #[trigger] moves@[b],
                    ) by {
                        if b < before.len() {
                            assert(moves@[a] == before[a] && moves@[b] == before[b]);
                        } else if a < before.len() {
                            assert(moves@[a] == before[a]);
                            assert(dir_index(before[a].line.dir) < i);
                        }
                    }
                    assert forall|k: int| 0 <= k < moves@.len() implies dir_index(
                        (#[trigger] moves@[k]).line.dir,
                    ) < i + 1 by {
                        if k < before.len() {
                            assert(moves@[k] == before[k]);
                        }
                    }
                    assert forall|m: Move|
                        #[trigger] moves@.contains(m) <==> (is_legal(state, m) && dir_index(m.line.dir) < i + 1) by {
                        assert(moves@.contains(m) == (before.contains(m) || (is_legal(state, m)
                            && m.line.dir == d)));
                        assert(before.contains(m) == (is_legal(state, m) && dir_index(m.line.dir) < i));
                        if m.line.dir == d {
                            assert(dir_index(m.line.dir) == i);
                        }
                        if dir_index(m.line.dir) == i {
                            assert(m.line.dir == d);
                        }
                    }
                }
                i = i + 1;
            }
            proof {
                assert forall|m: Move| moves@.contains(m) <==> is_legal(state, m) by {
                    assert(dir_index(m.line.dir) < 4);
                }
            }
        },
    }
}

/// Append a single direction's legal moves via the bitboard row scan.
///
/// A length-`n` window `(gx + k·dx, gy + k·dy)` is found by loading each row it
/// touches shifted right by `k·dx`, collapsing the window onto one column
/// position; ANDing all but one offset yields every window with exactly one
/// empty cell, for the whole row at once.
pub fn append_dir(state: &GameState, out: &mut Vec<Move>, min_y: i16, max_y: i16, dir: Dir)
    requires
        state.wf(),
        forall|c: int|
            0 <= c < state.board.cells@.len() ==> min_y <= #[trigger] state.board.cells@[c].1 <= max_y,
        old(out)@.no_duplicates(),
        forall|m: Move| #[trigger] old(out)@.contains(m) ==> m.line.dir != dir,
    ensures
        final(out)@.no_duplicates(),
        forall|m: Move|
            #[trigger] final(out)@.contains(m) <==> (old(out)@.contains(m) || (is_legal(state, m)
                && m.line.dir == dir)),
        old(out)@.len() <= final(out)@.len(),
        forall|i: int| 0 <= i < old(out)@.len() ==> #[trigger] final(out)@[i] == old(out)@[i],
        forall|i: int|
            old(out)@.len() <= i < final(out)@.len() ==> (#[trigger] final(out)@[i]).line.dir == dir,
        forall|i: int, k: int|
            old(out)@.len() <= i < k < final(out)@.len() ==> scan_lt(
                #[trigger] final(out)@[i],
                #[trigger] final(out)@[k],
            ),
{
    let n = state.variant.len();
    let nu = n as usize;
    let forbid = state.variant.forbid();
    let (dx, dy) = dir.delta();
    let span: i32 = nu as i32 - 1;
    let min_gy: i32 = min_y as i32 + OFFSET as i32;
    let max_gy: i32 = max_y as i32 + OFFSET as i32;
    let (gy_lo, gy_hi): (i32, i32) = if dy == 0 {
        (if min_gy > 0 { min_gy } else { 0 }, if max_gy < 127 { max_gy } else { 127 })
    } else if dy > 0 {
        (if min_gy - span > 0 { min_gy - span } else { 0 }, if max_gy < 127 - span { max_gy } else { 127 - span })
    } else {
        (if min_gy > span { min_gy } else { span }, if max_gy + span < 127 { max_gy + span } else { 127 })
    };
    assert(gy_lo == row_lo(min_gy as int, dir, span as int));
    assert(gy_hi == row_hi(max_gy as int, dir, span as int));
    let ghost out0 = out@;
    let ghost n_i = n as int;
    proof {
        assert forall|m: Move| is_legal(state, m) && m.line.dir == dir implies gy_lo <= move_gy(m) <= gy_hi by {
            lemma_legal_is_window(state, m, min_y, max_y);
        }
    }
    if gy_lo > gy_hi {
        proof {
            assert forall|m: Move| !(is_legal(state, m) && m.line.dir == dir) by {}
        }
        return;
    }
    let mut a: Vec<u128> = Vec::new();
    let mut k0: usize = 0;
    while k0 < nu
        invariant
            k0 <= nu,
            a@.len() == k0,
        decreases nu - k0,
    {
        a.push(0u128);
        k0 = k0 + 1;
    }
    let mut gy: i32 = gy_lo;
    proof {
        assert forall|m: Move| out@.contains(m) == emitted(state, out0, dir, gy as int, 0, 0, m) by {
            if is_legal(state, m) && m.line.dir == dir {
                lemma_legal_is_window(state, m, min_y, max_y);
            }
        }
    }
    while gy <= gy_hi
        invariant
            state.wf(),
            n == variant_len(state.variant),
            nu == n,
            4 <= n <= 5,
            span == n - 1,
            forbid == variant_forbid(state.variant),
            forbid < 128,
            (dx, dy) == dir_delta(dir),
            gy_lo == row_lo(min_gy as int, dir, span as int),
            gy_hi == row_hi(max_gy as int, dir, span as int),
            gy_lo <= gy <= gy_hi + 1,
            a@.len() == nu,
            forall|c: int|
                0 <= c < state.board.cells@.len() ==> min_y <= #[trigger] state.board.cells@[c].1 <= max_y,
            forall|m: Move| is_legal(state, m) && m.line.dir == dir ==> gy_lo <= move_gy(m) <= gy_hi,
            forall|m: Move| #[trigger] out0.contains(m) ==> m.line.dir != dir,
            out@.no_duplicates(),
            forall|m: Move| #[trigger] out@.contains(m) == emitted(state, out0, dir, gy as int, 0, 0, m),
            out0.len() <= out@.len(),
            forall|i: int| 0 <= i < out0.len() ==> #[trigger] out@[i] == out0[i],
            forall|i: int|
                out0.len() <= i < out@.len() ==> (#[trigger] out@[i]).line.dir == dir
                    && before_cursor(out@[i], gy as int, 0, 0),
            forall|i: int, k: int|
                out0.len() <= i < k < out@.len() ==> scan_lt(#[trigger] out@[i], #[trigger] out@[k]),
        decreases gy_hi + 1 - gy,
    {
        let mut k: usize = 0;
        while k < nu
            invariant
                state.wf(),
                nu == variant_len(state.variant),
                4 <= nu <= 5,
                span == nu - 1,
                (dx, dy) == dir_delta(dir),
                gy_lo == row_lo(min_gy as int, dir, span as int),
                gy_hi == row_hi(max_gy as int, dir, span as int),
                gy_lo <= gy <= gy_hi,
                k <= nu,
                a@.len() == nu,
                forall|k2: int, x: u128|
                    0 <= k2 < k && x < 128 ==> #[trigger] bit(a@[k2], x) == wcell(
                        &state.board,
                        x as int,
                        gy as int,
                        dir,
                        k2,
                    ),
            decreases nu - k,
        {
            proof {
                lemma_steps(k as int, dir);
            }
            let ry = (gy + k as i32 * dy as i32) as usize;
            let sh: u32 = k as u32 * dx as u32;
            let row = state.board.row(ry);
            let w = row >> sh;
            proof {
                assert forall|x: u128| x < 128 implies #[trigger] bit(w, x) == wcell(
                    &state.board,
                    x as int,
                    gy as int,
                    dir,
                    k as int,
                ) by {
                    lemma_bit_shr(row, sh as u128, x);
                }
            }
            let ghost a_prev = a@;
            a.set(k, w);
            proof {
                assert forall|k2: int, x: u128|
                    0 <= k2 < k + 1 && x < 128 implies #[trigger] bit(a@[k2], x) == wcell(
                    &state.board,
                    x as int,
                    gy as int,
                    dir,
                    k2,
                ) by {
                    if k2 < k {
                        assert(a@[k2] == a_prev[k2]);
                    }
                }
            }
            k = k + 1;
        }
        let mut j: usize = 0;
        while j < nu
            invariant
                state.wf(),
                n == variant_len(state.variant),
                nu == n,
                4 <= nu <= 5,
                forbid == variant_forbid(state.variant),
                forbid < 128,
                (dx, dy) == dir_delta(dir),
                0 <= gy < 128,
                j <= nu,
                forall|c: int|
                    0 <= c < state.board.cells@.len() ==> min_y <= #[trigger] state.board.cells@[c].1
                        <= max_y,
                a@.len() == nu,
                forall|k2: int, x: u128|
                    0 <= k2 < nu && x < 128 ==> #[trigger] bit(a@[k2], x) == wcell(
                        &state.board,
                        x as int,
                        gy as int,
                        dir,
                        k2,
                    ),
                forall|m: Move| #[trigger] out0.contains(m) ==> m.line.dir != dir,
                out@.no_duplicates(),
                forall|m: Move| #[trigger] out@.contains(m) == emitted(state, out0, dir, gy as int, j as int, 0, m),
                out0.len() <= out@.len(),
                forall|i: int| 0 <= i < out0.len() ==> #[trigger] out@[i] == out0[i],
                forall|i: int|
                    out0.len() <= i < out@.len() ==> (#[trigger] out@[i]).line.dir == dir
                        && before_cursor(out@[i], gy as int, j as int, 0),
                forall|i: int, k: int|
                    out0.len() <= i < k < out@.len() ==> scan_lt(#[trigger] out@[i], #[trigger] out@[k]),
            decreases nu - j,
        {
            let mut hits: u128 = !a[j];
            proof {
                assert forall|x: u128| x < 128 implies #[trigger] bit(hits, x) == !bit(a@[j as int], x) by {
                    lemma_bit_not(a@[j as int], x);
                }
            }
            let mut k: usize = 0;
            while k < nu
                invariant
                    j < nu,
                    k <= nu,
                    a@.len() == nu,
                    forall|x: u128|
                        x < 128 ==> #[trigger] bit(hits, x) == (!bit(a@[j as int], x) && forall|k2: int|
                            0 <= k2 < k && k2 != j ==> #[trigger] bit(a@[k2], x)),
                decreases nu - k,
            {
                if k != j {
                    let ghost h0 = hits;
                    hits = hits & a[k];
                    proof {
                        assert forall|x: u128| x < 128 implies #[trigger] bit(hits, x) == (!bit(a@[j as int], x)
                            && forall|k2: int| 0 <= k2 < k + 1 && k2 != j ==> #[trigger] bit(a@[k2], x)) by {
                            lemma_bit_and(h0, a@[k as int], x);
                        }
                    }
                }
                k = k + 1;
            }
            let ghost hits0 = hits;
            proof {
                assert forall|x: u128| x < 128 implies #[trigger] bit(hits0, x) == window_ok(
                    &state.board,
                    n as int,
                    x as int,
                    gy as int,
                    dir,
                    j as int,
                ) by {
                    if bit(hits0, x) {
                        assert forall|k2: int| 0 <= k2 < n && k2 != j implies #[trigger] wcell(
                            &state.board,
                            x as int,
                            gy as int,
                            dir,
                            k2,
                        ) by {
                            assert(bit(a@[k2], x));
                        }
                    }
                    if window_ok(&state.board, n as int, x as int, gy as int, dir, j as int) {
                        assert forall|k2: int| 0 <= k2 < nu && k2 != j implies #[trigger] bit(a@[k2], x) by {
                            assert(wcell(&state.board, x as int, gy as int, dir, k2));
                        }
                    }
                }
            }
            let ghost mut lo: int = 0;
            while hits != 0
                invariant
                    state.wf(),
                    n == variant_len(state.variant),
                    nu == n,
                    4 <= nu <= 5,
                    forbid == variant_forbid(state.variant),
                    forbid < 128,
                    (dx, dy) == dir_delta(dir),
                    0 <= gy < 128,
                    j < nu,
                    0 <= lo <= 128,
                    forall|c: int|
                        0 <= c < state.board.cells@.len() ==> min_y <= #[trigger] state.board.cells@[c].1
                            <= max_y,
                    forall|x: u128| x < 128 ==> #[trigger] bit(hits0, x) == window_ok(
                        &state.board,
                        n as int,
                        x as int,
                        gy as int,
                        dir,
                        j as int,
                    ),
                    forall|x: u128| x < 128 ==> #[trigger] bit(hits, x) == (bit(hits0, x) && x >= lo),
                    forall|m: Move| #[trigger] out0.contains(m) ==> m.line.dir != dir,
                    out@.no_duplicates(),
                    forall|m: Move| out@.contains(m) == emitted(state, out0, dir, gy as int, j as int, lo, m),
                    out0.len() <= out@.len(),
                    forall|i: int| 0 <= i < out0.len() ==> #[trigger] out@[i] == out0[i],
                    forall|i: int|
                        out0.len() <= i < out@.len() ==> (#[trigger] out@[i]).line.dir == dir
                            && before_cursor(out@[i], gy as int, j as int, lo),
                    forall|i: int, k: int|
                        out0.len() <= i < k < out@.len() ==> scan_lt(#[trigger] out@[i], #[trigger] out@[k]),
                decreases 128 - lo,
            {
                let gx = lowest_bit(hits);
                let ghost h0 = hits;
                hits = hits & (hits - 1);
                proof {
                    assert(bit(hits0, gx as u128) && gx >= lo);
                    assert forall|x: u128| x < 128 implies #[trigger] bit(hits, x) == (bit(hits0, x) && x >= gx + 1) by {
                        crate::game::bits::lemma_bit_clear(h0, gx as u128, x);
                        if x < gx {
                            assert(!bit(h0, x));
                        }
                    }
                }
                let ox: i16 = gx as i16 - OFFSET;
                let oy: i16 = gy as i16 - OFFSET;
                let line = Line::new((ox, oy), dir);
                let ghost m_new = window_move(gx as int, gy as int, dir, j as int);
                proof {
                    lemma_window_legal(state, gx as int, gy as int, dir, j as int);
                    assert(line == window_line(gx as int, gy as int, dir));
                    assert forall|m: Move|
                        is_legal(state, m) && m.line.dir == dir && move_gy(m) == gy && m.line_pos == j
                            && lo <= move_gx(m) <= gx implies m == m_new by {
                        lemma_legal_is_window(state, m, min_y, max_y);
                        lemma_window_legal(state, move_gx(m), gy as int, dir, j as int);
                        if move_gx(m) < gx {
                            assert(!bit(h0, move_gx(m) as u128));
                            assert(!bit(hits0, move_gx(m) as u128));
                        }
                    }
                    assert(move_gx(m_new) == gx && move_gy(m_new) == gy && m_new.line_pos == j);
                }
                let ghost out_before = out@;
                let blocked = state.line_index.conflicts(&line, forbid);
                if !blocked {
                    proof {
                        lemma_steps(j as int, dir);
                    }
                    let mv = Move::new((ox + j as i16 * dx, oy + j as i16 * dy), line, j as u8);
                    assert(mv == m_new);
                    assert(!emitted(state, out0, dir, gy as int, j as int, lo, mv));
                    assert(!out@.contains(mv));
                    out.push(mv);
                    proof {
                        assert forall|m: Move| out@.contains(m) == (out_before.contains(m) || m == mv) by {
                            if out@.contains(m) && m != mv {
                                let q = choose|q: int| 0 <= q < out@.len() && out@[q] == m;
                                assert(out_before[q] == m);
                            }
                            if out_before.contains(m) {
                                let q = choose|q: int| 0 <= q < out_before.len() && out_before[q] == m;
                                assert(out@[q] == m);
                            }
                            if m == mv {
                                assert(out@[out@.len() - 1] == m);
                            }
                        }
                    }
                }
                proof {
                    assert forall|m: Move|
                        out@.contains(m) == emitted(state, out0, dir, gy as int, j as int, gx + 1, m) by {
                        if m == m_new {
                            assert(is_legal(state, m) == !blocked);
                        } else {
                            assert(out_before.contains(m) == out@.contains(m));
                            if is_legal(state, m) && m.line.dir == dir && move_gy(m) == gy
                                && m.line_pos == j && lo <= move_gx(m) && move_gx(m) < gx + 1 {
                                assert(m == m_new);
                            }
                        }
                    }
                    lo = gx + 1;
                }
            }
            proof {
                assert forall|m: Move|
                    out@.contains(m) == emitted(state, out0, dir, gy as int, j + 1, 0, m) by {
                    if is_legal(state, m) && m.line.dir == dir {
                        lemma_legal_is_window(state, m, min_y, max_y);
                    }
                    if is_legal(state, m) && m.line.dir == dir && move_gy(m) == gy && m.line_pos == j {
                        lemma_window_legal(state, move_gx(m), gy as int, dir, j as int);
                        if move_gx(m) >= lo {
                            assert(bit(hits, move_gx(m) as u128));
                            crate::game::bits::lemma_bit_nonzero(hits, move_gx(m) as u128);
                        }
                    }
                }
            }
            j = j + 1;
        }
        proof {
            assert forall|m: Move|
                out@.contains(m) == emitted(state, out0, dir, gy + 1, 0, 0, m) by {
                assert(out@.contains(m) == emitted(state, out0, dir, gy as int, nu as int, 0, m));
                if is_legal(state, m) {
                    assert(m.line_pos < nu);
                    if m.line.dir == dir {
                        lemma_legal_is_window(state, m, min_y, max_y);
                    }
                    assert(emitted(state, out0, dir, gy as int, nu as int, 0, m) == emitted(
                        state,
                        out0,
                        dir,
                        gy + 1,
                        0,
                        0,
                        m,
                    ));
                } else {
                    assert(emitted(state, out0, dir, gy as int, nu as int, 0, m) == out0.contains(m));
                    assert(emitted(state, out0, dir, gy + 1, 0, 0, m) == out0.contains(m));
                }
            }
        }
        gy = gy + 1;
    }
    proof {
        assert forall|m: Move|
            out@.contains(m) <==> (out0.contains(m) || (is_legal(state, m) && m.line.dir == dir)) by {
            assert(out@.contains(m) == emitted(state, out0, dir, gy as int, 0, 0, m));
        }
    }
}

} // verus!
