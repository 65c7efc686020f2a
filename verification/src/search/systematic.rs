//! Building blocks of the systematic (exhaustive, stateless) search.
//!
//! Each position is reached exactly once thanks to two memory-free layers:
//! the **trace normal form** ([`canonical_ok`]) explores a move only if it
//! could not have been played earlier, and **structural symmetry** explores
//! one representative per orbit of the current stabiliser
//! ([`canonical_children_into`]). The legal set of a child is derived from
//! its parent's ([`child_legal_into`]) instead of a full rescan.
use crate::game::board::{in_grid, in_margin, Pos};
use crate::game::line::{dir_delta, dir_index, lemma_step_bound, line_point, pos_int, pos_small, same_pos, Dir, Line};
use crate::game::line_index::lines_conflict_spec;
use crate::game::moves::{is_legal, occupied_at, Move};
use crate::game::rules::{variant_forbid, variant_len, TouchMode, Variant};
use crate::game::state::{
    lemma_apply_follows_history, lemma_undo_after_apply, lines_follow_history, lines_of, placeable, view_apply,
    view_undo, GameState, GameView,
};
use crate::search::symmetry::stab_after;
use crate::search::nrpa::macros::{applied, lemma_legal_small, lemma_undo_apply_same, occupied_pt, same_but_redo};
use crate::game::moves::legal_moves_into;
use crate::search::symmetry::{
    apply_transform, is_orbit_min, k_small, lemma_stab_set, line_small, move_small, n_small,
    orbit_min_spec, stab_has, sym_small, transform_dir_spec, transform_line, transform_spec,
    transformed_end_spec,
};
use std::sync::atomic::{AtomicBool, Ordering};
use crate::search::coverage::{
    covered, explored, kept_child, lemma_done_leaf, lemma_done_pop, lemma_done_push, lemma_done_skip,
    lemma_explored_covered, lemma_explored_node, lemma_frame_kept, lemma_stab_step, lemma_stack_covered, stab_along,
    stab_step, stack_done,
};
use vstd::prelude::*;

verus! {

/// Identity-only stabiliser bitmask (no symmetry left).
pub const NO_SYMMETRY: u8 = 1;

/// A legal move at a node together with its trace-canonical flag.
#[derive(Clone, Copy, Debug)]
pub struct Cand {
    pub mv: Move,
    pub canon: bool,
}

/// One level of the explicit depth-first search: the canonical children of a
/// node, how many have been descended into, the node's stabiliser and its
/// legal set (with trace-canonical flags).
pub struct Frame {
    pub children: Vec<Move>,
    pub idx: usize,
    pub stab: u8,
    pub legal: Vec<Cand>,
}

/// `forbid` parameter of the touch rule for `variant`: the line length less
/// one, less the overlap the variant allows.
pub fn forbid_of(variant: Variant) -> (r: u8)
    ensures
        r == variant_forbid(variant),
{
    let max_overlap: u8 = match variant.touch_mode() {
        TouchMode::Touching => 1,
        TouchMode::Disjoint => 0,
    };
    variant.len() - 1 - max_overlap
}

/// Lexicographic order on points.
pub open spec fn pos_lt(a: Pos, b: Pos) -> bool {
    a.0 < b.0 || (a.0 == b.0 && a.1 < b.1)
}

/// `m` depends on a move that placed `q`: `q` is one of the already-occupied
/// points of `m`'s line.
pub open spec fn depends_on(m: Move, q: Pos, n: int) -> bool {
    q != m.pos && exists|k: int| 0 <= k < n && #[trigger] line_point(m.line, k) == pos_int(q)
}

/// Trace normal form: scanning the history back from the most recent move,
/// every move `m` commutes with must have placed a smaller point than `m`,
/// up to the first move `m` depends on.
pub open spec fn trace_canonical(m: Move, h: Seq<Move>, n: int) -> bool
    decreases h.len(),
{
    if h.len() == 0 {
        true
    } else if depends_on(m, h.last().pos, n) {
        true
    } else if pos_lt(m.pos, h.last().pos) {
        false
    } else {
        trace_canonical(m, h.drop_last(), n)
    }
}

/// Whether `v` holds `p`.
fn contains_pos(v: &Vec<Pos>, p: Pos) -> (r: bool)
    ensures
        r == v@.contains(p),
{
    let mut i: usize = 0;
    while i < v.len()
        invariant
            i <= v@.len(),
            forall|j: int| 0 <= j < i ==> v@[j] != p,
        decreases v@.len() - i,
    {
        if same_pos(v[i], p) {
            return true;
        }
        i = i + 1;
    }
    false
}

/// Lexicographic normal form for traces: `mv` is canonical iff it could not
/// have been played earlier in the sequence.
pub fn canonical_ok(mv: &Move, state: &GameState) -> (r: bool)
    requires
        pos_small(mv.line.origin),
    ensures
        r == trace_canonical(*mv, state.history@, variant_len(state.variant) as int),
{
    let n = state.variant.len();
    proof {
        crate::game::line::lemma_small_line_fits(mv.line, n as int);
    }
    let cells = mv.line.positions(n);
    let mut deps: Vec<Pos> = Vec::new();
    let mut c: usize = 0;
    while c < cells.len()
        invariant
            c <= cells@.len(),
            cells@.len() == n,
            forall|k: int| 0 <= k < n ==> pos_int(#[trigger] cells@[k]) == line_point(mv.line, k),
            forall|q: Pos|
                deps@.contains(q) <==> (q != mv.pos && exists|k: int|
                    0 <= k < c && #[trigger] line_point(mv.line, k) == pos_int(q)),
        decreases cells@.len() - c,
    {
        let q = cells[c];
        let ghost d0 = deps@;
        if !same_pos(q, mv.pos) {
            deps.push(q);
        }
        proof {
            assert(pos_int(q) == line_point(mv.line, c as int));
            assert forall|r: Pos|
                deps@.contains(r) <==> (r != mv.pos && exists|k: int|
                    0 <= k < c + 1 && #[trigger] line_point(mv.line, k) == pos_int(r)) by {
                if deps@.contains(r) {
                    if !d0.contains(r) {
                        let j = choose|j: int| 0 <= j < deps@.len() && deps@[j] == r;
                        assert(j == d0.len());
                        assert(r == q);
                        assert(line_point(mv.line, c as int) == pos_int(r));
                    } else {
                        let k = choose|k: int| 0 <= k < c && #[trigger] line_point(mv.line, k) == pos_int(r);
                        assert(0 <= k < c + 1 && line_point(mv.line, k) == pos_int(r));
                    }
                }
                if r != mv.pos && (exists|k: int| 0 <= k < c + 1 && #[trigger] line_point(mv.line, k) == pos_int(r)) {
                    let k = choose|k: int| 0 <= k < c + 1 && #[trigger] line_point(mv.line, k) == pos_int(r);
                    if k == c {
                        assert(pos_int(r) == pos_int(q));
                        assert(r == q);
                        assert(deps@[deps@.len() - 1] == q);
                    } else {
                        assert(d0.contains(r));
                        let j = choose|j: int| 0 <= j < d0.len() && d0[j] == r;
                        assert(deps@[j] == r);
                    }
                }
            }
        }
        c = c + 1;
    }
    let ghost h = state.history@;
    let ghost nn = n as int;
    let mut i: usize = state.history.len();
    proof {
        assert(h.take(i as int) =~= h);
    }
    while i > 0
        invariant
            i <= h.len(),
            h == state.history@,
            nn == n,
            n == variant_len(state.variant),
            trace_canonical(*mv, h, nn) == trace_canonical(*mv, h.take(i as int), nn),
            forall|q: Pos| deps@.contains(q) <==> depends_on(*mv, q, nn),
        decreases i,
    {
        let p = state.history[i - 1].pos;
        proof {
            let t = h.take(i as int);
            assert(t.last() == h[i - 1]);
            assert(t.drop_last() =~= h.take(i - 1));
        }
        if contains_pos(&deps, p) {
            proof {
                assert(depends_on(*mv, h.take(i as int).last().pos, nn));
                assert(trace_canonical(*mv, h.take(i as int), nn));
            }
            return true;
        }
        if mv.pos.0 < p.0 || (mv.pos.0 == p.0 && mv.pos.1 < p.1) {
            proof {
                assert(!depends_on(*mv, h.take(i as int).last().pos, nn));
                assert(pos_lt(mv.pos, h.take(i as int).last().pos));
                assert(!trace_canonical(*mv, h.take(i as int), nn));
            }
            return false;
        }
        i = i - 1;
    }
    true
}

/// Trace-canonical flags for a freshly-scanned legal set (chunk roots only).
pub fn root_candidates(out: &mut Vec<Cand>, legal: &[Move], state: &GameState)
    requires
        forall|i: int| 0 <= i < legal@.len() ==> pos_small(#[trigger] legal@[i].line.origin),
    ensures
        final(out)@.len() == legal@.len(),
        forall|i: int|
            0 <= i < legal@.len() ==> #[trigger] final(out)@[i].mv == legal@[i] && final(out)@[i].canon
                == trace_canonical(legal@[i], state.history@, variant_len(state.variant) as int),
{
    out.clear();
    let mut i: usize = 0;
    while i < legal.len()
        invariant
            i <= legal@.len(),
            out@.len() == i,
            forall|j: int| 0 <= j < legal@.len() ==> pos_small(#[trigger] legal@[j].line.origin),
            forall|j: int|
                0 <= j < i ==> #[trigger] out@[j].mv == legal@[j] && out@[j].canon == trace_canonical(
                    legal@[j],
                    state.history@,
                    variant_len(state.variant) as int,
                ),
        decreases legal@.len() - i,
    {
        let mv = legal[i];
        let canon = canonical_ok(&mv, state);
        out.push(Cand { mv, canon });
        i = i + 1;
    }
}

/// Whether a candidate is descended into: trace-canonical and, while symmetry
/// remains, the representative of its orbit.
pub open spec fn keeps(c: Cand, stab: u8, k: int, n: int) -> bool {
    c.canon && (stab == 1 || orbit_min_spec(c.mv, stab, k, n))
}

/// The candidates kept, in order.
pub open spec fn children_spec(legal: Seq<Cand>, stab: u8, k: int, n: int) -> Seq<Move>
    decreases legal.len(),
{
    if legal.len() == 0 {
        Seq::empty()
    } else {
        let rest = children_spec(legal.drop_last(), stab, k, n);
        if keeps(legal.last(), stab, k, n) {
            rest.push(legal.last().mv)
        } else {
            rest
        }
    }
}

/// Canonical children to descend into, from a node's legal set.
pub fn canonical_children_into(out: &mut Vec<Move>, legal: &[Cand], stab: u8, k: i16, n: i16)
    requires
        forall|i: int| 0 <= i < legal@.len() ==> move_small(#[trigger] legal@[i].mv),
        k_small(k),
        n_small(n),
    ensures
        final(out)@ == children_spec(legal@, stab, k as int, n as int),
{
    out.clear();
    let symmetric = stab != NO_SYMMETRY;
    let mut i: usize = 0;
    while i < legal.len()
        invariant
            i <= legal@.len(),
            symmetric == (stab != 1),
            k_small(k),
            n_small(n),
            forall|j: int| 0 <= j < legal@.len() ==> move_small(#[trigger] legal@[j].mv),
            out@ == children_spec(legal@.take(i as int), stab, k as int, n as int),
        decreases legal@.len() - i,
    {
        let c = legal[i];
        proof {
            let t = legal@.take(i + 1);
            assert(t.last() == c);
            assert(t.drop_last() =~= legal@.take(i as int));
        }
        if c.canon && (!symmetric || is_orbit_min(&c.mv, stab, k, n)) {
            out.push(c.mv);
        }
        i = i + 1;
    }
    proof {
        assert(legal@.take(legal@.len() as int) =~= legal@);
    }
}

/// The image of line `l` under transform `t`, in canonical form.
pub open spec fn line_image(t: int, l: Line, k: int, n: int) -> Line {
    let e = transformed_end_spec(t, l, k, n);
    Line { origin: (e.0 as i16, e.1 as i16), dir: transform_dir_spec(t, l.dir) }
}

/// Transform `t` maps every occupied point of `s` to an occupied point.
pub open spec fn fixes_points(s: &GameState, t: int, k: int) -> bool {
    forall|i: int|
        0 <= i < s.board.cells@.len() ==> #[trigger] occupied_at(
            &s.board,
            transform_spec(t, s.board.cells@[i].0 as int, s.board.cells@[i].1 as int, k),
        )
}

/// Transform `t` maps every line drawn in `s` to a drawn line.
pub open spec fn fixes_lines(s: &GameState, t: int, k: int, n: int) -> bool {
    forall|i: int| 0 <= i < s.history@.len() ==> s.line_index.has(line_image(t, #[trigger] s.history@[i].line, k, n))
}

/// Stabiliser of `state`: the bitmask of D4 transforms that map its occupied
/// points to occupied points and its drawn lines to drawn lines.
pub fn initial_stabilizer(state: &GameState, k: i16, n: i16) -> (r: u8)
    requires
        state.wf(),
        k_small(k),
        n_small(n),
    ensures
        forall|t: int|
            0 <= t < 8 ==> #[trigger] stab_has(r, t) == (fixes_points(state, t, k as int) && fixes_lines(
                state,
                t,
                k as int,
                n as int,
            )),
{
    let mut stab: u8 = 0;
    proof {
        assert forall|u: int| 0 <= u < 8 implies !#[trigger] stab_has(0u8, u) by {
            let uu = u as u8;
            assert((0u8 >> uu) & 1u8 != 1u8) by (bit_vector);
        }
    }
    let mut t: usize = 0;
    while t < 8
        invariant
            t <= 8,
            state.wf(),
            k_small(k),
            n_small(n),
            forall|u: int|
                0 <= u < 8 ==> #[trigger] stab_has(stab, u) == (u < t && fixes_points(state, u, k as int)
                    && fixes_lines(state, u, k as int, n as int)),
        decreases 8 - t,
    {
        let mut points_ok = true;
        let mut i: usize = 0;
        while i < state.board.cells.len()
            invariant
                t < 8,
                i <= state.board.cells@.len(),
                state.wf(),
                k_small(k),
                points_ok == forall|j: int|
                    0 <= j < i ==> #[trigger] occupied_at(
                        &state.board,
                        transform_spec(
                            t as int,
                            state.board.cells@[j].0 as int,
                            state.board.cells@[j].1 as int,
                            k as int,
                        ),
                    ),
            decreases state.board.cells@.len() - i,
        {
            let c = state.board.cells[i];
            proof {
                state.board.lemma_cells_in_margin(i as int);
            }
            let img = apply_transform(t, c, k);
            let present = state.board.contains(img);
            proof {
                let p = transform_spec(t as int, c.0 as int, c.1 as int, k as int);
                assert(p.0 as i16 == img.0 && p.1 as i16 == img.1);
                assert(occupied_at(&state.board, p) == present);
            }
            if !present {
                points_ok = false;
            }
            i = i + 1;
        }
        let mut lines_ok = true;
        let mut i: usize = 0;
        while i < state.history.len()
            invariant
                t < 8,
                i <= state.history@.len(),
                state.wf(),
                k_small(k),
                n_small(n),
                lines_ok == forall|j: int|
                    0 <= j < i ==> state.line_index.has(
                        line_image(t as int, #[trigger] state.history@[j].line, k as int, n as int),
                    ),
            decreases state.history@.len() - i,
        {
            let l = state.history[i].line;
            assert(crate::game::state::placeable(state.history@[i as int]));
            let img = transform_line(t, &l, k, n);
            assert(img == line_image(t as int, l, k as int, n as int));
            if !state.line_index.contains(&img) {
                lines_ok = false;
            }
            i = i + 1;
        }
        if points_ok && lines_ok {
            let ghost s0 = stab;
            stab = stab | (1u8 << (t as u8));
            proof {
                assert forall|u: int| 0 <= u < 8 implies #[trigger] stab_has(stab, u) == (u < t + 1
                    && fixes_points(state, u, k as int) && fixes_lines(state, u, k as int, n as int)) by {
                    lemma_stab_set(s0, t as u8, u as u8);
                }
            }
        }
        t = t + 1;
    }
    stab
}

/// The legal move drawing `line`, if any: the line's cells hold exactly one
/// empty cell and the touch rule allows the line.
fn window_at(state: &GameState, line: Line, forbid: u8, nu: usize) -> (r: Option<Move>)
    requires
        state.wf(),
        forbid == variant_forbid(state.variant),
        nu == variant_len(state.variant),
        pos_small(line.origin),
        in_grid(line.origin),
    ensures
        match r {
            Some(m) => m.line == line && is_legal(state, m) && forall|m2: Move|
                m2.line == line && is_legal(state, m2) ==> m2 == m,
            None => forall|m2: Move| m2.line == line ==> !is_legal(state, m2),
        },
{
    let (dx, dy) = line.dir.delta();
    let mut empties: u8 = 0;
    let mut empty_idx: u8 = 0;
    let mut b: usize = 0;
    while b < nu
        invariant
            b <= nu,
            nu == variant_len(state.variant),
            (dx, dy) == dir_delta(line.dir),
            pos_small(line.origin),
            state.wf(),
            empties <= 2,
            empties == 0 ==> forall|c: int| 0 <= c < b ==> #[trigger] occupied_at(&state.board, line_point(line, c)),
            empties == 1 ==> empty_idx < b && !occupied_at(&state.board, line_point(line, empty_idx as int))
                && forall|c: int|
                0 <= c < b && c != empty_idx ==> #[trigger] occupied_at(&state.board, line_point(line, c)),
            empties == 2 ==> exists|c1: int, c2: int|
                0 <= c1 < c2 < b && !#[trigger] occupied_at(&state.board, line_point(line, c1))
                    && !#[trigger] occupied_at(&state.board, line_point(line, c2)),
        decreases nu - b,
    {
        let bi = b as i16;
        proof {
            lemma_step_bound(b as int, dx as int);
            lemma_step_bound(b as int, dy as int);
        }
        let cell = (line.origin.0 + bi * dx, line.origin.1 + bi * dy);
        let present = state.board.contains(cell);
        proof {
            assert(pos_int(cell) == line_point(line, b as int));
            assert(present == occupied_at(&state.board, line_point(line, b as int)));
        }
        if !present {
            if empties == 0 {
                empty_idx = b as u8;
                empties = 1;
            } else if empties == 1 {
                proof {
                    assert(!occupied_at(&state.board, line_point(line, empty_idx as int)));
                    assert(!occupied_at(&state.board, line_point(line, b as int)));
                }
                empties = 2;
            }
        }
        b = b + 1;
    }
    if empties != 1 {
        proof {
            assert forall|m2: Move| m2.line == line implies !is_legal(state, m2) by {
                if is_legal(state, m2) {
                    let lp = m2.line_pos as int;
                    assert(pos_int(m2.pos) == line_point(line, lp));
                    assert(!occupied_at(&state.board, line_point(line, lp)));
                    if empties == 2 {
                        let (c1, c2) = choose|c1: int, c2: int|
                            0 <= c1 < c2 < nu && !#[trigger] occupied_at(&state.board, line_point(line, c1))
                                && !#[trigger] occupied_at(&state.board, line_point(line, c2));
                        if c1 != lp {
                            assert(occupied_at(&state.board, line_point(m2.line, c1)));
                        } else {
                            assert(occupied_at(&state.board, line_point(m2.line, c2)));
                        }
                    }
                }
            }
        }
        return None;
    }
    if state.line_index.conflicts(&line, forbid) {
        return None;
    }
    let ei = empty_idx as i16;
    proof {
        lemma_step_bound(ei as int, dx as int);
        lemma_step_bound(ei as int, dy as int);
    }
    let pos = (line.origin.0 + ei * dx, line.origin.1 + ei * dy);
    let m = Move::new(pos, line, empty_idx);
    proof {
        assert(pos_int(pos) == line_point(line, empty_idx as int));
        assert(!state.board.occupied(pos));
        assert(is_legal(state, m));
        assert forall|m2: Move| m2.line == line && is_legal(state, m2) implies m2 == m by {
            let lp = m2.line_pos as int;
            assert(!occupied_at(&state.board, line_point(line, lp)));
            assert(lp == empty_idx as int);
            assert(pos_int(m2.pos) == pos_int(pos));
        }
    }
    Some(m)
}

/// The line of direction `d` that has `p` at position `j`.
pub open spec fn through_line(p: Pos, d: Dir, j: int) -> Line {
    Line { origin: ((p.0 - j * dir_delta(d).0) as i16, (p.1 - j * dir_delta(d).1) as i16), dir: d }
}

/// `m` is legal and its line passes through `p`.
pub open spec fn legal_through(s: &GameState, p: Pos, m: Move) -> bool {
    is_legal(s, m) && exists|k: int|
        0 <= k < variant_len(s.variant) && #[trigger] line_point(m.line, k) == pos_int(p)
}

/// The windows already examined: all of the directions before `di`, and the
/// first `jc` offsets of direction `di`.
pub open spec fn examined(p: Pos, m: Move, di: int, jc: int, nu: int) -> bool {
    exists|j2: int|
        0 <= j2 < nu && (dir_index(m.line.dir) < di || (dir_index(m.line.dir) == di && j2 < jc)) && m.line
            == #[trigger] through_line(p, m.line.dir, j2)
}

/// Bounds of a short step along a direction.
proof fn lemma_short_step(k: int, d: Dir)
    requires
        0 <= k <= 4,
    ensures
        -4 <= k * dir_delta(d).0 <= 4,
        -4 <= k * dir_delta(d).1 <= 4,
{
    let dx = dir_delta(d).0 as int;
    let dy = dir_delta(d).1 as int;
    assert(-4 <= k * dx <= 4 && -4 <= k * dy <= 4) by (nonlinear_arith)
        requires
            0 <= k <= 4,
            -1 <= dx <= 1,
            -1 <= dy <= 1,
    ;
}

/// A line passes through `p` at position `k` exactly when it is the line
/// through `p` at that position.
proof fn lemma_through(p: Pos, l: Line, k: int)
    requires
        in_margin(p),
        0 <= k <= 4,
    ensures
        (line_point(l, k) == pos_int(p)) == (l == through_line(p, l.dir, k)),
        in_grid(through_line(p, l.dir, k).origin),
        pos_small(through_line(p, l.dir, k).origin),
        pos_int(through_line(p, l.dir, k).origin) == (p.0 - k * dir_delta(l.dir).0, p.1 - k * dir_delta(l.dir).1),
{
    lemma_short_step(k, l.dir);
}

/// Lines through `p` in one direction differ at different positions.
proof fn lemma_through_injective(p: Pos, d: Dir, j1: int, j2: int)
    requires
        in_margin(p),
        0 <= j1 <= 4,
        0 <= j2 <= 4,
        through_line(p, d, j1) == through_line(p, d, j2),
    ensures
        j1 == j2,
{
    let l = Line { origin: p, dir: d };
    lemma_through(p, l, j1);
    lemma_through(p, l, j2);
}

/// Examining more offsets keeps what was examined.
proof fn lemma_examined_mono(p: Pos, m: Move, di: int, j1: int, j2: int, nu: int)
    requires
        examined(p, m, di, j1, nu),
        j1 <= j2,
    ensures
        examined(p, m, di, j2, nu),
{
    let w = choose|w: int|
        0 <= w < nu && (dir_index(m.line.dir) < di || (dir_index(m.line.dir) == di && w < j1)) && m.line
            == #[trigger] through_line(p, m.line.dir, w);
    assert(0 <= w < nu && (dir_index(m.line.dir) < di || (dir_index(m.line.dir) == di && w < j2)) && m.line
        == through_line(p, m.line.dir, w));
}

/// The one window added by examining offset `j` of direction `di`.
proof fn lemma_examined_step(p: Pos, m: Move, di: int, j: int, nu: int)
    requires
        examined(p, m, di, j + 1, nu),
        !examined(p, m, di, j, nu),
    ensures
        dir_index(m.line.dir) == di,
        m.line == through_line(p, m.line.dir, j),
{
    let w = choose|w: int|
        0 <= w < nu && (dir_index(m.line.dir) < di || (dir_index(m.line.dir) == di && w < j + 1)) && m.line
            == #[trigger] through_line(p, m.line.dir, w);
    if w != j || dir_index(m.line.dir) != di {
        assert(0 <= w < nu && (dir_index(m.line.dir) < di || (dir_index(m.line.dir) == di && w < j)) && m.line
            == through_line(p, m.line.dir, w));
    }
}

/// The window at offset `j` of direction `di` is not among those before it.
proof fn lemma_examined_fresh(p: Pos, m: Move, di: int, j: int, nu: int)
    requires
        in_margin(p),
        0 <= j < nu <= 5,
        examined(p, m, di, j, nu),
        dir_index(m.line.dir) == di,
    ensures
        m.line != through_line(p, m.line.dir, j),
{
    let w = choose|w: int|
        0 <= w < nu && (dir_index(m.line.dir) < di || (dir_index(m.line.dir) == di && w < j)) && m.line
            == #[trigger] through_line(p, m.line.dir, w);
    if m.line == through_line(p, m.line.dir, j) {
        lemma_through_injective(p, m.line.dir, w, j);
    }
}

/// All offsets of direction `di` examined is direction `di + 1` begun.
proof fn lemma_examined_next_dir(p: Pos, m: Move, di: int, nu: int)
    ensures
        examined(p, m, di, nu, nu) == examined(p, m, di + 1, 0, nu),
{
    if examined(p, m, di + 1, 0, nu) {
        let w = choose|w: int|
            0 <= w < nu && (dir_index(m.line.dir) < di + 1 || (dir_index(m.line.dir) == di + 1 && w < 0))
                && m.line == #[trigger] through_line(p, m.line.dir, w);
        assert(0 <= w < nu && (dir_index(m.line.dir) < di || (dir_index(m.line.dir) == di && w < nu)) && m.line
            == through_line(p, m.line.dir, w));
    }
    if examined(p, m, di, nu, nu) {
        let w = choose|w: int|
            0 <= w < nu && (dir_index(m.line.dir) < di || (dir_index(m.line.dir) == di && w < nu)) && m.line
                == #[trigger] through_line(p, m.line.dir, w);
        assert(0 <= w < nu && (dir_index(m.line.dir) < di + 1 || (dir_index(m.line.dir) == di + 1 && w < 0))
            && m.line == through_line(p, m.line.dir, w));
    }
}

/// Once every window is examined, the examined legal moves are those through
/// `p`.
proof fn lemma_examined_all(s: &GameState, p: Pos, m: Move, nu: int)
    requires
        in_margin(p),
        nu == variant_len(s.variant),
        is_legal(s, m),
    ensures
        examined(p, m, 4, 0, nu) == legal_through(s, p, m),
{
    if examined(p, m, 4, 0, nu) {
        let w = choose|w: int|
            0 <= w < nu && (dir_index(m.line.dir) < 4 || (dir_index(m.line.dir) == 4 && w < 0)) && m.line
                == #[trigger] through_line(p, m.line.dir, w);
        lemma_through(p, m.line, w);
        assert(line_point(m.line, w) == pos_int(p));
    }
    if legal_through(s, p, m) {
        let k = choose|k: int| 0 <= k < variant_len(s.variant) && #[trigger] line_point(m.line, k) == pos_int(p);
        lemma_through(p, m.line, k);
        assert(0 <= k < nu && (dir_index(m.line.dir) < 4 || (dir_index(m.line.dir) == 4 && k < 0)) && m.line
            == through_line(p, m.line.dir, k));
    }
}

/// Append every legal move whose line passes through `p`: the `nu` windows
/// per direction that contain `p`, keeping those with exactly one empty cell
/// and no line conflict. All appended candidates are trace-canonical.
pub fn add_windows_through(out: &mut Vec<Cand>, state: &GameState, p: Pos, forbid: u8, nu: usize)
    requires
        state.wf(),
        in_margin(p),
        forbid == variant_forbid(state.variant),
        nu == variant_len(state.variant),
    ensures
        final(out)@.len() >= old(out)@.len(),
        forall|i: int| 0 <= i < old(out)@.len() ==> #[trigger] final(out)@[i] == old(out)@[i],
        forall|i: int|
            #![trigger final(out)@[i]]
            old(out)@.len() <= i < final(out)@.len() ==> final(out)@[i].canon,
        forall|m: Move|
            (exists|i: int| old(out)@.len() <= i < final(out)@.len() && #[trigger] final(out)@[i].mv == m)
                <==> legal_through(state, p, m),
        forall|a: int, b: int|
            old(out)@.len() <= a < b < final(out)@.len() ==> #[trigger] final(out)@[a].mv
                != #[trigger] final(out)@[b].mv,
{
    let ghost o0 = out@;
    let ghost start = out@.len();
    let ghost nn = nu as int;
    let dirs = Dir::all();
    let mut di: usize = 0;
    while di < 4
        invariant
            di <= 4,
            state.wf(),
            in_margin(p),
            forbid == variant_forbid(state.variant),
            nu == variant_len(state.variant),
            nn == nu,
            dirs@ == seq![Dir::H, Dir::V, Dir::DP, Dir::DN],
            start == o0.len(),
            out@.len() >= start,
            forall|i: int| 0 <= i < start ==> #[trigger] out@[i] == o0[i],
            forall|i: int|
                #![trigger out@[i]]
                start <= i < out@.len() ==> out@[i].canon && is_legal(state, out@[i].mv) && examined(
                    p,
                    out@[i].mv,
                    di as int,
                    0,
                    nn,
                ),
            forall|m: Move|
                is_legal(state, m) && examined(p, m, di as int, 0, nn) ==> exists|i: int|
                    start <= i < out@.len() && #[trigger] out@[i].mv == m,
            forall|a: int, b: int|
                start <= a < b < out@.len() ==> #[trigger] out@[a].mv.line != #[trigger] out@[b].mv.line,
        decreases 4 - di,
    {
        let dir = dirs[di];
        proof {
            assert(dir_index(dir) == di);
        }
        let (dx, dy) = dir.delta();
        let mut j: usize = 0;
        while j < nu
            invariant
                di < 4,
                j <= nu,
                state.wf(),
                in_margin(p),
                forbid == variant_forbid(state.variant),
                nu == variant_len(state.variant),
                nn == nu,
                dir_index(dir) == di,
                (dx, dy) == dir_delta(dir),
                start == o0.len(),
                out@.len() >= start,
                forall|i: int| 0 <= i < start ==> #[trigger] out@[i] == o0[i],
                forall|i: int|
                    #![trigger out@[i]]
                    start <= i < out@.len() ==> out@[i].canon && is_legal(state, out@[i].mv) && examined(
                        p,
                        out@[i].mv,
                        di as int,
                        j as int,
                        nn,
                    ),
                forall|m: Move|
                    is_legal(state, m) && examined(p, m, di as int, j as int, nn) ==> exists|i: int|
                        start <= i < out@.len() && #[trigger] out@[i].mv == m,
                forall|a: int, b: int|
                    start <= a < b < out@.len() ==> #[trigger] out@[a].mv.line != #[trigger] out@[b].mv.line,
            decreases nu - j,
        {
            let ji = j as i16;
            proof {
                lemma_short_step(j as int, dir);
                lemma_through(p, Line { origin: p, dir }, j as int);
            }
            let line = Line::new((p.0 - ji * dx, p.1 - ji * dy), dir);
            proof {
                assert(line == through_line(p, dir, j as int));
            }
            let r = window_at(state, line, forbid, nu);
            let ghost before = out@;
            match r {
                Some(m) => {
                    out.push(Cand { mv: m, canon: true });
                    proof {
                        assert(examined(p, m, di as int, j as int + 1, nn));
                        assert forall|i: int|
                            #![trigger out@[i]]
                            start <= i < out@.len() implies out@[i].canon && is_legal(state, out@[i].mv)
                            && examined(p, out@[i].mv, di as int, j as int + 1, nn) by {
                            if i < before.len() {
                                assert(out@[i] == before[i]);
                                lemma_examined_mono(p, before[i].mv, di as int, j as int, j as int + 1, nn);
                            }
                        }
                        assert forall|m2: Move|
                            is_legal(state, m2) && examined(p, m2, di as int, j as int + 1, nn) implies exists|i: int|
                                start <= i < out@.len() && #[trigger] out@[i].mv == m2 by {
                            if examined(p, m2, di as int, j as int, nn) {
                                let i = choose|i: int| start <= i < before.len() && #[trigger] before[i].mv == m2;
                                assert(out@[i] == before[i]);
                            } else {
                                lemma_examined_step(p, m2, di as int, j as int, nn);
                                assert(m2.line == line);
                                assert(m2 == m);
                                assert(out@[before.len() as int].mv == m2);
                            }
                        }
                        assert forall|a: int, b: int|
                            start <= a < b < out@.len() implies #[trigger] out@[a].mv.line != #[trigger] out@[b].mv.line by {
                            assert(out@[a] == before[a]);
                            if b == before.len() {
                                if before[a].mv.line.dir == dir {
                                    lemma_examined_fresh(p, before[a].mv, di as int, j as int, nn);
                                }
                            } else {
                                assert(out@[b] == before[b]);
                            }
                        }
                    }
                },
                None => {
                    proof {
                        assert forall|m2: Move|
                            is_legal(state, m2) && examined(p, m2, di as int, j as int + 1, nn) implies exists|i: int|
                                start <= i < out@.len() && #[trigger] out@[i].mv == m2 by {
                            if !examined(p, m2, di as int, j as int, nn) {
                                lemma_examined_step(p, m2, di as int, j as int, nn);
                                assert(m2.line == line);
                            }
                        }
                        assert forall|i: int|
                            #![trigger out@[i]]
                            start <= i < out@.len() implies out@[i].canon && is_legal(state, out@[i].mv)
                            && examined(p, out@[i].mv, di as int, j as int + 1, nn) by {
                            lemma_examined_mono(p, out@[i].mv, di as int, j as int, j as int + 1, nn);
                        }
                    }
                },
            }
            j = j + 1;
        }
        proof {
            assert forall|m2: Move| examined(p, m2, di as int, nn, nn) == examined(p, m2, di as int + 1, 0, nn) by {
                lemma_examined_next_dir(p, m2, di as int, nn);
            }
        }
        di = di + 1;
    }
    proof {
        assert forall|m2: Move| is_legal(state, m2) implies examined(p, m2, 4, 0, nn) == legal_through(state, p, m2) by {
            lemma_examined_all(state, p, m2, nn);
        }
        assert forall|a: int, b: int|
            start <= a < b < out@.len() implies #[trigger] out@[a].mv != #[trigger] out@[b].mv by {
            assert(out@[a].mv.line != out@[b].mv.line);
        }
    }
}

/// `m` is legal in `s` with its last move `last` taken back: its point is
/// free and its line's other points are occupied without `last`'s point, and
/// no drawn line but `last`'s blocks it.
pub open spec fn legal_before(s: &GameState, last: Move, m: Move) -> bool {
    let n = variant_len(s.variant) as int;
    &&& m.line_pos < n
    &&& pos_int(m.pos) == line_point(m.line, m.line_pos as int)
    &&& (!s.board.occupied(m.pos) || m.pos == last.pos)
    &&& forall|k: int|
        #![trigger line_point(m.line, k)]
        0 <= k < n && k != m.line_pos ==> occupied_at(&s.board, line_point(m.line, k)) && line_point(m.line, k)
            != pos_int(last.pos)
    &&& !exists|l: Line|
        #[trigger] s.line_index.has(l) && l != last.line && lines_conflict_spec(
            l,
            m.line,
            variant_forbid(s.variant) as int,
        )
}

/// A move that was legal before `last` stays legal after it unless it used
/// `last`'s point or its line now conflicts with `last`'s line.
proof fn lemma_carried(s: &GameState, last: Move, m: Move)
    requires
        s.board.occupied(last.pos),
        s.line_index.has(last.line),
        legal_before(s, last, m),
    ensures
        is_legal(s, m) == (m.pos != last.pos && !lines_conflict_spec(
            m.line,
            last.line,
            variant_forbid(s.variant) as int,
        )),
{
    let f = variant_forbid(s.variant) as int;
    if m.pos != last.pos && !lines_conflict_spec(m.line, last.line, f) {
        assert forall|l: Line| #[trigger] s.line_index.has(l) implies !lines_conflict_spec(l, m.line, f) by {
            if l == last.line {
                assert(!lines_conflict_spec(last.line, m.line, f));
            }
        }
    }
    if is_legal(s, m) {
        assert(m.pos != last.pos);
        if lines_conflict_spec(m.line, last.line, f) {
            assert(lines_conflict_spec(last.line, m.line, f));
            assert(s.line_index.has(last.line));
        }
    }
}

/// A move legal now but not before `last` is one whose line passes through
/// `last`'s point, and conversely.
proof fn lemma_fresh(s: &GameState, last: Move, m: Move)
    requires
        s.board.occupied(last.pos),
        is_legal(s, m),
    ensures
        !legal_before(s, last, m) == legal_through(s, last.pos, m),
{
    let n = variant_len(s.variant) as int;
    let f = variant_forbid(s.variant) as int;
    if !legal_through(s, last.pos, m) {
        assert forall|k: int| 0 <= k < n && k != m.line_pos implies #[trigger] occupied_at(&s.board, line_point(m.line, k))
            && line_point(m.line, k) != pos_int(last.pos) by {
            if line_point(m.line, k) == pos_int(last.pos) {
                assert(0 <= k < variant_len(s.variant) && line_point(m.line, k) == pos_int(last.pos));
            }
        }
        assert(!exists|l: Line| #[trigger] s.line_index.has(l) && l != last.line && lines_conflict_spec(l, m.line, f));
        assert(legal_before(s, last, m));
    }
    if legal_through(s, last.pos, m) {
        let k = choose|k: int| 0 <= k < n && #[trigger] line_point(m.line, k) == pos_int(last.pos);
        if k == m.line_pos {
            assert(pos_int(m.pos) == pos_int(last.pos));
            assert(false);
        }
        if legal_before(s, last, m) {
            assert(line_point(m.line, k) != pos_int(last.pos));
        }
    }
}

/// Playing `last` flips a carried move to non-canonical exactly when `last`
/// placed a larger point; a move through `last`'s point is canonical.
proof fn lemma_canon_step(s: &GameState, last: Move, m: Move)
    requires
        s.history@.len() > 0,
        s.history@.last() == last,
        s.board.occupied(last.pos),
    ensures
        legal_before(s, last, m) && m.pos != last.pos ==> trace_canonical(
            m,
            s.history@,
            variant_len(s.variant) as int,
        ) == (!pos_lt(m.pos, last.pos) && trace_canonical(
            m,
            s.history@.drop_last(),
            variant_len(s.variant) as int,
        )),
        is_legal(s, m) && legal_through(s, last.pos, m) ==> trace_canonical(
            m,
            s.history@,
            variant_len(s.variant) as int,
        ),
{
    let n = variant_len(s.variant) as int;
    if legal_before(s, last, m) && m.pos != last.pos {
        if depends_on(m, last.pos, n) {
            let k = choose|k: int| 0 <= k < n && #[trigger] line_point(m.line, k) == pos_int(last.pos);
            if k == m.line_pos {
                assert(m.pos == last.pos);
            }
            assert(occupied_at(&s.board, line_point(m.line, k)) && line_point(m.line, k) != pos_int(last.pos));
        }
    }
    if is_legal(s, m) && legal_through(s, last.pos, m) {
        let k = choose|k: int| 0 <= k < n && #[trigger] line_point(m.line, k) == pos_int(last.pos);
        assert(m.pos != last.pos);
        assert(depends_on(m, last.pos, n));
    }
}

/// Legal set (with trace-canonical flags) of the child reached by playing
/// `mv`, derived from the parent's set; `state` already has `mv` applied.
/// Playing `mv` adds one point and one line, so the set changes locally: a
/// parent move dies if its point is `mv`'s or its line conflicts with `mv`'s,
/// and new moves appear only in windows through `mv`'s point.
pub fn child_legal_into(out: &mut Vec<Cand>, parent_legal: &[Cand], state: &GameState, mv: Move, forbid: u8, nu: usize)
    requires
        state.wf(),
        state.history@.len() > 0,
        state.history@.last() == mv,
        state.board.occupied(mv.pos),
        state.line_index.has(mv.line),
        forbid == variant_forbid(state.variant),
        nu == variant_len(state.variant),
        forall|m: Move|
            legal_before(state, mv, m) <==> exists|i: int| 0 <= i < parent_legal@.len() && #[trigger] parent_legal@[i].mv == m,
        forall|i: int|
            #![trigger parent_legal@[i]]
            0 <= i < parent_legal@.len() ==> parent_legal@[i].canon == trace_canonical(
                parent_legal@[i].mv,
                state.history@.drop_last(),
                variant_len(state.variant) as int,
            ),
        forall|a: int, b: int|
            0 <= a < b < parent_legal@.len() ==> #[trigger] parent_legal@[a].mv != #[trigger] parent_legal@[b].mv,
    ensures
        forall|m: Move| (exists|i: int| 0 <= i < final(out)@.len() && #[trigger] final(out)@[i].mv == m) <==> is_legal(state, m),
        forall|i: int|
            #![trigger final(out)@[i]]
            0 <= i < final(out)@.len() ==> final(out)@[i].canon == trace_canonical(
                final(out)@[i].mv,
                state.history@,
                variant_len(state.variant) as int,
            ),
        forall|a: int, b: int|
            0 <= a < b < final(out)@.len() ==> #[trigger] final(out)@[a].mv != #[trigger] final(out)@[b].mv,
{
    let ghost n = variant_len(state.variant) as int;
    let ghost h = state.history@;
    proof {
        state.board.lemma_occupied(mv.pos);
    }
    out.clear();
    let mut i: usize = 0;
    while i < parent_legal.len()
        invariant
            i <= parent_legal@.len(),
            state.wf(),
            h == state.history@,
            h.len() > 0,
            h.last() == mv,
            n == variant_len(state.variant),
            state.board.occupied(mv.pos),
            state.line_index.has(mv.line),
            forbid == variant_forbid(state.variant),
            forall|m: Move|
                legal_before(state, mv, m) <==> exists|y: int| 0 <= y < parent_legal@.len() && #[trigger] parent_legal@[y].mv == m,
            forall|y: int|
                #![trigger parent_legal@[y]]
                0 <= y < parent_legal@.len() ==> parent_legal@[y].canon == trace_canonical(parent_legal@[y].mv, h.drop_last(), n),
            forall|a: int, b: int|
                0 <= a < b < parent_legal@.len() ==> #[trigger] parent_legal@[a].mv != #[trigger] parent_legal@[b].mv,
            forall|m: Move|
                (exists|x: int| 0 <= x < out@.len() && #[trigger] out@[x].mv == m) <==> (exists|y: int|
                    0 <= y < i && #[trigger] parent_legal@[y].mv == m) && is_legal(state, m),
            forall|x: int|
                #![trigger out@[x]]
                0 <= x < out@.len() ==> out@[x].canon == trace_canonical(out@[x].mv, h, n) && legal_before(state, mv, out@[x].mv)
                    && exists|y: int| 0 <= y < i && #[trigger] parent_legal@[y].mv == out@[x].mv,
            forall|a: int, b: int| 0 <= a < b < out@.len() ==> #[trigger] out@[a].mv != #[trigger] out@[b].mv,
        decreases parent_legal@.len() - i,
    {
        let c = parent_legal[i];
        let ghost before = out@;
        proof {
            assert(legal_before(state, mv, c.mv));
            lemma_carried(state, mv, c.mv);
            lemma_canon_step(state, mv, c.mv);
        }
        if !same_pos(c.mv.pos, mv.pos) && !crate::game::line_index::lines_conflict(&c.mv.line, &mv.line, forbid) {
            let later = mv.pos.0 < c.mv.pos.0 || (mv.pos.0 == c.mv.pos.0 && mv.pos.1 <= c.mv.pos.1);
            let canon = c.canon && later;
            out.push(Cand { mv: c.mv, canon });
            proof {
                assert(out@[before.len() as int].mv == c.mv);
                assert forall|m: Move|
                    (exists|x: int| 0 <= x < out@.len() && #[trigger] out@[x].mv == m) <==> (exists|y: int|
                        0 <= y < i + 1 && #[trigger] parent_legal@[y].mv == m) && is_legal(state, m) by {
                    if exists|x: int| 0 <= x < out@.len() && #[trigger] out@[x].mv == m {
                        let x = choose|x: int| 0 <= x < out@.len() && #[trigger] out@[x].mv == m;
                        if x < before.len() {
                            assert(before[x].mv == m);
                            let y = choose|y: int| 0 <= y < i && #[trigger] parent_legal@[y].mv == m;
                            assert(0 <= y < i + 1 && parent_legal@[y].mv == m);
                        } else {
                            assert(parent_legal@[i as int].mv == m);
                        }
                    }
                    if (exists|y: int| 0 <= y < i + 1 && #[trigger] parent_legal@[y].mv == m) && is_legal(state, m) {
                        let y = choose|y: int| 0 <= y < i + 1 && #[trigger] parent_legal@[y].mv == m;
                        if y < i {
                            let x = choose|x: int| 0 <= x < before.len() && #[trigger] before[x].mv == m;
                            assert(out@[x] == before[x]);
                        }
                    }
                }
                assert forall|x: int|
                    #![trigger out@[x]]
                    0 <= x < out@.len() implies out@[x].canon == trace_canonical(out@[x].mv, h, n) && legal_before(state, mv, out@[x].mv)
                        && exists|y: int| 0 <= y < i + 1 && #[trigger] parent_legal@[y].mv == out@[x].mv by {
                    if x < before.len() {
                        assert(out@[x] == before[x]);
                        let y = choose|y: int| 0 <= y < i && #[trigger] parent_legal@[y].mv == before[x].mv;
                        assert(0 <= y < i + 1 && parent_legal@[y].mv == out@[x].mv);
                    } else {
                        assert(parent_legal@[i as int].mv == out@[x].mv);
                    }
                }
                assert forall|a: int, b: int| 0 <= a < b < out@.len() implies #[trigger] out@[a].mv != #[trigger] out@[b].mv by {
                    if b == before.len() {
                        assert(out@[a] == before[a]);
                        let y = choose|y: int| 0 <= y < i && #[trigger] parent_legal@[y].mv == before[a].mv;
                        assert(parent_legal@[y].mv != parent_legal@[i as int].mv);
                    } else {
                        assert(out@[a] == before[a]);
                        assert(out@[b] == before[b]);
                    }
                }
            }
        } else {
            proof {
                assert(!is_legal(state, c.mv));
                assert forall|m: Move|
                    (exists|x: int| 0 <= x < out@.len() && #[trigger] out@[x].mv == m) <==> (exists|y: int|
                        0 <= y < i + 1 && #[trigger] parent_legal@[y].mv == m) && is_legal(state, m) by {
                    if (exists|y: int| 0 <= y < i + 1 && #[trigger] parent_legal@[y].mv == m) && is_legal(state, m) {
                        let y = choose|y: int| 0 <= y < i + 1 && #[trigger] parent_legal@[y].mv == m;
                        assert(y != i);
                        assert(0 <= y < i && parent_legal@[y].mv == m);
                    }
                    if exists|x: int| 0 <= x < out@.len() && #[trigger] out@[x].mv == m {
                        let y = choose|y: int| 0 <= y < i && #[trigger] parent_legal@[y].mv == m;
                        assert(0 <= y < i + 1 && parent_legal@[y].mv == m);
                    }
                }
                assert forall|x: int|
                    #![trigger out@[x]]
                    0 <= x < out@.len() implies out@[x].canon == trace_canonical(out@[x].mv, h, n) && legal_before(state, mv, out@[x].mv)
                        && exists|y: int| 0 <= y < i + 1 && #[trigger] parent_legal@[y].mv == out@[x].mv by {
                    let y = choose|y: int| 0 <= y < i && #[trigger] parent_legal@[y].mv == out@[x].mv;
                    assert(0 <= y < i + 1 && parent_legal@[y].mv == out@[x].mv);
                }
            }
        }
        i = i + 1;
    }
    let ghost carried = out@;
    add_windows_through(out, state, mv.pos, forbid, nu);
    proof {
        assert forall|m: Move|
            (exists|x: int| 0 <= x < out@.len() && #[trigger] out@[x].mv == m) <==> is_legal(state, m) by {
            if is_legal(state, m) {
                lemma_fresh(state, mv, m);
                if legal_before(state, mv, m) {
                    let y = choose|y: int| 0 <= y < parent_legal@.len() && #[trigger] parent_legal@[y].mv == m;
                    assert(exists|y: int| 0 <= y < parent_legal@.len() && #[trigger] parent_legal@[y].mv == m);
                    let x = choose|x: int| 0 <= x < carried.len() && #[trigger] carried[x].mv == m;
                    assert(out@[x] == carried[x]);
                    assert(out@[x].mv == m);
                } else {
                    let x = choose|x: int| carried.len() <= x < out@.len() && #[trigger] out@[x].mv == m;
                    assert(out@[x].mv == m);
                }
            }
            if exists|x: int| 0 <= x < out@.len() && #[trigger] out@[x].mv == m {
                let x = choose|x: int| 0 <= x < out@.len() && #[trigger] out@[x].mv == m;
                if x < carried.len() {
                    assert(out@[x] == carried[x]);
                    assert(exists|x2: int| 0 <= x2 < carried.len() && #[trigger] carried[x2].mv == m);
                } else {
                    assert(exists|x2: int| carried.len() <= x2 < out@.len() && #[trigger] out@[x2].mv == m);
                    assert(legal_through(state, mv.pos, m));
                }
            }
        }
        assert forall|x: int|
            #![trigger out@[x]]
            0 <= x < out@.len() implies out@[x].canon == trace_canonical(out@[x].mv, h, n) by {
            if x < carried.len() {
                assert(out@[x] == carried[x]);
            } else {
                assert(out@[x].canon);
                assert(legal_through(state, mv.pos, out@[x].mv));
                lemma_canon_step(state, mv, out@[x].mv);
            }
        }
        assert forall|a: int, b: int| 0 <= a < b < out@.len() implies #[trigger] out@[a].mv != #[trigger] out@[b].mv by {
            if b < carried.len() {
                assert(out@[a] == carried[a]);
                assert(out@[b] == carried[b]);
            } else if a < carried.len() {
                assert(out@[a] == carried[a]);
                assert(legal_before(state, mv, carried[a].mv));
                assert(legal_through(state, mv.pos, out@[b].mv));
                lemma_fresh(state, mv, out@[b].mv);
            }
        }
    }
}


/// Whether `m` is legal in the state `v` (see [`is_legal`]).
pub open spec fn legal_view(v: GameView, m: Move) -> bool {
    let n = variant_len(v.variant) as int;
    &&& m.line_pos < n
    &&& pos_int(m.pos) == line_point(m.line, m.line_pos as int)
    &&& !v.occupied.contains(m.pos)
    &&& forall|k: int|
        #![trigger line_point(m.line, k)]
        0 <= k < n && k != m.line_pos ==> occupied_pt(v, line_point(m.line, k))
    &&& !exists|l: Line|
        #[trigger] v.lines.contains(l) && lines_conflict_spec(l, m.line, variant_forbid(v.variant) as int)
}

/// Legality read off the abstract state.
pub proof fn lemma_legal_view(s: &GameState, m: Move)
    ensures
        is_legal(s, m) == legal_view(s@, m),
{
    let n = variant_len(s.variant) as int;
    assert forall|k: int| #![trigger line_point(m.line, k)] 0 <= k < n && k != m.line_pos implies
        occupied_at(&s.board, line_point(m.line, k)) == occupied_pt(s@, line_point(m.line, k)) by {}
    assert forall|l: Line| s.line_index.has(l) == s@.lines.contains(l) by {}
    if is_legal(s, m) != legal_view(s@, m) {
        if is_legal(s, m) {
            if exists|l: Line| #[trigger] s@.lines.contains(l) && lines_conflict_spec(l, m.line, variant_forbid(s.variant) as int) {
                let l = choose|l: Line| #[trigger] s@.lines.contains(l) && lines_conflict_spec(l, m.line, variant_forbid(s.variant) as int);
                assert(s.line_index.has(l));
            }
        } else {
            if exists|l: Line| #[trigger] s.line_index.has(l) && lines_conflict_spec(l, m.line, variant_forbid(s.variant) as int) {
                let l = choose|l: Line| #[trigger] s.line_index.has(l) && lines_conflict_spec(l, m.line, variant_forbid(s.variant) as int);
                assert(s@.lines.contains(l));
            }
        }
    }
}

/// Two states with the same variant, points and lines.
pub open spec fn same_position(a: GameView, b: GameView) -> bool {
    a.variant == b.variant && a.occupied == b.occupied && a.lines == b.lines
}

/// Legality depends only on the position.
proof fn lemma_legal_same(a: GameView, b: GameView, m: Move)
    requires
        same_position(a, b),
    ensures
        legal_view(a, m) == legal_view(b, m),
{
    assert forall|p: (int, int)| occupied_pt(a, p) == occupied_pt(b, p) by {}
}

/// In the state after playing `mv` (legal in `v`), a move is legal with
/// `mv` taken back exactly when it was legal in `v`.
proof fn lemma_legal_before_view(s: &GameState, v: GameView, mv: Move, m: Move)
    requires
        same_position(s@, view_apply(v, mv)),
        legal_view(v, mv),
    ensures
        legal_before(s, mv, m) == legal_view(v, m),
{
    let n = variant_len(s.variant) as int;
    let f = variant_forbid(s.variant) as int;
    assert forall|p: Pos| s.board.occupied(p) == (v.occupied.contains(p) || p == mv.pos) by {
        assert(s@.occupied.contains(p) == s.board.occupied(p));
    }
    assert forall|l: Line| s.line_index.has(l) == (v.lines.contains(l) || l == mv.line) by {
        assert(s@.lines.contains(l) == s.line_index.has(l));
    }
    assert(!v.lines.contains(mv.line)) by {
        if v.lines.contains(mv.line) {
            assert(lines_conflict_spec(mv.line, mv.line, variant_forbid(v.variant) as int));
        }
    }
    assert forall|k: int| #![trigger line_point(m.line, k)] 0 <= k < n && k != m.line_pos implies
        (occupied_at(&s.board, line_point(m.line, k)) && line_point(m.line, k) != pos_int(mv.pos))
            == occupied_pt(v, line_point(m.line, k)) by {
        let c = line_point(m.line, k);
        if occupied_pt(v, c) && c == pos_int(mv.pos) {
            assert(v.occupied.contains(mv.pos));
        }
    }
    if legal_before(s, mv, m) && !legal_view(v, m) {
        if exists|l: Line| #[trigger] v.lines.contains(l) && lines_conflict_spec(l, m.line, f) {
            let l = choose|l: Line| #[trigger] v.lines.contains(l) && lines_conflict_spec(l, m.line, f);
            assert(s.line_index.has(l) && l != mv.line);
        }
    }
    if legal_view(v, m) && !legal_before(s, mv, m) {
        if exists|l: Line| #[trigger] s.line_index.has(l) && l != mv.line && lines_conflict_spec(l, m.line, f) {
            let l = choose|l: Line| #[trigger] s.line_index.has(l) && l != mv.line && lines_conflict_spec(l, m.line, f);
            assert(v.lines.contains(l));
        }
    }
}

/// Move `j` of `d` is legal once its predecessors are played from `v`.
#[verifier::opaque]
pub open spec fn legal_step(v: GameView, d: Seq<Move>, j: int) -> bool {
    legal_view(applied(v, d.take(j)), d[j])
}

/// Every move of `d` is legal in turn from `v`.
pub open spec fn path_legal(v: GameView, d: Seq<Move>) -> bool {
    forall|j: int| 0 <= j < d.len() ==> #[trigger] legal_step(v, d, j)
}

/// No move is legal in `v`: the game is over.
pub open spec fn terminal_view(v: GameView) -> bool {
    forall|m: Move| !legal_view(v, m)
}


/// Every kept child is one of the candidates.
proof fn lemma_children_in(legal: Seq<Cand>, stab: u8, k: int, n: int)
    ensures
        forall|j: int|
            #![trigger children_spec(legal, stab, k, n)[j]]
            0 <= j < children_spec(legal, stab, k, n).len() ==> exists|i: int|
                0 <= i < legal.len() && #[trigger] legal[i].mv == children_spec(legal, stab, k, n)[j],
    decreases legal.len(),
{
    if legal.len() > 0 {
        let rest = legal.drop_last();
        lemma_children_in(rest, stab, k, n);
        let cs = children_spec(legal, stab, k, n);
        assert forall|j: int| #![trigger cs[j]] 0 <= j < cs.len() implies exists|i: int|
            0 <= i < legal.len() && #[trigger] legal[i].mv == cs[j] by {
            if j < children_spec(rest, stab, k, n).len() {
                let i = choose|i: int| 0 <= i < rest.len() && #[trigger] rest[i].mv == children_spec(rest, stab, k, n)[j];
                assert(legal[i] == rest[i]);
            } else {
                assert(legal[legal.len() - 1].mv == cs[j]);
            }
        }
    }
}

/// The history after playing `d` from `v`.
pub(crate) proof fn lemma_applied_history(v: GameView, d: Seq<Move>)
    ensures
        applied(v, d).history == v.history + d,
        applied(v, d).variant == v.variant,
    decreases d.len(),
{
    reveal(applied);
    if d.len() > 0 {
        lemma_applied_history(v, d.drop_last());
        assert(v.history + d =~= (v.history + d.drop_last()).push(d.last()));
    }
}

/// Extending a legal path by a move legal at its end.
pub(crate) proof fn lemma_path_push(v: GameView, d: Seq<Move>, m: Move)
    requires
        path_legal(v, d),
        legal_view(applied(v, d), m),
    ensures
        path_legal(v, d.push(m)),
        applied(v, d.push(m)) == view_apply(applied(v, d), m),
{
    let e = d.push(m);
    assert(e.drop_last() =~= d);
    assert(e.take(d.len() as int) =~= d);
    assert(applied(v, e) == view_apply(applied(v, d), m)) by {
        reveal(applied);
    }
    assert forall|j: int| 0 <= j < e.len() implies #[trigger] legal_step(v, e, j) by {
        reveal(legal_step);
        if j < d.len() {
            assert(e.take(j) =~= d.take(j));
            assert(legal_step(v, d, j));
        }
    }
}

/// A prefix of a legal path is a legal path.
proof fn lemma_path_prefix(v: GameView, d: Seq<Move>, i: int)
    requires
        path_legal(v, d),
        0 <= i <= d.len(),
    ensures
        path_legal(v, d.take(i)),
        i < d.len() ==> legal_view(applied(v, d.take(i)), d[i]),
{
    assert forall|j: int| 0 <= j < i implies #[trigger] legal_step(v, d.take(i), j) by {
        reveal(legal_step);
        assert(d.take(i).take(j) =~= d.take(j));
        assert(legal_step(v, d, j));
    }
    if i < d.len() {
        assert(legal_step(v, d, i));
        reveal(legal_step);
    }
}

/// Playing a legal path keeps the drawn lines those of the history.
proof fn lemma_path_follows_history(v: GameView, d: Seq<Move>)
    requires
        lines_follow_history(v),
        path_legal(v, d),
    ensures
        lines_follow_history(applied(v, d)),
    decreases d.len(),
{
    if d.len() > 0 {
        let i = d.len() - 1;
        lemma_path_prefix(v, d, i);
        assert(d.take(i) =~= d.drop_last());
        lemma_path_follows_history(v, d.drop_last());
        let w = applied(v, d.drop_last());
        let m = d.last();
        assert(legal_view(w, m));
        assert(lines_conflict_spec(m.line, m.line, variant_forbid(w.variant) as int));
        lemma_apply_follows_history(w, m);
        assert(applied(v, d) == view_apply(w, m)) by {
            reveal(applied);
        }
    } else {
        assert(applied(v, d) == v) by {
            reveal(applied);
        }
    }
}

/// In a game played by legal moves from a new game (nothing drawn, nothing
/// played, nothing to redo), a move is legal exactly when it is legal
/// against the lines of the history.
pub proof fn lemma_reached_legality(start: &GameState, s: &GameState, m: Move)
    requires
        start.wf(),
        start.history@.len() == 0,
        start.redo_stack@.len() == 0,
        forall|l: Line| !start.line_index.has(l),
        s.wf(),
        path_legal(start@, s.history@),
        s@ == applied(start@, s.history@),
    ensures
        is_legal(s, m) <==> crate::game::moves::legal_by_history(s, m),
{
    let v = start@;
    assert(v.lines =~= lines_of(v.history));
    assert(v.history + v.redo =~= Seq::<Move>::empty());
    lemma_path_follows_history(v, s.history@);
    crate::game::moves::lemma_legal_against_history(s, m);
}

/// The state after a prefix, then one more move.
pub(crate) proof fn lemma_applied_take(v: GameView, d: Seq<Move>, i: int)
    requires
        0 <= i < d.len(),
    ensures
        applied(v, d.take(i + 1)) == view_apply(applied(v, d.take(i)), d[i]),
{
    reveal(applied);
    assert(d.take(i + 1).drop_last() =~= d.take(i));
}


/// A frame describes node `node`: its legal set exactly (with trace-canonical
/// flags, each move small and listed once), its kept children, and how many
/// have been descended into.
pub open spec fn frame_ok(f: Frame, node: GameView, k: int, n: int) -> bool {
    &&& forall|m: Move|
        (exists|i: int| 0 <= i < f.legal@.len() && #[trigger] f.legal@[i].mv == m) <==> legal_view(node, m)
    &&& forall|i: int|
        #![trigger f.legal@[i]]
        0 <= i < f.legal@.len() ==> f.legal@[i].canon == trace_canonical(
            f.legal@[i].mv,
            node.history,
            variant_len(node.variant) as int,
        ) && move_small(f.legal@[i].mv) && pos_small(f.legal@[i].mv.line.origin)
    &&& forall|a: int, b: int|
        0 <= a < b < f.legal@.len() ==> #[trigger] f.legal@[a].mv != #[trigger] f.legal@[b].mv
    &&& f.children@ == children_spec(f.legal@, f.stab, k, n)
    &&& f.idx <= f.children@.len()
}

/// The explicit stack of the depth-first search below `v`: frame `i`
/// describes the node reached by the first `i` moves of the descent `d`,
/// and move `i` of `d` is the child that frame `i` last descended into.
pub open spec fn stack_ok(st: Seq<Frame>, v: GameView, d: Seq<Move>, k: int, n: int) -> bool {
    &&& st.len() == d.len() + 1
    &&& forall|i: int| 0 <= i < st.len() ==> frame_ok(#[trigger] st[i], applied(v, d.take(i)), k, n)
    &&& forall|i: int|
        0 <= i < d.len() ==> 1 <= (#[trigger] st[i]).idx && st[i].children@[st[i].idx - 1] == d[i]
    &&& path_legal(v, d)
}

/// The result of exploring one work item: the terminal games reached that
/// improve on the best so far (each on the previous), the untried subtrees
/// handed back as new work items, and the number of nodes visited.
pub struct ChunkResult {
    pub terminals: Vec<Vec<Move>>,
    pub leftover: Vec<Vec<Move>>,
    pub nodes: u64,
    /// A move fell off the grid and was refused: the grid is too small for
    /// the search.
    pub overflow: bool,
}

/// Some move legal at a position reached by a legal path from `v` falls off
/// the grid.
pub open spec fn refused_below(v: GameView) -> bool {
    exists|d: Seq<Move>, m: Move| path_legal(v, d) && #[trigger] legal_view(applied(v, d), m) && !placeable(m)
}

/// Node budget of one work item before its untried frontier is handed back.
pub const CHUNK_BUDGET: u64 = 500000;

/// Whether the search is still meant to run.
pub(crate) fn keep_running(running: &AtomicBool) -> (r: bool) {
    running.load(Ordering::Relaxed)
}

/// Legality of the current state's moves, as a frame's legal set.
proof fn lemma_state_set(s: &GameState, v: GameView)
    requires
        s.wf(),
        same_position(s@, v),
    ensures
        forall|m: Move| #[trigger] is_legal(s, m) == legal_view(v, m),
        forall|m: Move| #[trigger] is_legal(s, m) ==> move_small(m) && pos_small(m.line.origin),
{
    assert forall|m: Move| #[trigger] is_legal(s, m) == legal_view(v, m) by {
        lemma_legal_view(s, m);
        lemma_legal_same(s@, v, m);
    }
    assert forall|m: Move| #[trigger] is_legal(s, m) implies move_small(m) && pos_small(m.line.origin) by {
        lemma_legal_small(s, m);
    }
}

/// The frame of the chunk root: a full scan of the legal moves with their
/// trace-canonical flags, and the kept children. Also reports whether the
/// node has no legal move at all.
fn root_frame(state: &GameState, stab: u8, k: i16, n: i16) -> (r: (Frame, bool))
    requires
        state.wf(),
        k_small(k),
        n_small(n),
    ensures
        frame_ok(r.0, state@, k as int, n as int),
        r.0.idx == 0,
        r.0.stab == stab,
        r.1 == terminal_view(state@),
{
    let mut root_legal: Vec<Move> = Vec::new();
    legal_moves_into(state, &mut root_legal);
    proof {
        lemma_state_set(state, state@);
        assert forall|i: int| 0 <= i < root_legal@.len() implies pos_small(#[trigger] root_legal@[i].line.origin) by {
            assert(root_legal@.contains(root_legal@[i]));
            assert(is_legal(state, root_legal@[i]));
        }
    }
    let mut root_cand: Vec<Cand> = Vec::new();
    root_candidates(&mut root_cand, &root_legal, state);
    proof {
        assert forall|i: int| 0 <= i < root_cand@.len() implies move_small(#[trigger] root_cand@[i].mv) by {
            assert(root_legal@.contains(root_legal@[i]));
            assert(is_legal(state, root_legal@[i]));
        }
    }
    let mut children: Vec<Move> = Vec::new();
    canonical_children_into(&mut children, &root_cand, stab, k, n);
    let empty = root_legal.len() == 0;
    let f = Frame { children, idx: 0, stab, legal: root_cand };
    proof {
        assert forall|m: Move| (exists|i: int| 0 <= i < f.legal@.len() && #[trigger] f.legal@[i].mv == m) <==> legal_view(state@, m) by {
            if legal_view(state@, m) {
                assert(is_legal(state, m));
                assert(root_legal@.contains(m));
                let i = choose|i: int| 0 <= i < root_legal@.len() && root_legal@[i] == m;
                assert(f.legal@[i].mv == m);
            }
            if exists|i: int| 0 <= i < f.legal@.len() && #[trigger] f.legal@[i].mv == m {
                let i = choose|i: int| 0 <= i < f.legal@.len() && #[trigger] f.legal@[i].mv == m;
                assert(root_legal@.contains(root_legal@[i]));
                assert(is_legal(state, m));
            }
        }
        assert forall|i: int| #![trigger f.legal@[i]] 0 <= i < f.legal@.len() implies f.legal@[i].canon == trace_canonical(
            f.legal@[i].mv,
            state@.history,
            variant_len(state@.variant) as int,
        ) && move_small(f.legal@[i].mv) && pos_small(f.legal@[i].mv.line.origin) by {
            assert(root_legal@.contains(root_legal@[i]));
            assert(is_legal(state, root_legal@[i]));
        }
        assert forall|a: int, b: int| 0 <= a < b < f.legal@.len() implies #[trigger] f.legal@[a].mv != #[trigger] f.legal@[b].mv by {
            assert(root_legal@[a] != root_legal@[b]);
        }
        if empty {
            assert forall|m: Move| !legal_view(state@, m) by {
                if legal_view(state@, m) {
                    assert(is_legal(state, m));
                    assert(root_legal@.contains(m));
                }
            }
        } else {
            let m = root_legal@[0];
            assert(root_legal@.contains(m));
            assert(is_legal(state, m));
        }
    }
    (f, empty)
}


/// The frame of the child reached by playing `mv` (legal at `node`, the node
/// of `parent`): its legal set derived from the parent's, and its kept
/// children. Also reports whether the child has no legal move at all.
fn child_frame(
    state: &GameState,
    parent: &Frame,
    mv: Move,
    child_stab: u8,
    forbid: u8,
    nu: usize,
    k: i16,
    n: i16,
    Ghost(node): Ghost<GameView>,
) -> (r: (Frame, bool))
    requires
        state.wf(),
        k_small(k),
        n_small(n),
        frame_ok(*parent, node, k as int, n as int),
        legal_view(node, mv),
        state@ == view_apply(node, mv),
        forbid == variant_forbid(state.variant),
        nu == variant_len(state.variant),
    ensures
        frame_ok(r.0, state@, k as int, n as int),
        r.0.idx == 0,
        r.0.stab == child_stab,
        r.1 == terminal_view(state@),
{
    proof {
        assert(state@.occupied.contains(mv.pos));
        assert(state.board.occupied(mv.pos));
        assert(state@.lines.contains(mv.line));
        assert(state.line_index.has(mv.line));
        assert(state.history@.drop_last() =~= node.history);
        assert forall|m: Move| legal_before(state, mv, m) <==> exists|i: int|
            0 <= i < parent.legal@.len() && #[trigger] parent.legal@[i].mv == m by {
            lemma_legal_before_view(state, node, mv, m);
        }
        assert(variant_len(state.variant) == variant_len(node.variant));
    }
    let mut child_lgl: Vec<Cand> = Vec::new();
    child_legal_into(&mut child_lgl, &parent.legal, state, mv, forbid, nu);
    proof {
        lemma_state_set(state, state@);
        assert forall|i: int| 0 <= i < child_lgl@.len() implies move_small(#[trigger] child_lgl@[i].mv) by {
            assert(is_legal(state, child_lgl@[i].mv));
        }
    }
    let mut children: Vec<Move> = Vec::new();
    canonical_children_into(&mut children, &child_lgl, child_stab, k, n);
    let empty = child_lgl.len() == 0;
    let f = Frame { children, idx: 0, stab: child_stab, legal: child_lgl };
    proof {
        assert forall|m: Move| (exists|i: int| 0 <= i < f.legal@.len() && #[trigger] f.legal@[i].mv == m) <==> legal_view(state@, m) by {
            assert(is_legal(state, m) == legal_view(state@, m));
        }
        assert forall|i: int| #![trigger f.legal@[i]] 0 <= i < f.legal@.len() implies f.legal@[i].canon == trace_canonical(
            f.legal@[i].mv,
            state@.history,
            variant_len(state@.variant) as int,
        ) && move_small(f.legal@[i].mv) && pos_small(f.legal@[i].mv.line.origin) by {
            assert(is_legal(state, f.legal@[i].mv));
        }
        if empty {
            assert forall|m: Move| !legal_view(state@, m) by {
                assert(is_legal(state, m) == legal_view(state@, m));
            }
        } else {
            let m = f.legal@[0].mv;
            assert(is_legal(state, m));
        }
    }
    (f, empty)
}


/// `t` is a finished game reached from `v`: it extends `v`'s history by a
/// legal path after which no move is legal.
pub open spec fn terminal_ok(t: Seq<Move>, v: GameView) -> bool {
    let b = v.history.len() as int;
    &&& t.len() >= b
    &&& t.take(b) == v.history
    &&& path_legal(v, t.skip(b))
    &&& terminal_view(applied(v, t.skip(b)))
}

/// `w` is a work item below `item`: `item`, then a legal path from `v` (the
/// node of `item`), then one move legal at its end.
pub open spec fn leftover_ok(w: Seq<Move>, item: Seq<Move>, v: GameView) -> bool {
    let p = w.subrange(item.len() as int, w.len() - 1);
    &&& w.len() >= item.len() + 1
    &&& w.take(item.len() as int) == item
    &&& path_legal(v, p)
    &&& legal_view(applied(v, p), w.last())
}

/// Every move of `s` fits on the grid.
pub open spec fn all_placeable(s: Seq<Move>) -> bool {
    forall|i: int| 0 <= i < s.len() ==> placeable(#[trigger] s[i])
}

/// Work left on the stack: one unit per frame and two per untried child.
pub open spec fn stack_work(st: Seq<Frame>) -> int
    decreases st.len(),
{
    if st.len() == 0 {
        0
    } else {
        stack_work(st.drop_last()) + 1 + 2 * (st.last().children@.len() - st.last().idx)
    }
}

/// A legal move's point is free and its line undrawn.
proof fn lemma_legal_fresh_view(v: GameView, m: Move)
    requires
        legal_view(v, m),
    ensures
        !v.occupied.contains(m.pos),
        !v.lines.contains(m.line),
{
    if v.lines.contains(m.line) {
        assert(lines_conflict_spec(m.line, m.line, variant_forbid(v.variant) as int));
    }
}

/// Frames below the top are unaffected when the descent changes above them.
proof fn lemma_stack_keep(st: Seq<Frame>, v: GameView, d: Seq<Move>, d2: Seq<Move>, j: int, k: int, n: int)
    requires
        0 <= j <= d.len(),
        j <= d2.len(),
        d.take(j) == d2.take(j),
        forall|i: int| 0 <= i < st.len() && i <= j ==> frame_ok(#[trigger] st[i], applied(v, d.take(i)), k, n),
    ensures
        forall|i: int| 0 <= i < st.len() && i <= j ==> frame_ok(#[trigger] st[i], applied(v, d2.take(i)), k, n),
{
    assert forall|i: int| 0 <= i < st.len() && i <= j implies frame_ok(#[trigger] st[i], applied(v, d2.take(i)), k, n) by {
        assert(d.take(i) =~= d.take(j).take(i));
        assert(d2.take(i) =~= d2.take(j).take(i));
    }
}

/// A copy of the moves `item`, then the first `i` of `descent`, then `c`.
fn work_item(item: &[Move], descent: &Vec<Move>, i: usize, c: Move) -> (r: Vec<Move>)
    requires
        i <= descent@.len(),
    ensures
        r@ == (item@ + descent@.take(i as int)).push(c),
{
    let mut w: Vec<Move> = Vec::new();
    let mut a: usize = 0;
    while a < item.len()
        invariant
            a <= item@.len(),
            w@ == item@.take(a as int),
        decreases item@.len() - a,
    {
        w.push(item[a]);
        proof {
            assert(w@ =~= item@.take(a + 1));
        }
        a = a + 1;
    }
    let mut b: usize = 0;
    while b < i
        invariant
            b <= i,
            i <= descent@.len(),
            w@ == item@ + descent@.take(b as int),
        decreases i - b,
    {
        w.push(descent[b]);
        proof {
            assert(w@ =~= item@ + descent@.take(b + 1));
        }
        b = b + 1;
    }
    proof {
        assert(item@.take(item@.len() as int) =~= item@);
    }
    w.push(c);
    w
}


/// Unfolding the work of a stack at its top frame.
proof fn lemma_work_top(st: Seq<Frame>)
    requires
        st.len() > 0,
    ensures
        stack_work(st) == stack_work(st.drop_last()) + 1 + 2 * (st.last().children@.len() - st.last().idx),
{
}

/// Popping an exhausted top frame leaves a stack for the shorter descent.
proof fn lemma_stack_pop(st0: Seq<Frame>, v: GameView, d: Seq<Move>, k: int, n: int)
    requires
        st0.len() >= 2,
        stack_ok(st0, v, d, k, n),
    ensures
        stack_ok(st0.drop_last(), v, d.drop_last(), k, n),
        applied(v, d) == view_apply(applied(v, d.drop_last()), d.last()),
        !applied(v, d.drop_last()).occupied.contains(d.last().pos),
        !applied(v, d.drop_last()).lines.contains(d.last().line),
{
    let dl = d.drop_last();
    let st = st0.drop_last();
    lemma_applied_take(v, d, d.len() - 1);
    assert(d.take(d.len() - 1) =~= dl);
    assert(d.take(d.len() as int) =~= d);
    lemma_path_prefix(v, d, d.len() - 1);
    lemma_legal_fresh_view(applied(v, dl), d.last());
    assert(dl.take(dl.len() as int) =~= dl);
    assert(d.take(dl.len() as int) =~= dl);
    lemma_stack_keep(st0, v, d, dl, dl.len() as int, k, n);
    assert forall|i: int| 0 <= i < st.len() implies frame_ok(#[trigger] st[i], applied(v, dl.take(i)), k, n) by {
        assert(st[i] == st0[i]);
    }
    assert forall|i: int| 0 <= i < dl.len() implies 1 <= (#[trigger] st[i]).idx && st[i].children@[st[i].idx - 1] == dl[i] by {
        assert(st[i] == st0[i]);
        assert(dl[i] == d[i]);
        assert(1 <= st0[i].idx);
    }
}

/// Advancing the top frame past a child keeps the stack well formed.
proof fn lemma_stack_skip(st0: Seq<Frame>, top: Frame, v: GameView, d: Seq<Move>, k: int, n: int)
    requires
        st0.len() >= 1,
        stack_ok(st0, v, d, k, n),
        top.idx == st0.last().idx + 1,
        top.children == st0.last().children,
        top.legal == st0.last().legal,
        top.stab == st0.last().stab,
        st0.last().idx < st0.last().children@.len(),
    ensures
        stack_ok(st0.drop_last().push(top), v, d, k, n),
        stack_work(st0.drop_last().push(top)) < stack_work(st0),
{
    let st = st0.drop_last().push(top);
    assert(d.take(d.len() as int) =~= d);
    assert forall|i: int| 0 <= i < st.len() implies frame_ok(#[trigger] st[i], applied(v, d.take(i)), k, n) by {
        if i < st0.len() - 1 {
            assert(st[i] == st0[i]);
        } else {
            assert(frame_ok(st0[i], applied(v, d.take(i)), k, n));
        }
    }
    assert forall|i: int| 0 <= i < d.len() implies 1 <= (#[trigger] st[i]).idx && st[i].children@[st[i].idx - 1] == d[i] by {
        assert(st[i] == st0[i]);
    }
    assert(st.drop_last() =~= st0.drop_last());
    assert(st.last() == top);
    assert(top.children == st0.last().children);
    lemma_work_top(st0);
    lemma_work_top(st);
}

/// Descending into a child: the advanced parent and the child's frame on
/// top give a stack for the longer descent.
proof fn lemma_stack_push(st0: Seq<Frame>, top: Frame, child: Frame, v: GameView, d: Seq<Move>, mv: Move, k: int, n: int)
    requires
        st0.len() >= 1,
        stack_ok(st0, v, d, k, n),
        top.idx == st0.last().idx + 1,
        top.children == st0.last().children,
        top.legal == st0.last().legal,
        top.stab == st0.last().stab,
        st0.last().idx < st0.last().children@.len(),
        st0.last().children@[st0.last().idx as int] == mv,
        legal_view(applied(v, d), mv),
        frame_ok(child, applied(v, d.push(mv)), k, n),
    ensures
        stack_ok(st0.drop_last().push(top).push(child), v, d.push(mv), k, n),
{
    let st = st0.drop_last().push(top).push(child);
    let d2 = d.push(mv);
    lemma_path_push(v, d, mv);
    assert(d2.take(d.len() as int) =~= d);
    assert(d2.take(d2.len() as int) =~= d2);
    assert(d.take(d.len() as int) =~= d);
    lemma_stack_keep(st0, v, d, d2, d.len() as int, k, n);
    assert forall|i: int| 0 <= i < st.len() implies frame_ok(#[trigger] st[i], applied(v, d2.take(i)), k, n) by {
        if i < st0.len() - 1 {
            assert(st[i] == st0[i]);
        } else if i == st0.len() - 1 {
            assert(st[i] == top);
            assert(frame_ok(st0[i], applied(v, d.take(i)), k, n));
        } else {
            assert(st[i] == child);
        }
    }
    assert forall|i: int| 0 <= i < d2.len() implies 1 <= (#[trigger] st[i]).idx && st[i].children@[st[i].idx - 1] == d2[i] by {
        if i < d.len() {
            assert(st[i] == st0[i]);
        } else {
            assert(st[i] == top);
            assert(top.children@[top.idx - 1] == mv);
            assert(d2[i] == mv);
        }
    }
}

/// Recording a terminal game keeps the found games improving.
pub(crate) proof fn lemma_improving_push(ts: Seq<Vec<Move>>, t: Vec<Move>, best0: int, best: int)
    requires
        improving(ts, best0),
        ts.len() == 0 ==> best == best0,
        ts.len() > 0 ==> best == ts.last()@.len(),
        t@.len() > best,
        best >= best0,
    ensures
        improving(ts.push(t), best0),
{
    let ts2 = ts.push(t);
    assert forall|i: int, j: int| 0 <= i < j < ts2.len() implies (#[trigger] ts2[i])@.len() < (#[trigger] ts2[j])@.len() by {
        if j < ts.len() {
            assert(ts2[i] == ts[i] && ts2[j] == ts[j]);
        } else {
            assert(ts2[i] == ts[i]);
            if i < ts.len() - 1 {
                assert(ts[i]@.len() < ts[ts.len() - 1]@.len());
            }
        }
    }
    assert forall|i: int| 0 <= i < ts2.len() implies (#[trigger] ts2[i])@.len() > best0 by {
        if i < ts.len() {
            assert(ts2[i] == ts[i]);
        }
    }
}

/// The work of a stack whose frames are within their children is not
/// negative.
proof fn lemma_work_nonneg(st: Seq<Frame>)
    requires
        forall|i: int| 0 <= i < st.len() ==> (#[trigger] st[i]).idx <= st[i].children@.len(),
    ensures
        stack_work(st) >= 0,
    decreases st.len(),
{
    if st.len() > 0 {
        let sd = st.drop_last();
        assert forall|i: int| 0 <= i < sd.len() implies (#[trigger] sd[i]).idx <= sd[i].children@.len() by {
            assert(sd[i] == st[i]);
        }
        lemma_work_nonneg(sd);
        assert(st.last() == st[st.len() - 1]);
    }
}

/// A copy of a history.
pub(crate) fn copy_history(h: &Vec<Move>) -> (r: Vec<Move>)
    ensures
        r@ == h@,
{
    copy_tail(h, 0)
}

/// A copy of the moves of `h` from index `from` on.
fn copy_tail(h: &Vec<Move>, from: usize) -> (r: Vec<Move>)
    requires
        from <= h@.len(),
    ensures
        r@ == h@.skip(from as int),
{
    let mut out: Vec<Move> = Vec::new();
    let mut i: usize = from;
    while i < h.len()
        invariant
            from <= i <= h@.len(),
            out@ == h@.subrange(from as int, i as int),
        decreases h@.len() - i,
    {
        out.push(h[i]);
        proof {
            assert(out@ =~= h@.subrange(from as int, i + 1));
        }
        i = i + 1;
    }
    proof {
        assert(out@ =~= h@.skip(from as int));
    }
    out
}

/// The move sequences of a list of work items.
pub open spec fn items_view(r: Seq<Vec<Move>>) -> Seq<Seq<Move>> {
    r.map_values(|w: Vec<Move>| w@)
}

/// The work items of the untried children of frame `f` at depth `i` of the
/// descent `d`: `item`, the first `i` moves of `d`, and the child.
pub open spec fn frame_items(item: Seq<Move>, d: Seq<Move>, i: int, f: Frame) -> Seq<Seq<Move>> {
    Seq::new(
        (f.children@.len() - f.idx) as nat,
        |c: int| (item + d.take(i)).push(f.children@[f.idx + c]),
    )
}

/// The work items of the untried children of the first `i` frames of the
/// stack `st`, frame by frame, each frame's children in order.
pub open spec fn untried_items(item: Seq<Move>, st: Seq<Frame>, d: Seq<Move>, i: int) -> Seq<Seq<Move>>
    decreases i,
{
    if i <= 0 {
        Seq::empty()
    } else {
        untried_items(item, st, d, i - 1) + frame_items(item, d, i - 1, st[i - 1])
    }
}

/// The untried children of every frame, each as a work item: `item`, the
/// descent down to the frame, and the child.
fn collect_leftover(
    item: &[Move],
    stack: &Vec<Frame>,
    descent: &Vec<Move>,
    Ghost(v): Ghost<GameView>,
    Ghost(d): Ghost<Seq<Move>>,
    k: i16,
    n: i16,
) -> (r: Vec<Vec<Move>>)
    requires
        stack_ok(stack@, v, d, k as int, n as int),
        descent@ == d,
    ensures
        forall|i: int| 0 <= i < r@.len() ==> leftover_ok((#[trigger] r@[i])@, item@, v),
        items_view(r@) == untried_items(item@, stack@, d, stack@.len() as int),
{
    let mut out: Vec<Vec<Move>> = Vec::new();
    let mut i: usize = 0;
    proof {
        assert(items_view(out@) =~= untried_items(item@, stack@, d, 0));
    }
    while i < stack.len()
        invariant
            i <= stack@.len(),
            stack_ok(stack@, v, d, k as int, n as int),
            descent@ == d,
            forall|q: int| 0 <= q < out@.len() ==> leftover_ok((#[trigger] out@[q])@, item@, v),
            items_view(out@) == untried_items(item@, stack@, d, i as int),
        decreases stack@.len() - i,
    {
        let frame = &stack[i];
        let ghost node = applied(v, d.take(i as int));
        proof {
            assert(frame_ok(stack@[i as int], node, k as int, n as int));
            lemma_children_in(frame.legal@, frame.stab, k as int, n as int);
            lemma_path_prefix(v, d, i as int);
        }
        let mut j: usize = frame.idx;
        let ghost out0 = items_view(out@);
        let ghost fi = frame_items(item@, d, i as int, stack@[i as int]);
        proof {
            assert(out0 + fi.take(0) =~= out0);
        }
        while j < frame.children.len()
            invariant
                i < stack@.len(),
                frame.idx <= j <= frame.children@.len(),
                fi == frame_items(item@, d, i as int, stack@[i as int]),
                items_view(out@) == out0 + fi.take(j - frame.idx),
                *frame == stack@[i as int],
                frame_ok(*frame, node, k as int, n as int),
                node == applied(v, d.take(i as int)),
                path_legal(v, d.take(i as int)),
                i <= d.len(),
                descent@ == d,
                forall|c: int|
                    #![trigger frame.children@[c]]
                    0 <= c < frame.children@.len() ==> exists|q: int|
                        0 <= q < frame.legal@.len() && #[trigger] frame.legal@[q].mv == frame.children@[c],
                forall|q: int| 0 <= q < out@.len() ==> leftover_ok((#[trigger] out@[q])@, item@, v),
            decreases frame.children@.len() - j,
        {
            let c = frame.children[j];
            let w = work_item(item, descent, i, c);
            proof {
                let p = w@.subrange(item@.len() as int, w@.len() - 1);
                assert(p =~= d.take(i as int));
                assert(w@.take(item@.len() as int) =~= item@);
                assert(w@.last() == c);
                let q = choose|q: int| 0 <= q < frame.legal@.len() && #[trigger] frame.legal@[q].mv == frame.children@[j as int];
                assert(legal_view(node, c));
                assert(leftover_ok(w@, item@, v));
            }
            let ghost o0 = out@;
            out.push(w);
            proof {
                assert forall|q: int| 0 <= q < out@.len() implies leftover_ok((#[trigger] out@[q])@, item@, v) by {
                    if q < o0.len() {
                        assert(out@[q] == o0[q]);
                    }
                }
                assert(fi[j - frame.idx] == w@);
                assert(fi.take(j + 1 - frame.idx) =~= fi.take(j - frame.idx).push(w@));
                assert(items_view(out@) =~= items_view(o0).push(w@));
            }
            j = j + 1;
        }
        proof {
            assert(fi.take(frame.children@.len() - frame.idx) =~= fi);
            assert(untried_items(item@, stack@, d, i + 1) == untried_items(item@, stack@, d, i as int) + fi);
        }
        i = i + 1;
    }
    out
}

/// The terminal games found so far improve on `best0` and each on the last.
pub open spec fn improving(ts: Seq<Vec<Move>>, best0: int) -> bool {
    &&& forall|i: int| 0 <= i < ts.len() ==> (#[trigger] ts[i])@.len() > best0
    &&& forall|i: int, j: int| 0 <= i < j < ts.len() ==> (#[trigger] ts[i])@.len() < (#[trigger] ts[j])@.len()
}

/// Explore the subtree rooted at work item `item` (a move sequence from
/// `initial`) depth first, for up to [`CHUNK_BUDGET`] nodes or until
/// `running` reads false. Each node's legal set is derived from its
/// parent's; the children descended into are the trace-canonical orbit
/// representatives. Returns the terminal games found that improve on
/// `best_so_far` (each on the previous), the untried subtrees as new work
/// items, and the number of nodes visited. If a move of `item` falls off the
/// grid, nothing is explored.
#[verifier::rlimit(60)]
pub fn explore_item(
    item: &[Move],
    initial: &GameState,
    init_stab: u8,
    running: &AtomicBool,
    best_so_far: u32,
    k: i16,
    n: i16,
) -> (r: ChunkResult)
    requires
        initial.wf(),
        k_small(k),
        n_small(n),
        n == variant_len(initial.variant),
        forall|i: int| 0 <= i < item@.len() ==> move_small(#[trigger] item@[i]),
    ensures
        !all_placeable(item@) ==> r.terminals@.len() == 0 && r.leftover@.len() == 0,
        all_placeable(item@) ==> forall|i: int|
            0 <= i < r.terminals@.len() ==> terminal_ok((#[trigger] r.terminals@[i])@, applied(initial@, item@)),
        all_placeable(item@) ==> forall|i: int|
            0 <= i < r.leftover@.len() ==> leftover_ok((#[trigger] r.leftover@[i])@, item@, applied(initial@, item@)),
        improving(r.terminals@, best_so_far as int),
        all_placeable(item@) ==> covered(
            applied(initial@, item@),
            stab_along(init_stab, item@, k as int, n as int),
            chunk_best(r.terminals@, best_so_far as int),
            item@,
            items_view(r.leftover@),
            k as int,
            n as int,
        ),
        all_placeable(item@) ==> r.nodes >= 1,
        !all_placeable(item@) ==> r.overflow,
        all_placeable(item@) && r.overflow ==> refused_below(applied(initial@, item@)),
{
    let mut state = initial.duplicate();
    let mut stab = init_stab;
    let mut i: usize = 0;
    proof {
        assert(item@.take(0) =~= Seq::<Move>::empty());
        assert(applied(initial@, item@.take(0)) == initial@) by {
            reveal(applied);
        }
    }
    while i < item.len()
        invariant
            i <= item@.len(),
            state.wf(),
            state.variant == initial.variant,
            state@ == applied(initial@, item@.take(i as int)),
            forall|j: int| 0 <= j < i ==> placeable(#[trigger] item@[j]),
            k_small(k),
            n_small(n),
            forall|j: int| 0 <= j < item@.len() ==> move_small(#[trigger] item@[j]),
            stab == stab_along(init_stab, item@.take(i as int), k as int, n as int),
        decreases item@.len() - i,
    {
        let mv = item[i];
        let ghost stab0 = stab;
        stab = stab_after(stab, &mv, k, n);
        proof {
            lemma_stab_step(stab0, mv, k as int, n as int, stab);
            assert(item@.take(i + 1).drop_last() =~= item@.take(i as int));
        }
        if !state.apply(mv) {
            let r = ChunkResult { terminals: Vec::new(), leftover: Vec::new(), nodes: 0, overflow: true };
            proof {
                assert(!placeable(item@[i as int]));
                assert(r.terminals@ =~= Seq::<Vec<Move>>::empty());
            }
            return r;
        }
        proof {
            lemma_applied_take(initial@, item@, i as int);
        }
        i = i + 1;
    }
    let ghost v = state@;
    let ghost root_stab = stab;
    proof {
        assert(item@.take(item@.len() as int) =~= item@);
        assert(all_placeable(item@));
        lemma_applied_history(initial@, item@);
        assert(v.history == initial@.history + item@);
        assert(Seq::<Move>::empty().take(0) =~= Seq::<Move>::empty());
        assert(applied(v, Seq::<Move>::empty()) == v) by {
            reveal(applied);
        }
    }
    let base_len = state.history.len();
    let forbid = forbid_of(initial.variant);
    let nu = n as usize;
    let mut nodes: u64 = 1;
    let mut terminals: Vec<Vec<Move>> = Vec::new();
    let mut best: usize = best_so_far as usize;
    let (root, root_empty) = root_frame(&state, stab, k, n);
    if root.children.len() == 0 {
        if root_empty && state.history.len() > best {
            let h = copy_history(&state.history);
            terminals.push(h);
            best = state.history.len();
            proof {
                assert(h@.skip(v.history.len() as int) =~= Seq::<Move>::empty());
                assert(h@.take(v.history.len() as int) =~= v.history);
                assert(path_legal(v, Seq::<Move>::empty()));
                assert(terminal_ok(h@, v));
            }
        }
        let r = ChunkResult { terminals, leftover: Vec::new(), nodes, overflow: false };
        proof {
            assert forall|m: Move| #[trigger] kept_child(v, root.stab, m, k as int, n as int) implies explored(
                view_apply(v, m),
                stab_step(root.stab, m, k as int, n as int),
                best as int,
                k as int,
                n as int,
            ) by {
                lemma_frame_kept(root, v, k as int, n as int, m);
            }
            lemma_explored_node(v, root.stab, best as int, k as int, n as int);
            lemma_explored_covered(v, root_stab, best as int, item@, items_view(r.leftover@), k as int, n as int);
        }
        return r;
    }
    let mut stack: Vec<Frame> = Vec::new();
    stack.push(root);
    let ghost mut d: Seq<Move> = Seq::empty();
    proof {
        assert(stack@[0] == root);
        assert(d.take(0) =~= d);
        assert(stack_ok(stack@, v, d, k as int, n as int));
        assert(same_but_redo(state@, applied(v, d)));
        assert(stack_done(stack@, v, d, root_stab, best as int, k as int, n as int));
    }
    let mut budget: u64 = CHUNK_BUDGET;
    let mut overflow = false;
    let ghost mut wd: Seq<Move> = Seq::empty();
    let ghost mut wm: Move = arbitrary();
    while stack.len() > 0 && budget > 0 && keep_running(running)
        invariant
            overflow ==> path_legal(v, wd) && legal_view(applied(v, wd), wm) && !placeable(wm),
            state.wf(),
            state.variant == initial.variant,
            k_small(k),
            n_small(n),
            n == variant_len(initial.variant),
            forbid == variant_forbid(initial.variant),
            nu == variant_len(initial.variant),
            v.variant == initial.variant,
            same_but_redo(state@, applied(v, d)),
            stack@.len() > 0 ==> stack_ok(stack@, v, d, k as int, n as int),
            forall|i: int| 0 <= i < terminals@.len() ==> terminal_ok((#[trigger] terminals@[i])@, v),
            improving(terminals@, best_so_far as int),
            terminals@.len() == 0 ==> best == best_so_far,
            terminals@.len() > 0 ==> best == terminals@.last()@.len(),
            budget <= CHUNK_BUDGET,
            nodes <= CHUNK_BUDGET - budget + 1,
            nodes >= 1,
            base_len == v.history.len(),
            stack@.len() > 0 ==> stack_done(stack@, v, d, root_stab, best as int, k as int, n as int),
            stack@.len() == 0 ==> explored(v, root_stab, best as int, k as int, n as int),
            best >= best_so_far,
        decreases budget, stack_work(stack@),
    {
        let ghost st0 = stack@;
        let mut top = stack.pop().unwrap();
        proof {
            assert(st0.drop_last() =~= stack@);
            assert(top == st0.last());
            lemma_work_top(st0);
            assert(d.take(d.len() as int) =~= d);
            assert(frame_ok(st0[st0.len() - 1], applied(v, d), k as int, n as int));
        }
        if top.idx >= top.children.len() {
            proof {
                lemma_done_pop(st0, v, d, root_stab, best as int, k as int, n as int);
                if st0.len() == 1 {
                    assert(d.len() == 0);
                    assert(d.take(0) =~= d);
                    assert(applied(v, d) == v) by {
                        reveal(applied);
                    }
                }
            }
            if stack.len() > 0 {
                let ghost pre = state@;
                proof {
                    lemma_stack_pop(st0, v, d, k as int, n as int);
                    lemma_applied_history(v, d);
                }
                state.undo();
                proof {
                    lemma_undo_apply_same(pre, applied(v, d.drop_last()), d.last());
                    d = d.drop_last();
                }
            }
        } else {
            let mv = top.children[top.idx];
            let ghost node = applied(v, d);
            proof {
                lemma_children_in(top.legal@, top.stab, k as int, n as int);
                let j = top.idx as int;
                let q = choose|q: int| 0 <= q < top.legal@.len() && #[trigger] top.legal@[q].mv == top.children@[j];
                assert(legal_view(node, mv));
                assert(move_small(top.legal@[q].mv));
            }
            top.idx = top.idx + 1;
            proof {
                lemma_stack_skip(st0, top, v, d, k as int, n as int);
            }
            let child_stab = stab_after(top.stab, &mv, k, n);
            proof {
                lemma_stab_step(top.stab, mv, k as int, n as int, child_stab);
            }
            if !state.apply(mv) {
                overflow = true;
                proof {
                    wd = d;
                    wm = mv;
                    lemma_done_skip(st0, top, v, d, root_stab, best as int, k as int, n as int);
                }
                stack.push(top);
                proof {
                    assert(stack@ =~= st0.drop_last().push(top));
                }
            } else {
                budget = budget - 1;
                nodes = nodes + 1;
                proof {
                    assert(frame_ok(top, node, k as int, n as int));
                }
                let (child, child_empty) = child_frame(&state, &top, mv, child_stab, forbid, nu, k, n, Ghost(node));
                proof {
                    lemma_path_push(v, d, mv);
                    lemma_applied_history(v, d.push(mv));
                }
                let ghost best0 = best;
                if child.children.len() == 0 {
                    if child_empty && state.history.len() > best {
                        let h = copy_history(&state.history);
                        proof {
                            let b = v.history.len() as int;
                            assert(h@.skip(b) =~= d.push(mv));
                            assert(h@.take(b) =~= v.history);
                            assert(terminal_ok(h@, v));
                            lemma_improving_push(terminals@, h, best_so_far as int, best as int);
                        }
                        let ghost t0 = terminals@;
                        terminals.push(h);
                        best = state.history.len();
                        proof {
                            assert forall|i: int| 0 <= i < terminals@.len() implies terminal_ok((#[trigger] terminals@[i])@, v) by {
                                if i < t0.len() {
                                    assert(terminals@[i] == t0[i]);
                                }
                            }
                        }
                    }
                    let ghost post = state@;
                    proof {
                        lemma_done_leaf(st0, top, child, v, d, mv, root_stab, best0 as int, best as int, k as int, n as int);
                    }
                    state.undo();
                    proof {
                        lemma_legal_fresh_view(node, mv);
                        lemma_undo_apply_same(post, node, mv);
                    }
                    stack.push(top);
                    proof {
                        assert(stack@ =~= st0.drop_last().push(top));
                    }
                } else {
                    stack.push(top);
                    stack.push(child);
                    proof {
                        assert(stack@ =~= st0.drop_last().push(top).push(child));
                        lemma_stack_push(st0, top, child, v, d, mv, k as int, n as int);
                        lemma_done_push(st0, top, child, v, d, mv, root_stab, best as int, k as int, n as int);
                        d = d.push(mv);
                    }
                }
            }
        }
        proof {
            if stack@.len() > 0 {
                assert forall|i: int| 0 <= i < stack@.len() implies (#[trigger] stack@[i]).idx <= stack@[i].children@.len() by {
                    assert(frame_ok(stack@[i], applied(v, d.take(i)), k as int, n as int));
                }
                lemma_work_nonneg(stack@);
            }
        }
    }
    let mut leftover: Vec<Vec<Move>> = Vec::new();
    if stack.len() > 0 {
        proof {
            lemma_applied_history(v, d);
        }
        let descent = copy_tail(&state.history, base_len);
        proof {
            assert(descent@ =~= d);
        }
        leftover = collect_leftover(item, &stack, &descent, Ghost(v), Ghost(d), k, n);
        proof {
            lemma_stack_covered(stack@, v, d, root_stab, best as int, item@, k as int, n as int);
        }
    } else {
        proof {
            lemma_explored_covered(v, root_stab, best as int, item@, items_view(leftover@), k as int, n as int);
        }
    }
    proof {
        if overflow {
            assert(legal_view(applied(v, wd), wm));
        }
    }
    ChunkResult { terminals, leftover, nodes, overflow }
}

/// The best score after a chunk: the last terminal game found, or the best
/// before it.
pub open spec fn chunk_best(ts: Seq<Vec<Move>>, best0: int) -> int {
    if ts.len() == 0 {
        best0
    } else {
        ts.last()@.len() as int
    }
}

} // verus!
