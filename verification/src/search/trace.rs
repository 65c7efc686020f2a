//! The trace normal form of the systematic search keeps exactly one play
//! order per set of moves. Two valid play orders of the same moves that are
//! both trace-canonical are the same order, so no position is explored twice
//! through a reordering; and from the start of a game every valid game has a
//! trace-canonical reordering, so no position is lost.
use crate::game::board::Pos;
use crate::game::line::{line_point, pos_int, Line};
use crate::game::line_index::lines_conflict_spec;
use crate::game::moves::Move;
use crate::game::state::GameView;
use crate::search::nrpa::macros::{applied, occupied_pt, playable};
use crate::search::nrpa::{game_valid, valid_step};
use crate::search::systematic::{depends_on, pos_lt, trace_canonical};
use vstd::prelude::*;

verus! {

/// Every move of `s` is trace-canonical after the history before it.
pub open spec fn order_canonical(v: GameView, s: Seq<Move>, n: int) -> bool {
    forall|j: int| 0 <= j < s.len() ==> #[trigger] trace_canonical(s[j], v.history + s.take(j), n)
}

/// Every move of `s` has its point on its line, at its index.
pub open spec fn moves_on_lines(s: Seq<Move>) -> bool {
    forall|j: int| 0 <= j < s.len() ==> line_point(#[trigger] s[j].line, s[j].line_pos as int) == pos_int(s[j].pos)
}

/// The points occupied after playing `s` from `v`: those of `v` and the
/// points of the moves.
proof fn lemma_applied_occupied(v: GameView, s: Seq<Move>, p: Pos)
    ensures
        applied(v, s).occupied.contains(p) <==> (v.occupied.contains(p) || exists|j: int|
            0 <= j < s.len() && #[trigger] s[j].pos == p),
    decreases s.len(),
{
    reveal(applied);
    if s.len() > 0 {
        let d = s.drop_last();
        lemma_applied_occupied(v, d, p);
        if exists|j: int| 0 <= j < d.len() && #[trigger] d[j].pos == p {
            let j = choose|j: int| 0 <= j < d.len() && #[trigger] d[j].pos == p;
            assert(s[j].pos == p);
        }
        if exists|j: int| 0 <= j < s.len() && #[trigger] s[j].pos == p {
            let j = choose|j: int| 0 <= j < s.len() && #[trigger] s[j].pos == p;
            if j < d.len() {
                assert(d[j].pos == p);
            }
        }
    }
}

/// In a valid game each move places a point that no earlier move placed and
/// that was not occupied at the start.
proof fn lemma_fresh_point(v: GameView, s: Seq<Move>, n: int, m: int, j: int)
    requires
        game_valid(v, s, n),
        0 <= j < m < s.len(),
    ensures
        s[j].pos != s[m].pos,
        !v.occupied.contains(s[m].pos),
{
    assert(valid_step(v, s, n, m));
    reveal(valid_step);
    let w = applied(v, s.take(m));
    assert(!w.occupied.contains(s[m].pos));
    lemma_applied_occupied(v, s.take(m), s[m].pos);
    assert(s.take(m)[j] == s[j]);
}

/// The first move is fresh too.
proof fn lemma_fresh_first(v: GameView, s: Seq<Move>, n: int, m: int)
    requires
        game_valid(v, s, n),
        0 <= m < s.len(),
    ensures
        !applied(v, s.take(m)).occupied.contains(s[m].pos),
{
    assert(valid_step(v, s, n, m));
    reveal(valid_step);
}

/// A move none of whose points were placed by the moves `u`, and whose point
/// is smaller than the point of one of them, is not trace-canonical after
/// `h + u`.
proof fn lemma_scan_blocked(mv: Move, h: Seq<Move>, u: Seq<Move>, n: int, x: int)
    requires
        forall|y: int| 0 <= y < u.len() ==> !depends_on(mv, #[trigger] u[y].pos, n),
        0 <= x < u.len(),
        pos_lt(mv.pos, u[x].pos),
    ensures
        !trace_canonical(mv, h + u, n),
    decreases u.len(),
{
    let hu = h + u;
    assert(hu.last() == u.last());
    assert(!depends_on(mv, u[u.len() - 1].pos, n));
    if x == u.len() - 1 {
    } else {
        assert(hu.drop_last() =~= h + u.drop_last());
        lemma_scan_blocked(mv, h, u.drop_last(), n, x);
    }
}

/// A move playable after `w` depends on no point unoccupied in `w`.
proof fn lemma_deps_occupied(w: GameView, a: Move, q: Pos, n: int)
    requires
        playable(w, a, n),
        line_point(a.line, a.line_pos as int) == pos_int(a.pos),
        depends_on(a, q, n),
    ensures
        w.occupied.contains(q),
{
    let k = choose|k: int| 0 <= k < n && #[trigger] line_point(a.line, k) == pos_int(q);
    if k == a.line_pos as int {
        assert(pos_int(q) == pos_int(a.pos));
        assert(q == a.pos);
    }
    assert(occupied_pt(w, line_point(a.line, k)));
    assert((line_point(a.line, k).0 as i16, line_point(a.line, k).1 as i16) == q);
}

/// Moves played from index `i` on in a valid game are not dependencies of a
/// move playable after its first `i` moves.
proof fn lemma_later_not_deps(v: GameView, t: Seq<Move>, n: int, i: int, a: Move, x: int)
    requires
        game_valid(v, t, n),
        0 <= i <= x < t.len(),
        playable(applied(v, t.take(i)), a, n),
        line_point(a.line, a.line_pos as int) == pos_int(a.pos),
    ensures
        !depends_on(a, t[x].pos, n),
{
    if depends_on(a, t[x].pos, n) {
        lemma_deps_occupied(applied(v, t.take(i)), a, t[x].pos, n);
        lemma_applied_occupied(v, t.take(i), t[x].pos);
        lemma_fresh_first(v, t, n, x);
        lemma_applied_occupied(v, t.take(x), t[x].pos);
        if v.occupied.contains(t[x].pos) {
        } else {
            let j = choose|j: int| 0 <= j < t.take(i).len() && #[trigger] t.take(i)[j].pos == t[x].pos;
            assert(t.take(x)[j] == t.take(i)[j]);
        }
    }
}

/// The first index at or after `k` where `s` and `t` differ.
proof fn lemma_first_difference(s: Seq<Move>, t: Seq<Move>, k: int) -> (i: int)
    requires
        s.len() == t.len(),
        0 <= k <= s.len(),
        forall|j: int| 0 <= j < k ==> s[j] == t[j],
        exists|j: int| k <= j < s.len() && s[j] != t[j],
    ensures
        k <= i < s.len(),
        s[i] != t[i],
        forall|j: int| 0 <= j < i ==> s[j] == t[j],
    decreases s.len() - k,
{
    if s[k] != t[k] {
        k
    } else {
        lemma_first_difference(s, t, k + 1)
    }
}

/// If `a`, playable after the first `i` moves of `t`, is played at `k > i`
/// in `t` and places a smaller point than the move at `i`, `t` is not
/// trace-canonical at `k`.
proof fn lemma_late_smaller_not_canonical(v: GameView, t: Seq<Move>, n: int, i: int, k: int)
    requires
        game_valid(v, t, n),
        0 <= i < k < t.len(),
        playable(applied(v, t.take(i)), t[k], n),
        line_point(t[k].line, t[k].line_pos as int) == pos_int(t[k].pos),
        pos_lt(t[k].pos, t[i].pos),
    ensures
        !trace_canonical(t[k], v.history + t.take(k), n),
{
    let a = t[k];
    let u = t.subrange(i, k);
    assert forall|y: int| 0 <= y < u.len() implies !depends_on(a, #[trigger] u[y].pos, n) by {
        assert(u[y] == t[i + y]);
        lemma_later_not_deps(v, t, n, i, a, i + y);
    }
    assert(u[0] == t[i]);
    lemma_scan_blocked(a, v.history + t.take(i), u, n, 0);
    assert((v.history + t.take(i)) + u =~= v.history + t.take(k));
}

/// Two valid play orders of the same moves from `v` that are both
/// trace-canonical are the same order: the trace normal form keeps at most
/// one play order of any set of moves, so no position is explored twice
/// through a reordering of the moves that reach it.
pub proof fn lemma_canonical_order_unique(v: GameView, s: Seq<Move>, t: Seq<Move>, n: int)
    requires
        game_valid(v, s, n),
        game_valid(v, t, n),
        moves_on_lines(s),
        s.to_multiset() == t.to_multiset(),
        order_canonical(v, s, n),
        order_canonical(v, t, n),
    ensures
        s == t,
{
    broadcast use vstd::seq_lib::group_to_multiset_ensures;

    vstd::seq_lib::to_multiset_len(s);
    vstd::seq_lib::to_multiset_len(t);
    assert(s.len() == t.len());
    if !(s =~= t) {
        let i = lemma_first_difference(s, t, 0);
        let a = s[i];
        let b = t[i];
        assert(s.take(i) =~= t.take(i));
        assert(s.contains(a));
        assert(t.to_multiset().count(a) > 0);
        let k = choose|k: int| 0 <= k < t.len() && t[k] == a;
        if k < i {
            assert(s[k] == a);
            lemma_fresh_point(v, s, n, i, k);
        }
        assert(k > i);
        assert(t.contains(b));
        assert(s.to_multiset().count(b) > 0);
        let k2 = choose|k2: int| 0 <= k2 < s.len() && s[k2] == b;
        if k2 < i {
            assert(t[k2] == b);
            lemma_fresh_point(v, t, n, i, k2);
        }
        assert(k2 > i);
        assert(valid_step(v, s, n, i));
        assert(valid_step(v, t, n, i));
        reveal(valid_step);
        assert(playable(applied(v, t.take(i)), t[k], n));
        assert(playable(applied(v, s.take(i)), s[k2], n));
        assert(line_point(s[i].line, s[i].line_pos as int) == pos_int(s[i].pos));
        assert(line_point(s[k2].line, s[k2].line_pos as int) == pos_int(s[k2].pos));
        if pos_lt(a.pos, b.pos) {
            lemma_late_smaller_not_canonical(v, t, n, i, k);
            assert(trace_canonical(t[k], v.history + t.take(k), n));
        } else if pos_lt(b.pos, a.pos) {
            lemma_late_smaller_not_canonical(v, s, n, i, k2);
            assert(trace_canonical(s[k2], v.history + s.take(k2), n));
        } else {
            assert(a.pos == b.pos);
            lemma_fresh_point(v, s, n, k2, i);
        }
    }
}

/// The lines drawn after playing `s` from `v`: those of `v` and the lines of
/// the moves; the variant does not change.
proof fn lemma_applied_lines(v: GameView, s: Seq<Move>, l: Line)
    ensures
        applied(v, s).lines.contains(l) <==> (v.lines.contains(l) || exists|j: int|
            0 <= j < s.len() && #[trigger] s[j].line == l),
        applied(v, s).variant == v.variant,
    decreases s.len(),
{
    reveal(applied);
    if s.len() > 0 {
        let d = s.drop_last();
        lemma_applied_lines(v, d, l);
        if exists|j: int| 0 <= j < d.len() && #[trigger] d[j].line == l {
            let j = choose|j: int| 0 <= j < d.len() && #[trigger] d[j].line == l;
            assert(s[j].line == l);
        }
        if exists|j: int| 0 <= j < s.len() && #[trigger] s[j].line == l {
            let j = choose|j: int| 0 <= j < s.len() && #[trigger] s[j].line == l;
            if j < d.len() {
                assert(d[j].line == l);
            }
        }
    }
}

/// A prefix of a valid game is a valid game.
proof fn lemma_valid_prefix(v: GameView, s: Seq<Move>, n: int, m: int)
    requires
        game_valid(v, s, n),
        0 <= m <= s.len(),
    ensures
        game_valid(v, s.take(m), n),
{
    assert forall|j: int| 0 <= j < s.take(m).len() implies #[trigger] valid_step(v, s.take(m), n, j) by {
        assert(valid_step(v, s, n, j));
        reveal(valid_step);
        assert(s.take(m).take(j) =~= s.take(j));
    }
}

/// A move `y` played before `x` in a valid game does not depend on `x`'s
/// point.
proof fn lemma_earlier_not_dep(v: GameView, s: Seq<Move>, n: int, r: int, m: int)
    requires
        game_valid(v, s, n),
        0 <= r < m < s.len(),
        line_point(s[r].line, s[r].line_pos as int) == pos_int(s[r].pos),
    ensures
        !depends_on(s[r], s[m].pos, n),
{
    if depends_on(s[r], s[m].pos, n) {
        assert(valid_step(v, s, n, r));
        reveal(valid_step);
        lemma_deps_occupied(applied(v, s.take(r)), s[r], s[m].pos, n);
        lemma_applied_occupied(v, s.take(r), s[m].pos);
        lemma_fresh_first(v, s, n, m);
        lemma_applied_occupied(v, s.take(m), s[m].pos);
        if v.occupied.contains(s[m].pos) {
        } else {
            let j = choose|j: int| 0 <= j < s.take(r).len() && #[trigger] s.take(r)[j].pos == s[m].pos;
            assert(s.take(m)[j] == s.take(r)[j]);
        }
    }
}

/// Scanning past moves that are neither dependencies of `m` nor have a
/// larger point changes nothing.
proof fn lemma_scan_through(m: Move, h: Seq<Move>, u: Seq<Move>, n: int)
    requires
        forall|y: int| 0 <= y < u.len() ==> !depends_on(m, #[trigger] u[y].pos, n) && !pos_lt(m.pos, u[y].pos),
    ensures
        trace_canonical(m, h + u, n) == trace_canonical(m, h, n),
    decreases u.len(),
{
    if u.len() == 0 {
        assert(h + u =~= h);
    } else {
        let hu = h + u;
        assert(hu.last() == u[u.len() - 1]);
        assert(hu.drop_last() =~= h + u.drop_last());
        lemma_scan_through(m, h, u.drop_last(), n);
    }
}

/// Inserting a move `x` that `y` does not depend on into the history before
/// the moves `u` leaves `y`'s canonicity unchanged, provided `y`'s point is
/// not smaller than `x`'s whenever the scan reaches `x`.
proof fn lemma_insert_scan(y: Move, h: Seq<Move>, x: Move, u: Seq<Move>, n: int)
    requires
        !depends_on(y, x.pos, n),
        (forall|k: int| 0 <= k < u.len() ==> !depends_on(y, #[trigger] u[k].pos, n)) ==> !pos_lt(y.pos, x.pos),
    ensures
        trace_canonical(y, h + seq![x] + u, n) == trace_canonical(y, h + u, n),
    decreases u.len(),
{
    if u.len() == 0 {
        let hx = h + seq![x];
        assert(hx + u =~= hx);
        assert(h + u =~= h);
        assert(hx.last() == x);
        assert(hx.drop_last() =~= h);
    } else {
        let a = h + seq![x] + u;
        let b = h + u;
        assert(a.last() == u[u.len() - 1]);
        assert(b.last() == u[u.len() - 1]);
        assert(a.drop_last() =~= h + seq![x] + u.drop_last());
        assert(b.drop_last() =~= h + u.drop_last());
        if !depends_on(y, u[u.len() - 1].pos, n) {
            if forall|k: int| 0 <= k < u.drop_last().len() ==> !depends_on(y, #[trigger] u.drop_last()[k].pos, n) {
                assert forall|k: int| 0 <= k < u.len() implies !depends_on(y, #[trigger] u[k].pos, n) by {
                    if k < u.len() - 1 {
                        assert(u[k] == u.drop_last()[k]);
                    }
                }
            }
            lemma_insert_scan(y, h, x, u.drop_last(), n);
        }
    }
}

/// The last move of `t` whose point `x` depends on (`-1` if none).
proof fn lemma_last_dep(x: Move, t: Seq<Move>, n: int, k: int) -> (d: int)
    requires
        0 <= k <= t.len(),
        forall|q: int| k <= q < t.len() ==> !depends_on(x, #[trigger] t[q].pos, n),
    ensures
        -1 <= d < k,
        d >= 0 ==> depends_on(x, t[d].pos, n),
        forall|q: int| d < q < t.len() ==> !depends_on(x, #[trigger] t[q].pos, n),
    decreases k,
{
    if k == 0 {
        -1
    } else if depends_on(x, t[k - 1].pos, n) {
        k - 1
    } else {
        lemma_last_dep(x, t, n, k - 1)
    }
}

/// The first index after `k` whose move has a larger point than `x` (the
/// length of `t` if none).
proof fn lemma_first_larger(x: Move, t: Seq<Move>, d: int, k: int) -> (p: int)
    requires
        -1 <= d < k <= t.len(),
        forall|q: int| d < q < k ==> !pos_lt(x.pos, #[trigger] t[q].pos),
    ensures
        k <= p <= t.len(),
        forall|q: int| d < q < p ==> !pos_lt(x.pos, #[trigger] t[q].pos),
        p < t.len() ==> pos_lt(x.pos, t[p].pos),
    decreases t.len() - k,
{
    if k == t.len() || pos_lt(x.pos, t[k].pos) {
        k
    } else {
        lemma_first_larger(x, t, d, k + 1)
    }
}

/// A move of a reordering `t` of the game `s` without its last move is one
/// of the moves of `s` before the last.
proof fn lemma_in_prefix(s: Seq<Move>, t: Seq<Move>, q: int) -> (r: int)
    requires
        s.len() > 0,
        t.to_multiset() == s.drop_last().to_multiset(),
        0 <= q < t.len(),
    ensures
        0 <= r < s.len() - 1,
        s[r] == t[q],
{
    broadcast use vstd::seq_lib::group_to_multiset_ensures;

    assert(t.contains(t[q]));
    assert(s.drop_last().to_multiset().count(t[q]) > 0);
    let r = choose|r: int| 0 <= r < s.drop_last().len() && s.drop_last()[r] == t[q];
    r
}

/// Playing `x` at index `p` of `t2` adds exactly `x`'s point and line to the
/// position reached after the first `j - 1` moves of `t2`, for `j > p`.
proof fn lemma_applied_insert(v: GameView, t2: Seq<Move>, p: int, x: Move, j: int)
    requires
        0 <= p < j <= t2.len() + 1,
    ensures
        ({
            let w1 = applied(v, t2.insert(p, x).take(j));
            let w0 = applied(v, t2.take(j - 1));
            &&& w1.variant == w0.variant
            &&& forall|q: Pos| #[trigger] w1.occupied.contains(q) <==> w0.occupied.contains(q) || q == x.pos
            &&& forall|l: Line| #[trigger] w1.lines.contains(l) <==> w0.lines.contains(l) || l == x.line
        }),
{
    let a = t2.insert(p, x).take(j);
    let b = t2.take(j - 1);
    assert(a =~= b.insert(p, x));
    assert forall|q: Pos| #[trigger] applied(v, a).occupied.contains(q) <==> applied(v, b).occupied.contains(q)
        || q == x.pos by {
        lemma_applied_occupied(v, a, q);
        lemma_applied_occupied(v, b, q);
        if exists|i: int| 0 <= i < a.len() && #[trigger] a[i].pos == q {
            let i = choose|i: int| 0 <= i < a.len() && #[trigger] a[i].pos == q;
            if i < p {
                assert(b[i].pos == q);
            } else if i > p {
                assert(b[i - 1].pos == q);
            }
        }
        if exists|i: int| 0 <= i < b.len() && #[trigger] b[i].pos == q {
            let i = choose|i: int| 0 <= i < b.len() && #[trigger] b[i].pos == q;
            if i < p {
                assert(a[i].pos == q);
            } else {
                assert(a[i + 1].pos == q);
            }
        }
        if q == x.pos {
            assert(a[p].pos == q);
        }
    }
    assert forall|l: Line| #[trigger] applied(v, a).lines.contains(l) <==> applied(v, b).lines.contains(l)
        || l == x.line by {
        lemma_applied_lines(v, a, l);
        lemma_applied_lines(v, b, l);
        if exists|i: int| 0 <= i < a.len() && #[trigger] a[i].line == l {
            let i = choose|i: int| 0 <= i < a.len() && #[trigger] a[i].line == l;
            if i < p {
                assert(b[i].line == l);
            } else if i > p {
                assert(b[i - 1].line == l);
            }
        }
        if exists|i: int| 0 <= i < b.len() && #[trigger] b[i].line == l {
            let i = choose|i: int| 0 <= i < b.len() && #[trigger] b[i].line == l;
            if i < p {
                assert(a[i].line == l);
            } else {
                assert(a[i + 1].line == l);
            }
        }
        if l == x.line {
            assert(a[p].line == l);
        }
    }
    lemma_applied_lines(v, a, x.line);
    lemma_applied_lines(v, b, x.line);
}

/// The setting of one insertion step: `t2` is a valid canonical reordering
/// of `s` without its last move `x`, `d` the last move of `t2` that `x`
/// depends on, and `p` the first index after `d` whose move has a larger
/// point than `x`.
pub open spec fn insert_setting(v: GameView, s: Seq<Move>, n: int, t2: Seq<Move>, d: int, p: int) -> bool {
    &&& v.history.len() == 0
    &&& game_valid(v, s, n)
    &&& moves_on_lines(s)
    &&& s.len() > 0
    &&& game_valid(v, t2, n)
    &&& t2.to_multiset() == s.drop_last().to_multiset()
    &&& order_canonical(v, t2, n)
    &&& -1 <= d < p <= t2.len()
    &&& d >= 0 ==> depends_on(s.last(), t2[d].pos, n)
    &&& forall|q: int| d < q < t2.len() ==> !depends_on(s.last(), #[trigger] t2[q].pos, n)
    &&& forall|q: int| d < q < p ==> !pos_lt(s.last().pos, #[trigger] t2[q].pos)
    &&& p < t2.len() ==> pos_lt(s.last().pos, t2[p].pos)
}

/// The inserted move is playable at its place.
proof fn lemma_insert_valid_at(v: GameView, s: Seq<Move>, n: int, t2: Seq<Move>, d: int, p: int)
    requires
        insert_setting(v, s, n, t2, d, p),
    ensures
        valid_step(v, t2.insert(p, s.last()), n, p),
{
    broadcast use vstd::seq_lib::group_to_multiset_ensures;

    let x = s.last();
    let last = s.len() - 1;
    let sp = s.drop_last();
    let t = t2.insert(p, x);
    assert(valid_step(v, s, n, last));
    reveal(valid_step);
    assert(s.take(last) =~= sp);
    let sw = applied(v, sp);
    assert(playable(sw, x, n));
    assert(t.take(p) =~= t2.take(p));
    let w = applied(v, t2.take(p));
    lemma_applied_lines(v, sp, x.line);
    lemma_applied_lines(v, t2.take(p), x.line);
    // The point is free.
    lemma_applied_occupied(v, t2.take(p), x.pos);
    lemma_applied_occupied(v, sp, x.pos);
    if w.occupied.contains(x.pos) {
        if !v.occupied.contains(x.pos) {
            let i = choose|i: int| 0 <= i < t2.take(p).len() && #[trigger] t2.take(p)[i].pos == x.pos;
            let r = lemma_in_prefix(s, t2, i);
            lemma_fresh_point(v, s, n, last, r);
        }
    }
    // The other points of the line are placed.
    assert forall|k: int| 0 <= k < n && k != x.line_pos implies #[trigger] occupied_pt(w, line_point(x.line, k)) by {
        let pt = line_point(x.line, k);
        assert(occupied_pt(sw, pt));
        let q: Pos = (pt.0 as i16, pt.1 as i16);
        assert(pos_int(q) == pt);
        lemma_applied_occupied(v, sp, q);
        lemma_applied_occupied(v, t2.take(p), q);
        if !v.occupied.contains(q) {
            let r = choose|r: int| 0 <= r < sp.len() && #[trigger] sp[r].pos == q;
            assert(sp.contains(sp[r]));
            assert(t2.to_multiset().count(sp[r]) > 0);
            let q2 = choose|q2: int| 0 <= q2 < t2.len() && t2[q2] == sp[r];
            assert(q != x.pos);
            assert(depends_on(x, t2[q2].pos, n));
            assert(q2 <= d);
            assert(t2.take(p)[q2].pos == q);
        }
    }
    // The line conflicts with no drawn line.
    assert forall|l: Line| #[trigger] w.lines.contains(l) implies !lines_conflict_spec(
        l,
        x.line,
        n - 1 - crate::search::nrpa::macros::max_overlap(w.variant),
    ) by {
        lemma_applied_lines(v, t2.take(p), l);
        lemma_applied_lines(v, sp, l);
        if !v.lines.contains(l) {
            let i = choose|i: int| 0 <= i < t2.take(p).len() && #[trigger] t2.take(p)[i].line == l;
            let r = lemma_in_prefix(s, t2, i);
            assert(sp[r].line == l);
        }
        assert(sw.lines.contains(l));
    }
}

/// The moves after the inserted one stay playable.
proof fn lemma_insert_valid_after(v: GameView, s: Seq<Move>, n: int, t2: Seq<Move>, d: int, p: int, j: int)
    requires
        insert_setting(v, s, n, t2, d, p),
        p < j <= t2.len(),
    ensures
        valid_step(v, t2.insert(p, s.last()), n, j),
{
    let x = s.last();
    let last = s.len() - 1;
    let sp = s.drop_last();
    let t = t2.insert(p, x);
    let y = t2[j - 1];
    assert(t[j] == y);
    assert(valid_step(v, t2, n, j - 1));
    assert(valid_step(v, s, n, last));
    reveal(valid_step);
    let w0 = applied(v, t2.take(j - 1));
    let w1 = applied(v, t.take(j));
    assert(playable(w0, y, n));
    lemma_applied_insert(v, t2, p, x, j);
    let r = lemma_in_prefix(s, t2, j - 1);
    lemma_fresh_point(v, s, n, last, r);
    assert(!w1.occupied.contains(y.pos));
    assert forall|k: int| 0 <= k < n && k != y.line_pos implies #[trigger] occupied_pt(w1, line_point(y.line, k)) by {
        assert(occupied_pt(w0, line_point(y.line, k)));
    }
    assert(s.take(last) =~= sp);
    let sw = applied(v, sp);
    assert(playable(sw, x, n));
    lemma_applied_lines(v, sp, y.line);
    assert(sp[r].line == y.line);
    assert(sw.lines.contains(y.line));
    lemma_applied_lines(v, sp, x.line);
    lemma_applied_lines(v, t2.take(j - 1), x.line);
    assert forall|l: Line| #[trigger] w1.lines.contains(l) implies !lines_conflict_spec(
        l,
        y.line,
        n - 1 - crate::search::nrpa::macros::max_overlap(w1.variant),
    ) by {
        if l == x.line {
            assert(!lines_conflict_spec(y.line, x.line, n - 1 - crate::search::nrpa::macros::max_overlap(sw.variant)));
        } else {
            assert(w0.lines.contains(l));
        }
    }
}

/// The inserted move is trace-canonical at its place.
proof fn lemma_insert_canonical_at(v: GameView, s: Seq<Move>, n: int, t2: Seq<Move>, d: int, p: int)
    requires
        insert_setting(v, s, n, t2, d, p),
    ensures
        trace_canonical(s.last(), v.history + t2.insert(p, s.last()).take(p), n),
{
    let x = s.last();
    let t = t2.insert(p, x);
    assert(v.history + t.take(p) =~= t2.take(d + 1) + t2.subrange(d + 1, p));
    let u = t2.subrange(d + 1, p);
    assert forall|y: int| 0 <= y < u.len() implies !depends_on(x, #[trigger] u[y].pos, n) && !pos_lt(x.pos, u[y].pos) by {
        assert(u[y] == t2[d + 1 + y]);
    }
    lemma_scan_through(x, t2.take(d + 1), u, n);
    if d >= 0 {
        assert(t2.take(d + 1).last() == t2[d]);
    } else {
        assert(t2.take(d + 1).len() == 0);
    }
}

/// The moves after the inserted one stay trace-canonical.
proof fn lemma_insert_canonical_after(v: GameView, s: Seq<Move>, n: int, t2: Seq<Move>, d: int, p: int, j: int)
    requires
        insert_setting(v, s, n, t2, d, p),
        p < j <= t2.len(),
    ensures
        trace_canonical(t2.insert(p, s.last())[j], v.history + t2.insert(p, s.last()).take(j), n),
{
    let x = s.last();
    let last = s.len() - 1;
    let t = t2.insert(p, x);
    let y = t2[j - 1];
    assert(t[j] == y);
    let h = t2.take(p);
    let u = t2.subrange(p, j - 1);
    assert(v.history + t.take(j) =~= h + seq![x] + u);
    assert(v.history + t2.take(j - 1) =~= h + u);
    assert(trace_canonical(t2[j - 1], v.history + t2.take(j - 1), n));
    let r = lemma_in_prefix(s, t2, j - 1);
    lemma_earlier_not_dep(v, s, n, r, last);
    if forall|k: int| 0 <= k < u.len() ==> !depends_on(y, #[trigger] u[k].pos, n) {
        if u.len() == 0 {
            assert(j - 1 == p);
            assert(pos_lt(x.pos, y.pos));
        } else {
            assert(u[0] == t2[p]);
            if pos_lt(y.pos, u[0].pos) {
                lemma_scan_blocked(y, h, u, n, 0);
            }
            assert(pos_lt(x.pos, t2[p].pos));
        }
    }
    lemma_insert_scan(y, h, x, u, n);
}

/// One insertion step: a valid canonical reordering of a valid game without
/// its last move extends to one of the whole game.
proof fn lemma_insert_step(v: GameView, s: Seq<Move>, n: int, t2: Seq<Move>) -> (t: Seq<Move>)
    requires
        v.history.len() == 0,
        game_valid(v, s, n),
        moves_on_lines(s),
        s.len() > 0,
        game_valid(v, t2, n),
        t2.to_multiset() == s.drop_last().to_multiset(),
        order_canonical(v, t2, n),
    ensures
        game_valid(v, t, n),
        t.to_multiset() == s.to_multiset(),
        order_canonical(v, t, n),
{
    let x = s.last();
    let d = lemma_last_dep(x, t2, n, t2.len() as int);
    let p = lemma_first_larger(x, t2, d, d + 1);
    assert(insert_setting(v, s, n, t2, d, p));
    let t = t2.insert(p, x);
    assert forall|j: int| 0 <= j < t.len() implies #[trigger] valid_step(v, t, n, j) by {
        if j < p {
            assert(valid_step(v, t2, n, j));
            reveal(valid_step);
            assert(t.take(j) =~= t2.take(j));
            assert(t[j] == t2[j]);
        } else if j == p {
            lemma_insert_valid_at(v, s, n, t2, d, p);
        } else {
            lemma_insert_valid_after(v, s, n, t2, d, p, j);
        }
    }
    assert forall|j: int| 0 <= j < t.len() implies #[trigger] trace_canonical(t[j], v.history + t.take(j), n) by {
        if j < p {
            assert(trace_canonical(t2[j], v.history + t2.take(j), n));
            assert(t.take(j) =~= t2.take(j));
            assert(t[j] == t2[j]);
        } else if j == p {
            lemma_insert_canonical_at(v, s, n, t2, d, p);
        } else {
            lemma_insert_canonical_after(v, s, n, t2, d, p, j);
        }
    }
    vstd::seq_lib::to_multiset_insert(t2, p, x);
    assert(s =~= s.drop_last().push(x));
    vstd::seq_lib::to_multiset_build(s.drop_last(), x);
    t
}

/// Every valid game from a position with no history, whose moves have their
/// points on their lines, has a valid trace-canonical reordering: the trace
/// normal form loses no set of moves that can be played.
pub proof fn lemma_canonical_order_exists(v: GameView, s: Seq<Move>, n: int) -> (t: Seq<Move>)
    requires
        v.history.len() == 0,
        game_valid(v, s, n),
        moves_on_lines(s),
    ensures
        game_valid(v, t, n),
        t.to_multiset() == s.to_multiset(),
        order_canonical(v, t, n),
    decreases s.len(),
{
    if s.len() == 0 {
        s
    } else {
        let sp = s.drop_last();
        lemma_valid_prefix(v, s, n, s.len() - 1);
        assert(s.take(s.len() - 1) =~= sp);
        assert forall|j: int| 0 <= j < sp.len() implies line_point(#[trigger] sp[j].line, sp[j].line_pos as int)
            == pos_int(sp[j].pos) by {
            assert(sp[j] == s[j]);
        }
        let t2 = lemma_canonical_order_exists(v, sp, n);
        lemma_insert_step(v, s, n, t2)
    }
}

} // verus!
