//! What the exploration of a work item covers: the games reachable from the
//! item's node by kept moves (legal, on the grid, trace-canonical and orbit
//! representatives under the stabiliser along the way).
use crate::game::moves::Move;
use crate::game::state::{placeable, view_apply, GameView};
use crate::search::systematic::{lemma_applied_history, lemma_applied_take};
use crate::game::rules::variant_len;
use crate::search::nrpa::macros::applied;
use crate::search::symmetry::{move_key_spec, stab_has};
use crate::search::systematic::{
    children_spec, frame_items, frame_ok, keeps, legal_view, stack_ok, terminal_view, trace_canonical, untried_items, Cand,
    Frame,
};
use vstd::prelude::*;

verus! {

/// `r` holds exactly the transforms of `stab` that fix the key of `m`.
pub open spec fn stab_step_ok(stab: u8, m: Move, k: int, n: int, r: u8) -> bool {
    forall|t: int|
        0 <= t < 8 ==> #[trigger] stab_has(r, t) == (stab_has(stab, t) && move_key_spec(t, m, k, n)
            == move_key_spec(0, m, k, n))
}

/// The stabiliser after playing `m`.
pub open spec fn stab_step(stab: u8, m: Move, k: int, n: int) -> u8 {
    choose|r: u8| stab_step_ok(stab, m, k, n, r)
}

/// The stabiliser after playing the moves `p` in order.
pub open spec fn stab_along(stab: u8, p: Seq<Move>, k: int, n: int) -> u8
    decreases p.len(),
{
    if p.len() == 0 {
        stab
    } else {
        stab_step(stab_along(stab, p.drop_last(), k, n), p.last(), k, n)
    }
}

/// `m` is a kept move at node `w` with stabiliser `stab`: legal, on the grid,
/// trace-canonical and its orbit's representative.
pub open spec fn kept_child(w: GameView, stab: u8, m: Move, k: int, n: int) -> bool {
    &&& legal_view(w, m)
    &&& placeable(m)
    &&& keeps(Cand { mv: m, canon: trace_canonical(m, w.history, variant_len(w.variant) as int) }, stab, k, n)
}

/// Every move of `p` is kept at its turn, from node `v` with stabiliser
/// `stab`.
pub open spec fn kept_path(v: GameView, stab: u8, p: Seq<Move>, k: int, n: int) -> bool {
    forall|i: int|
        0 <= i < p.len() ==> #[trigger] kept_child(applied(v, p.take(i)), stab_along(stab, p.take(i), k, n), p[i], k, n)
}

/// Every finished game reached from `v` by kept moves is at most `best` moves
/// long.
pub open spec fn explored(v: GameView, stab: u8, best: int, k: int, n: int) -> bool {
    forall|p: Seq<Move>|
        #[trigger] kept_path(v, stab, p, k, n) && terminal_view(applied(v, p)) ==> v.history.len() + p.len() <= best
}

/// A stabiliser is determined by its bits.
pub proof fn lemma_stab_step(stab: u8, m: Move, k: int, n: int, r: u8)
    requires
        stab_step_ok(stab, m, k, n, r),
    ensures
        stab_step(stab, m, k, n) == r,
{
    let c = stab_step(stab, m, k, n);
    assert(stab_step_ok(stab, m, k, n, c));
    assert(stab_has(c, 0) == stab_has(r, 0));
    assert(stab_has(c, 1) == stab_has(r, 1));
    assert(stab_has(c, 2) == stab_has(r, 2));
    assert(stab_has(c, 3) == stab_has(r, 3));
    assert(stab_has(c, 4) == stab_has(r, 4));
    assert(stab_has(c, 5) == stab_has(r, 5));
    assert(stab_has(c, 6) == stab_has(r, 6));
    assert(stab_has(c, 7) == stab_has(r, 7));
    assert(c == r) by (bit_vector)
        requires
            ((c >> 0u8) & 1u8 == 1u8) == ((r >> 0u8) & 1u8 == 1u8),
            ((c >> 1u8) & 1u8 == 1u8) == ((r >> 1u8) & 1u8 == 1u8),
            ((c >> 2u8) & 1u8 == 1u8) == ((r >> 2u8) & 1u8 == 1u8),
            ((c >> 3u8) & 1u8 == 1u8) == ((r >> 3u8) & 1u8 == 1u8),
            ((c >> 4u8) & 1u8 == 1u8) == ((r >> 4u8) & 1u8 == 1u8),
            ((c >> 5u8) & 1u8 == 1u8) == ((r >> 5u8) & 1u8 == 1u8),
            ((c >> 6u8) & 1u8 == 1u8) == ((r >> 6u8) & 1u8 == 1u8),
            ((c >> 7u8) & 1u8 == 1u8) == ((r >> 7u8) & 1u8 == 1u8),
    ;
}

/// Playing `a` then `b` is playing their concatenation.
pub proof fn lemma_applied_concat(v: GameView, a: Seq<Move>, b: Seq<Move>)
    ensures
        applied(v, a + b) == applied(applied(v, a), b),
    decreases b.len(),
{
    reveal(applied);
    if b.len() == 0 {
        assert(a + b =~= a);
    } else {
        lemma_applied_concat(v, a, b.drop_last());
        assert((a + b).drop_last() =~= a + b.drop_last());
        assert((a + b).last() == b.last());
    }
}

/// The stabiliser along `a` then `b`.
pub proof fn lemma_stab_concat(stab: u8, a: Seq<Move>, b: Seq<Move>, k: int, n: int)
    ensures
        stab_along(stab, a + b, k, n) == stab_along(stab_along(stab, a, k, n), b, k, n),
    decreases b.len(),
{
    if b.len() == 0 {
        assert(a + b =~= a);
    } else {
        lemma_stab_concat(stab, a, b.drop_last(), k, n);
        assert((a + b).drop_last() =~= a + b.drop_last());
        assert((a + b).last() == b.last());
    }
}

/// A node is explored when its own game (if finished) and the subtrees of
/// all its kept moves are.
pub proof fn lemma_explored_node(w: GameView, stab: u8, best: int, k: int, n: int)
    requires
        terminal_view(w) ==> w.history.len() <= best,
        forall|m: Move|
            #[trigger] kept_child(w, stab, m, k, n) ==> explored(view_apply(w, m), stab_step(stab, m, k, n), best, k, n),
    ensures
        explored(w, stab, best, k, n),
{
    assert forall|p: Seq<Move>| #[trigger] kept_path(w, stab, p, k, n) && terminal_view(applied(w, p)) implies w.history.len()
        + p.len() <= best by {
        if p.len() == 0 {
            reveal(applied);
        } else {
            let m = p[0];
            assert(p.take(0) =~= Seq::<Move>::empty());
            assert(applied(w, Seq::<Move>::empty()) == w) by {
                reveal(applied);
            }
            assert(kept_child(applied(w, p.take(0)), stab_along(stab, p.take(0), k, n), p[0], k, n));
            assert(kept_child(w, stab, m, k, n));
            let c = view_apply(w, m);
            let s2 = stab_step(stab, m, k, n);
            let q = p.drop_first();
            assert(applied(w, seq![m]) == c) by {
                reveal(applied);
                assert(seq![m].drop_last() =~= Seq::<Move>::empty());
            }
            assert(stab_along(stab, seq![m], k, n) == s2) by {
                assert(seq![m].drop_last() =~= Seq::<Move>::empty());
            }
            assert forall|i: int| 0 <= i < q.len() implies #[trigger] kept_child(
                applied(c, q.take(i)),
                stab_along(s2, q.take(i), k, n),
                q[i],
                k,
                n,
            ) by {
                assert(p.take(i + 1) =~= seq![m] + q.take(i));
                lemma_applied_concat(w, seq![m], q.take(i));
                lemma_stab_concat(stab, seq![m], q.take(i), k, n);
                assert(kept_child(applied(w, p.take(i + 1)), stab_along(stab, p.take(i + 1), k, n), p[i + 1], k, n));
            }
            assert(kept_path(c, s2, q, k, n));
            assert(p =~= seq![m] + q);
            lemma_applied_concat(w, seq![m], q);
            assert(c.history.len() == w.history.len() + 1);
        }
    }
}

/// Exploring within a bound is exploring within any larger one.
pub proof fn lemma_explored_monotone(w: GameView, stab: u8, b1: int, b2: int, k: int, n: int)
    requires
        explored(w, stab, b1, k, n),
        b1 <= b2,
    ensures
        explored(w, stab, b2, k, n),
{
}

/// The kept children of a node are exactly the children listed from its
/// candidates.
pub proof fn lemma_children_iff(legal: Seq<Cand>, stab: u8, k: int, n: int, m: Move)
    ensures
        children_spec(legal, stab, k, n).contains(m) <==> exists|q: int|
            0 <= q < legal.len() && #[trigger] legal[q].mv == m && keeps(legal[q], stab, k, n),
    decreases legal.len(),
{
    if legal.len() > 0 {
        let rest = legal.drop_last();
        lemma_children_iff(rest, stab, k, n, m);
        let cs = children_spec(legal, stab, k, n);
        let cr = children_spec(rest, stab, k, n);
        if exists|q: int| 0 <= q < legal.len() && #[trigger] legal[q].mv == m && keeps(legal[q], stab, k, n) {
            let q = choose|q: int| 0 <= q < legal.len() && #[trigger] legal[q].mv == m && keeps(legal[q], stab, k, n);
            if q < rest.len() {
                assert(rest[q] == legal[q]);
                let j = choose|j: int| 0 <= j < cr.len() && cr[j] == m;
                assert(cs[j] == m);
            } else {
                assert(cs[cs.len() - 1] == m);
            }
        }
        if cs.contains(m) {
            let j = choose|j: int| 0 <= j < cs.len() && cs[j] == m;
            if j < cr.len() {
                assert(cr[j] == m);
                let q = choose|q: int| 0 <= q < rest.len() && #[trigger] rest[q].mv == m && keeps(rest[q], stab, k, n);
                assert(legal[q] == rest[q]);
            } else {
                assert(legal[legal.len() - 1].mv == m);
            }
        }
    }
}

/// The kept moves of a frame's node are its listed children, and its listed
/// children on the grid are kept moves.
pub proof fn lemma_frame_kept(f: Frame, w: GameView, k: int, n: int, m: Move)
    requires
        frame_ok(f, w, k, n),
    ensures
        kept_child(w, f.stab, m, k, n) ==> f.children@.contains(m),
        f.children@.contains(m) ==> legal_view(w, m) && (placeable(m) ==> kept_child(w, f.stab, m, k, n)),
{
    lemma_children_iff(f.legal@, f.stab, k, n, m);
    let c = Cand { mv: m, canon: trace_canonical(m, w.history, variant_len(w.variant) as int) };
    if kept_child(w, f.stab, m, k, n) {
        let q = choose|q: int| 0 <= q < f.legal@.len() && #[trigger] f.legal@[q].mv == m;
        assert(f.legal@[q] == c);
    }
    if f.children@.contains(m) {
        let q = choose|q: int| 0 <= q < f.legal@.len() && #[trigger] f.legal@[q].mv == m && keeps(f.legal@[q], f.stab, k, n);
        assert(f.legal@[q] == c);
    }
}

/// The suffix of a kept path after its first `i` moves is a kept path from
/// the node those moves reach.
pub proof fn lemma_kept_suffix(v: GameView, stab: u8, p: Seq<Move>, i: int, k: int, n: int)
    requires
        kept_path(v, stab, p, k, n),
        0 <= i <= p.len(),
    ensures
        kept_path(applied(v, p.take(i)), stab_along(stab, p.take(i), k, n), p.skip(i), k, n),
        applied(v, p) == applied(applied(v, p.take(i)), p.skip(i)),
{
    let a = p.take(i);
    let b = p.skip(i);
    assert(p =~= a + b);
    lemma_applied_concat(v, a, b);
    assert forall|j: int| 0 <= j < b.len() implies #[trigger] kept_child(
        applied(applied(v, a), b.take(j)),
        stab_along(stab_along(stab, a, k, n), b.take(j), k, n),
        b[j],
        k,
        n,
    ) by {
        assert(p.take(i + j) =~= a + b.take(j));
        lemma_applied_concat(v, a, b.take(j));
        lemma_stab_concat(stab, a, b.take(j), k, n);
        assert(kept_child(applied(v, p.take(i + j)), stab_along(stab, p.take(i + j), k, n), p[i + j], k, n));
    }
}

/// Child `j` of frame `f` at node `w` is done: if it is kept, the games below
/// it are within `best`.
pub open spec fn child_done(w: GameView, f: Frame, j: int, best: int, k: int, n: int) -> bool {
    kept_child(w, f.stab, f.children@[j], k, n) ==> explored(
        view_apply(w, f.children@[j]),
        stab_step(f.stab, f.children@[j], k, n),
        best,
        k,
        n,
    )
}

/// How many children of frame `i` of a stack of `len` frames are done: those
/// before its index, but for the one being descended into below the top.
pub open spec fn done_limit(f: Frame, i: int, len: int) -> int {
    if i == len - 1 {
        f.idx as int
    } else {
        f.idx - 1
    }
}

/// The progress of the depth-first search: every frame has children, its
/// stabiliser is the one along the descent, and its children before its
/// limit are done.
pub open spec fn stack_done(st: Seq<Frame>, v: GameView, d: Seq<Move>, root: u8, best: int, k: int, n: int) -> bool {
    &&& forall|i: int| 0 <= i < st.len() ==> (#[trigger] st[i]).stab == stab_along(root, d.take(i), k, n)
    &&& forall|i: int| 0 <= i < st.len() ==> (#[trigger] st[i]).children@.len() > 0
    &&& forall|i: int, j: int|
        #![trigger st[i], child_done(applied(v, d.take(i)), st[i], j, best, k, n)]
        0 <= i < st.len() && 0 <= j < done_limit(st[i], i, st.len() as int) ==> child_done(
            applied(v, d.take(i)),
            st[i],
            j,
            best,
            k,
            n,
        )
}

/// A frame whose children are all done has its node explored.
pub proof fn lemma_frame_explored(f: Frame, w: GameView, best: int, k: int, n: int)
    requires
        frame_ok(f, w, k, n),
        f.children@.len() > 0,
        forall|j: int| 0 <= j < f.children@.len() ==> #[trigger] child_done(w, f, j, best, k, n),
    ensures
        explored(w, f.stab, best, k, n),
{
    lemma_frame_kept(f, w, k, n, f.children@[0]);
    assert(f.children@.contains(f.children@[0]));
    assert forall|m: Move| #[trigger] kept_child(w, f.stab, m, k, n) implies explored(
        view_apply(w, m),
        stab_step(f.stab, m, k, n),
        best,
        k,
        n,
    ) by {
        lemma_frame_kept(f, w, k, n, m);
        let j = choose|j: int| 0 <= j < f.children@.len() && f.children@[j] == m;
        assert(child_done(w, f, j, best, k, n));
    }
    lemma_explored_node(w, f.stab, best, k, n);
}

/// The games below the node of an exhausted frame are explored, which makes
/// the child its parent descended into done.
pub proof fn lemma_done_pop(st0: Seq<Frame>, v: GameView, d: Seq<Move>, root: u8, best: int, k: int, n: int)
    requires
        st0.len() >= 1,
        stack_ok(st0, v, d, k, n),
        stack_done(st0, v, d, root, best, k, n),
        st0.last().idx >= st0.last().children@.len(),
    ensures
        explored(applied(v, d), st0.last().stab, best, k, n),
        st0.len() >= 2 ==> stack_done(st0.drop_last(), v, d.drop_last(), root, best, k, n),
{
    let t = st0.len() - 1;
    let top = st0[t];
    assert(d.take(t) =~= d);
    assert(frame_ok(st0[t], applied(v, d.take(t)), k, n));
    assert forall|j: int| 0 <= j < top.children@.len() implies #[trigger] child_done(applied(v, d), top, j, best, k, n) by {
        assert(child_done(applied(v, d.take(t)), st0[t], j, best, k, n));
    }
    lemma_frame_explored(top, applied(v, d), best, k, n);
    if st0.len() >= 2 {
        let st = st0.drop_last();
        let dl = d.drop_last();
        let p = t - 1;
        assert forall|i: int| 0 <= i < st.len() implies dl.take(i) == d.take(i) by {
            assert(dl.take(i) =~= d.take(i));
        }
        assert forall|i: int| 0 <= i < st.len() implies (#[trigger] st[i]).stab == stab_along(root, dl.take(i), k, n) by {
            assert(st[i] == st0[i]);
        }
        assert forall|i: int| 0 <= i < st.len() implies (#[trigger] st[i]).children@.len() > 0 by {
            assert(st[i] == st0[i]);
        }
        assert forall|i: int, j: int|
            #![trigger st[i], child_done(applied(v, dl.take(i)), st[i], j, best, k, n)]
            0 <= i < st.len() && 0 <= j < done_limit(st[i], i, st.len() as int) implies child_done(
                applied(v, dl.take(i)),
                st[i],
                j,
                best,
                k,
                n,
            ) by {
            assert(st[i] == st0[i]);
            if i < p || j < st0[i].idx - 1 {
                assert(child_done(applied(v, d.take(i)), st0[i], j, best, k, n));
            } else {
                // The child descended into: its node is the popped frame's.
                assert(i == p && j == st0[p].idx - 1);
                assert(st0[p].children@[j] == d[p]);
                assert(d =~= dl.push(d[p]));
                crate::search::systematic::lemma_applied_take(v, d, p);
                assert(d.take(p + 1) =~= d);
                assert(top.stab == stab_along(root, d.take(t), k, n));
                assert(d.take(t).drop_last() =~= dl.take(p));
            }
        }
    }
}

/// Skipping a child off the grid, it is done.
pub proof fn lemma_done_skip(st0: Seq<Frame>, top: Frame, v: GameView, d: Seq<Move>, root: u8, best: int, k: int, n: int)
    requires
        st0.len() >= 1,
        stack_done(st0, v, d, root, best, k, n),
        top.idx == st0.last().idx + 1,
        top.children == st0.last().children,
        top.stab == st0.last().stab,
        st0.last().idx < st0.last().children@.len(),
        !placeable(st0.last().children@[st0.last().idx as int]),
    ensures
        stack_done(st0.drop_last().push(top), v, d, root, best, k, n),
{
    let st = st0.drop_last().push(top);
    let t = st0.len() - 1;
    assert forall|i: int| 0 <= i < st.len() implies (#[trigger] st[i]).stab == stab_along(root, d.take(i), k, n) by {
        if i < t {
            assert(st[i] == st0[i]);
        }
    }
    assert forall|i: int| 0 <= i < st.len() implies (#[trigger] st[i]).children@.len() > 0 by {
        if i < t {
            assert(st[i] == st0[i]);
        }
    }
    assert forall|i: int, j: int|
        #![trigger st[i], child_done(applied(v, d.take(i)), st[i], j, best, k, n)]
        0 <= i < st.len() && 0 <= j < done_limit(st[i], i, st.len() as int) implies child_done(
            applied(v, d.take(i)),
            st[i],
            j,
            best,
            k,
            n,
        ) by {
        if i < t {
            assert(st[i] == st0[i]);
            assert(child_done(applied(v, d.take(i)), st0[i], j, best, k, n));
        } else if j < st0[t].idx {
            assert(child_done(applied(v, d.take(i)), st0[t], j, best, k, n));
        }
    }
}

/// Raising the bound keeps every done child done.
pub proof fn lemma_done_raise(st: Seq<Frame>, v: GameView, d: Seq<Move>, root: u8, b1: int, b2: int, k: int, n: int)
    requires
        stack_done(st, v, d, root, b1, k, n),
        b1 <= b2,
    ensures
        stack_done(st, v, d, root, b2, k, n),
{
    assert forall|i: int, j: int|
        #![trigger st[i], child_done(applied(v, d.take(i)), st[i], j, b2, k, n)]
        0 <= i < st.len() && 0 <= j < done_limit(st[i], i, st.len() as int) implies child_done(
            applied(v, d.take(i)),
            st[i],
            j,
            b2,
            k,
            n,
        ) by {
        assert(child_done(applied(v, d.take(i)), st[i], j, b1, k, n));
        let c = st[i].children@[j];
        if kept_child(applied(v, d.take(i)), st[i].stab, c, k, n) {
            lemma_explored_monotone(view_apply(applied(v, d.take(i)), c), stab_step(st[i].stab, c, k, n), b1, b2, k, n);
        }
    }
}

/// A child whose node has no kept move, and whose finished game (if it is
/// one) is within the new bound, is done.
pub proof fn lemma_done_leaf(
    st0: Seq<Frame>,
    top: Frame,
    child: Frame,
    v: GameView,
    d: Seq<Move>,
    mv: Move,
    root: u8,
    best: int,
    best2: int,
    k: int,
    n: int,
)
    requires
        st0.len() >= 1,
        st0.len() == d.len() + 1,
        stack_done(st0, v, d, root, best, k, n),
        best <= best2,
        top.idx == st0.last().idx + 1,
        top.children == st0.last().children,
        top.stab == st0.last().stab,
        st0.last().idx < st0.last().children@.len(),
        st0.last().children@[st0.last().idx as int] == mv,
        frame_ok(child, view_apply(applied(v, d), mv), k, n),
        child.children@.len() == 0,
        child.stab == stab_step(top.stab, mv, k, n),
        terminal_view(view_apply(applied(v, d), mv)) ==> view_apply(applied(v, d), mv).history.len() <= best2,
    ensures
        stack_done(st0.drop_last().push(top), v, d, root, best2, k, n),
{
    lemma_done_raise(st0, v, d, root, best, best2, k, n);
    let w = view_apply(applied(v, d), mv);
    assert forall|m: Move| #[trigger] kept_child(w, child.stab, m, k, n) implies explored(
        view_apply(w, m),
        stab_step(child.stab, m, k, n),
        best2,
        k,
        n,
    ) by {
        lemma_frame_kept(child, w, k, n, m);
    }
    lemma_explored_node(w, child.stab, best2, k, n);
    let st = st0.drop_last().push(top);
    let t = st0.len() - 1;
    assert(d.take(t) =~= d);
    assert forall|i: int| 0 <= i < st.len() implies (#[trigger] st[i]).stab == stab_along(root, d.take(i), k, n) by {
        if i < t {
            assert(st[i] == st0[i]);
        }
    }
    assert forall|i: int| 0 <= i < st.len() implies (#[trigger] st[i]).children@.len() > 0 by {
        if i < t {
            assert(st[i] == st0[i]);
        }
    }
    assert forall|i: int, j: int|
        #![trigger st[i], child_done(applied(v, d.take(i)), st[i], j, best2, k, n)]
        0 <= i < st.len() && 0 <= j < done_limit(st[i], i, st.len() as int) implies child_done(
            applied(v, d.take(i)),
            st[i],
            j,
            best2,
            k,
            n,
        ) by {
        if i < t {
            assert(st[i] == st0[i]);
            assert(child_done(applied(v, d.take(i)), st0[i], j, best2, k, n));
        } else if j < st0[t].idx {
            assert(child_done(applied(v, d.take(i)), st0[t], j, best2, k, n));
        } else {
            assert(st[i].children@[j] == mv);
        }
    }
}

/// Descending into a child with kept moves: the child's frame starts with
/// nothing done.
pub proof fn lemma_done_push(
    st0: Seq<Frame>,
    top: Frame,
    child: Frame,
    v: GameView,
    d: Seq<Move>,
    mv: Move,
    root: u8,
    best: int,
    k: int,
    n: int,
)
    requires
        st0.len() >= 1,
        st0.len() == d.len() + 1,
        stack_done(st0, v, d, root, best, k, n),
        top.idx == st0.last().idx + 1,
        top.children == st0.last().children,
        top.stab == st0.last().stab,
        st0.last().idx < st0.last().children@.len(),
        child.children@.len() > 0,
        child.idx == 0,
        child.stab == stab_step(top.stab, mv, k, n),
    ensures
        stack_done(st0.drop_last().push(top).push(child), v, d.push(mv), root, best, k, n),
{
    let st = st0.drop_last().push(top).push(child);
    let d2 = d.push(mv);
    let t = st0.len() - 1;
    assert(d.take(t) =~= d);
    assert(d2.take(t + 1) =~= d2);
    assert(d2.drop_last() =~= d);
    assert forall|i: int| 0 <= i <= t implies d2.take(i) == d.take(i) by {
        assert(d2.take(i) =~= d.take(i));
    }
    assert forall|i: int| 0 <= i < st.len() implies (#[trigger] st[i]).stab == stab_along(root, d2.take(i), k, n) by {
        if i < t {
            assert(st[i] == st0[i]);
        } else if i == t {
            assert(st[i] == top);
        } else {
            assert(st[i] == child);
        }
    }
    assert forall|i: int| 0 <= i < st.len() implies (#[trigger] st[i]).children@.len() > 0 by {
        if i < t {
            assert(st[i] == st0[i]);
        }
    }
    assert forall|i: int, j: int|
        #![trigger st[i], child_done(applied(v, d2.take(i)), st[i], j, best, k, n)]
        0 <= i < st.len() && 0 <= j < done_limit(st[i], i, st.len() as int) implies child_done(
            applied(v, d2.take(i)),
            st[i],
            j,
            best,
            k,
            n,
        ) by {
        if i < t {
            assert(st[i] == st0[i]);
            assert(child_done(applied(v, d.take(i)), st0[i], j, best, k, n));
        } else if i == t {
            assert(child_done(applied(v, d.take(i)), st0[t], j, best, k, n));
        }
    }
}

/// `a` is a prefix of `b`.
pub open spec fn is_prefix(a: Seq<Move>, b: Seq<Move>) -> bool {
    a.len() <= b.len() && b.take(a.len() as int) == a
}

/// Every finished game reached from `v` by kept moves is within `best`, or
/// continues one of the work items `items` (the item's moves, then the
/// game's).
pub open spec fn covered(v: GameView, root: u8, best: int, item: Seq<Move>, items: Seq<Seq<Move>>, k: int, n: int) -> bool {
    forall|p: Seq<Move>|
        #[trigger] kept_path(v, root, p, k, n) && terminal_view(applied(v, p)) ==> v.history.len() + p.len() <= best
            || exists|q: int| 0 <= q < items.len() && is_prefix(#[trigger] items[q], item + p)
}

/// An explored node is covered by any work items.
pub proof fn lemma_explored_covered(v: GameView, root: u8, best: int, item: Seq<Move>, items: Seq<Seq<Move>>, k: int, n: int)
    requires
        explored(v, root, best, k, n),
    ensures
        covered(v, root, best, item, items, k, n),
{
}

/// The work items of the untried children of frame `i` are among those of
/// the first `m` frames, `i < m`.
proof fn lemma_untried_contains(item: Seq<Move>, st: Seq<Frame>, d: Seq<Move>, m: int, i: int, j: int)
    requires
        0 <= i < m,
        0 <= j < frame_items(item, d, i, st[i]).len(),
    ensures
        untried_items(item, st, d, m).contains(frame_items(item, d, i, st[i])[j]),
    decreases m,
{
    let a = untried_items(item, st, d, m - 1);
    let b = frame_items(item, d, m - 1, st[m - 1]);
    assert(untried_items(item, st, d, m) == a + b);
    if i == m - 1 {
        assert((a + b)[a.len() + j] == b[j]);
    } else {
        lemma_untried_contains(item, st, d, m - 1, i, j);
        let q = choose|q: int| 0 <= q < a.len() && a[q] == frame_items(item, d, i, st[i])[j];
        assert((a + b)[q] == a[q]);
    }
}

/// Following the descent down to frame `i`, a finished game by kept moves is
/// within `best` or continues an untried child.
proof fn lemma_path_covered(
    st: Seq<Frame>,
    v: GameView,
    d: Seq<Move>,
    root: u8,
    best: int,
    item: Seq<Move>,
    p: Seq<Move>,
    i: int,
    k: int,
    n: int,
)
    requires
        stack_ok(st, v, d, k, n),
        stack_done(st, v, d, root, best, k, n),
        0 <= i < st.len(),
        i <= p.len(),
        p.take(i) == d.take(i),
        kept_path(v, root, p, k, n),
        terminal_view(applied(v, p)),
    ensures
        v.history.len() + p.len() <= best || exists|q: int|
            0 <= q < untried_items(item, st, d, st.len() as int).len() && is_prefix(
                #[trigger] untried_items(item, st, d, st.len() as int)[q],
                item + p,
            ),
    decreases st.len() - i,
{
    let items = untried_items(item, st, d, st.len() as int);
    let f = st[i];
    let node = applied(v, d.take(i));
    assert(frame_ok(f, node, k, n));
    assert(f.children@.len() > 0);
    lemma_frame_kept(f, node, k, n, f.children@[0]);
    assert(f.children@.contains(f.children@[0]));
    if p.len() == i {
        assert(p =~= p.take(i));
        assert(legal_view(applied(v, p), f.children@[0]));
    } else {
        let c = p[i];
        assert(kept_child(applied(v, p.take(i)), stab_along(root, p.take(i), k, n), p[i], k, n));
        assert(f.stab == stab_along(root, d.take(i), k, n));
        lemma_frame_kept(f, node, k, n, c);
        let last = st.len() - 1;
        if i < last && c == d[i] {
            assert(p.take(i + 1) =~= p.take(i).push(c));
            assert(d.take(i + 1) =~= d.take(i).push(d[i]));
            lemma_path_covered(st, v, d, root, best, item, p, i + 1, k, n);
        } else {
            let j = choose|j: int| 0 <= j < f.children@.len() && f.children@[j] == c;
            if i < last {
                assert(f.children@[f.idx - 1] == d[i]);
            }
            if j < done_limit(f, i, st.len() as int) {
                assert(child_done(node, f, j, best, k, n));
                lemma_kept_suffix(v, root, p, i + 1, k, n);
                lemma_applied_take(v, p, i);
                assert(p.take(i + 1).drop_last() =~= p.take(i));
                let w = applied(v, p.take(i + 1));
                assert(w == view_apply(node, c));
                lemma_applied_history(v, p.take(i + 1));
                let rest = p.skip(i + 1);
                assert(kept_path(w, stab_step(f.stab, c, k, n), rest, k, n));
                assert(terminal_view(applied(w, rest)));
                assert(w.history.len() + rest.len() <= best);
            } else {
                assert(j >= f.idx);
                let fi = frame_items(item, d, i, f);
                let wi = fi[j - f.idx];
                assert(wi == (item + d.take(i)).push(c));
                lemma_untried_contains(item, st, d, st.len() as int, i, j - f.idx);
                let q = choose|q: int| 0 <= q < items.len() && items[q] == wi;
                assert((item + p).take(wi.len() as int) =~= wi);
                assert(is_prefix(items[q], item + p));
            }
        }
    }
}

/// The untried children of the stack cover every finished game by kept moves
/// not within `best`.
pub proof fn lemma_stack_covered(st: Seq<Frame>, v: GameView, d: Seq<Move>, root: u8, best: int, item: Seq<Move>, k: int, n: int)
    requires
        stack_ok(st, v, d, k, n),
        stack_done(st, v, d, root, best, k, n),
    ensures
        covered(v, root, best, item, untried_items(item, st, d, st.len() as int), k, n),
{
    let items = untried_items(item, st, d, st.len() as int);
    assert forall|p: Seq<Move>| #[trigger] kept_path(v, root, p, k, n) && terminal_view(applied(v, p)) implies v.history.len()
        + p.len() <= best || exists|q: int| 0 <= q < items.len() && is_prefix(#[trigger] items[q], item + p) by {
        assert(p.take(0) =~= d.take(0));
        lemma_path_covered(st, v, d, root, best, item, p, 0, k, n);
    }
}

} // verus!
