//! Beam search: keep the best `width` positions at each depth, ranked by the
//! score plus half the number of legal moves (a heuristic for the future).
use crate::game::moves::{is_legal, legal_moves, lemma_scan_sorted_unique, scan_sorted, Move};
use crate::game::state::{placeable, view_apply, GameState, GameView};
use crate::search::nrpa::macros::applied;
use crate::search::systematic::{
    copy_history, improving, keep_running, lemma_applied_history, lemma_legal_view, lemma_path_push,
    legal_view, path_legal, terminal_ok, terminal_view,
};
use std::sync::atomic::AtomicBool;
use vstd::prelude::*;

verus! {

/// The number of legal moves in `s`.
pub open spec fn num_legal(s: &GameState) -> nat {
    Set::new(|m: Move| is_legal(s, m)).len()
}

/// The ranking key of a position: twice the score plus the number of legal
/// moves (the score plus half the legal moves, doubled to stay integral).
pub open spec fn beam_key(s: &GameState) -> int {
    2 * (s.history@.len() as int) + (num_legal(s) as int)
}

/// `s` is reached from `v` by legal moves: its history extends `v`'s by a
/// legal path, and its state is that path played from `v`.
pub open spec fn reached(s: GameState, v: GameView) -> bool {
    let b = v.history.len() as int;
    &&& s.wf()
    &&& s.history@.len() >= b
    &&& s.history@.take(b) == v.history
    &&& path_legal(v, s.history@.skip(b))
    &&& s@ == applied(v, s.history@.skip(b))
}

/// `order` ranks the positions by key, best first, ties in their original
/// order: a permutation of the indices, non-increasing in key.
pub open spec fn ranked(keys: Seq<u128>, order: Seq<usize>) -> bool {
    &&& order.len() == keys.len()
    &&& order.no_duplicates()
    &&& forall|q: int| 0 <= q < order.len() ==> (#[trigger] order[q]) < keys.len()
    &&& forall|a: int, b: int|
        0 <= a < b < order.len() ==> keys[#[trigger] order[a] as int] >= keys[#[trigger] order[b] as int]
    &&& forall|a: int, b: int|
        0 <= a < b < order.len() && keys[order[a] as int] == keys[order[b] as int] ==> #[trigger] order[a]
            < #[trigger] order[b]
}

/// The number of legal moves of a position.
fn legal_count(state: &GameState) -> (r: usize)
    requires
        state.wf(),
    ensures
        r == num_legal(state),
{
    let moves = legal_moves(state);
    proof {
        moves@.unique_seq_to_set();
        assert(Set::new(|m: Move| is_legal(state, m)) =~= moves@.to_set());
    }
    moves.len()
}

/// The ranking key of a position.
fn key_of(state: &GameState) -> (r: u128)
    requires
        state.wf(),
    ensures
        r == beam_key(state),
{
    2 * (state.history.len() as u128) + (legal_count(state) as u128)
}

/// Indices of `keys` ranked best first, ties kept in order (an insertion
/// sort, so equal keys keep their relative order).
fn rank_desc(keys: &Vec<u128>) -> (order: Vec<usize>)
    ensures
        ranked(keys@, order@),
{
    let mut order: Vec<usize> = Vec::new();
    let mut i: usize = 0;
    while i < keys.len()
        invariant
            i <= keys@.len(),
            order@.len() == i,
            order@.no_duplicates(),
            forall|q: int| 0 <= q < order@.len() ==> (#[trigger] order@[q]) < i,
            forall|a: int, b: int|
                0 <= a < b < order@.len() ==> keys@[#[trigger] order@[a] as int] >= keys@[#[trigger] order@[b] as int],
            forall|a: int, b: int|
                0 <= a < b < order@.len() && keys@[order@[a] as int] == keys@[order@[b] as int] ==> #[trigger] order@[a]
                    < #[trigger] order@[b],
        decreases keys@.len() - i,
    {
        let ki = keys[i];
        let mut pos: usize = 0;
        while pos < order.len() && keys[order[pos]] >= ki
            invariant
                pos <= order@.len(),
                i < keys@.len(),
                ki == keys@[i as int],
                forall|q: int| 0 <= q < order@.len() ==> (#[trigger] order@[q]) < i,
                forall|q: int| 0 <= q < pos ==> keys@[#[trigger] order@[q] as int] >= ki,
            decreases order@.len() - pos,
        {
            pos = pos + 1;
        }
        let ghost o0 = order@;
        order.insert(pos, i);
        proof {
            assert(order@ == o0.insert(pos as int, i));
            assert forall|q: int| pos <= q < o0.len() implies keys@[#[trigger] o0[q] as int] < ki by {
                assert(keys@[o0[pos as int] as int] < ki);
                if q > pos {
                    assert(keys@[o0[pos as int] as int] >= keys@[o0[q] as int]);
                }
            }
            assert forall|q: int| 0 <= q < order@.len() implies (#[trigger] order@[q]) < i + 1 by {
                if q < pos {
                    assert(order@[q] == o0[q]);
                } else if q > pos {
                    assert(order@[q] == o0[q - 1]);
                }
            }
            assert forall|a: int, b: int| 0 <= a < b < order@.len() implies order@[a] != order@[b] by {
                if a < pos && b < pos {
                    assert(order@[a] == o0[a] && order@[b] == o0[b]);
                } else if a < pos && b == pos {
                    assert(o0[a] < i);
                } else if a < pos {
                    assert(order@[a] == o0[a] && order@[b] == o0[b - 1]);
                } else if a == pos {
                    assert(o0[b - 1] < i);
                } else {
                    assert(order@[a] == o0[a - 1] && order@[b] == o0[b - 1]);
                }
            }
            assert forall|a: int, b: int|
                0 <= a < b < order@.len() implies keys@[#[trigger] order@[a] as int] >= keys@[#[trigger] order@[b] as int] by {
                if a < pos && b < pos {
                    assert(order@[a] == o0[a] && order@[b] == o0[b]);
                } else if a < pos && b == pos {
                    assert(order@[a] == o0[a]);
                } else if a < pos {
                    assert(order@[a] == o0[a] && order@[b] == o0[b - 1]);
                } else if a == pos {
                    assert(order@[b] == o0[b - 1]);
                } else {
                    assert(order@[a] == o0[a - 1] && order@[b] == o0[b - 1]);
                }
            }
            assert forall|a: int, b: int|
                0 <= a < b < order@.len() && keys@[order@[a] as int] == keys@[order@[b] as int] implies #[trigger] order@[a]
                    < #[trigger] order@[b] by {
                if a < pos && b < pos {
                    assert(order@[a] == o0[a] && order@[b] == o0[b]);
                } else if a < pos && b == pos {
                    assert(order@[a] == o0[a]);
                } else if a < pos {
                    assert(order@[a] == o0[a] && order@[b] == o0[b - 1]);
                } else if a == pos {
                    assert(order@[b] == o0[b - 1]);
                } else {
                    assert(order@[a] == o0[a - 1] && order@[b] == o0[b - 1]);
                }
            }
        }
        i = i + 1;
    }
    order
}


/// What a beam search found: the finished games that improved on the best
/// so far (each on the previous), the number of positions expanded, and
/// whether some legal move fell off the grid (and was refused), in which case
/// the grid is too small for the search.
pub struct BeamResult {
    pub terminals: Vec<Vec<Move>>,
    pub nodes: u64,
    pub overflow: bool,
}

/// Playing a legal move from a reached position reaches the child.
proof fn lemma_reached_child(parent: GameState, child: GameState, v: GameView, mv: Move)
    requires
        reached(parent, v),
        child.wf(),
        legal_view(parent@, mv),
        child@ == view_apply(parent@, mv),
        child.history@ == parent.history@.push(mv),
    ensures
        reached(child, v),
{
    let b = v.history.len() as int;
    let d = parent.history@.skip(b);
    lemma_path_push(v, d, mv);
    assert(child.history@.skip(b) =~= d.push(mv));
    assert(child.history@.take(b) =~= parent.history@.take(b));
}

/// The move sequences of a list of games.
pub open spec fn items_of(ts: Seq<Vec<Move>>) -> Seq<Seq<Move>> {
    ts.map_values(|w: Vec<Move>| w@)
}

/// The total number of legal moves of the positions `ps`.
pub open spec fn sum_legal(ps: Seq<GameState>) -> int
    decreases ps.len(),
{
    if ps.len() == 0 {
        0
    } else {
        sum_legal(ps.drop_last()) + num_legal(&ps.last()) as int
    }
}

/// The best score after the records `rec`, starting from `b`.
pub open spec fn sweep_best(rec: Seq<Seq<Move>>, b: int) -> int {
    if rec.len() == 0 {
        b
    } else {
        rec.last().len() as int
    }
}

/// The finished games recorded sweeping the positions `ps` in order from the
/// best score `b`: each position with no legal move whose game is longer
/// than the best so far.
pub open spec fn sweep_records(ps: Seq<GameState>, b: int) -> Seq<Seq<Move>>
    decreases ps.len(),
{
    if ps.len() == 0 {
        Seq::empty()
    } else {
        let prev = sweep_records(ps.drop_last(), b);
        let s = ps.last();
        if num_legal(&s) == 0 && s.history@.len() > sweep_best(prev, b) {
            prev.push(s.history@)
        } else {
            prev
        }
    }
}

/// `c` is a position of `ps` followed by one of its legal moves (the
/// position itself when the move falls off the grid).
pub open spec fn child_of(c: GameState, ps: Seq<GameState>) -> bool {
    exists|q: int, m: Move|
        0 <= q < ps.len() && #[trigger] is_legal(&ps[q], m) && (if placeable(m) {
            c@ == view_apply(ps[q]@, m)
        } else {
            c@ == ps[q]@
        })
}

/// The number of legal moves of the state `v`.
pub open spec fn view_legal_count(v: GameView) -> nat {
    Set::new(|m: Move| legal_view(v, m)).len()
}

/// The legal moves of `v` in the generator's order.
pub open spec fn legal_list(v: GameView) -> Seq<Move> {
    choose|s: Seq<Move>| scan_sorted(s) && forall|m: Move| #[trigger] s.contains(m) <==> legal_view(v, m)
}

/// The child of `v` by the legal move `m` (`v` itself when `m` falls off the
/// grid, which `GameState::apply` refuses).
pub open spec fn child_view(v: GameView, m: Move) -> GameView {
    if placeable(m) {
        view_apply(v, m)
    } else {
        v
    }
}

/// The children of `v`, one per legal move, in the generator's order.
pub open spec fn view_children(v: GameView) -> Seq<GameView> {
    legal_list(v).map_values(|m: Move| child_view(v, m))
}

/// The children of the positions `ps`, position by position.
pub open spec fn level_children(ps: Seq<GameView>) -> Seq<GameView>
    decreases ps.len(),
{
    if ps.len() == 0 {
        Seq::empty()
    } else {
        level_children(ps.drop_last()) + view_children(ps.last())
    }
}

/// The ranking key of a state (see [`beam_key`]).
pub open spec fn view_key(v: GameView) -> int {
    2 * (v.history.len() as int) + (view_legal_count(v) as int)
}

/// The ranking keys of a list of states.
pub open spec fn view_keys(ps: Seq<GameView>) -> Seq<u128> {
    Seq::new(ps.len(), |e: int| view_key(ps[e]) as u128)
}

/// The first `width` of the states `next` ranked by key, best first, ties in
/// their order (all of them when there are fewer).
pub open spec fn select_views(next: Seq<GameView>, width: int) -> Seq<GameView> {
    let order = choose|o: Seq<usize>| ranked(view_keys(next), o);
    let lim = if width < next.len() {
        width
    } else {
        next.len() as int
    };
    Seq::new(lim as nat, |t: int| next[order[t] as int])
}

/// The beam after `l` levels of beam search of width `width` from `v0`.
pub open spec fn beam_level(v0: GameView, width: int, l: nat) -> Seq<GameView>
    decreases l,
{
    if l == 0 {
        seq![v0]
    } else {
        select_views(level_children(beam_level(v0, width, (l - 1) as nat)), width)
    }
}

/// The finished games that sweeping the states `ps` records, from the best
/// score `b` (see [`sweep_records`]).
pub open spec fn sweep_views(ps: Seq<GameView>, b: int) -> Seq<Seq<Move>>
    decreases ps.len(),
{
    if ps.len() == 0 {
        Seq::empty()
    } else {
        let prev = sweep_views(ps.drop_last(), b);
        let s = ps.last();
        if view_legal_count(s) == 0 && s.history.len() > sweep_best(prev, b) {
            prev.push(s.history)
        } else {
            prev
        }
    }
}

/// The finished games recorded by the first `l` levels of beam search of
/// width `width` from `v0`, each longer than the last.
pub open spec fn beam_records(v0: GameView, width: int, l: nat) -> Seq<Seq<Move>>
    decreases l,
{
    if l == 0 {
        Seq::empty()
    } else {
        let prev = beam_records(v0, width, (l - 1) as nat);
        prev + sweep_views(beam_level(v0, width, (l - 1) as nat), sweep_best(prev, 0))
    }
}

/// Some legal move of one of the states `ps` falls off the grid.
pub open spec fn level_refuses(ps: Seq<GameView>) -> bool
    decreases ps.len(),
{
    if ps.len() == 0 {
        false
    } else {
        level_refuses(ps.drop_last()) || exists|j: int|
            0 <= j < legal_list(ps.last()).len() && !placeable(#[trigger] legal_list(ps.last())[j])
    }
}

/// Whether some level among the first `l` of beam search of width `width`
/// from `v0` had a legal move fall off the grid.
pub open spec fn beam_overflow(v0: GameView, width: int, l: nat) -> bool
    decreases l,
{
    if l == 0 {
        false
    } else {
        beam_overflow(v0, width, (l - 1) as nat) || level_refuses(beam_level(v0, width, (l - 1) as nat))
    }
}

/// The states of a list of positions.
pub open spec fn views_of(ps: Seq<GameState>) -> Seq<GameView> {
    ps.map_values(|s: GameState| s@)
}

/// The legal moves counted on the position or on its state agree.
proof fn lemma_num_legal_view(s: &GameState)
    ensures
        num_legal(s) == view_legal_count(s@),
        beam_key(s) == view_key(s@),
{
    assert forall|m: Move| is_legal(s, m) == legal_view(s@, m) by {
        lemma_legal_view(s, m);
    }
    assert(Set::new(|m: Move| is_legal(s, m)) =~= Set::new(|m: Move| legal_view(s@, m)));
}

/// A sorted list of exactly the legal moves is the legal list.
proof fn lemma_legal_list(v: GameView, s: Seq<Move>)
    requires
        scan_sorted(s),
        forall|m: Move| s.contains(m) <==> legal_view(v, m),
    ensures
        s == legal_list(v),
{
    let l = legal_list(v);
    assert(scan_sorted(l) && forall|m: Move| #[trigger] l.contains(m) <==> legal_view(v, m));
    lemma_scan_sorted_unique(s, l);
}

/// Sweeping positions records what sweeping their states records.
proof fn lemma_sweep_views(ps: Seq<GameState>, b: int)
    ensures
        sweep_records(ps, b) == sweep_views(views_of(ps), b),
    decreases ps.len(),
{
    if ps.len() > 0 {
        lemma_sweep_views(ps.drop_last(), b);
        assert(views_of(ps.drop_last()) =~= views_of(ps).drop_last());
        lemma_num_legal_view(&ps.last());
    }
}

/// A ranking lists every index.
proof fn lemma_ranked_covers(keys: Seq<u128>, o: Seq<usize>, x: int)
    requires
        ranked(keys, o),
        0 <= x < keys.len(),
    ensures
        o.contains(x as usize),
{
    let n = keys.len() as int;
    let oi = o.map_values(|y: usize| y as int);
    assert forall|i: int, j: int| 0 <= i < oi.len() && 0 <= j < oi.len() && i != j implies oi[i] != oi[j] by {
        assert(o[i] != o[j]);
    }
    assert(oi.no_duplicates());
    oi.unique_seq_to_set();
    vstd::set_lib::lemma_int_range(0, n);
    assert forall|y: int| oi.to_set().contains(y) implies vstd::set_lib::set_int_range(0, n).contains(y) by {
        let i = choose|i: int| 0 <= i < oi.len() && oi[i] == y;
        assert(o[i] < keys.len());
    }
    vstd::set_lib::lemma_subset_equality(oi.to_set(), vstd::set_lib::set_int_range(0, n));
    assert(vstd::set_lib::set_int_range(0, n).contains(x));
    assert(oi.to_set().contains(x));
    let i = choose|i: int| 0 <= i < oi.len() && oi[i] == x;
    assert(o[i] == x as usize);
}

/// Two rankings of one list of keys agree on their first `k` places.
proof fn lemma_ranked_prefix(keys: Seq<u128>, o1: Seq<usize>, o2: Seq<usize>, k: int)
    requires
        ranked(keys, o1),
        ranked(keys, o2),
        0 <= k <= keys.len(),
    ensures
        forall|i: int| 0 <= i < k ==> o1[i] == o2[i],
    decreases k,
{
    if k > 0 {
        lemma_ranked_prefix(keys, o1, o2, k - 1);
        let p = k - 1;
        let x = o1[p];
        let y = o2[p];
        if x != y {
            lemma_ranked_covers(keys, o2, x as int);
            lemma_ranked_covers(keys, o1, y as int);
            let q = choose|q: int| 0 <= q < o2.len() && o2[q] == x;
            let r = choose|r: int| 0 <= r < o1.len() && o1[r] == y;
            if q < p {
                assert(o1[q] == o2[q]);
            }
            if r < p {
                assert(o1[r] == o2[r]);
            }
            assert(q > p && r > p);
            assert(keys[o2[p] as int] >= keys[o2[q] as int]);
            assert(keys[o1[p] as int] >= keys[o1[r] as int]);
        }
    }
}

/// A list of keys has one ranking.
pub proof fn lemma_ranked_unique(keys: Seq<u128>, o1: Seq<usize>, o2: Seq<usize>)
    requires
        ranked(keys, o1),
        ranked(keys, o2),
    ensures
        o1 == o2,
{
    lemma_ranked_prefix(keys, o1, o2, keys.len() as int);
    assert(o1 =~= o2);
}

/// One level of beam search: sweep the beam, recording each finished game
/// longer than the best so far, and expand every other position by each of
/// its legal moves. Returns the children, whether no position had a move,
/// and whether some legal move fell off the grid.
pub(crate) fn expand_level(
    beam: &Vec<GameState>,
    terminals: &mut Vec<Vec<Move>>,
    best: &mut usize,
    nodes: &mut u64,
    Ghost(v0): Ghost<GameView>,
) -> (r: (Vec<GameState>, bool, bool))
    requires
        forall|q: int| 0 <= q < beam@.len() ==> reached(#[trigger] beam@[q], v0),
        forall|i: int| 0 <= i < old(terminals)@.len() ==> terminal_ok((#[trigger] old(terminals)@[i])@, v0),
        improving(old(terminals)@, 0),
        old(terminals)@.len() == 0 ==> *old(best) == 0,
        old(terminals)@.len() > 0 ==> *old(best) == old(terminals)@.last()@.len(),
    ensures
        final(terminals)@.len() >= old(terminals)@.len(),
        forall|i: int| 0 <= i < old(terminals)@.len() ==> final(terminals)@[i] == old(terminals)@[i],
        items_of(final(terminals)@.skip(old(terminals)@.len() as int)) == sweep_records(beam@, *old(best) as int),
        *final(best) == sweep_best(sweep_records(beam@, *old(best) as int), *old(best) as int),
        *final(nodes) as int == (*old(nodes) as int + beam@.len()) % 0x1_0000_0000_0000_0000,
        r.0@.len() == sum_legal(beam@),
        views_of(r.0@) == level_children(views_of(beam@)),
        r.2 == level_refuses(views_of(beam@)),
        r.1 == forall|q: int| 0 <= q < beam@.len() ==> num_legal(#[trigger] &beam@[q]) == 0,
        forall|c: int| 0 <= c < r.0@.len() ==> #[trigger] child_of(r.0@[c], beam@),
        forall|c: int| 0 <= c < r.0@.len() ==> reached(#[trigger] r.0@[c], v0),
        forall|i: int| 0 <= i < final(terminals)@.len() ==> terminal_ok((#[trigger] final(terminals)@[i])@, v0),
        improving(final(terminals)@, 0),
        final(terminals)@.len() == 0 ==> *final(best) == 0,
        final(terminals)@.len() > 0 ==> *final(best) == final(terminals)@.last()@.len(),
{
    let ghost t0 = terminals@;
    let ghost b0 = *best;
    let ghost n0 = *nodes;
    proof {
        assert(beam@.take(0) =~= Seq::<GameState>::empty());
        assert(terminals@.skip(t0.len() as int) =~= Seq::<Vec<Move>>::empty());
        assert(items_of(terminals@.skip(t0.len() as int)) =~= Seq::<Seq<Move>>::empty());
        assert(views_of(beam@).take(0) =~= Seq::<GameView>::empty());
        assert(views_of(Seq::<GameState>::empty()) =~= Seq::<GameView>::empty());
    }
    let mut next: Vec<GameState> = Vec::new();
    let mut all_terminal = true;
    let mut refused = false;
    let mut q: usize = 0;
    while q < beam.len()
        invariant
            q <= beam@.len(),
            *nodes as int == (n0 as int + q) % 0x1_0000_0000_0000_0000,
            forall|i: int| 0 <= i < t0.len() ==> terminals@[i] == t0[i],
            terminals@.len() >= t0.len(),
            items_of(terminals@.skip(t0.len() as int)) == sweep_records(beam@.take(q as int), b0 as int),
            *best == sweep_best(sweep_records(beam@.take(q as int), b0 as int), b0 as int),
            next@.len() == sum_legal(beam@.take(q as int)),
            views_of(next@) == level_children(views_of(beam@).take(q as int)),
            refused == level_refuses(views_of(beam@).take(q as int)),
            all_terminal == forall|c: int| 0 <= c < q ==> num_legal(#[trigger] &beam@[c]) == 0,
            forall|c: int| 0 <= c < next@.len() ==> #[trigger] child_of(next@[c], beam@),
            forall|c: int| 0 <= c < beam@.len() ==> reached(#[trigger] beam@[c], v0),
            forall|c: int| 0 <= c < next@.len() ==> reached(#[trigger] next@[c], v0),
            forall|i: int| 0 <= i < terminals@.len() ==> terminal_ok((#[trigger] terminals@[i])@, v0),
            improving(terminals@, 0),
            terminals@.len() == 0 ==> *best == 0,
            terminals@.len() > 0 ==> *best == terminals@.last()@.len(),
        decreases beam@.len() - q,
    {
        *nodes = nodes.wrapping_add(1);
        proof {
            assert(reached(beam@[q as int], v0));
        }
        let moves = legal_moves(&beam[q]);
        let ghost tb = terminals@;
        let ghost nb = next@;
        let ghost r0 = refused;
        proof {
            moves@.unique_seq_to_set();
            assert(Set::new(|m: Move| is_legal(&beam@[q as int], m)) =~= moves@.to_set());
            assert(beam@.take(q + 1).drop_last() =~= beam@.take(q as int));
            assert(beam@.take(q + 1).last() == beam@[q as int]);
            assert forall|m: Move| moves@.contains(m) <==> legal_view(beam@[q as int]@, m) by {
                lemma_legal_view(&beam@[q as int], m);
            }
            lemma_legal_list(beam@[q as int]@, moves@);
            assert(views_of(beam@).take(q + 1).drop_last() =~= views_of(beam@).take(q as int));
            assert(views_of(beam@).take(q + 1).last() == beam@[q as int]@);
        }
        if moves.len() == 0 {
            if beam[q].history.len() > *best {
                let h = copy_history(&beam[q].history);
                proof {
                    let s = beam@[q as int];
                    assert forall|m: Move| !legal_view(s@, m) by {
                        lemma_legal_view(&s, m);
                        if is_legal(&s, m) {
                            assert(moves@.contains(m));
                        }
                    }
                    let b = v0.history.len() as int;
                    assert(terminal_ok(h@, v0));
                    crate::search::systematic::lemma_improving_push(terminals@, h, 0, *best as int);
                }
                let ghost t1 = terminals@;
                terminals.push(h);
                *best = beam[q].history.len();
                proof {
                    assert forall|i: int| 0 <= i < terminals@.len() implies terminal_ok((#[trigger] terminals@[i])@, v0) by {
                        if i < t1.len() {
                            assert(terminals@[i] == t1[i]);
                        }
                    }
                    assert(terminals@.skip(t0.len() as int) =~= t1.skip(t0.len() as int).push(h));
                    assert(items_of(terminals@.skip(t0.len() as int)) =~= items_of(t1.skip(t0.len() as int)).push(h@));
                }
            }
        } else {
            all_terminal = false;
            let mut j: usize = 0;
            proof {
                assert(moves@.len() == num_legal(&beam@[q as int]));
            }
            while j < moves.len()
                invariant
                    j <= moves@.len(),
                    q < beam@.len(),
                    reached(beam@[q as int], v0),
                    forall|m: Move| moves@.contains(m) <==> is_legal(&beam@[q as int], m),
                    forall|c: int| 0 <= c < next@.len() ==> reached(#[trigger] next@[c], v0),
                    forall|c: int| 0 <= c < next@.len() ==> #[trigger] child_of(next@[c], beam@),
                    next@.len() == nb.len() + j,
                    moves@.len() == num_legal(&beam@[q as int]),
                    moves@ == legal_list(beam@[q as int]@),
                    views_of(next@) == views_of(nb) + view_children(beam@[q as int]@).take(j as int),
                    refused == (r0 || exists|i: int| 0 <= i < j && !placeable(#[trigger] moves@[i])),
                decreases moves@.len() - j,
            {
                let mv = moves[j];
                let mut child = beam[q].duplicate();
                let ghost parent = beam@[q as int];
                proof {
                    assert(moves@.contains(mv));
                    lemma_legal_view(&parent, mv);
                }
                let ghost pre = child;
                let ok = child.apply(mv);
                if !ok {
                    refused = true;
                }
                proof {
                    if ok {
                        lemma_reached_child(parent, child, v0, mv);
                    } else {
                        assert(child@ == parent@);
                        assert(child.history@ == parent.history@);
                    }
                    assert(is_legal(&beam@[q as int], mv));
                    assert(child_of(child, beam@));
                }
                let ghost n1 = next@;
                next.push(child);
                proof {
                    assert(child@ == child_view(parent@, mv));
                    assert(view_children(beam@[q as int]@).take(j + 1) =~= view_children(beam@[q as int]@).take(
                        j as int,
                    ).push(child@));
                    assert(views_of(next@) =~= views_of(n1).push(child@));
                    if !ok {
                        assert(!placeable(moves@[j as int]));
                    }
                    assert(refused == (r0 || exists|i: int| 0 <= i < j + 1 && !placeable(#[trigger] moves@[i])));
                    assert forall|c: int| 0 <= c < next@.len() implies reached(#[trigger] next@[c], v0) && child_of(next@[c], beam@) by {
                        if c < n1.len() {
                            assert(next@[c] == n1[c]);
                        }
                    }
                }
                j = j + 1;
            }
        }
        proof {
            assert(sum_legal(beam@.take(q + 1)) == sum_legal(beam@.take(q as int)) + num_legal(&beam@[q as int]));
            assert(view_children(beam@[q as int]@).take(moves@.len() as int) =~= view_children(beam@[q as int]@));
            if moves@.len() == 0 {
                assert(view_children(beam@[q as int]@) =~= Seq::<GameView>::empty());
            }
            assert(level_children(views_of(beam@).take(q + 1)) == level_children(views_of(beam@).take(q as int))
                + view_children(beam@[q as int]@));
            assert(level_refuses(views_of(beam@).take(q + 1)) == (r0 || exists|i: int|
                0 <= i < moves@.len() && !placeable(#[trigger] moves@[i])));
        }
        q = q + 1;
    }
    proof {
        assert(beam@.take(beam@.len() as int) =~= beam@);
        assert(views_of(beam@).take(beam@.len() as int) =~= views_of(beam@));
    }
    (next, all_terminal, refused)
}

/// Beam search from `initial`: expand every position of the beam, record the
/// finished ones, rank the children best first and keep the first `width`,
/// until no position has a move left or `running` reads false. The games
/// recorded are those of the first levels of [`beam_level`] for this width
/// (as many levels as ran), each a finished legal game from `initial` longer
/// than the last.
pub fn run(initial: &GameState, running: &AtomicBool, width: usize) -> (r: BeamResult)
    requires
        initial.wf(),
    ensures
        forall|i: int| 0 <= i < r.terminals@.len() ==> terminal_ok((#[trigger] r.terminals@[i])@, initial@),
        improving(r.terminals@, 0),
        exists|l: nat|
            items_of(r.terminals@) == #[trigger] beam_records(initial@, width as int, l) && r.overflow
                == beam_overflow(initial@, width as int, l),
{
    let ghost v0 = initial@;
    let first = initial.duplicate();
    proof {
        let b = v0.history.len() as int;
        assert(first.history@.take(b) =~= v0.history);
        assert(first.history@.skip(b) =~= Seq::<Move>::empty());
        assert(applied(v0, Seq::<Move>::empty()) == v0) by {
            reveal(crate::search::nrpa::macros::applied);
        }
        assert(path_legal(v0, Seq::<Move>::empty()));
    }
    let mut beam: Vec<GameState> = Vec::new();
    beam.push(first);
    let mut terminals: Vec<Vec<Move>> = Vec::new();
    let mut best: usize = 0;
    let mut nodes: u64 = 0;
    let mut levels: u64 = 0;
    let mut done = false;
    let mut overflow = false;
    let ghost mut lv: nat = 0;
    proof {
        assert(views_of(beam@) =~= seq![v0]);
        assert(items_of(terminals@) =~= Seq::<Seq<Move>>::empty());
    }
    while !done && levels < u64::MAX && keep_running(running)
        invariant
            v0 == initial@,
            !done ==> views_of(beam@) == beam_level(v0, width as int, lv),
            items_of(terminals@) == beam_records(v0, width as int, lv),
            overflow == beam_overflow(v0, width as int, lv),
            forall|q: int| 0 <= q < beam@.len() ==> reached(#[trigger] beam@[q], v0),
            forall|i: int| 0 <= i < terminals@.len() ==> terminal_ok((#[trigger] terminals@[i])@, v0),
            improving(terminals@, 0),
            terminals@.len() == 0 ==> best == 0,
            terminals@.len() > 0 ==> best == terminals@.last()@.len(),
        decreases u64::MAX - levels,
    {
        levels = levels + 1;
        let ghost t_old = terminals@;
        let ghost b_old = best;
        let (next, all_terminal, refused) = expand_level(&beam, &mut terminals, &mut best, &mut nodes, Ghost(v0));
        overflow = overflow || refused;
        proof {
            assert(terminals@ =~= t_old + terminals@.skip(t_old.len() as int));
            assert(items_of(terminals@) =~= items_of(t_old) + items_of(terminals@.skip(t_old.len() as int)));
            lemma_sweep_views(beam@, b_old as int);
            if t_old.len() > 0 {
                assert(items_of(t_old).last() == t_old.last()@);
            }
            assert(sweep_best(items_of(t_old), 0) == b_old);
            assert(items_of(terminals@) == beam_records(v0, width as int, lv + 1));
            lv = lv + 1;
        }
        if all_terminal || next.len() == 0 {
            done = true;
        } else {
            proof {
                assert forall|e: int| 0 <= e < next@.len() implies (#[trigger] next@[e]).wf() by {
                    assert(reached(next@[e], v0));
                }
            }
            let kept = select_beam(&next, width);
            proof {
                let order = choose|order: Seq<usize>| #[trigger] selection(next@, kept@, order);
                assert forall|e: int| 0 <= e < kept@.len() implies reached(#[trigger] kept@[e], v0) by {
                    assert(order[e] < next@.len());
                    assert(reached(next@[order[e] as int], v0));
                    assert(kept@[e]@ == next@[order[e] as int]@);
                }
                let vn = views_of(next@);
                assert forall|e: int| 0 <= e < next@.len() implies keys_of(next@)[e] == view_keys(vn)[e] by {
                    lemma_num_legal_view(&next@[e]);
                }
                assert(keys_of(next@) =~= view_keys(vn));
                let o2 = choose|o: Seq<usize>| ranked(view_keys(vn), o);
                lemma_ranked_unique(view_keys(vn), order, o2);
                assert(views_of(kept@) =~= select_views(vn, width as int));
                assert(views_of(kept@) == beam_level(v0, width as int, lv));
            }
            beam = kept;
        }
    }
    proof {
        assert(items_of(terminals@) == beam_records(initial@, width as int, lv));
    }
    BeamResult { terminals, nodes, overflow }
}

/// The ranking keys of a list of positions.
pub open spec fn keys_of(ps: Seq<GameState>) -> Seq<u128> {
    Seq::new(ps.len(), |e: int| beam_key(&ps[e]) as u128)
}

/// `kept` is the start of `next` in the ranking `order`: best key first, ties
/// in their order.
pub open spec fn selection(next: Seq<GameState>, kept: Seq<GameState>, order: Seq<usize>) -> bool {
    &&& ranked(keys_of(next), order)
    &&& forall|t: int| 0 <= t < kept.len() ==> #[trigger] kept[t]@ == next[order[t] as int]@ && kept[t].wf()
}

/// The next beam: the first `width` positions of `next` ranked by key, best
/// first, ties kept in their order (all of them when there are fewer).
#[verifier::spinoff_prover]
pub fn select_beam(next: &Vec<GameState>, width: usize) -> (kept: Vec<GameState>)
    requires
        forall|e: int| 0 <= e < next@.len() ==> (#[trigger] next@[e]).wf(),
    ensures
        kept@.len() == if width < next@.len() {
            width as int
        } else {
            next@.len() as int
        },
        exists|order: Seq<usize>| #[trigger] selection(next@, kept@, order),
{
    let mut keys: Vec<u128> = Vec::new();
    let mut c: usize = 0;
    while c < next.len()
        invariant
            c <= next@.len(),
            keys@.len() == c,
            forall|e: int| 0 <= e < next@.len() ==> (#[trigger] next@[e]).wf(),
            forall|e: int| 0 <= e < c ==> keys@[e] == beam_key(&next@[e]),
        decreases next@.len() - c,
    {
        proof {
            assert(next@[c as int].wf());
        }
        let kc = key_of(&next[c]);
        keys.push(kc);
        c = c + 1;
    }
    proof {
        assert(keys@ =~= keys_of(next@));
    }
    let order = rank_desc(&keys);
    let lim = if width < order.len() {
        width
    } else {
        order.len()
    };
    let mut kept: Vec<GameState> = Vec::new();
    let mut t: usize = 0;
    while t < lim
        invariant
            t <= lim,
            lim <= order@.len(),
            kept@.len() == t,
            ranked(keys@, order@),
            keys@.len() == next@.len(),
            forall|e: int| 0 <= e < next@.len() ==> (#[trigger] next@[e]).wf(),
            forall|e: int| 0 <= e < t ==> #[trigger] kept@[e]@ == next@[order@[e] as int]@ && kept@[e].wf(),
        decreases lim - t,
    {
        let idx = order[t];
        proof {
            assert(order@[t as int] < keys@.len());
        }
        let copy = next[idx].duplicate();
        let ghost k0 = kept@;
        kept.push(copy);
        proof {
            assert forall|e: int| 0 <= e < t + 1 implies #[trigger] kept@[e]@ == next@[order@[e] as int]@ && kept@[e].wf() by {
                if e < t {
                    assert(kept@[e] == k0[e]);
                }
            }
        }
        t = t + 1;
    }
    proof {
        assert(keys@ == keys_of(next@));
        assert(selection(next@, kept@, order@));
    }
    kept
}

} // verus!
