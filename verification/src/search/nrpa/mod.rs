//! Support for nested rollout policy adaptation: whether a move can be
//! played, the recombination and reordering of games used by perturbation,
//! and macro-action motifs.
pub mod macros;
pub mod mining;
pub mod perturbation;

use crate::game::board::{in_grid, in_margin, Pos};
use crate::game::line::{dir_delta, line_point, pos_int, pos_small, Line};
use crate::game::line_index::lines_conflict_spec;
use crate::game::moves::Move;
use crate::game::rules::{variant_len, TouchMode, Variant};
use crate::game::state::{cross_point, placeable, view_apply, GameState, GameView};
use crate::search::nrpa::macros::{applied, max_overlap, occupied_pt, playable};
use crate::search::symmetry::{
    local_code, local_mix, move_small, ring_canon, ring_occ, toggled, MoveCoder, SymmetryHashes,
};
use rand::rngs::ThreadRng;
use rand::seq::SliceRandom;
use rand::RngExt;
use vstd::prelude::*;

verus! {

/// Whether a move can be played (see [`playable`]).
pub(crate) fn move_playable(st: &GameState, m: &Move, line_len: u8) -> (r: bool)
    requires
        st.wf(),
        2 <= line_len <= 8,
        crate::game::line::pos_small(m.line.origin),
    ensures
        r == playable(st@, *m, line_len as int),
{
    if st.board.contains(m.pos) {
        return false;
    }
    proof {
        crate::game::line::lemma_small_line_fits(m.line, line_len as int);
    }
    let cells = m.line.positions(line_len);
    let mut k: usize = 0;
    while k < cells.len()
        invariant
            k <= cells@.len(),
            cells@.len() == line_len,
            st.wf(),
            forall|i: int| 0 <= i < line_len ==> pos_int(#[trigger] cells@[i]) == line_point(m.line, i),
            forall|j: int| 0 <= j < k && j != m.line_pos ==> #[trigger] occupied_pt(st@, line_point(m.line, j)),
        decreases cells@.len() - k,
    {
        if k as u8 != m.line_pos && !st.board.contains(cells[k]) {
            proof {
                assert(pos_int(cells@[k as int]) == line_point(m.line, k as int));
                assert(cells@[k as int] == (line_point(m.line, k as int).0 as i16, line_point(m.line, k as int).1 as i16));
                assert(!occupied_pt(st@, line_point(m.line, k as int)));
            }
            return false;
        }
        proof {
            if k as u8 != m.line_pos {
                assert(cells@[k as int] == (line_point(m.line, k as int).0 as i16, line_point(m.line, k as int).1 as i16));
            }
        }
        k = k + 1;
    }
    let overlap: u8 = match st.variant.touch_mode() {
        TouchMode::Touching => 1,
        TouchMode::Disjoint => 0,
    };
    proof {
        let o = line_point(m.line, 0);
        let dl = dir_delta(m.line.dir);
        if m.line_pos != 0 {
            assert(occupied_pt(st@, o));
            let q = (o.0 as i16, o.1 as i16);
            assert(st.board.occupied(q));
            st.board.lemma_occupied(q);
            assert(m.line.origin == q);
        } else {
            assert(occupied_pt(st@, line_point(m.line, 1)));
            let q = (line_point(m.line, 1).0 as i16, line_point(m.line, 1).1 as i16);
            assert(st.board.occupied(q));
            st.board.lemma_occupied(q);
        }
        assert(in_grid(m.line.origin));
    }
    let c = st.line_index.conflicts(&m.line, line_len - 1 - overlap);
    proof {
        let f = line_len - 1 - max_overlap(st.variant);
        assert(f == (line_len - 1 - overlap) as int);
        if c {
            let l = choose|l: Line| #[trigger] st.line_index.has(l) && lines_conflict_spec(l, m.line, f);
            assert(st@.lines.contains(l));
        } else {
            assert forall|l: Line| #[trigger] st@.lines.contains(l) implies !lines_conflict_spec(l, m.line, f) by {
                assert(st.line_index.has(l));
            }
        }
    }
    !c
}

/// The thread-local random generator.
#[verifier::external_type_specification]
#[verifier::external_body]
pub struct ExThreadRng(ThreadRng);

/// `rng.random_range(0..len)`: a uniformly drawn index below `len`.
#[verifier::external_body]
fn random_below(rng: &mut ThreadRng, len: usize) -> (r: usize)
    requires
        len > 0,
    ensures
        r < len,
{
    rng.random_range(0..len)
}

/// `SliceRandom::shuffle`: the moves put in a random order (a permutation:
/// the same moves, each as often).
#[verifier::external_body]
fn shuffle_moves(v: &mut Vec<Move>, rng: &mut ThreadRng)
    ensures
        final(v)@.to_multiset() == old(v)@.to_multiset(),
{
    v.shuffle(rng);
}

/// Two states with the same variant, points and lines.
pub open spec fn same_board(a: GameView, b: GameView) -> bool {
    a.variant == b.variant && a.occupied == b.occupied && a.lines == b.lines
}

/// The start of a game of `variant`: the initial cross, no lines.
pub open spec fn init_view(variant: Variant) -> GameView {
    GameView {
        variant,
        occupied: Set::new(|p: Pos| cross_point(variant, p)),
        lines: Set::empty(),
        cells: Seq::empty(),
        history: Seq::empty(),
        redo: Seq::empty(),
    }
}

/// Move `j` of `s` can be played once its predecessors are.
#[verifier::opaque]
pub open spec fn valid_step(v: GameView, s: Seq<Move>, n: int, j: int) -> bool {
    playable(applied(v, s.take(j)), s[j], n) && placeable(s[j])
}

/// Every move of `s` can be played in turn from `v`: `s` is a valid game.
pub open spec fn game_valid(v: GameView, s: Seq<Move>, n: int) -> bool {
    forall|j: int| 0 <= j < s.len() ==> #[trigger] valid_step(v, s, n, j)
}

/// States with the same board stay so under the same moves.
proof fn lemma_applied_board(a: GameView, b: GameView, s: Seq<Move>)
    requires
        same_board(a, b),
    ensures
        same_board(applied(a, s), applied(b, s)),
    decreases s.len(),
{
    reveal(applied);
    if s.len() > 0 {
        lemma_applied_board(a, b, s.drop_last());
    }
}

/// Playing one more playable move extends a valid game.
proof fn lemma_valid_push(v: GameView, h: Seq<Move>, m: Move, n: int)
    requires
        game_valid(v, h, n),
        playable(applied(v, h), m, n),
        placeable(m),
    ensures
        game_valid(v, h.push(m), n),
        applied(v, h.push(m)) == view_apply(applied(v, h), m),
{
    let s = h.push(m);
    assert(s.take(h.len() as int) =~= h);
    assert(s.drop_last() =~= h);
    assert(applied(v, s) == view_apply(applied(v, h), m)) by {
        reveal(applied);
    }
    assert forall|j: int| 0 <= j < s.len() implies #[trigger] valid_step(v, s, n, j) by {
        reveal(valid_step);
        if j < h.len() {
            assert(s.take(j) =~= h.take(j));
            assert(valid_step(v, h, n, j));
        }
    }
}

/// Playability depends only on the board.
proof fn lemma_playable_board(a: GameView, b: GameView, m: Move, n: int)
    requires
        same_board(a, b),
    ensures
        playable(a, m, n) == playable(b, m, n),
{
    assert forall|p: (int, int)| occupied_pt(a, p) == occupied_pt(b, p) by {}
    assert forall|l: Line| a.lines.contains(l) == b.lines.contains(l) by {}
}

/// Whether two moves are the same (point, line and index).
fn same_move(a: &Move, b: &Move) -> (r: bool)
    ensures
        r == (*a == *b),
{
    a.pos.0 == b.pos.0 && a.pos.1 == b.pos.1 && a.line.origin.0 == b.line.origin.0
        && a.line.origin.1 == b.line.origin.1 && a.line.dir == b.line.dir && a.line_pos == b.line_pos
}

/// Whether `m` occurs in `v`.
fn contains_move(v: &Vec<Move>, m: &Move) -> (r: bool)
    ensures
        r == v@.contains(*m),
{
    let mut i: usize = 0;
    while i < v.len()
        invariant
            i <= v@.len(),
            forall|j: int| 0 <= j < i ==> v@[j] != *m,
        decreases v@.len() - i,
    {
        if same_move(&v[i], m) {
            return true;
        }
        i = i + 1;
    }
    false
}

/// A vector holding the moves of `s`.
pub(crate) fn copy_moves(s: &[Move]) -> (r: Vec<Move>)
    ensures
        r@ == s@,
{
    let mut out: Vec<Move> = Vec::new();
    let mut i: usize = 0;
    while i < s.len()
        invariant
            i <= s@.len(),
            out@ == s@.take(i as int),
        decreases s@.len() - i,
    {
        out.push(s[i]);
        proof {
            assert(out@ =~= s@.take(i + 1));
        }
        i = i + 1;
    }
    proof {
        assert(s@.take(s@.len() as int) =~= s@);
    }
    out
}

/// A salvage of `pool` into the game `r` from `v` is complete: no move of the
/// pool outside `r` can be played after `r`, or else one that can be played
/// falls off the grid.
pub open spec fn salvage_done(v: GameView, pool: Seq<Move>, r: Seq<Move>, n: int) -> bool {
    ||| forall|m: Move| #[trigger] pool.contains(m) && !r.contains(m) ==> !playable(applied(v, r), m, n)
    ||| exists|m: Move| #[trigger] pool.contains(m) && playable(applied(v, r), m, n) && !placeable(m)
}

/// Replay a pool of moves from the cross: sweep it repeatedly, playing each
/// move that can be played at its turn, until a sweep plays nothing (or a
/// move falls off the grid). The result is a valid game of pool moves, to
/// which no other pool move can be added.
fn salvage(pool: &[Move], variant: Variant) -> (r: Vec<Move>)
    requires
        forall|i: int| 0 <= i < pool@.len() ==> pos_small(#[trigger] pool@[i].line.origin),
    ensures
        game_valid(init_view(variant), r@, variant_len(variant) as int),
        forall|i: int| 0 <= i < r@.len() ==> pool@.contains(#[trigger] r@[i]),
        salvage_done(init_view(variant), pool@, r@, variant_len(variant) as int),
{
    let ghost pool0 = pool@;
    let ghost v = init_view(variant);
    let ghost n = variant_len(variant) as int;
    let mut rest: Vec<Move> = copy_moves(pool);
    let line_len = variant.len();
    let mut st = GameState::new(variant);
    proof {
        assert(st@.occupied =~= v.occupied);
        assert(st@.lines =~= v.lines);
        assert(st.history@ =~= Seq::<Move>::empty());
        assert(applied(v, st.history@) == v) by {
            reveal(applied);
        }
    }
    let mut progress = true;
    while progress
        invariant
            st.wf(),
            st.variant == variant,
            line_len as int == n,
            n == 4 || n == 5,
            n == variant_len(variant) as int,
            pool0 == pool@,
            v == init_view(variant),
            same_board(st@, applied(v, st.history@)),
            game_valid(v, st.history@, n),
            forall|i: int| 0 <= i < st.history@.len() ==> pool0.contains(#[trigger] st.history@[i]),
            forall|i: int| 0 <= i < rest@.len() ==> pool0.contains(#[trigger] rest@[i]),
            forall|i: int| 0 <= i < pool0.len() ==> pos_small(#[trigger] pool0[i].line.origin),
            forall|m: Move| #[trigger] pool0.contains(m) ==> rest@.contains(m) || st.history@.contains(m),
            !progress ==> forall|k: int| 0 <= k < rest@.len() ==> !playable(applied(v, st.history@), #[trigger] rest@[k], n),
        decreases rest@.len() + if progress {
            1int
        } else {
            0int
        },
    {
        progress = false;
        let ghost len0 = rest@.len();
        let mut i: usize = 0;
        while i < rest.len()
            invariant
                i <= rest@.len(),
                st.wf(),
                st.variant == variant,
                line_len as int == n,
                n == 4 || n == 5,
                n == variant_len(variant) as int,
                pool0 == pool@,
                v == init_view(variant),
                same_board(st@, applied(v, st.history@)),
                game_valid(v, st.history@, n),
                forall|k: int| 0 <= k < st.history@.len() ==> pool0.contains(#[trigger] st.history@[k]),
                forall|k: int| 0 <= k < rest@.len() ==> pool0.contains(#[trigger] rest@[k]),
                forall|k: int| 0 <= k < pool0.len() ==> pos_small(#[trigger] pool0[k].line.origin),
                progress ==> rest@.len() < len0,
                !progress ==> rest@.len() == len0,
                forall|m: Move| #[trigger] pool0.contains(m) ==> rest@.contains(m) || st.history@.contains(m),
                !progress ==> forall|k: int| 0 <= k < i ==> !playable(applied(v, st.history@), #[trigger] rest@[k], n),
            decreases rest@.len() - i,
        {
            proof {
                assert(pool0.contains(rest@[i as int]));
                let q = choose|q: int| 0 <= q < pool0.len() && pool0[q] == rest@[i as int];
                assert(pos_small(pool0[q].line.origin));
            }
            if move_playable(&st, &rest[i], line_len) {
                let ghost before = rest@;
                let m = rest.swap_remove(i);
                proof {
                    assert forall|k: int| 0 <= k < rest@.len() implies pool0.contains(#[trigger] rest@[k]) by {
                        if k == i {
                            assert(rest@[k] == before.last());
                            assert(pool0.contains(before[before.len() - 1]));
                        } else {
                            assert(rest@[k] == before[k]);
                        }
                    }
                    lemma_playable_board(st@, applied(v, st.history@), m, n);
                }
                let ghost pre = st@;
                let ghost h = st.history@;
                if !st.apply(m) {
                    proof {
                        assert(st.history@ == h);
                        assert(game_valid(init_view(variant), st.history@, n));
                        assert forall|k: int| 0 <= k < st.history@.len() implies pool0.contains(
                            #[trigger] st.history@[k],
                        ) by {
                            assert(st.history@[k] == h[k]);
                        }
                        assert(pool0.contains(m) && playable(applied(v, h), m, n) && !placeable(m));
                    }
                    return st.history;
                }
                proof {
                    lemma_valid_push(v, h, m, n);
                    assert(st.history@ == h.push(m));
                    assert forall|k: int| 0 <= k < st.history@.len() implies pool0.contains(#[trigger] st.history@[k]) by {
                        if k < h.len() {
                            assert(st.history@[k] == h[k]);
                        }
                    }
                    assert forall|x: Move| #[trigger] pool0.contains(x) implies rest@.contains(x) || st.history@.contains(x) by {
                        if x == m {
                            assert(st.history@[h.len() as int] == m);
                        } else if h.contains(x) {
                            let k = choose|k: int| 0 <= k < h.len() && h[k] == x;
                            assert(st.history@[k] == x);
                        } else {
                            assert(before.contains(x));
                            let k = choose|k: int| 0 <= k < before.len() && before[k] == x;
                            if k == before.len() - 1 {
                                assert(rest@[i as int] == x);
                            } else {
                                assert(k != i);
                                assert(rest@[k] == x);
                            }
                        }
                    }
                }
                progress = true;
            } else {
                proof {
                    lemma_playable_board(st@, applied(v, st.history@), rest@[i as int], n);
                }
                i = i + 1;
            }
        }
    }
    st.history
}

/// Append the moves of `g` not yet in `pool`, in order.
fn push_distinct(pool: &mut Vec<Move>, g: &[Move])
    ensures
        forall|k: int| 0 <= k < final(pool)@.len() ==> old(pool)@.contains(#[trigger] final(pool)@[k]) || g@.contains(final(pool)@[k]),
        forall|k: int| 0 <= k < old(pool)@.len() ==> final(pool)@.contains(#[trigger] old(pool)@[k]),
        forall|k: int| 0 <= k < g@.len() ==> final(pool)@.contains(#[trigger] g@[k]),
{
    let ghost p0 = pool@;
    let mut i: usize = 0;
    while i < g.len()
        invariant
            i <= g@.len(),
            forall|k: int| 0 <= k < pool@.len() ==> p0.contains(#[trigger] pool@[k]) || g@.contains(pool@[k]),
            forall|k: int| 0 <= k < p0.len() ==> pool@.contains(#[trigger] p0[k]),
            forall|k: int| 0 <= k < i ==> pool@.contains(#[trigger] g@[k]),
        decreases g@.len() - i,
    {
        let m = g[i];
        proof {
            assert(g@.contains(g@[i as int]));
        }
        if !contains_move(pool, &m) {
            let ghost before = pool@;
            pool.push(m);
            proof {
                assert forall|k: int| 0 <= k < p0.len() implies pool@.contains(#[trigger] p0[k]) by {
                    let q = choose|q: int| 0 <= q < before.len() && before[q] == p0[k];
                    assert(pool@[q] == p0[k]);
                }
                assert forall|k: int| 0 <= k < pool@.len() implies p0.contains(#[trigger] pool@[k]) || g@.contains(pool@[k]) by {
                    if k < before.len() {
                        assert(pool@[k] == before[k]);
                    }
                }
                assert forall|k: int| 0 <= k < i + 1 implies pool@.contains(#[trigger] g@[k]) by {
                    if k < i {
                        let q = choose|q: int| 0 <= q < before.len() && before[q] == g@[k];
                        assert(pool@[q] == g@[k]);
                    } else {
                        assert(pool@[before.len() as int] == m);
                    }
                }
            }
        }
        i = i + 1;
    }
}

/// Recombine two games: pool their distinct moves, put the pool in a random
/// order and salvage a valid game from it (see [`salvage`]). Whatever the
/// order drawn, the result is a valid game made of moves of the two games.
pub fn crossover_games(g1: &[Move], g2: &[Move], variant: Variant, rng: &mut ThreadRng) -> (r: Vec<Move>)
    requires
        forall|i: int| 0 <= i < g1@.len() ==> pos_small(#[trigger] g1@[i].line.origin),
        forall|i: int| 0 <= i < g2@.len() ==> pos_small(#[trigger] g2@[i].line.origin),
    ensures
        game_valid(init_view(variant), r@, variant_len(variant) as int),
        forall|i: int| 0 <= i < r@.len() ==> g1@.contains(#[trigger] r@[i]) || g2@.contains(r@[i]),
        salvage_done(init_view(variant), g1@ + g2@, r@, variant_len(variant) as int),
{
    let mut pool: Vec<Move> = Vec::new();
    push_distinct(&mut pool, g1);
    push_distinct(&mut pool, g2);
    proof {
        assert forall|k: int| 0 <= k < pool@.len() implies g1@.contains(#[trigger] pool@[k]) || g2@.contains(
            pool@[k],
        ) by {}
    }
    let ghost pool1 = pool@;
    shuffle_moves(&mut pool, rng);
    proof {
        assert forall|k: int| 0 <= k < pool@.len() implies pool1.contains(#[trigger] pool@[k]) by {
            assert(pool@.to_multiset().count(pool@[k]) > 0) by {
                broadcast use vstd::seq_lib::group_to_multiset_ensures;
                assert(pool@.contains(pool@[k]));
            }
            assert(pool1.to_multiset().count(pool@[k]) > 0);
            broadcast use vstd::seq_lib::group_to_multiset_ensures;
        }
        assert forall|k: int| 0 <= k < pool@.len() implies pos_small(#[trigger] pool@[k].line.origin) by {
            assert(pool1.contains(pool@[k]));
            let q = choose|q: int| 0 <= q < pool1.len() && pool1[q] == pool@[k];
            assert(g1@.contains(pool1[q]) || g2@.contains(pool1[q]));
        }
    }
    let r = salvage(&pool, variant);
    proof {
        assert forall|k: int| 0 <= k < r@.len() implies g1@.contains(#[trigger] r@[k]) || g2@.contains(r@[k]) by {
            assert(pool@.contains(r@[k]));
            assert(pool1.contains(r@[k])) by {
                broadcast use vstd::seq_lib::group_to_multiset_ensures;
                assert(pool@.to_multiset().count(r@[k]) > 0);
            }
            let q = choose|q: int| 0 <= q < pool1.len() && pool1[q] == r@[k];
            assert(g1@.contains(pool1[q]) || g2@.contains(pool1[q]));
        }
        let v = init_view(variant);
        let n = variant_len(variant) as int;
        let both = g1@ + g2@;
        assert forall|m: Move| #[trigger] both.contains(m) implies pool@.contains(m) by {
            let q = choose|q: int| 0 <= q < both.len() && both[q] == m;
            if q < g1@.len() {
                assert(g1@[q] == m);
                assert(pool1.contains(g1@[q]));
            } else {
                assert(g2@[q - g1@.len()] == m);
                assert(pool1.contains(g2@[q - g1@.len()]));
            }
            broadcast use vstd::seq_lib::group_to_multiset_ensures;
            assert(pool1.to_multiset().count(m) > 0);
            assert(pool@.to_multiset().count(m) > 0);
        }
        if forall|m: Move| #[trigger] pool@.contains(m) && !r@.contains(m) ==> !playable(applied(v, r@), m, n) {
            assert forall|m: Move| #[trigger] both.contains(m) && !r@.contains(m) implies !playable(
                applied(v, r@),
                m,
                n,
            ) by {
                assert(pool@.contains(m));
            }
        } else {
            let m = choose|m: Move| #[trigger] pool@.contains(m) && playable(applied(v, r@), m, n) && !placeable(m);
            assert(pool1.contains(m)) by {
                broadcast use vstd::seq_lib::group_to_multiset_ensures;
                assert(pool@.to_multiset().count(m) > 0);
            }
            let q = choose|q: int| 0 <= q < pool1.len() && pool1[q] == m;
            assert(g1@.contains(m) || g2@.contains(m));
            if g1@.contains(m) {
                let j = choose|j: int| 0 <= j < g1@.len() && g1@[j] == m;
                assert(both[j] == m);
            } else {
                let j = choose|j: int| 0 <= j < g2@.len() && g2@[j] == m;
                assert(both[g1@.len() + j] == m);
            }
            assert(both.contains(m));
        }
    }
    r
}


/// The points of the moves `s`, in order.
pub open spec fn points_of(s: Seq<Move>) -> Seq<Pos> {
    Seq::new(s.len(), |i: int| s[i].pos)
}

/// Every point of `m`'s line but its own is among `placed`: `m` can be
/// placed after them.
pub open spec fn line_ready(placed: Seq<Pos>, m: Move, n: int) -> bool {
    forall|k: int|
        #![trigger line_point(m.line, k)]
        0 <= k < n ==> {
            let c = line_point(m.line, k);
            pos_int(m.pos) == c || placed.contains((c.0 as i16, c.1 as i16))
        }
}

/// Removing index `i` by moving the last element into its place removes one
/// occurrence of `s[i]`.
proof fn lemma_swap_remove_multiset(s: Seq<Move>, i: int)
    requires
        0 <= i < s.len(),
    ensures
        s.update(i, s.last()).drop_last().to_multiset() == s.to_multiset().remove(s[i]),
{
    broadcast use vstd::seq_lib::group_to_multiset_ensures;
    let t = s.update(i, s.last()).drop_last();
    let last = s.len() - 1;
    if i == last {
        assert(t =~= s.remove(i));
    } else {
        assert(s.remove(i) =~= s.drop_last().remove(i).push(s.last())) by {
            assert forall|k: int| 0 <= k < s.len() - 1 implies s.remove(i)[k] == s.drop_last().remove(i).push(s.last())[k] by {
                if k < i {
                } else if k < s.len() - 2 {
                } else {
                }
            }
        }
        assert(t =~= s.drop_last().remove(i).insert(i, s.last()));
        let u = s.drop_last().remove(i);
        assert(u.insert(i, s.last()).to_multiset() =~= u.to_multiset().insert(s.last())) by {
            vstd::seq_lib::lemma_seq_union_to_multiset_commutative(u.take(i).push(s.last()), u.skip(i));
            assert(u.insert(i, s.last()) =~= u.take(i).push(s.last()) + u.skip(i));
            assert(u =~= u.take(i) + u.skip(i));
            vstd::seq_lib::lemma_multiset_commutative(u.take(i).push(s.last()), u.skip(i));
            vstd::seq_lib::lemma_multiset_commutative(u.take(i), u.skip(i));
        }
        assert(s.remove(i).to_multiset() =~= u.to_multiset().insert(s.last()));
    }
}

/// Whether every point of `m`'s line but its own is in `placed`.
fn line_is_ready(placed: &Vec<Pos>, m: &Move, line_len: u8) -> (r: bool)
    requires
        pos_small(m.line.origin),
    ensures
        r == line_ready(placed@, *m, line_len as int),
{
    proof {
        crate::game::line::lemma_small_line_fits(m.line, line_len as int);
    }
    let cells = m.line.positions(line_len);
    let mut k: usize = 0;
    while k < cells.len()
        invariant
            k <= cells@.len(),
            cells@.len() == line_len,
            forall|i: int| 0 <= i < line_len ==> pos_int(#[trigger] cells@[i]) == line_point(m.line, i),
            forall|j: int|
                #![trigger line_point(m.line, j)]
                0 <= j < k ==> {
                    let c = line_point(m.line, j);
                    pos_int(m.pos) == c || placed@.contains((c.0 as i16, c.1 as i16))
                },
        decreases cells@.len() - k,
    {
        let c = cells[k];
        proof {
            assert(pos_int(c) == line_point(m.line, k as int));
        }
        if !(c.0 == m.pos.0 && c.1 == m.pos.1) && !contains_pos(placed, c) {
            proof {
                assert(!line_ready(placed@, *m, line_len as int)) by {
                    let cc = line_point(m.line, k as int);
                    assert(c == (cc.0 as i16, cc.1 as i16));
                    assert(pos_int(m.pos) != cc);
                }
            }
            return false;
        }
        proof {
            let cc = line_point(m.line, k as int);
            assert(c == (cc.0 as i16, cc.1 as i16));
        }
        k = k + 1;
    }
    true
}

/// Whether `p` occurs in `v`.
fn contains_pos(v: &Vec<Pos>, p: Pos) -> (r: bool)
    ensures
        r == v@.contains(p),
{
    let mut i: usize = 0;
    while i < v.len()
        invariant
            i <= v@.len(),
            forall|j: int| 0 <= j < i ==> v@[j] != p,
        decreases v@.len() - i,
    {
        if v[i].0 == p.0 && v[i].1 == p.1 {
            return true;
        }
        i = i + 1;
    }
    false
}

/// Put a game's moves in a random valid play order: repeatedly pick, at
/// random, a move whose line's other points are all placed (the cross `cross`
/// and the moves picked so far); if none can be picked, the rest follow in
/// their current order. Whatever the draws, the result holds the same moves,
/// each picked move is ready at its turn, and no move after the picked ones
/// was ready.
pub fn random_extension(game: &[Move], cross: &[Pos], line_len: u8, rng: &mut ThreadRng) -> (r: Vec<Move>)
    requires
        forall|i: int| 0 <= i < game@.len() ==> pos_small(#[trigger] game@[i].line.origin),
    ensures
        r@.to_multiset() == game@.to_multiset(),
        exists|p: int|
            #![trigger r@.take(p)]
            0 <= p <= r@.len() && (forall|i: int|
                0 <= i < p ==> line_ready(cross@ + points_of(r@.take(i)), #[trigger] r@[i], line_len as int))
                && (forall|i: int|
                p <= i < r@.len() ==> !line_ready(cross@ + points_of(r@.take(p)), #[trigger] r@[i], line_len as int)),
{
    let mut placed: Vec<Pos> = Vec::new();
    let mut c: usize = 0;
    while c < cross.len()
        invariant
            c <= cross@.len(),
            placed@ == cross@.take(c as int),
        decreases cross@.len() - c,
    {
        placed.push(cross[c]);
        proof {
            assert(placed@ =~= cross@.take(c + 1));
        }
        c = c + 1;
    }
    proof {
        assert(cross@.take(cross@.len() as int) =~= cross@);
        assert(points_of(Seq::<Move>::empty()) =~= Seq::<Pos>::empty());
        assert(placed@ =~= cross@ + points_of(Seq::<Move>::empty()));
    }
    let mut remaining = copy_moves(game);
    let mut order: Vec<Move> = Vec::new();
    let mut stuck = false;
    proof {
        broadcast use vstd::seq_lib::group_to_multiset_ensures;
        assert(order@.to_multiset() =~= vstd::multiset::Multiset::<Move>::empty());
    }
    while !stuck && remaining.len() > 0
        invariant
            order@.to_multiset().add(remaining@.to_multiset()) == game@.to_multiset(),
            placed@ == cross@ + points_of(order@),
            forall|i: int|
                0 <= i < order@.len() ==> line_ready(cross@ + points_of(order@.take(i)), #[trigger] order@[i], line_len as int),
            stuck ==> forall|j: int| 0 <= j < remaining@.len() ==> !line_ready(placed@, #[trigger] remaining@[j], line_len as int),
            forall|j: int| 0 <= j < remaining@.len() ==> pos_small(#[trigger] remaining@[j].line.origin),
        decreases remaining@.len() + if stuck {
            0int
        } else {
            1int
        },
    {
        let mut playable: Vec<usize> = Vec::new();
        let mut i: usize = 0;
        while i < remaining.len()
            invariant
                i <= remaining@.len(),
                forall|j: int| 0 <= j < remaining@.len() ==> pos_small(#[trigger] remaining@[j].line.origin),
                forall|q: int| 0 <= q < playable@.len() ==> #[trigger] playable@[q] < remaining@.len()
                    && line_ready(placed@, remaining@[playable@[q] as int], line_len as int),
                forall|j: int| 0 <= j < i && line_ready(placed@, #[trigger] remaining@[j], line_len as int)
                    ==> playable@.contains(j as usize),
            decreases remaining@.len() - i,
        {
            if line_is_ready(&placed, &remaining[i], line_len) {
                let ghost pb = playable@;
                playable.push(i);
                proof {
                    assert(playable@[pb.len() as int] == i);
                    assert forall|j: int| 0 <= j < i && line_ready(placed@, #[trigger] remaining@[j], line_len as int)
                        implies playable@.contains(j as usize) by {
                        assert(pb.contains(j as usize));
                        let q = choose|q: int| 0 <= q < pb.len() && pb[q] == j as usize;
                        assert(playable@[q] == pb[q]);
                    }
                }
            }
            i = i + 1;
        }
        if playable.len() == 0 {
            stuck = true;
        } else {
            let pick = random_below(rng, playable.len());
            let idx = playable[pick];
            let ghost before = remaining@;
            let ghost order0 = order@;
            let m = remaining.swap_remove(idx);
            proof {
                lemma_swap_remove_multiset(before, idx as int);
                assert(remaining@ == before.update(idx as int, before.last()).drop_last());
                assert forall|j: int| 0 <= j < remaining@.len() implies pos_small(#[trigger] remaining@[j].line.origin) by {
                    if j == idx {
                        assert(remaining@[j] == before[before.len() - 1]);
                    } else {
                        assert(remaining@[j] == before[j]);
                    }
                }
            }
            placed.push(m.pos);
            order.push(m);
            proof {
                broadcast use vstd::seq_lib::group_to_multiset_ensures;
                assert(order@.to_multiset() =~= order0.to_multiset().insert(m));
                assert(before.to_multiset().count(m) > 0) by {
                    assert(before.contains(m));
                }
                assert(order@.to_multiset().add(remaining@.to_multiset()) =~= game@.to_multiset());
                assert(points_of(order@) =~= points_of(order0).push(m.pos));
                assert(placed@ =~= cross@ + points_of(order@));
                assert forall|k: int| 0 <= k < order@.len() implies line_ready(
                    cross@ + points_of(order@.take(k)),
                    #[trigger] order@[k],
                    line_len as int,
                ) by {
                    if k < order0.len() {
                        assert(order@.take(k) =~= order0.take(k));
                        assert(order@[k] == order0[k]);
                    } else {
                        assert(order@.take(k) =~= order0);
                    }
                }
            }
        }
    }
    let p = order.len();
    let ghost order0 = order@;
    let mut j: usize = 0;
    while j < remaining.len()
        invariant
            j <= remaining@.len(),
            p == order0.len(),
            order@ == order0 + remaining@.take(j as int),
        decreases remaining@.len() - j,
    {
        order.push(remaining[j]);
        proof {
            assert(order@ =~= order0 + remaining@.take(j + 1));
        }
        j = j + 1;
    }
    proof {
        broadcast use vstd::seq_lib::group_to_multiset_ensures;
        assert(remaining@.take(remaining@.len() as int) =~= remaining@);
        vstd::seq_lib::lemma_multiset_commutative(order0, remaining@);
        assert(order@.take(p as int) =~= order0);
        assert forall|i: int| 0 <= i < p implies line_ready(cross@ + points_of(order@.take(i)), #[trigger] order@[i], line_len as int) by {
            assert(order@.take(i) =~= order0.take(i));
            assert(order@[i] == order0[i]);
        }
        assert forall|i: int| p <= i < order@.len() implies !line_ready(cross@ + points_of(order@.take(p as int)), #[trigger] order@[i], line_len as int) by {
            assert(order@[i] == remaining@[i - p]);
        }
    }
    order
}

/// Policy iterations per nesting level: one count for every level, set from
/// the top level so that an outer iteration costs roughly the same whatever
/// the depth.
pub fn iterations_for_level(level: usize) -> (n: usize)
    ensures
        n == if level <= 3 {
            500usize
        } else if level == 4 {
            64usize
        } else {
            24usize
        },
{
    if level <= 3 {
        500
    } else if level == 4 {
        64
    } else {
        24
    }
}

/// A move's policy code: the symmetry code, mixed with the code of its local
/// neighbourhood when `local` is set.
pub fn move_code(coder: &MoveCoder, scratch: &GameState, mv: &Move, local: bool) -> (r: u64)
    requires
        coder.wf(),
        move_small(*mv),
        scratch.wf(),
    ensures
        r == if local {
            coder.code_of(*mv) ^ local_mix(ring_canon(ring_occ(scratch.board, mv.pos)) as u64)
        } else {
            coder.code_of(*mv)
        },
{
    let c = coder.code(mv);
    if local {
        c ^ local_code(&scratch.board, mv.pos)
    } else {
        c
    }
}

/// The symmetry hashes after toggling `cells` in order, starting from `h`.
pub open spec fn toggled_all(h: Seq<u64>, cells: Seq<Pos>, k: i16) -> Seq<u64>
    decreases cells.len(),
{
    if cells.len() == 0 {
        h
    } else {
        toggled(toggled_all(h, cells.drop_last(), k), cells.last(), k)
    }
}

/// The symmetry hashes of a position: every occupied cell toggled into blank
/// hashes centred for the variant's line length.
pub fn build_base_sym(state: &GameState) -> (s: SymmetryHashes)
    requires
        state.wf(),
    ensures
        s.k == 2 * variant_len(state.variant) - 1,
        s.hashes@ == toggled_all(Seq::new(8, |t: int| 0u64), state.board.cells@, s.k),
{
    let k: i16 = 2 * state.variant.len() as i16 - 1;
    let mut s = SymmetryHashes::new(k);
    assert(s.hashes@ =~= Seq::new(8, |t: int| 0u64));
    let cells = &state.board.cells;
    let mut i: usize = 0;
    while i < cells.len()
        invariant
            i <= cells@.len(),
            state.wf(),
            cells@ == state.board.cells@,
            s.k == k,
            k == 2 * variant_len(state.variant) - 1,
            s.hashes@ == toggled_all(Seq::new(8, |t: int| 0u64), cells@.take(i as int), k),
        decreases cells@.len() - i,
    {
        let c = cells[i];
        proof {
            state.board.lemma_cells_in_margin(i as int);
            assert(in_margin(c));
            assert(cells@.take(i as int + 1).drop_last() =~= cells@.take(i as int));
        }
        s.toggle(c);
        i = i + 1;
    }
    assert(cells@.take(cells@.len() as int) =~= cells@);
    s
}

} // verus!
