//! The decisions of a perturbation search: how much of a parent game each
//! round destroys, and which games the archive keeps. The archive holds every
//! distinct game found within a band below the best score, from which each
//! round draws the game to perturb.
use crate::game::line::Dir;
use crate::game::moves::Move;
use crate::search::nrpa::copy_moves;
use rustc_hash::FxHasher;
use std::hash::{Hash, Hasher};
use vstd::prelude::*;
use vstd::relations::{sorted_by, total_ordering};

verus! {

/// The move sequences of the archived games.
pub open spec fn games_view(a: Seq<Vec<Move>>) -> Seq<Seq<Move>> {
    a.map_values(|g: Vec<Move>| g@)
}

/// Whether a game is at least `cutoff` moves long.
pub open spec fn long_enough(cutoff: int) -> spec_fn(Seq<Move>) -> bool {
    |g: Seq<Move>| g.len() >= cutoff
}

/// The bottom of the band kept below `best`: `best - window`, at least zero.
pub open spec fn band_cutoff(best: int, window: int) -> int {
    if best >= window {
        best - window
    } else {
        0
    }
}

/// `i` is the first of the shortest games of `s`.
pub open spec fn first_shortest(s: Seq<Seq<Move>>, i: int) -> bool {
    &&& 0 <= i < s.len()
    &&& forall|j: int| 0 <= j < s.len() ==> s[i].len() <= #[trigger] s[j].len()
    &&& forall|j: int| 0 <= j < i ==> s[i].len() < #[trigger] s[j].len()
}

/// `s` without its first shortest game, whose place the last game takes.
pub open spec fn drop_shortest(s: Seq<Seq<Move>>) -> Seq<Seq<Move>> {
    let i = choose|i: int| first_shortest(s, i);
    s.update(i, s.last()).drop_last()
}

/// The archive `a` after entering `cand`, with `best` the best score counting
/// `cand`: a candidate within `window` of the best joins the archive, games
/// that fell below the band leave it, and when more than `cap` games remain
/// the first shortest one leaves. A candidate below the band changes nothing.
pub open spec fn after_archiving(a: Seq<Seq<Move>>, cand: Seq<Move>, best: int, window: int, cap: int) -> Seq<
    Seq<Move>,
> {
    if cand.len() + window >= best {
        let f = a.push(cand).filter(long_enough(band_cutoff(best, window)));
        if f.len() > cap {
            drop_shortest(f)
        } else {
            f
        }
    } else {
        a
    }
}

/// The first shortest game is unique.
pub proof fn lemma_first_shortest_unique(s: Seq<Seq<Move>>, i: int, j: int)
    requires
        first_shortest(s, i),
        first_shortest(s, j),
    ensures
        i == j,
{
    if i < j {
        assert(s[j].len() < s[i].len());
        assert(s[i].len() <= s[j].len());
    } else if j < i {
        assert(s[i].len() < s[j].len());
        assert(s[j].len() <= s[i].len());
    }
}

/// How many moves of a parent game of `parent_len` moves a round may destroy:
/// a count drawn from `k_min` up to `k_max`, capped below the parent's length
/// but never below `k_min`.
pub fn destroy_range(parent_len: usize, k_min: usize, k_max: usize) -> (r: (usize, usize))
    ensures
        r.0 == k_min,
        r.1 == if k_max < parent_len - 1 {
            if k_max >= k_min {
                k_max as int
            } else {
                k_min as int
            }
        } else if parent_len >= 1 && parent_len - 1 >= k_min {
            parent_len - 1
        } else {
            k_min as int
        },
        r.0 <= r.1,
{
    let cap = if parent_len >= 1 {
        parent_len - 1
    } else {
        0
    };
    let hi = if k_max < cap {
        k_max
    } else {
        cap
    };
    if hi >= k_min {
        (k_min, hi)
    } else {
        (k_min, k_min)
    }
}

/// Copy the games of `a` that are at least `cutoff` moves long, in order.
fn keep_long(a: &Vec<Vec<Move>>, cutoff: usize) -> (r: Vec<Vec<Move>>)
    ensures
        games_view(r@) == games_view(a@).filter(long_enough(cutoff as int)),
{
    let ghost pred = long_enough(cutoff as int);
    let mut out: Vec<Vec<Move>> = Vec::new();
    let mut i: usize = 0;
    proof {
        reveal(Seq::filter);
        assert(games_view(a@).take(0) =~= Seq::<Seq<Move>>::empty());
        assert(games_view(out@) =~= games_view(a@).take(0).filter(pred));
    }
    while i < a.len()
        invariant
            i <= a@.len(),
            pred == long_enough(cutoff as int),
            games_view(out@) == games_view(a@).take(i as int).filter(pred),
        decreases a@.len() - i,
    {
        let ghost before = games_view(a@).take(i as int);
        let ghost after = games_view(a@).take(i as int + 1);
        proof {
            assert(after.drop_last() =~= before);
            assert(after.last() == a@[i as int]@);
            reveal(Seq::filter);
        }
        if a[i].len() >= cutoff {
            let g = copy_moves(a[i].as_slice());
            let ghost o = out@;
            out.push(g);
            proof {
                assert(games_view(out@) =~= games_view(o).push(g@));
            }
        }
        i = i + 1;
    }
    proof {
        assert(games_view(a@).take(a@.len() as int) =~= games_view(a@));
    }
    out
}

/// The index of the first shortest game of a nonempty archive.
fn first_shortest_index(a: &Vec<Vec<Move>>) -> (r: usize)
    requires
        a@.len() > 0,
    ensures
        first_shortest(games_view(a@), r as int),
{
    let ghost s = games_view(a@);
    let mut best: usize = 0;
    let mut j: usize = 1;
    while j < a.len()
        invariant
            1 <= j <= a@.len(),
            best < j,
            s == games_view(a@),
            forall|t: int| 0 <= t < j ==> s[best as int].len() <= #[trigger] s[t].len(),
            forall|t: int| 0 <= t < best ==> s[best as int].len() < #[trigger] s[t].len(),
        decreases a@.len() - j,
    {
        if a[j].len() < a[best].len() {
            best = j;
        }
        j = j + 1;
    }
    best
}

/// Enter a newly found game `cand` in the archive of a perturbation
/// search, `best` being the best score so far. Returns whether `cand` beats
/// it, in which case `cand`'s length becomes the best score. A candidate
/// within `window` of the best joins the archive; every game then below the
/// band `best - window` leaves it, and when more than `cap` games remain the
/// first shortest one leaves, the last game taking its place.
pub fn archive_game(archive: &mut Vec<Vec<Move>>, best: &mut usize, cand: &[Move], window: usize, cap: usize) -> (improved: bool)
    ensures
        improved == (cand@.len() > *old(best)),
        *final(best) == if improved {
            cand@.len() as int
        } else {
            *old(best) as int
        },
        games_view(final(archive)@) == after_archiving(
            games_view(old(archive)@),
            cand@,
            *final(best) as int,
            window as int,
            cap as int,
        ),
{
    let improved = cand.len() > *best;
    if improved {
        *best = cand.len();
    }
    let cutoff: usize = if *best >= window {
        *best - window
    } else {
        0
    };
    if cand.len() < cutoff {
        return improved;
    }
    let ghost a0 = games_view(archive@);
    let ghost pred = long_enough(cutoff as int);
    let mut kept = keep_long(archive, cutoff);
    let c = copy_moves(cand);
    let ghost k0 = kept@;
    kept.push(c);
    proof {
        let full = a0.push(cand@);
        assert(full.drop_last() =~= a0);
        assert(full.last() == cand@);
        reveal(Seq::filter);
        assert(full.filter(pred) == a0.filter(pred).push(cand@));
        assert(games_view(kept@) =~= games_view(k0).push(c@));
        assert(cand@.len() + window >= *best);
    }
    if kept.len() > cap {
        let i = first_shortest_index(&kept);
        let ghost f = games_view(kept@);
        let ghost kb = kept@;
        let _dropped = kept.swap_remove(i);
        proof {
            let j = choose|j: int| first_shortest(f, j);
            lemma_first_shortest_unique(f, i as int, j);
            assert(games_view(kept@) =~= f.update(i as int, f.last()).drop_last());
        }
    }
    *archive = kept;
    improved
}

/// A nonempty list of games has a first shortest one.
pub proof fn lemma_first_shortest_exists(s: Seq<Seq<Move>>)
    requires
        s.len() > 0,
    ensures
        exists|i: int| first_shortest(s, i),
    decreases s.len(),
{
    if s.len() == 1 {
        assert(first_shortest(s, 0));
    } else {
        let d = s.drop_last();
        lemma_first_shortest_exists(d);
        let i = choose|i: int| first_shortest(d, i);
        assert(forall|j: int| 0 <= j < d.len() ==> d[j] == s[j]);
        if s.last().len() < s[i].len() {
            assert(first_shortest(s, s.len() - 1));
        } else {
            assert(first_shortest(s, i));
        }
    }
}

/// Archiving keeps the archive's invariant: when every archived game lies
/// within `window` of the best score `old_best` and there are at most `cap`
/// of them, the same holds after entering any candidate, with the best score
/// raised to the candidate's length when it is longer.
pub proof fn lemma_archive_band(a: Seq<Seq<Move>>, cand: Seq<Move>, old_best: nat, window: nat, cap: nat)
    requires
        forall|i: int| 0 <= i < a.len() ==> #[trigger] a[i].len() >= band_cutoff(old_best as int, window as int),
        a.len() <= cap,
    ensures
        ({
            let best = if cand.len() > old_best {
                cand.len() as int
            } else {
                old_best as int
            };
            let r = after_archiving(a, cand, best, window as int, cap as int);
            &&& forall|i: int| 0 <= i < r.len() ==> #[trigger] r[i].len() >= band_cutoff(best, window as int)
            &&& r.len() <= cap
        }),
{
    let best = if cand.len() > old_best {
        cand.len() as int
    } else {
        old_best as int
    };
    let cut = band_cutoff(best, window as int);
    if cand.len() + window >= best {
        let pred = long_enough(cut);
        let full = a.push(cand);
        let f = full.filter(pred);
        full.lemma_filter_len(pred);
        assert forall|i: int| 0 <= i < f.len() implies #[trigger] f[i].len() >= cut by {
            full.lemma_filter_pred(pred, i);
        }
        if f.len() > cap {
            lemma_first_shortest_exists(f);
            let k = choose|k: int| first_shortest(f, k);
            let r = f.update(k, f.last()).drop_last();
            assert(r == drop_shortest(f));
            assert forall|i: int| 0 <= i < r.len() implies #[trigger] r[i].len() >= cut by {
                if i == k {
                    assert(r[i] == f[f.len() - 1]);
                } else {
                    assert(r[i] == f[i]);
                }
            }
        }
    } else {
        assert(cand.len() <= old_best);
    }
}

/// The key of one move: its point, its line's origin, the number of its
/// line's direction, and its place on the line.
pub type MoveKeyEntry = (i16, i16, i16, i16, u8, u8);

/// The number of a direction, in declaration order.
pub open spec fn dir_number(d: Dir) -> u8 {
    match d {
        Dir::H => 0,
        Dir::V => 1,
        Dir::DP => 2,
        Dir::DN => 3,
    }
}

/// The key of move `m`.
pub open spec fn entry_of(m: Move) -> MoveKeyEntry {
    (m.pos.0, m.pos.1, m.line.origin.0, m.line.origin.1, dir_number(m.line.dir), m.line_pos)
}

/// The keys of a game's moves, in play order.
pub open spec fn game_entries(g: Seq<Move>) -> Seq<MoveKeyEntry> {
    g.map_values(|m: Move| entry_of(m))
}

/// Lexicographic order of keys.
pub open spec fn entry_le(a: MoveKeyEntry, b: MoveKeyEntry) -> bool {
    if a.0 != b.0 {
        a.0 < b.0
    } else if a.1 != b.1 {
        a.1 < b.1
    } else if a.2 != b.2 {
        a.2 < b.2
    } else if a.3 != b.3 {
        a.3 < b.3
    } else if a.4 != b.4 {
        a.4 < b.4
    } else {
        a.5 <= b.5
    }
}

/// [`entry_le`] as a relation.
pub open spec fn entry_order() -> spec_fn(MoveKeyEntry, MoveKeyEntry) -> bool {
    |a: MoveKeyEntry, b: MoveKeyEntry| entry_le(a, b)
}

/// The keys of a game in lexicographic order.
pub open spec fn sorted_entries_spec(g: Seq<Move>) -> Seq<MoveKeyEntry> {
    game_entries(g).sort_by(entry_order())
}

/// The order of keys is total.
pub proof fn lemma_entry_order_total()
    ensures
        total_ordering(entry_order()),
{
    let le = entry_order();
    assert forall|a: MoveKeyEntry, b: MoveKeyEntry| #[trigger] le(a, b) && #[trigger] le(b, a) implies a == b by {
        assert(entry_le(a, b) && entry_le(b, a));
    }
    assert forall|a: MoveKeyEntry, b: MoveKeyEntry, c: MoveKeyEntry| #[trigger] le(a, b) && #[trigger] le(
        b,
        c,
    ) implies le(a, c) by {
        assert(entry_le(a, b) && entry_le(b, c));
        assert(entry_le(a, c));
    }
    assert forall|a: MoveKeyEntry, b: MoveKeyEntry| #[trigger] le(a, b) || #[trigger] le(b, a) by {
        assert(entry_le(a, b) || entry_le(b, a));
    }
    assert forall|a: MoveKeyEntry| #[trigger] le(a, a) by {
        assert(entry_le(a, a));
    }
}

/// Games with the same moves have keys with the same multiset.
proof fn lemma_entries_multiset(g1: Seq<Move>, g2: Seq<Move>)
    requires
        g1.to_multiset() == g2.to_multiset(),
    ensures
        game_entries(g1).to_multiset() == game_entries(g2).to_multiset(),
    decreases g1.len(),
{
    broadcast use vstd::seq_lib::group_to_multiset_ensures;
    broadcast use vstd::multiset::group_multiset_axioms;

    if g1.len() == 0 {
        assert(g2.to_multiset().len() == 0);
        assert(g2.len() == 0);
        assert(game_entries(g1) =~= game_entries(g2));
    } else {
        let x = g1[0];
        assert(g1.to_multiset().count(x) > 0);
        assert(g2.contains(x));
        let j = choose|j: int| 0 <= j < g2.len() && g2[j] == x;
        let r1 = g1.drop_first();
        let r2 = g2.remove(j);
        assert(g1 =~= seq![x] + r1);
        assert(g1.to_multiset() == r1.to_multiset().insert(x)) by {
            assert(g1.remove(0) =~= r1);
            vstd::seq_lib::to_multiset_remove(g1, 0);
        }
        vstd::seq_lib::to_multiset_remove(g2, j);
        assert(r1.to_multiset() =~= r2.to_multiset());
        lemma_entries_multiset(r1, r2);
        let e1 = game_entries(g1);
        let e2 = game_entries(g2);
        assert(e1.remove(0) =~= game_entries(r1));
        assert(e2.remove(j) =~= game_entries(r2));
        vstd::seq_lib::to_multiset_remove(e1, 0);
        vstd::seq_lib::to_multiset_remove(e2, j);
        assert(e1[0] == entry_of(x));
        assert(e2[j] == entry_of(x));
        assert(e1.to_multiset().count(entry_of(x)) > 0);
        assert(e2.to_multiset().count(entry_of(x)) > 0);
        assert(e1.to_multiset() =~= game_entries(r1).to_multiset().insert(entry_of(x)));
        assert(e2.to_multiset() =~= game_entries(r2).to_multiset().insert(entry_of(x)));
    }
}

/// The sorted keys of a game do not depend on the order in which its moves
/// were played: two games with the same moves have the same sorted keys.
pub proof fn lemma_sorted_entries_order_invariant(g1: Seq<Move>, g2: Seq<Move>)
    requires
        g1.to_multiset() == g2.to_multiset(),
    ensures
        sorted_entries_spec(g1) == sorted_entries_spec(g2),
{
    lemma_entry_order_total();
    lemma_entries_multiset(g1, g2);
    game_entries(g1).lemma_sort_by_ensures(entry_order());
    game_entries(g2).lemma_sort_by_ensures(entry_order());
    vstd::seq_lib::lemma_sorted_unique(sorted_entries_spec(g1), sorted_entries_spec(g2), entry_order());
}

/// The key of one move.
fn entry(m: &Move) -> (r: MoveKeyEntry)
    ensures
        r == entry_of(*m),
{
    let d: u8 = match m.line.dir {
        Dir::H => 0,
        Dir::V => 1,
        Dir::DP => 2,
        Dir::DN => 3,
    };
    (m.pos.0, m.pos.1, m.line.origin.0, m.line.origin.1, d, m.line_pos)
}

/// Whether key `a` comes no later than key `b`.
fn entry_leq(a: &MoveKeyEntry, b: &MoveKeyEntry) -> (r: bool)
    ensures
        r == entry_le(*a, *b),
{
    if a.0 != b.0 {
        a.0 < b.0
    } else if a.1 != b.1 {
        a.1 < b.1
    } else if a.2 != b.2 {
        a.2 < b.2
    } else if a.3 != b.3 {
        a.3 < b.3
    } else if a.4 != b.4 {
        a.4 < b.4
    } else {
        a.5 <= b.5
    }
}

/// The keys of a game's moves in lexicographic order.
pub fn sorted_entries(game: &[Move]) -> (r: Vec<MoveKeyEntry>)
    ensures
        r@ == sorted_entries_spec(game@),
{
    broadcast use vstd::seq_lib::group_to_multiset_ensures;

    let ghost le = entry_order();
    proof {
        lemma_entry_order_total();
    }
    let mut out: Vec<MoveKeyEntry> = Vec::new();
    let mut i: usize = 0;
    proof {
        assert(game_entries(game@).take(0) =~= Seq::<MoveKeyEntry>::empty());
    }
    while i < game.len()
        invariant
            i <= game@.len(),
            le == entry_order(),
            total_ordering(le),
            sorted_by(out@, le),
            out@.to_multiset() == game_entries(game@).take(i as int).to_multiset(),
        decreases game@.len() - i,
    {
        let e = entry(&game[i]);
        let mut p: usize = 0;
        while p < out.len() && entry_leq(&out[p], &e)
            invariant
                p <= out@.len(),
                forall|j: int| 0 <= j < p ==> entry_le(#[trigger] out@[j], e),
            decreases out@.len() - p,
        {
            p = p + 1;
        }
        let ghost before = out@;
        proof {
            if p < before.len() {
                assert(!entry_le(before[p as int], e));
                assert(le(e, before[p as int]) || le(before[p as int], e));
            }
        }
        out.insert(p, e);
        proof {
            vstd::seq_lib::to_multiset_insert(before, p as int, e);
            let t = game_entries(game@).take(i as int + 1);
            assert(t =~= game_entries(game@).take(i as int).push(e));
            vstd::seq_lib::to_multiset_build(game_entries(game@).take(i as int), e);
            assert forall|a: int, b: int| 0 <= a < b < out@.len() implies #[trigger] le(out@[a], out@[b]) by {
                if b < p {
                    assert(out@[a] == before[a] && out@[b] == before[b]);
                } else if b == p {
                    assert(out@[a] == before[a]);
                } else if a < p {
                    assert(out@[a] == before[a] && out@[b] == before[b - 1]);
                    assert(le(before[a], e));
                    assert(le(e, before[p as int]));
                    if p < b - 1 {
                        assert(le(before[p as int], before[b - 1]));
                    }
                } else if a == p {
                    assert(out@[b] == before[b - 1]);
                    assert(le(e, before[p as int]));
                    if p < b - 1 {
                        assert(le(before[p as int], before[b - 1]));
                    }
                } else {
                    assert(out@[a] == before[a - 1] && out@[b] == before[b - 1]);
                }
            }
        }
        i = i + 1;
    }
    proof {
        assert(game_entries(game@).take(game@.len() as int) =~= game_entries(game@));
        game_entries(game@).lemma_sort_by_ensures(entry_order());
        vstd::seq_lib::lemma_sorted_unique(out@, sorted_entries_spec(game@), entry_order());
    }
    out
}

/// `FxHasher` over the sorted keys: the hash that `Hash` for a slice of key
/// tuples feeds a default `rustc_hash::FxHasher`, finished. Nothing is stated
/// of the value: the hasher mixes machine words, so the same keys hash
/// differently on machines of different word sizes.
#[verifier::external_body]
fn fx_hash_entries(keys: &[MoveKeyEntry]) -> u64 {
    let mut h = FxHasher::default();
    keys.hash(&mut h);
    h.finish()
}

/// Order-invariant key of a game, for the tabu set of a perturbation search:
/// the hash of its sorted move keys ([`sorted_entries`]), so the same game
/// found in another play order maps to one key.
pub fn game_key(game: &[Move]) -> u64 {
    let keys = sorted_entries(game);
    fx_hash_entries(keys.as_slice())
}

} // verus!
