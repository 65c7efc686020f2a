//! Mining games for frequent macro-action motifs: every window of `k`
//! consecutive moves, in canonical form, counted over a corpus of games.
use crate::game::moves::Move;
use crate::game::rules::{variant_len, Variant};
use crate::game::line::dir_index;
use crate::search::nrpa::macros::{
    canon_upto, canonical_spec, lemma_canon_upto, lemma_key_injective, lemma_lex_order, lemma_lex_total,
    lex_lt, motif_image, motif_lt, motif_small, rel_of, Motif, RelMove,
};
use rustc_hash::FxHashMap;
use vstd::prelude::*;

verus! {

/// The motif of a window of moves, anchored at its first move's point.
pub open spec fn window_motif(win: Seq<Move>) -> Seq<RelMove> {
    Seq::new(win.len(), |i: int| rel_of(win[i], win[0].pos))
}

/// The canonical motifs of the `k`-move windows of one game, in order.
pub open spec fn game_windows(g: Seq<Move>, k: int, n: int) -> Seq<Seq<RelMove>> {
    if g.len() < k {
        Seq::empty()
    } else {
        Seq::new(
            (g.len() - k + 1) as nat,
            |w: int| canonical_spec(window_motif(g.subrange(w, w + k)), n),
        )
    }
}

/// The games of a corpus as sequences of moves.
pub open spec fn games_view(games: Seq<Vec<Move>>) -> Seq<Seq<Move>> {
    games.map_values(|g: Vec<Move>| g@)
}

/// The canonical motifs of every `k`-move window of every game, game by game.
pub open spec fn corpus_windows(games: Seq<Seq<Move>>, k: int, n: int) -> Seq<Seq<RelMove>>
    decreases games.len(),
{
    if games.len() == 0 {
        Seq::empty()
    } else {
        corpus_windows(games.drop_last(), k, n) + game_windows(games.last(), k, n)
    }
}

/// How often `m` occurs in `s`.
pub open spec fn occurrences(s: Seq<Seq<RelMove>>, m: Seq<RelMove>) -> nat
    decreases s.len(),
{
    if s.len() == 0 {
        0
    } else {
        occurrences(s.drop_last(), m) + if s.last() == m {
            1nat
        } else {
            0nat
        }
    }
}

/// The mining order: more frequent first, then by key.
pub open spec fn mined_before(a: Seq<RelMove>, ca: nat, b: Seq<RelMove>, cb: nat) -> bool {
    ca > cb || (ca == cb && lex_lt(a, b))
}

/// The points of every move lie close enough to the origin that any window
/// makes a small motif.
pub open spec fn corpus_small(games: Seq<Seq<Move>>) -> bool {
    forall|g: int, i: int|
        0 <= g < games.len() && 0 <= i < games[g].len() ==> -7500 <= (#[trigger] games[g][i]).pos.0
            <= 7500 && -7500 <= games[g][i].pos.1 <= 7500
}

/// `out` tallies the motifs of `seen`: each once, of length `k`, with its
/// number of occurrences.
pub open spec fn tallies(out: Seq<(Motif, u32)>, seen: Seq<Seq<RelMove>>, k: int) -> bool {
    &&& forall|i: int|
        0 <= i < out.len() ==> seen.contains((#[trigger] out[i]).0.moves@) && out[i].1 == occurrences(
            seen,
            out[i].0.moves@,
        ) && out[i].0.moves@.len() == k
    &&& forall|m: Seq<RelMove>|
        seen.contains(m) ==> exists|i: int| 0 <= i < out.len() && (#[trigger] out[i]).0.moves@ == m
    &&& forall|i: int, j: int|
        0 <= i < j < out.len() ==> (#[trigger] out[i]).0.moves@ != (#[trigger] out[j]).0.moves@
}

/// One more element adds one occurrence of itself and none of anything else.
proof fn lemma_occurrences_push(s: Seq<Seq<RelMove>>, x: Seq<RelMove>, m: Seq<RelMove>)
    ensures
        occurrences(s.push(x), m) == occurrences(s, m) + if x == m {
            1nat
        } else {
            0nat
        },
{
    assert(s.push(x).drop_last() =~= s);
}

/// An element that does not occur in `s` has no occurrences there.
proof fn lemma_occurrences_absent(s: Seq<Seq<RelMove>>, m: Seq<RelMove>)
    requires
        !s.contains(m),
    ensures
        occurrences(s, m) == 0,
    decreases s.len(),
{
    if s.len() > 0 {
        assert(!s.drop_last().contains(m)) by {
            if s.drop_last().contains(m) {
                let i = choose|i: int| 0 <= i < s.drop_last().len() && s.drop_last()[i] == m;
                assert(s[i] == m);
            }
        }
        lemma_occurrences_absent(s.drop_last(), m);
        assert(s.last() != m) by {
            if s.last() == m {
                assert(s[s.len() - 1] == m);
            }
        }
    }
}

/// Canonical forms keep the motif's length.
proof fn lemma_canonical_len(m: Seq<RelMove>, n: int)
    ensures
        canonical_spec(m, n).len() == m.len(),
{
    lemma_canon_upto(m, n, 8);
    let u = choose|u: int| 0 <= u < 8 && canon_upto(m, n, 8) == #[trigger] motif_image(m, u, n);
}

/// The key of a motif: its relative moves as tuples (see [`Motif::key`]).
pub open spec fn motif_key(ms: Seq<RelMove>) -> Seq<(i16, i16, u8, u8)> {
    Seq::new(ms.len(), |i: int| (ms[i].d.0, ms[i].d.1, dir_index(ms[i].dir), ms[i].line_pos))
}

/// What a tally map holds: under each motif key, the motif and its count.
pub uninterp spec fn fx_tally_contents(m: FxHashMap<Vec<(i16, i16, u8, u8)>, (Motif, u32)>) -> Map<
    Seq<(i16, i16, u8, u8)>,
    (Seq<RelMove>, u32),
>;

/// The tally with nothing counted.
pub open spec fn empty_tally() -> Map<Seq<(i16, i16, u8, u8)>, (Seq<RelMove>, u32)> {
    Map::empty()
}

/// `FxHashMap::default`: an empty map.
#[verifier::external_body]
fn fx_tally_new() -> (r: FxHashMap<Vec<(i16, i16, u8, u8)>, (Motif, u32)>)
    ensures
        fx_tally_contents(r) == empty_tally(),
{
    FxHashMap::default()
}

/// `get(k)` on an `FxHashMap`, keeping the count: the count under `k`, if
/// present.
#[verifier::external_body]
fn fx_tally_count(m: &FxHashMap<Vec<(i16, i16, u8, u8)>, (Motif, u32)>, k: &Vec<(i16, i16, u8, u8)>) -> (r: Option<
    u32,
>)
    ensures
        fx_tally_contents(*m).contains_key(k@) ==> r == Some(fx_tally_contents(*m)[k@].1),
        !fx_tally_contents(*m).contains_key(k@) ==> r is None,
{
    m.get(k).map(|e| e.1)
}

/// `insert(k, v)` on an `FxHashMap`: sets the value under `k` (keys equal by
/// content are one key), leaving the others alone.
#[verifier::external_body]
fn fx_tally_insert(m: &mut FxHashMap<Vec<(i16, i16, u8, u8)>, (Motif, u32)>, k: Vec<(i16, i16, u8, u8)>, v: (
    Motif,
    u32,
))
    ensures
        fx_tally_contents(*final(m)) == fx_tally_contents(*old(m)).insert(k@, (v.0.moves@, v.1)),
{
    m.insert(k, v);
}

/// `into_iter` on an `FxHashMap`, collected: the map's entries, each key once
/// (in the map's own order, which is left open).
#[verifier::external_body]
fn fx_tally_entries(m: FxHashMap<Vec<(i16, i16, u8, u8)>, (Motif, u32)>) -> (r: Vec<(Vec<(i16, i16, u8, u8)>, (Motif, u32))>)
    ensures
        r@.len() == fx_tally_contents(m).dom().len(),
        forall|i: int|
            0 <= i < r@.len() ==> fx_tally_contents(m).contains_key((#[trigger] r@[i]).0@) && fx_tally_contents(m)[r@[i].0@]
                == (r@[i].1.0.moves@, r@[i].1.1),
        forall|i: int, j: int| 0 <= i < j < r@.len() ==> (#[trigger] r@[i]).0@ != (#[trigger] r@[j]).0@,
{
    m.into_iter().collect()
}

/// The map `c` tallies the motifs of `seen`: under each motif's key, the
/// motif (of length `k`) and its number of occurrences.
pub open spec fn tally_map(c: Map<Seq<(i16, i16, u8, u8)>, (Seq<RelMove>, u32)>, seen: Seq<Seq<RelMove>>, k: int) -> bool {
    &&& c.dom().finite()
    &&& forall|key: Seq<(i16, i16, u8, u8)>|
        #[trigger] c.contains_key(key) ==> seen.contains(c[key].0) && c[key].1 == occurrences(seen, c[key].0)
            && c[key].0.len() == k && motif_key(c[key].0) == key
    &&& forall|m: Seq<RelMove>| seen.contains(m) ==> #[trigger] c.contains_key(motif_key(m))
}

/// Motifs with one key are one motif.
proof fn lemma_motif_key_injective(a: Seq<RelMove>, b: Seq<RelMove>)
    requires
        motif_key(a) == motif_key(b),
    ensures
        a == b,
{
    assert(a.len() == motif_key(a).len());
    assert forall|i: int| 0 <= i < a.len() implies a[i] == b[i] by {
        assert(motif_key(a)[i] == motif_key(b)[i]);
        lemma_key_injective(a[i], b[i]);
    }
    assert(a =~= b);
}

/// Count one more occurrence of `m` in the tally `map` of `seen`.
fn tally_add(
    map: &mut FxHashMap<Vec<(i16, i16, u8, u8)>, (Motif, u32)>,
    m: Motif,
    Ghost(seen): Ghost<Seq<Seq<RelMove>>>,
    Ghost(k): Ghost<int>,
)
    requires
        tally_map(fx_tally_contents(*old(map)), seen, k),
        m.moves@.len() == k,
        seen.len() + 1 <= u32::MAX,
    ensures
        tally_map(fx_tally_contents(*final(map)), seen.push(m.moves@), k),
{
    let ghost c0 = fx_tally_contents(*map);
    let ghost mm = m.moves@;
    let ghost s2 = seen.push(mm);
    let key = m.key();
    proof {
        assert(key@ =~= motif_key(mm));
    }
    let count = fx_tally_count(map, &key);
    let next: u32 = match count {
        Some(c) => {
            proof {
                let v = c0[key@];
                lemma_motif_key_injective(v.0, mm);
                lemma_occurrences_bound(seen, mm);
            }
            c + 1
        },
        None => {
            proof {
                if seen.contains(mm) {
                    assert(c0.contains_key(motif_key(mm)));
                }
                lemma_occurrences_absent(seen, mm);
            }
            1
        },
    };
    proof {
        lemma_occurrences_push(seen, mm, mm);
    }
    fx_tally_insert(map, key, (m, next));
    proof {
        let c1 = fx_tally_contents(*map);
        assert(c1.dom() =~= c0.dom().insert(motif_key(mm)));
        assert forall|key2: Seq<(i16, i16, u8, u8)>| #[trigger] c1.contains_key(key2) implies s2.contains(c1[key2].0)
            && c1[key2].1 == occurrences(s2, c1[key2].0) && c1[key2].0.len() == k && motif_key(c1[key2].0) == key2 by {
            if key2 == motif_key(mm) {
                assert(s2[seen.len() as int] == mm);
            } else {
                let v = c0[key2];
                assert(seen.contains(v.0));
                let q = choose|q: int| 0 <= q < seen.len() && seen[q] == v.0;
                assert(s2[q] == v.0);
                lemma_occurrences_push(seen, mm, v.0);
            }
        }
        assert forall|x: Seq<RelMove>| s2.contains(x) implies #[trigger] c1.contains_key(motif_key(x)) by {
            let q = choose|q: int| 0 <= q < s2.len() && s2[q] == x;
            if q < seen.len() {
                assert(seen[q] == x);
                assert(seen.contains(x));
            }
        }
    }
}

/// The values of a tally map, listed once each with their keys, tally
/// `seen`.
proof fn lemma_tally_entries(
    c: Map<Seq<(i16, i16, u8, u8)>, (Seq<RelMove>, u32)>,
    pairs: Seq<(Vec<(i16, i16, u8, u8)>, (Motif, u32))>,
    vals: Seq<(Motif, u32)>,
    seen: Seq<Seq<RelMove>>,
    k: int,
)
    requires
        tally_map(c, seen, k),
        pairs.len() == c.dom().len(),
        forall|i: int|
            0 <= i < pairs.len() ==> c.contains_key((#[trigger] pairs[i]).0@) && c[pairs[i].0@] == (
                pairs[i].1.0.moves@,
                pairs[i].1.1,
            ),
        forall|i: int, j: int| 0 <= i < j < pairs.len() ==> (#[trigger] pairs[i]).0@ != (#[trigger] pairs[j]).0@,
        vals.len() == pairs.len(),
        forall|j: int| 0 <= j < vals.len() ==> #[trigger] vals[j] == pairs[pairs.len() - 1 - j].1,
    ensures
        tallies(vals, seen, k),
{
    let n = pairs.len() as int;
    let ks = pairs.map_values(|p: (Vec<(i16, i16, u8, u8)>, (Motif, u32))| p.0@);
    assert forall|a: int, b: int| 0 <= a < ks.len() && 0 <= b < ks.len() && a != b implies ks[a] != ks[b] by {
        if a < b {
            assert(pairs[a].0@ != pairs[b].0@);
        } else {
            assert(pairs[b].0@ != pairs[a].0@);
        }
    }
    assert(ks.no_duplicates());
    ks.unique_seq_to_set();
    assert forall|x: Seq<(i16, i16, u8, u8)>| ks.to_set().contains(x) implies c.dom().contains(x) by {
        let i = choose|i: int| 0 <= i < ks.len() && ks[i] == x;
        assert(c.contains_key(pairs[i].0@));
    }
    vstd::set_lib::lemma_subset_equality(ks.to_set(), c.dom());
    assert forall|j: int| 0 <= j < vals.len() implies seen.contains((#[trigger] vals[j]).0.moves@) && vals[j].1
        == occurrences(seen, vals[j].0.moves@) && vals[j].0.moves@.len() == k by {
        let p = pairs[n - 1 - j];
        assert(c.contains_key(p.0@));
    }
    assert forall|m: Seq<RelMove>| seen.contains(m) implies exists|j: int|
        0 <= j < vals.len() && (#[trigger] vals[j]).0.moves@ == m by {
        let key = motif_key(m);
        assert(c.contains_key(key));
        assert(ks.to_set().contains(key));
        let i = choose|i: int| 0 <= i < ks.len() && ks[i] == key;
        assert(c[pairs[i].0@] == (pairs[i].1.0.moves@, pairs[i].1.1));
        lemma_motif_key_injective(c[key].0, m);
        let j = n - 1 - i;
        assert(vals[j] == pairs[i].1);
    }
    assert forall|a: int, b: int| 0 <= a < b < vals.len() implies (#[trigger] vals[a]).0.moves@ != (
        #[trigger] vals[b]).0.moves@ by {
        let pa = pairs[n - 1 - a];
        let pb = pairs[n - 1 - b];
        assert(c.contains_key(pa.0@) && c.contains_key(pb.0@));
        if vals[a].0.moves@ == vals[b].0.moves@ {
            assert(motif_key(c[pa.0@].0) == pa.0@ && motif_key(c[pb.0@].0) == pb.0@);
            assert(pairs[n - 1 - b].0@ != pairs[n - 1 - a].0@);
        }
    }
}

/// A sequence holds no element more often than it is long.
proof fn lemma_occurrences_bound(s: Seq<Seq<RelMove>>, m: Seq<RelMove>)
    ensures
        occurrences(s, m) <= s.len(),
    decreases s.len(),
{
    if s.len() > 0 {
        lemma_occurrences_bound(s.drop_last(), m);
    }
}


/// The windows of the first `i + 1` games are those of the first `i` and then
/// those of game `i`.
proof fn lemma_corpus_step(g: Seq<Seq<Move>>, i: int, k: int, n: int)
    requires
        0 <= i < g.len(),
    ensures
        corpus_windows(g.take(i + 1), k, n) == corpus_windows(g.take(i), k, n) + game_windows(g[i], k, n),
{
    assert(g.take(i + 1).drop_last() =~= g.take(i));
    assert(g.take(i + 1).last() == g[i]);
}

/// The windows of a prefix of the games are no more than all of them.
proof fn lemma_corpus_prefix_len(g: Seq<Seq<Move>>, i: int, k: int, n: int)
    requires
        0 <= i <= g.len(),
    ensures
        corpus_windows(g.take(i), k, n).len() <= corpus_windows(g, k, n).len(),
    decreases g.len() - i,
{
    if i < g.len() {
        lemma_corpus_step(g, i, k, n);
        lemma_corpus_prefix_len(g, i + 1, k, n);
    } else {
        assert(g.take(i) =~= g);
    }
}

/// The canonical motifs of every `k`-move window of `games`, each once, with
/// the number of windows that have it.
fn tally_corpus(games: &Vec<Vec<Move>>, n: u8, k: usize) -> (r: Vec<(Motif, u32)>)
    requires
        k >= 1,
        4 <= n <= 5,
        corpus_small(games_view(games@)),
        corpus_windows(games_view(games@), k as int, n as int).len() < u32::MAX,
    ensures
        tallies(r@, corpus_windows(games_view(games@), k as int, n as int), k as int),
{
    let ghost gs = games_view(games@);
    let ghost ki = k as int;
    let ghost ni = n as int;
    let mut map = fx_tally_new();
    let ghost mut seen: Seq<Seq<RelMove>> = Seq::empty();
    proof {
        assert(gs.take(0) =~= Seq::<Seq<Move>>::empty());
    }
    let mut gi: usize = 0;
    while gi < games.len()
        invariant
            gi <= games@.len(),
            gs == games_view(games@),
            ki == k,
            ni == n,
            k >= 1,
            4 <= n <= 5,
            corpus_small(gs),
            corpus_windows(gs, ki, ni).len() < u32::MAX,
            seen == corpus_windows(gs.take(gi as int), ki, ni),
            tally_map(fx_tally_contents(map), seen, ki),
        decreases games@.len() - gi,
    {
        let g = &games[gi];
        proof {
            lemma_corpus_step(gs, gi as int, ki, ni);
            lemma_corpus_prefix_len(gs, gi + 1, ki, ni);
            assert(gs[gi as int] == g@);
        }
        let ghost base = seen;
        let glen = g.len();
        if glen >= k {
            let last = glen - k;
            let mut w: usize = 0;
            while w <= last
                invariant
                    w <= last + 1,
                    glen == g@.len(),
                    last == glen - k,
                    gi < games@.len(),
                    gs == games_view(games@),
                    g@ == gs[gi as int],
                    ki == k,
                    ni == n,
                    k >= 1,
                    4 <= n <= 5,
                    corpus_small(gs),
                    base.len() + game_windows(g@, ki, ni).len() < u32::MAX,
                    seen == base + game_windows(g@, ki, ni).take(w as int),
                    tally_map(fx_tally_contents(map), seen, ki),
                decreases last + 1 - w,
            {
                let mut win: Vec<Move> = Vec::new();
                let mut j: usize = 0;
                while j < k
                    invariant
                        j <= k,
                        glen == g@.len(),
                        w + k <= glen,
                        win@ == g@.subrange(w as int, w + j),
                    decreases k - j,
                {
                    win.push(g[w + j]);
                    proof {
                        assert(win@ =~= g@.subrange(w as int, w + j + 1));
                    }
                    j = j + 1;
                }
                proof {
                    assert forall|i: int| 0 <= i < win@.len() implies -7500 <= (#[trigger] win@[i]).pos.0 <= 7500
                        && -7500 <= win@[i].pos.1 <= 7500 by {
                        assert(gs.len() == games@.len());
                        assert(0 <= w + i < gs[gi as int].len());
                        assert(win@[i] == gs[gi as int][w + i]);
                    }
                }
                let mo = Motif::from_window(win.as_slice());
                proof {
                    assert(mo.moves@ =~= window_motif(win@));
                    assert(motif_small(mo.moves@));
                }
                let c = mo.canonical(n as i16);
                proof {
                    lemma_canonical_len(mo.moves@, ni);
                    assert(c.moves@ == game_windows(g@, ki, ni)[w as int]);
                    assert(seen.len() + 1 <= u32::MAX);
                }
                tally_add(&mut map, c, Ghost(seen), Ghost(ki));
                proof {
                    assert(seen.push(game_windows(g@, ki, ni)[w as int]) =~= base + game_windows(g@, ki, ni).take(
                        w + 1,
                    ));
                    seen = base + game_windows(g@, ki, ni).take(w + 1);
                }
                w = w + 1;
            }
            proof {
                assert(game_windows(g@, ki, ni).take(w as int) =~= game_windows(g@, ki, ni));
            }
        } else {
            proof {
                assert(game_windows(g@, ki, ni) =~= Seq::<Seq<RelMove>>::empty());
                assert(base + game_windows(g@, ki, ni) =~= base);
            }
        }
        gi = gi + 1;
    }
    proof {
        assert(gs.take(gi as int) =~= gs);
    }
    let ghost c = fx_tally_contents(map);
    let mut pairs = fx_tally_entries(map);
    let ghost p0 = pairs@;
    let mut out: Vec<(Motif, u32)> = Vec::new();
    while pairs.len() > 0
        invariant
            pairs@ == p0.take(pairs@.len() as int),
            out@.len() + pairs@.len() == p0.len(),
            forall|j: int| 0 <= j < out@.len() ==> #[trigger] out@[j] == p0[p0.len() - 1 - j].1,
        decreases pairs@.len(),
    {
        let ghost before = pairs@;
        let (_, e) = pairs.pop().unwrap();
        proof {
            assert(e == p0[before.len() - 1].1);
            assert(pairs@ =~= p0.take(before.len() - 1));
        }
        out.push(e);
    }
    proof {
        lemma_tally_entries(c, p0, out@, seen, ki);
    }
    out
}


/// `s` is strictly increasing in the mining order.
pub open spec fn mined_sorted(s: Seq<(Motif, u32)>) -> bool {
    forall|i: int, j: int|
        0 <= i < j < s.len() ==> mined_before(
            (#[trigger] s[i]).0.moves@,
            s[i].1 as nat,
            (#[trigger] s[j]).0.moves@,
            s[j].1 as nat,
        )
}

/// The windows of `games` that mining looks at, for `variant` and `k`.
pub open spec fn corpus_of(games: Seq<Vec<Move>>, variant: Variant, k: int) -> Seq<Seq<RelMove>> {
    corpus_windows(games_view(games), k, variant_len(variant) as int)
}

/// `r` lists each motif of `w` once with its number of occurrences, more
/// frequent first and then by key.
pub open spec fn mined_exactly(r: Seq<(Motif, u32)>, w: Seq<Seq<RelMove>>) -> bool {
    &&& forall|i: int|
        0 <= i < r.len() ==> w.contains((#[trigger] r[i]).0.moves@) && r[i].1 == occurrences(
            w,
            r[i].0.moves@,
        )
    &&& forall|m: Seq<RelMove>| w.contains(m) ==> exists|i: int| 0 <= i < r.len() && (#[trigger] r[i]).0.moves@ == m
    &&& mined_sorted(r)
}

/// The mining order is a strict order, total on different motifs of one
/// length.
pub proof fn lemma_mined_order(a: Seq<RelMove>, ca: nat, b: Seq<RelMove>, cb: nat, c: Seq<RelMove>, cc: nat)
    ensures
        !mined_before(a, ca, a, ca),
        mined_before(a, ca, b, cb) ==> !mined_before(b, cb, a, ca),
        mined_before(a, ca, b, cb) && mined_before(b, cb, c, cc) ==> mined_before(a, ca, c, cc),
        a.len() == b.len() && a != b ==> mined_before(a, ca, b, cb) || mined_before(b, cb, a, ca),
{
    lemma_lex_order(a, b, c);
    lemma_lex_order(a, a, a);
    lemma_lex_order(a, b, a);
    if a.len() == b.len() {
        lemma_lex_total(a, b, 0);
    }
}

/// Whether `e` comes before `f` in the mining order.
fn mined_lt(e: &(Motif, u32), f: &(Motif, u32)) -> (r: bool)
    ensures
        r == mined_before(e.0.moves@, e.1 as nat, f.0.moves@, f.1 as nat),
{
    e.1 > f.1 || (e.1 == f.1 && motif_lt(&e.0.moves, &f.0.moves))
}

/// The entries of `v` in the mining order.
fn sort_mined(v: Vec<(Motif, u32)>, Ghost(k): Ghost<int>) -> (r: Vec<(Motif, u32)>)
    requires
        forall|i: int| 0 <= i < v@.len() ==> (#[trigger] v@[i]).0.moves@.len() == k,
        forall|i: int, j: int| 0 <= i < j < v@.len() ==> (#[trigger] v@[i]).0.moves@ != (#[trigger] v@[j]).0.moves@,
    ensures
        mined_sorted(r@),
        r@.len() == v@.len(),
        forall|e: (Motif, u32)| r@.contains(e) <==> v@.contains(e),
{
    let ghost orig = v@;
    let mut src = v;
    let mut out: Vec<(Motif, u32)> = Vec::new();
    while src.len() > 0
        invariant
            src@.len() <= orig.len(),
            src@ == orig.take(src@.len() as int),
            out@.len() + src@.len() == orig.len(),
            forall|e: (Motif, u32)| out@.contains(e) <==> orig.subrange(src@.len() as int, orig.len() as int).contains(e),
            mined_sorted(out@),
            forall|i: int| 0 <= i < orig.len() ==> (#[trigger] orig[i]).0.moves@.len() == k,
            forall|i: int, j: int| 0 <= i < j < orig.len() ==> (#[trigger] orig[i]).0.moves@ != (#[trigger] orig[j]).0.moves@,
        decreases src@.len(),
    {
        let ghost s = src@.len() as int;
        let e = src.pop().unwrap();
        proof {
            assert(e == orig[s - 1]);
            assert(src@ =~= orig.take(s - 1));
        }
        let mut p: usize = 0;
        while p < out.len()
            invariant
                p <= out@.len(),
                forall|i: int| 0 <= i < p ==> mined_before(
                    (#[trigger] out@[i]).0.moves@,
                    out@[i].1 as nat,
                    e.0.moves@,
                    e.1 as nat,
                ),
            ensures
                p <= out@.len(),
                forall|i: int| 0 <= i < p ==> mined_before(
                    (#[trigger] out@[i]).0.moves@,
                    out@[i].1 as nat,
                    e.0.moves@,
                    e.1 as nat,
                ),
                p < out@.len() ==> !mined_before(out@[p as int].0.moves@, out@[p as int].1 as nat, e.0.moves@, e.1 as nat),
            decreases out@.len() - p,
        {
            if !mined_lt(&out[p], &e) {
                break;
            }
            p = p + 1;
        }
        let ghost old_out = out@;
        proof {
            assert forall|q: int| 0 <= q < old_out.len() implies (#[trigger] old_out[q]).0.moves@ != e.0.moves@
                && old_out[q].0.moves@.len() == k by {
                assert(old_out.contains(old_out[q]));
                let sub = orig.subrange(s, orig.len() as int);
                assert(sub.contains(old_out[q]));
                let t = choose|t: int| 0 <= t < sub.len() && sub[t] == old_out[q];
                assert(orig[s + t] == old_out[q]);
            }
            if p < old_out.len() {
                lemma_mined_order(
                    old_out[p as int].0.moves@,
                    old_out[p as int].1 as nat,
                    e.0.moves@,
                    e.1 as nat,
                    e.0.moves@,
                    e.1 as nat,
                );
            }
        }
        out.insert(p, e);
        proof {
            let nw = out@;
            assert(nw =~= old_out.insert(p as int, e));
            assert forall|i: int, j: int| 0 <= i < j < nw.len() implies mined_before(
                (#[trigger] nw[i]).0.moves@,
                nw[i].1 as nat,
                (#[trigger] nw[j]).0.moves@,
                nw[j].1 as nat,
            ) by {
                if j < p {
                    assert(nw[i] == old_out[i] && nw[j] == old_out[j]);
                } else if j == p {
                    assert(nw[i] == old_out[i] && nw[j] == e);
                } else if i > p {
                    assert(nw[i] == old_out[i - 1] && nw[j] == old_out[j - 1]);
                } else if i == p {
                    assert(nw[i] == e && nw[j] == old_out[j - 1]);
                    if j - 1 > p {
                        lemma_mined_order(
                            e.0.moves@,
                            e.1 as nat,
                            old_out[p as int].0.moves@,
                            old_out[p as int].1 as nat,
                            old_out[j - 1].0.moves@,
                            old_out[j - 1].1 as nat,
                        );
                    }
                } else {
                    assert(nw[i] == old_out[i] && nw[j] == old_out[j - 1]);
                    if j - 1 > p {
                        lemma_mined_order(
                            e.0.moves@,
                            e.1 as nat,
                            old_out[p as int].0.moves@,
                            old_out[p as int].1 as nat,
                            old_out[j - 1].0.moves@,
                            old_out[j - 1].1 as nat,
                        );
                    }
                    lemma_mined_order(
                        old_out[i].0.moves@,
                        old_out[i].1 as nat,
                        e.0.moves@,
                        e.1 as nat,
                        old_out[j - 1].0.moves@,
                        old_out[j - 1].1 as nat,
                    );
                }
            }
            let sub0 = orig.subrange(s, orig.len() as int);
            let sub1 = orig.subrange(s - 1, orig.len() as int);
            assert(sub1 =~= seq![e] + sub0);
            assert forall|x: (Motif, u32)| nw.contains(x) <==> sub1.contains(x) by {
                if nw.contains(x) {
                    let q = choose|q: int| 0 <= q < nw.len() && nw[q] == x;
                    if q < p {
                        assert(old_out[q] == x && old_out.contains(x));
                        let t = choose|t: int| 0 <= t < sub0.len() && sub0[t] == x;
                        assert(sub1[t + 1] == x);
                    } else if q > p {
                        assert(old_out[q - 1] == x && old_out.contains(x));
                        let t = choose|t: int| 0 <= t < sub0.len() && sub0[t] == x;
                        assert(sub1[t + 1] == x);
                    } else {
                        assert(sub1[0] == x);
                    }
                }
                if sub1.contains(x) {
                    let t = choose|t: int| 0 <= t < sub1.len() && sub1[t] == x;
                    if t == 0 {
                        assert(nw[p as int] == x);
                    } else {
                        assert(sub0[t - 1] == x && sub0.contains(x));
                        assert(old_out.contains(x));
                        let q = choose|q: int| 0 <= q < old_out.len() && old_out[q] == x;
                        if q < p {
                            assert(nw[q] == x);
                        } else {
                            assert(nw[q + 1] == x);
                        }
                    }
                }
            }
        }
    }
    proof {
        assert(orig.subrange(0, orig.len() as int) =~= orig);
    }
    out
}


/// Mine the distinct canonical `k`-move motifs of `games` (the games of one
/// variant) with their occurrence counts, summed over every window of `k`
/// consecutive moves of every game; most frequent first, then by key.
pub fn mine_motifs(games: &Vec<Vec<Move>>, variant: Variant, k: usize) -> (r: Vec<(Motif, u32)>)
    requires
        k >= 1,
        corpus_small(games_view(games@)),
        corpus_of(games@, variant, k as int).len() < u32::MAX,
    ensures
        mined_exactly(r@, corpus_of(games@, variant, k as int)),
{
    let n = variant.len();
    let tally = tally_corpus(games, n, k);
    let r = sort_mined(tally, Ghost(k as int));
    proof {
        let w = corpus_of(games@, variant, k as int);
        assert forall|i: int| 0 <= i < r@.len() implies w.contains((#[trigger] r@[i]).0.moves@) && r@[i].1
            == occurrences(w, r@[i].0.moves@) by {
            assert(r@.contains(r@[i]));
            assert(tally@.contains(r@[i]));
            let q = choose|q: int| 0 <= q < tally@.len() && tally@[q] == r@[i];
        }
        assert forall|m: Seq<RelMove>| w.contains(m) implies exists|i: int|
            0 <= i < r@.len() && (#[trigger] r@[i]).0.moves@ == m by {
            let q = choose|q: int| 0 <= q < tally@.len() && (#[trigger] tally@[q]).0.moves@ == m;
            assert(tally@.contains(tally@[q]));
            assert(r@.contains(tally@[q]));
            let i = choose|i: int| 0 <= i < r@.len() && r@[i] == tally@[q];
            assert(r@[i].0.moves@ == m);
        }
    }
    r
}

/// The `top_n` most frequent `k`-move motifs of `games` in the mining order
/// (all of them when `top_n` is 0).
pub fn motif_library(games: &Vec<Vec<Move>>, variant: Variant, k: usize, top_n: usize) -> (r: Vec<Motif>)
    requires
        k >= 1,
        corpus_small(games_view(games@)),
        corpus_of(games@, variant, k as int).len() < u32::MAX,
    ensures
        exists|mined: Seq<(Motif, u32)>|
            #![trigger mined_exactly(mined, corpus_of(games@, variant, k as int))]
            mined_exactly(mined, corpus_of(games@, variant, k as int)) && r@.len() == (if top_n > 0
                && mined.len() > top_n {
                top_n as int
            } else {
                mined.len() as int
            }) && forall|i: int| 0 <= i < r@.len() ==> (#[trigger] r@[i]).moves@ == mined[i].0.moves@,
{
    let mut mined = mine_motifs(games, variant, k);
    let ghost full = mined@;
    if top_n > 0 && mined.len() > top_n {
        mined.truncate(top_n);
    }
    let ghost kept = mined@;
    let mut out: Vec<Motif> = Vec::new();
    while mined.len() > 0
        invariant
            kept.len() == out@.len() + mined@.len(),
            mined@ == kept.skip(out@.len() as int),
            forall|i: int| 0 <= i < out@.len() ==> (#[trigger] out@[i]).moves@ == kept[i].0.moves@,
        decreases mined@.len(),
    {
        let ghost before = mined@;
        let e = mined.remove(0);
        proof {
            assert(e == kept[out@.len() as int]);
        }
        out.push(e.0);
        proof {
            assert(mined@ =~= kept.skip(out@.len() as int));
        }
    }
    proof {
        assert(kept =~= full.take(kept.len() as int));
        assert(mined_exactly(full, corpus_of(games@, variant, k as int)));
    }
    out
}


/// The motifs and counts of a mined list.
pub open spec fn mined_view(r: Seq<(Motif, u32)>) -> Seq<(Seq<RelMove>, nat)> {
    r.map_values(|e: (Motif, u32)| (e.0.moves@, e.1 as nat))
}

/// Two lists with the same entries, both strictly in the mining order, are
/// equal.
proof fn lemma_sorted_views_unique(a: Seq<(Seq<RelMove>, nat)>, b: Seq<(Seq<RelMove>, nat)>)
    requires
        forall|i: int, j: int| 0 <= i < j < a.len() ==> mined_before(#[trigger] a[i].0, a[i].1, #[trigger] a[j].0, a[j].1),
        forall|i: int, j: int| 0 <= i < j < b.len() ==> mined_before(#[trigger] b[i].0, b[i].1, #[trigger] b[j].0, b[j].1),
        forall|x: (Seq<RelMove>, nat)| a.contains(x) <==> b.contains(x),
    ensures
        a == b,
    decreases a.len(),
{
    if a.len() == 0 {
        if b.len() > 0 {
            assert(b.contains(b[0]));
        }
    } else {
        assert(a.contains(a[0]));
        assert(b.contains(b[0]));
        let q = choose|q: int| 0 <= q < b.len() && b[q] == a[0];
        let l = choose|l: int| 0 <= l < a.len() && a[l] == b[0];
        lemma_mined_order(a[0].0, a[0].1, b[0].0, b[0].1, a[0].0, a[0].1);
        if q > 0 && l > 0 {
            assert(mined_before(b[0].0, b[0].1, b[q].0, b[q].1));
            assert(mined_before(a[0].0, a[0].1, a[l].0, a[l].1));
        }
        assert(a[0] == b[0]);
        let a1 = a.drop_first();
        let b1 = b.drop_first();
        assert forall|x: (Seq<RelMove>, nat)| a1.contains(x) <==> b1.contains(x) by {
            if a1.contains(x) {
                let i = choose|i: int| 0 <= i < a1.len() && a1[i] == x;
                assert(a[i + 1] == x);
                assert(mined_before(a[0].0, a[0].1, a[i + 1].0, a[i + 1].1));
                lemma_mined_order(a[0].0, a[0].1, x.0, x.1, a[0].0, a[0].1);
                assert(a.contains(x));
                let t = choose|t: int| 0 <= t < b.len() && b[t] == x;
                assert(t != 0);
                assert(b1[t - 1] == x);
            }
            if b1.contains(x) {
                let i = choose|i: int| 0 <= i < b1.len() && b1[i] == x;
                assert(b[i + 1] == x);
                assert(mined_before(b[0].0, b[0].1, b[i + 1].0, b[i + 1].1));
                lemma_mined_order(b[0].0, b[0].1, x.0, x.1, b[0].0, b[0].1);
                assert(b.contains(x));
                let t = choose|t: int| 0 <= t < a.len() && a[t] == x;
                assert(t != 0);
                assert(a1[t - 1] == x);
            }
        }
        lemma_sorted_views_unique(a1, b1);
        assert(a =~= seq![a[0]] + a1);
        assert(b =~= seq![b[0]] + b1);
    }
}

/// Mining has one answer: any two lists that mine the same windows exactly
/// hold the same motifs with the same counts in the same order.
pub proof fn lemma_mined_unique(a: Seq<(Motif, u32)>, b: Seq<(Motif, u32)>, w: Seq<Seq<RelMove>>)
    requires
        mined_exactly(a, w),
        mined_exactly(b, w),
    ensures
        mined_view(a) == mined_view(b),
{
    let va = mined_view(a);
    let vb = mined_view(b);
    assert forall|x: (Seq<RelMove>, nat)| va.contains(x) <==> (w.contains(x.0) && x.1 == occurrences(w, x.0)) by {
        if va.contains(x) {
            let i = choose|i: int| 0 <= i < va.len() && va[i] == x;
            assert(va[i] == (a[i].0.moves@, a[i].1 as nat));
        }
        if w.contains(x.0) && x.1 == occurrences(w, x.0) {
            let i = choose|i: int| 0 <= i < a.len() && (#[trigger] a[i]).0.moves@ == x.0;
            assert(va[i] == x);
        }
    }
    assert forall|x: (Seq<RelMove>, nat)| vb.contains(x) <==> (w.contains(x.0) && x.1 == occurrences(w, x.0)) by {
        if vb.contains(x) {
            let i = choose|i: int| 0 <= i < vb.len() && vb[i] == x;
            assert(vb[i] == (b[i].0.moves@, b[i].1 as nat));
        }
        if w.contains(x.0) && x.1 == occurrences(w, x.0) {
            let i = choose|i: int| 0 <= i < b.len() && (#[trigger] b[i]).0.moves@ == x.0;
            assert(vb[i] == x);
        }
    }
    assert forall|i: int, j: int| 0 <= i < j < va.len() implies mined_before(#[trigger] va[i].0, va[i].1, #[trigger] va[j].0, va[j].1) by {
        assert(mined_before(a[i].0.moves@, a[i].1 as nat, a[j].0.moves@, a[j].1 as nat));
    }
    assert forall|i: int, j: int| 0 <= i < j < vb.len() implies mined_before(#[trigger] vb[i].0, vb[i].1, #[trigger] vb[j].0, vb[j].1) by {
        assert(mined_before(b[i].0.moves@, b[i].1 as nat, b[j].0.moves@, b[j].1 as nat));
    }
    lemma_sorted_views_unique(va, vb);
}

} // verus!
