//! Macro-action motifs: short move sequences stored relative to their first
//! move's point, folded to a D4-canonical orientation so that one motif
//! matches everywhere it geometrically fits.
use crate::game::board::{in_grid, in_margin, Pos};
use crate::game::line::{dir_delta, dir_index, line_point, pos_int, Dir, Line};
use crate::game::line_index::lines_conflict_spec;
use crate::game::moves::{is_legal, occupied_at, Move};
use crate::game::rules::{variant_forbid, variant_len, variant_touch_mode, TouchMode, Variant};
use crate::game::state::{lemma_undo_after_apply, placeable, view_apply, view_undo, GameState, GameView};
use rustc_hash::{FxBuildHasher, FxHashMap};
use crate::search::neural::features::{compose_t, inv_t, lemma_compose_table, lemma_lin_compose};
use crate::search::symmetry::{
    lin_transform, pos_le, pos_min, pos_min_spec, transform_dir, transform_dir_spec, transform_spec,
};
use crate::search::nrpa::move_playable;
use vstd::prelude::*;

verus! {

/// One move of a motif, relative to the motif's anchor (the first move's
/// point): `d` is the displacement of the move's point from the anchor, `dir`
/// its line direction and `line_pos` the point's index within the line.
#[derive(Clone, Copy, PartialEq, Eq, Hash, Debug)]
pub struct RelMove {
    pub d: (i16, i16),
    pub dir: Dir,
    pub line_pos: u8,
}

/// The comparison key of a relative move.
pub open spec fn rel_key(r: RelMove) -> (int, int, int, int) {
    (r.d.0 as int, r.d.1 as int, dir_index(r.dir) as int, r.line_pos as int)
}

/// Lexicographic order on keys.
pub open spec fn key_lt(a: (int, int, int, int), b: (int, int, int, int)) -> bool {
    a.0 < b.0 || (a.0 == b.0 && (a.1 < b.1 || (a.1 == b.1 && (a.2 < b.2 || (a.2 == b.2 && a.3
        < b.3)))))
}

/// Displacements small enough to transform and re-anchor.
pub open spec fn rel_small(r: RelMove) -> bool {
    -15000 <= r.d.0 <= 15000 && -15000 <= r.d.1 <= 15000
}

/// Line lengths for which the relative-move arithmetic stays in range.
pub open spec fn len_ok(n: int) -> bool {
    0 <= n <= 256
}

/// `r` under transform `t` for lines of length `n`: the displacement and the
/// direction are transformed, and the point's index is re-measured from the
/// transformed line's lexicographically smaller end.
pub open spec fn rel_transform(t: int, r: RelMove, n: int) -> RelMove {
    let dl = dir_delta(r.dir);
    let o = (r.d.0 - r.line_pos * dl.0, r.d.1 - r.line_pos * dl.1);
    let e = (o.0 + (n - 1) * dl.0, o.1 + (n - 1) * dl.1);
    let td = transform_spec(t, r.d.0 as int, r.d.1 as int, 0);
    let to = transform_spec(t, o.0, o.1, 0);
    let te = transform_spec(t, e.0, e.1, 0);
    let tdir = transform_dir_spec(t, r.dir);
    let no = pos_min_spec(to, te);
    let tl = dir_delta(tdir);
    let lp = if tl.0 != 0 {
        td.0 - no.0
    } else {
        td.1 - no.1
    };
    RelMove { d: (td.0 as i16, td.1 as i16), dir: tdir, line_pos: lp as u8 }
}

/// The relative move of `m` for the anchor `a`.
pub open spec fn rel_of(m: Move, a: Pos) -> RelMove {
    RelMove {
        d: ((m.pos.0 - a.0) as i16, (m.pos.1 - a.1) as i16),
        dir: m.line.dir,
        line_pos: m.line_pos,
    }
}

impl RelMove {
    /// Tuple form for lexicographic ordering.
    fn key(&self) -> (r: (i16, i16, u8, u8))
        ensures
            (r.0 as int, r.1 as int, r.2 as int, r.3 as int) == rel_key(*self),
    {
        (self.d.0, self.d.1, self.dir.index(), self.line_pos)
    }

    /// This relative move under transform `t` (anchor fixed), for lines of
    /// length `n`.
    #[verifier::spinoff_prover]
    #[verifier::rlimit(40)]
    fn transform(&self, t: usize, n: i16) -> (r: RelMove)
        requires
            t < 8,
            rel_small(*self),
            len_ok(n as int),
        ensures
            r == rel_transform(t as int, *self, n as int),
            -15000 <= r.d.0 <= 15000 && -15000 <= r.d.1 <= 15000,
    {
        let (dx, dy) = self.dir.delta();
        proof {
            crate::game::line::lemma_step_bound(self.line_pos as int, dx as int);
            crate::game::line::lemma_step_bound(self.line_pos as int, dy as int);
        }
        let origin = (self.d.0 - self.line_pos as i16 * dx, self.d.1 - self.line_pos as i16 * dy);
        let end: (i16, i16) = if n >= 1 {
            proof {
                crate::game::line::lemma_step_bound((n - 1) as int, dx as int);
                crate::game::line::lemma_step_bound((n - 1) as int, dy as int);
            }
            (origin.0 + (n - 1) * dx, origin.1 + (n - 1) * dy)
        } else {
            (origin.0 - dx, origin.1 - dy)
        };
        let td = lin_transform(t, self.d);
        let to = lin_transform(t, origin);
        let te = lin_transform(t, end);
        let tdir = transform_dir(t, self.dir);
        let new_origin = pos_min(to, te);
        let (tdx, tdy) = tdir.delta();
        let lp: i16 = if tdx != 0 {
            assert(tdx == 1);
            (td.0 - new_origin.0) / tdx
        } else {
            assert(tdy == 1);
            (td.1 - new_origin.1) / tdy
        };
        let r = RelMove { d: td, dir: tdir, line_pos: lp as u8 };
        proof {
            let ghost sp = rel_transform(t as int, *self, n as int);
            assert(r.dir == sp.dir);
            assert(r.d == sp.d);
            assert(r.line_pos == sp.line_pos);
        }
        r
    }
}

/// Strict lexicographic order on key sequences, decided at index `i`: the
/// keys agree before `i`, and at `i` the first is smaller or has ended.
pub open spec fn lex_lt_at(a: Seq<RelMove>, b: Seq<RelMove>, i: int) -> bool {
    &&& 0 <= i
    &&& forall|j: int| 0 <= j < i ==> rel_key(#[trigger] a[j]) == rel_key(b[j])
    &&& ((i < a.len() && i < b.len() && key_lt(rel_key(a[i]), rel_key(b[i]))) || (i == a.len()
        && i < b.len()))
}

/// Strict lexicographic order on motifs by their keys.
pub open spec fn lex_lt(a: Seq<RelMove>, b: Seq<RelMove>) -> bool {
    exists|i: int| lex_lt_at(a, b, i)
}

/// The motif `m` under transform `t`.
pub open spec fn motif_image(m: Seq<RelMove>, t: int, n: int) -> Seq<RelMove> {
    Seq::new(m.len(), |i: int| rel_transform(t, m[i], n))
}

/// The least image, by key, among transforms `0 .. k` (the first on ties).
pub open spec fn canon_upto(m: Seq<RelMove>, n: int, k: int) -> Seq<RelMove>
    decreases k,
{
    if k <= 1 {
        motif_image(m, 0, n)
    } else {
        let a = canon_upto(m, n, k - 1);
        let b = motif_image(m, k - 1, n);
        if lex_lt(b, a) {
            b
        } else {
            a
        }
    }
}

/// The canonical form of a motif: its least image over the 8 transforms.
pub open spec fn canonical_spec(m: Seq<RelMove>, n: int) -> Seq<RelMove> {
    canon_upto(m, n, 8)
}

/// Every relative move of `m` is small.
pub open spec fn motif_small(m: Seq<RelMove>) -> bool {
    forall|i: int| 0 <= i < m.len() ==> rel_small(#[trigger] m[i])
}

/// Left rotation by 13 bits.
pub open spec fn rotl13(x: u64) -> u64 {
    (x << 13u64) | (x >> 51u64)
}

/// One mixing step of the signature.
pub open spec fn sig_step(h: u64, v: u64) -> u64 {
    rotl13(h ^ v.wrapping_mul(0x9e3779b97f4a7c15u64)).wrapping_mul(0x100000001b3u64)
}

/// The signature state after mixing in one relative move.
pub open spec fn sig_move(h: u64, r: RelMove) -> u64 {
    let h1 = sig_step(h, (r.d.0 as i64) as u64);
    let h2 = sig_step(h1, (r.d.1 as i64) as u64);
    let h3 = sig_step(h2, dir_index(r.dir) as u64);
    sig_step(h3, r.line_pos as u64)
}

/// The signature state after mixing in the moves `s`, in order.
pub open spec fn sig_seq(h: u64, s: Seq<RelMove>) -> u64
    decreases s.len(),
{
    if s.len() == 0 {
        h
    } else {
        sig_move(sig_seq(h, s.drop_last()), s.last())
    }
}

/// The seed of the signature.
pub open spec fn sig_seed() -> u64 {
    0xcbf29ce484222325u64
}

/// The move that `r` becomes at anchor `a` under transform `t`.
pub open spec fn instance_spec(r: RelMove, a: Pos, t: int, n: int) -> Move {
    let tr = rel_transform(t, r, n);
    let pos = ((a.0 + tr.d.0) as i16, (a.1 + tr.d.1) as i16);
    let dl = dir_delta(tr.dir);
    Move {
        pos,
        line: Line {
            origin: ((pos.0 - tr.line_pos * dl.0) as i16, (pos.1 - tr.line_pos * dl.1) as i16),
            dir: tr.dir,
        },
        line_pos: tr.line_pos,
    }
}

/// A point whose displacements from other such points fit in `i16`.
pub open spec fn anchor_small(p: Pos) -> bool {
    -16000 <= p.0 <= 16000 && -16000 <= p.1 <= 16000
}

/// Compare two motifs by key.
pub(crate) fn motif_lt(a: &Vec<RelMove>, b: &Vec<RelMove>) -> (r: bool)
    ensures
        r == lex_lt(a@, b@),
{
    let mut i: usize = 0;
    while i < a.len() && i < b.len()
        invariant
            i <= a@.len(),
            i <= b@.len(),
            forall|j: int| 0 <= j < i ==> rel_key(#[trigger] a@[j]) == rel_key(b@[j]),
        decreases a@.len() - i,
    {
        let ka = a[i].key();
        let kb = b[i].key();
        if ka.0 != kb.0 || ka.1 != kb.1 || ka.2 != kb.2 || ka.3 != kb.3 {
            let lt = ka.0 < kb.0 || (ka.0 == kb.0 && (ka.1 < kb.1 || (ka.1 == kb.1 && (ka.2 < kb.2
                || (ka.2 == kb.2 && ka.3 < kb.3)))));
            proof {
                if lt {
                    assert(lex_lt_at(a@, b@, i as int));
                } else {
                    assert(rel_key(a@[i as int]) != rel_key(b@[i as int]));
                    assert forall|k: int| !lex_lt_at(a@, b@, k) by {
                        if 0 <= k < i {
                            assert(rel_key(a@[k]) == rel_key(b@[k]));
                        }
                    }
                }
            }
            return lt;
        }
        i = i + 1;
    }
    let r = i == a.len() && i < b.len();
    proof {
        if r {
            assert(lex_lt_at(a@, b@, i as int));
        } else {
            assert forall|k: int| !lex_lt_at(a@, b@, k) by {
                if 0 <= k < i {
                    assert(rel_key(a@[k]) == rel_key(b@[k]));
                }
            }
        }
    }
    r
}

/// A motif: an ordered list of relative moves, the first at displacement
/// `(0, 0)`.
#[derive(Clone, PartialEq, Eq, Hash, Debug)]
pub struct Motif {
    pub moves: Vec<RelMove>,
}

impl Motif {
    /// The motif of a window of consecutive moves, anchored at the first
    /// move's point.
    pub fn from_window(window: &[Move]) -> (r: Motif)
        requires
            window@.len() >= 1,
            forall|i: int| 0 <= i < window@.len() ==> anchor_small(#[trigger] window@[i].pos),
        ensures
            r.moves@ == Seq::new(window@.len(), |i: int| rel_of(window@[i], window@[0].pos)),
    {
        let a = window[0].pos;
        let mut moves: Vec<RelMove> = Vec::new();
        let mut i: usize = 0;
        while i < window.len()
            invariant
                i <= window@.len(),
                a == window@[0].pos,
                anchor_small(a),
                forall|k: int| 0 <= k < window@.len() ==> anchor_small(#[trigger] window@[k].pos),
                moves@ == Seq::new(i as nat, |k: int| rel_of(window@[k], a)),
            decreases window@.len() - i,
        {
            let m = window[i];
            moves.push(
                RelMove { d: (m.pos.0 - a.0, m.pos.1 - a.1), dir: m.line.dir, line_pos: m.line_pos },
            );
            proof {
                assert(moves@ =~= Seq::new((i + 1) as nat, |k: int| rel_of(window@[k], a)));
            }
            i = i + 1;
        }
        Motif { moves }
    }

    /// Comparable key: the ordered relative-move tuples.
    pub fn key(&self) -> (r: Vec<(i16, i16, u8, u8)>)
        ensures
            r@.len() == self.moves@.len(),
            forall|i: int|
                0 <= i < r@.len() ==> ((#[trigger] r@[i]).0 as int, r@[i].1 as int, r@[i].2 as int, r@[i].3 as int)
                    == rel_key(self.moves@[i]),
    {
        let mut out: Vec<(i16, i16, u8, u8)> = Vec::new();
        let mut i: usize = 0;
        while i < self.moves.len()
            invariant
                i <= self.moves@.len(),
                out@.len() == i,
                forall|k: int|
                    0 <= k < i ==> ((#[trigger] out@[k]).0 as int, out@[k].1 as int, out@[k].2 as int, out@[k].3 as int)
                        == rel_key(self.moves@[k]),
            decreases self.moves@.len() - i,
        {
            let k = self.moves[i].key();
            out.push(k);
            i = i + 1;
        }
        out
    }

    /// This motif under transform `t`.
    pub fn transformed(&self, t: usize, n: i16) -> (r: Motif)
        requires
            t < 8,
            motif_small(self.moves@),
            len_ok(n as int),
        ensures
            r.moves@ == motif_image(self.moves@, t as int, n as int),
            motif_small(r.moves@),
    {
        let mut out: Vec<RelMove> = Vec::new();
        let mut i: usize = 0;
        while i < self.moves.len()
            invariant
                i <= self.moves@.len(),
                t < 8,
                motif_small(self.moves@),
                len_ok(n as int),
                out@ == motif_image(self.moves@, t as int, n as int).take(i as int),
                motif_small(out@),
            decreases self.moves@.len() - i,
        {
            let r = self.moves[i].transform(t, n);
            out.push(r);
            proof {
                assert(out@ =~= motif_image(self.moves@, t as int, n as int).take(i + 1));
            }
            i = i + 1;
        }
        proof {
            assert(out@ =~= motif_image(self.moves@, t as int, n as int));
        }
        Motif { moves: out }
    }

    /// The canonical form: the least of the 8 images by key (the first on
    /// ties), so that motifs equal up to symmetry share one form.
    pub fn canonical(&self, n: i16) -> (r: Motif)
        requires
            motif_small(self.moves@),
            len_ok(n as int),
        ensures
            r.moves@ == canonical_spec(self.moves@, n as int),
            motif_small(r.moves@),
    {
        let mut best = self.transformed(0, n);
        let mut t: usize = 1;
        while t < 8
            invariant
                1 <= t <= 8,
                motif_small(self.moves@),
                len_ok(n as int),
                best.moves@ == canon_upto(self.moves@, n as int, t as int),
                motif_small(best.moves@),
            decreases 8 - t,
        {
            let img = self.transformed(t, n);
            if motif_lt(&img.moves, &best.moves) {
                best = img;
            }
            t = t + 1;
        }
        best
    }

    /// 64-bit signature of the canonical form: the symmetry-invariant action
    /// code of the motif.
    pub fn signature(&self, n: i16) -> (r: u64)
        requires
            motif_small(self.moves@),
            len_ok(n as int),
        ensures
            r == sig_seq(sig_seed(), canonical_spec(self.moves@, n as int)),
    {
        let canon = self.canonical(n);
        let mut h: u64 = 0xcbf29ce484222325;
        let mut i: usize = 0;
        while i < canon.moves.len()
            invariant
                i <= canon.moves@.len(),
                h == sig_seq(sig_seed(), canon.moves@.take(i as int)),
            decreases canon.moves@.len() - i,
        {
            let m = canon.moves[i];
            let vals: [u64; 4] = [m.d.0 as i64 as u64, m.d.1 as i64 as u64, m.dir.index() as u64, m.line_pos as u64];
            let ghost h0 = h;
            let mut j: usize = 0;
            while j < 4
                invariant
                    j <= 4,
                    vals@ == seq![(m.d.0 as i64) as u64, (m.d.1 as i64) as u64, dir_index(m.dir) as u64, m.line_pos as u64],
                    h == (if j == 0 {
                        h0
                    } else if j == 1 {
                        sig_step(h0, vals@[0])
                    } else if j == 2 {
                        sig_step(sig_step(h0, vals@[0]), vals@[1])
                    } else if j == 3 {
                        sig_step(sig_step(sig_step(h0, vals@[0]), vals@[1]), vals@[2])
                    } else {
                        sig_step(sig_step(sig_step(sig_step(h0, vals@[0]), vals@[1]), vals@[2]), vals@[3])
                    }),
                decreases 4 - j,
            {
                let v = vals[j];
                h = h ^ v.wrapping_mul(0x9e3779b97f4a7c15);
                h = ((h << 13) | (h >> 51)).wrapping_mul(0x100000001b3);
                j = j + 1;
            }
            proof {
                assert(canon.moves@.take(i + 1).drop_last() =~= canon.moves@.take(i as int));
                assert(canon.moves@.take(i + 1).last() == m);
            }
            i = i + 1;
        }
        proof {
            assert(canon.moves@.take(canon.moves@.len() as int) =~= canon.moves@);
        }
        h
    }

    /// The moves of this motif at anchor `a` under orientation `t`, for lines
    /// of length `n` (geometry only; legality is for the caller to check).
    pub fn instantiate(&self, a: Pos, t: usize, n: u8) -> (r: Vec<Move>)
        requires
            t < 8,
            motif_small(self.moves@),
            anchor_small(a),
        ensures
            r@ == Seq::new(self.moves@.len(), |i: int| instance_spec(self.moves@[i], a, t as int, n as int)),
    {
        let mut out: Vec<Move> = Vec::new();
        let mut i: usize = 0;
        while i < self.moves.len()
            invariant
                i <= self.moves@.len(),
                t < 8,
                motif_small(self.moves@),
                anchor_small(a),
                out@ == Seq::new(i as nat, |k: int| instance_spec(self.moves@[k], a, t as int, n as int)),
            decreases self.moves@.len() - i,
        {
            let trm = self.moves[i].transform(t, n as i16);
            let pos = (a.0 + trm.d.0, a.1 + trm.d.1);
            proof {
                crate::game::line::lemma_small_steps_fit(pos, trm.dir, trm.line_pos as int);
            }
            let mv = Move::new(pos, Line::from_point(pos, trm.dir, trm.line_pos, n), trm.line_pos);
            proof {
                let dl = dir_delta(trm.dir);
                crate::game::line::lemma_step_bound(trm.line_pos as int, dl.0 as int);
                crate::game::line::lemma_step_bound(trm.line_pos as int, dl.1 as int);
                assert(mv == instance_spec(self.moves@[i as int], a, t as int, n as int));
            }
            out.push(mv);
            proof {
                assert(out@ =~= Seq::new((i + 1) as nat, |k: int| instance_spec(self.moves@[k], a, t as int, n as int)));
            }
            i = i + 1;
        }
        out
    }

    pub fn len(&self) -> (r: usize)
        ensures
            r == self.moves@.len(),
    {
        self.moves.len()
    }

    pub fn is_empty(&self) -> (r: bool)
        ensures
            r == (self.moves@.len() == 0),
    {
        self.moves.len() == 0
    }
}


/// Whether transform `t` maps the step of `d` onto the step of its image
/// direction (rather than onto its opposite).
pub open spec fn dir_pos(t: int, d: Dir) -> bool {
    let dl = dir_delta(d);
    let nl = dir_delta(transform_dir_spec(t, d));
    transform_spec(t, dl.0 as int, dl.1 as int, 0) == (nl.0 as int, nl.1 as int)
}

/// A move lies on its line at its index.
pub open spec fn on_own_line(m: Move) -> bool {
    pos_int(m.pos) == line_point(m.line, m.line_pos as int)
}

/// A transform maps a direction's step onto plus or minus the image
/// direction's step.
proof fn lemma_dir_image(t: int, d: Dir)
    requires
        0 <= t < 8,
    ensures
        ({
            let dl = dir_delta(d);
            let nl = dir_delta(transform_dir_spec(t, d));
            let td = transform_spec(t, dl.0 as int, dl.1 as int, 0);
            if dir_pos(t, d) {
                td == (nl.0 as int, nl.1 as int)
            } else {
                td == (-nl.0, -nl.1)
            }
        }),
{
}

/// Transforms act linearly on displacements.
proof fn lemma_lin_affine(t: int, x: int, y: int, c: int, dx: int, dy: int)
    requires
        0 <= t < 8,
    ensures
        transform_spec(t, x + c * dx, y + c * dy, 0) == (
            transform_spec(t, x, y, 0).0 + c * transform_spec(t, dx, dy, 0).0,
            transform_spec(t, x, y, 0).1 + c * transform_spec(t, dx, dy, 0).1,
        ),
{
    assert(c * (-dx) == -(c * dx)) by (nonlinear_arith);
    assert(c * (-dy) == -(c * dy)) by (nonlinear_arith);
}

/// The shape of a transformed relative move: the displacement is
/// transformed, and the index is kept or counted from the other end.
proof fn lemma_rel_shape(t: int, r: RelMove, n: int)
    requires
        0 <= t < 8,
        rel_small(r),
        1 <= n <= 256,
        r.line_pos < n,
    ensures
        rel_transform(t, r, n) == (RelMove {
            d: (
                transform_spec(t, r.d.0 as int, r.d.1 as int, 0).0 as i16,
                transform_spec(t, r.d.0 as int, r.d.1 as int, 0).1 as i16,
            ),
            dir: transform_dir_spec(t, r.dir),
            line_pos: if dir_pos(t, r.dir) {
                r.line_pos
            } else {
                (n - 1 - r.line_pos) as u8
            },
        }),
        rel_small(rel_transform(t, r, n)),
        rel_transform(t, r, n).line_pos < n,
{
    let dl = dir_delta(r.dir);
    let nl = dir_delta(transform_dir_spec(t, r.dir));
    let lp = r.line_pos as int;
    let o = (r.d.0 - lp * dl.0, r.d.1 - lp * dl.1);
    let e = (o.0 + (n - 1) * dl.0, o.1 + (n - 1) * dl.1);
    let td = transform_spec(t, r.d.0 as int, r.d.1 as int, 0);
    let sd = transform_spec(t, dl.0 as int, dl.1 as int, 0);
    lemma_dir_image(t, r.dir);
    lemma_lin_affine(t, r.d.0 as int, r.d.1 as int, -lp, dl.0 as int, dl.1 as int);
    lemma_lin_affine(t, o.0, o.1, n - 1, dl.0 as int, dl.1 as int);
    let to = transform_spec(t, o.0, o.1, 0);
    let te = transform_spec(t, e.0, e.1, 0);
    assert((-lp) * dl.0 == -(lp * dl.0) && (-lp) * dl.1 == -(lp * dl.1)) by (nonlinear_arith);
    assert(o == (r.d.0 + (-lp) * dl.0, r.d.1 + (-lp) * dl.1));
    assert(to == (td.0 + (-lp) * sd.0, td.1 + (-lp) * sd.1));
    assert(te == (to.0 + (n - 1) * sd.0, to.1 + (n - 1) * sd.1));
    assert(nl == (1i16, 0i16) || nl == (0i16, 1i16) || nl == (1i16, -1i16) || nl == (1i16, 1i16));
    let no = pos_min_spec(to, te);
    if dir_pos(t, r.dir) {
        assert(pos_le(to, te)) by (nonlinear_arith)
            requires
                te == (to.0 + (n - 1) * sd.0, to.1 + (n - 1) * sd.1),
                sd == (nl.0 as int, nl.1 as int),
                nl.0 == 1 || (nl.0 == 0 && nl.1 == 1),
                n >= 1,
        ;
        assert(no == to);
        assert(td.0 - no.0 == lp * nl.0 && td.1 - no.1 == lp * nl.1) by (nonlinear_arith)
            requires
                no == (td.0 + (-lp) * sd.0, td.1 + (-lp) * sd.1),
                sd == (nl.0 as int, nl.1 as int),
        ;
    } else {
        assert(pos_le(te, to)) by (nonlinear_arith)
            requires
                te == (to.0 + (n - 1) * sd.0, to.1 + (n - 1) * sd.1),
                sd == (-nl.0, -nl.1),
                nl.0 == 1 || (nl.0 == 0 && nl.1 == 1),
                n >= 1,
        ;
        assert(no == te || (to == te && no == to));
        assert(td.0 - no.0 == (n - 1 - lp) * nl.0 && td.1 - no.1 == (n - 1 - lp) * nl.1) by (nonlinear_arith)
            requires
                no == (to.0 + (n - 1) * sd.0, to.1 + (n - 1) * sd.1),
                to == (td.0 + (-lp) * sd.0, td.1 + (-lp) * sd.1),
                sd == (-nl.0, -nl.1),
        ;
    }
}

/// Directions compose like the transforms, and so do the orientations.
proof fn lemma_dir_compose(u: int, t: int, d: Dir)
    requires
        0 <= u < 8,
        0 <= t < 8,
    ensures
        transform_dir_spec(u, transform_dir_spec(t, d)) == transform_dir_spec(compose_t(u, t), d),
        dir_pos(compose_t(u, t), d) == (dir_pos(u, transform_dir_spec(t, d)) == dir_pos(t, d)),
{
    let dl = dir_delta(d);
    lemma_lin_compose(u, t, dl.0 as int, dl.1 as int);
    lemma_dir_image(t, d);
    lemma_dir_image(u, transform_dir_spec(t, d));
    lemma_dir_image(compose_t(u, t), d);
    let nl = dir_delta(transform_dir_spec(t, d));
    lemma_lin_affine(u, 0, 0, -1, nl.0 as int, nl.1 as int);
}

/// Transforming a relative move twice is transforming it once by the
/// composition.
proof fn lemma_rel_compose(u: int, t: int, r: RelMove, n: int)
    requires
        0 <= u < 8,
        0 <= t < 8,
        rel_small(r),
        1 <= n <= 256,
        r.line_pos < n,
    ensures
        rel_transform(u, rel_transform(t, r, n), n) == rel_transform(compose_t(u, t), r, n),
{
    let r1 = rel_transform(t, r, n);
    lemma_rel_shape(t, r, n);
    lemma_rel_shape(u, r1, n);
    lemma_lin_compose(u, t, r.d.0 as int, r.d.1 as int);
    lemma_rel_shape(compose_t(u, t), r, n);
    lemma_dir_compose(u, t, r.dir);
}

/// Transforming a motif twice is transforming it once by the composition.
proof fn lemma_motif_compose(u: int, t: int, m: Seq<RelMove>, n: int)
    requires
        0 <= u < 8,
        0 <= t < 8,
        motif_small(m),
        1 <= n <= 256,
        forall|i: int| 0 <= i < m.len() ==> (#[trigger] m[i]).line_pos < n,
    ensures
        motif_image(motif_image(m, t, n), u, n) == motif_image(m, compose_t(u, t), n),
{
    let a = motif_image(motif_image(m, t, n), u, n);
    let b = motif_image(m, compose_t(u, t), n);
    assert forall|i: int| 0 <= i < m.len() implies a[i] == b[i] by {
        lemma_rel_compose(u, t, m[i], n);
    }
    assert(a =~= b);
}

/// Equal keys mean equal relative moves.
pub(crate) proof fn lemma_key_injective(x: RelMove, y: RelMove)
    requires
        rel_key(x) == rel_key(y),
    ensures
        x == y,
{
    assert(x.dir == y.dir);
    assert(x.d == y.d);
}

/// The key order is irreflexive and transitive.
pub(crate) proof fn lemma_lex_order(a: Seq<RelMove>, b: Seq<RelMove>, c: Seq<RelMove>)
    ensures
        !lex_lt(a, a),
        lex_lt(a, b) && lex_lt(b, c) ==> lex_lt(a, c),
{
    if lex_lt(a, b) && lex_lt(b, c) {
        let i = choose|i: int| lex_lt_at(a, b, i);
        let j = choose|j: int| lex_lt_at(b, c, j);
        if i < j {
            assert(rel_key(b[i]) == rel_key(c[i]));
            assert(lex_lt_at(a, c, i));
        } else if j < i {
            assert(rel_key(a[j]) == rel_key(b[j]));
            assert(lex_lt_at(a, c, j));
        } else {
            assert(lex_lt_at(a, c, i));
        }
    }
    if lex_lt(a, a) {
        let i = choose|i: int| lex_lt_at(a, a, i);
        assert(false);
    }
}

/// Two different motifs of one length are ordered one way or the other.
pub(crate) proof fn lemma_lex_total(a: Seq<RelMove>, b: Seq<RelMove>, k: int)
    requires
        a.len() == b.len(),
        0 <= k <= a.len(),
        forall|j: int| 0 <= j < k ==> rel_key(#[trigger] a[j]) == rel_key(b[j]),
    ensures
        a == b || lex_lt(a, b) || lex_lt(b, a),
    decreases a.len() - k,
{
    if k == a.len() {
        assert forall|j: int| 0 <= j < a.len() implies a[j] == b[j] by {
            lemma_key_injective(a[j], b[j]);
        }
        assert(a =~= b);
    } else if rel_key(a[k]) == rel_key(b[k]) {
        lemma_lex_total(a, b, k + 1);
    } else if key_lt(rel_key(a[k]), rel_key(b[k])) {
        assert(lex_lt_at(a, b, k));
    } else {
        assert(lex_lt_at(b, a, k));
    }
}

/// The running minimum is one of the images and no image is smaller.
pub(crate) proof fn lemma_canon_upto(m: Seq<RelMove>, n: int, k: int)
    requires
        1 <= k <= 8,
    ensures
        exists|u: int| 0 <= u < k && canon_upto(m, n, k) == #[trigger] motif_image(m, u, n),
        forall|u: int| 0 <= u < k ==> !lex_lt(#[trigger] motif_image(m, u, n), canon_upto(m, n, k)),
    decreases k,
{
    if k == 1 {
        lemma_lex_order(motif_image(m, 0, n), motif_image(m, 0, n), motif_image(m, 0, n));
        assert(canon_upto(m, n, 1) == motif_image(m, 0, n));
    } else {
        lemma_canon_upto(m, n, k - 1);
        let a = canon_upto(m, n, k - 1);
        let b = motif_image(m, k - 1, n);
        if lex_lt(b, a) {
            assert forall|u: int| 0 <= u < k implies !lex_lt(#[trigger] motif_image(m, u, n), b) by {
                lemma_lex_order(motif_image(m, u, n), b, a);
                lemma_lex_order(b, b, b);
            }
            assert(canon_upto(m, n, k) == motif_image(m, k - 1, n));
        } else {
            let u0 = choose|u: int| 0 <= u < k - 1 && a == #[trigger] motif_image(m, u, n);
            assert(canon_upto(m, n, k) == motif_image(m, u0, n));
        }
    }
}

/// Canonical forms are invariant under D4: a motif and each of its eight
/// images have the same canonical form (for moves whose index lies inside
/// the line).
pub proof fn lemma_canonical_invariant(m: Seq<RelMove>, t: int, n: int)
    requires
        0 <= t < 8,
        1 <= n <= 256,
        motif_small(m),
        forall|i: int| 0 <= i < m.len() ==> (#[trigger] m[i]).line_pos < n,
    ensures
        canonical_spec(motif_image(m, t, n), n) == canonical_spec(m, n),
        sig_seq(sig_seed(), canonical_spec(motif_image(m, t, n), n)) == sig_seq(
            sig_seed(),
            canonical_spec(m, n),
        ),
{
    let mt = motif_image(m, t, n);
    let a = canonical_spec(m, n);
    let b = canonical_spec(mt, n);
    lemma_canon_upto(m, n, 8);
    lemma_canon_upto(mt, n, 8);
    let v = choose|v: int| 0 <= v < 8 && a == #[trigger] motif_image(m, v, n);
    let w = choose|w: int| 0 <= w < 8 && b == #[trigger] motif_image(mt, w, n);
    lemma_motif_compose(w, t, m, n);
    lemma_lin_compose(w, t, 0, 0);
    assert(b == motif_image(m, compose_t(w, t), n));
    assert(!lex_lt(b, a));
    let x = compose_t(v, inv_t(t));
    lemma_compose_table(v, t);
    lemma_lin_compose(v, inv_t(t), 0, 0);
    lemma_motif_compose(x, t, m, n);
    assert(motif_image(mt, x, n) == a);
    assert(!lex_lt(a, b));
    lemma_lex_total(a, b, 0);
}

/// The canonical form is the least of a motif's eight images: it is one of
/// them, and none is smaller by key.
pub proof fn lemma_canonical_least(m: Seq<RelMove>, n: int)
    ensures
        exists|u: int| 0 <= u < 8 && canonical_spec(m, n) == #[trigger] motif_image(m, u, n),
        forall|u: int| 0 <= u < 8 ==> !lex_lt(#[trigger] motif_image(m, u, n), canonical_spec(m, n)),
{
    lemma_canon_upto(m, n, 8);
}

/// Canonicalising twice changes nothing, and so a canonical form has the same
/// signature as the motif it came from.
pub proof fn lemma_canonical_idempotent(m: Seq<RelMove>, n: int)
    requires
        1 <= n <= 256,
        motif_small(m),
        forall|i: int| 0 <= i < m.len() ==> (#[trigger] m[i]).line_pos < n,
    ensures
        canonical_spec(canonical_spec(m, n), n) == canonical_spec(m, n),
        sig_seq(sig_seed(), canonical_spec(canonical_spec(m, n), n)) == sig_seq(
            sig_seed(),
            canonical_spec(m, n),
        ),
{
    lemma_canon_upto(m, n, 8);
    let u = choose|u: int| 0 <= u < 8 && canon_upto(m, n, 8) == #[trigger] motif_image(m, u, n);
    lemma_canonical_invariant(m, u, n);
}

/// Instantiating the motif of a window at its own anchor, unrotated, gives
/// back the window's moves (for moves lying on their lines, with their
/// index inside the line).
pub proof fn lemma_window_roundtrip(w: Seq<Move>, n: int)
    requires
        w.len() >= 1,
        1 <= n <= 255,
        forall|i: int| 0 <= i < w.len() ==> on_own_line(#[trigger] w[i]),
        forall|i: int| 0 <= i < w.len() ==> (#[trigger] w[i]).line_pos < n,
        forall|i: int| 0 <= i < w.len() ==> anchor_small(#[trigger] w[i].pos),
        forall|i: int| 0 <= i < w.len() ==> rel_small(#[trigger] rel_of(w[i], w[0].pos)),
    ensures
        Seq::new(w.len(), |i: int| instance_spec(rel_of(w[i], w[0].pos), w[0].pos, 0, n)) == w,
{
    let a = w[0].pos;
    let s = Seq::new(w.len(), |i: int| instance_spec(rel_of(w[i], a), a, 0, n));
    assert forall|i: int| 0 <= i < w.len() implies s[i] == w[i] by {
        let m = w[i];
        let r = rel_of(m, a);
        assert(rel_small(r));
        lemma_rel_shape(0, r, n);
        assert(dir_pos(0, r.dir));
        let tr = rel_transform(0, r, n);
        assert(tr == r);
        let dl = dir_delta(m.line.dir);
        assert(m.line.origin.0 == m.pos.0 - m.line_pos * dl.0);
        assert(m.line.origin.1 == m.pos.1 - m.line_pos * dl.1);
    }
    assert(s =~= w);
}

/// A legal macro instance at a position: the policy action code (the motif's
/// signature) and the ordered moves to apply.
#[derive(Clone, Debug)]
pub struct MacroInstance {
    pub code: u64,
    pub moves: Vec<Move>,
}

/// The hasher of the motif index's map.
#[verifier::external_type_specification]
#[verifier::external_body]
pub struct ExFxBuildHasher(FxBuildHasher);

/// What the motif index holds: for each first-move shape, its candidate
/// `(motif, orientation)` pairs in insertion order.
pub uninterp spec fn fx_index_contents(m: FxHashMap<(u8, u8), Vec<(u32, u8)>>) -> Map<(u8, u8), Seq<(u32, u8)>>;

/// The entries under `k`, empty when `k` is absent.
pub open spec fn bucket(m: Map<(u8, u8), Seq<(u32, u8)>>, k: (u8, u8)) -> Seq<(u32, u8)> {
    if m.contains_key(k) {
        m[k]
    } else {
        Seq::empty()
    }
}

/// The index with no entries.
pub open spec fn empty_index() -> Map<(u8, u8), Seq<(u32, u8)>> {
    Map::empty()
}

/// `FxHashMap::default`: an empty map.
#[verifier::external_body]
fn fx_index_new() -> (r: FxHashMap<(u8, u8), Vec<(u32, u8)>>)
    ensures
        fx_index_contents(r) == empty_index(),
{
    FxHashMap::default()
}

/// `entry(k).or_default().push(item)` on an `FxHashMap`: appends `item` to
/// the entries under `k` (starting from none), leaving other keys alone.
#[verifier::external_body]
fn fx_index_push(m: &mut FxHashMap<(u8, u8), Vec<(u32, u8)>>, k: (u8, u8), item: (u32, u8))
    ensures
        fx_index_contents(*final(m)) == fx_index_contents(*old(m)).insert(
            k,
            bucket(fx_index_contents(*old(m)), k).push(item),
        ),
{
    m.entry(k).or_default().push(item);
}

/// `get(&k)` on an `FxHashMap`: the entries under `k`, if present.
#[verifier::external_body]
fn fx_index_get(m: &FxHashMap<(u8, u8), Vec<(u32, u8)>>, k: (u8, u8)) -> (r: Option<&Vec<(u32, u8)>>)
    ensures
        fx_index_contents(*m).contains_key(k) ==> r is Some && r->0@ == fx_index_contents(*m)[k],
        !fx_index_contents(*m).contains_key(k) ==> r is None,
{
    m.get(&k)
}

/// The key of a relative move's shape: direction index and index in line.
pub open spec fn shape_key(r: RelMove) -> (u8, u8) {
    (dir_index(r.dir), r.line_pos)
}

/// The motif index after the first `c` `(motif, orientation)` pairs, motifs in
/// order and the 8 orientations of each in order: each pair is filed under
/// the shape of the motif's first move in that orientation.
pub open spec fn index_upto(ms: Seq<Seq<RelMove>>, n: int, c: int) -> Map<(u8, u8), Seq<(u32, u8)>>
    decreases c,
{
    if c <= 0 {
        Map::empty()
    } else {
        let prev = index_upto(ms, n, c - 1);
        let mi = (c - 1) / 8;
        let t = (c - 1) % 8;
        let k = shape_key(rel_transform(t, ms[mi][0], n));
        prev.insert(k, bucket(prev, k).push((mi as u32, t as u8)))
    }
}

/// The most points two drawn lines of one direction may share.
pub open spec fn max_overlap(v: Variant) -> int {
    match variant_touch_mode(v) {
        TouchMode::Touching => 1,
        TouchMode::Disjoint => 0,
    }
}

/// Whether the integer point `p` is occupied in `w`.
pub open spec fn occupied_pt(w: GameView, p: (int, int)) -> bool {
    -32768 <= p.0 <= 32767 && -32768 <= p.1 <= 32767 && w.occupied.contains((p.0 as i16, p.1 as i16))
}

/// Whether `m` can be played in `w` with lines of length `n`: its point is
/// free, the other points of its line are placed, and its line conflicts with
/// no drawn line under the variant's touch rule.
pub open spec fn playable(w: GameView, m: Move, n: int) -> bool {
    &&& !w.occupied.contains(m.pos)
    &&& forall|k: int| 0 <= k < n && k != m.line_pos ==> #[trigger] occupied_pt(w, line_point(m.line, k))
    &&& !(exists|l: Line|
        #[trigger] w.lines.contains(l) && lines_conflict_spec(l, m.line, n - 1 - max_overlap(w.variant)))
}

/// The state after playing the moves `s` in order.
#[verifier::opaque]
pub open spec fn applied(v: GameView, s: Seq<Move>) -> GameView
    decreases s.len(),
{
    if s.len() == 0 {
        v
    } else {
        view_apply(applied(v, s.drop_last()), s.last())
    }
}

/// Move `j` of `s` goes through once its predecessors are played: it is
/// playable (the first move is taken as given) and its point and line fit on
/// the grid.
#[verifier::opaque]
pub open spec fn step_ok(v: GameView, s: Seq<Move>, n: int, j: int) -> bool {
    (j == 0 || playable(applied(v, s.take(j)), s[j], n)) && placeable(s[j])
}

/// Every move of `s` goes through in turn from `v`.
pub open spec fn macro_ok(v: GameView, s: Seq<Move>, n: int) -> bool {
    forall|j: int| 0 <= j < s.len() ==> #[trigger] step_ok(v, s, n, j)
}

/// Two states equal but for their redo stacks.
pub open spec fn same_but_redo(a: GameView, b: GameView) -> bool {
    &&& a.variant == b.variant
    &&& a.occupied == b.occupied
    &&& a.lines == b.lines
    &&& a.cells == b.cells
    &&& a.history == b.history
}

/// The content of a macro instance.
pub open spec fn inst_view(x: MacroInstance) -> (u64, Seq<Move>) {
    (x.code, x.moves@)
}



/// Every entry of the index names an earlier pair whose first-move shape is
/// the entry's key.
proof fn lemma_index_entries(ms: Seq<Seq<RelMove>>, n: int, c: int)
    requires
        0 <= c <= 0x8_0000_0000,
    ensures
        forall|k: (u8, u8), e: int|
            0 <= e < bucket(index_upto(ms, n, c), k).len() ==> {
                let x = #[trigger] bucket(index_upto(ms, n, c), k)[e];
                &&& 8 * (x.0 as int) + (x.1 as int) < c
                &&& x.1 < 8
                &&& shape_key(rel_transform(x.1 as int, ms[x.0 as int][0], n)) == k
            },
    decreases c,
{
    if c > 0 {
        lemma_index_entries(ms, n, c - 1);
        let prev = index_upto(ms, n, c - 1);
        let mi = (c - 1) / 8;
        let t = (c - 1) % 8;
        assert(8 * mi + t == c - 1 && 0 <= t < 8 && 0 <= mi < 0x1_0000_0000) by (nonlinear_arith)
            requires
                mi == (c - 1) / 8,
                t == (c - 1) % 8,
                1 <= c <= 0x8_0000_0000,
        ;
        let key = shape_key(rel_transform(t, ms[mi][0], n));
        assert forall|k: (u8, u8), e: int|
            0 <= e < bucket(index_upto(ms, n, c), k).len() implies {
                let x = #[trigger] bucket(index_upto(ms, n, c), k)[e];
                &&& 8 * (x.0 as int) + (x.1 as int) < c
                &&& x.1 < 8
                &&& shape_key(rel_transform(x.1 as int, ms[x.0 as int][0], n)) == k
            } by {
            if k == key {
                if e < bucket(prev, k).len() {
                    assert(bucket(index_upto(ms, n, c), k)[e] == bucket(prev, k)[e]);
                } else {
                    assert(bucket(index_upto(ms, n, c), k)[e] == (mi as u32, t as u8));
                }
            } else {
                assert(bucket(index_upto(ms, n, c), k) == bucket(prev, k));
            }
        }
    }
}

/// A legal move sits next to placed points, well inside the coordinate range.
pub(crate) proof fn lemma_legal_small(s: &GameState, m: Move)
    requires
        s.wf(),
        is_legal(s, m),
    ensures
        anchor_small(m.pos),
        crate::game::line::pos_small(m.line.origin),
        -100 <= m.line.origin.0 <= 100 && -100 <= m.line.origin.1 <= 100,
{
    let n = variant_len(s.variant) as int;
    let k0: int = if m.line_pos == 0 {
        1
    } else {
        0
    };
    assert(occupied_at(&s.board, line_point(m.line, k0)));
    let p = line_point(m.line, k0);
    let q = (p.0 as i16, p.1 as i16);
    s.board.lemma_occupied(q);
    let dl = dir_delta(m.line.dir);
    assert(-1 <= dl.0 <= 1 && -1 <= dl.1 <= 1);
    assert(-8 <= k0 * dl.0 <= 8 && -8 <= k0 * dl.1 <= 8) by (nonlinear_arith)
        requires
            0 <= k0 <= 1,
            -1 <= dl.0 <= 1,
            -1 <= dl.1 <= 1,
    ;
    assert(-8 <= m.line_pos * dl.0 <= 8 && -8 <= m.line_pos * dl.1 <= 8) by (nonlinear_arith)
        requires
            0 <= m.line_pos < 8,
            -1 <= dl.0 <= 1,
            -1 <= dl.1 <= 1,
    ;
}

/// Playing a move whose point is free and whose line is not drawn, then
/// undoing it, restores the state but for the redo stack.
pub(crate) proof fn lemma_undo_apply_same(x: GameView, w: GameView, m: Move)
    requires
        same_but_redo(x, view_apply(w, m)),
        !w.occupied.contains(m.pos),
        !w.lines.contains(m.line),
    ensures
        same_but_redo(view_undo(x), w),
{
    lemma_undo_after_apply(w, m);
    assert(x.history.last() == view_apply(w, m).history.last());
}

/// The state after the first `k + 1` moves is the state after the first `k`
/// with move `k` applied.
proof fn lemma_applied_step(v: GameView, s: Seq<Move>, k: int)
    requires
        0 <= k < s.len(),
    ensures
        applied(v, s.take(k + 1)) == view_apply(applied(v, s.take(k)), s[k]),
        applied(v, s.take(k)).history.len() == v.history.len() + k,
{
    reveal(applied);
    assert(s.take(k + 1).drop_last() =~= s.take(k));
    lemma_applied_len(v, s.take(k));
}

/// Playing moves lengthens the history by their number.
proof fn lemma_applied_len(v: GameView, s: Seq<Move>)
    ensures
        applied(v, s).history.len() == v.history.len() + s.len(),
        applied(v, s).variant == v.variant,
    decreases s.len(),
{
    reveal(applied);
    if s.len() > 0 {
        lemma_applied_len(v, s.drop_last());
    }
}

/// With no motifs the index is empty, so nothing is found.
proof fn lemma_found_empty(lib: &MotifLib, v: GameView, legal: Seq<Move>, i: int)
    requires
        lib.wf(),
        lib.motif_seqs().len() == 0,
        0 <= i <= legal.len(),
    ensures
        lib.found_upto(v, legal, i) =~= Seq::<(u64, Seq<Move>)>::empty(),
    decreases i,
{
    if i > 0 {
        lemma_found_empty(lib, v, legal, i - 1);
        let mv = legal[i - 1];
        let cs = bucket(lib.index(), (dir_index(mv.line.dir), mv.line_pos));
        assert(index_upto(lib.motif_seqs(), lib.line_len(), 0) =~= Map::<(u8, u8), Seq<(u32, u8)>>::empty());
        assert(cs.len() == 0);
    }
}

/// The first move of a motif instantiated at a legal move, in an orientation
/// whose first-move shape matches that move, is that move.
proof fn lemma_first_instance(m: Seq<RelMove>, mv: Move, t: int, n: int)
    requires
        lib_motif_ok(m),
        0 <= t < 8,
        0 <= n <= 256,
        shape_key(rel_transform(t, m[0], n)) == (dir_index(mv.line.dir), mv.line_pos),
        on_own_line(mv),
        anchor_small(mv.pos),
    ensures
        instance_spec(m[0], mv.pos, t, n) == mv,
{
    let tr = rel_transform(t, m[0], n);
    assert(tr.d == (0i16, 0i16));
    assert(tr.dir == mv.line.dir);
    assert(tr.line_pos == mv.line_pos);
    let dl = dir_delta(mv.line.dir);
    assert(mv.line.origin.0 == mv.pos.0 - mv.line_pos * dl.0);
    assert(mv.line.origin.1 == mv.pos.1 - mv.line_pos * dl.1);
}

/// A legal move's point is free and its line not drawn.
proof fn lemma_legal_fresh(s: &GameState, m: Move)
    requires
        is_legal(s, m),
    ensures
        !s@.occupied.contains(m.pos),
        !s@.lines.contains(m.line),
        on_own_line(m),
{
    if s@.lines.contains(m.line) {
        assert(s.line_index.has(m.line));
        assert(lines_conflict_spec(m.line, m.line, variant_forbid(s.variant) as int));
    }
}

/// A playable move's point is free and its line not drawn.
proof fn lemma_playable_fresh(w: GameView, m: Move, n: int)
    requires
        playable(w, m, n),
        n >= 2,
    ensures
        !w.occupied.contains(m.pos),
        !w.lines.contains(m.line),
{
    if w.lines.contains(m.line) {
        assert(lines_conflict_spec(m.line, m.line, n - 1 - max_overlap(w.variant)));
    }
}

/// Legality depends only on the points, the lines and the variant.
proof fn lemma_legal_same(a: &GameState, b: &GameState, m: Move)
    requires
        same_but_redo(a@, b@),
        is_legal(a, m),
    ensures
        is_legal(b, m),
{
    assert forall|p: Pos| a.board.occupied(p) == b.board.occupied(p) by {
        assert(a@.occupied.contains(p) == b@.occupied.contains(p));
    }
    assert forall|l: Line| a.line_index.has(l) == b.line_index.has(l) by {
        assert(a@.lines.contains(l) == b@.lines.contains(l));
    }
    let n = variant_len(b.variant) as int;
    assert forall|k: int| 0 <= k < n && k != m.line_pos implies #[trigger] occupied_at(&b.board, line_point(m.line, k)) by {
        assert(occupied_at(&a.board, line_point(m.line, k)));
    }
}

/// Playability depends only on the points, the lines and the variant.
proof fn lemma_playable_same(a: GameView, b: GameView, m: Move, n: int)
    requires
        same_but_redo(a, b),
    ensures
        playable(a, m, n) == playable(b, m, n),
{
    assert forall|p: (int, int)| occupied_pt(a, p) == occupied_pt(b, p) by {}
    assert forall|l: Line| a.lines.contains(l) == b.lines.contains(l) by {}
}

/// The lines of an instance fit in the coordinate range.
proof fn lemma_instance_small(r: RelMove, a: Pos, t: int, n: int)
    requires
        rel_small(r),
        anchor_small(a),
        0 <= t < 8,
        0 <= n <= 256,
    ensures
        crate::game::line::pos_small(instance_spec(r, a, t, n).line.origin),
{
    let tr = rel_transform(t, r, n);
    let dl = dir_delta(tr.dir);
    crate::game::line::lemma_step_bound(tr.line_pos as int, dl.0 as int);
    crate::game::line::lemma_step_bound(tr.line_pos as int, dl.1 as int);
}

/// One step of playing a macro: from a state matching the first `k` moves
/// played, applying move `k` gives the state after `k + 1`.
proof fn lemma_step_advance(v0: GameView, ms: Seq<Move>, n: int, k: int, pre: GameView, post: GameView)
    requires
        0 <= k < ms.len(),
        same_but_redo(pre, applied(v0, ms.take(k))),
        post == view_apply(pre, ms[k]),
        k == 0 || playable(applied(v0, ms.take(k)), ms[k], n),
        placeable(ms[k]),
    ensures
        same_but_redo(post, applied(v0, ms.take(k + 1))),
        step_ok(v0, ms, n, k),
{
    reveal(step_ok);
    lemma_applied_step(v0, ms, k);
}

/// Play `moves` in turn on `scratch` (the first taken as given, each later
/// one checked playable first), stopping at the first that does not go
/// through; then roll all of them back. Returns whether all went through.
#[verifier::rlimit(100)]
#[verifier::spinoff_prover]
fn play_macro(scratch: &mut GameState, moves: &Vec<Move>, line_len: u8) -> (ok: bool)
    requires
        old(scratch).wf(),
        moves@.len() >= 1,
        is_legal(old(scratch), moves@[0]),
        line_len == 4 || line_len == 5,
        forall|q: int| 0 <= q < moves@.len() ==> crate::game::line::pos_small(#[trigger] moves@[q].line.origin),
    ensures
        final(scratch).wf(),
        same_but_redo(final(scratch)@, old(scratch)@),
        ok == macro_ok(old(scratch)@, moves@, line_len as int),
{
    let ghost v0 = scratch@;
    let ghost ms = moves@;
    let ghost n = line_len as int;
    let start = scratch.history.len();
    proof {
        lemma_legal_fresh(scratch, ms[0]);
        assert(ms.take(0) =~= Seq::<Move>::empty());
        assert(applied(v0, ms.take(0)) == v0) by {
            reveal(applied);
        }
    }
    let mut ok = true;
    let mut k: usize = 0;
    while ok && k < moves.len()
        invariant
            k <= ms.len(),
            ms == moves@,
            ms.len() >= 1,
            n == line_len as int,
            line_len == 4 || line_len == 5,
            scratch.wf(),
            start == v0.history.len(),
            !v0.occupied.contains(ms[0].pos) && !v0.lines.contains(ms[0].line),
            applied(v0, ms.take(0)) == v0,
            forall|q: int| 0 <= q < ms.len() ==> crate::game::line::pos_small(#[trigger] ms[q].line.origin),
            same_but_redo(scratch@, applied(v0, ms.take(k as int))),
            scratch.history@.len() == start + k,
            forall|q: int| 0 <= q < k ==> #[trigger] step_ok(v0, ms, n, q),
            forall|q: int|
                0 <= q < k ==> !applied(v0, ms.take(q)).occupied.contains(#[trigger] ms[q].pos)
                    && !applied(v0, ms.take(q)).lines.contains(ms[q].line),
            !ok ==> k < ms.len() && !step_ok(v0, ms, n, k as int),
        decreases ms.len() - k + if ok {
            1int
        } else {
            0int
        },
    {
        let m = moves[k];
        let ghost w = applied(v0, ms.take(k as int));
        proof {
            lemma_applied_step(v0, ms, k as int);
        }
        if k > 0 && !move_playable(scratch, &m, line_len) {
            proof {
                lemma_playable_same(scratch@, w, m, n);
                assert(!step_ok(v0, ms, n, k as int)) by {
                    reveal(step_ok);
                }
            }
            ok = false;
        } else {
            proof {
                if k > 0 {
                    lemma_playable_same(scratch@, w, m, n);
                    lemma_playable_fresh(w, m, n);
                }
                assert(!w.occupied.contains(ms[k as int].pos) && !w.lines.contains(ms[k as int].line));
            }
            let ghost pre = scratch@;
            if !scratch.apply(m) {
                proof {
                    assert(!step_ok(v0, ms, n, k as int)) by {
                        reveal(step_ok);
                    }
                }
                ok = false;
            } else {
                proof {
                    lemma_step_advance(v0, ms, n, k as int, pre, scratch@);
                    assert forall|q: int| 0 <= q < k + 1 implies !applied(v0, ms.take(q)).occupied.contains(
                        #[trigger] ms[q].pos,
                    ) && !applied(v0, ms.take(q)).lines.contains(ms[q].line) by {
                        if q == k {
                            assert(ms.take(q) == ms.take(k as int));
                        }
                    }
                }
                k = k + 1;
            }
        }
    }
    proof {
        if ok {
            assert(k == ms.len());
            assert(macro_ok(v0, ms, n));
        } else {
            assert(!macro_ok(v0, ms, n));
        }
    }
    let ghost kk = k;
    while scratch.history.len() > start
        invariant
            kk <= ms.len(),
            scratch.wf(),
            start <= scratch.history@.len() <= start + kk,
            start == v0.history.len(),
            same_but_redo(scratch@, applied(v0, ms.take(scratch.history@.len() - start))),
            forall|q: int|
                0 <= q < kk ==> !applied(v0, ms.take(q)).occupied.contains(#[trigger] ms[q].pos)
                    && !applied(v0, ms.take(q)).lines.contains(ms[q].line),
        decreases scratch.history@.len(),
    {
        let ghost h = scratch.history@.len() - start;
        let ghost pre = scratch@;
        proof {
            lemma_applied_step(v0, ms, h - 1);
        }
        scratch.undo();
        proof {
            lemma_undo_apply_same(pre, applied(v0, ms.take(h - 1)), ms[h - 1]);
        }
    }
    proof {
        assert(ms.take(0) =~= Seq::<Move>::empty());
    }
    ok
}

/// States equal but for their redo stacks stay so under the same moves.
proof fn lemma_applied_same(a: GameView, b: GameView, s: Seq<Move>)
    requires
        same_but_redo(a, b),
    ensures
        same_but_redo(applied(a, s), applied(b, s)),
        s.len() > 0 ==> applied(a, s) == applied(b, s),
    decreases s.len(),
{
    reveal(applied);
    if s.len() > 0 {
        lemma_applied_same(a, b, s.drop_last());
    }
}

/// Whether a macro goes through does not depend on the redo stack.
proof fn lemma_macro_ok_same(a: GameView, b: GameView, s: Seq<Move>, n: int)
    requires
        same_but_redo(a, b),
    ensures
        macro_ok(a, s, n) == macro_ok(b, s, n),
{
    reveal(step_ok);
    assert forall|j: int|
        #![trigger step_ok(a, s, n, j)]
        #![trigger step_ok(b, s, n, j)]
        0 <= j < s.len() implies step_ok(a, s, n, j) == step_ok(b, s, n, j) by {
        lemma_applied_same(a, b, s.take(j));
        lemma_playable_same(applied(a, s.take(j)), applied(b, s.take(j)), s[j], n);
    }
}

/// A frozen motif library prepared for matching: the motifs, their
/// signatures, and an index from the shape of each motif's first move under
/// each orientation to the `(motif, orientation)` pairs that start so.
pub struct MotifLib {
    motifs: Vec<Motif>,
    sigs: Vec<u64>,
    by_move0: FxHashMap<(u8, u8), Vec<(u32, u8)>>,
    n: u8,
}

/// A motif usable in a library: non-empty, anchored at its first move, small.
pub open spec fn lib_motif_ok(m: Seq<RelMove>) -> bool {
    &&& m.len() >= 1
    &&& m[0].d == (0i16, 0i16)
    &&& motif_small(m)
}

impl MotifLib {
    /// The motifs' relative moves.
    pub closed spec fn motif_seqs(&self) -> Seq<Seq<RelMove>> {
        self.motifs@.map_values(|m: Motif| m.moves@)
    }

    /// The motifs' signatures.
    pub closed spec fn sig_list(&self) -> Seq<u64> {
        self.sigs@
    }

    /// The first-move index.
    pub closed spec fn index(&self) -> Map<(u8, u8), Seq<(u32, u8)>> {
        fx_index_contents(self.by_move0)
    }

    /// The line length.
    pub closed spec fn line_len(&self) -> int {
        self.n as int
    }

    /// Well-formedness: each motif anchored and small, one signature per
    /// motif, and the index filed as [`index_upto`] describes.
    pub open spec fn wf(&self) -> bool {
        &&& self.line_len() == 4 || self.line_len() == 5
        &&& self.motif_seqs().len() <= 0x1_0000_0000
        &&& self.sig_list().len() == self.motif_seqs().len()
        &&& forall|i: int| 0 <= i < self.motif_seqs().len() ==> lib_motif_ok(#[trigger] self.motif_seqs()[i])
        &&& forall|i: int|
            0 <= i < self.motif_seqs().len() ==> #[trigger] self.sig_list()[i] == sig_seq(
                sig_seed(),
                canonical_spec(self.motif_seqs()[i], self.line_len()),
            )
        &&& self.index() == index_upto(self.motif_seqs(), self.line_len(), 8 * self.motif_seqs().len() as int)
    }

    /// Build the library for `variant`'s line length from a motif list.
    pub fn build(motifs: Vec<Motif>, variant: Variant) -> (r: MotifLib)
        requires
            motifs@.len() <= 0x1_0000_0000,
            forall|i: int| 0 <= i < motifs@.len() ==> lib_motif_ok(#[trigger] motifs@[i].moves@),
        ensures
            r.wf(),
            r.motif_seqs() == motifs@.map_values(|m: Motif| m.moves@),
            r.line_len() == variant_len(variant),
    {
        let n = variant.len();
        let ghost ms = motifs@.map_values(|m: Motif| m.moves@);
        let mut sigs: Vec<u64> = Vec::new();
        let mut i: usize = 0;
        while i < motifs.len()
            invariant
                i <= motifs@.len(),
                n == variant_len(variant),
                ms == motifs@.map_values(|m: Motif| m.moves@),
                forall|j: int| 0 <= j < motifs@.len() ==> lib_motif_ok(#[trigger] motifs@[j].moves@),
                sigs@.len() == i,
                forall|j: int|
                    0 <= j < i ==> #[trigger] sigs@[j] == sig_seq(sig_seed(), canonical_spec(ms[j], n as int)),
            decreases motifs@.len() - i,
        {
            let sg = motifs[i].signature(n as i16);
            sigs.push(sg);
            i = i + 1;
        }
        let mut by_move0 = fx_index_new();
        let mut mi: usize = 0;
        while mi < motifs.len()
            invariant
                mi <= motifs@.len(),
                motifs@.len() <= 0x1_0000_0000,
                n == variant_len(variant),
                ms == motifs@.map_values(|m: Motif| m.moves@),
                forall|j: int| 0 <= j < motifs@.len() ==> lib_motif_ok(#[trigger] motifs@[j].moves@),
                fx_index_contents(by_move0) == index_upto(ms, n as int, 8 * mi),
            decreases motifs@.len() - mi,
        {
            let mut t: usize = 0;
            while t < 8
                invariant
                    t <= 8,
                    mi < motifs@.len(),
                    motifs@.len() <= 0x1_0000_0000,
                    n == variant_len(variant),
                    ms == motifs@.map_values(|m: Motif| m.moves@),
                    forall|j: int| 0 <= j < motifs@.len() ==> lib_motif_ok(#[trigger] motifs@[j].moves@),
                    fx_index_contents(by_move0) == index_upto(ms, n as int, 8 * mi + t),
                decreases 8 - t,
            {
                assert(lib_motif_ok(motifs@[mi as int].moves@));
                let r0 = motifs[mi].moves[0].transform(t, n as i16);
                proof {
                    let c = 8 * mi + t + 1;
                    assert((c - 1) / 8 == mi as int && (c - 1) % 8 == t as int) by (nonlinear_arith)
                        requires
                            c == 8 * mi + t + 1,
                            0 <= t < 8,
                    ;
                    assert(ms[mi as int] == motifs@[mi as int].moves@);
                }
                fx_index_push(&mut by_move0, (r0.dir.index(), r0.line_pos), (mi as u32, t as u8));
                t = t + 1;
            }
            mi = mi + 1;
        }
        let r = MotifLib { motifs, sigs, by_move0, n };
        proof {
            assert(r.motif_seqs() == ms);
            assert forall|j: int| 0 <= j < ms.len() implies lib_motif_ok(#[trigger] r.motif_seqs()[j]) by {
                assert(ms[j] == r.motifs@[j].moves@);
            }
        }
        r
    }

    /// The moves of motif `c.0` at anchor `a` under orientation `c.1`.
    pub open spec fn macro_moves(&self, c: (u32, u8), a: Pos) -> Seq<Move> {
        let m = self.motif_seqs()[c.0 as int];
        Seq::new(m.len(), |i: int| instance_spec(m[i], a, c.1 as int, self.line_len()))
    }

    /// The instance of candidate `c` at the anchor move `mv`, if all its
    /// moves go through from `v`.
    pub open spec fn found_for(&self, v: GameView, mv: Move, c: (u32, u8)) -> Seq<(u64, Seq<Move>)> {
        let s = self.macro_moves(c, mv.pos);
        if macro_ok(v, s, self.line_len()) {
            seq![(self.sig_list()[c.0 as int], s)]
        } else {
            Seq::empty()
        }
    }

    /// The instances of the first `j` candidates `cs` at `mv`.
    pub open spec fn found_in(&self, v: GameView, mv: Move, cs: Seq<(u32, u8)>, j: int) -> Seq<
        (u64, Seq<Move>),
    >
        decreases j,
    {
        if j <= 0 {
            Seq::empty()
        } else {
            self.found_in(v, mv, cs, j - 1) + self.found_for(v, mv, cs[j - 1])
        }
    }

    /// The instances anchored at the first `i` moves of `legal`, each move's
    /// candidates taken from the index under its shape.
    pub open spec fn found_upto(&self, v: GameView, legal: Seq<Move>, i: int) -> Seq<
        (u64, Seq<Move>),
    >
        decreases i,
    {
        if i <= 0 {
            Seq::empty()
        } else {
            let mv = legal[i - 1];
            let cs = bucket(self.index(), (dir_index(mv.line.dir), mv.line_pos));
            self.found_upto(v, legal, i - 1) + self.found_in(v, mv, cs, cs.len() as int)
        }
    }

    /// Try candidate `(mi, t)` at the legal move `mv`: instantiate it, play
    /// it through on `scratch` and roll back, and keep it if all its moves
    /// went through.
    fn try_candidate(&self, scratch: &mut GameState, mv: Move, mi: u32, t: u8, out: &mut Vec<MacroInstance>)
        requires
            self.wf(),
            old(scratch).wf(),
            is_legal(old(scratch), mv),
            anchor_small(mv.pos),
            (mi as int) < self.motif_seqs().len(),
            t < 8,
            shape_key(rel_transform(t as int, self.motif_seqs()[mi as int][0], self.line_len()))
                == (dir_index(mv.line.dir), mv.line_pos),
        ensures
            final(scratch).wf(),
            same_but_redo(final(scratch)@, old(scratch)@),
            final(out)@.map_values(|x: MacroInstance| inst_view(x)) == old(out)@.map_values(
                |x: MacroInstance| inst_view(x),
            ) + self.found_for(old(scratch)@, mv, (mi, t)),
    {
        let ghost n = self.line_len();
        let ghost v0 = scratch@;
        let ghost o0 = out@.map_values(|x: MacroInstance| inst_view(x));
        proof {
            assert(lib_motif_ok(self.motif_seqs()[mi as int]));
            assert(self.motif_seqs()[mi as int] == self.motifs@[mi as int].moves@);
            lemma_legal_fresh(scratch, mv);
        }
        let moves = self.motifs[mi as usize].instantiate(mv.pos, t as usize, self.n);
        let ghost ms = moves@;
        proof {
            assert(ms == self.macro_moves((mi, t), mv.pos));
            lemma_first_instance(self.motif_seqs()[mi as int], mv, t as int, n);
            assert(ms[0] == mv);
            assert forall|q: int| 0 <= q < ms.len() implies crate::game::line::pos_small(
                #[trigger] ms[q].line.origin,
            ) by {
                lemma_instance_small(self.motif_seqs()[mi as int][q], mv.pos, t as int, n);
            }
        }
        let ok = play_macro(scratch, &moves, self.n);
        if ok {
            let code = self.sigs[mi as usize];
            out.push(MacroInstance { code, moves });
            proof {
                assert(code == self.sig_list()[mi as int]);
                assert(out@.map_values(|x: MacroInstance| inst_view(x)) =~= o0 + seq![(code, ms)]);
            }
        } else {
            proof {
                assert(out@.map_values(|x: MacroInstance| inst_view(x)) =~= o0);
            }
        }
    }

    /// Append every currently legal macro instance to `out`. `legal` are the
    /// position's legal moves (the candidate first moves); `scratch` is the
    /// live state, played forward to test each continuation and rolled back
    /// before return (its redo stack aside).
    pub fn legal_macros(&self, scratch: &mut GameState, legal: &[Move], out: &mut Vec<MacroInstance>)
        requires
            self.wf(),
            old(scratch).wf(),
            forall|i: int| 0 <= i < legal@.len() ==> is_legal(old(scratch), #[trigger] legal@[i]),
        ensures
            final(scratch).wf(),
            same_but_redo(final(scratch)@, old(scratch)@),
            final(out)@.map_values(|x: MacroInstance| inst_view(x)) == old(out)@.map_values(
                |x: MacroInstance| inst_view(x),
            ) + self.found_upto(old(scratch)@, legal@, legal@.len() as int),
    {
        let ghost s0 = *old(scratch);
        let ghost v0 = old(scratch)@;
        let ghost o0 = old(out)@.map_values(|x: MacroInstance| inst_view(x));
        let ghost n = self.line_len();
        proof {
            lemma_index_entries(self.motif_seqs(), n, 8 * self.motif_seqs().len() as int);
        }
        if self.motifs.len() == 0 {
            proof {
                assert forall|i: int| 0 <= i <= legal@.len() implies self.found_upto(v0, legal@, i)
                    =~= Seq::<(u64, Seq<Move>)>::empty() by {
                    lemma_found_empty(self, v0, legal@, i);
                }
                assert(out@.map_values(|x: MacroInstance| inst_view(x)) =~= o0 + self.found_upto(
                    v0,
                    legal@,
                    legal@.len() as int,
                ));
            }
            return;
        }
        let line_len = self.n;
        let start = scratch.history.len();
        let mut i: usize = 0;
        while i < legal.len()
            invariant
                i <= legal@.len(),
                self.wf(),
                n == self.line_len(),
                line_len as int == n,
                scratch.wf(),
                s0.wf(),
                v0 == s0@,
                same_but_redo(scratch@, v0),
                scratch.history@.len() == start,
                start == v0.history.len(),
                forall|j: int| 0 <= j < legal@.len() ==> is_legal(&s0, #[trigger] legal@[j]),
                forall|k: (u8, u8), e: int|
                    0 <= e < bucket(self.index(), k).len() ==> {
                        let x = #[trigger] bucket(self.index(), k)[e];
                        &&& 8 * (x.0 as int) + (x.1 as int) < 8 * self.motif_seqs().len()
                        &&& x.1 < 8
                        &&& shape_key(rel_transform(x.1 as int, self.motif_seqs()[x.0 as int][0], n)) == k
                    },
                out@.map_values(|x: MacroInstance| inst_view(x)) == o0 + self.found_upto(v0, legal@, i as int),
            decreases legal@.len() - i,
        {
            let mv = legal[i];
            proof {
                assert(is_legal(&s0, mv));
                lemma_legal_small(&s0, mv);
            }
            let key = (mv.line.dir.index(), mv.line_pos);
            let ghost cs = bucket(self.index(), key);
            let ghost before = out@.map_values(|x: MacroInstance| inst_view(x));
            let got = fx_index_get(&self.by_move0, key);
            if let Some(cands) = got {
                let mut j: usize = 0;
                while j < cands.len()
                    invariant
                        j <= cands@.len(),
                        cands@ == cs,
                        self.wf(),
                        n == self.line_len(),
                        line_len as int == n,
                        scratch.wf(),
                        s0.wf(),
                        v0 == s0@,
                        same_but_redo(scratch@, v0),
                        scratch.history@.len() == start,
                        start == v0.history.len(),
                        is_legal(&s0, mv),
                        anchor_small(mv.pos),
                        key == (dir_index(mv.line.dir), mv.line_pos),
                        forall|e: int|
                            0 <= e < cs.len() ==> {
                                let x = #[trigger] cs[e];
                                &&& 8 * (x.0 as int) + (x.1 as int) < 8 * self.motif_seqs().len()
                                &&& x.1 < 8
                                &&& shape_key(rel_transform(x.1 as int, self.motif_seqs()[x.0 as int][0], n)) == key
                            },
                        out@.map_values(|x: MacroInstance| inst_view(x)) == before + self.found_in(
                            v0,
                            mv,
                            cs,
                            j as int,
                        ),
                    decreases cands@.len() - j,
                {
                    let (mi, t) = cands[j];
                    proof {
                        let x = cs[j as int];
                        assert(8 * (x.0 as int) + (x.1 as int) < 8 * self.motif_seqs().len());
                        lemma_legal_same(&s0, scratch, mv);
                    }
                    let ghost pre = scratch@;
                    let ghost before_j = out@.map_values(|x: MacroInstance| inst_view(x));
                    self.try_candidate(scratch, mv, mi, t, out);
                    proof {
                        lemma_macro_ok_same(pre, v0, self.macro_moves((mi, t), mv.pos), n);
                        assert(self.found_for(pre, mv, (mi, t)) == self.found_for(v0, mv, (mi, t)));
                        assert(out@.map_values(|x: MacroInstance| inst_view(x)) =~= before + self.found_in(
                            v0,
                            mv,
                            cs,
                            j + 1,
                        ));
                    }
                    j = j + 1;
                }
            } else {
                proof {
                    assert(cs =~= Seq::<(u32, u8)>::empty());
                }
            }
            proof {
                assert(out@.map_values(|x: MacroInstance| inst_view(x)) =~= o0 + self.found_upto(
                    v0,
                    legal@,
                    i + 1,
                ));
            }
            i = i + 1;
        }
    }

    pub fn is_empty(&self) -> (r: bool)
        ensures
            r == (self.motif_seqs().len() == 0),
    {
        self.motifs.len() == 0
    }

    pub fn len(&self) -> (r: usize)
        ensures
            r == self.motif_seqs().len(),
    {
        self.motifs.len()
    }
}

} // verus!
