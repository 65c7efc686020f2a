//! Orbit reduction under a group of board symmetries: the systematic search
//! keeps a move only when it is the representative of its orbit (the least
//! move key among its images under the stabiliser). Within a group of
//! transforms every orbit has a representative, and only one; in a position
//! the group maps onto itself, the images of a legal move are legal, so the
//! representative kept is a legal move; and the transforms that also fix a
//! played move form a group that maps the position after the move onto
//! itself, so the reduction stays sound along a game.
use crate::game::board::Pos;
use crate::game::line::{dir_delta, line_point, pos_int, Dir, Line};
use crate::game::line_index::lines_conflict_spec;
use crate::game::moves::Move;
use crate::game::state::{view_apply, GameView};
use crate::search::nrpa::macros::occupied_pt;
use crate::search::nrpa::init_view;
use crate::record::cross::{cross_w, lemma_cross_symmetric};
use crate::game::rules::Variant;
use crate::search::systematic::legal_view;
use crate::game::rules::{variant_forbid, variant_len};
use crate::search::neural::features::{compose_t, inv_t, lemma_compose_table};
use crate::search::nrpa::toggled_all;
use crate::search::symmetry::{
    image_zobrist, k_small, key_lt, line_end, line_small, move_key_spec, sym_small, move_small, orbit_min_spec,
    pos_min_spec, seq_min, stab_has, toggled, transform_dir_spec, transform_spec, transformed_end_spec,
};
use vstd::prelude::*;

verus! {

/// Applying `t`, then `s`, about the same centre is applying their
/// composition.
proof fn lemma_transform_compose(s: int, t: int, x: int, y: int, k: int)
    requires
        0 <= s < 8,
        0 <= t < 8,
    ensures
        transform_spec(s, transform_spec(t, x, y, k).0, transform_spec(t, x, y, k).1, k)
            == transform_spec(compose_t(s, t), x, y, k),
        0 <= compose_t(s, t) < 8,
{
}

/// Directions compose the same way.
proof fn lemma_dir_compose(s: int, t: int, d: Dir)
    requires
        0 <= s < 8,
        0 <= t < 8,
    ensures
        transform_dir_spec(s, transform_dir_spec(t, d)) == transform_dir_spec(compose_t(s, t), d),
{
}

/// The image of a line's segment is the segment of the transformed
/// direction between the images of its ends: from the smaller image, one
/// step of the new direction `n - 1` times reaches the other.
proof fn lemma_segment_image(t: int, l: Line, k: int, n: int)
    requires
        0 <= t < 8,
        1 <= n,
    ensures
        ({
            let a = transform_spec(t, l.origin.0 as int, l.origin.1 as int, k);
            let e = line_end(l, n);
            let b = transform_spec(t, e.0, e.1, k);
            let lo = pos_min_spec(a, b);
            let hi = if lo == a {
                b
            } else {
                a
            };
            let dd = dir_delta(transform_dir_spec(t, l.dir));
            hi == (lo.0 + (n - 1) * dd.0, lo.1 + (n - 1) * dd.1)
        }),
{
    let m = n - 1;
    assert(m >= 0);
    match l.dir {
        Dir::H => {},
        Dir::V => {},
        Dir::DP => {},
        Dir::DN => {},
    }
}

/// The image of point `p` under transform `t`.
pub open spec fn point_image(t: int, p: Pos, k: int) -> Pos {
    let q = transform_spec(t, p.0 as int, p.1 as int, k);
    (q.0 as i16, q.1 as i16)
}

/// The image of a line of `n` points under transform `t`, in canonical form
/// (origin at the smaller end).
pub open spec fn line_image(t: int, l: Line, k: int, n: int) -> Line {
    let e = transformed_end_spec(t, l, k, n);
    Line { origin: (e.0 as i16, e.1 as i16), dir: transform_dir_spec(t, l.dir) }
}

/// Whether transform `t` reverses the order of the points of line `l`: the
/// image of its far end is the smaller end.
pub open spec fn reverses(t: int, l: Line, k: int, n: int) -> bool {
    pos_min_spec(
        transform_spec(t, l.origin.0 as int, l.origin.1 as int, k),
        transform_spec(t, line_end(l, n).0, line_end(l, n).1, k),
    ) != transform_spec(t, l.origin.0 as int, l.origin.1 as int, k)
}

/// The image of move `m` under transform `t`: the transformed point on the
/// transformed line, at its place along the image line.
pub open spec fn move_image(t: int, m: Move, k: int, n: int) -> Move {
    Move {
        pos: point_image(t, m.pos, k),
        line: line_image(t, m.line, k, n),
        line_pos: if reverses(t, m.line, k, n) {
            (n - 1 - m.line_pos) as u8
        } else {
            m.line_pos
        },
    }
}

/// Small coordinates stay small under a transform.
proof fn lemma_transform_small(t: int, x: int, y: int, k: int)
    requires
        0 <= t < 8,
        -15100 <= x <= 15100,
        -15100 <= y <= 15100,
        -16 <= k <= 16,
    ensures
        -15200 <= transform_spec(t, x, y, k).0 <= 15200,
        -15200 <= transform_spec(t, x, y, k).1 <= 15200,
{
}

/// A transform moves coordinates by at most the centre parameter.
proof fn lemma_transform_bound(t: int, x: int, y: int, k: int, b: int)
    requires
        0 <= t < 8,
        -b <= x <= b,
        -b <= y <= b,
        -16 <= k <= 16,
    ensures
        -b - 16 <= transform_spec(t, x, y, k).0 <= b + 16,
        -b - 16 <= transform_spec(t, x, y, k).1 <= b + 16,
{
}

/// The keys of an image are keys of the original under the composed
/// transforms.
pub proof fn lemma_image_key(u: int, t: int, m: Move, k: int, n: int)
    requires
        0 <= u < 8,
        0 <= t < 8,
        move_small(m),
        -16 <= k <= 16,
        1 <= n <= 8,
    ensures
        move_key_spec(u, move_image(t, m, k, n), k, n) == move_key_spec(compose_t(u, t), m, k, n),
{
    let mi = move_image(t, m, k, n);
    let e0 = (m.line.origin.0 as int, m.line.origin.1 as int);
    let e1 = line_end(m.line, n);
    let a = transform_spec(t, e0.0, e0.1, k);
    let b = transform_spec(t, e1.0, e1.1, k);
    let p = transform_spec(t, m.pos.0 as int, m.pos.1 as int, k);
    lemma_transform_small(t, m.pos.0 as int, m.pos.1 as int, k);
    lemma_transform_small(t, e0.0, e0.1, k);
    let dx = dir_delta(m.line.dir).0 as int;
    let dy = dir_delta(m.line.dir).1 as int;
    assert(-7 <= (n - 1) * dx <= 7) by (nonlinear_arith)
        requires
            0 <= n - 1 <= 7,
            -1 <= dx <= 1,
    ;
    assert(-7 <= (n - 1) * dy <= 7) by (nonlinear_arith)
        requires
            0 <= n - 1 <= 7,
            -1 <= dy <= 1,
    ;
    lemma_transform_small(t, e1.0, e1.1, k);
    let lo = pos_min_spec(a, b);
    let hi = if lo == a {
        b
    } else {
        a
    };
    lemma_segment_image(t, m.line, k, n);
    assert((mi.pos.0 as int, mi.pos.1 as int) == p);
    assert((mi.line.origin.0 as int, mi.line.origin.1 as int) == lo);
    assert(line_end(mi.line, n) == hi);
    let c = compose_t(u, t);
    lemma_transform_compose(u, t, m.pos.0 as int, m.pos.1 as int, k);
    lemma_transform_compose(u, t, e0.0, e0.1, k);
    lemma_transform_compose(u, t, e1.0, e1.1, k);
    lemma_dir_compose(u, t, m.line.dir);
    let ua = transform_spec(u, a.0, a.1, k);
    let ub = transform_spec(u, b.0, b.1, k);
    assert(transformed_end_spec(u, mi.line, k, n) == pos_min_spec(
        transform_spec(u, lo.0, lo.1, k),
        transform_spec(u, hi.0, hi.1, k),
    ));
    assert(transformed_end_spec(c, m.line, k, n) == pos_min_spec(ua, ub));
}

/// A move's own key (under the identity) determines its keys under every
/// transform: it gives the move's point, its line's origin and direction.
proof fn lemma_key_determines(u: int, m1: Move, m2: Move, k: int, n: int)
    requires
        1 <= n,
        move_key_spec(0, m1, k, n) == move_key_spec(0, m2, k, n),
    ensures
        move_key_spec(u, m1, k, n) == move_key_spec(u, m2, k, n),
{
    let e1 = line_end(m1.line, n);
    let e2 = line_end(m2.line, n);
    assert((n - 1) * dir_delta(m1.line.dir).0 >= 0) by (nonlinear_arith)
        requires
            n >= 1,
            dir_delta(m1.line.dir).0 >= 0,
    ;
    assert((n - 1) * dir_delta(m2.line.dir).0 >= 0) by (nonlinear_arith)
        requires
            n >= 1,
            dir_delta(m2.line.dir).0 >= 0,
    ;
    assert(dir_delta(m1.line.dir).0 == 0 ==> (n - 1) * dir_delta(m1.line.dir).1 >= 0) by (nonlinear_arith)
        requires
            n >= 1,
            dir_delta(m1.line.dir).0 == 0 ==> dir_delta(m1.line.dir).1 >= 0,
    ;
    assert(dir_delta(m2.line.dir).0 == 0 ==> (n - 1) * dir_delta(m2.line.dir).1 >= 0) by (nonlinear_arith)
        requires
            n >= 1,
            dir_delta(m2.line.dir).0 == 0 ==> dir_delta(m2.line.dir).1 >= 0,
    ;
    assert(m1.pos == m2.pos);
    assert(m1.line.origin == m2.line.origin);
    assert(m1.line.dir == m2.line.dir);
}

/// The transforms of `stab` form a group: the identity is in it, and it is
/// closed under composition and inverse.
pub open spec fn stab_group(stab: u8) -> bool {
    &&& stab_has(stab, 0)
    &&& forall|s: int, t: int|
        #![trigger stab_has(stab, s), stab_has(stab, t)]
        0 <= s < 8 && 0 <= t < 8 && stab_has(stab, s) && stab_has(stab, t) ==> stab_has(stab, compose_t(s, t))
    &&& forall|t: int| 0 <= t < 8 && #[trigger] stab_has(stab, t) ==> stab_has(stab, inv_t(t))
}

/// A transform of `stab` among the first `i` giving `m` its least key.
proof fn lemma_least_key(m: Move, stab: u8, k: int, n: int, i: int) -> (b: int)
    requires
        stab_has(stab, 0),
        1 <= i <= 8,
    ensures
        0 <= b < i,
        stab_has(stab, b),
        forall|u: int| 0 <= u < i && #[trigger] stab_has(stab, u) ==> !key_lt(move_key_spec(u, m, k, n), move_key_spec(b, m, k, n)),
    decreases i,
{
    if i == 1 {
        0
    } else {
        let b0 = lemma_least_key(m, stab, k, n, i - 1);
        let j = i - 1;
        if stab_has(stab, j) && key_lt(move_key_spec(j, m, k, n), move_key_spec(b0, m, k, n)) {
            j
        } else {
            b0
        }
    }
}

/// Every orbit has a representative: within a group of transforms, some
/// transform maps any move to a move whose key is the least of its orbit.
pub proof fn lemma_orbit_has_representative(m: Move, stab: u8, k: int, n: int) -> (t: int)
    requires
        move_small(m),
        -16 <= k <= 16,
        1 <= n <= 8,
        stab_group(stab),
    ensures
        0 <= t < 8,
        stab_has(stab, t),
        move_key_spec(0, move_image(t, m, k, n), k, n) == move_key_spec(t, m, k, n),
        orbit_min_spec(move_image(t, m, k, n), stab, k, n),
{
    let b = lemma_least_key(m, stab, k, n, 8);
    let mi = move_image(b, m, k, n);
    lemma_image_key(0, b, m, k, n);
    assert forall|u: int| 1 <= u < 8 && #[trigger] stab_has(stab, u) implies !key_lt(
        move_key_spec(u, mi, k, n),
        move_key_spec(0, mi, k, n),
    ) by {
        lemma_image_key(u, b, m, k, n);
        lemma_transform_compose(u, b, 0, 0, k);
        assert(stab_has(stab, compose_t(u, b)));
    }
    b
}

/// An orbit has only one representative: two moves of the same orbit under
/// a group of transforms that both have the least key of the orbit have the
/// same key.
pub proof fn lemma_orbit_representative_unique(m1: Move, m2: Move, t: int, stab: u8, k: int, n: int)
    requires
        move_small(m1),
        -16 <= k <= 16,
        1 <= n <= 8,
        stab_group(stab),
        0 <= t < 8,
        stab_has(stab, t),
        move_key_spec(0, m2, k, n) == move_key_spec(t, m1, k, n),
        orbit_min_spec(m1, stab, k, n),
        orbit_min_spec(m2, stab, k, n),
    ensures
        move_key_spec(0, m1, k, n) == move_key_spec(0, m2, k, n),
{
    if t != 0 {
        let mi = move_image(t, m1, k, n);
        let v = inv_t(t);
        lemma_compose_table(0, t);
        lemma_image_key(0, t, m1, k, n);
        lemma_image_key(v, t, m1, k, n);
        lemma_key_determines(v, mi, m2, k, n);
        assert(stab_has(stab, v));
        assert(v != 0);
        assert(!key_lt(move_key_spec(v, m2, k, n), move_key_spec(0, m2, k, n)));
        assert(!key_lt(move_key_spec(t, m1, k, n), move_key_spec(0, m1, k, n)));
    }
}

/// The transforms of a group that also fix a move's key form a group: the
/// stabiliser stays a group along a game, so the orbit reduction keeps
/// applying.
pub proof fn lemma_stab_after_group(stab: u8, r: u8, m: Move, k: int, n: int)
    requires
        stab_group(stab),
        move_small(m),
        -16 <= k <= 16,
        1 <= n <= 8,
        forall|t: int|
            0 <= t < 8 ==> #[trigger] stab_has(r, t) == (stab_has(stab, t) && move_key_spec(t, m, k, n)
                == move_key_spec(0, m, k, n)),
    ensures
        stab_group(r),
{
    assert(stab_has(r, 0));
    assert forall|s: int, t: int|
        #![trigger stab_has(r, s), stab_has(r, t)]
        0 <= s < 8 && 0 <= t < 8 && stab_has(r, s) && stab_has(r, t) implies stab_has(r, compose_t(s, t)) by {
        let mi = move_image(t, m, k, n);
        lemma_image_key(0, t, m, k, n);
        lemma_image_key(s, t, m, k, n);
        lemma_compose_table(0, t);
        lemma_transform_compose(s, t, 0, 0, k);
        lemma_key_determines(s, mi, m, k, n);
        assert(stab_has(stab, s) && stab_has(stab, t));
    }
    assert forall|t: int| 0 <= t < 8 && #[trigger] stab_has(r, t) implies stab_has(r, inv_t(t)) by {
        let mi = move_image(t, m, k, n);
        let v = inv_t(t);
        lemma_compose_table(0, t);
        lemma_image_key(0, t, m, k, n);
        lemma_image_key(v, t, m, k, n);
        lemma_key_determines(v, mi, m, k, n);
    }
}

/// All eight transforms form a group (the stabiliser of the initial cross).
pub proof fn lemma_full_stab_group()
    ensures
        stab_group(255u8),
{
    assert forall|t: int| 0 <= t < 8 implies #[trigger] stab_has(255u8, t) by {
        let tt = t as u8;
        assert((255u8 >> tt) & 1u8 == 1u8) by (bit_vector)
            requires
                tt < 8,
        ;
    }
    assert forall|s: int, t: int| 0 <= s < 8 && 0 <= t < 8 implies 0 <= #[trigger] compose_t(s, t) < 8 by {
        lemma_transform_compose(s, t, 0, 0, 0);
    }
    assert forall|t: int| 0 <= t < 8 implies 0 <= #[trigger] inv_t(t) < 8 by {}
}

/// The image of a line's origin, its far end and the canonical origin of the
/// image line stay well inside the coordinate range.
proof fn lemma_line_image_small(t: int, l: Line, k: int, n: int)
    requires
        0 <= t < 8,
        line_small(l),
        -16 <= k <= 16,
        1 <= n <= 8,
    ensures
        -15200 <= transformed_end_spec(t, l, k, n).0 <= 15200,
        -15200 <= transformed_end_spec(t, l, k, n).1 <= 15200,
        -15100 <= line_end(l, n).0 <= 15100,
        -15100 <= line_end(l, n).1 <= 15100,
{
    let dx = dir_delta(l.dir).0 as int;
    let dy = dir_delta(l.dir).1 as int;
    assert(-7 <= (n - 1) * dx <= 7) by (nonlinear_arith)
        requires
            0 <= n - 1 <= 7,
            -1 <= dx <= 1,
    ;
    assert(-7 <= (n - 1) * dy <= 7) by (nonlinear_arith)
        requires
            0 <= n - 1 <= 7,
            -1 <= dy <= 1,
    ;
    lemma_transform_small(t, l.origin.0 as int, l.origin.1 as int, k);
    lemma_transform_small(t, line_end(l, n).0, line_end(l, n).1, k);
}

/// A transform is affine: moving `j` steps of `(dx, dy)` moves the image `j`
/// steps of the image of `(dx, dy)` about the origin.
proof fn lemma_affine(t: int, x: int, y: int, j: int, dx: int, dy: int, k: int)
    requires
        0 <= t < 8,
    ensures
        transform_spec(t, x + j * dx, y + j * dy, k) == (
            transform_spec(t, x, y, k).0 + j * transform_spec(t, dx, dy, 0).0,
            transform_spec(t, x, y, k).1 + j * transform_spec(t, dx, dy, 0).1,
        ),
{
    assert(j * (0 - dx) == -(j * dx)) by (nonlinear_arith);
    assert(j * (0 - dy) == -(j * dy)) by (nonlinear_arith);
    assert(j * (-dx) == -(j * dx)) by (nonlinear_arith);
    assert(j * (-dy) == -(j * dy)) by (nonlinear_arith);
}

/// Cancelling a positive factor.
proof fn lemma_cancel(c: int, x: int, y: int)
    requires
        c > 0,
        c * x == c * y,
    ensures
        x == y,
{
    assert(x == y) by (nonlinear_arith)
        requires
            c > 0,
            c * x == c * y,
    ;
}

/// Point `j` of a line maps to point `j` of the image line, or to point
/// `n - 1 - j` when the transform reverses the line.
pub proof fn lemma_line_point_image(t: int, l: Line, k: int, n: int, j: int)
    requires
        0 <= t < 8,
        line_small(l),
        -16 <= k <= 16,
        1 <= n <= 8,
        0 <= j < n,
    ensures
        transform_spec(t, line_point(l, j).0, line_point(l, j).1, k) == line_point(
            line_image(t, l, k, n),
            if reverses(t, l, k, n) {
                n - 1 - j
            } else {
                j
            },
        ),
{
    lemma_line_image_small(t, l, k, n);
    lemma_segment_image(t, l, k, n);
    let li = line_image(t, l, k, n);
    let e = transformed_end_spec(t, l, k, n);
    assert(li.origin.0 as int == e.0 && li.origin.1 as int == e.1);
    let ox = l.origin.0 as int;
    let oy = l.origin.1 as int;
    let dx = dir_delta(l.dir).0 as int;
    let dy = dir_delta(l.dir).1 as int;
    let ldx = transform_spec(t, dx, dy, 0).0;
    let ldy = transform_spec(t, dx, dy, 0).1;
    let ndx = dir_delta(li.dir).0 as int;
    let ndy = dir_delta(li.dir).1 as int;
    let a = transform_spec(t, ox, oy, k);
    let b = transform_spec(t, line_end(l, n).0, line_end(l, n).1, k);
    lemma_affine(t, ox, oy, n - 1, dx, dy, k);
    lemma_affine(t, ox, oy, j, dx, dy, k);
    assert(b == (a.0 + (n - 1) * ldx, a.1 + (n - 1) * ldy));
    let img = transform_spec(t, line_point(l, j).0, line_point(l, j).1, k);
    assert(img == (a.0 + j * ldx, a.1 + j * ldy));
    let lo = pos_min_spec(a, b);
    if !reverses(t, l, k, n) {
        assert(lo == a);
        assert(b == (a.0 + (n - 1) * ndx, a.1 + (n - 1) * ndy));
        if n > 1 {
            lemma_cancel(n - 1, ldx, ndx);
            lemma_cancel(n - 1, ldy, ndy);
        } else {
            assert(j == 0);
        }
        assert(line_point(li, j) == (e.0 + j * ndx, e.1 + j * ndy));
    } else {
        assert(lo == b);
        assert(a == (b.0 + (n - 1) * ndx, b.1 + (n - 1) * ndy));
        assert((n - 1) * ldx + (n - 1) * ndx == 0);
        assert((n - 1) * ldy + (n - 1) * ndy == 0);
        if n > 1 {
            assert((n - 1) * ldx == (n - 1) * (-ndx)) by (nonlinear_arith)
                requires
                    (n - 1) * ldx + (n - 1) * ndx == 0,
            ;
            assert((n - 1) * ldy == (n - 1) * (-ndy)) by (nonlinear_arith)
                requires
                    (n - 1) * ldy + (n - 1) * ndy == 0,
            ;
            lemma_cancel(n - 1, ldx, -ndx);
            lemma_cancel(n - 1, ldy, -ndy);
            assert(j * ldx == -(j * ndx)) by (nonlinear_arith)
                requires
                    ldx == -ndx,
            ;
            assert(j * ldy == -(j * ndy)) by (nonlinear_arith)
                requires
                    ldy == -ndy,
            ;
            assert((n - 1 - j) * ndx == (n - 1) * ndx - j * ndx) by (nonlinear_arith);
            assert((n - 1 - j) * ndy == (n - 1) * ndy - j * ndy) by (nonlinear_arith);
            assert((n - 1) * ldx == -((n - 1) * ndx)) by (nonlinear_arith)
                requires
                    ldx == -ndx,
            ;
            assert((n - 1) * ldy == -((n - 1) * ndy)) by (nonlinear_arith)
                requires
                    ldy == -ndy,
            ;
        } else {
            assert(b == a);
        }
        assert(line_point(li, n - 1 - j) == (e.0 + (n - 1 - j) * ndx, e.1 + (n - 1 - j) * ndy));
    }
}

/// Transforms keep the touch rule: two lines conflict exactly when their
/// images do.
#[verifier::spinoff_prover]
#[verifier::rlimit(40)]
pub proof fn lemma_conflict_image(t: int, a: Line, b: Line, k: int, n: int, f: int)
    requires
        0 <= t < 8,
        line_small(a),
        line_small(b),
        -16 <= k <= 16,
        1 <= n <= 8,
    ensures
        lines_conflict_spec(line_image(t, a, k, n), line_image(t, b, k, n), f) == lines_conflict_spec(a, b, f),
{
    lemma_line_image_small(t, a, k, n);
    lemma_line_image_small(t, b, k, n);
    lemma_segment_image(t, a, k, n);
    lemma_segment_image(t, b, k, n);
    let ia = line_image(t, a, k, n);
    let ib = line_image(t, b, k, n);
    assert(ia.origin.0 as int == transformed_end_spec(t, a, k, n).0);
    assert(ia.origin.1 as int == transformed_end_spec(t, a, k, n).1);
    assert(ib.origin.0 as int == transformed_end_spec(t, b, k, n).0);
    assert(ib.origin.1 as int == transformed_end_spec(t, b, k, n).1);
    if a.dir == b.dir {
        match a.dir {
            Dir::H => {
                if t == 0 {
                } else if t == 1 {
                } else if t == 2 {
                } else if t == 3 {
                } else if t == 4 {
                } else if t == 5 {
                } else if t == 6 {
                } else {
                }
            },
            Dir::V => {
                if t == 0 {
                } else if t == 1 {
                } else if t == 2 {
                } else if t == 3 {
                } else if t == 4 {
                } else if t == 5 {
                } else if t == 6 {
                } else {
                }
            },
            Dir::DP => {
                if t == 0 {
                } else if t == 1 {
                } else if t == 2 {
                } else if t == 3 {
                } else if t == 4 {
                } else if t == 5 {
                } else if t == 6 {
                } else {
                }
            },
            Dir::DN => {
                if t == 0 {
                } else if t == 1 {
                } else if t == 2 {
                } else if t == 3 {
                } else if t == 4 {
                } else if t == 5 {
                } else if t == 6 {
                } else {
                }
            },
        }
    } else {
        assert(ia.dir != ib.dir);
    }
}

/// Transforming a line twice is transforming it once by the composition.
proof fn lemma_line_image_compose(s: int, t: int, l: Line, k: int, n: int)
    requires
        0 <= s < 8,
        0 <= t < 8,
        line_small(l),
        -16 <= k <= 16,
        1 <= n <= 8,
    ensures
        line_image(s, line_image(t, l, k, n), k, n) == line_image(compose_t(s, t), l, k, n),
{
    let m = Move { pos: l.origin, line: l, line_pos: 0 };
    assert(move_small(m));
    lemma_image_key(s, t, m, k, n);
    lemma_line_image_small(t, l, k, n);
    lemma_line_image_small(compose_t(s, t), l, k, n);
    lemma_dir_compose(s, t, l.dir);
    lemma_transform_compose(s, t, 0, 0, k);
    let li = line_image(t, l, k, n);
    assert(move_image(t, m, k, n).line == li);
    let e2 = transformed_end_spec(s, li, k, n);
    let e3 = transformed_end_spec(compose_t(s, t), l, k, n);
    assert(e2 == e3);
}

/// Undoing a transform: the image of a line's image under the inverse
/// transform is the line itself; likewise for points.
proof fn lemma_image_inverse(t: int, l: Line, p: Pos, k: int, n: int)
    requires
        0 <= t < 8,
        line_small(l),
        sym_small(p),
        -16 <= k <= 16,
        1 <= n <= 8,
    ensures
        line_image(t, line_image(inv_t(t), l, k, n), k, n) == l,
        point_image(t, point_image(inv_t(t), p, k), k) == p,
        0 <= inv_t(t) < 8,
{
    lemma_compose_table(0, t);
    assert(compose_t(t, inv_t(t)) == 0);
    lemma_line_image_compose(t, inv_t(t), l, k, n);
    let dx = dir_delta(l.dir).0 as int;
    let dy = dir_delta(l.dir).1 as int;
    assert((n - 1) * dx >= 0) by (nonlinear_arith)
        requires
            n >= 1,
            dx >= 0,
    ;
    assert(dx == 0 ==> (n - 1) * dy >= 0) by (nonlinear_arith)
        requires
            n >= 1,
            dx == 0 ==> dy >= 0,
    ;
    assert(line_image(0, l, k, n) == l);
    lemma_transform_bound(inv_t(t), p.0 as int, p.1 as int, k, 16000);
    lemma_transform_compose(t, inv_t(t), p.0 as int, p.1 as int, k);
}

/// Transform `t` maps the position `v` onto itself: its occupied points and
/// its drawn lines.
pub open spec fn view_fixed(v: GameView, t: int, k: int, n: int) -> bool {
    &&& forall|p: Pos|
        sym_small(p) ==> (v.occupied.contains(#[trigger] point_image(t, p, k)) <==> v.occupied.contains(p))
    &&& forall|l: Line|
        line_small(l) ==> (v.lines.contains(#[trigger] line_image(t, l, k, n)) <==> v.lines.contains(l))
}

/// Every drawn line of `v` is small.
pub open spec fn lines_small(v: GameView) -> bool {
    forall|l: Line| #[trigger] v.lines.contains(l) ==> line_small(l)
}

/// A point of the image line other than the image move's is placed.
#[verifier::spinoff_prover]
proof fn lemma_image_dep(v: GameView, m: Move, t: int, k: int, kk: int)
    requires
        0 <= t < 8,
        move_small(m),
        -16 <= k <= 16,
        1 <= variant_len(v.variant) <= 8,
        view_fixed(v, t, k, variant_len(v.variant) as int),
        legal_view(v, m),
        0 <= kk < variant_len(v.variant),
        kk != move_image(t, m, k, variant_len(v.variant) as int).line_pos,
    ensures
        occupied_pt(v, line_point(move_image(t, m, k, variant_len(v.variant) as int).line, kk)),
{
    let n = variant_len(v.variant) as int;
    let mi = move_image(t, m, k, n);
    let lp = m.line_pos as int;
    let rev = reverses(t, m.line, k, n);
    let j = if rev {
        n - 1 - kk
    } else {
        kk
    };
    assert(j != lp);
    lemma_line_point_image(t, m.line, k, n, j);
    let pt = line_point(m.line, j);
    assert(occupied_pt(v, pt));
    let q: Pos = (pt.0 as i16, pt.1 as i16);
    let dx = dir_delta(m.line.dir).0 as int;
    let dy = dir_delta(m.line.dir).1 as int;
    assert(-7 <= j * dx <= 7) by (nonlinear_arith)
        requires
            0 <= j <= 7,
            -1 <= dx <= 1,
    ;
    assert(-7 <= j * dy <= 7) by (nonlinear_arith)
        requires
            0 <= j <= 7,
            -1 <= dy <= 1,
    ;
    assert(sym_small(q));
    assert(v.occupied.contains(q));
    assert(v.occupied.contains(point_image(t, q, k)));
    lemma_transform_small(t, pt.0, pt.1, k);
}

/// The image of a legal move has its point free and the other points of its
/// line placed, in a position the transform maps onto itself.
#[verifier::spinoff_prover]
proof fn lemma_image_points(v: GameView, m: Move, t: int, k: int)
    requires
        0 <= t < 8,
        move_small(m),
        -16 <= k <= 16,
        1 <= variant_len(v.variant) <= 8,
        view_fixed(v, t, k, variant_len(v.variant) as int),
        legal_view(v, m),
    ensures
        ({
            let n = variant_len(v.variant) as int;
            let mi = move_image(t, m, k, n);
            &&& mi.line_pos < n
            &&& pos_int(mi.pos) == line_point(mi.line, mi.line_pos as int)
            &&& !v.occupied.contains(mi.pos)
            &&& forall|kk: int|
                #![trigger line_point(mi.line, kk)]
                0 <= kk < n && kk != mi.line_pos ==> occupied_pt(v, line_point(mi.line, kk))
        }),
{
    let n = variant_len(v.variant) as int;
    let mi = move_image(t, m, k, n);
    let lp = m.line_pos as int;
    lemma_line_point_image(t, m.line, k, n, lp);
    lemma_transform_small(t, m.pos.0 as int, m.pos.1 as int, k);
    assert(pos_int(mi.pos) == transform_spec(t, m.pos.0 as int, m.pos.1 as int, k));
    assert(sym_small(m.pos));
    assert(!v.occupied.contains(point_image(t, m.pos, k)));
    assert forall|kk: int|
        #![trigger line_point(mi.line, kk)]
        0 <= kk < n && kk != mi.line_pos implies occupied_pt(v, line_point(mi.line, kk)) by {
        lemma_image_dep(v, m, t, k, kk);
    }
}

/// In a position that a transform and its inverse map onto itself, the
/// transform maps every legal move to a legal move.
#[verifier::spinoff_prover]
pub proof fn lemma_image_legal(v: GameView, m: Move, t: int, k: int)
    requires
        0 <= t < 8,
        move_small(m),
        -16 <= k <= 16,
        1 <= variant_len(v.variant) <= 8,
        lines_small(v),
        view_fixed(v, t, k, variant_len(v.variant) as int),
        view_fixed(v, inv_t(t), k, variant_len(v.variant) as int),
        legal_view(v, m),
    ensures
        legal_view(v, move_image(t, m, k, variant_len(v.variant) as int)),
{
    let n = variant_len(v.variant) as int;
    let mi = move_image(t, m, k, n);
    lemma_image_points(v, m, t, k);
    let f = variant_forbid(v.variant) as int;
    if exists|l2: Line| #[trigger] v.lines.contains(l2) && lines_conflict_spec(l2, mi.line, f) {
        let l2 = choose|l2: Line| #[trigger] v.lines.contains(l2) && lines_conflict_spec(l2, mi.line, f);
        assert(line_small(l2));
        let l3 = line_image(inv_t(t), l2, k, n);
        lemma_image_inverse(t, l2, m.pos, k, n);
        assert(v.lines.contains(l3));
        assert(line_small(l3));
        lemma_conflict_image(t, l3, m.line, k, n, f);
        assert(lines_conflict_spec(l3, m.line, f));
    }
}

/// Every transform of `stab` maps the position `v` onto itself.
pub open spec fn stab_fixes(v: GameView, stab: u8, k: int) -> bool {
    forall|t: int| 0 <= t < 8 && #[trigger] stab_has(stab, t) ==> view_fixed(v, t, k, variant_len(v.variant) as int)
}

/// The orbit reduction loses no move: in a position fixed by a group of
/// transforms, every legal move has an image under the group that is legal
/// and is the representative of its orbit, so it is kept.
pub proof fn lemma_orbit_reduction_complete(v: GameView, m: Move, stab: u8, k: int) -> (t: int)
    requires
        move_small(m),
        -16 <= k <= 16,
        1 <= variant_len(v.variant) <= 8,
        lines_small(v),
        stab_group(stab),
        stab_fixes(v, stab, k),
        legal_view(v, m),
    ensures
        0 <= t < 8,
        stab_has(stab, t),
        legal_view(v, move_image(t, m, k, variant_len(v.variant) as int)),
        orbit_min_spec(move_image(t, m, k, variant_len(v.variant) as int), stab, k, variant_len(v.variant) as int),
{
    let n = variant_len(v.variant) as int;
    let t = lemma_orbit_has_representative(m, stab, k, n);
    lemma_compose_table(0, t);
    assert(stab_has(stab, inv_t(t)));
    lemma_image_legal(v, m, t, k);
    t
}

/// A transform that fixes a position and the key of a move fixes the
/// position after the move.
#[verifier::spinoff_prover]
#[verifier::rlimit(40)]
pub proof fn lemma_fixed_after_move(v: GameView, m: Move, t: int, k: int)
    requires
        0 <= t < 8,
        move_small(m),
        -16 <= k <= 16,
        1 <= variant_len(v.variant) <= 8,
        view_fixed(v, t, k, variant_len(v.variant) as int),
        move_key_spec(t, m, k, variant_len(v.variant) as int) == move_key_spec(0, m, k, variant_len(v.variant) as int),
    ensures
        view_fixed(view_apply(v, m), t, k, variant_len(v.variant) as int),
{
    let n = variant_len(v.variant) as int;
    let w = view_apply(v, m);
    let u = inv_t(t);
    lemma_compose_table(0, t);
    lemma_compose_table(0, u);
    assert(inv_t(u) == t);
    lemma_line_image_small(t, m.line, k, n);
    lemma_transform_small(t, m.pos.0 as int, m.pos.1 as int, k);
    assert(point_image(t, m.pos, k) == m.pos);
    let dx = dir_delta(m.line.dir).0 as int;
    let dy = dir_delta(m.line.dir).1 as int;
    assert((n - 1) * dx >= 0) by (nonlinear_arith)
        requires
            n >= 1,
            dx >= 0,
    ;
    assert(dx == 0 ==> (n - 1) * dy >= 0) by (nonlinear_arith)
        requires
            n >= 1,
            dx == 0 ==> dy >= 0,
    ;
    assert(transformed_end_spec(0, m.line, k, n) == (m.line.origin.0 as int, m.line.origin.1 as int));
    assert(line_image(t, m.line, k, n) == m.line);
    assert forall|p: Pos| sym_small(p) implies (w.occupied.contains(#[trigger] point_image(t, p, k)) <==> w.occupied.contains(p)) by {
        lemma_image_inverse(u, m.line, p, k, n);
        lemma_image_inverse(u, m.line, m.pos, k, n);
        lemma_transform_bound(t, p.0 as int, p.1 as int, k, 16000);
        if point_image(t, p, k) == m.pos {
            assert(point_image(u, point_image(t, p, k), k) == p);
            assert(point_image(u, m.pos, k) == m.pos);
        }
    }
    assert forall|l: Line| line_small(l) implies (w.lines.contains(#[trigger] line_image(t, l, k, n)) <==> w.lines.contains(l)) by {
        let pp = l.origin;
        lemma_image_inverse(u, l, m.pos, k, n);
        if line_image(t, l, k, n) == m.line {
            assert(line_image(u, line_image(t, l, k, n), k, n) == l);
            lemma_image_inverse(u, m.line, m.pos, k, n);
            assert(line_image(u, m.line, k, n) == m.line);
        }
    }
}

/// Along a game the reduction stays sound: when a group of transforms fixes
/// the position, the transforms of the group that fix a played move's key
/// form a group that fixes the position after the move.
pub proof fn lemma_stab_after_fixes(v: GameView, stab: u8, r: u8, m: Move, k: int)
    requires
        stab_group(stab),
        stab_fixes(v, stab, k),
        move_small(m),
        -16 <= k <= 16,
        1 <= variant_len(v.variant) <= 8,
        forall|t: int|
            0 <= t < 8 ==> #[trigger] stab_has(r, t) == (stab_has(stab, t) && move_key_spec(
                t,
                m,
                k,
                variant_len(v.variant) as int,
            ) == move_key_spec(0, m, k, variant_len(v.variant) as int)),
    ensures
        stab_group(r),
        stab_fixes(view_apply(v, m), r, k),
{
    let n = variant_len(v.variant) as int;
    lemma_stab_after_group(stab, r, m, k, n);
    assert forall|t: int| 0 <= t < 8 && #[trigger] stab_has(r, t) implies view_fixed(
        view_apply(v, m),
        t,
        k,
        variant_len(view_apply(v, m).variant) as int,
    ) by {
        lemma_fixed_after_move(v, m, t, k);
    }
}

/// The start of a game is fixed by all eight transforms about the centre of
/// the cross's bounding square.
pub proof fn lemma_start_fixed(variant: Variant)
    ensures
        stab_fixes(init_view(variant), 255u8, cross_w(variant_len(variant) as int)),
{
    let n = variant_len(variant) as int;
    let k = cross_w(n);
    let v = init_view(variant);
    assert(n == 4 || n == 5);
    assert(-16 <= k <= 16);
    lemma_full_stab_group();
    assert forall|t: int| 0 <= t < 8 && #[trigger] stab_has(255u8, t) implies view_fixed(v, t, k, n) by {
        assert forall|p: Pos| sym_small(p) implies (v.occupied.contains(#[trigger] point_image(t, p, k))
            <==> v.occupied.contains(p)) by {
            lemma_transform_bound(t, p.0 as int, p.1 as int, k, 16000);
            lemma_cross_symmetric(n, t, p.0 as int, p.1 as int);
        }
        assert forall|l: Line| line_small(l) implies (v.lines.contains(#[trigger] line_image(t, l, k, n))
            <==> v.lines.contains(l)) by {}
    }
}


/// The 8 hashes of a board holding the points `ps`, toggled in one by one
/// from all zeros (as `SymmetryHashes::new` and `toggle` keep them).
pub open spec fn board_hashes(ps: Seq<Pos>, k: i16) -> Seq<u64> {
    toggled_all(Seq::new(8, |t: int| 0u64), ps, k)
}

/// The points `ps` under transform `s`.
pub open spec fn points_image(s: int, ps: Seq<Pos>, k: int) -> Seq<Pos> {
    Seq::new(ps.len(), |i: int| point_image(s, ps[i], k))
}

/// The hashes of a board's image under `s` are the board's own hashes,
/// permuted: hash `t` of the image is hash `t ∘ s` of the board.
proof fn lemma_board_hashes_image(ps: Seq<Pos>, s: int, k: i16)
    requires
        0 <= s < 8,
        k_small(k),
        forall|i: int| 0 <= i < ps.len() ==> sym_small(#[trigger] ps[i]),
    ensures
        board_hashes(ps, k).len() == 8,
        board_hashes(points_image(s, ps, k as int), k).len() == 8,
        forall|t: int|
            0 <= t < 8 ==> #[trigger] board_hashes(points_image(s, ps, k as int), k)[t] == board_hashes(ps, k)[compose_t(
                t,
                s,
            )],
    decreases ps.len(),
{
    let qs = points_image(s, ps, k as int);
    if ps.len() > 0 {
        let front = ps.drop_last();
        let p = ps.last();
        assert(points_image(s, front, k as int) =~= qs.drop_last());
        assert(sym_small(ps[ps.len() - 1]));
        lemma_board_hashes_image(front, s, k);
        assert forall|t: int| 0 <= t < 8 implies #[trigger] board_hashes(qs, k)[t] == board_hashes(ps, k)[compose_t(
            t,
            s,
        )] by {
            lemma_transform_compose(t, s, p.0 as int, p.1 as int, k as int);
            assert(qs.last() == point_image(s, p, k as int));
            assert(image_zobrist(t, qs.last(), k) == image_zobrist(compose_t(t, s), p, k));
        }
    }
}

/// The least of the first `i` values is at most each of them and is one of
/// them.
proof fn lemma_seq_min(h: Seq<u64>, i: int)
    requires
        1 <= i <= h.len(),
    ensures
        forall|t: int| 0 <= t < i ==> seq_min(h, i) <= #[trigger] h[t],
        exists|t: int| 0 <= t < i && seq_min(h, i) == h[t],
    decreases i,
{
    if i > 1 {
        lemma_seq_min(h, i - 1);
        let t0 = choose|t: int| 0 <= t < i - 1 && seq_min(h, i - 1) == h[t];
        if h[i - 1] >= seq_min(h, i - 1) {
            assert(seq_min(h, i) == h[t0]);
        } else {
            assert(seq_min(h, i) == h[i - 1]);
        }
    } else {
        assert(seq_min(h, i) == h[0]);
    }
}

/// The canonical hash is a fingerprint of the board up to symmetry: a board
/// and each of its eight images have the same least hash.
pub proof fn lemma_canonical_hash_invariant(ps: Seq<Pos>, s: int, k: i16)
    requires
        0 <= s < 8,
        k_small(k),
        forall|i: int| 0 <= i < ps.len() ==> sym_small(#[trigger] ps[i]),
    ensures
        seq_min(board_hashes(points_image(s, ps, k as int), k), 8) == seq_min(board_hashes(ps, k), 8),
{
    let h = board_hashes(ps, k);
    let g = board_hashes(points_image(s, ps, k as int), k);
    lemma_board_hashes_image(ps, s, k);
    lemma_seq_min(h, 8);
    lemma_seq_min(g, 8);
    let a = seq_min(h, 8);
    let b = seq_min(g, 8);
    let tb = choose|t: int| 0 <= t < 8 && b == g[t];
    assert(g[tb] == h[compose_t(tb, s)]);
    assert(a <= h[compose_t(tb, s)]);
    let ta = choose|t: int| 0 <= t < 8 && a == h[t];
    let u = compose_t(ta, inv_t(s));
    lemma_compose_table(ta, s);
    assert(g[u] == h[compose_t(u, s)]);
    assert(b <= g[u]);
}

} // verus!
