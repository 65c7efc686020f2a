//! Local-patch encoding of a `(state, move)` pair: an occupancy plane and a
//! line plane over a `(2R+1)×(2R+1)` patch centred on the move's point, and
//! their folding to a canonical D4 orientation.
//!
//! A plane is an array of `CELLS` booleans indexed by [`index`]; the eight D4
//! transforms act on patch offsets through their linear part ([`lin`]), which
//! maps the patch onto itself.
use crate::game::bits::{bit, lemma_bit_set, lemma_bit_zero};
use crate::game::line::{line_point, pos_int};
use crate::game::line_index::on_grid;
use crate::game::moves::Move;
use crate::game::rules::variant_len;
use crate::game::state::GameState;
use crate::search::symmetry::{lin_transform, transform_spec};
use vstd::prelude::*;

verus! {

/// Patch radius: the patch spans offsets `-R..=R` on each axis.
pub const R: i16 = 4;

/// Patch side length (`2R + 1`).
pub const SIDE: usize = 9;

/// Cells per plane (`SIDE * SIDE`).
pub const CELLS: usize = 81;

/// Length of the full feature vector: two planes and two scalars.
pub const FEATURE_LEN: usize = 164;

/// Whether an offset lies in the patch.
pub open spec fn in_patch(x: int, y: int) -> bool {
    -4 <= x <= 4 && -4 <= y <= 4
}

/// Cell index of a patch offset.
pub open spec fn index_spec(x: int, y: int) -> int {
    (y + 4) * 9 + (x + 4)
}

/// Patch offset of a cell index.
pub open spec fn offset_spec(i: int) -> (int, int) {
    (i % 9 - 4, i / 9 - 4)
}

/// The inverse of transform `t` (the rotations by 90° and 270° swap).
pub open spec fn inv_t(t: int) -> int {
    if t == 1 {
        3
    } else if t == 3 {
        1
    } else {
        t
    }
}

/// The transform applying `t` first, then `s`.
pub open spec fn compose_t(s: int, t: int) -> int {
    if s == 0 {
        if t == 0 { 0 } else if t == 1 { 1 } else if t == 2 { 2 } else if t == 3 { 3 } else if t == 4 { 4 } else if t == 5 { 5 } else if t == 6 { 6 } else { 7 }
    } else if s == 1 {
        if t == 0 { 1 } else if t == 1 { 2 } else if t == 2 { 3 } else if t == 3 { 0 } else if t == 4 { 6 } else if t == 5 { 7 } else if t == 6 { 5 } else { 4 }
    } else if s == 2 {
        if t == 0 { 2 } else if t == 1 { 3 } else if t == 2 { 0 } else if t == 3 { 1 } else if t == 4 { 5 } else if t == 5 { 4 } else if t == 6 { 7 } else { 6 }
    } else if s == 3 {
        if t == 0 { 3 } else if t == 1 { 0 } else if t == 2 { 1 } else if t == 3 { 2 } else if t == 4 { 7 } else if t == 5 { 6 } else if t == 6 { 4 } else { 5 }
    } else if s == 4 {
        if t == 0 { 4 } else if t == 1 { 7 } else if t == 2 { 5 } else if t == 3 { 6 } else if t == 4 { 0 } else if t == 5 { 2 } else if t == 6 { 3 } else { 1 }
    } else if s == 5 {
        if t == 0 { 5 } else if t == 1 { 6 } else if t == 2 { 4 } else if t == 3 { 7 } else if t == 4 { 2 } else if t == 5 { 0 } else if t == 6 { 1 } else { 3 }
    } else if s == 6 {
        if t == 0 { 6 } else if t == 1 { 4 } else if t == 2 { 7 } else if t == 3 { 5 } else if t == 4 { 1 } else if t == 5 { 3 } else if t == 6 { 0 } else { 2 }
    } else {
        if t == 0 { 7 } else if t == 1 { 5 } else if t == 2 { 6 } else if t == 3 { 4 } else if t == 4 { 3 } else if t == 5 { 1 } else if t == 6 { 2 } else { 0 }
    }
}
/// The image of plane `p` under transform `t`: the cell at `lin(t, o)` takes
/// the value of the cell at `o`.
pub open spec fn plane_image(t: int, p: Seq<bool>) -> Seq<bool> {
    Seq::new(
        81,
        |j: int|
            {
                let o = offset_spec(j);
                let q = transform_spec(inv_t(t), o.0, o.1, 0);
                p[index_spec(q.0, q.1)]
            },
    )
}

/// Bits `0..i` of the packed plane.
pub open spec fn pack_prefix(p: Seq<bool>, i: int) -> u128
    decreases i,
{
    if i <= 0 {
        0
    } else {
        let b = pack_prefix(p, i - 1);
        if p[i - 1] {
            b | (1u128 << ((i - 1) as u128))
        } else {
            b
        }
    }
}

/// A plane packed into a word: bit `i` is cell `i`.
pub open spec fn pack_spec(p: Seq<bool>) -> u128 {
    pack_prefix(p, 81)
}

/// The packed `(occupancy, line)` key of a patch under transform `t`.
pub open spec fn patch_key(t: int, occ: Seq<bool>, line: Seq<bool>) -> (u128, u128) {
    (pack_spec(plane_image(t, occ)), pack_spec(plane_image(t, line)))
}

/// Strict lexicographic order on patch keys.
pub open spec fn key_lt(a: (u128, u128), b: (u128, u128)) -> bool {
    a.0 < b.0 || (a.0 == b.0 && a.1 < b.1)
}

/// `r` is a transform whose key is least among all eight.
pub open spec fn is_canonical_transform(r: int, occ: Seq<bool>, line: Seq<bool>) -> bool {
    &&& 0 <= r < 8
    &&& forall|s: int| 0 <= s < 8 ==> !key_lt(#[trigger] patch_key(s, occ, line), patch_key(r, occ, line))
}

/// Index and offset are inverse on the patch.
proof fn lemma_index_offset(x: int, y: int)
    requires
        in_patch(x, y),
    ensures
        0 <= index_spec(x, y) < 81,
        offset_spec(index_spec(x, y)) == (x, y),
{
    let i = index_spec(x, y);
    assert(i % 9 == x + 4 && i / 9 == y + 4) by (nonlinear_arith)
        requires
            i == (y + 4) * 9 + (x + 4),
            0 <= x + 4 < 9,
            0 <= y + 4 < 9,
    ;
}

/// Offset and index are inverse on cell indices.
proof fn lemma_offset_index(i: int)
    requires
        0 <= i < 81,
    ensures
        in_patch(offset_spec(i).0, offset_spec(i).1),
        index_spec(offset_spec(i).0, offset_spec(i).1) == i,
{
    assert(0 <= i % 9 < 9 && 0 <= i / 9 < 9 && (i / 9) * 9 + i % 9 == i) by (nonlinear_arith)
        requires
            0 <= i < 81,
    ;
}

/// Composing the linear parts of two transforms.
pub(crate) proof fn lemma_lin_compose(s: int, t: int, x: int, y: int)
    requires
        0 <= s < 8,
        0 <= t < 8,
    ensures
        transform_spec(s, transform_spec(t, x, y, 0).0, transform_spec(t, x, y, 0).1, 0)
            == transform_spec(compose_t(s, t), x, y, 0),
        0 <= compose_t(s, t) < 8,
{
}

/// Inverses of compositions, and cancelling a transform.
pub(crate) proof fn lemma_compose_table(s: int, t: int)
    requires
        0 <= s < 8,
        0 <= t < 8,
    ensures
        inv_t(compose_t(s, t)) == compose_t(inv_t(t), inv_t(s)),
        compose_t(compose_t(s, inv_t(t)), t) == s,
        0 <= inv_t(t) < 8,
        compose_t(inv_t(t), t) == 0,
{
}

/// Each transform maps the patch onto itself: it keeps offsets in the patch,
/// and its inverse undoes it.
pub proof fn lemma_lin_permutes_patch(t: int, x: int, y: int)
    requires
        0 <= t < 8,
        in_patch(x, y),
    ensures
        in_patch(transform_spec(t, x, y, 0).0, transform_spec(t, x, y, 0).1),
        transform_spec(inv_t(t), transform_spec(t, x, y, 0).0, transform_spec(t, x, y, 0).1, 0) == (x, y),
{
}

/// Transforming a plane twice is transforming it once by the composition.
proof fn lemma_plane_compose(s: int, t: int, p: Seq<bool>)
    requires
        0 <= s < 8,
        0 <= t < 8,
        p.len() == 81,
    ensures
        plane_image(s, plane_image(t, p)) == plane_image(compose_t(s, t), p),
{
    let a = plane_image(s, plane_image(t, p));
    let b = plane_image(compose_t(s, t), p);
    assert forall|j: int| 0 <= j < 81 implies a[j] == b[j] by {
        lemma_offset_index(j);
        let o = offset_spec(j);
        let q = transform_spec(inv_t(s), o.0, o.1, 0);
        lemma_lin_permutes_patch(inv_t(s), o.0, o.1);
        lemma_index_offset(q.0, q.1);
        lemma_lin_compose(inv_t(t), inv_t(s), o.0, o.1);
        lemma_compose_table(s, t);
    }
    assert(a =~= b);
}

/// Folding is invariant under D4: a patch and any of its eight images have
/// the same canonical key (the least key over the eight orientations).
pub proof fn lemma_canonical_key_invariant(occ: Seq<bool>, line: Seq<bool>, t: int, r1: int, r2: int)
    requires
        occ.len() == 81,
        line.len() == 81,
        0 <= t < 8,
        is_canonical_transform(r1, occ, line),
        is_canonical_transform(r2, plane_image(t, occ), plane_image(t, line)),
    ensures
        patch_key(r1, occ, line) == patch_key(r2, plane_image(t, occ), plane_image(t, line)),
{
    let occ_t = plane_image(t, occ);
    let line_t = plane_image(t, line);
    lemma_plane_compose(r2, t, occ);
    lemma_plane_compose(r2, t, line);
    lemma_lin_compose(r2, t, 0, 0);
    let u = compose_t(r2, t);
    assert(patch_key(r2, occ_t, line_t) == patch_key(u, occ, line));
    assert(!key_lt(patch_key(u, occ, line), patch_key(r1, occ, line)));
    lemma_compose_table(r1, t);
    let v = compose_t(r1, inv_t(t));
    lemma_lin_compose(r1, inv_t(t), 0, 0);
    lemma_plane_compose(v, t, occ);
    lemma_plane_compose(v, t, line);
    assert(patch_key(v, occ_t, line_t) == patch_key(r1, occ, line));
    assert(!key_lt(patch_key(v, occ_t, line_t), patch_key(r2, occ_t, line_t)));
}

/// Bit/array index of patch offset `(dx, dy)`.
pub fn index(dx: i16, dy: i16) -> (r: usize)
    requires
        in_patch(dx as int, dy as int),
    ensures
        r == index_spec(dx as int, dy as int),
        r < 81,
{
    (dy + R) as usize * 9 + (dx + R) as usize
}

/// Linear part of the D4 transforms acting on a patch offset (the move's
/// point is the patch centre and stays fixed).
pub fn lin(t: usize, p: (i16, i16)) -> (r: (i16, i16))
    requires
        t < 8,
        in_patch(p.0 as int, p.1 as int),
    ensures
        (r.0 as int, r.1 as int) == transform_spec(t as int, p.0 as int, p.1 as int, 0),
        in_patch(r.0 as int, r.1 as int),
{
    lin_transform(t, p)
}

/// Apply transform `t` to a patch plane: `out[t·offset] = plane[offset]`.
pub fn transform_plane(t: usize, plane: &[bool; 81]) -> (r: [bool; 81])
    requires
        t < 8,
    ensures
        r@ == plane_image(t as int, plane@),
{
    let mut out = [false; 81];
    let mut i: usize = 0;
    while i < 81
        invariant
            i <= 81,
            t < 8,
            out@.len() == 81,
            plane@.len() == 81,
            forall|j: int|
                0 <= j < 81 ==> #[trigger] out@[j] == {
                    let o = offset_spec(j);
                    let q = transform_spec(inv_t(t as int), o.0, o.1, 0);
                    index_spec(q.0, q.1) < i && plane@[index_spec(q.0, q.1)]
                },
        decreases 81 - i,
    {
        proof {
            lemma_offset_index(i as int);
        }
        let dx: i16 = (i % 9) as i16 - R;
        let dy: i16 = (i / 9) as i16 - R;
        if plane[i] {
            let (tx, ty) = lin(t, (dx, dy));
            let ti = index(tx, ty);
            let ghost before = out@;
            out[ti] = true;
            proof {
                lemma_lin_permutes_patch(t as int, dx as int, dy as int);
                lemma_index_offset(tx as int, ty as int);
                assert forall|j: int| 0 <= j < 81 implies #[trigger] out@[j] == {
                    let o = offset_spec(j);
                    let q = transform_spec(inv_t(t as int), o.0, o.1, 0);
                    index_spec(q.0, q.1) < i + 1 && plane@[index_spec(q.0, q.1)]
                } by {
                    lemma_offset_index(j);
                    let o = offset_spec(j);
                    let q = transform_spec(inv_t(t as int), o.0, o.1, 0);
                    lemma_lin_permutes_patch(inv_t(t as int), o.0, o.1);
                    lemma_index_offset(q.0, q.1);
                    lemma_lin_compose(t as int, inv_t(t as int), o.0, o.1);
                    lemma_compose_table(0, t as int);
                    lemma_compose_table(t as int, inv_t(t as int));
                    if j != ti as int {
                        assert(index_spec(q.0, q.1) != i as int);
                    }
                }
            }
        } else {
            proof {
                assert forall|j: int| 0 <= j < 81 implies #[trigger] out@[j] == {
                    let o = offset_spec(j);
                    let q = transform_spec(inv_t(t as int), o.0, o.1, 0);
                    index_spec(q.0, q.1) < i + 1 && plane@[index_spec(q.0, q.1)]
                } by {
                    lemma_offset_index(j);
                }
            }
        }
        i = i + 1;
    }
    proof {
        assert forall|j: int| 0 <= j < 81 implies out@[j] == plane_image(t as int, plane@)[j] by {
            lemma_offset_index(j);
            let o = offset_spec(j);
            lemma_lin_permutes_patch(inv_t(t as int), o.0, o.1);
            let q = transform_spec(inv_t(t as int), o.0, o.1, 0);
            lemma_index_offset(q.0, q.1);
        }
        assert(out@ =~= plane_image(t as int, plane@));
    }
    out
}

/// Pack a plane into a `u128` (bit `i` = cell `i`), for lexicographic
/// comparison.
pub fn pack(plane: &[bool; 81]) -> (r: u128)
    ensures
        r == pack_spec(plane@),
        forall|j: u128| j < 81 ==> #[trigger] bit(r, j) == plane@[j as int],
{
    let mut bits: u128 = 0;
    let mut i: usize = 0;
    proof {
        assert forall|j: u128| j < 128 implies #[trigger] bit(bits, j) == (j < i && plane@[j as int]) by {
            lemma_bit_zero(j);
        }
    }
    while i < 81
        invariant
            i <= 81,
            plane@.len() == 81,
            bits == pack_prefix(plane@, i as int),
            forall|j: u128| j < 128 ==> #[trigger] bit(bits, j) == (j < i && plane@[j as int]),
        decreases 81 - i,
    {
        let ghost b0 = bits;
        if plane[i] {
            bits = bits | (1u128 << (i as u32));
            proof {
                assert forall|j: u128| j < 128 implies #[trigger] bit(bits, j) == (j < i + 1 && plane@[j as int]) by {
                    lemma_bit_set(b0, i as u128, j);
                }
            }
        }
        i = i + 1;
    }
    bits
}

/// Strict lexicographic comparison of patch keys.
fn key_below(a: (u128, u128), b: (u128, u128)) -> (r: bool)
    ensures
        r == key_lt(a, b),
{
    a.0 < b.0 || (a.0 == b.0 && a.1 < b.1)
}

/// Whether the runtime encoder folds each patch to its canonical orientation.
/// It does not: the fold costs eight transforms per move, and invariance is
/// learnt from the eight orientations at training time instead.
pub fn canonicalize() -> (r: bool)
    ensures
        !r,
{
    false
}

/// The canonical D4 transform of an `(occupancy, line)` patch: the first one
/// minimising the packed `(occupancy, line)` key.
pub fn canonical_transform(occ: &[bool; 81], line: &[bool; 81]) -> (r: usize)
    ensures
        is_canonical_transform(r as int, occ@, line@),
        forall|s: int| 0 <= s < r ==> key_lt(patch_key(r as int, occ@, line@), #[trigger] patch_key(s, occ@, line@)),
{
    let mut best_t: usize = 0;
    let occ0 = transform_plane(0, occ);
    let line0 = transform_plane(0, line);
    let mut best_key = (pack(&occ0), pack(&line0));
    let mut t: usize = 1;
    while t < 8
        invariant
            1 <= t <= 8,
            best_t < t,
            best_key == patch_key(best_t as int, occ@, line@),
            forall|s: int| 0 <= s < t ==> !key_lt(#[trigger] patch_key(s, occ@, line@), best_key),
            forall|s: int| 0 <= s < best_t ==> key_lt(best_key, #[trigger] patch_key(s, occ@, line@)),
        decreases 8 - t,
    {
        let o = transform_plane(t, occ);
        let l = transform_plane(t, line);
        let key = (pack(&o), pack(&l));
        if key_below(key, best_key) {
            best_key = key;
            best_t = t;
        }
        t = t + 1;
    }
    best_t
}

/// Number of set cells among the first `i` cells of a plane.
pub open spec fn count_prefix(p: Seq<bool>, i: int) -> nat
    decreases i,
{
    if i <= 0 {
        0
    } else {
        count_prefix(p, i - 1) + if p[i - 1] {
            1nat
        } else {
            0nat
        }
    }
}

/// The board point under patch cell `i` of a patch centred on `c`.
pub open spec fn patch_point(c: (int, int), i: int) -> (int, int) {
    (c.0 + offset_spec(i).0, c.1 + offset_spec(i).1)
}

/// Whether patch cell `i` (centred on the move's point) is occupied.
pub open spec fn occ_cell(state: &GameState, mv: Move, i: int) -> bool {
    crate::game::moves::occupied_at(&state.board, patch_point(pos_int(mv.pos), i))
}

/// Whether patch cell `i` (centred on the move's point) lies on the move's
/// line.
pub open spec fn line_cell(mv: Move, n: int, i: int) -> bool {
    exists|k: int| 0 <= k < n && #[trigger] line_point(mv.line, k) == patch_point(pos_int(mv.pos), i)
}

/// A move whose patch and line stay well inside the coordinate range.
pub open spec fn patch_small(mv: Move) -> bool {
    -30000 <= mv.pos.0 <= 30000 && -30000 <= mv.pos.1 <= 30000 && -30000 <= mv.line.origin.0 <= 30000
        && -30000 <= mv.line.origin.1 <= 30000
}

/// The move's two raw patch planes (natural board orientation) and the number
/// of occupied patch cells.
pub fn raw_planes(state: &GameState, mv: &Move) -> (r: ([bool; 81], [bool; 81], u32))
    requires
        state.wf(),
        patch_small(*mv),
    ensures
        forall|i: int| 0 <= i < 81 ==> #[trigger] r.0@[i] == occ_cell(state, *mv, i),
        forall|i: int| 0 <= i < 81 ==> #[trigger] r.1@[i] == line_cell(*mv, variant_len(state.variant) as int, i),
        r.2 == count_prefix(r.0@, 81),
{
    let (cx, cy) = mv.pos;
    let line_len = state.variant.len();
    let line_cells = mv.line.positions(line_len);
    let mut occ = [false; 81];
    let mut line = [false; 81];
    let mut occ_count: u32 = 0;
    let mut i: usize = 0;
    while i < 81
        invariant
            i <= 81,
            state.wf(),
            patch_small(*mv),
            (cx, cy) == mv.pos,
            line_len == variant_len(state.variant),
            line_cells@.len() == line_len,
            forall|k: int| 0 <= k < line_len ==> pos_int(#[trigger] line_cells@[k]) == line_point(mv.line, k),
            occ@.len() == 81,
            line@.len() == 81,
            forall|j: int| 0 <= j < i ==> #[trigger] occ@[j] == occ_cell(state, *mv, j),
            forall|j: int| 0 <= j < i ==> #[trigger] line@[j] == line_cell(*mv, line_len as int, j),
            forall|j: int| i <= j < 81 ==> !#[trigger] occ@[j],
            forall|j: int| i <= j < 81 ==> !#[trigger] line@[j],
            occ_count == count_prefix(occ@, i as int),
            occ_count <= i,
        decreases 81 - i,
    {
        proof {
            lemma_offset_index(i as int);
        }
        let dx: i16 = (i % 9) as i16 - R;
        let dy: i16 = (i / 9) as i16 - R;
        let p = (cx + dx, cy + dy);
        let ghost occ0 = occ@;
        if on_grid(p) && state.board.contains(p) {
            occ[i] = true;
            occ_count = occ_count + 1;
        }
        proof {
            assert(occ@[i as int] == occ_cell(state, *mv, i as int));
            assert forall|j: int| 0 <= j < i implies occ@[j] == occ0[j] by {}
            assert(occ@.take(i as int) =~= occ0.take(i as int));
            lemma_count_prefix_frame(occ@, occ0, i as int);
        }
        let mut on_line = false;
        let mut k: usize = 0;
        while k < line_cells.len()
            invariant
                k <= line_cells@.len(),
                line_cells@.len() == line_len,
                forall|m: int| 0 <= m < line_len ==> pos_int(#[trigger] line_cells@[m]) == line_point(mv.line, m),
                on_line == exists|m: int| 0 <= m < k && #[trigger] line_point(mv.line, m) == pos_int(p),
            decreases line_cells@.len() - k,
        {
            if line_cells[k].0 == p.0 && line_cells[k].1 == p.1 {
                on_line = true;
            }
            proof {
                if on_line {
                    let m = if line_cells@[k as int] == p { k as int } else {
                        choose|m: int| 0 <= m < k && #[trigger] line_point(mv.line, m) == pos_int(p)
                    };
                    assert(0 <= m < k + 1 && line_point(mv.line, m) == pos_int(p));
                }
            }
            k = k + 1;
        }
        let ghost line0 = line@;
        if on_line {
            line[i] = true;
        }
        proof {
            assert(pos_int(p) == patch_point(pos_int(mv.pos), i as int));
            if on_line {
                let m = choose|m: int| 0 <= m < line_len && #[trigger] line_point(mv.line, m) == pos_int(p);
                assert(line_point(mv.line, m) == patch_point(pos_int(mv.pos), i as int));
            }
            assert(line@[i as int] == line_cell(*mv, line_len as int, i as int));
            assert forall|j: int| 0 <= j < i implies line@[j] == line0[j] by {}
        }
        i = i + 1;
    }
    (occ, line, occ_count)
}

/// The count over a prefix depends only on that prefix.
proof fn lemma_count_prefix_frame(a: Seq<bool>, b: Seq<bool>, i: int)
    requires
        0 <= i <= a.len(),
        i <= b.len(),
        forall|j: int| 0 <= j < i ==> a[j] == b[j],
    ensures
        count_prefix(a, i) == count_prefix(b, i),
    decreases i,
{
    if i > 0 {
        lemma_count_prefix_frame(a, b, i - 1);
    }
}

} // verus!
