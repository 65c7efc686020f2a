//! The initial cross — the standard starting position of Morpion Solitaire.
//!
//! The cross is the outline of a Greek cross with arms `n-1` cells wide, centred
//! so the whole figure is D4-symmetric: the grid is `2n-1` wide for odd `n` and
//! `2n-2` for even `n`. For `n = 5` this is the classic 36-point cross; for
//! `n = 4`, a centred 24-point cross on a `0..=6` grid.
use crate::record::model::{variant_line_len, Variant};
use crate::search::symmetry::transform_spec;
use vstd::prelude::*;

verus! {

/// Largest coordinate of the cross's bounding square for line length `n`.
pub open spec fn cross_w(n: int) -> int {
    if n % 2 == 1 {
        2 * n - 1
    } else {
        2 * n - 2
    }
}

/// Inner arm boundary.
pub open spec fn cross_a(n: int) -> int {
    (cross_w(n) - (n - 2)) / 2
}

/// Outer arm boundary.
pub open spec fn cross_b(n: int) -> int {
    cross_a(n) + n - 2
}

/// Whether `(x, y)` belongs to the initial cross for line length `n`.
pub open spec fn in_cross(n: int, x: int, y: int) -> bool {
    let w = cross_w(n);
    let a = cross_a(n);
    let b = cross_b(n);
    &&& 0 <= x <= w
    &&& 0 <= y <= w
    &&& {
        ||| ((y == 0 || y == w) && a <= x && x <= b)
        ||| ((x == 0 || x == w) && a <= y && y <= b)
        ||| ((x == a || x == b) && (y <= a || y >= b))
        ||| ((y == a || y == b) && (x <= a || x >= b))
    }
}

/// The arms are centred: the inner and outer boundaries add up to the width.
proof fn lemma_cross_centred(n: int)
    requires
        n >= 2,
    ensures
        cross_a(n) + cross_b(n) == cross_w(n),
        0 <= cross_a(n) <= cross_b(n) <= cross_w(n),
{
    if n % 2 == 1 {
        assert(cross_w(n) - (n - 2) == 2 * ((n + 1) / 2));
    } else {
        assert(cross_w(n) - (n - 2) == 2 * (n / 2));
    }
}

/// The initial cross is symmetric under the whole dihedral group D4: each of
/// the eight transforms of its bounding square maps the cross onto itself.
pub proof fn lemma_cross_symmetric(n: int, t: int, x: int, y: int)
    requires
        n >= 2,
        0 <= t < 8,
    ensures
        in_cross(
            n,
            transform_spec(t, x, y, cross_w(n)).0,
            transform_spec(t, x, y, cross_w(n)).1,
        ) == in_cross(n, x, y),
{
    lemma_cross_centred(n);
}

/// How many of the cells `(0, y) .. (x - 1, y)` belong to the cross.
pub open spec fn cross_row_count(n: int, y: int, x: nat) -> nat
    decreases x,
{
    if x == 0 {
        0
    } else {
        cross_row_count(n, y, (x - 1) as nat) + if in_cross(n, x - 1, y) {
            1nat
        } else {
            0nat
        }
    }
}

/// How many points of the cross lie in rows `0 .. y - 1`.
pub open spec fn cross_count(n: int, y: nat) -> nat
    decreases y,
{
    if y == 0 {
        0
    } else {
        cross_count(n, (y - 1) as nat) + cross_row_count(n, y - 1, (cross_w(n) + 1) as nat)
    }
}

/// The cross has `12 (n - 2)` points: 36 for `n = 5`, 24 for `n = 4`.
pub proof fn lemma_cross_size()
    ensures
        cross_count(5, 10) == 36,
        cross_count(4, 7) == 24,
{
    reveal_with_fuel(cross_row_count, 11);
    reveal_with_fuel(cross_count, 11);
    assert(cross_count(5, 10) == 36);
    assert(cross_count(4, 7) == 24);
}

/// Strict row-major order on points (y first, then x).
pub open spec fn point_lt(p: (i16, i16), q: (i16, i16)) -> bool {
    p.1 < q.1 || (p.1 == q.1 && p.0 < q.0)
}

/// A sequence of points strictly increasing in row-major order.
pub open spec fn points_sorted(s: Seq<(i16, i16)>) -> bool {
    forall|i: int, j: int| 0 <= i < j < s.len() ==> point_lt(#[trigger] s[i], #[trigger] s[j])
}

/// The points of the initial cross for `variant`, in row-major order (by `y`,
/// then `x`).
pub fn initial_cross(variant: Variant) -> (r: Vec<(i16, i16)>)
    ensures
        forall|p: (i16, i16)|
            r@.contains(p) <==> in_cross(variant_line_len(variant) as int, p.0 as int, p.1 as int),
        points_sorted(r@),
        r@.len() == 12 * (variant_line_len(variant) - 2),
{
    let n = variant.line_len() as i16;
    let arm = n - 1;
    let w: i16 = if n % 2 == 1 { 2 * n - 1 } else { 2 * n - 2 };
    let a: i16 = (w - (arm - 1)) / 2;
    let b: i16 = a + arm - 1;
    assert(w == cross_w(n as int) && a == cross_a(n as int) && b == cross_b(n as int));
    let mut pts: Vec<(i16, i16)> = Vec::new();
    let mut y: i16 = 0;
    while y <= w
        invariant
            0 <= y <= w + 1,
            n == 4 || n == 5,
            w == cross_w(n as int),
            a == cross_a(n as int),
            b == cross_b(n as int),
            points_sorted(pts@),
            forall|i: int| 0 <= i < pts@.len() ==> pts@[i].1 < y,
            pts@.len() == cross_count(n as int, y as nat),
            forall|p: (i16, i16)|
                pts@.contains(p) <==> (in_cross(n as int, p.0 as int, p.1 as int) && p.1 < y),
        decreases w + 1 - y,
    {
        let mut x: i16 = 0;
        while x <= w
            invariant
                0 <= y <= w,
                0 <= x <= w + 1,
                n == 4 || n == 5,
                w == cross_w(n as int),
                a == cross_a(n as int),
                b == cross_b(n as int),
                points_sorted(pts@),
                forall|i: int| 0 <= i < pts@.len() ==> point_lt(pts@[i], (x, y)),
                pts@.len() == cross_count(n as int, y as nat) + cross_row_count(n as int, y as int, x as nat),
                forall|p: (i16, i16)|
                    pts@.contains(p) <==> (in_cross(n as int, p.0 as int, p.1 as int) && point_lt(
                        p,
                        (x, y),
                    )),
            decreases w + 1 - x,
        {
            let inside = ((y == 0 || y == w) && a <= x && x <= b) || ((x == 0 || x == w) && a
                <= y && y <= b) || ((x == a || x == b) && (y <= a || y >= b)) || ((y == a || y
                == b) && (x <= a || x >= b));
            let ghost old_pts = pts@;
            if inside {
                pts.push((x, y));
                proof {
                    assert(pts@ == old_pts.push((x, y)));
                    assert(in_cross(n as int, x as int, y as int));
                    assert forall|p: (i16, i16)|
                        pts@.contains(p) <==> (in_cross(n as int, p.0 as int, p.1 as int)
                            && point_lt(p, ((x + 1) as i16, y))) by {
                        if p == (x, y) {
                            assert(pts@[old_pts.len() as int] == p);
                        } else {
                            if pts@.contains(p) {
                                let k = choose|k: int| 0 <= k < pts@.len() && pts@[k] == p;
                                assert(k < old_pts.len());
                                assert(old_pts[k] == p);
                                assert(old_pts.contains(p));
                            }
                            if old_pts.contains(p) {
                                let k = choose|k: int| 0 <= k < old_pts.len() && old_pts[k] == p;
                                assert(pts@[k] == p);
                            }
                        }
                    }
                }
            } else {
                proof {
                    assert forall|p: (i16, i16)|
                        pts@.contains(p) <==> (in_cross(n as int, p.0 as int, p.1 as int)
                            && point_lt(p, ((x + 1) as i16, y))) by {
                        if p == (x, y) {
                            assert(!pts@.contains(p));
                        }
                    }
                }
            }
            x = x + 1;
        }
        proof {
            assert forall|p: (i16, i16)|
                pts@.contains(p) <==> (in_cross(n as int, p.0 as int, p.1 as int) && p.1 < y
                    + 1) by {
                if in_cross(n as int, p.0 as int, p.1 as int) && p.1 == y {
                    assert(point_lt(p, (x, y)));
                }
            }
        }
        assert(x == w + 1);
        y = y + 1;
    }
    proof {
        lemma_cross_size();
    }
    pts
}

} // verus!
