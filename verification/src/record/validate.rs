//! A reference validator: replay a record under the Morpion Solitaire rules and
//! confirm every move is legal.
//!
//! This is correctness-first: a plain point list and a linear scan of drawn
//! lines, mirroring the rules directly rather than the bit-parallel structures
//! the engine uses.
use crate::record::cross::{in_cross, initial_cross};
use crate::record::model::{
    direction_delta, record_line_fits, record_line_point, record_origin,
    same_point, variant_disjoint, variant_line_len, Direction, RecordMove, Variant,
};
use vstd::prelude::*;

verus! {

/// Why a record failed validation. Each variant carries the offending move's
/// index (0-based).
#[derive(Debug, Clone, Copy, PartialEq, Eq)]
pub enum ValidationError {
    /// `pos` is outside `0..line_len`.
    BadLinePosition { index: usize, pos: u8 },
    /// The new point is already occupied.
    PointOccupied { index: usize, point: (i16, i16) },
    /// A non-new point of the line is not present on the board.
    MissingPoint { index: usize, point: (i16, i16) },
    /// The line breaks the touch rule against an earlier collinear line.
    TouchRule { index: usize },
}

/// Every move whose offset lies within the line has a line, origin and points
/// included, with representable coordinates.
pub open spec fn moves_in_range(variant: Variant, moves: Seq<RecordMove>) -> bool {
    forall|j: int|
        0 <= j < moves.len() && moves[j].pos < variant_line_len(variant) ==> record_line_fits(
            #[trigger] moves[j],
            variant_line_len(variant) as int,
        )
}

/// Points present before move `i`: the initial cross and the new points of
/// the earlier moves.
pub open spec fn placed_before(v: Variant, moves: Seq<RecordMove>, i: int, p: (int, int)) -> bool {
    ||| in_cross(variant_line_len(v) as int, p.0, p.1)
    ||| exists|j: int| 0 <= j < i && (moves[j].x as int, moves[j].y as int) == p
}

/// Track key and position of a line along its track.
pub open spec fn track_position(origin: (int, int), dir: Direction) -> (int, int) {
    match dir {
        Direction::H => (origin.1, origin.0),
        Direction::V => (origin.0, origin.1),
        Direction::DP => (origin.0 + origin.1, origin.0),
        Direction::DN => (origin.0 - origin.1, origin.0),
    }
}

/// The touch-rule distance: collinear same-direction lines whose offset along
/// the track is at most this value conflict.
pub open spec fn forbid_distance(v: Variant) -> int {
    variant_line_len(v) - 1 - if variant_disjoint(v) { 0int } else { 1int }
}

/// Whether move `j`'s line and move `i`'s line break the touch rule.
pub open spec fn lines_touch(v: Variant, a: RecordMove, b: RecordMove) -> bool {
    let (ta, pa) = track_position(record_origin(a), a.dir);
    let (tb, pb) = track_position(record_origin(b), b.dir);
    a.dir == b.dir && ta == tb && -forbid_distance(v) <= pa - pb <= forbid_distance(v)
}

/// The lines of `a` and `b` (of `n` points) have a point in common.
pub open spec fn lines_share_point(a: RecordMove, b: RecordMove, n: int) -> bool {
    exists|k: int, j: int|
        0 <= k < n && 0 <= j < n && #[trigger] record_line_point(a, k) == #[trigger] record_line_point(b, j)
}

/// The lines of `a` and `b` (of `n` points) have two different points in
/// common: they overlap along a whole unit segment.
pub open spec fn lines_share_segment(a: RecordMove, b: RecordMove, n: int) -> bool {
    exists|k: int, j: int|
        0 <= k < n - 1 && 0 <= j < n - 1 && #[trigger] record_line_point(a, k) == #[trigger] record_line_point(b, j)
            && record_line_point(a, k + 1) == record_line_point(b, j + 1)
}

/// Along two lines of one direction, points correspond by their offset: the
/// `k`-th point of `a` is the `j`-th of `b` exactly when both lie on one
/// track and `j - k` is the offset of `a`'s origin from `b`'s.
proof fn lemma_common_point(a: RecordMove, b: RecordMove, k: int, j: int)
    requires
        a.dir == b.dir,
    ensures
        (record_line_point(a, k) == record_line_point(b, j)) <==> (track_position(record_origin(a), a.dir).0
            == track_position(record_origin(b), b.dir).0 && j - k == track_position(record_origin(a), a.dir).1
            - track_position(record_origin(b), b.dir).1),
{
}

/// The touch rule in terms of the lines themselves: lines of different
/// directions never touch; two lines of one direction touch when, in a
/// touching variant (4T, 5T), they share two points or more, and in a
/// disjoint variant (4D, 5D), when they share any point. So in 4T and 5T two
/// collinear lines may meet at one endpoint, and in 4D and 5D they may not.
pub proof fn lemma_touch_rule(v: Variant, a: RecordMove, b: RecordMove)
    ensures
        a.dir != b.dir ==> !lines_touch(v, a, b),
        (v is T4 || v is T5) ==> (lines_touch(v, a, b) <==> a.dir == b.dir && lines_share_segment(
            a,
            b,
            variant_line_len(v) as int,
        )),
        (v is D4 || v is D5) ==> (lines_touch(v, a, b) <==> a.dir == b.dir && lines_share_point(
            a,
            b,
            variant_line_len(v) as int,
        )),
{
    let n = variant_line_len(v) as int;
    if a.dir == b.dir {
        let (ta, pa) = track_position(record_origin(a), a.dir);
        let (tb, pb) = track_position(record_origin(b), b.dir);
        let t = pa - pb;
        if ta == tb && -(n - 1) <= t <= n - 1 {
            let k = if t >= 0 { 0 } else { -t };
            lemma_common_point(a, b, k, k + t);
            assert(lines_share_point(a, b, n));
            if -(n - 2) <= t <= n - 2 {
                lemma_common_point(a, b, k + 1, k + 1 + t);
                assert(lines_share_segment(a, b, n));
            }
        }
        if lines_share_point(a, b, n) {
            let (k, j) = choose|k: int, j: int|
                0 <= k < n && 0 <= j < n && #[trigger] record_line_point(a, k) == #[trigger] record_line_point(b, j);
            lemma_common_point(a, b, k, j);
        }
        if lines_share_segment(a, b, n) {
            let (k, j) = choose|k: int, j: int|
                0 <= k < n - 1 && 0 <= j < n - 1 && #[trigger] record_line_point(a, k) == #[trigger] record_line_point(
                    b,
                    j,
                ) && record_line_point(a, k + 1) == record_line_point(b, j + 1);
            lemma_common_point(a, b, k, j);
        }
    }
}

/// `validate` rejects a move under the touch rule exactly when the earlier
/// checks pass and some earlier move's line has its direction and shares two
/// points with it (4T, 5T) or any point (4D, 5D).
pub proof fn lemma_validate_touch(v: Variant, moves: Seq<RecordMove>, i: int)
    requires
        0 <= i < moves.len(),
    ensures
        (move_error(v, moves, i) == Some(ValidationError::TouchRule { index: i as usize })) <==> ({
            let m = moves[i];
            let n = variant_line_len(v) as int;
            &&& m.pos < n
            &&& !placed_before(v, moves, i, (m.x as int, m.y as int))
            &&& first_missing(v, moves, i, 0) is None
            &&& exists|j: int|
                0 <= j < i && #[trigger] moves[j].dir == m.dir && (if v is T4 || v is T5 {
                    lines_share_segment(moves[j], m, n)
                } else {
                    lines_share_point(moves[j], m, n)
                })
        }),
{
    let m = moves[i];
    let n = variant_line_len(v) as int;
    assert forall|j: int| 0 <= j < i implies lines_touch(v, #[trigger] moves[j], m) == (moves[j].dir == m.dir && (
    if v is T4 || v is T5 {
        lines_share_segment(moves[j], m, n)
    } else {
        lines_share_point(moves[j], m, n)
    })) by {
        lemma_touch_rule(v, moves[j], m);
    }
}

/// The first line point of move `i`, at index `k` or later, that is not the
/// new point and is not present yet.
pub open spec fn first_missing(v: Variant, moves: Seq<RecordMove>, i: int, k: int) -> Option<(int, int)>
    decreases variant_line_len(v) - k,
{
    if k < 0 || k >= variant_line_len(v) {
        None
    } else {
        let p = record_line_point(moves[i], k);
        if p != (moves[i].x as int, moves[i].y as int) && !placed_before(v, moves, i, p) {
            Some(p)
        } else {
            first_missing(v, moves, i, k + 1)
        }
    }
}

/// The error of move `i` when replayed after moves `0..i`, if any.
pub open spec fn move_error(v: Variant, moves: Seq<RecordMove>, i: int) -> Option<ValidationError> {
    let m = moves[i];
    if m.pos >= variant_line_len(v) {
        Some(ValidationError::BadLinePosition { index: i as usize, pos: m.pos })
    } else if placed_before(v, moves, i, (m.x as int, m.y as int)) {
        Some(ValidationError::PointOccupied { index: i as usize, point: (m.x, m.y) })
    } else if first_missing(v, moves, i, 0) is Some {
        let p = first_missing(v, moves, i, 0)->0;
        Some(ValidationError::MissingPoint { index: i as usize, point: (p.0 as i16, p.1 as i16) })
    } else if exists|j: int| 0 <= j < i && lines_touch(v, #[trigger] moves[j], m) {
        Some(ValidationError::TouchRule { index: i as usize })
    } else {
        None
    }
}

/// The outcome of replaying moves `i..` (the first error from move `i` on).
pub open spec fn first_error(v: Variant, moves: Seq<RecordMove>, i: int) -> Result<(), ValidationError>
    decreases moves.len() - i,
{
    if i < 0 || i >= moves.len() {
        Ok(())
    } else {
        match move_error(v, moves, i) {
            Some(e) => Err(e),
            None => first_error(v, moves, i + 1),
        }
    }
}

/// Replaying from move `k` on stops at the first move from `k` on that breaks
/// a rule, with its error, and succeeds when none does.
proof fn lemma_first_error_from(v: Variant, moves: Seq<RecordMove>, k: int)
    requires
        0 <= k <= moves.len(),
    ensures
        first_error(v, moves, k) is Ok <==> forall|i: int| k <= i < moves.len() ==> move_error(v, moves, i) is None,
        forall|e: ValidationError|
            first_error(v, moves, k) == Err::<(), ValidationError>(e) <==> exists|i: int|
                k <= i < moves.len() && move_error(v, moves, i) == Some(e) && forall|j: int|
                    k <= j < i ==> move_error(v, moves, j) is None,
    decreases moves.len() - k,
{
    if k < moves.len() {
        lemma_first_error_from(v, moves, k + 1);
        if move_error(v, moves, k) is None {
            assert forall|e: ValidationError|
                first_error(v, moves, k) == Err::<(), ValidationError>(e) <== exists|i: int|
                    k <= i < moves.len() && move_error(v, moves, i) == Some(e) && forall|j: int|
                        k <= j < i ==> move_error(v, moves, j) is None by {
                if exists|i: int|
                    k <= i < moves.len() && move_error(v, moves, i) == Some(e) && forall|j: int|
                        k <= j < i ==> move_error(v, moves, j) is None {
                    let i = choose|i: int|
                        k <= i < moves.len() && move_error(v, moves, i) == Some(e) && forall|j: int|
                            k <= j < i ==> move_error(v, moves, j) is None;
                    assert(i != k);
                }
            }
        } else {
            assert forall|e: ValidationError|
                first_error(v, moves, k) == Err::<(), ValidationError>(e) <== exists|i: int|
                    k <= i < moves.len() && move_error(v, moves, i) == Some(e) && forall|j: int|
                        k <= j < i ==> move_error(v, moves, j) is None by {
                if exists|i: int|
                    k <= i < moves.len() && move_error(v, moves, i) == Some(e) && forall|j: int|
                        k <= j < i ==> move_error(v, moves, j) is None {
                    let i = choose|i: int|
                        k <= i < moves.len() && move_error(v, moves, i) == Some(e) && forall|j: int|
                            k <= j < i ==> move_error(v, moves, j) is None;
                    if i > k {
                        assert(move_error(v, moves, k) is None);
                    }
                }
            }
        }
    }
}

/// `validate` accepts a record exactly when no move breaks a rule, and
/// otherwise reports the error of the first move that does, every earlier
/// move being clean.
pub proof fn lemma_validate_first_error(v: Variant, moves: Seq<RecordMove>)
    ensures
        first_error(v, moves, 0) is Ok <==> forall|i: int| 0 <= i < moves.len() ==> move_error(v, moves, i) is None,
        forall|e: ValidationError|
            first_error(v, moves, 0) == Err::<(), ValidationError>(e) <==> exists|i: int|
                0 <= i < moves.len() && move_error(v, moves, i) == Some(e) && forall|j: int|
                    0 <= j < i ==> move_error(v, moves, j) is None,
{
    lemma_first_error_from(v, moves, 0);
}

/// Whether `pts` holds `p`.
fn contains_point(pts: &Vec<(i16, i16)>, p: (i16, i16)) -> (r: bool)
    ensures
        r == pts@.contains(p),
{
    let mut i: usize = 0;
    while i < pts.len()
        invariant
            i <= pts@.len(),
            forall|j: int| 0 <= j < i ==> pts@[j] != p,
        decreases pts@.len() - i,
    {
        if same_point(pts[i], p) {
            return true;
        }
        i = i + 1;
    }
    false
}

/// Track key and position of a line (exec form of [`track_position`]).
fn track_of(origin: (i16, i16), dir: Direction) -> (r: (i32, i32))
    ensures
        (r.0 as int, r.1 as int) == track_position((origin.0 as int, origin.1 as int), dir),
{
    let x = origin.0 as i32;
    let y = origin.1 as i32;
    match dir {
        Direction::H => (y, x),
        Direction::V => (x, y),
        Direction::DP => (x + y, x),
        Direction::DN => (x - y, x),
    }
}

/// Validate a record's moves: replay them from the initial cross and check
/// each is a legal Morpion move. Returns the first violation, or `Ok(())`.
///
/// Legality of a move is: its `pos` is in range; the new point is currently
/// empty; the line's other `line_len - 1` points are already present; and the
/// line does not break the touch rule against any earlier collinear line.
pub fn validate(variant: Variant, moves: &[RecordMove]) -> (r: Result<(), ValidationError>)
    requires
        moves_in_range(variant, moves@),
        moves@.len() < usize::MAX,
    ensures
        r == first_error(variant, moves@, 0),
{
    let n = variant.line_len();
    let forbid: i32 = n as i32 - 1 - if variant.disjoint() { 0 } else { 1 };
    let mut points: Vec<(i16, i16)> = initial_cross(variant);
    let mut lines: Vec<((i16, i16), Direction)> = Vec::new();
    let mut index: usize = 0;
    while index < moves.len()
        invariant
            index <= moves@.len(),
            moves@.len() < usize::MAX,
            moves_in_range(variant, moves@),
            n == variant_line_len(variant),
            forbid == forbid_distance(variant),
            first_error(variant, moves@, 0) == first_error(variant, moves@, index as int),
            forall|p: (i16, i16)|
                points@.contains(p) <==> placed_before(
                    variant,
                    moves@,
                    index as int,
                    (p.0 as int, p.1 as int),
                ),
            lines@.len() == index,
            forall|j: int|
                0 <= j < index ==> #[trigger] lines@[j].1 == moves@[j].dir && moves@[j].pos < n
                    && (lines@[j].0.0 as int, lines@[j].0.1 as int) == record_origin(moves@[j]),
        decreases moves@.len() - index,
    {
        let m = moves[index];
        let ghost i = index as int;
        if m.pos >= n {
            return Err(ValidationError::BadLinePosition { index, pos: m.pos });
        }
        let new_point = (m.x, m.y);
        if contains_point(&points, new_point) {
            return Err(ValidationError::PointOccupied { index, point: new_point });
        }
        proof {
            assert(record_line_fits(moves@[i], n as int));
        }
        let pts = m.line_points(n);
        let mut k: usize = 0;
        while k < pts.len()
            invariant
                k <= pts@.len(),
                pts@.len() == n,
                n == variant_line_len(variant),
                m == moves@[i],
                index == i,
                i < moves@.len(),
                new_point == (m.x, m.y),
                first_error(variant, moves@, 0) == first_error(variant, moves@, i),
                !placed_before(variant, moves@, i, (m.x as int, m.y as int)),
                m.pos < n,
                record_line_fits(m, n as int),
                forall|q: int|
                    0 <= q < n ==> (pts@[q].0 as int, pts@[q].1 as int) == record_line_point(m, q),
                forall|p: (i16, i16)|
                    points@.contains(p) <==> placed_before(
                        variant,
                        moves@,
                        i,
                        (p.0 as int, p.1 as int),
                    ),
                first_missing(variant, moves@, i, 0) == first_missing(variant, moves@, i, k as int),
            decreases pts@.len() - k,
        {
            let p = pts[k];
            if !same_point(p, new_point) && !contains_point(&points, p) {
                proof {
                    assert(record_line_point(m, k as int) == (p.0 as int, p.1 as int));
                    assert(p.0 != m.x || p.1 != m.y);
                    assert(first_missing(variant, moves@, i, k as int) == Some(
                        (p.0 as int, p.1 as int),
                    ));
                }
                return Err(ValidationError::MissingPoint { index, point: p });
            }
            proof {
                assert(record_line_point(m, k as int) == (p.0 as int, p.1 as int));
                if (p.0 as int, p.1 as int) != (m.x as int, m.y as int) {
                    assert(p.0 != m.x || p.1 != m.y);
                    assert(points@.contains(p));
                }
                assert(first_missing(variant, moves@, i, k as int) == first_missing(
                    variant,
                    moves@,
                    i,
                    k + 1,
                ));
            }
            k = k + 1;
        }
        let origin = m.origin();
        let (track, position) = track_of(origin, m.dir);
        let mut li: usize = 0;
        while li < lines.len()
            invariant
                li <= lines@.len(),
                lines@.len() == index,
                m == moves@[i],
                index == i,
                first_error(variant, moves@, 0) == first_error(variant, moves@, i),
                !placed_before(variant, moves@, i, (m.x as int, m.y as int)),
                first_missing(variant, moves@, i, 0) is None,
                m.pos < n,
                n == variant_line_len(variant),
                forbid == forbid_distance(variant),
                (origin.0 as int, origin.1 as int) == record_origin(m),
                (track as int, position as int) == track_position(record_origin(m), m.dir),
                moves_in_range(variant, moves@),
                i < moves@.len(),
                forall|j: int|
                    0 <= j < index ==> #[trigger] lines@[j].1 == moves@[j].dir && moves@[j].pos < n
                        && (lines@[j].0.0 as int, lines@[j].0.1 as int) == record_origin(moves@[j]),
                forall|j: int| 0 <= j < li ==> !lines_touch(variant, #[trigger] moves@[j], m),
            decreases lines@.len() - li,
        {
            let (lo, ld) = lines[li];
            let ghost jj = li as int;
            assert(lines@[jj].1 == moves@[jj].dir);
            if ld == m.dir {
                let (t2, p2) = track_of(lo, ld);
                if t2 == track && position - p2 <= forbid && p2 - position <= forbid {
                    assert(lines_touch(variant, moves@[jj], m));
                    return Err(ValidationError::TouchRule { index });
                }
            }
            li = li + 1;
        }
        let ghost old_points = points@;
        points.push(new_point);
        lines.push((origin, m.dir));
        proof {
            assert(move_error(variant, moves@, i) is None);
            assert forall|p: (i16, i16)|
                points@.contains(p) <==> placed_before(
                    variant,
                    moves@,
                    i + 1,
                    (p.0 as int, p.1 as int),
                ) by {
                if p == new_point {
                    assert(points@[points@.len() - 1] == p);
                } else {
                    if points@.contains(p) {
                        let q = choose|q: int| 0 <= q < points@.len() && points@[q] == p;
                        assert(q < old_points.len());
                        assert(old_points[q] == p);
                        assert(old_points.contains(p));
                        if !in_cross(variant_line_len(variant) as int, p.0 as int, p.1 as int) {
                            let j = choose|j: int|
                                0 <= j < i && (moves@[j].x as int, moves@[j].y as int) == (
                                    p.0 as int,
                                    p.1 as int,
                                );
                            assert(0 <= j < i + 1);
                        }
                    }
                    if placed_before(variant, moves@, i + 1, (p.0 as int, p.1 as int)) {
                        if !in_cross(variant_line_len(variant) as int, p.0 as int, p.1 as int) {
                            let j = choose|j: int|
                                0 <= j < i + 1 && (moves@[j].x as int, moves@[j].y as int) == (
                                    p.0 as int,
                                    p.1 as int,
                                );
                            if j == i {
                                assert(p.0 == m.x && p.1 == m.y);
                                assert(false);
                            }
                            assert(j < i);
                        }
                        assert(placed_before(variant, moves@, i, (p.0 as int, p.1 as int)));
                        assert(old_points.contains(p));
                        let q = choose|q: int| 0 <= q < old_points.len() && old_points[q] == p;
                        assert(points@[q] == p);
                    }
                }
            }
        }
        index = index + 1;
    }
    Ok(())
}

} // verus!
