//! Lines: a direction and a canonical origin.
use crate::game::board::Pos;
use vstd::prelude::*;

verus! {

/// Line direction.
#[derive(Debug, Clone, Copy, PartialEq, Eq, Structural, Hash)]
pub enum Dir {
    /// Horizontal, step `(1, 0)`.
    H,
    /// Vertical, step `(0, 1)`.
    V,
    /// Diagonal up, step `(1, -1)`.
    DP,
    /// Diagonal down, step `(1, 1)`.
    DN,
}

/// Unit step of a direction.
pub open spec fn dir_delta(d: Dir) -> (i16, i16) {
    match d {
        Dir::H => (1, 0),
        Dir::V => (0, 1),
        Dir::DP => (1, -1i16),
        Dir::DN => (1, 1),
    }
}

/// Index of a direction in `Dir::ALL` order (its discriminant).
pub open spec fn dir_index(d: Dir) -> u8 {
    match d {
        Dir::H => 0,
        Dir::V => 1,
        Dir::DP => 2,
        Dir::DN => 3,
    }
}

impl Dir {
    /// All four directions, in the order `H`, `V`, `DP`, `DN`.
    pub fn all() -> (r: [Dir; 4])
        ensures
            r@ == seq![Dir::H, Dir::V, Dir::DP, Dir::DN],
    {
        [Dir::H, Dir::V, Dir::DP, Dir::DN]
    }

    /// Unit step along the line.
    pub fn delta(self) -> (r: (i16, i16))
        ensures
            r == dir_delta(self),
    {
        match self {
            Dir::H => (1, 0),
            Dir::V => (0, 1),
            Dir::DP => (1, -1),
            Dir::DN => (1, 1),
        }
    }

    /// The direction's index (`H` = 0, `V` = 1, `DP` = 2, `DN` = 3).
    pub fn index(self) -> (r: u8)
        ensures
            r == dir_index(self),
    {
        match self {
            Dir::H => 0,
            Dir::V => 1,
            Dir::DP => 2,
            Dir::DN => 3,
        }
    }
}

/// A line identified by its canonical start point and direction. The origin
/// is the end with the smaller coordinates.
#[derive(Debug, Clone, Copy, PartialEq, Eq, Hash)]
pub struct Line {
    pub origin: Pos,
    pub dir: Dir,
}

/// The `i`-th point of a line (origin first), in mathematical integers.
pub open spec fn line_point(l: Line, i: int) -> (int, int) {
    (l.origin.0 + i * dir_delta(l.dir).0, l.origin.1 + i * dir_delta(l.dir).1)
}

/// A coordinate pair as mathematical integers.
pub open spec fn pos_int(p: Pos) -> (int, int) {
    (p.0 as int, p.1 as int)
}

/// Points whose coordinates lie well inside the `i16` range.
pub open spec fn pos_small(p: Pos) -> bool {
    -32000 <= p.0 <= 32000 && -32000 <= p.1 <= 32000
}

/// Bounds of `i * d` for a small step count and a unit step.
pub proof fn lemma_step_bound(i: int, d: int)
    requires
        0 <= i <= 255,
        -1 <= d <= 1,
    ensures
        -255 <= i * d <= 255,
{
    assert(-255 <= i * d <= 255) by (nonlinear_arith)
        requires
            0 <= i <= 255,
            -1 <= d <= 1,
    ;
}

/// Whether an integer point is representable as a `Pos`.
pub open spec fn fits_i16(p: (int, int)) -> bool {
    -32768 <= p.0 <= 32767 && -32768 <= p.1 <= 32767
}

/// Whether the first `len` points of `l` are representable.
pub open spec fn line_fits(l: Line, len: int) -> bool {
    forall|i: int| 0 <= i < len ==> fits_i16(#[trigger] line_point(l, i))
}

/// From a point well inside the range, up to 255 unit steps either way stay
/// representable.
pub proof fn lemma_small_steps_fit(p: Pos, d: Dir, i: int)
    requires
        pos_small(p),
        -255 <= i <= 255,
    ensures
        fits_i16((p.0 + i * dir_delta(d).0, p.1 + i * dir_delta(d).1)),
        fits_i16((p.0 - i * dir_delta(d).0, p.1 - i * dir_delta(d).1)),
{
    let (dx, dy) = dir_delta(d);
    assert(-255 <= i * dx <= 255 && -255 <= i * dy <= 255) by (nonlinear_arith)
        requires
            -255 <= i <= 255,
            -1 <= dx <= 1,
            -1 <= dy <= 1,
    ;
}

/// A line whose origin lies well inside the range stays representable.
pub proof fn lemma_small_line_fits(l: Line, len: int)
    requires
        pos_small(l.origin),
        0 <= len <= 256,
    ensures
        line_fits(l, len),
{
    assert forall|i: int| 0 <= i < len implies fits_i16(#[trigger] line_point(l, i)) by {
        lemma_small_steps_fit(l.origin, l.dir, i);
    }
}

/// Whether two points are equal.
pub fn same_pos(a: Pos, b: Pos) -> (r: bool)
    ensures
        r == (a == b),
{
    a.0 == b.0 && a.1 == b.1
}

/// Whether two lines are equal.
pub fn same_line(a: &Line, b: &Line) -> (r: bool)
    ensures
        r == (*a == *b),
{
    same_pos(a.origin, b.origin) && a.dir == b.dir
}

impl Line {
    pub fn new(origin: Pos, dir: Dir) -> (r: Self)
        ensures
            r.origin == origin,
            r.dir == dir,
    {
        Self { origin, dir }
    }

    /// Build a line from any point on it (at the given offset within the line).
    pub fn from_point(pos: Pos, dir: Dir, offset: u8, _line_len: u8) -> (r: Self)
        requires
            fits_i16((pos.0 - offset * dir_delta(dir).0, pos.1 - offset * dir_delta(dir).1)),
        ensures
            r.dir == dir,
            line_point(r, offset as int) == pos_int(pos),
    {
        let (dx, dy) = dir.delta();
        proof {
            lemma_step_bound(offset as int, dx as int);
            lemma_step_bound(offset as int, dy as int);
        }
        let origin = (pos.0 - offset as i16 * dx, pos.1 - offset as i16 * dy);
        Self { origin, dir }
    }

    /// All positions on this line, origin first.
    pub fn positions(self, line_len: u8) -> (r: Vec<Pos>)
        requires
            line_fits(self, line_len as int),
        ensures
            r@.len() == line_len,
            forall|i: int| 0 <= i < line_len ==> pos_int(#[trigger] r@[i]) == line_point(self, i),
    {
        let (dx, dy) = self.dir.delta();
        let (ox, oy) = self.origin;
        let mut out: Vec<Pos> = Vec::new();
        let mut i: i16 = 0;
        while i < line_len as i16
            invariant
                0 <= i <= line_len,
                (dx, dy) == dir_delta(self.dir),
                (ox, oy) == self.origin,
                line_fits(self, line_len as int),
                out@.len() == i,
                forall|j: int| 0 <= j < i ==> pos_int(#[trigger] out@[j]) == line_point(self, j),
            decreases line_len - i,
        {
            proof {
                lemma_step_bound(i as int, dx as int);
                lemma_step_bound(i as int, dy as int);
                assert(fits_i16(line_point(self, i as int)));
            }
            out.push((ox + i * dx, oy + i * dy));
            i = i + 1;
        }
        out
    }
}

} // verus!
