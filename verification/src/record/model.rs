//! The MSR data model building blocks: variants, directions and moves.
use vstd::prelude::*;

verus! {

/// A game variant: line length (4 or 5) and touch rule (Touching / Disjoint).
#[derive(Debug, Clone, Copy, PartialEq, Eq, Structural, Hash)]
pub enum Variant {
    /// 4 in a line, touching.
    T4,
    /// 4 in a line, disjoint.
    D4,
    /// 5 in a line, touching.
    T5,
    /// 5 in a line, disjoint.
    D5,
}

/// Line length of a variant.
pub open spec fn variant_line_len(v: Variant) -> u8 {
    match v {
        Variant::T4 | Variant::D4 => 4,
        Variant::T5 | Variant::D5 => 5,
    }
}

/// Whether parallel collinear lines must be strictly disjoint.
pub open spec fn variant_disjoint(v: Variant) -> bool {
    v is D4 || v is D5
}

/// The two characters of a variant's canonical code, digit first.
pub open spec fn variant_code(v: Variant) -> Seq<char> {
    match v {
        Variant::T4 => seq!['4', 'T'],
        Variant::D4 => seq!['4', 'D'],
        Variant::T5 => seq!['5', 'T'],
        Variant::D5 => seq!['5', 'D'],
    }
}

/// ASCII upper-casing of one character (other characters are unchanged).
pub open spec fn ascii_upper(c: char) -> char {
    if 'a' <= c && c <= 'z' {
        ((c as u32) - 32) as char
    } else {
        c
    }
}

/// Whether `u` (already upper-cased) spells the two characters `a`, `b` in
/// either order.
pub open spec fn spells_either_order(u: Seq<char>, a: char, b: char) -> bool {
    u.len() == 2 && ((u[0] == a && u[1] == b) || (u[0] == b && u[1] == a))
}

/// The variant named by `s`, case-insensitively and in either order.
pub open spec fn variant_from_code_spec(s: Seq<char>) -> Option<Variant> {
    let u = s.map_values(|c: char| ascii_upper(c));
    if spells_either_order(u, '4', 'T') {
        Some(Variant::T4)
    } else if spells_either_order(u, '4', 'D') {
        Some(Variant::D4)
    } else if spells_either_order(u, '5', 'T') {
        Some(Variant::T5)
    } else if spells_either_order(u, '5', 'D') {
        Some(Variant::D5)
    } else {
        None
    }
}

/// ASCII upper-casing of one character.
pub fn to_ascii_upper(c: char) -> (r: char)
    ensures
        r == ascii_upper(c),
{
    if 'a' <= c && c <= 'z' {
        let u: u32 = (c as u32) - 32;
        assert(u < 0xD800);
        let r = char_from_ascii(u as u8);
        r
    } else {
        c
    }
}

/// The character with the given ASCII code.
pub fn char_from_ascii(b: u8) -> (r: char)
    requires
        b < 128,
    ensures
        r == (b as u32) as char,
        r as u32 == b as u32,
{
    b as char
}

/// Whether the characters `s` spell `a`, `b` in either order once upper-cased.
fn spells(s: &[char], a: char, b: char) -> (r: bool)
    ensures
        r == spells_either_order(s@.map_values(|c: char| ascii_upper(c)), a, b),
{
    if s.len() != 2 {
        return false;
    }
    let u0 = to_ascii_upper(s[0]);
    let u1 = to_ascii_upper(s[1]);
    (u0 == a && u1 == b) || (u0 == b && u1 == a)
}

impl Variant {
    /// Line length: 4 or 5.
    pub fn line_len(self) -> (r: u8)
        ensures
            r == variant_line_len(self),
    {
        match self {
            Variant::T4 | Variant::D4 => 4,
            Variant::T5 | Variant::D5 => 5,
        }
    }

    /// Whether parallel collinear lines must be strictly disjoint (no shared
    /// point). When false, they may touch at a single endpoint.
    pub fn disjoint(self) -> (r: bool)
        ensures
            r == variant_disjoint(self),
    {
        matches!(self, Variant::D4 | Variant::D5)
    }

    /// The canonical two-character code, digit first (`"5T"`).
    pub fn code(self) -> (r: &'static str)
        ensures
            r@ == variant_code(self),
    {
        match self {
            Variant::T4 => {
                proof {
                    reveal_strlit("4T");
                }
                "4T"
            },
            Variant::D4 => {
                proof {
                    reveal_strlit("4D");
                }
                "4D"
            },
            Variant::T5 => {
                proof {
                    reveal_strlit("5T");
                }
                "5T"
            },
            Variant::D5 => {
                proof {
                    reveal_strlit("5D");
                }
                "5D"
            },
        }
    }

    /// Parse a code, case-insensitively and in either order (`"5T"`/`"T5"`).
    pub fn from_code(s: &str) -> (r: Option<Variant>)
        ensures
            r == variant_from_code_spec(s@),
    {
        let cs = crate::text::chars_of(s);
        Self::from_chars(&cs)
    }

    /// [`Variant::from_code`] on a character slice.
    pub fn from_chars(cs: &[char]) -> (r: Option<Variant>)
        ensures
            r == variant_from_code_spec(cs@),
    {
        if spells(cs, '4', 'T') {
            Some(Variant::T4)
        } else if spells(cs, '4', 'D') {
            Some(Variant::D4)
        } else if spells(cs, '5', 'T') {
            Some(Variant::T5)
        } else if spells(cs, '5', 'D') {
            Some(Variant::D5)
        } else {
            None
        }
    }
}

/// Line direction. The unit step `delta()` defines the coordinate convention
/// the whole format depends on.
#[derive(Debug, Clone, Copy, PartialEq, Eq, Structural, Hash)]
pub enum Direction {
    /// Horizontal, step `(1, 0)`.
    H,
    /// Vertical, step `(0, 1)`.
    V,
    /// Diagonal "up", step `(1, -1)`.
    DP,
    /// Diagonal "down", step `(1, 1)`.
    DN,
}

/// Unit step of a direction.
pub open spec fn direction_delta(d: Direction) -> (i16, i16) {
    match d {
        Direction::H => (1, 0),
        Direction::V => (0, 1),
        Direction::DP => (1, -1i16),
        Direction::DN => (1, 1),
    }
}

/// Wire code of a direction.
pub open spec fn direction_code(d: Direction) -> Seq<char> {
    match d {
        Direction::H => seq!['H'],
        Direction::V => seq!['V'],
        Direction::DP => seq!['D', 'P'],
        Direction::DN => seq!['D', 'N'],
    }
}

/// The direction whose wire code is exactly `s`.
pub open spec fn direction_from_code_spec(s: Seq<char>) -> Option<Direction> {
    if s == seq!['H'] {
        Some(Direction::H)
    } else if s == seq!['V'] {
        Some(Direction::V)
    } else if s == seq!['D', 'P'] {
        Some(Direction::DP)
    } else if s == seq!['D', 'N'] {
        Some(Direction::DN)
    } else {
        None
    }
}

impl Direction {
    /// All four directions.
    pub fn all() -> (r: [Direction; 4])
        ensures
            r@ == seq![Direction::H, Direction::V, Direction::DP, Direction::DN],
    {
        [Direction::H, Direction::V, Direction::DP, Direction::DN]
    }

    /// Unit step along the line, smaller-coordinate end first.
    pub fn delta(self) -> (r: (i16, i16))
        ensures
            r == direction_delta(self),
    {
        match self {
            Direction::H => (1, 0),
            Direction::V => (0, 1),
            Direction::DP => (1, -1),
            Direction::DN => (1, 1),
        }
    }

    /// Wire code: `"H"`, `"V"`, `"DP"`, `"DN"`.
    pub fn code(self) -> (r: &'static str)
        ensures
            r@ == direction_code(self),
    {
        match self {
            Direction::H => {
                proof {
                    reveal_strlit("H");
                }
                "H"
            },
            Direction::V => {
                proof {
                    reveal_strlit("V");
                }
                "V"
            },
            Direction::DP => {
                proof {
                    reveal_strlit("DP");
                }
                "DP"
            },
            Direction::DN => {
                proof {
                    reveal_strlit("DN");
                }
                "DN"
            },
        }
    }

    /// Parse a wire code.
    pub fn from_code(s: &str) -> (r: Option<Direction>)
        ensures
            r == direction_from_code_spec(s@),
    {
        let cs = crate::text::chars_of(s);
        if cs.len() == 1 && cs[0] == 'H' {
            assert(cs@ =~= seq!['H']);
            Some(Direction::H)
        } else if cs.len() == 1 && cs[0] == 'V' {
            assert(cs@ =~= seq!['V']);
            Some(Direction::V)
        } else if cs.len() == 2 && cs[0] == 'D' && cs[1] == 'P' {
            assert(cs@ =~= seq!['D', 'P']);
            Some(Direction::DP)
        } else if cs.len() == 2 && cs[0] == 'D' && cs[1] == 'N' {
            assert(cs@ =~= seq!['D', 'N']);
            Some(Direction::DN)
        } else {
            None
        }
    }
}

/// Whether two points are equal.
pub fn same_point(a: (i16, i16), b: (i16, i16)) -> (r: bool)
    ensures
        r == (a == b),
{
    a.0 == b.0 && a.1 == b.1
}

/// One move: a new point `(x, y)` and the line it completes. `pos` is the index
/// of the new point within that line; the line's origin is therefore
/// `(x, y) - pos * dir.delta()`.
#[derive(Debug, Clone, Copy, PartialEq, Eq, Structural)]
pub struct RecordMove {
    /// X coordinate of the newly placed point.
    pub x: i16,
    /// Y coordinate of the newly placed point.
    pub y: i16,
    /// Direction of the completed line.
    pub dir: Direction,
    /// Index of the new point within the line, in `0..line_len`.
    pub pos: u8,
}

/// The origin of a record move's line, in mathematical integers.
pub open spec fn record_origin(m: RecordMove) -> (int, int) {
    let (dx, dy) = direction_delta(m.dir);
    (m.x - m.pos * dx, m.y - m.pos * dy)
}

/// The `i`-th point of a record move's line (origin first).
pub open spec fn record_line_point(m: RecordMove, i: int) -> (int, int) {
    let (dx, dy) = direction_delta(m.dir);
    let (ox, oy) = record_origin(m);
    (ox + i * dx, oy + i * dy)
}

/// Whether an integer point is representable with `i16` coordinates.
pub open spec fn point_fits(p: (int, int)) -> bool {
    -32768 <= p.0 <= 32767 && -32768 <= p.1 <= 32767
}

/// The move's origin and its first `len` line points are representable.
pub open spec fn record_line_fits(m: RecordMove, len: int) -> bool {
    &&& point_fits(record_origin(m))
    &&& forall|i: int| 0 <= i < len ==> point_fits(#[trigger] record_line_point(m, i))
}

/// Bounds of `i * d` for a step count of a `u8` and a unit step.
proof fn lemma_unit_steps(i: int, d: int)
    requires
        0 <= i <= 255,
        -1 <= d <= 1,
    ensures
        -255 <= i * d <= 255,
{
    assert(-255 <= i * d <= 255) by (nonlinear_arith)
        requires
            0 <= i <= 255,
            -1 <= d <= 1,
    ;
}

impl RecordMove {
    /// The line's origin (smaller-coordinate end): `(x, y) - pos * delta`.
    pub fn origin(&self) -> (r: (i16, i16))
        requires
            point_fits(record_origin(*self)),
        ensures
            (r.0 as int, r.1 as int) == record_origin(*self),
    {
        let (dx, dy) = self.dir.delta();
        let p = self.pos as i16;
        proof {
            lemma_unit_steps(p as int, dx as int);
            lemma_unit_steps(p as int, dy as int);
        }
        (self.x - p * dx, self.y - p * dy)
    }

    /// The `line_len` points of the completed line, origin first.
    pub fn line_points(&self, line_len: u8) -> (r: Vec<(i16, i16)>)
        requires
            record_line_fits(*self, line_len as int),
        ensures
            r@.len() == line_len,
            forall|i: int|
                0 <= i < line_len ==> (r@[i].0 as int, r@[i].1 as int) == record_line_point(
                    *self,
                    i,
                ),
    {
        let (ox, oy) = self.origin();
        let (dx, dy) = self.dir.delta();
        let mut out: Vec<(i16, i16)> = Vec::new();
        let mut i: i16 = 0;
        while i < line_len as i16
            invariant
                0 <= i <= line_len,
                record_line_fits(*self, line_len as int),
                (ox as int, oy as int) == record_origin(*self),
                (dx, dy) == direction_delta(self.dir),
                out@.len() == i,
                forall|j: int|
                    0 <= j < i ==> (out@[j].0 as int, out@[j].1 as int) == record_line_point(
                        *self,
                        j,
                    ),
            decreases line_len - i,
        {
            proof {
                lemma_unit_steps(i as int, dx as int);
                lemma_unit_steps(i as int, dy as int);
                assert(point_fits(record_line_point(*self, i as int)));
            }
            out.push((ox + i * dx, oy + i * dy));
            i = i + 1;
        }
        out
    }
}

/// The format version this library reads and writes (the `version` field),
/// `major.minor`.
pub const FORMAT_VERSION: &'static str = "0.1";

/// The specification version implemented.
pub const SPEC_VERSION: &'static str = "0.1";

/// The version written into new records.
pub fn default_version() -> (r: String)
    ensures
        r@ == FORMAT_VERSION@,
{
    FORMAT_VERSION.to_owned()
}

} // verus!
