//! Conflict index for drawn lines, kept as fixed-grid bitsets.
//!
//! Two parallel lines can only conflict under the touch rule if they lie on the
//! same *track* (are collinear). Drawn lines are grouped by direction and
//! track, so checking a candidate inspects only its own track word:
//!
//! | Dir | track key | position |
//! |-----|-----------|----------|
//! | H   | `y`       | `x`      |
//! | V   | `x`       | `y`      |
//! | DP  | `x + y`   | `x`      |
//! | DN  | `x − y`   | `x`      |
use crate::game::bits::{
    bit, lemma_bit_and, lemma_bit_clear, lemma_bit_max, lemma_bit_nonzero, lemma_bit_set,
    lemma_bit_test, lemma_bit_zero, lemma_low_mask, lemma_one_shl, lemma_bit_not, lemma_nonzero_has_bit,
};
use crate::game::board::{in_grid, Pos, OFFSET};
use crate::game::line::{Dir, Line};
use vstd::prelude::*;

verus! {

/// Track key of a line: the coordinate (combination) constant along it.
pub open spec fn track_key(l: Line) -> int {
    let (x, y) = (l.origin.0 as int, l.origin.1 as int);
    match l.dir {
        Dir::H => y,
        Dir::V => x,
        Dir::DP => x + y,
        Dir::DN => x - y,
    }
}

/// Position of a line's origin along its track.
pub open spec fn track_pos(l: Line) -> int {
    match l.dir {
        Dir::V => l.origin.1 as int,
        _ => l.origin.0 as int,
    }
}

/// Whether two lines break the touch rule: same direction, same track, and
/// origins at most `forbid` apart along it (distance 0 is the same line).
pub open spec fn lines_conflict_spec(a: Line, b: Line, forbid: int) -> bool {
    &&& a.dir == b.dir
    &&& track_key(a) == track_key(b)
    &&& -forbid <= track_pos(a) - track_pos(b) <= forbid
}

/// Grid column of a line's origin.
pub open spec fn gx_of(l: Line) -> int {
    l.origin.0 + OFFSET
}

/// Grid row of a line's origin.
pub open spec fn gy_of(l: Line) -> int {
    l.origin.1 + OFFSET
}

/// Index of a line's track word within its direction's table.
pub open spec fn slot_index(l: Line) -> int {
    match l.dir {
        Dir::H => gy_of(l),
        Dir::V => gx_of(l),
        Dir::DP => gx_of(l) + gy_of(l),
        Dir::DN => gx_of(l) + 128 - gy_of(l),
    }
}

/// Bit of a line within its track word.
pub open spec fn slot_bit(l: Line) -> int {
    match l.dir {
        Dir::V => gy_of(l),
        _ => gx_of(l),
    }
}

/// Drawn lines, one bitset word per track and direction.
#[derive(Clone, Debug)]
pub struct LineIndex {
    pub h: Vec<u128>,
    pub v: Vec<u128>,
    pub dp: Vec<u128>,
    pub dn: Vec<u128>,
}

impl LineIndex {
    /// The track words of a direction.
    pub open spec fn words(&self, d: Dir) -> Seq<u128> {
        match d {
            Dir::H => self.h@,
            Dir::V => self.v@,
            Dir::DP => self.dp@,
            Dir::DN => self.dn@,
        }
    }

    /// Whether line `l` is drawn.
    pub open spec fn has(&self, l: Line) -> bool {
        in_grid(l.origin) && bit(self.words(l.dir)[slot_index(l)], slot_bit(l) as u128)
    }

    /// Table sizes, and every set diagonal bit stands for an on-grid line.
    pub open spec fn wf(&self) -> bool {
        &&& self.h@.len() == 128
        &&& self.v@.len() == 128
        &&& self.dp@.len() == 256
        &&& self.dn@.len() == 256
        &&& forall|t: int, b: u128|
            0 <= t < 256 && b < 128 && #[trigger] bit(self.dp@[t], b) ==> 0 <= t - b < 128
        &&& forall|t: int, b: u128|
            0 <= t < 256 && b < 128 && #[trigger] bit(self.dn@[t], b) ==> 0 <= b + 128 - t < 128
    }

    pub fn new() -> (r: Self)
        ensures
            r.wf(),
            forall|l: Line| !r.has(l),
    {
        let r = LineIndex { h: zero_words(128), v: zero_words(128), dp: zero_words(256), dn: zero_words(256) };
        proof {
            assert forall|t: int, b: u128| 0 <= t < 256 && b < 128 implies !bit(r.dp@[t], b) && !bit(r.dn@[t], b) by {
                lemma_bit_zero(b);
            }
            assert forall|l: Line| !r.has(l) by {
                if in_grid(l.origin) {
                    lemma_bit_zero(slot_bit(l) as u128);
                }
            }
        }
        r
    }

    /// Word index and bit of a line.
    fn slot(line: &Line) -> (r: (usize, u32))
        requires
            in_grid(line.origin),
        ensures
            r.0 == slot_index(*line),
            r.1 == slot_bit(*line),
            r.1 < 128,
            match line.dir {
                Dir::H | Dir::V => r.0 < 128,
                _ => r.0 < 256,
            },
    {
        let gx = (line.origin.0 + OFFSET) as usize;
        let gy = (line.origin.1 + OFFSET) as usize;
        match line.dir {
            Dir::H => (gy, gx as u32),
            Dir::V => (gx, gy as u32),
            Dir::DP => (gx + gy, gx as u32),
            Dir::DN => (gx + 128 - gy, gx as u32),
        }
    }

    /// Track word of a line.
    fn word(&self, line: &Line) -> (r: u128)
        requires
            self.wf(),
            in_grid(line.origin),
        ensures
            r == self.words(line.dir)[slot_index(*line)],
    {
        let (i, _) = Self::slot(line);
        match line.dir {
            Dir::H => self.h[i],
            Dir::V => self.v[i],
            Dir::DP => self.dp[i],
            Dir::DN => self.dn[i],
        }
    }

    /// Replace the track word of a line.
    fn set_word(&mut self, line: &Line, w: u128)
        requires
            old(self).wf(),
            in_grid(line.origin),
        ensures
            forall|d: Dir| #[trigger] final(self).words(d).len() == old(self).words(d).len(),
            forall|d: Dir, i: int|
                0 <= i < old(self).words(d).len() ==> #[trigger] final(self).words(d)[i] == if d == line.dir
                    && i == slot_index(*line) {
                    w
                } else {
                    old(self).words(d)[i]
                },
    {
        let (i, _) = Self::slot(line);
        match line.dir {
            Dir::H => self.h.set(i, w),
            Dir::V => self.v.set(i, w),
            Dir::DP => self.dp.set(i, w),
            Dir::DN => self.dn.set(i, w),
        }
    }

    /// Draw `line`.
    pub fn insert(&mut self, line: &Line)
        requires
            old(self).wf(),
            in_grid(line.origin),
        ensures
            final(self).wf(),
            forall|l: Line| #[trigger] final(self).has(l) == (old(self).has(l) || l == *line),
    {
        let ghost old_idx = *self;
        let (_, b) = Self::slot(line);
        let w = self.word(line);
        self.set_word(line, w | (1u128 << b));
        proof {
            assert forall|l: Line| #[trigger] self.has(l) == (old_idx.has(l) || l == *line) by {
                if in_grid(l.origin) {
                    if l.dir == line.dir && slot_index(l) == slot_index(*line) {
                        lemma_bit_set(w, b as u128, slot_bit(l) as u128);
                        lemma_same_slot(l, *line);
                    }
                }
            }
            self.lemma_wf_after_set(old_idx, *line, b as u128, w | (1u128 << b), true);
        }
    }

    /// Erase `line`.
    pub fn remove(&mut self, line: &Line)
        requires
            old(self).wf(),
            in_grid(line.origin),
        ensures
            final(self).wf(),
            forall|l: Line| #[trigger] final(self).has(l) == (old(self).has(l) && l != *line),
    {
        let ghost old_idx = *self;
        let (_, b) = Self::slot(line);
        let w = self.word(line);
        self.set_word(line, w & !(1u128 << b));
        proof {
            assert forall|l: Line| #[trigger] self.has(l) == (old_idx.has(l) && l != *line) by {
                if in_grid(l.origin) {
                    if l.dir == line.dir && slot_index(l) == slot_index(*line) {
                        lemma_bit_clear(w, b as u128, slot_bit(l) as u128);
                        lemma_same_slot(l, *line);
                    }
                }
            }
            self.lemma_wf_after_set(old_idx, *line, b as u128, w & !(1u128 << b), false);
        }
    }

    /// Table invariant after writing the track word of `line`.
    proof fn lemma_wf_after_set(&self, old_idx: LineIndex, line: Line, b: u128, w: u128, set: bool)
        requires
            old_idx.wf(),
            in_grid(line.origin),
            b == slot_bit(line),
            set ==> w == old_idx.words(line.dir)[slot_index(line)] | (1u128 << b),
            !set ==> w == old_idx.words(line.dir)[slot_index(line)] & !(1u128 << b),
            forall|d: Dir| #[trigger] self.words(d).len() == old_idx.words(d).len(),
            forall|d: Dir, i: int|
                0 <= i < old_idx.words(d).len() ==> #[trigger] self.words(d)[i] == if d == line.dir
                    && i == slot_index(line) {
                    w
                } else {
                    old_idx.words(d)[i]
                },
        ensures
            self.wf(),
    {
        assert(self.words(Dir::H).len() == old_idx.words(Dir::H).len());
        assert(self.words(Dir::V).len() == old_idx.words(Dir::V).len());
        assert(self.words(Dir::DP).len() == old_idx.words(Dir::DP).len());
        assert(self.words(Dir::DN).len() == old_idx.words(Dir::DN).len());
        assert forall|t: int, c: u128|
            0 <= t < 256 && c < 128 && #[trigger] bit(self.dp@[t], c) implies 0 <= t - c < 128 by {
            assert(self.dp@[t] == self.words(Dir::DP)[t]);
            if line.dir == Dir::DP && t == slot_index(line) {
                let ow = old_idx.dp@[t];
                if set {
                    lemma_bit_set(ow, b, c);
                } else {
                    lemma_bit_clear(ow, b, c);
                }
            } else {
                assert(old_idx.dp@[t] == old_idx.words(Dir::DP)[t]);
            }
        }
        assert forall|t: int, c: u128|
            0 <= t < 256 && c < 128 && #[trigger] bit(self.dn@[t], c) implies 0 <= c + 128 - t < 128 by {
            assert(self.dn@[t] == self.words(Dir::DN)[t]);
            if line.dir == Dir::DN && t == slot_index(line) {
                let ow = old_idx.dn@[t];
                if set {
                    lemma_bit_set(ow, b, c);
                } else {
                    lemma_bit_clear(ow, b, c);
                }
            } else {
                assert(old_idx.dn@[t] == old_idx.words(Dir::DN)[t]);
            }
        }
    }

    /// Exact-duplicate test: is this exact line already drawn?
    pub fn contains(&self, line: &Line) -> (r: bool)
        requires
            self.wf(),
        ensures
            r == self.has(*line),
    {
        if !on_grid(line.origin) {
            return false;
        }
        let (_, b) = Self::slot(line);
        let w = self.word(line);
        proof {
            lemma_bit_test(w, b as u128);
        }
        w & (1u128 << b) != 0
    }

    /// Would drawing `line` violate the touch rule? `forbid` is the largest
    /// track distance that still conflicts (3 for 5T, 4 for 5D, 2 for 4T, 3
    /// for 4D); distance 0 is an exact duplicate.
    pub fn conflicts(&self, line: &Line, forbid: u8) -> (r: bool)
        requires
            self.wf(),
            in_grid(line.origin),
            forbid < 128,
        ensures
            r == exists|l: Line| #[trigger] self.has(l) && lines_conflict_spec(l, *line, forbid as int),
    {
        let (_, p) = Self::slot(line);
        let w = self.word(line);
        let m = window_mask(p as u8, forbid);
        let r = w & m != 0;
        proof {
            let pi = p as int;
            let fi = forbid as int;
            if r {
                lemma_nonzero_has_bit(w & m);
                let c = choose|c: u128| c < 128 && #[trigger] bit(w & m, c);
                lemma_bit_and(w, m, c);
                let l = self.line_at(line.dir, slot_index(*line), c);
                assert(self.has(l) && lines_conflict_spec(l, *line, fi));
            } else {
                assert forall|l: Line| #[trigger] self.has(l) implies !lines_conflict_spec(l, *line, fi) by {
                    if lines_conflict_spec(l, *line, fi) {
                        lemma_track_slot(l, *line);
                        let c = slot_bit(l) as u128;
                        lemma_bit_and(w, m, c);
                        lemma_bit_nonzero(w & m, c);
                    }
                }
            }
        }
        r
    }

    /// The drawn line whose bit `c` is set in word `t` of direction `d`.
    proof fn line_at(&self, d: Dir, t: int, c: u128) -> (l: Line)
        requires
            self.wf(),
            0 <= t < self.words(d).len(),
            c < 128,
            bit(self.words(d)[t], c),
        ensures
            self.has(l),
            l.dir == d,
            slot_index(l) == t,
            slot_bit(l) == c,
    {
        let ci = c as int;
        let l = match d {
            Dir::H => Line { origin: ((ci - OFFSET) as i16, (t - OFFSET) as i16), dir: d },
            Dir::V => Line { origin: ((t - OFFSET) as i16, (ci - OFFSET) as i16), dir: d },
            Dir::DP => Line { origin: ((ci - OFFSET) as i16, (t - ci - OFFSET) as i16), dir: d },
            Dir::DN => Line { origin: ((ci - OFFSET) as i16, (ci + 128 - t - OFFSET) as i16), dir: d },
        };
        l
    }
}

/// A vector of `n` zero words.
fn zero_words(n: usize) -> (r: Vec<u128>)
    ensures
        r@.len() == n,
        forall|i: int| 0 <= i < n ==> r@[i] == 0u128,
{
    let mut v: Vec<u128> = Vec::new();
    let mut i: usize = 0;
    while i < n
        invariant
            i <= n,
            v@.len() == i,
            forall|j: int| 0 <= j < i ==> v@[j] == 0u128,
        decreases n - i,
    {
        v.push(0u128);
        i = i + 1;
    }
    v
}

/// Whether a point falls on the grid.
pub fn on_grid(p: Pos) -> (r: bool)
    ensures
        r == in_grid(p),
{
    -OFFSET <= p.0 && p.0 < 128 - OFFSET && -OFFSET <= p.1 && p.1 < 128 - OFFSET
}

/// Two lines on the same slot are the same line.
proof fn lemma_same_slot(a: Line, b: Line)
    requires
        in_grid(a.origin),
        in_grid(b.origin),
        a.dir == b.dir,
        slot_index(a) == slot_index(b),
    ensures
        (slot_bit(a) == slot_bit(b)) == (a == b),
{
}

/// Collinear same-direction lines share their track word, and their bit
/// distance is their track distance.
proof fn lemma_track_slot(a: Line, b: Line)
    requires
        in_grid(a.origin),
        in_grid(b.origin),
        a.dir == b.dir,
        track_key(a) == track_key(b),
    ensures
        slot_index(a) == slot_index(b),
        slot_bit(a) - slot_bit(b) == track_pos(a) - track_pos(b),
{
}

/// Bit mask of positions `[pos − forbid, pos + forbid]`, clamped to `[0, 127]`.
fn window_mask(pos: u8, forbid: u8) -> (r: u128)
    requires
        pos < 128,
        forbid < 128,
    ensures
        forall|c: u128| c < 128 ==> #[trigger] bit(r, c) == (pos - forbid <= c <= pos + forbid),
{
    let lo: u8 = if pos >= forbid { pos - forbid } else { 0 };
    let hi16: u16 = pos as u16 + forbid as u16;
    let hi: u8 = if hi16 > 127 { 127 } else { hi16 as u8 };
    proof {
        if hi < 127 {
            lemma_one_shl((hi + 1) as u128);
        }
        lemma_one_shl(lo as u128);
    }
    let hi_mask: u128 = if hi >= 127 { u128::MAX } else { (1u128 << (hi + 1)) - 1 };
    let lo_mask: u128 = if lo == 0 { 0 } else { (1u128 << lo) - 1 };
    let r = hi_mask & !lo_mask;
    proof {
        assert forall|c: u128| c < 128 implies #[trigger] bit(r, c) == (pos - forbid <= c <= pos + forbid) by {
            lemma_bit_and(hi_mask, !lo_mask, c);
            lemma_bit_not(lo_mask, c);
            if hi >= 127 {
                lemma_bit_max(c);
            } else {
                lemma_low_mask((hi + 1) as u128, c);
            }
            if lo == 0 {
                lemma_bit_zero(c);
            } else {
                lemma_low_mask(lo as u128, c);
            }
        }
    }
    r
}

/// Whether two lines violate the touch rule with each other (without
/// consulting an index).
pub fn lines_conflict(a: &Line, b: &Line, forbid: u8) -> (r: bool)
    ensures
        r == lines_conflict_spec(*a, *b, forbid as int),
{
    if a.dir != b.dir {
        return false;
    }
    let (ta, pa) = track_of(a);
    let (tb, pb) = track_of(b);
    ta == tb && pa - pb <= forbid as i32 && pb - pa <= forbid as i32
}

/// Track key and position of a line.
fn track_of(l: &Line) -> (r: (i32, i32))
    ensures
        r.0 == track_key(*l),
        r.1 == track_pos(*l),
{
    let x = l.origin.0 as i32;
    let y = l.origin.1 as i32;
    match l.dir {
        Dir::H => (y, x),
        Dir::V => (x, y),
        Dir::DP => (x + y, x),
        Dir::DN => (x - y, x),
    }
}


/// `idxs` are the indexes met building one from `ls`: nothing drawn at first,
/// then each step draws the next line of `ls` (as `LineIndex::new` and then
/// `insert` of each line give).
pub open spec fn built_from(idxs: Seq<LineIndex>, ls: Seq<Line>) -> bool {
    &&& idxs.len() == ls.len() + 1
    &&& forall|l: Line| !idxs[0].has(l)
    &&& forall|i: int, l: Line|
        0 <= i < ls.len() ==> #[trigger] idxs[i + 1].has(l) == (idxs[i].has(l) || l == ls[i])
}

/// Building an index from a list of lines draws exactly those lines.
proof fn lemma_built_draws(idxs: Seq<LineIndex>, ls: Seq<Line>, k: int, l: Line)
    requires
        built_from(idxs, ls),
        0 <= k <= ls.len(),
    ensures
        idxs[k].has(l) <==> exists|i: int| 0 <= i < k && ls[i] == l,
    decreases k,
{
    if k > 0 {
        lemma_built_draws(idxs, ls, k - 1, l);
        let j = k - 1;
        assert(idxs[j + 1].has(l) == (idxs[j].has(l) || l == ls[j]));
        assert(j + 1 == k);
        if exists|i: int| 0 <= i < k && ls[i] == l {
            let i = choose|i: int| 0 <= i < k && ls[i] == l;
            if i < k - 1 {
                assert(exists|i2: int| 0 <= i2 < k - 1 && ls[i2] == l);
            }
        }
    }
}

/// An index built from a list of lines conflicts with a line exactly when
/// some line of the list does: `conflicts` on it agrees with the list.
pub proof fn lemma_conflicts_built(idxs: Seq<LineIndex>, ls: Seq<Line>, line: Line, forbid: int)
    requires
        built_from(idxs, ls),
    ensures
        (exists|l: Line| #[trigger] idxs.last().has(l) && lines_conflict_spec(l, line, forbid)) <==> exists|i: int|
            0 <= i < ls.len() && lines_conflict_spec(#[trigger] ls[i], line, forbid),
{
    let last = idxs[ls.len() as int];
    assert(idxs.last() == last);
    if exists|l: Line| #[trigger] last.has(l) && lines_conflict_spec(l, line, forbid) {
        let l = choose|l: Line| #[trigger] last.has(l) && lines_conflict_spec(l, line, forbid);
        lemma_built_draws(idxs, ls, ls.len() as int, l);
        let i = choose|i: int| 0 <= i < ls.len() && ls[i] == l;
        assert(lines_conflict_spec(ls[i], line, forbid));
    }
    if exists|i: int| 0 <= i < ls.len() && lines_conflict_spec(#[trigger] ls[i], line, forbid) {
        let i = choose|i: int| 0 <= i < ls.len() && lines_conflict_spec(#[trigger] ls[i], line, forbid);
        lemma_built_draws(idxs, ls, ls.len() as int, ls[i]);
        assert(last.has(ls[i]));
    }
}

} // verus!
