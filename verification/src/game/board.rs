//! The occupancy bitboard: a fixed `GRID × GRID` square of cells.
//!
//! Row `gy` is a `u128` word whose bit `gx` is set when cell `(gx, gy)` is
//! occupied; a point `(x, y)` lives at grid cell `(x + OFFSET, y + OFFSET)`.
//! Points are only placed at least `MARGIN` cells away from the grid edge, so
//! a window of up to five cells around any occupied cell stays on the grid.
use crate::game::bits::{bit, lemma_bit_clear, lemma_bit_set, lemma_bit_test, lemma_bit_zero};
use vstd::prelude::*;

verus! {

/// A board point.
pub type Pos = (i16, i16);

/// Side length of the grid (the bit width of a row word).
pub const GRID: i16 = 128;

/// Point coordinate → grid index offset, centring the initial cross.
pub const OFFSET: i16 = 59;

/// No point is placed within this many cells of the grid edge.
pub const MARGIN: i16 = 4;

/// Whether a point falls on the grid.
pub open spec fn in_grid(p: Pos) -> bool {
    0 <= p.0 + OFFSET < GRID && 0 <= p.1 + OFFSET < GRID
}

/// Whether a point may be placed: at least `MARGIN` cells from the grid edge.
pub open spec fn in_margin(p: Pos) -> bool {
    MARGIN <= p.0 + OFFSET < GRID - MARGIN && MARGIN <= p.1 + OFFSET < GRID - MARGIN
}

/// The board: occupied cells in placement order and the occupancy bitboard.
#[derive(Debug, Clone)]
pub struct Board {
    /// Occupied cells in placement order (initial cross first, then moves).
    pub cells: Vec<Pos>,
    /// `GRID` rows: bit `gx` of row `gy` set ⇔ cell `(gx, gy)` occupied.
    pub grid: Vec<u128>,
}

impl Board {
    /// Whether `p` is occupied.
    pub open spec fn occupied(&self, p: Pos) -> bool {
        in_grid(p) && bit(self.grid@[p.1 + OFFSET], (p.0 + OFFSET) as u128)
    }

    /// Well-formedness: `GRID` rows; every occupied point is a placed cell in
    /// the margin; every placed cell lies in the margin.
    pub open spec fn wf(&self) -> bool {
        &&& self.grid@.len() == GRID
        &&& forall|p: Pos| #[trigger] self.occupied(p) ==> self.cells@.contains(p) && in_margin(p)
        &&& forall|i: int| 0 <= i < self.cells@.len() ==> in_margin(#[trigger] self.cells@[i])
    }

    /// Occupied cells are placed cells in the margin.
    pub proof fn lemma_occupied(&self, p: Pos)
        requires
            self.wf(),
            self.occupied(p),
        ensures
            self.cells@.contains(p),
            in_margin(p),
    {
    }

    /// Every placed cell lies in the margin.
    pub proof fn lemma_cells_in_margin(&self, i: int)
        requires
            self.wf(),
            0 <= i < self.cells@.len(),
        ensures
            in_margin(self.cells@[i]),
    {
    }

    pub fn new() -> (r: Self)
        ensures
            r.wf(),
            r.cells@ == Seq::<Pos>::empty(),
            forall|p: Pos| !r.occupied(p),
    {
        let mut grid: Vec<u128> = Vec::new();
        let mut i: usize = 0;
        while i < 128
            invariant
                i <= 128,
                grid@.len() == i,
                forall|j: int| 0 <= j < i ==> grid@[j] == 0u128,
            decreases 128 - i,
        {
            grid.push(0u128);
            i = i + 1;
        }
        let r = Board { cells: Vec::new(), grid };
        proof {
            assert forall|p: Pos| !r.occupied(p) by {
                if in_grid(p) {
                    lemma_bit_zero((p.0 + OFFSET) as u128);
                }
            }
        }
        r
    }

    /// Whether `pos` is occupied (always false off the grid).
    pub fn contains(&self, pos: Pos) -> (r: bool)
        requires
            self.wf(),
        ensures
            r == self.occupied(pos),
    {
        if pos.0 < -OFFSET || pos.0 >= GRID - OFFSET || pos.1 < -OFFSET || pos.1 >= GRID - OFFSET {
            return false;
        }
        let gx = (pos.0 + OFFSET) as u32;
        let gy = (pos.1 + OFFSET) as usize;
        let w = self.grid[gy];
        proof {
            lemma_bit_test(w, gx as u128);
        }
        w & (1u128 << gx) != 0
    }

    /// Occupancy of grid row `gy` (bit `gx` set ⇔ cell `(gx, gy)` occupied).
    pub fn row(&self, gy: usize) -> (r: u128)
        requires
            self.wf(),
            gy < 128,
        ensures
            r == self.grid@[gy as int],
    {
        self.grid[gy]
    }

    /// Place a point. Returns `false` without writing if it would fall within
    /// the margin of the grid edge (the state is then unchanged).
    pub fn insert(&mut self, pos: Pos) -> (r: bool)
        requires
            old(self).wf(),
        ensures
            final(self).wf(),
            r == in_margin(pos),
            r ==> final(self).cells@ == old(self).cells@.push(pos),
            !r ==> final(self).cells@ == old(self).cells@,
            forall|p: Pos|
                #[trigger] final(self).occupied(p) == (old(self).occupied(p) || (r && p == pos)),
    {
        if !(MARGIN - OFFSET <= pos.0 && pos.0 < GRID - MARGIN - OFFSET && MARGIN - OFFSET <= pos.1
            && pos.1 < GRID - MARGIN - OFFSET) {
            return false;
        }
        let gx = (pos.0 + OFFSET) as u32;
        let gy = (pos.1 + OFFSET) as usize;
        let ghost old_board = *self;
        let w = self.grid[gy];
        self.grid.set(gy, w | (1u128 << gx));
        self.cells.push(pos);
        proof {
            assert forall|p: Pos|
                #[trigger] self.occupied(p) == (old_board.occupied(p) || p == pos) by {
                if in_grid(p) {
                    let px = (p.0 + OFFSET) as u128;
                    let py = p.1 + OFFSET;
                    if py == gy {
                        lemma_bit_set(w, gx as u128, px);
                    }
                }
            }
            assert forall|p: Pos| #[trigger] self.occupied(p) implies self.cells@.contains(p)
                && in_margin(p) by {
                if p != pos {
                    assert(old_board.occupied(p));
                    let k = choose|k: int|
                        0 <= k < old_board.cells@.len() && old_board.cells@[k] == p;
                    assert(self.cells@[k] == p);
                } else {
                    assert(self.cells@[self.cells@.len() - 1] == p);
                }
            }
            assert forall|i: int| 0 <= i < self.cells@.len() implies in_margin(
                #[trigger] self.cells@[i],
            ) by {
                if i < old_board.cells@.len() {
                    assert(self.cells@[i] == old_board.cells@[i]);
                }
            }
        }
        true
    }

    /// Remove the most recently placed point (undo is strictly LIFO).
    pub fn remove(&mut self, pos: Pos)
        requires
            old(self).wf(),
            old(self).cells@.len() > 0,
            old(self).cells@.last() == pos,
        ensures
            final(self).wf(),
            final(self).cells@ == old(self).cells@.drop_last(),
            forall|p: Pos| #[trigger] final(self).occupied(p) == (old(self).occupied(p) && p != pos),
    {
        let ghost old_board = *self;
        proof {
            assert(old_board.cells@.contains(pos));
            assert(in_margin(pos));
        }
        let gx = (pos.0 + OFFSET) as u32;
        let gy = (pos.1 + OFFSET) as usize;
        let w = self.grid[gy];
        self.grid.set(gy, w & !(1u128 << gx));
        let _ = self.cells.pop();
        proof {
            assert forall|p: Pos|
                #[trigger] self.occupied(p) == (old_board.occupied(p) && p != pos) by {
                if in_grid(p) {
                    let px = (p.0 + OFFSET) as u128;
                    let py = p.1 + OFFSET;
                    if py == gy {
                        lemma_bit_clear(w, gx as u128, px);
                    }
                }
            }
            assert forall|p: Pos| #[trigger] self.occupied(p) implies self.cells@.contains(p)
                && in_margin(p) by {
                assert(old_board.occupied(p));
                let k = choose|k: int|
                    0 <= k < old_board.cells@.len() && old_board.cells@[k] == p;
                assert(k < old_board.cells@.len() - 1);
                assert(self.cells@[k] == p);
            }
            assert forall|i: int| 0 <= i < self.cells@.len() implies in_margin(
                #[trigger] self.cells@[i],
            ) by {
                assert(self.cells@[i] == old_board.cells@[i]);
            }
        }
    }

    pub fn len(&self) -> (r: usize)
        ensures
            r == self.cells@.len(),
    {
        self.cells.len()
    }

    pub fn is_empty(&self) -> (r: bool)
        ensures
            r == (self.cells@.len() == 0),
    {
        self.cells.len() == 0
    }
}

} // verus!
