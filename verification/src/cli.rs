//! Plain-text rendering of a game for the command line.
use crate::game::board::{in_margin, Pos};
use crate::game::moves::Move;
use crate::game::state::{is_bounding_box, GameState};
use crate::text::{dec, lemma_dec_len, push_dec, string_from_chars};
use vstd::prelude::*;

verus! {

/// Index of the last move of `h` placed at `p`, or `-1` when none is.
pub open spec fn last_index(h: Seq<Move>, p: Pos) -> int
    decreases h.len(),
{
    if h.len() == 0 {
        -1
    } else if h.last().pos == p {
        h.len() - 1
    } else {
        last_index(h.drop_last(), p)
    }
}

/// `s` padded on the left with spaces to at least `w` characters (`{:>w}`).
pub open spec fn space_pad(s: Seq<char>, w: nat) -> Seq<char> {
    if s.len() >= w {
        s
    } else {
        Seq::new((w - s.len()) as nat, |i: int| ' ') + s
    }
}

/// The mark of a cell: `@` the last move, `O` another played point, `+` a
/// point of the initial cross, `.` an empty cell.
pub open spec fn cell_mark(s: GameState, p: Pos) -> char {
    let h = s.history@;
    if h.len() > 0 && h.last().pos == p {
        '@'
    } else if last_index(h, p) >= 0 {
        'O'
    } else if s.board.occupied(p) {
        '+'
    } else {
        '.'
    }
}

/// The text of one cell: with `numbers`, a played point shows its move
/// number right-aligned in three columns and any other cell its mark after
/// two spaces; without, the mark and a space.
pub open spec fn cell_text(s: GameState, numbers: bool, p: Pos) -> Seq<char> {
    let i = last_index(s.history@, p);
    if numbers && i >= 0 {
        space_pad(dec((i + 1) as nat), 3)
    } else if numbers {
        seq![' ', ' ', cell_mark(s, p)]
    } else {
        seq![cell_mark(s, p), ' ']
    }
}

/// The cells `(x0, y) .. (x0 + n - 1, y)`, left to right.
pub open spec fn row_text(s: GameState, numbers: bool, y: int, x0: int, n: nat) -> Seq<char>
    decreases n,
{
    if n == 0 {
        Seq::empty()
    } else {
        row_text(s, numbers, y, x0, (n - 1) as nat) + cell_text(
            s,
            numbers,
            ((x0 + n - 1) as i16, y as i16),
        )
    }
}

/// Rows `y0 .. y0 + ny - 1`, top to bottom, each of `nx` cells from `x0` and
/// ended by a newline.
pub open spec fn rows_text(
    s: GameState,
    numbers: bool,
    x0: int,
    nx: nat,
    y0: int,
    ny: nat,
) -> Seq<char>
    decreases ny,
{
    if ny == 0 {
        Seq::empty()
    } else {
        rows_text(s, numbers, x0, nx, y0, (ny - 1) as nat) + row_text(
            s,
            numbers,
            y0 + ny - 1,
            x0,
            nx,
        ) + seq!['\n']
    }
}

/// The board inside the bounding box `b = (min_x, min_y, max_x, max_y)`
/// grown by one cell on every side.
pub open spec fn board_text(s: GameState, numbers: bool, b: (i16, i16, i16, i16)) -> Seq<char> {
    rows_text(
        s,
        numbers,
        b.0 - 1,
        (b.2 - b.0 + 3) as nat,
        b.1 - 1,
        (b.3 - b.1 + 3) as nat,
    )
}

/// Index of the last move of `h` at `p`.
fn last_played(h: &Vec<Move>, p: Pos) -> (r: Option<usize>)
    ensures
        r is None <==> last_index(h@, p) < 0,
        r matches Some(i) ==> i == last_index(h@, p) && i < h@.len(),
{
    let mut found: Option<usize> = None;
    let mut i: usize = 0;
    while i < h.len()
        invariant
            i <= h@.len(),
            found is None <==> last_index(h@.take(i as int), p) < 0,
            found matches Some(j) ==> j == last_index(h@.take(i as int), p) && j < i,
        decreases h@.len() - i,
    {
        proof {
            assert(h@.take(i + 1).drop_last() =~= h@.take(i as int));
            assert(h@.take(i + 1).last() == h@[i as int]);
        }
        if h[i].pos.0 == p.0 && h[i].pos.1 == p.1 {
            found = Some(i);
        }
        i = i + 1;
    }
    proof {
        assert(h@.take(h@.len() as int) =~= h@);
    }
    found
}

/// Append the text of the cell `p`.
fn push_cell(out: &mut Vec<char>, state: &GameState, numbers: bool, p: Pos)
    requires
        state.board.wf(),
    ensures
        final(out)@ == old(out)@ + cell_text(*state, numbers, p),
{
    let h = &state.history;
    let idx = last_played(h, p);
    if numbers && idx.is_some() {
        let i = idx.unwrap();
        let n = h.len();
        assert(i < n);
        let mut digits: Vec<char> = Vec::new();
        push_dec(&mut digits, (i + 1) as u64);
        proof {
            assert(digits@ =~= dec((i + 1) as nat));
            lemma_dec_len((i + 1) as nat);
        }
        let ghost o0 = out@;
        let pad: usize = if digits.len() < 3 {
            3 - digits.len()
        } else {
            0
        };
        let mut k: usize = 0;
        while k < pad
            invariant
                k <= pad,
                out@ == o0 + Seq::new(k as nat, |j: int| ' '),
            decreases pad - k,
        {
            out.push(' ');
            proof {
                assert(out@ =~= o0 + Seq::new((k + 1) as nat, |j: int| ' '));
            }
            k = k + 1;
        }
        let ghost o1 = out@;
        let mut j: usize = 0;
        while j < digits.len()
            invariant
                j <= digits@.len(),
                out@ == o1 + digits@.subrange(0, j as int),
            decreases digits@.len() - j,
        {
            out.push(digits[j]);
            proof {
                assert(out@ =~= o1 + digits@.subrange(0, j + 1));
            }
            j = j + 1;
        }
        proof {
            assert(digits@.subrange(0, digits@.len() as int) =~= digits@);
            assert(out@ =~= o0 + space_pad(dec((i + 1) as nat), 3));
        }
    } else {
        let is_last = h.len() > 0 && h[h.len() - 1].pos.0 == p.0 && h[h.len() - 1].pos.1 == p.1;
        let c = if is_last {
            '@'
        } else if idx.is_some() {
            'O'
        } else if state.board.contains(p) {
            '+'
        } else {
            '.'
        };
        proof {
            if h@.len() > 0 {
                assert(h@.last() == h@[h@.len() - 1]);
            }
            assert(c == cell_mark(*state, p));
        }
        if numbers {
            out.push(' ');
            out.push(' ');
            out.push(c);
        } else {
            out.push(c);
            out.push(' ');
        }
        proof {
            assert(final(out)@ =~= old(out)@ + cell_text(*state, numbers, p));
        }
    }
}

/// The board as text: one line per row of the bounding box grown by one cell
/// on every side, `"(empty board)\n"` when nothing is placed.
pub fn ascii_board(state: &GameState, numbers: bool) -> (r: String)
    requires
        state.wf(),
    ensures
        state.board.cells@.len() == 0 ==> r@ == "(empty board)\n"@,
        state.board.cells@.len() > 0 ==> exists|b: (i16, i16, i16, i16)|
            #[trigger] is_bounding_box(state.board.cells@, b) && r@ == board_text(
                *state,
                numbers,
                b,
            ),
{
    let bb = state.bounding_box();
    if bb.is_none() {
        return "(empty board)\n".to_owned();
    }
    let (min_x, min_y, max_x, max_y) = bb.unwrap();
    let ghost b = (min_x, min_y, max_x, max_y);
    let ghost cells = state.board.cells@;
    proof {
        let k0 = choose|k: int| 0 <= k < cells.len() && cells[k].0 == b.0;
        let k1 = choose|k: int| 0 <= k < cells.len() && cells[k].1 == b.1;
        let k2 = choose|k: int| 0 <= k < cells.len() && cells[k].0 == b.2;
        let k3 = choose|k: int| 0 <= k < cells.len() && cells[k].1 == b.3;
        assert(in_margin(cells[k0]));
        assert(in_margin(cells[k1]));
        assert(in_margin(cells[k2]));
        assert(in_margin(cells[k3]));
        assert(cells[0].0 <= b.2 && b.0 <= cells[0].0);
        assert(cells[0].1 <= b.3 && b.1 <= cells[0].1);
    }
    let x0: i16 = min_x - 1;
    let y0: i16 = min_y - 1;
    let nx: i16 = max_x - min_x + 3;
    let ny: i16 = max_y - min_y + 3;
    let mut out: Vec<char> = Vec::new();
    let mut dy: i16 = 0;
    while dy < ny
        invariant
            0 <= dy <= ny,
            state.board.wf(),
            -60 <= x0 && x0 + nx <= 70 && 3 <= nx,
            -60 <= y0 && y0 + ny <= 70 && 3 <= ny,
            out@ == rows_text(*state, numbers, x0 as int, nx as nat, y0 as int, dy as nat),
        decreases ny - dy,
    {
        let y: i16 = y0 + dy;
        let ghost before = out@;
        let mut dx: i16 = 0;
        while dx < nx
            invariant
                0 <= dx <= nx,
                state.board.wf(),
                -60 <= x0 && x0 + nx <= 70 && 3 <= nx,
                -60 <= y && y <= 70,
                out@ == before + row_text(*state, numbers, y as int, x0 as int, dx as nat),
            decreases nx - dx,
        {
            let x: i16 = x0 + dx;
            push_cell(&mut out, state, numbers, (x, y));
            proof {
                assert(((x0 + dx + 1 - 1) as i16, y as i16) == (x, y));
                assert(out@ =~= before + row_text(
                    *state,
                    numbers,
                    y as int,
                    x0 as int,
                    (dx + 1) as nat,
                ));
            }
            dx = dx + 1;
        }
        out.push('\n');
        proof {
            assert(out@ =~= rows_text(
                *state,
                numbers,
                x0 as int,
                nx as nat,
                y0 as int,
                (dy + 1) as nat,
            ));
        }
        dy = dy + 1;
    }
    proof {
        assert(out@ == board_text(*state, numbers, b));
    }
    string_from_chars(&out)
}

} // verus!
