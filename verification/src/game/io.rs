//! Conversions between the engine's moves and the record format, timestamps,
//! and the Pentasol text format (one move per line).
use crate::game::line::{dir_delta, Dir, Line};
use crate::game::moves::Move;
use crate::game::rules::{variant_len, variant_name, Variant};
use crate::record::codec::{
    b64_decode, b64_decode_spec, b64_encode, b64_encode_spec, deflate, deflate_spec, has_tag, inflate,
    inflate_spec, starts_with_tag, url_safe_char,
};
use crate::record::model::{
    direction_delta, variant_code, Direction, RecordMove, Variant as RecordVariant,
};
use crate::game::board::Pos;
use crate::game::state::{cross_point, placeable, GameState};
use crate::text::{
    chars_of, dec, find_char, find_spec, is_digit, is_space_spec, lemma_find_after, lemma_int_text_parse,
    lemma_pieces_cons, lemma_pieces_single, lemma_signed_text_parse, lemma_trim_fixed, pieces, push_dec,
    split_pieces, int_text, parse_in_range, parse_int, push_all, push_dec_padded,
    push_int, push_signed, push_str, signed_text, string_from_chars, slice_of, trim, trim_spec, zero_pad,
};
use vstd::prelude::*;

verus! {

/// The record direction of an engine direction.
pub open spec fn dir_to_msr_spec(d: Dir) -> Direction {
    match d {
        Dir::H => Direction::H,
        Dir::V => Direction::V,
        Dir::DP => Direction::DP,
        Dir::DN => Direction::DN,
    }
}

/// The engine direction of a record direction.
pub open spec fn dir_from_msr_spec(d: Direction) -> Dir {
    match d {
        Direction::H => Dir::H,
        Direction::V => Dir::V,
        Direction::DP => Dir::DP,
        Direction::DN => Dir::DN,
    }
}

/// The record direction of an engine direction (same unit step).
pub fn dir_to_msr(d: Dir) -> (r: Direction)
    ensures
        r == dir_to_msr_spec(d),
        direction_delta(r) == dir_delta(d),
{
    match d {
        Dir::H => Direction::H,
        Dir::V => Direction::V,
        Dir::DP => Direction::DP,
        Dir::DN => Direction::DN,
    }
}

/// The engine direction of a record direction (same unit step).
pub fn dir_from_msr(d: Direction) -> (r: Dir)
    ensures
        r == dir_from_msr_spec(d),
        dir_delta(r) == direction_delta(d),
{
    match d {
        Direction::H => Dir::H,
        Direction::V => Dir::V,
        Direction::DP => Dir::DP,
        Direction::DN => Dir::DN,
    }
}

/// The record variant of an engine variant: the one whose code is the
/// variant's name.
pub fn variant_to_msr(v: Variant) -> (r: RecordVariant)
    ensures
        variant_code(r) == variant_name(v),
{
    let code = RecordVariant::from_code(v.name());
    match code {
        Some(r) => r,
        None => {
            proof {
                assert(false);
            }
            RecordVariant::T5
        },
    }
}

/// The engine variant of a record variant: the one whose name is the
/// variant's code.
pub fn variant_from_msr(v: RecordVariant) -> (r: Variant)
    ensures
        variant_name(r) == variant_code(v),
{
    let name = Variant::from_name(v.code());
    match name {
        Some(r) => r,
        None => {
            proof {
                assert(false);
            }
            Variant::T5
        },
    }
}

/// The record move of an engine move: its point, direction and index in the
/// line.
pub fn move_to_record(mv: &Move) -> (r: RecordMove)
    ensures
        r.x == mv.pos.0,
        r.y == mv.pos.1,
        r.dir == dir_to_msr_spec(mv.line.dir),
        r.pos == mv.line_pos,
{
    RecordMove { x: mv.pos.0, y: mv.pos.1, dir: dir_to_msr(mv.line.dir), pos: mv.line_pos }
}

/// The engine move of a record move: the line through `(x, y)` whose point
/// `pos` is `(x, y)`.
pub fn record_to_move(rm: &RecordMove) -> (r: Move)
    requires
        crate::game::line::pos_small((rm.x, rm.y)),
    ensures
        r.pos == (rm.x, rm.y),
        r.line_pos == rm.pos,
        r.line.dir == dir_from_msr_spec(rm.dir),
        crate::game::line::line_point(r.line, rm.pos as int) == (rm.x as int, rm.y as int),
{
    let dir = dir_from_msr(rm.dir);
    let line = Line::from_point((rm.x, rm.y), dir, rm.pos, 0);
    Move::new((rm.x, rm.y), line, rm.pos)
}

/// Hinnant's `civil_from_days`: the proleptic Gregorian `(year, month, day)`
/// that is `days` days after 1970-01-01.
pub open spec fn civil_spec(days: int) -> (int, int, int) {
    let z = days + 719468;
    let era = z / 146097;
    let doe = z - era * 146097;
    let yoe = (doe - doe / 1460 + doe / 36524 - doe / 146096) / 365;
    let y = yoe + era * 400;
    let doy = doe - (365 * yoe + yoe / 4 - yoe / 100);
    let mp = (5 * doy + 2) / 153;
    let d = doy - (153 * mp + 2) / 5 + 1;
    let m = if mp < 10 {
        mp + 3
    } else {
        mp - 9
    };
    (if m <= 2 {
        y + 1
    } else {
        y
    }, m, d)
}

/// Bounds of the intermediate quantities of [`civil_spec`].
proof fn lemma_civil_bounds(doe: int)
    requires
        0 <= doe <= 146096,
    ensures
        0 <= (doe - doe / 1460 + doe / 36524 - doe / 146096) / 365 <= 399,
        ({
            let yoe = (doe - doe / 1460 + doe / 36524 - doe / 146096) / 365;
            let doy = doe - (365 * yoe + yoe / 4 - yoe / 100);
            let mp = (5 * doy + 2) / 153;
            &&& 0 <= doy <= 365
            &&& 0 <= mp <= 11
            &&& 1 <= doy - (153 * mp + 2) / 5 + 1 <= 31
        }),
{
    let yoe = (doe - doe / 1460 + doe / 36524 - doe / 146096) / 365;
    assert(0 <= yoe <= 399) by (nonlinear_arith)
        requires
            0 <= doe <= 146096,
            yoe == (doe - doe / 1460 + doe / 36524 - doe / 146096) / 365,
    ;
    let doy = doe - (365 * yoe + yoe / 4 - yoe / 100);
    assert(0 <= doy <= 365) by (nonlinear_arith)
        requires
            0 <= doe <= 146096,
            yoe == (doe - doe / 1460 + doe / 36524 - doe / 146096) / 365,
            doy == doe - (365 * yoe + yoe / 4 - yoe / 100),
    ;
    let mp = (5 * doy + 2) / 153;
    assert(0 <= mp <= 11) by (nonlinear_arith)
        requires
            0 <= doy <= 365,
            mp == (5 * doy + 2) / 153,
    ;
    assert(1 <= doy - (153 * mp + 2) / 5 + 1 <= 31) by (nonlinear_arith)
        requires
            0 <= doy <= 365,
            mp == (5 * doy + 2) / 153,
    ;
}

/// Convert a count of days since 1970-01-01 into `(year, month, day)`
/// (Howard Hinnant's `civil_from_days`).
pub fn civil_from_days(z: i64) -> (r: (i64, u32, u32))
    requires
        -0x10_0000_0000_0000 <= z <= 0x10_0000_0000_0000,
    ensures
        (r.0 as int, r.1 as int, r.2 as int) == civil_spec(z as int),
        1 <= r.1 <= 12,
        1 <= r.2 <= 31,
        z >= 0 ==> r.0 >= 1970,
{
    let z = z + 719_468;
    let era: i64 = if z >= 0 {
        z / 146_097
    } else {
        -((-z + 146_096) / 146_097)
    };
    proof {
        assert(era == z as int / 146097) by (nonlinear_arith)
            requires
                z >= 0 ==> era == z / 146097,
                z < 0 ==> era == -((-z + 146096) / 146097),
        ;
        assert(0 <= z - era * 146097 <= 146096) by (nonlinear_arith)
            requires
                era == z as int / 146097,
        ;
    }
    let doe = z - era * 146_097;
    proof {
        lemma_civil_bounds(doe as int);
    }
    let yoe = (doe - doe / 1460 + doe / 36_524 - doe / 146_096) / 365;
    let y = yoe + era * 400;
    let doy = doe - (365 * yoe + yoe / 4 - yoe / 100);
    let mp = (5 * doy + 2) / 153;
    let d = (doy - (153 * mp + 2) / 5 + 1) as u32;
    let m = if mp < 10 { mp + 3 } else { mp - 9 } as u32;
    proof {
        if z >= 719468 {
            assert(era >= 0 && (era > 0 || doe >= 719468)) by (nonlinear_arith)
                requires
                    era == z as int / 146097,
                    doe == z - era * 146097,
                    z >= 719468,
            ;
        }
    }
    (if m <= 2 { y + 1 } else { y }, m, d)
}

/// The ISO-8601 UTC text of a Unix timestamp: `YYYY-MM-DDTHH:MM:SSZ`.
pub open spec fn iso8601_spec(secs: nat) -> Seq<char> {
    let days = secs / 86400;
    let tod = secs % 86400;
    let (y, m, d) = civil_spec(days as int);
    zero_pad(dec(y as nat), 4) + seq!['-'] + zero_pad(dec(m as nat), 2) + seq!['-'] + zero_pad(dec(d as nat), 2)
        + seq!['T'] + zero_pad(dec(tod / 3600), 2) + seq![':'] + zero_pad(dec((tod % 3600) / 60), 2) + seq![':']
        + zero_pad(dec(tod % 60), 2) + seq!['Z']
}

/// Format a Unix timestamp (seconds) as an ISO-8601 UTC string, such as
/// `2026-06-13T11:02:31Z`.
#[verifier::rlimit(100)]
#[verifier::spinoff_prover]
pub fn format_iso8601(secs: u64) -> (r: String)
    ensures
        r@ == iso8601_spec(secs as nat),
{
    let days = (secs / 86_400) as i64;
    let tod = secs % 86_400;
    let h = tod / 3600;
    let mi = (tod % 3600) / 60;
    let sec = tod % 60;
    let (y, m, d) = civil_from_days(days);
    let mut out: Vec<char> = Vec::new();
    push_dec_padded(&mut out, y as u64, 4);
    out.push('-');
    push_dec_padded(&mut out, m as u64, 2);
    out.push('-');
    push_dec_padded(&mut out, d as u64, 2);
    out.push('T');
    push_dec_padded(&mut out, h, 2);
    out.push(':');
    push_dec_padded(&mut out, mi, 2);
    out.push(':');
    push_dec_padded(&mut out, sec, 2);
    out.push('Z');
    proof {
        assert(out@ =~= iso8601_spec(secs as nat));
    }
    string_from_chars(&out)
}

/// Column / row offset between engine coordinates and Pentasol's 1-indexed
/// coordinates (the cross occupies engine coordinates from 0).
pub fn pentasol_offset(_variant: Variant) -> (r: (i16, i16))
    ensures
        r == (1i16, 1i16),
{
    (1, 1)
}

/// Half a line, rounded down: the index of a line's centre point.
pub open spec fn pentasol_half(v: Variant) -> i8 {
    if variant_len(v) == 5 {
        2
    } else {
        1
    }
}

/// The Pentasol character of a direction.
pub open spec fn dir_char_spec(d: Dir) -> char {
    match d {
        Dir::H => '-',
        Dir::V => '|',
        Dir::DP => '/',
        Dir::DN => '\\',
    }
}

/// The Pentasol character of a direction.
pub fn dir_char(d: Dir) -> (r: char)
    ensures
        r == dir_char_spec(d),
{
    match d {
        Dir::H => '-',
        Dir::V => '|',
        Dir::DP => '/',
        Dir::DN => '\\',
    }
}

/// One Pentasol move: `(col,row)` in 1-indexed coordinates, the direction
/// character, and the signed distance of the new point from the line's
/// centre.
pub open spec fn pentasol_move_text(mv: Move, ox: i16, oy: i16, half: i8) -> Seq<char> {
    seq!['('] + int_text(mv.pos.0.wrapping_add(ox) as int) + seq![','] + int_text(
        mv.pos.1.wrapping_add(oy) as int,
    ) + seq![')', dir_char_spec(mv.line.dir)] + signed_text((mv.line_pos as i8).wrapping_sub(half) as int)
}

/// Lines joined with `'\n'`.
pub open spec fn join_lines(ls: Seq<Seq<char>>) -> Seq<char>
    decreases ls.len(),
{
    if ls.len() == 0 {
        Seq::empty()
    } else if ls.len() == 1 {
        ls[0]
    } else {
        join_lines(ls.drop_last()) + seq!['\n'] + ls.last()
    }
}

/// The Pentasol text of a sequence of moves, one move per line.
pub open spec fn pentasol_text(h: Seq<Move>, half: i8) -> Seq<char> {
    join_lines(h.map_values(|m: Move| pentasol_move_text(m, 1, 1, half)))
}

/// The Pentasol text of one move.
fn pentasol_move_chars(mv: &Move, ox: i16, oy: i16, half: i8) -> (r: Vec<char>)
    ensures
        r@ == pentasol_move_text(*mv, ox, oy, half),
{
    let mut out: Vec<char> = Vec::new();
    out.push('(');
    push_int(&mut out, mv.pos.0.wrapping_add(ox) as i32);
    out.push(',');
    push_int(&mut out, mv.pos.1.wrapping_add(oy) as i32);
    out.push(')');
    out.push(dir_char(mv.line.dir));
    let centerdist: i8 = (mv.line_pos as i8).wrapping_sub(half);
    push_signed(&mut out, centerdist as i32);
    proof {
        assert(out@ =~= pentasol_move_text(*mv, ox, oy, half));
    }
    out
}

/// Appending one more move to a Pentasol text.
proof fn lemma_text_step(h: Seq<Move>, i: int, half: i8)
    requires
        0 <= i < h.len(),
    ensures
        pentasol_text(h.take(i + 1), half) == if i == 0 {
            pentasol_move_text(h[0], 1, 1, half)
        } else {
            pentasol_text(h.take(i), half) + seq!['\n'] + pentasol_move_text(h[i], 1, 1, half)
        },
{
    let texts = h.take(i + 1).map_values(|m: Move| pentasol_move_text(m, 1, 1, half));
    let prev = h.take(i).map_values(|m: Move| pentasol_move_text(m, 1, 1, half));
    assert(texts.drop_last() =~= prev);
    assert(texts.last() == pentasol_move_text(h[i], 1, 1, half));
}

/// Export the game's moves in Pentasol text format (one move per line).
pub fn export_pentasol(state: &GameState) -> (r: String)
    ensures
        r@ == pentasol_text(state.history@, pentasol_half(state.variant)),
{
    let (ox, oy) = pentasol_offset(state.variant);
    let half: i8 = (state.variant.len() as i8 - 1) / 2;
    let ghost h = state.history@;
    let mut out: Vec<char> = Vec::new();
    let mut i: usize = 0;
    while i < state.history.len()
        invariant
            i <= h.len(),
            h == state.history@,
            half == pentasol_half(state.variant),
            (ox, oy) == (1i16, 1i16),
            out@ == pentasol_text(h.take(i as int), half),
        decreases h.len() - i,
    {
        let line = pentasol_move_chars(&state.history[i], ox, oy, half);
        proof {
            lemma_text_step(h, i as int, half);
        }
        let ghost before = out@;
        if i > 0 {
            out.push('\n');
        }
        push_all(&mut out, &line);
        proof {
            if i == 0 {
                assert(out@ =~= line@);
            } else {
                assert(out@ =~= before + seq!['\n'] + line@);
            }
        }
        i = i + 1;
    }
    proof {
        assert(h.take(h.len() as int) =~= h);
    }
    string_from_chars(&out)
}

/// The direction of a Pentasol direction character.
pub open spec fn dir_of_char(c: char) -> Option<Dir> {
    if c == '-' {
        Some(Dir::H)
    } else if c == '|' {
        Some(Dir::V)
    } else if c == '/' {
        Some(Dir::DP)
    } else if c == '\\' {
        Some(Dir::DN)
    } else {
        None
    }
}

/// The move placing `(x, y)` on the line of direction `dir` whose centre is
/// `cd` points away (index `cd + half` within the line).
pub open spec fn pentasol_move(x: i16, y: i16, dir: Dir, cd: i8, half: i8) -> Move {
    let lp = cd.wrapping_add(half) as u8;
    let d = dir_delta(dir);
    Move {
        pos: (x, y),
        line: Line {
            origin: (x.wrapping_sub((lp as i16 * d.0) as i16), y.wrapping_sub((lp as i16 * d.1) as i16)),
            dir,
        },
        line_pos: lp,
    }
}

/// The coordinates part `col,row` of a Pentasol move.
pub open spec fn parse_coords_spec(coords: Seq<char>) -> Result<(int, int), Seq<char>> {
    match find_spec(coords, ',') {
        None => Err("missing ',' in coordinates"@),
        Some(c) => match parse_in_range(trim_spec(coords.subrange(0, c)), -32768, 32767) {
            None => Err("bad column"@),
            Some(col) => match parse_in_range(trim_spec(coords.subrange(c + 1, coords.len() as int)), -32768, 32767) {
                None => Err("bad row"@),
                Some(row) => Ok((col, row)),
            },
        },
    }
}

/// The part after the coordinates, `dir±centerdist`, of a move at `(x, y)`.
pub open spec fn parse_tail_spec(rest: Seq<char>, x: i16, y: i16, half: i8) -> Result<Move, Seq<char>> {
    if rest.len() == 0 {
        Err("missing direction"@)
    } else {
        match dir_of_char(rest[0]) {
            None => Err("unknown direction char: "@ + seq![rest[0]]),
            Some(dir) => {
                let cds = rest.subrange(1, rest.len() as int);
                let cd = if cds.len() == 0 {
                    Some(0int)
                } else {
                    parse_in_range(cds, -128, 127)
                };
                match cd {
                    None => Err("bad centerdist"@),
                    Some(v) => Ok(pentasol_move(x, y, dir, v as i8, half)),
                }
            },
        }
    }
}

/// The Pentasol move syntax `(col,row)dir±centerdist`, with its error
/// messages.
pub open spec fn parse_move_spec(s: Seq<char>, ox: i16, oy: i16, half: i8) -> Result<Move, Seq<char>> {
    let t = trim_spec(s);
    if t.len() == 0 || t[0] != '(' {
        Err("expected '(' at start, got: "@ + t)
    } else {
        match find_spec(t, ')') {
            None => Err("missing ')'"@),
            Some(close) => match parse_coords_spec(t.subrange(1, close)) {
                Err(e) => Err(e),
                Ok((col, row)) => parse_tail_spec(
                    t.subrange(close + 1, t.len() as int),
                    (col as i16).wrapping_sub(ox),
                    (row as i16).wrapping_sub(oy),
                    half,
                ),
            },
        }
    }
}

/// A string holding `lit` followed by `tail`.
fn message(lit: &str, tail: &[char]) -> (r: String)
    ensures
        r@ == lit@ + tail@,
{
    let mut v: Vec<char> = Vec::new();
    push_str(&mut v, lit);
    push_all(&mut v, tail);
    string_from_chars(&v)
}

/// Parse the coordinates `col,row` of a Pentasol move.
fn parse_coords(coords: &[char]) -> (r: Result<(i16, i16), String>)
    ensures
        match r {
            Ok(p) => parse_coords_spec(coords@) == Ok::<(int, int), Seq<char>>((p.0 as int, p.1 as int)),
            Err(e) => parse_coords_spec(coords@) == Err::<(int, int), Seq<char>>(e@),
        },
{
    let comma = match find_char(coords, ',') {
        Some(c) => c,
        None => {
            return Err("missing ',' in coordinates".to_owned());
        },
    };
    proof {
        crate::text::lemma_find(coords@, ',');
        assert(comma < coords.len());
    }
    let col_s = trim(&slice_of(coords, 0, comma));
    let col = match parse_int(&col_s, -32768, 32767) {
        Some(v) => v as i16,
        None => {
            return Err("bad column".to_owned());
        },
    };
    let row_s = trim(&slice_of(coords, comma + 1, coords.len()));
    let row = match parse_int(&row_s, -32768, 32767) {
        Some(v) => v as i16,
        None => {
            return Err("bad row".to_owned());
        },
    };
    Ok((col, row))
}

/// Parse the part after the coordinates, `dir±centerdist`.
fn parse_tail(rest: &[char], x: i16, y: i16, half: i8) -> (r: Result<Move, String>)
    ensures
        match r {
            Ok(m) => parse_tail_spec(rest@, x, y, half) == Ok::<Move, Seq<char>>(m),
            Err(e) => parse_tail_spec(rest@, x, y, half) == Err::<Move, Seq<char>>(e@),
        },
{
    if rest.len() == 0 {
        return Err("missing direction".to_owned());
    }
    let c0 = rest[0];
    let dir = if c0 == '-' {
        Dir::H
    } else if c0 == '|' {
        Dir::V
    } else if c0 == '/' {
        Dir::DP
    } else if c0 == '\\' {
        Dir::DN
    } else {
        let one = [c0];
        proof {
            assert(one@ =~= seq![rest@[0]]);
        }
        return Err(message("unknown direction char: ", &one));
    };
    let cds = slice_of(rest, 1, rest.len());
    let centerdist: i8 = if cds.len() == 0 {
        0
    } else {
        match parse_int(&cds, -128, 127) {
            Some(v) => v as i8,
            None => {
                return Err("bad centerdist".to_owned());
            },
        }
    };
    let line_pos = #[verifier::truncate] (centerdist.wrapping_add(half) as u8);
    let (dx, dy) = dir.delta();
    proof {
        crate::game::line::lemma_step_bound(line_pos as int, dx as int);
        crate::game::line::lemma_step_bound(line_pos as int, dy as int);
    }
    let line = Line::new((x.wrapping_sub(line_pos as i16 * dx), y.wrapping_sub(line_pos as i16 * dy)), dir);
    Ok(Move::new((x, y), line, line_pos))
}

/// Parse one Pentasol move, `(col,row)dir±centerdist` such as `(9,7)-+2` or
/// `(12,8)|0`.
fn parse_pentasol_move(s: &[char], ox: i16, oy: i16, half: i8, _line_len: u8) -> (r: Result<Move, String>)
    ensures
        match r {
            Ok(m) => parse_move_spec(s@, ox, oy, half) == Ok::<Move, Seq<char>>(m),
            Err(e) => parse_move_spec(s@, ox, oy, half) == Err::<Move, Seq<char>>(e@),
        },
{
    let t = trim(s);
    if t.len() == 0 || t[0] != '(' {
        return Err(message("expected '(' at start, got: ", &t));
    }
    let close = match find_char(&t, ')') {
        Some(c) => c,
        None => {
            return Err("missing ')'".to_owned());
        },
    };
    proof {
        crate::text::lemma_find(t@, ')');
    }
    let coords = slice_of(&t, 1, close);
    let rest = slice_of(&t, close + 1, t.len());
    match parse_coords(&coords) {
        Err(e) => Err(e),
        Ok((col, row)) => parse_tail(&rest, col.wrapping_sub(ox), row.wrapping_sub(oy), half),
    }
}

/// The moves of the pieces from `i` on, or the first error with the index
/// of its piece. Blank pieces and `#` comments are skipped.
pub open spec fn import_from(ps: Seq<Seq<char>>, half: i8, i: int) -> Result<Seq<Move>, (int, Seq<char>)>
    decreases ps.len() - i,
{
    if i >= ps.len() || i < 0 {
        Ok(Seq::empty())
    } else {
        let t = trim_spec(ps[i]);
        if t.len() == 0 || t[0] == '#' {
            import_from(ps, half, i + 1)
        } else {
            match parse_move_spec(t, 1, 1, half) {
                Err(e) => Err((i, e)),
                Ok(m) => match import_from(ps, half, i + 1) {
                    Ok(ms) => Ok(seq![m] + ms),
                    Err(x) => Err(x),
                },
            }
        }
    }
}

/// The moves that `GameState::apply` plays (the others it refuses).
pub open spec fn placeable_moves(ms: Seq<Move>) -> Seq<Move>
    decreases ms.len(),
{
    if ms.len() == 0 {
        ms
    } else {
        let r = placeable_moves(ms.drop_last());
        if placeable(ms.last()) {
            r.push(ms.last())
        } else {
            r
        }
    }
}

/// `st` is a new game of `variant` after applying `ms` in order.
pub open spec fn replayed(st: &GameState, variant: Variant, ms: Seq<Move>) -> bool {
    &&& st.wf()
    &&& st.variant == variant
    &&& st.history@ == placeable_moves(ms)
    &&& st.redo_stack@.len() == 0
    &&& forall|p: Pos|
        #[trigger] st.board.occupied(p) == (cross_point(variant, p) || exists|i: int|
            0 <= i < st.history@.len() && st.history@[i].pos == p)
    &&& forall|l: Line|
        #[trigger] st.line_index.has(l) == exists|i: int| 0 <= i < st.history@.len() && st.history@[i].line == l
}

/// The message of an error on piece `i`: `line {i+1}: {e}`.
pub open spec fn line_error(i: int, e: Seq<char>) -> Seq<char> {
    "line "@ + dec((i + 1) as nat) + ": "@ + e
}

/// Import a Pentasol-format text and replay its moves on a new game of
/// `variant` (the format does not record the variant).
pub fn import_pentasol(text: &str, variant: Variant) -> (r: Result<GameState, String>)
    ensures
        match import_from(pieces(text@), pentasol_half(variant), 0) {
            Ok(ms) => r is Ok && replayed(&r->Ok_0, variant, ms),
            Err((i, e)) => r is Err && r->Err_0@ == line_error(i, e),
        },
{
    let (ox, oy) = pentasol_offset(variant);
    let half: i8 = (variant.len() as i8 - 1) / 2;
    let mut state = GameState::new(variant);
    let cs = chars_of(text);
    let ps = split_pieces(&cs);
    let ghost gps = pieces(text@);
    let ghost mut acc: Seq<Move> = Seq::empty();
    proof {
        assert forall|p: Pos| #[trigger] state.board.occupied(p) == (cross_point(variant, p) || exists|i: int|
            0 <= i < state.history@.len() && state.history@[i].pos == p) by {}
        assert(placeable_moves(acc) =~= Seq::<Move>::empty());
        assert forall|l: Line| #[trigger] state.line_index.has(l) == exists|k: int|
            0 <= k < state.history@.len() && state.history@[k].line == l by {}
        assert(state.history@ =~= placeable_moves(acc));
    }
    let mut i: usize = 0;
    while i < ps.len()
        invariant
            i <= ps@.len(),
            ps@.len() == gps.len(),
            forall|k: int| 0 <= k < ps@.len() ==> #[trigger] ps@[k]@ == gps[k],
            gps == pieces(text@),
            half == pentasol_half(variant),
            (ox, oy) == (1i16, 1i16),
            replayed(&state, variant, acc),
            match import_from(gps, half, i as int) {
                Ok(rest) => import_from(gps, half, 0) == Ok::<Seq<Move>, (int, Seq<char>)>(acc + rest),
                Err(x) => import_from(gps, half, 0) == Err::<Seq<Move>, (int, Seq<char>)>(x),
            },
        decreases ps@.len() - i,
    {
        let line = trim(&ps[i]);
        proof {
            assert(line@ == trim_spec(gps[i as int]));
        }
        if line.len() == 0 || line[0] == '#' {
            proof {
                assert(import_from(gps, half, i as int) == import_from(gps, half, i + 1));
            }
            i = i + 1;
            continue;
        }
        match parse_pentasol_move(&line, ox, oy, half, variant.len()) {
            Err(e) => {
                let mut msg: Vec<char> = Vec::new();
                push_str(&mut msg, "line ");
                push_dec(&mut msg, (i as u64) + 1);
                push_str(&mut msg, ": ");
                let ecs = chars_of(e.as_str());
                push_all(&mut msg, &ecs);
                proof {
                    assert(msg@ =~= line_error(i as int, e@));
                    assert(import_from(gps, half, i as int) == Err::<Seq<Move>, (int, Seq<char>)>((i as int, e@)));
                }
                return Err(string_from_chars(&msg));
            },
            Ok(mv) => {
                let ghost before = state;
                let applied = state.apply(mv);
                proof {
                    let new_acc = acc.push(mv);
                    assert(new_acc.drop_last() =~= acc);
                    assert(placeable_moves(new_acc) == if placeable(mv) {
                        placeable_moves(acc).push(mv)
                    } else {
                        placeable_moves(acc)
                    });
                    if applied {
                        assert forall|p: Pos| #[trigger] state.board.occupied(p) == (cross_point(variant, p) || exists|k: int|
                            0 <= k < state.history@.len() && state.history@[k].pos == p) by {
                            assert(state@.occupied.contains(p) == state.board.occupied(p));
                            assert(before@.occupied.contains(p) == before.board.occupied(p));
                            if exists|k: int| 0 <= k < before.history@.len() && before.history@[k].pos == p {
                                let k = choose|k: int| 0 <= k < before.history@.len() && before.history@[k].pos == p;
                                assert(state.history@[k] == before.history@[k]);
                            }
                            if p == mv.pos {
                                assert(state.history@[before.history@.len() as int] == mv);
                            }
                            if exists|k: int| 0 <= k < state.history@.len() && state.history@[k].pos == p {
                                let k = choose|k: int| 0 <= k < state.history@.len() && state.history@[k].pos == p;
                                if k < before.history@.len() {
                                    assert(before.history@[k] == state.history@[k]);
                                }
                            }
                        }
                        assert forall|l: Line| #[trigger] state.line_index.has(l) == exists|k: int|
                            0 <= k < state.history@.len() && state.history@[k].line == l by {
                            assert(state@.lines.contains(l) == state.line_index.has(l));
                            assert(before@.lines.contains(l) == before.line_index.has(l));
                            if exists|k: int| 0 <= k < before.history@.len() && before.history@[k].line == l {
                                let k = choose|k: int| 0 <= k < before.history@.len() && before.history@[k].line == l;
                                assert(state.history@[k] == before.history@[k]);
                            }
                            if l == mv.line {
                                assert(state.history@[before.history@.len() as int] == mv);
                            }
                            if exists|k: int| 0 <= k < state.history@.len() && state.history@[k].line == l {
                                let k = choose|k: int| 0 <= k < state.history@.len() && state.history@[k].line == l;
                                if k < before.history@.len() {
                                    assert(before.history@[k] == state.history@[k]);
                                }
                            }
                        }
                    } else {
                        assert forall|p: Pos| #[trigger] state.board.occupied(p) == before.board.occupied(p) by {
                            assert(state@.occupied.contains(p) == state.board.occupied(p));
                            assert(before@.occupied.contains(p) == before.board.occupied(p));
                        }
                        assert forall|l: Line| #[trigger] state.line_index.has(l) == before.line_index.has(l) by {
                            assert(state@.lines.contains(l) == state.line_index.has(l));
                            assert(before@.lines.contains(l) == before.line_index.has(l));
                        }
                    }
                    match import_from(gps, half, i + 1) {
                        Ok(rest) => {
                            assert(import_from(gps, half, i as int) == Ok::<Seq<Move>, (int, Seq<char>)>(seq![mv] + rest));
                            assert(acc + (seq![mv] + rest) =~= new_acc + rest);
                        },
                        Err(x) => {
                            assert(import_from(gps, half, i as int) == Err::<Seq<Move>, (int, Seq<char>)>(x));
                        },
                    }
                    acc = new_acc;
                }
            },
        }
        i = i + 1;
    }
    proof {
        assert(import_from(gps, half, i as int) == Ok::<Seq<Move>, (int, Seq<char>)>(Seq::empty()));
        assert(acc + Seq::<Move>::empty() =~= acc);
    }
    Ok(state)
}

/// A move as the game records it: its point is the point of its line at its
/// index, that index lies in the line, and the move was placed.
pub open spec fn recorded_move(m: Move, v: Variant) -> bool {
    &&& m.line_pos < variant_len(v)
    &&& crate::game::line::pos_int(m.pos) == crate::game::line::line_point(m.line, m.line_pos as int)
    &&& placeable(m)
}

/// The coordinates text of two integers parses back to them.
proof fn lemma_coords_parse(xv: int, yv: int)
    requires
        -32768 <= xv <= 32767,
        -32768 <= yv <= 32767,
    ensures
        parse_coords_spec(int_text(xv) + seq![','] + int_text(yv)) == Ok::<(int, int), Seq<char>>((xv, yv)),
{
    let a = int_text(xv);
    let b = int_text(yv);
    lemma_int_text_parse(xv);
    lemma_int_text_parse(yv);
    let coords = a + seq![','] + b;
    assert forall|i: int| 0 <= i < a.len() implies a[i] != ',' by {}
    lemma_find_after(a, ',', b);
    assert(coords.subrange(0, a.len() as int) =~= a);
    assert(coords.subrange(a.len() as int + 1, coords.len() as int) =~= b);
    lemma_trim_fixed(a);
    lemma_trim_fixed(b);
}

/// The direction and centre-distance text of a recorded move parses back to
/// the move.
proof fn lemma_tail_parse(m: Move, v: Variant)
    requires
        recorded_move(m, v),
    ensures
        parse_tail_spec(
            seq![dir_char_spec(m.line.dir)] + signed_text((m.line_pos as i8).wrapping_sub(pentasol_half(v)) as int),
            m.pos.0,
            m.pos.1,
            pentasol_half(v),
        ) == Ok::<Move, Seq<char>>(m),
{
    let half = pentasol_half(v);
    let cd = (m.line_pos as i8).wrapping_sub(half);
    let st = signed_text(cd as int);
    lemma_signed_text_parse(cd as int);
    let q = seq![dir_char_spec(m.line.dir)] + st;
    assert(q.subrange(1, q.len() as int) =~= st);
    let d = dir_delta(m.line.dir);
    assert(m.line.origin.0 == m.pos.0 - m.line_pos * d.0);
    assert(m.line.origin.1 == m.pos.1 - m.line_pos * d.1);
    assert(pentasol_move(m.pos.0, m.pos.1, m.line.dir, cd, half) == m);
}

/// The Pentasol text of a recorded move is one trimmed line that parses back
/// to the move.
#[verifier::spinoff_prover]
#[verifier::rlimit(50)]
proof fn lemma_move_text_parse(m: Move, v: Variant)
    requires
        recorded_move(m, v),
    ensures
        ({
            let t = pentasol_move_text(m, 1, 1, pentasol_half(v));
            &&& t.len() > 0
            &&& t[0] == '('
            &&& forall|i: int| 0 <= i < t.len() ==> t[i] != '\n'
            &&& trim_spec(t) == t
            &&& parse_move_spec(t, 1, 1, pentasol_half(v)) == Ok::<Move, Seq<char>>(m)
        }),
{
    let half = pentasol_half(v);
    let x = m.pos.0;
    let y = m.pos.1;
    let a = int_text(x.wrapping_add(1i16) as int);
    let b = int_text(y.wrapping_add(1i16) as int);
    let cd = (m.line_pos as i8).wrapping_sub(half);
    let st = signed_text(cd as int);
    let dc = dir_char_spec(m.line.dir);
    lemma_int_text_parse(x.wrapping_add(1i16) as int);
    lemma_int_text_parse(y.wrapping_add(1i16) as int);
    lemma_signed_text_parse(cd as int);
    let t = pentasol_move_text(m, 1, 1, half);
    let p = seq!['('] + a + seq![','] + b;
    let q = seq![dc] + st;
    assert(t =~= p + seq![')'] + q);
    assert forall|i: int| 0 <= i < p.len() implies p[i] != ')' by {
        if 1 <= i < 1 + a.len() {
            assert(p[i] == a[i - 1]);
        } else if 1 + a.len() < i {
            assert(p[i] == b[i - 2 - a.len()]);
        }
    }
    assert forall|i: int| 0 <= i < t.len() implies t[i] != '\n' by {
        if 1 <= i < 1 + a.len() {
            assert(t[i] == a[i - 1]);
        } else if 1 + a.len() < i < p.len() {
            assert(t[i] == b[i - 2 - a.len()]);
        } else if p.len() + 1 < i {
            assert(t[i] == st[i - p.len() - 2]);
        }
    }
    assert(t.last() == st.last());
    lemma_trim_fixed(t);
    lemma_find_after(p, ')', q);
    assert(t.subrange(1, p.len() as int) =~= a + seq![','] + b);
    assert(t.subrange(p.len() as int + 1, t.len() as int) =~= q);
    lemma_coords_parse(x.wrapping_add(1i16) as int, y.wrapping_add(1i16) as int);
    lemma_tail_parse(m, v);
}

/// Lines joined after a first line.
proof fn lemma_join_cons(x: Seq<char>, rest: Seq<Seq<char>>)
    requires
        rest.len() > 0,
    ensures
        join_lines(seq![x] + rest) == x + seq!['\n'] + join_lines(rest),
    decreases rest.len(),
{
    let ls = seq![x] + rest;
    assert(join_lines(ls) == join_lines(ls.drop_last()) + seq!['\n'] + ls.last());
    assert(ls.last() == rest.last());
    if rest.len() == 1 {
        assert(ls.drop_last() =~= seq![x]);
        assert(join_lines(seq![x]) == x);
    } else {
        lemma_join_cons(x, rest.drop_last());
        assert(ls.drop_last() =~= seq![x] + rest.drop_last());
        assert(join_lines(rest) == join_lines(rest.drop_last()) + seq!['\n'] + rest.last());
        assert(x + seq!['\n'] + join_lines(rest.drop_last()) + seq!['\n'] + rest.last() =~= x + seq!['\n'] + (
        join_lines(rest.drop_last()) + seq!['\n'] + rest.last()));
    }
}

/// Splitting joined newline-free lines gives the lines back.
proof fn lemma_pieces_join(ls: Seq<Seq<char>>)
    requires
        ls.len() > 0,
        forall|k: int, i: int| 0 <= k < ls.len() && 0 <= i < ls[k].len() ==> #[trigger] ls[k][i] != '\n',
    ensures
        pieces(join_lines(ls)) == ls,
    decreases ls.len(),
{
    if ls.len() == 1 {
        assert forall|i: int| 0 <= i < ls[0].len() implies ls[0][i] != '\n' by {
            assert(ls[0][i] != '\n');
        }
        lemma_pieces_single(ls[0]);
    } else {
        let rest = ls.drop_first();
        assert(ls =~= seq![ls[0]] + rest);
        lemma_join_cons(ls[0], rest);
        assert forall|k: int, i: int| 0 <= k < rest.len() && 0 <= i < rest[k].len() implies #[trigger] rest[k][i] != '\n' by {
            assert(rest[k] == ls[k + 1]);
            assert(ls[k + 1][i] != '\n');
        }
        lemma_pieces_join(rest);
        assert forall|i: int| 0 <= i < ls[0].len() implies ls[0][i] != '\n' by {
            assert(ls[0][i] != '\n');
        }
        lemma_pieces_cons(ls[0], join_lines(rest));
    }
}

/// Importing the texts of recorded moves from piece `i` on gives those moves.
proof fn lemma_import_texts(h: Seq<Move>, v: Variant, i: int)
    requires
        0 <= i <= h.len(),
        forall|k: int| 0 <= k < h.len() ==> recorded_move(#[trigger] h[k], v),
    ensures
        import_from(
            h.map_values(|m: Move| pentasol_move_text(m, 1, 1, pentasol_half(v))),
            pentasol_half(v),
            i,
        ) == Ok::<Seq<Move>, (int, Seq<char>)>(h.subrange(i, h.len() as int)),
    decreases h.len() - i,
{
    let ps = h.map_values(|m: Move| pentasol_move_text(m, 1, 1, pentasol_half(v)));
    if i < h.len() {
        lemma_import_texts(h, v, i + 1);
        lemma_move_text_parse(h[i], v);
        assert(h.subrange(i, h.len() as int) =~= seq![h[i]] + h.subrange(i + 1, h.len() as int));
    } else {
        assert(h.subrange(i, h.len() as int) =~= Seq::<Move>::empty());
    }
}

/// Moves that were all placed are all played again.
proof fn lemma_placeable_all(h: Seq<Move>)
    requires
        forall|k: int| 0 <= k < h.len() ==> placeable(#[trigger] h[k]),
    ensures
        placeable_moves(h) == h,
    decreases h.len(),
{
    if h.len() > 0 {
        lemma_placeable_all(h.drop_last());
        assert(placeable(h[h.len() - 1]));
        assert(h.drop_last().push(h.last()) =~= h);
    }
}

/// The Pentasol character of a direction is read off the line's step: '-'
/// for a step `(1, 0)`, '|' for `(0, 1)`, '/' for `(1, -1)` (rising to the
/// right, rows counted downwards) and '\\' for `(1, 1)`.
pub proof fn lemma_dir_char_is_the_step(d: Dir)
    ensures
        dir_delta(d) == (1i16, 0i16) <==> dir_char_spec(d) == '-',
        dir_delta(d) == (0i16, 1i16) <==> dir_char_spec(d) == '|',
        dir_delta(d) == (1i16, -1i16) <==> dir_char_spec(d) == '/',
        dir_delta(d) == (1i16, 1i16) <==> dir_char_spec(d) == '\\',
{
}

/// The text of a move written by `export_pentasol` carries, right after the
/// closing parenthesis of its coordinates, the character of its line's step:
/// '-' for `(1, 0)`, '|' for `(0, 1)`, '/' for `(1, -1)`, '\\' for `(1, 1)`.
pub proof fn lemma_move_text_direction(mv: Move, ox: i16, oy: i16, half: i8)
    ensures
        ({
            let t = pentasol_move_text(mv, ox, oy, half);
            let at = (int_text(mv.pos.0.wrapping_add(ox) as int).len() + int_text(
                mv.pos.1.wrapping_add(oy) as int,
            ).len() + 2) as int;
            let c = t[at + 1];
            &&& t[at] == ')'
            &&& dir_delta(mv.line.dir) == (1i16, 0i16) <==> c == '-'
            &&& dir_delta(mv.line.dir) == (0i16, 1i16) <==> c == '|'
            &&& dir_delta(mv.line.dir) == (1i16, -1i16) <==> c == '/'
            &&& dir_delta(mv.line.dir) == (1i16, 1i16) <==> c == '\\'
        }),
{
    let xs = int_text(mv.pos.0.wrapping_add(ox) as int);
    let ys = int_text(mv.pos.1.wrapping_add(oy) as int);
    let at = (xs.len() + ys.len() + 2) as int;
    let t = pentasol_move_text(mv, ox, oy, half);
    let head = seq!['('] + xs + seq![','] + ys;
    assert(head.len() == at);
    assert(t == head + seq![')', dir_char_spec(mv.line.dir)] + signed_text(
        (mv.line_pos as i8).wrapping_sub(half) as int,
    ));
    assert(t[at] == ')');
    assert(t[at + 1] == dir_char_spec(mv.line.dir));
    lemma_dir_char_is_the_step(mv.line.dir);
}

/// Reading a Pentasol move, the character right after the closing
/// parenthesis of the coordinates gives the step of the move's line: '-'
/// gives `(1, 0)`, '|' gives `(0, 1)`, '/' gives `(1, -1)` and '\\' gives
/// `(1, 1)`.
pub proof fn lemma_read_direction_is_the_step(s: Seq<char>, ox: i16, oy: i16, half: i8)
    requires
        parse_move_spec(s, ox, oy, half) is Ok,
    ensures
        ({
            let t = trim_spec(s);
            let m = parse_move_spec(s, ox, oy, half)->Ok_0;
            let close = find_spec(t, ')')->0;
            let c = t[close + 1];
            &&& find_spec(t, ')') is Some
            &&& close + 1 < t.len()
            &&& dir_delta(m.line.dir) == (1i16, 0i16) <==> c == '-'
            &&& dir_delta(m.line.dir) == (0i16, 1i16) <==> c == '|'
            &&& dir_delta(m.line.dir) == (1i16, -1i16) <==> c == '/'
            &&& dir_delta(m.line.dir) == (1i16, 1i16) <==> c == '\\'
        }),
{
    let t = trim_spec(s);
    crate::text::lemma_find(t, ')');
    let close = find_spec(t, ')')->0;
    let rest = t.subrange(close + 1, t.len() as int);
    assert(rest.len() > 0);
    assert(rest[0] == t[close + 1]);
}

/// Exporting moves to Pentasol text and importing the text back gives the same
/// moves, all played: `import_pentasol(export_pentasol(s))` replays `s`'s
/// history, for every history of recorded moves.
pub proof fn lemma_pentasol_roundtrip(h: Seq<Move>, v: Variant)
    requires
        forall|k: int| 0 <= k < h.len() ==> recorded_move(#[trigger] h[k], v),
    ensures
        import_from(pieces(pentasol_text(h, pentasol_half(v))), pentasol_half(v), 0) == Ok::<Seq<Move>, (int, Seq<char>)>(h),
        placeable_moves(h) == h,
{
    let half = pentasol_half(v);
    let ps = h.map_values(|m: Move| pentasol_move_text(m, 1, 1, half));
    lemma_placeable_all(h);
    lemma_import_texts(h, v, 0);
    assert(h.subrange(0, h.len() as int) =~= h);
    if h.len() == 0 {
        assert(pentasol_text(h, half) =~= Seq::<char>::empty());
        lemma_pieces_single(Seq::<char>::empty());
        assert(trim_spec(Seq::<char>::empty()) =~= Seq::<char>::empty());
        assert(import_from(seq![Seq::<char>::empty()], half, 1) == Ok::<Seq<Move>, (int, Seq<char>)>(Seq::empty()));
    } else {
        assert forall|k: int, i: int| 0 <= k < ps.len() && 0 <= i < ps[k].len() implies #[trigger] ps[k][i] != '\n' by {
            lemma_move_text_parse(h[k], v);
        }
        lemma_pieces_join(ps);
    }
}

/// Tag of the search-checkpoint format (`MSC1:` + Base64 of DEFLATEd JSON).
pub const CHECKPOINT_PREFIX: &'static str = "MSC1:";

/// Algorithm tag of checkpoints written before the tag existed.
pub fn default_algo_tag() -> (r: String)
    ensures
        r@ == "systematic"@,
{
    "systematic".to_owned()
}

/// The JSON bytes inside a checkpoint text, or why there are none.
pub open spec fn checkpoint_payload_spec(text: Seq<char>) -> Result<Seq<u8>, Seq<char>> {
    let t = trim_spec(text);
    if !has_tag(t, CHECKPOINT_PREFIX@) {
        Err("not a search checkpoint (missing MSC1: tag)"@)
    } else {
        match b64_decode_spec(trim_spec(t.subrange(CHECKPOINT_PREFIX@.len() as int, t.len() as int))) {
            Err(e) => Err("base64: "@ + e),
            Ok(c) => match inflate_spec(c) {
                Err(e) => Err("inflate: "@ + e),
                Ok(j) => Ok(j),
            },
        }
    }
}

/// Seal checkpoint JSON in the compact `MSC1:` form (DEFLATE level 6, which
/// keeps saves of a large frontier fast, then URL-safe Base64);
/// [`checkpoint_payload`] opens it back to the same bytes.
pub fn checkpoint_envelope(json: &[u8]) -> (r: String)
    ensures
        r@ == CHECKPOINT_PREFIX@ + b64_encode_spec(deflate_spec(json@, 6)),
        checkpoint_payload_spec(r@) == Ok::<Seq<u8>, Seq<char>>(json@),
{
    let compressed = deflate(json, 6);
    let b64 = b64_encode(&compressed);
    let mut out: Vec<char> = Vec::new();
    push_str(&mut out, CHECKPOINT_PREFIX);
    let bcs = chars_of(b64.as_str());
    push_all(&mut out, &bcs);
    proof {
        reveal_strlit("MSC1:");
        let t = out@;
        let b = b64@;
        assert(t =~= CHECKPOINT_PREFIX@ + b);
        if b.len() > 0 {
            assert(url_safe_char(b[b.len() - 1]));
            assert(url_safe_char(b[0]));
            assert(t.last() == b.last());
        }
        assert(!is_space_spec(t.last()));
        lemma_trim_fixed(t);
        assert(t.subrange(0, 5) =~= CHECKPOINT_PREFIX@);
        assert(t.subrange(5, t.len() as int) =~= b);
        if b.len() > 0 {
            lemma_trim_fixed(b);
        }
    }
    string_from_chars(&out)
}

/// Open a checkpoint text: strip the `MSC1:` tag (surrounding whitespace
/// ignored), Base64-decode and inflate to the checkpoint's JSON bytes.
pub fn checkpoint_payload(text: &str) -> (r: Result<Vec<u8>, String>)
    ensures
        match r {
            Ok(v) => checkpoint_payload_spec(text@) == Ok::<Seq<u8>, Seq<char>>(v@),
            Err(e) => checkpoint_payload_spec(text@) == Err::<Seq<u8>, Seq<char>>(e@),
        },
{
    let cs = chars_of(text);
    let t = trim(&cs);
    let tag = chars_of(CHECKPOINT_PREFIX);
    if !starts_with_tag(&t, &tag) {
        return Err("not a search checkpoint (missing MSC1: tag)".to_owned());
    }
    let body = trim(&slice_of(&t, tag.len(), t.len()));
    let body_s = string_from_chars(&body);
    match b64_decode(body_s.as_str()) {
        Err(e) => {
            let ecs = chars_of(e.as_str());
            Err(message("base64: ", &ecs))
        },
        Ok(c) => match inflate(&c) {
            Err(e) => {
                let ecs = chars_of(e.as_str());
                Err(message("inflate: ", &ecs))
            },
            Ok(j) => Ok(j),
        },
    }
}

} // verus!
