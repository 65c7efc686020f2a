use morpion_solitaire::game::line::{Dir, Line};
use morpion_solitaire::game::moves::{
    append_dir, legal_moves, legal_moves_dir_scalar_append, legal_moves_into,
    legal_moves_scalar_into, Move,
};
use rand::rngs::StdRng;
use rand::{RngExt, SeedableRng};
use morpion_solitaire::game::rules::Variant;
use morpion_solitaire::game::state::GameState;
use std::collections::HashSet;

fn count_moves(variant: Variant) -> usize {
    legal_moves(&GameState::new(variant)).len()
}

#[test]
fn initial_cross_cell_counts() {
    assert_eq!(GameState::new(Variant::T5).board.len(), 36);
    assert_eq!(GameState::new(Variant::D5).board.len(), 36);
    // 4T/4D: a centred D4-symmetric Greek cross on a 0..=6 grid.
    assert_eq!(GameState::new(Variant::T4).board.len(), 24);
    assert_eq!(GameState::new(Variant::D4).board.len(), 24);
}

/// The initial cross must be symmetric under the full dihedral group D4 (both
/// mirrors and the diagonal transpose) for every variant.
#[test]
fn moves_initial_cross_is_d4_symmetric() {
    for v in [Variant::T5, Variant::D5, Variant::T4, Variant::D4] {
        let st = GameState::new(v);
        let cells: HashSet<(i16, i16)> = st.board.cells.iter().copied().collect();
        let (minx, miny, maxx, maxy) = st.bounding_box().unwrap();
        assert_eq!(maxx - minx, maxy - miny, "{v:?}: cross bounding box must be square");
        for &(x, y) in &cells {
            assert!(cells.contains(&(minx + maxx - x, y)), "{v:?}: no h-mirror");
            assert!(cells.contains(&(x, miny + maxy - y)), "{v:?}: no v-mirror");
            assert!(
                cells.contains(&(minx + (y - miny), miny + (x - minx))),
                "{v:?}: no diagonal symmetry"
            );
        }
    }
}

#[test]
fn initial_positions_have_moves() {
    assert!(count_moves(Variant::T5) > 0);
    assert!(count_moves(Variant::D5) > 0);
    assert!(count_moves(Variant::T4) > 0);
    assert!(count_moves(Variant::D4) > 0);
}

// 5D is strictly more restrictive than 5T from the same cross.
#[test]
fn d5_leq_t5_move_count() {
    assert!(count_moves(Variant::D5) <= count_moves(Variant::T5));
}

#[test]
fn apply_and_undo_roundtrip() {
    let mut state = GameState::new(Variant::T5);
    let moves = legal_moves(&state);
    assert!(!moves.is_empty());

    let mv = moves[0];
    let cells_before = state.board.len();
    let score_before = state.score();

    state.apply(mv);
    assert_eq!(state.score(), score_before + 1);
    assert_eq!(state.board.len(), cells_before + 1);
    assert!(state.board.contains(mv.pos));
    assert!(state.line_index.contains(&mv.line));

    let undone = state.undo().unwrap();
    assert_eq!(undone, mv);
    assert_eq!(state.score(), score_before);
    assert_eq!(state.board.len(), cells_before);
    assert!(!state.board.contains(mv.pos));
    assert!(!state.line_index.contains(&mv.line));
}

#[test]
fn redo_after_undo() {
    let mut state = GameState::new(Variant::T5);
    let mv = legal_moves(&state)[0];
    state.apply(mv);
    state.undo();
    assert!(state.can_redo());
    let redone = state.redo().unwrap();
    assert_eq!(redone, mv);
    assert!(state.board.contains(mv.pos));
}

#[test]
fn applied_move_not_regenerated() {
    let mut state = GameState::new(Variant::T5);
    let mv = legal_moves(&state)[0];
    state.apply(mv);
    // The same line cannot be drawn again
    let new_moves = legal_moves(&state);
    assert!(!new_moves.iter().any(|m| m.line == mv.line));
}

// Quick smoke test: play 5 moves without crashing.
#[test]
fn play_five_moves_5t() {
    let mut state = GameState::new(Variant::T5);
    for _ in 0..5 {
        let moves = legal_moves(&state);
        if moves.is_empty() {
            break;
        }
        state.apply(moves[0]);
    }
    assert!(state.score() <= 5);
}

#[test]
fn first_move_counts_of_each_variant() {
    // The 5T cross has 28 first moves; 5D 20. Generated without duplicates.
    for v in [Variant::T5, Variant::D5, Variant::T4, Variant::D4] {
        let ms = legal_moves(&GameState::new(v));
        let set: HashSet<_> = ms.iter().copied().collect();
        assert_eq!(set.len(), ms.len(), "{v:?}: duplicate moves");
    }
    assert_eq!(count_moves(Variant::T5), 28);
}

#[test]
fn undo_on_fresh_game_and_redo_stack_cleared_by_apply() {
    let mut state = GameState::new(Variant::T4);
    assert!(!state.can_undo());
    assert_eq!(state.undo(), None);
    let ms = legal_moves(&state);
    state.apply(ms[0]);
    assert!(state.can_undo());
    state.undo();
    assert!(state.can_redo());
    state.apply(ms[1]);
    assert!(!state.can_redo());
    assert_eq!(state.redo(), None);
}

#[test]
fn variant_names_and_parsing() {
    assert_eq!(Variant::T5.name(), "5T");
    assert_eq!(Variant::from_name("d4"), Some(Variant::D4));
    assert_eq!(Variant::from_name("T5"), Some(Variant::T5));
    assert_eq!(Variant::from_name("6T"), None);
    assert_eq!(Variant::T5.forbid(), 3);
    assert_eq!(Variant::D5.forbid(), 4);
    assert_eq!(Variant::T4.forbid(), 2);
    assert_eq!(Variant::D4.forbid(), 3);
    assert_eq!(Variant::default(), Variant::T5);
}

/// Each direction of the bitboard generator must match the scalar oracle's
/// subset for that direction, across random positions and all variants.
fn assert_dir_matches(dir: Dir) {
    let mut rng = StdRng::seed_from_u64(0xC0FFEE_u64);
    let (mut bb, mut sc) = (Vec::new(), Vec::new());

    for variant in [Variant::T5, Variant::D5, Variant::T4, Variant::D4] {
        for _ in 0..300 {
            let mut state = GameState::new(variant);
            let depth = rng.random_range(0..45);
            for _ in 0..depth {
                let (_, min_y, _, max_y) = state.bounding_box().unwrap();
                bb.clear();
                append_dir(&state, &mut bb, min_y, max_y, dir);
                sc.clear();
                legal_moves_dir_scalar_append(&state, &mut sc, dir);

                let bb_set: HashSet<Move> = bb.iter().copied().collect();
                let sc_set: HashSet<Move> = sc.iter().copied().collect();
                assert_eq!(bb.len(), bb_set.len(), "{dir:?}: duplicates emitted");
                assert_eq!(bb_set, sc_set, "{dir:?} mismatch for {variant:?} at score {}", state.score());

                let mvs = legal_moves(&state);
                if mvs.is_empty() {
                    break;
                }
                state.apply(mvs[rng.random_range(0..mvs.len())]);
            }
        }
    }
}

#[test]
fn h_bitboard_matches_reference() {
    assert_dir_matches(Dir::H);
}

#[test]
fn v_bitboard_matches_reference() {
    assert_dir_matches(Dir::V);
}

#[test]
fn dn_bitboard_matches_reference() {
    assert_dir_matches(Dir::DN);
}

#[test]
fn dp_bitboard_matches_reference() {
    assert_dir_matches(Dir::DP);
}

/// The promoted bitboard `legal_moves` must equal the full scalar oracle.
#[test]
fn legal_moves_matches_scalar() {
    let mut rng = StdRng::seed_from_u64(0x1234_5678_u64);
    let mut sc = Vec::new();

    for variant in [Variant::T5, Variant::D5, Variant::T4, Variant::D4] {
        for _ in 0..300 {
            let mut state = GameState::new(variant);
            let depth = rng.random_range(0..45);
            for _ in 0..depth {
                let bb = legal_moves(&state);
                legal_moves_scalar_into(&state, &mut sc);
                let bb_set: HashSet<Move> = bb.iter().copied().collect();
                let sc_set: HashSet<Move> = sc.iter().copied().collect();
                assert_eq!(bb.len(), bb_set.len(), "duplicates emitted");
                assert_eq!(bb_set, sc_set, "legal_moves mismatch for {variant:?} at score {}", state.score());

                if bb.is_empty() {
                    break;
                }
                state.apply(bb[rng.random_range(0..bb.len())]);
            }
        }
    }
}

#[test]
fn new_game_cells_are_the_cross_in_row_major_order() {
    let s5 = GameState::new(Variant::T5);
    assert_eq!(s5.board.cells.len(), 36);
    assert_eq!(s5.board.cells[0], (3, 0));
    assert_eq!(s5.board.cells[1], (4, 0));
    assert_eq!(s5.board.cells[4], (3, 1));
    assert_eq!(s5.bounding_box(), Some((0, 0, 9, 9)));
    assert_eq!(GameState::new(Variant::D5).bounding_box(), Some((0, 0, 9, 9)));
    let s4 = GameState::new(Variant::T4);
    assert_eq!(s4.board.cells.len(), 24);
    assert_eq!(s4.bounding_box(), Some((0, 0, 6, 6)));
    assert_eq!(GameState::new(Variant::D4).board.cells.len(), 24);
}

fn scan_key(m: &Move) -> (u8, i16, u8, i16, i16, i16) {
    let d = match m.line.dir {
        Dir::H => 0,
        Dir::V => 1,
        Dir::DP => 2,
        Dir::DN => 3,
    };
    (d, m.line.origin.1, m.line_pos, m.line.origin.0, m.pos.0, m.pos.1)
}

#[test]
fn legal_moves_come_in_scan_order_and_the_buffer_form_agrees() {
    let mut state = GameState::new(Variant::T5);
    let mut buf = vec![legal_moves(&state)[0]];
    for _ in 0..6 {
        let mvs = legal_moves(&state);
        for w in mvs.windows(2) {
            assert!(scan_key(&w[0]) < scan_key(&w[1]));
        }
        legal_moves_into(&state, &mut buf);
        assert_eq!(buf, mvs);
        state.apply(mvs[mvs.len() / 2]);
    }
}

#[test]
fn undo_and_redo_keep_legality_tied_to_the_history() {
    let mut state = GameState::new(Variant::T5);
    for _ in 0..5 {
        let mvs = legal_moves(&state);
        state.apply(mvs[0]);
    }
    let before = legal_moves(&state);
    let last = *state.history.last().unwrap();
    assert_eq!(state.undo(), Some(last));
    assert!(legal_moves(&state).contains(&last));
    assert_eq!(state.redo(), Some(last));
    assert_eq!(legal_moves(&state), before);
    assert!(!before.iter().any(|m| m.line == last.line));
}

#[test]
fn lines_reach_the_coordinate_limit() {
    let l = Line::from_point((32767, 5), Dir::H, 4, 5);
    assert_eq!(l.origin, (32763, 5));
    assert_eq!(l.positions(5), vec![(32763, 5), (32764, 5), (32765, 5), (32766, 5), (32767, 5)]);
    let d = Line::from_point((-32768, -32768), Dir::DN, 0, 5);
    assert_eq!(d.positions(3), vec![(-32768, -32768), (-32767, -32767), (-32766, -32766)]);
}

#[test]
fn undo_three_then_redo_three_restores_the_game() {
    let mut state = GameState::new(Variant::D5);
    for _ in 0..6 {
        let mvs = legal_moves(&state);
        assert!(state.apply(mvs[mvs.len() - 1]));
    }
    assert_eq!(state.score(), 6);
    let history = state.history.clone();
    let cells = state.board.cells.clone();
    let legal = legal_moves(&state);
    for _ in 0..3 {
        assert!(state.undo().is_some());
    }
    assert_eq!(state.score(), 3);
    assert_eq!(state.board.cells.len(), cells.len() - 3);
    for _ in 0..3 {
        assert!(state.redo().is_some());
    }
    assert_eq!(state.history, history);
    assert_eq!(state.board.cells, cells);
    assert_eq!(legal_moves(&state), legal);
    assert!(state.redo().is_none());
}
