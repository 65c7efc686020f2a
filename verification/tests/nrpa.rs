use morpion_solitaire::game::moves::{legal_moves, Move};
use morpion_solitaire::game::rules::Variant;
use morpion_solitaire::game::state::GameState;
use morpion_solitaire::search::nrpa::perturbation::{archive_game, destroy_range, game_key, sorted_entries};
use morpion_solitaire::search::nrpa::{build_base_sym, crossover_games, iterations_for_level, move_code, random_extension};
use morpion_solitaire::search::symmetry::{local_code, SymmetryHashes};

/// A legal 5T game, picking the move at `pick(len)` among the legal moves.
fn a_game(pick: fn(usize) -> usize) -> Vec<Move> {
    let mut st = GameState::new(Variant::T5);
    for _ in 0..40 {
        let mv = legal_moves(&st);
        if mv.is_empty() {
            break;
        }
        assert!(st.apply(mv[pick(mv.len())]));
    }
    st.history.clone()
}

fn replays_legally(g: &[Move]) -> bool {
    let mut st = GameState::new(Variant::T5);
    for &mv in g {
        if !(legal_moves(&st).contains(&mv) && st.apply(mv)) {
            return false;
        }
    }
    true
}

#[test]
fn crossover_yields_a_valid_game() {
    let recs = [a_game(|n| n / 2), a_game(|n| n - 1)];
    assert_ne!(recs[0], recs[1]);
    let mut rng = rand::rng();
    let g = crossover_games(&recs[0], &recs[1], Variant::T5, &mut rng);
    assert!(!g.is_empty());
    let mut st = GameState::new(Variant::T5);
    for &mv in &g {
        assert!(legal_moves(&st).contains(&mv), "crossover move illegal at replay");
        assert!(st.apply(mv));
    }
    assert_eq!(st.history.len(), g.len());
    for mv in &g {
        assert!(recs[0].contains(mv) || recs[1].contains(mv));
    }
}

#[test]
fn crossover_of_a_game_with_itself_is_a_full_replay() {
    let g = a_game(|n| n / 3);
    let mut rng = rand::rng();
    let c = crossover_games(&g, &g, Variant::T5, &mut rng);
    // Every move of a valid game becomes playable once its line's points are
    // placed, so the sweeps recover the whole game.
    assert_eq!(c.len(), g.len());
    assert!(replays_legally(&c));
}

#[test]
fn random_extension_is_a_valid_reordering() {
    let g = a_game(|n| n / 2);
    let cross = GameState::new(Variant::T5).board.cells.clone();
    let mut rng = rand::rng();
    for _ in 0..5 {
        let order = random_extension(&g, &cross, 5, &mut rng);
        assert_eq!(order.len(), g.len());
        let mut a = order.clone();
        let mut b = g.clone();
        a.sort_by_key(|m| (m.pos, m.line.origin, m.line.dir as u8, m.line_pos));
        b.sort_by_key(|m| (m.pos, m.line.origin, m.line.dir as u8, m.line_pos));
        assert_eq!(a, b, "not a permutation of the game");
        assert!(replays_legally(&order), "reordering does not replay");
    }
}

#[test]
fn random_extension_leaves_unready_moves_in_order() {
    let g = a_game(|n| n / 2);
    // Without the cross nothing is ready: the game comes back unchanged.
    let mut rng = rand::rng();
    let order = random_extension(&g, &[], 5, &mut rng);
    assert_eq!(order, g);
}

#[test]
fn iterations_shrink_with_depth() {
    assert_eq!(iterations_for_level(1), 500);
    assert_eq!(iterations_for_level(3), 500);
    assert_eq!(iterations_for_level(4), 64);
    assert_eq!(iterations_for_level(5), 24);
    assert_eq!(iterations_for_level(9), 24);
}

#[test]
fn destroy_range_is_capped_by_the_parent() {
    assert_eq!(destroy_range(100, 8, 70), (8, 70));
    assert_eq!(destroy_range(30, 8, 70), (8, 29));
    assert_eq!(destroy_range(5, 8, 70), (8, 8));
    assert_eq!(destroy_range(0, 8, 70), (8, 8));
    assert_eq!(destroy_range(0, 0, 70), (0, 0));
}

fn game_of_len(n: usize) -> Vec<Move> {
    let g = a_game(|n| n / 2);
    assert!(g.len() >= n);
    g[..n].to_vec()
}

#[test]
fn archive_keeps_the_band_below_the_best() {
    let mut archive = vec![game_of_len(10), game_of_len(20), game_of_len(15)];
    let mut best = 20;
    // Within the band: joins, nothing improves.
    assert!(!archive_game(&mut archive, &mut best, &game_of_len(18), 5, 100));
    assert_eq!(best, 20);
    assert_eq!(archive.iter().map(|g| g.len()).collect::<Vec<_>>(), vec![20, 15, 18]);
    // Below the band: nothing changes.
    assert!(!archive_game(&mut archive, &mut best, &game_of_len(12), 5, 100));
    assert_eq!(archive.iter().map(|g| g.len()).collect::<Vec<_>>(), vec![20, 15, 18]);
    // A new best raises the band and drops what fell below it.
    assert!(archive_game(&mut archive, &mut best, &game_of_len(24), 5, 100));
    assert_eq!(best, 24);
    assert_eq!(archive.iter().map(|g| g.len()).collect::<Vec<_>>(), vec![20, 24]);
}

#[test]
fn archive_over_capacity_drops_the_first_shortest() {
    let mut archive = vec![game_of_len(20), game_of_len(17), game_of_len(19), game_of_len(17)];
    let mut best = 20;
    assert!(!archive_game(&mut archive, &mut best, &game_of_len(18), 5, 4));
    // [20, 17, 19, 17, 18]: the first 17 leaves, the 18 takes its place.
    assert_eq!(archive.iter().map(|g| g.len()).collect::<Vec<_>>(), vec![20, 18, 19, 17]);
}

#[test]
fn base_symmetry_of_the_cross_is_symmetric() {
    let st = GameState::new(Variant::T5);
    let s = build_base_sym(&st);
    assert_eq!(s.k, 9);
    let mut manual = SymmetryHashes::new(9);
    for &c in &st.board.cells {
        manual.toggle(c);
    }
    assert_eq!(s.hashes, manual.hashes);
    // The cross is fixed by every symmetry, so all eight hashes agree.
    assert!(s.hashes.iter().all(|&h| h == s.hashes[0]));
    assert_ne!(s.hashes[0], 0);
}

#[test]
fn move_code_mixes_the_local_pattern_on_request() {
    let st = GameState::new(Variant::T5);
    let sym = build_base_sym(&st);
    let coder = sym.move_coder(true);
    let mv = legal_moves(&st)[0];
    let plain = move_code(&coder, &st, &mv, false);
    assert_eq!(plain, coder.code(&mv));
    assert_eq!(move_code(&coder, &st, &mv, true), plain ^ local_code(&st.board, mv.pos));
}

#[test]
fn game_key_ignores_play_order() {
    let g = a_game(|n| n / 2);
    let cross = GameState::new(Variant::T5).board.cells.clone();
    let mut rng = rand::rng();
    let reordered = random_extension(&g, &cross, 5, &mut rng);
    let mut reversed = g.clone();
    reversed.reverse();
    assert_eq!(sorted_entries(&reordered), sorted_entries(&g));
    assert_eq!(sorted_entries(&reversed), sorted_entries(&g));
    assert_eq!(game_key(&reordered), game_key(&g));
    assert_eq!(game_key(&reversed), game_key(&g));
    let shorter = &g[..g.len() - 1];
    assert_ne!(sorted_entries(shorter), sorted_entries(&g));
}

#[test]
fn sorted_entries_are_the_move_keys_in_order() {
    let g = a_game(|n| n - 1);
    let e = sorted_entries(&g);
    assert_eq!(e.len(), g.len());
    assert!(e.windows(2).all(|w| w[0] <= w[1]));
    let m = g[0];
    let key = (m.pos.0, m.pos.1, m.line.origin.0, m.line.origin.1, m.line.dir as u8, m.line_pos);
    assert!(e.contains(&key));
}

#[test]
fn crossover_leaves_no_pooled_move_playable() {
    let g1 = a_game(|n| n / 2);
    let g2 = a_game(|n| n - 1);
    let mut rng = rand::rng();
    let r = crossover_games(&g1, &g2, Variant::T5, &mut rng);
    let mut st = GameState::new(Variant::T5);
    for &mv in &r {
        assert!(st.apply(mv));
    }
    let legal = legal_moves(&st);
    for m in g1.iter().chain(&g2) {
        if !r.contains(m) {
            assert!(!legal.contains(m), "a pooled move was left playable");
        }
    }
}
