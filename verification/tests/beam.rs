use morpion_solitaire::game::moves::{legal_moves, Move};
use morpion_solitaire::game::rules::Variant;
use morpion_solitaire::game::state::GameState;
use morpion_solitaire::search::beam::{run, select_beam};
use std::sync::atomic::AtomicBool;

fn replay(variant: Variant, moves: &[Move]) -> GameState {
    let mut st = GameState::new(variant);
    for &m in moves {
        assert!(legal_moves(&st).contains(&m), "illegal move in replay");
        assert!(st.apply(m));
    }
    st
}

#[test]
fn beam_search_records_finished_legal_games() {
    for (variant, width) in [(Variant::T4, 3), (Variant::D4, 2), (Variant::T5, 1)] {
        let st = GameState::new(variant);
        let running = AtomicBool::new(true);
        let r = run(&st, &running, width);
        assert!(!r.terminals.is_empty(), "{variant:?}: no finished game");
        assert!(r.nodes > 0);
        let mut last = 0;
        for t in &r.terminals {
            assert!(t.len() > last, "recorded games must improve");
            last = t.len();
            let end = replay(variant, t);
            assert!(legal_moves(&end).is_empty(), "a recorded game must be finished");
        }
    }
}

#[test]
fn beam_search_stopped_records_nothing() {
    let st = GameState::new(Variant::T5);
    let stop = AtomicBool::new(false);
    let r = run(&st, &stop, 4);
    assert!(r.terminals.is_empty());
    assert_eq!(r.nodes, 0);
}

#[test]
fn beam_search_finishes_4d_at_any_width() {
    let st = GameState::new(Variant::D4);
    let running = AtomicBool::new(true);
    let narrow = run(&st, &running, 1);
    let wide = run(&st, &running, 4);
    let best = |r: &morpion_solitaire::search::beam::BeamResult| r.terminals.last().map(|t| t.len()).unwrap_or(0);
    assert!(best(&narrow) > 0 && best(&wide) > 0);
}

#[test]
fn select_beam_keeps_the_best_keys_in_stable_order() {
    let cross = GameState::new(Variant::T5);
    let mut next = Vec::new();
    for m in legal_moves(&cross).into_iter().take(12) {
        let mut c = cross.clone();
        assert!(c.apply(m));
        next.push(c);
    }
    let key = |s: &GameState| 2 * s.history.len() + legal_moves(s).len();
    let kept = select_beam(&next, 5);
    assert_eq!(kept.len(), 5);
    let mut order: Vec<usize> = (0..next.len()).collect();
    order.sort_by(|&a, &b| key(&next[b]).cmp(&key(&next[a])));
    for (t, s) in kept.iter().enumerate() {
        assert_eq!(s.history, next[order[t]].history);
    }
    assert_eq!(select_beam(&next, 100).len(), next.len());
    assert!(select_beam(&next, 0).is_empty());
}

/// Beam search written out level by level: each position's children in the
/// order of its legal moves, ranked by key (stable), the first `width` kept.
fn reference_beam(variant: Variant, width: usize) -> Vec<Vec<Move>> {
    let key = |s: &GameState| 2 * s.history.len() + legal_moves(s).len();
    let mut beam = vec![GameState::new(variant)];
    let mut records: Vec<Vec<Move>> = Vec::new();
    loop {
        let mut next = Vec::new();
        for s in &beam {
            let moves = legal_moves(s);
            if moves.is_empty() {
                let best = records.last().map(|r| r.len()).unwrap_or(0);
                if s.history.len() > best {
                    records.push(s.history.clone());
                }
            }
            for m in moves {
                let mut c = s.clone();
                c.apply(m);
                next.push(c);
            }
        }
        if next.is_empty() {
            return records;
        }
        let mut order: Vec<usize> = (0..next.len()).collect();
        order.sort_by(|&a, &b| key(&next[b]).cmp(&key(&next[a])));
        beam = order.into_iter().take(width).map(|i| next[i].clone()).collect();
    }
}

#[test]
fn beam_search_follows_the_levels_of_its_width() {
    for (variant, width) in [(Variant::D4, 1), (Variant::D4, 3), (Variant::T4, 2)] {
        let running = AtomicBool::new(true);
        let r = run(&GameState::new(variant), &running, width);
        assert_eq!(r.terminals, reference_beam(variant, width), "{variant:?} width {width}");
        assert!(!r.overflow);
    }
}
