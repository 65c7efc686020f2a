use morpion_solitaire::game::line::{Dir, Line};
use morpion_solitaire::game::moves::{legal_moves, Move};
use morpion_solitaire::game::rules::Variant;
use morpion_solitaire::game::state::GameState;
use morpion_solitaire::search::symmetry::stab_after;
use morpion_solitaire::search::systematic::{
    canonical_children_into, canonical_ok, child_legal_into, explore_item, forbid_of,
    initial_stabilizer, root_candidates, Frame,
};
use std::sync::atomic::AtomicBool;
use std::collections::HashSet;

/// Build the root DFS frame for `state` (full legal scan + canon flags +
/// canonical children).
fn root_frame(state: &GameState, stab: u8, k: i16, n: i16) -> Frame {
    let raw = legal_moves(state);
    let mut legal = Vec::new();
    root_candidates(&mut legal, &raw, state);
    let mut children = Vec::new();
    canonical_children_into(&mut children, &legal, stab, k, n);
    Frame { children, idx: 0, stab, legal }
}

/// Walk a bounded DFS and compare `child_legal_into` to `legal_moves` at every
/// node.
#[test]
fn child_legal_matches_full_regen_release() {
    let mut state = GameState::new(Variant::T5);
    let n = state.variant.len() as i16;
    let k = 2 * n - 1;
    let init_stab = initial_stabilizer(&state, k, n);
    let forbid = forbid_of(state.variant);
    let nu = n as usize;

    let mut stack: Vec<Frame> = vec![root_frame(&state, init_stab, k, n)];
    let mut nodes = 0u64;
    const NODE_LIMIT: u64 = 50_000;

    let mut incremental = Vec::new();
    while nodes < NODE_LIMIT {
        let top = stack.last_mut().unwrap();
        if top.idx >= top.children.len() {
            stack.pop();
            if stack.is_empty() {
                break;
            }
            state.undo();
            continue;
        }
        let mv = top.children[top.idx];
        top.idx += 1;
        let cstab = stab_after(top.stab, &mv, k, n);
        state.apply(mv);
        nodes += 1;

        child_legal_into(&mut incremental, &stack.last().unwrap().legal, &state, mv, forbid, nu);
        let full: Vec<Move> = legal_moves(&state);

        let inc_set: HashSet<Move> = incremental.iter().map(|c| c.mv).collect();
        let full_set: HashSet<Move> = full.iter().copied().collect();
        assert_eq!(
            inc_set,
            full_set,
            "child_legal diverged from legal_moves at depth {} after {} nodes",
            state.history.len(),
            nodes,
        );
        assert_eq!(
            incremental.len(),
            inc_set.len(),
            "duplicate in incremental legal set at depth {}",
            state.history.len()
        );
        // The incrementally-derived canon flag must match a fresh scan.
        for c in &incremental {
            assert_eq!(
                c.canon,
                canonical_ok(&c.mv, &state),
                "incremental canon flag diverged at depth {} for {:?}",
                state.history.len(),
                c.mv,
            );
        }

        let mut children = Vec::new();
        canonical_children_into(&mut children, &incremental, cstab, k, n);
        if children.is_empty() {
            state.undo();
        } else {
            stack.push(Frame { children, idx: 0, stab: cstab, legal: std::mem::take(&mut incremental) });
        }
    }
}

/// Visit every permutation of `xs`, calling `f` on each.
fn permute(xs: &mut [Move], i: usize, f: &mut impl FnMut(&[Move])) {
    if i + 1 >= xs.len() {
        f(xs);
        return;
    }
    for j in i..xs.len() {
        xs.swap(i, j);
        permute(xs, i + 1, f);
        xs.swap(i, j);
    }
}

/// Among all valid reorderings of a fixed set of moves (one trace), exactly
/// one is canonical.
#[test]
fn trace_nf_keeps_exactly_one_order_per_trace() {
    for seed_len in [3usize, 4, 5, 6] {
        let mut start = GameState::new(Variant::T5);
        let mut set = Vec::new();
        for _ in 0..seed_len {
            let ms = legal_moves(&start);
            let Some(mv) = ms.into_iter().min_by_key(|m| {
                (m.pos.0, m.pos.1, m.line.origin.0, m.line.origin.1, m.line_pos)
            }) else {
                break;
            };
            set.push(mv);
            start.apply(mv);
        }

        let mut valid = 0usize;
        let mut canonical = 0usize;
        permute(&mut set.clone(), 0, &mut |perm: &[Move]| {
            let mut s = GameState::new(Variant::T5);
            let mut is_valid = true;
            let mut is_canon = true;
            for &mv in perm {
                if !legal_moves(&s).contains(&mv) {
                    is_valid = false;
                    break;
                }
                if !canonical_ok(&mv, &s) {
                    is_canon = false;
                }
                s.apply(mv);
            }
            if is_valid {
                valid += 1;
                if is_canon {
                    canonical += 1;
                }
            }
        });
        assert_eq!(canonical, 1, "len {seed_len}: {valid} valid orders, {canonical} canonical (want 1)");
    }
}

#[test]
fn cross_stabilizer_and_forbid() {
    let st = GameState::new(Variant::T5);
    assert_eq!(initial_stabilizer(&st, 9, 5), 0xFF);
    // The 4-point cross lies on a 0..=6 grid: it is fully symmetric about 3
    // (k = 6), and only under the transposes about 3.5 (k = 7).
    let st4 = GameState::new(Variant::D4);
    assert_eq!(initial_stabilizer(&st4, 6, 4), 0xFF);
    assert_eq!(initial_stabilizer(&st4, 7, 4), 0b0100_0001);
    assert_eq!(forbid_of(Variant::T5), 3);
    assert_eq!(forbid_of(Variant::D5), 4);
    assert_eq!(forbid_of(Variant::T4), 2);
    assert_eq!(forbid_of(Variant::D4), 3);
    // After one move the stabiliser is smaller.
    let mut s = GameState::new(Variant::T5);
    let mv = legal_moves(&s)[0];
    s.apply(mv);
    assert!(initial_stabilizer(&s, 9, 5) < 0xFF);
    assert_eq!(initial_stabilizer(&s, 9, 5) & 1, 1);
}

/// A finished 5T game: always the first legal move.
fn first_move_game() -> Vec<Move> {
    let mut st = GameState::new(Variant::T5);
    loop {
        let mv = legal_moves(&st);
        if mv.is_empty() {
            break;
        }
        assert!(st.apply(mv[0]));
    }
    st.history.clone()
}

fn replay(moves: &[Move]) -> GameState {
    let mut st = GameState::new(Variant::T5);
    for &m in moves {
        assert!(legal_moves(&st).contains(&m), "illegal move in replay");
        assert!(st.apply(m));
    }
    st
}

#[test]
fn explore_item_stopped_hands_back_the_root_children() {
    let st = GameState::new(Variant::T5);
    let n = 5i16;
    let k = 2 * n - 1;
    let stab = initial_stabilizer(&st, k, n);
    let stop = AtomicBool::new(false);
    let r = explore_item(&[], &st, stab, &stop, 0, k, n);
    assert!(r.terminals.is_empty());
    assert_eq!(r.nodes, 1);
    let root = root_frame(&st, stab, k, n);
    let got: Vec<Move> = r.leftover.iter().map(|w| w[0]).collect();
    assert_eq!(r.leftover.iter().map(|w| w.len()).max(), Some(1));
    let mut want = root.children.clone();
    want.sort_by_key(|m| (m.pos, m.line.origin, m.line.dir as u8, m.line_pos));
    let mut got_sorted = got.clone();
    got_sorted.sort_by_key(|m| (m.pos, m.line.origin, m.line.dir as u8, m.line_pos));
    assert_eq!(got_sorted, want);
}

#[test]
fn explore_item_finishes_a_small_subtree() {
    let game = first_move_game();
    assert!(game.len() > 6);
    let st = GameState::new(Variant::T5);
    let n = 5i16;
    let k = 2 * n - 1;
    let stab = initial_stabilizer(&st, k, n);
    let run = AtomicBool::new(true);
    // A finished game is itself the only terminal of its subtree.
    let r = explore_item(&game, &st, stab, &run, 0, k, n);
    assert_eq!(r.terminals, vec![game.clone()]);
    assert!(r.leftover.is_empty());
    assert_eq!(r.nodes, 1);
    // A few moves before the end the subtree is explored in one chunk, and
    // every game it reports is a finished legal game extending the item.
    let item = &game[..game.len() - 4];
    let r = explore_item(item, &st, stab, &run, 0, k, n);
    assert!(r.leftover.is_empty(), "a small subtree is explored in one chunk");
    assert!(r.nodes >= 1);
    let mut last = 0;
    for t in &r.terminals {
        assert!(t.len() > last, "terminals must improve");
        last = t.len();
        assert_eq!(&t[..item.len()], item);
        let end = replay(t);
        assert!(legal_moves(&end).is_empty(), "a recorded game must be finished");
    }
    // Nothing at or below the best so far is reported.
    let r2 = explore_item(&game, &st, stab, &run, game.len() as u32, k, n);
    assert!(r2.terminals.is_empty());
}

#[test]
fn explore_item_reports_a_move_off_the_grid() {
    let st = GameState::new(Variant::T5);
    let n = 5i16;
    let k = 2 * n - 1;
    let stab = initial_stabilizer(&st, k, n);
    let running = AtomicBool::new(true);
    let far = Move::new((5000, 5000), Line::new((5000, 5000), Dir::H), 0);
    let r = explore_item(&[far], &st, stab, &running, 0, k, n);
    assert!(r.overflow);
    assert!(r.terminals.is_empty() && r.leftover.is_empty());
    let stop = AtomicBool::new(false);
    assert!(!explore_item(&[], &st, stab, &stop, 0, k, n).overflow);
}
