use morpion_solitaire::game::line::Line;
use morpion_solitaire::game::moves::{legal_moves, Move};
use morpion_solitaire::game::rules::Variant;
use morpion_solitaire::game::state::GameState;
use morpion_solitaire::search::symmetry::{
    apply_transform, is_orbit_min, stab_after, transformed_move_key, zobrist_value, SymmetryHashes,
};
use morpion_solitaire::game::board::Board;
use morpion_solitaire::search::symmetry::local_code;
use std::collections::HashSet;

/// Point-stabiliser of a board: transforms mapping occupied cells to occupied
/// cells (the cross has no lines, so this is its full stabiliser).
fn cross_stab(state: &GameState, k: i16) -> u8 {
    let mut stab = 0u8;
    for t in 0..8 {
        if state.board.cells.iter().all(|&c| state.board.contains(apply_transform(t, c, k))) {
            stab |= 1 << t;
        }
    }
    stab
}

/// Canonical (flip-independent) endpoint of a line: the lexicographically
/// smaller of its two ends.
fn line_min_endpoint(line: &Line, n: i16) -> (i16, i16) {
    let (dx, dy) = line.dir.delta();
    let e0 = line.origin;
    let e1 = (e0.0 + (n - 1) * dx, e0.1 + (n - 1) * dy);
    e0.min(e1)
}

#[test]
fn identity_key_is_the_natural_move() {
    let state = GameState::new(Variant::T5);
    let m = legal_moves(&state)[0];
    let (k, n) = (9, 5);
    let (p, end, d) = transformed_move_key(0, &m, k, n);
    assert_eq!(p, m.pos);
    assert_eq!(end, line_min_endpoint(&m.line, n));
    assert_eq!(d, m.line.dir as u8);
}

/// The identity-frame coder reads `hashes[0]` and the identity transform
/// alone: two states with the same identity hash but different other hashes
/// code a move the same.
#[test]
fn move_coder_id_ignores_stale_hashes() {
    let state = GameState::new(Variant::T5);
    let m = legal_moves(&state)[0];
    let mut a = SymmetryHashes::new(9);
    let mut b = SymmetryHashes::new(9);
    a.toggle_identity((1, 2));
    b.toggle_identity((1, 2)); // identical hashes[0]
    b.hashes[3] ^= 0xdead_beef_u64; // a stale hash differs (never read in identity mode)
    assert_eq!(
        a.move_coder_id(true).code(&m),
        b.move_coder_id(true).code(&m),
        "identity-frame code must not depend on the stale hashes"
    );
}

#[test]
fn t5_cross_is_full_d4() {
    let state = GameState::new(Variant::T5);
    assert_eq!(cross_stab(&state, 9), 0xFF, "5T cross must be full D4");
}

#[test]
fn orbit_reduction_partitions_first_moves() {
    for (variant, k, n) in [(Variant::T5, 9, 5), (Variant::D5, 9, 5), (Variant::D4, 7, 4)] {
        let state = GameState::new(variant);
        let stab = cross_stab(&state, k);
        let moves = legal_moves(&state);
        let kept: Vec<&Move> = moves.iter().filter(|m| is_orbit_min(m, stab, k, n)).collect();
        let kept_keys: HashSet<_> = kept.iter().map(|m| transformed_move_key(0, m, k, n)).collect();

        // Every move's orbit minimum (under the real stabiliser) is kept.
        for m in &moves {
            let minkey = (0..8)
                .filter(|&t| stab & (1 << t) != 0)
                .map(|t| transformed_move_key(t, m, k, n))
                .min()
                .unwrap();
            assert!(kept_keys.contains(&minkey), "{variant:?}: orbit min not kept");
        }
    }
}

#[test]
fn first_move_shrinks_the_stabiliser() {
    // A generic first move breaks (some of) the cross's symmetry.
    let state = GameState::new(Variant::T5);
    let (k, n) = (9, 5);
    let stab = cross_stab(&state, k);
    let m = *legal_moves(&state).iter().find(|m| is_orbit_min(m, stab, k, n)).unwrap();
    let child = stab_after(stab, &m, k, n);
    assert_eq!(child & 1, 1, "identity always fixes a move");
    assert!(child < stab, "a first move must break some symmetry");
}

#[test]
fn toggling_twice_restores_the_hashes() {
    let mut h = SymmetryHashes::new(9);
    h.toggle((3, 4));
    let once = h.hashes;
    assert_ne!(once, [0u64; 8]);
    h.toggle((3, 4));
    assert_eq!(h.hashes, [0u64; 8]);
    // Symmetric images of one point give the same canonical hash.
    let mut a = SymmetryHashes::new(9);
    let mut b = SymmetryHashes::new(9);
    a.toggle((2, 3));
    b.toggle(apply_transform(1, (2, 3), 9));
    assert_eq!(a.canonical(), b.canonical());
}

#[test]
fn apply_transform_images() {
    assert_eq!(apply_transform(0, (1, 2), 9), (1, 2));
    assert_eq!(apply_transform(1, (1, 2), 9), (7, 1));
    assert_eq!(apply_transform(2, (1, 2), 9), (8, 7));
    assert_eq!(apply_transform(6, (1, 2), 9), (2, 1));
    assert_ne!(zobrist_value((0, 0)), zobrist_value((0, 1)));
    assert_eq!(zobrist_value((0, 0)), 0);
}

fn mix(c: u64) -> u64 {
    let mut h = c.wrapping_mul(0x9e37_79b9_7f4a_7c15) ^ 0xa5a5_a5a5_a5a5_a5a5;
    h ^= h >> 29;
    h = h.wrapping_mul(0xbf58_476d_1ce4_e5b9);
    h ^= h >> 27;
    h
}

fn board_with(points: &[(i16, i16)]) -> Board {
    let mut b = Board::new();
    for &p in points {
        assert!(b.insert(p));
    }
    b
}

#[test]
fn local_code_folds_neighbourhoods_under_d4() {
    let centre = (10i16, -3i16);
    // Empty ring: byte 0.
    assert_eq!(local_code(&board_with(&[]), centre), mix(0));
    // One orthogonal neighbour anywhere folds to the least image: bit 0 (north).
    let one = [(10, -4), (11, -3), (10, -2), (9, -3)];
    for &p in &one {
        assert_eq!(local_code(&board_with(&[p]), centre), mix(1));
    }
    // One diagonal neighbour folds to bit 1 (north-east).
    for &p in &[(11, -4), (11, -2), (9, -2), (9, -4)] {
        assert_eq!(local_code(&board_with(&[p]), centre), mix(2));
    }
    // A north + north-east pair (bits 0 and 1) is its own least image.
    let pair = local_code(&board_with(&[(10, -4), (11, -4)]), centre);
    assert_eq!(pair, mix(3));
    // Its mirror image (north + north-west) folds to the same code.
    assert_eq!(local_code(&board_with(&[(10, -4), (9, -4)]), centre), pair);
    // The centre itself and cells two steps away are not part of the ring.
    assert_eq!(local_code(&board_with(&[centre, (12, -3)]), centre), mix(0));
}

#[test]
fn transforms_compose_far_from_the_origin() {
    let p = (20000, -30000);
    let q = apply_transform(1, p, 9);
    assert_eq!(q, (30009, 20000));
    assert_eq!(apply_transform(3, q, 9), p);
    assert_eq!(apply_transform(2, apply_transform(2, p, 100), 100), p);
}

#[test]
fn canonical_hash_is_the_same_for_every_image_of_a_board() {
    let pts = [(0, 3), (1, 3), (5, 7), (2, 2), (4, 9)];
    let mut base = SymmetryHashes::new(9);
    for &p in &pts {
        base.toggle(p);
    }
    for t in 0..8 {
        let mut img = SymmetryHashes::new(9);
        for &p in &pts {
            img.toggle(apply_transform(t, p, 9));
        }
        assert_eq!(img.canonical(), base.canonical(), "transform {t}");
    }
}
