use morpion_solitaire::search::neural::position::is_t5;
use morpion_solitaire::game::moves::legal_moves;
use morpion_solitaire::game::rules::Variant;
use morpion_solitaire::game::state::GameState;
use morpion_solitaire::search::neural::features::{
    canonical_transform, canonicalize, index, lin, pack, raw_planes, transform_plane, CELLS, R,
};

/// The canonicalisation is D4-invariant: every one of the 8 transforms of a
/// patch reduces to the same canonical orientation (same packed key).
#[test]
fn canonicalisation_is_d4_invariant() {
    // An asymmetric patch so the 8 images are genuinely distinct before folding.
    let mut occ = [false; CELLS];
    let mut line = [false; CELLS];
    for &(dx, dy) in &[(0, 0), (1, 0), (2, 0), (-1, 1), (2, -2), (3, 1)] {
        occ[index(dx, dy)] = true;
    }
    for &(dx, dy) in &[(0, 0), (1, 0), (2, 0), (-1, 0), (-2, 0)] {
        line[index(dx, dy)] = true;
    }
    let canon = |o: &[bool; CELLS], l: &[bool; CELLS]| {
        let t = canonical_transform(o, l);
        (pack(&transform_plane(t, o)), pack(&transform_plane(t, l)))
    };
    let reference = canon(&occ, &line);
    for t in 0..8 {
        let (o, l) = (transform_plane(t, &occ), transform_plane(t, &line));
        assert_eq!(canon(&o, &l), reference, "transform {t} folds elsewhere");
    }
}

/// `lin` permutes the patch: each transform maps `-R..=R` onto itself bijectively.
#[test]
fn transforms_permute_the_patch() {
    for t in 0..8 {
        let mut seen = [false; CELLS];
        for dy in -R..=R {
            for dx in -R..=R {
                let (tx, ty) = lin(t, (dx, dy));
                assert!((-R..=R).contains(&tx) && (-R..=R).contains(&ty));
                let i = index(tx, ty);
                assert!(!seen[i], "transform {t} is not injective");
                seen[i] = true;
            }
        }
    }
}

#[test]
fn index_and_pack_layout() {
    assert_eq!(index(-4, -4), 0);
    assert_eq!(index(0, 0), 40);
    assert_eq!(index(4, 4), 80);
    let mut p = [false; CELLS];
    p[0] = true;
    p[80] = true;
    assert_eq!(pack(&p), 1u128 | (1u128 << 80));
    // Rotating by 90° moves the offset (1, 0) to (0, 1).
    assert_eq!(lin(1, (1, 0)), (0, 1));
    let mut q = [false; CELLS];
    q[index(1, 0)] = true;
    assert!(transform_plane(1, &q)[index(0, 1)]);
    assert!(!canonicalize());
}

#[test]
fn raw_planes_of_a_first_move() {
    let st = GameState::new(Variant::T5);
    let mv = legal_moves(&st)[0];
    let (occ, line, count) = raw_planes(&st, &mv);
    let centre = index(0, 0);
    assert!(!occ[centre], "placed point must be empty in occupancy");
    assert!(line[centre], "placed point must be on its own line");
    assert_eq!(line.iter().filter(|&&b| b).count(), 5);
    assert_eq!(count as usize, occ.iter().filter(|&&b| b).count());
}

#[test]
fn is_t5_only_for_5t() {
    assert!(is_t5(Variant::T5));
    assert!(!is_t5(Variant::D5));
    assert!(!is_t5(Variant::T4));
    assert!(!is_t5(Variant::D4));
}
