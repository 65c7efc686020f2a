use morpion_solitaire::game::line::{Dir, Line};
use morpion_solitaire::game::moves::{legal_moves, Move};
use morpion_solitaire::game::rules::Variant;
use morpion_solitaire::game::state::GameState;
use morpion_solitaire::search::nrpa::macros::{MacroInstance, Motif, MotifLib, RelMove};
use morpion_solitaire::search::nrpa::mining::{mine_motifs, motif_library};

/// A legal 5T game of a few dozen moves (the middle legal move each turn).
fn a_5t_record() -> Vec<Move> {
    let mut st = GameState::new(Variant::T5);
    for _ in 0..30 {
        let mv = legal_moves(&st);
        if mv.is_empty() {
            break;
        }
        let i = mv.len() / 2;
        assert!(st.apply(mv[i]));
    }
    let rec = st.history.clone();
    assert!(rec.len() >= 5);
    rec
}

#[test]
fn canonical_collapses_orientations() {
    let g = a_5t_record();
    let n = 5i16;
    for k in [2usize, 3] {
        for window in g.windows(k).take(20) {
            let base = Motif::from_window(window);
            let canon = base.canonical(n).key();
            for t in 0..8 {
                let img = base.transformed(t, n);
                assert_eq!(
                    img.canonical(n).key(),
                    canon,
                    "k={k} t={t}: D4 image has a different canonical form"
                );
                assert_eq!(img.signature(n), base.signature(n), "signature not D4-invariant");
            }
        }
    }
}

#[test]
fn from_window_instantiate_roundtrip() {
    let g = a_5t_record();
    for k in [2usize, 3, 4] {
        for window in g.windows(k).take(30) {
            let m = Motif::from_window(window);
            let inst = m.instantiate(window[0].pos, 0, 5);
            assert_eq!(inst, window, "k={k}: t=0 instantiation must equal the window");
        }
    }
}

#[test]
fn early_motif_legal_in_all_orientations() {
    let g = a_5t_record();
    let canon = Motif::from_window(&g[0..2]).canonical(5);
    let mut ok = 0;
    for t in 0..8 {
        let st = GameState::new(Variant::T5);
        let anchor = g[0].pos;
        let inst = canon.instantiate(anchor, t, 5);
        let mut s = st.clone();
        if inst.iter().all(|&mv| legal_moves(&s).contains(&mv) && s.apply(mv)) {
            ok += 1;
        }
    }
    assert!(ok >= 1, "no orientation of the opening motif replays legally");
}

#[test]
fn from_window_is_anchored_at_the_first_point() {
    let g = a_5t_record();
    let m = Motif::from_window(&g[0..3]);
    assert_eq!(m.len(), 3);
    assert!(!m.is_empty());
    assert_eq!(m.moves[0].d, (0, 0));
    for (i, r) in m.moves.iter().enumerate() {
        assert_eq!(r.d, (g[i].pos.0 - g[0].pos.0, g[i].pos.1 - g[0].pos.1));
        assert_eq!(r.dir, g[i].line.dir);
        assert_eq!(r.line_pos, g[i].line_pos);
    }
    let empty = Motif { moves: vec![] };
    assert!(empty.is_empty());
    assert_eq!(empty.len(), 0);
}

#[test]
fn instantiate_rotates_and_recounts_the_index() {
    // A quarter turn maps a horizontal line onto a vertical one.
    let m = Motif { moves: vec![RelMove { d: (0, 0), dir: Dir::H, line_pos: 0 }] };
    let inst = m.instantiate((3, 3), 1, 5);
    assert_eq!(
        inst,
        vec![Move { pos: (3, 3), line: Line { origin: (3, 3), dir: Dir::V }, line_pos: 0 }]
    );
    // A half turn reverses the line, so the index counts from the other end.
    let m = Motif {
        moves: vec![
            RelMove { d: (0, 0), dir: Dir::V, line_pos: 2 },
            RelMove { d: (1, 0), dir: Dir::H, line_pos: 1 },
        ],
    };
    let inst = m.instantiate((10, -4), 2, 5);
    assert_eq!(inst[1].pos, (9, -4));
    assert_eq!(inst[1].line_pos, 3);
    assert_eq!(inst[1].line, Line { origin: (6, -4), dir: Dir::H });
    assert_eq!(inst[0].pos, (10, -4));
    assert_eq!(inst[0].line_pos, 2);
    assert_eq!(inst[0].line, Line { origin: (10, -6), dir: Dir::V });
}

#[test]
fn canonical_is_the_least_image() {
    let m = Motif {
        moves: vec![
            RelMove { d: (0, 0), dir: Dir::H, line_pos: 1 },
            RelMove { d: (2, 1), dir: Dir::DN, line_pos: 0 },
        ],
    };
    let c = m.canonical(5).key();
    for t in 0..8 {
        assert!(c <= m.transformed(t, 5).key());
    }
    assert!((0..8).any(|t| m.transformed(t, 5).key() == c));
    let other = Motif { moves: vec![RelMove { d: (0, 0), dir: Dir::H, line_pos: 1 }] };
    assert_ne!(other.signature(5), m.signature(5));
    let mi = MacroInstance { code: m.signature(5), moves: m.instantiate((0, 0), 0, 5) };
    assert_eq!(mi.moves.len(), 2);
}

#[test]
fn empty_library_no_macros() {
    let lib = MotifLib::build(vec![], Variant::T5);
    assert!(lib.is_empty());
    assert_eq!(lib.len(), 0);
    let mut st = GameState::new(Variant::T5);
    let legal = legal_moves(&st);
    let mut out = Vec::new();
    lib.legal_macros(&mut st, &legal, &mut out);
    assert!(out.is_empty());
    assert_eq!(st.history.len(), 0, "scratch must be restored");
}

#[test]
fn record_continuation_is_enumerated() {
    let g = a_5t_record();
    // The library of every 2-move window of the game, canonicalised.
    let motifs: Vec<Motif> = g.windows(2).map(|w| Motif::from_window(w).canonical(5)).collect();
    let lib = MotifLib::build(motifs, Variant::T5);
    let mut st = GameState::new(Variant::T5);
    for j in 0..12 {
        let legal = legal_moves(&st);
        let mut out = Vec::new();
        lib.legal_macros(&mut st, &legal, &mut out);
        assert_eq!(st.history.len(), j, "scratch not restored at move {j}");
        let want = vec![g[j], g[j + 1]];
        assert!(
            out.iter().any(|mi| mi.moves == want),
            "move {j}: game continuation {want:?} not enumerated among {} macros",
            out.len()
        );
        for mi in &out {
            let mut s = st.clone();
            assert!(
                mi.moves.iter().all(|&m| legal_moves(&s).contains(&m) && s.apply(m)),
                "enumerated macro not legal in sequence"
            );
            assert_eq!(mi.moves.len(), 2);
        }
        assert!(st.apply(g[j]));
    }
}

#[test]
fn mining_counts_every_window_and_sorts_by_frequency() {
    let g = a_5t_record();
    let games = vec![g.clone(), g.clone()];
    let mined = mine_motifs(&games, Variant::T5, 2);
    assert!(!mined.is_empty());
    let windows = 2 * (g.len() - 1);
    assert_eq!(mined.iter().map(|e| e.1 as usize).sum::<usize>(), windows);
    assert!(mined[0].1 >= 2, "every motif occurs in both copies");
    for w in mined.windows(2) {
        assert!(w[0].1 >= w[1].1);
        assert!(w[0].0.key() != w[1].0.key());
        if w[0].1 == w[1].1 {
            assert!(w[0].0.key() < w[1].0.key());
        }
    }
    let lib = motif_library(&games, Variant::T5, 2, 3);
    assert_eq!(lib.len(), 3.min(mined.len()));
    for (i, m) in lib.iter().enumerate() {
        assert_eq!(m, &mined[i].0);
    }
    assert_eq!(motif_library(&games, Variant::T5, 2, 0).len(), mined.len());
    let short = vec![vec![g[0]]];
    assert!(mine_motifs(&short, Variant::T5, 2).is_empty());
}
