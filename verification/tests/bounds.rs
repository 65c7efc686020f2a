use morpion_solitaire::game::moves::legal_moves;
use morpion_solitaire::game::rules::Variant;
use morpion_solitaire::game::state::GameState;
use morpion_solitaire::search::bounds::{upper_bound, PLACEABLE_CELLS};

#[test]
fn upper_bound_counts_the_free_placeable_cells() {
    let mut st = GameState::new(Variant::T5);
    let legal = legal_moves(&st);
    assert_eq!(legal.len(), 28);
    assert_eq!(upper_bound(&st, legal.len()), PLACEABLE_CELLS - 36);
    assert!(upper_bound(&st, legal.len()) >= 178);
    st.apply(legal[0]);
    st.apply(legal_moves(&st)[0]);
    assert_eq!(upper_bound(&st, legal_moves(&st).len()), 2 + PLACEABLE_CELLS - 38);
}

#[test]
fn upper_bound_is_never_below_the_score_of_a_finished_game() {
    let mut st = GameState::new(Variant::T5);
    let start = upper_bound(&st, legal_moves(&st).len());
    loop {
        let mvs = legal_moves(&st);
        let here = upper_bound(&st, mvs.len());
        assert!(here <= start);
        if mvs.is_empty() {
            assert_eq!(here, st.score() as u32);
            break;
        }
        assert!(st.apply(mvs[mvs.len() / 2]));
        assert!(st.score() as u32 <= here);
    }
    assert!(st.score() as u32 <= start);
}
