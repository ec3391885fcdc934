use notnow::selection::Selection;
use notnow::selection::SelectionState;

#[test]
fn selection_normalization() {
    for start in 8u64..14 {
        for adv in 0usize..8 {
            let mut state = Selection::Start(start);
            let ids = [8, 9, 10, 11, 12, 13, 14];

            assert_eq!(state.normalize(&ids, adv), (start as usize - 8 + adv) % 7);
            assert_eq!(state.has_cycled(), adv >= 7);
        }
    }
}

#[test]
fn selection_state_immediate_advancement() {
    let mut state = SelectionState::new(42);
    let ids = [42, 43, 44];

    state.advance();
    state.advance();
    state.advance();

    let current = state.normalize(&ids);
    assert_eq!(current, 0);
    assert!(state.has_cycled());
}

#[test]
fn selection_state_stays_cycled() {
    let mut state = SelectionState::new(7);
    let ids = [8, 7, 6];

    state.advance();
    state.advance();
    state.advance();

    for _ in 1..200 {
        let _ = state.normalize(&ids);
        assert!(state.has_cycled());
    }
}

#[test]
fn selection_state_reset_cycled() {
    let mut state = SelectionState::new(4);
    let ids = [3, 9, 4];

    state.advance();
    state.advance();
    state.advance();
    assert_eq!(state.normalize(&ids), 2);
    assert!(state.has_cycled());

    state.advance();
    assert_eq!(state.normalize(&ids), 0);
    state.reset_cycled();

    state.advance();
    assert_eq!(state.normalize(&ids), 1);
    assert!(!state.has_cycled());

    state.advance();
    assert_eq!(state.normalize(&ids), 2);
    assert!(!state.has_cycled());

    state.advance();
    assert_eq!(state.normalize(&ids), 0);
    assert!(state.has_cycled());

    state.advance();
    assert_eq!(state.normalize(&ids), 1);
    assert!(state.has_cycled());
}

#[test]
fn selection_advance_wraps_around() {
    let (state, new) = Selection::advance(2, 1, 3, 1);
    assert_eq!(new, 2);
    assert_eq!(state, Selection::Cycled(2, 2));
    assert!(state.has_cycled());
}
