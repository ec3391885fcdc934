use notnow::in_out::InOut;
use notnow::in_out::Key;
use notnow::term_ui::handle_key;
use notnow::term_ui::save_outcome;
use notnow::term_ui::KeyAction;
use notnow::term_ui::ToRender;

#[test]
fn quit_save_and_forward_keys() {
    assert_eq!(handle_key(&Key::Char('q')), KeyAction::Quit);
    assert_eq!(handle_key(&Key::Char('w')), KeyAction::Save);
    assert_eq!(handle_key(&Key::Char('a')), KeyAction::Forward);
    assert_eq!(handle_key(&Key::Esc), KeyAction::Forward);
}

#[test]
fn outcome_of_saving() {
    assert!(matches!(save_outcome(Ok(())), InOut::Saved));
    match save_outcome(Err("disk full".to_string())) {
        InOut::Error(e) => assert_eq!(e, "disk full"),
        _ => panic!("expected an error"),
    }
}

#[test]
fn widgets_to_draw_merge() {
    assert!(matches!(ToRender::Nothing.merge_with(vec![1, 2]), ToRender::Ids(ids) if ids == vec![1, 2]));
    assert!(matches!(ToRender::All.merge_with(vec![1]), ToRender::All));
    match ToRender::Ids(vec![3, 1]).merge_with(vec![1, 4, 2]) {
        ToRender::Ids(ids) => assert_eq!(ids, vec![3, 1, 4, 2]),
        _ => panic!("expected identifiers"),
    }
}
