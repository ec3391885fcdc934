use notnow::in_out::InOut;
use notnow::in_out::InOutArea;
use notnow::in_out::InputEvent;
use notnow::in_out::Key;

#[test]
fn input_editing_and_entering() {
    let mut area = InOutArea::new(1);
    assert!(area.handle_set_in_out(InOut::Input(String::new(), 0), Some(7)));
    let outcome = area.handle_key(String::new(), 0, Key::Char('a'));
    assert!(outcome.updated);
    assert_eq!(area.state(), &InOut::Input("a".to_string(), 1));
    let outcome = area.handle_key("a".to_string(), 1, Key::Char('b'));
    assert!(outcome.updated);
    let outcome = area.handle_key("ab".to_string(), 2, Key::Left);
    assert!(outcome.updated);
    assert_eq!(area.state(), &InOut::Input("ab".to_string(), 1));
    let outcome = area.handle_key("ab".to_string(), 1, Key::Backspace);
    assert!(outcome.updated);
    assert_eq!(area.state(), &InOut::Input("b".to_string(), 0));
    let outcome = area.handle_key("b".to_string(), 0, Key::Home);
    assert!(!outcome.updated);
    let outcome = area.handle_key("b".to_string(), 0, Key::End);
    assert!(outcome.updated);
    assert_eq!(area.state(), &InOut::Input("b".to_string(), 1));
    let outcome = area.handle_key("b".to_string(), 1, Key::Return);
    assert!(outcome.updated);
    match outcome.directed {
        Some((7, InputEvent::EnteredText(text))) => assert_eq!(text, "b"),
        _ => panic!("unexpected outcome"),
    }
    assert_eq!(area.state(), &InOut::Clear);
}

#[test]
fn input_cancel_and_delete() {
    let mut area = InOutArea::new(1);
    assert!(area.handle_set_in_out(InOut::Input("xy".to_string(), 0), Some(3)));
    let outcome = area.handle_key("xy".to_string(), 0, Key::Delete);
    assert!(outcome.updated);
    assert_eq!(area.state(), &InOut::Input("y".to_string(), 0));
    let outcome = area.handle_key("y".to_string(), 0, Key::Esc);
    match outcome.directed {
        Some((3, InputEvent::InputCanceled)) => {},
        _ => panic!("unexpected outcome"),
    }
}

#[test]
fn status_is_cleared_only_in_same_generation() {
    let mut area = InOutArea::new(5);
    assert!(area.handle_set_in_out(InOut::Saved, None));
    assert!(!area.handle_set_in_out(InOut::Saved, None));
    let (to, gen) = area.hooked_event();
    assert_eq!(to, 5);
    assert!(!area.handle_clear(gen + 1));
    assert!(area.handle_clear(gen));
    assert_eq!(area.state(), &InOut::Clear);
}

#[test]
fn edits_without_effect_keep_the_input() {
    let mut area = InOutArea::new(1);
    assert!(area.handle_set_in_out(InOut::Input("ab".to_string(), 0), Some(7)));
    let outcome = area.handle_key("ab".to_string(), 0, Key::Backspace);
    assert!(!outcome.updated);
    assert_eq!(area.state(), &InOut::Input("ab".to_string(), 0));
    assert!(area.handle_set_in_out(InOut::Input("ab".to_string(), 2), Some(7)));
    let outcome = area.handle_key("ab".to_string(), 2, Key::Delete);
    assert!(!outcome.updated);
    assert_eq!(area.state(), &InOut::Input("ab".to_string(), 2));
}
