use notnow::selection::SelectionState;
use notnow::tab_bar::sanitize_selection;
use notnow::tab_bar::SearchState;
use notnow::tab_bar::SearchT;

#[test]
fn search_take() {
    let mut search = SearchT::Unset::<SelectionState>;
    assert_eq!(search.take(), SearchT::Unset);
    assert_eq!(search, SearchT::Taken);

    let mut search = SearchT::Taken::<SelectionState>;
    assert_eq!(search.take(), SearchT::Taken);
    assert_eq!(search, SearchT::Taken);

    let selection_state = SelectionState::new(42);
    let mut search = SearchT::State("test".to_string(), SearchState::First, selection_state);

    match search.take() {
        SearchT::State(string, search_state, selection_state) => {
            assert_eq!(string, "test");
            assert_eq!(search_state, SearchState::First);
            assert_eq!(selection_state, SelectionState::new(42));
        },
        _ => assert!(false),
    }
    assert_eq!(search, SearchT::Taken);
}

#[test]
fn search_direction_and_first_state() {
    let search = SearchT::Preparing::<SelectionState>(true);
    assert!(search.is_reverse());
    let search = SearchT::Preparing::<SelectionState>(false);
    assert!(!search.is_reverse());
    assert!(SearchState::First.is_first());
    assert!(!SearchState::Current.is_first());
    assert!(!SearchState::Task(3).is_first());
}

#[test]
fn selection_sanitizing() {
    assert_eq!(sanitize_selection(5, 0), 0);
    assert_eq!(sanitize_selection(-3, 4), 0);
    assert_eq!(sanitize_selection(2, 4), 2);
    assert_eq!(sanitize_selection(isize::MAX, 4), 3);
}

use notnow::tab_bar::TabAction;
use notnow::tab_bar::TabBar;

fn bar() -> TabBar {
    TabBar::new(vec![("all".to_string(), 100), ("work".to_string(), 101), ("home".to_string(), 102)])
}

#[test]
fn tab_selection_keys() {
    let mut bar = bar();
    assert!(matches!(bar.handle_key('2'), TabAction::Switched(100, 101)));
    assert_eq!(bar.selection(), 1);
    assert!(matches!(bar.handle_key('0'), TabAction::Switched(101, 102)));
    assert!(matches!(bar.handle_key('`'), TabAction::Switched(102, 101)));
    assert!(matches!(bar.handle_key('l'), TabAction::Switched(101, 102)));
    assert!(matches!(bar.handle_key('l'), TabAction::Nothing));
    assert!(matches!(bar.handle_key('h'), TabAction::Switched(102, 101)));
    assert!(matches!(bar.handle_key('x'), TabAction::Unhandled));
    assert_eq!(bar.iter(), vec!["all", "work", "home"]);
}

#[test]
fn search_flow_across_tabs() {
    let mut bar = bar();
    match bar.handle_key('n') {
        TabAction::Error(msg) => assert_eq!(msg, "Nothing to search for"),
        _ => panic!("expected error"),
    }
    assert!(matches!(bar.handle_key('?'), TabAction::AskSearchText));
    match bar.handle_entered_text("MiLk".to_string()) {
        TabAction::Search(text, SearchState::Current, state, 100, true) => {
            assert_eq!(text, "milk");
            assert_eq!(state, SelectionState::new(100));
        },
        _ => panic!("expected search"),
    }
    let mut state = SelectionState::new(100);
    state.advance();
    match bar.handle_search_task("milk".to_string(), SearchState::First, state, false) {
        TabAction::SearchOn(text, _, 101, false) => assert_eq!(text, "milk"),
        _ => panic!("expected search on next tab"),
    }
    let mut state = SelectionState::new(100);
    state.advance();
    state.advance();
    state.advance();
    let _ = state.normalize(&[100, 101, 102]);
    match bar.handle_search_task("milk".to_string(), SearchState::First, state, false) {
        TabAction::Error(msg) => assert_eq!(msg, "Text 'milk' not found"),
        _ => panic!("expected not found"),
    }
    match bar.handle_key('N') {
        TabAction::Search(text, SearchState::First, _, _, true) => assert_eq!(text, "milk"),
        _ => panic!("expected continued search"),
    }
}

#[test]
fn selected_task_switches_tab() {
    let mut bar = bar();
    assert!(matches!(bar.handle_selected_task(102), TabAction::Switched(100, 102)));
    assert!(matches!(bar.handle_selected_task(102), TabAction::Nothing));
    match bar.handle_select_task(7, SelectionState::new(102)) {
        TabAction::SelectTask(7, _, 102) => {},
        _ => panic!("expected select request"),
    }
}

#[test]
fn switching_names_the_tabs_and_remembers_the_previous_one() {
    let mut bar = TabBar::new(vec![("a".to_string(), 10), ("b".to_string(), 11), ("c".to_string(), 12)]);
    assert!(matches!(bar.handle_key('3'), TabAction::Switched(10, 12)));
    assert!(matches!(bar.handle_key('3'), TabAction::Nothing));
    assert!(matches!(bar.handle_key('h'), TabAction::Switched(12, 11)));
    assert!(matches!(bar.handle_key('`'), TabAction::Switched(11, 12)));
    assert!(matches!(bar.handle_key('`'), TabAction::Switched(12, 11)));
    assert!(matches!(bar.handle_key('/'), TabAction::AskSearchText));
    assert_eq!(bar.selection(), 1);
    assert!(matches!(bar.handle_key('`'), TabAction::Switched(11, 12)));
}

#[test]
fn continuing_a_search_starts_where_it_was_found() {
    let mut bar = TabBar::new(vec![("a".to_string(), 10), ("b".to_string(), 11)]);
    assert!(matches!(bar.handle_key('?'), TabAction::AskSearchText));
    let (text, search_state, selection, tab, reverse) = match bar.handle_entered_text("Milk".to_string()) {
        TabAction::Search(text, search_state, selection, tab, reverse) => (text, search_state, selection, tab, reverse),
        _ => panic!("expected search"),
    };
    assert_eq!((text.as_str(), search_state, tab, reverse), ("milk", SearchState::Current, 10, true));
    let mut selection = selection;
    selection.advance();
    let selection = match bar.handle_search_task(text, search_state, selection, reverse) {
        TabAction::SearchOn(text, selection, 11, true) => {
            assert_eq!(text, "milk");
            selection
        },
        _ => panic!("expected search on the next tab"),
    };
    assert!(matches!(bar.handle_search_task("milk".to_string(), SearchState::Task(4), selection, true), TabAction::Nothing));
    assert_eq!(bar.selection(), 0);
    match bar.handle_key('n') {
        TabAction::Search(text, SearchState::Task(4), _, 11, false) => assert_eq!(text, "milk"),
        _ => panic!("expected the search to go on"),
    }
}
