use notnow::selection::Selection;
use notnow::selection::SelectionState;
use notnow::tab_bar::SearchState;
use notnow::task_list_box::ListAction;
use notnow::task_list_box::TaskInfo;
use notnow::task_list_box::TaskListBox;

fn tasks() -> Vec<TaskInfo> {
    vec![
        TaskInfo { id: 10, summary: "Buy Milk".to_string(), complete: false },
        TaskInfo { id: 11, summary: "walk the dog".to_string(), complete: true },
        TaskInfo { id: 12, summary: "call mom".to_string(), complete: false },
    ]
}

#[test]
fn selection_moves_within_bounds() {
    let tasks = tasks();
    let mut list = TaskListBox::new(1);
    assert!(matches!(list.handle_key('k', &tasks), ListAction::Nothing));
    assert!(matches!(list.handle_key('j', &tasks), ListAction::Updated));
    assert_eq!(list.selection(tasks.len()), 1);
    assert!(matches!(list.handle_key('G', &tasks), ListAction::Updated));
    assert_eq!(list.selection(tasks.len()), 2);
    assert!(matches!(list.handle_key('j', &tasks), ListAction::Nothing));
    assert!(matches!(list.handle_key('g', &tasks), ListAction::Updated));
    assert_eq!(list.selection(tasks.len()), 0);
    assert!(matches!(list.handle_key('x', &tasks), ListAction::Unhandled));
}

#[test]
fn keys_ask_for_task_changes() {
    let tasks = tasks();
    let mut list = TaskListBox::new(1);
    assert!(matches!(list.handle_key(' ', &tasks), ListAction::Toggle(10)));
    assert!(matches!(list.handle_key('d', &tasks), ListAction::Remove(10)));
    assert!(matches!(list.handle_key('J', &tasks), ListAction::MoveAfter(10, 11)));
    assert_eq!(list.selection(tasks.len()), 1);
    assert!(matches!(list.handle_key('K', &tasks), ListAction::MoveBefore(11, 10)));
    assert_eq!(list.selection(tasks.len()), 0);
    assert!(matches!(list.handle_key('K', &tasks), ListAction::Nothing));
    match list.handle_key('e', &tasks) {
        ListAction::StartInput(text, idx) => {
            assert_eq!(text, "Buy Milk");
            assert_eq!(idx, 8);
        },
        _ => panic!("expected input"),
    }
    match list.handle_entered_text("Buy Bread".to_string(), &tasks) {
        ListAction::UpdateSummary(10, text) => assert_eq!(text, "Buy Bread"),
        _ => panic!("expected update"),
    }
    assert!(matches!(list.handle_key('a', &tasks), ListAction::StartInput(_, 0)));
    match list.handle_entered_text("new".to_string(), &tasks) {
        ListAction::AddTask(text, Some(10)) => assert_eq!(text, "new"),
        _ => panic!("expected addition"),
    }
    assert!(matches!(list.handle_entered_text("x".to_string(), &tasks), ListAction::Unhandled));
    assert!(matches!(list.handle_input_canceled(), ListAction::Unhandled));
}

#[test]
fn search_finds_case_insensitively_and_moves_on() {
    let tasks = tasks();
    let mut list = TaskListBox::new(1);
    let needle: Vec<char> = "mom".chars().collect();
    let mut search_state = SearchState::Current;
    let mut selection_state = SelectionState::new(1);
    assert!(matches!(
        list.handle_search_task(&needle, &mut search_state, &mut selection_state, &tasks, false),
        ListAction::Selected(true)
    ));
    assert_eq!(search_state, SearchState::Task(2));
    assert_eq!(list.selection(tasks.len()), 2);

    let needle: Vec<char> = "milk".chars().collect();
    let mut search_state = SearchState::Task(0);
    assert!(matches!(
        list.handle_search_task(&needle, &mut search_state, &mut selection_state, &tasks, false),
        ListAction::Nothing
    ));
    assert_eq!(search_state, SearchState::First);
    assert!(selection_state.has_advanced());
}

#[test]
fn select_requests_bounce_when_task_missing() {
    let tasks = tasks();
    let mut list = TaskListBox::new(4);
    assert!(matches!(list.select_task_start(12, &tasks), ListAction::Selected(true)));
    match list.select_task_start(99, &tasks) {
        ListAction::Bounce(99, state) => {
            let mut expected = SelectionState::new(4);
            expected.advance();
            assert_eq!(state, expected);
        },
        _ => panic!("expected bounce"),
    }
    let _ = Selection::Start(4);
}

#[test]
fn search_in_reverse_goes_backward() {
    let tasks = vec![
        TaskInfo { id: 1, summary: "milk".to_string(), complete: false },
        TaskInfo { id: 2, summary: "bread".to_string(), complete: false },
        TaskInfo { id: 3, summary: "more milk".to_string(), complete: false },
    ];
    let mut list = TaskListBox::new(1);
    let needle: Vec<char> = "milk".chars().collect();
    let mut selection_state = SelectionState::new(1);
    let mut search_state = SearchState::First;
    assert!(matches!(
        list.handle_search_task(&needle, &mut search_state, &mut selection_state, &tasks, true),
        ListAction::Selected(true)
    ));
    assert_eq!(search_state, SearchState::Task(2));
    assert!(matches!(
        list.handle_search_task(&needle, &mut search_state, &mut selection_state, &tasks, true),
        ListAction::Selected(true)
    ));
    assert_eq!(search_state, SearchState::Task(0));
    assert!(matches!(
        list.handle_search_task(&needle, &mut search_state, &mut selection_state, &tasks, true),
        ListAction::Nothing
    ));
    assert_eq!(search_state, SearchState::First);
}
