use std::rc::Rc;

use notnow::in_out::InOut;
use notnow::in_out::InOutArea;
use notnow::in_out::InputEvent;
use notnow::in_out::Key;
use notnow::tab_bar::SearchState;
use notnow::tab_bar::TabAction;
use notnow::tab_bar::TabBar;
use notnow::tags::Tag;
use notnow::tags::Templates;
use notnow::task_list_box::apply;
use notnow::task_list_box::task_infos;
use notnow::task_list_box::ListAction;
use notnow::task_list_box::TaskInfo;
use notnow::task_list_box::TaskListBox;
use notnow::tasks::Tasks;
use notnow::term_ui::handle_key as handle_top_key;
use notnow::term_ui::save_outcome;
use notnow::term_ui::KeyAction;
use notnow::view::TagLit;

const FIRST_LIST_ID: u64 = 10;
const AREA_ID: u64 = 2;
const BAR_ID: u64 = 3;
const COMPLETE_TAG: &str = "complete";

/// A key press: a character or another key.
enum Ev {
    C(char),
    K(Key),
}

fn chars(text: &str) -> Vec<Ev> {
    text.chars().map(Ev::C).collect()
}

/// Task lists, one per view, under a tab bar, with an input area, wired
/// together as the terminal UI does it.
struct TestUi {
    tasks: Tasks,
    lists: Vec<(TaskListBox, Vec<Vec<TagLit>>)>,
    bar: TabBar,
    area: InOutArea,
    complete: Tag,
    quit: bool,
    updated: bool,
}

impl TestUi {
    fn new(templates: Vec<(usize, String)>, tasks: Vec<(u128, String, Vec<usize>)>, views: Vec<Vec<Vec<TagLit>>>) -> TestUi {
        let templates = Rc::new(Templates::with_serde(templates).unwrap());
        let complete = templates.instantiate_from_name(COMPLETE_TAG);
        let lists = views
            .into_iter()
            .enumerate()
            .map(|(i, cnf)| (TaskListBox::new(FIRST_LIST_ID + i as u64), cnf))
            .collect::<Vec<_>>();
        let bar = TabBar::new((0..lists.len()).map(|i| (format!("view{}", i), FIRST_LIST_ID + i as u64)).collect());
        TestUi {
            tasks: Tasks::with_serde(tasks, templates).unwrap(),
            lists,
            bar,
            area: InOutArea::new(AREA_ID),
            complete,
            quit: false,
            updated: false,
        }
    }

    /// A UI with one view of the untagged tasks "1" to `count`.
    fn with_tasks(count: usize) -> TestUi {
        let tasks = (0..count).map(|i| (i as u128 + 100, format!("{}", i + 1), Vec::new())).collect();
        TestUi::new(vec![(1, COMPLETE_TAG.to_string())], tasks, vec![Vec::new()])
    }

    /// A UI with the views "all", "tag complete", "tag2 || tag3" and
    /// "tag1 && tag3" of 15 tagged tasks.
    fn with_default_tasks_and_tags() -> TestUi {
        let (templates, tasks) = make_tasks_with_tags(15);
        let views = vec![
            Vec::new(),
            vec![vec![TagLit::Pos(1)]],
            vec![vec![TagLit::Pos(3), TagLit::Pos(4)]],
            vec![vec![TagLit::Pos(2)], vec![TagLit::Pos(4)]],
        ];
        TestUi::new(templates, tasks, views)
    }

    fn infos_of(&self, tab: usize) -> Vec<TaskInfo> {
        task_infos(&self.tasks, &self.lists[tab].1, Some(&self.complete))
    }

    fn infos(&self) -> Vec<TaskInfo> {
        self.infos_of(self.bar.selection())
    }

    fn tab_of(&self, id: u64) -> usize {
        (id - FIRST_LIST_ID) as usize
    }

    /// Select the task `id`, starting with the current tab and going on
    /// to the others as the tab bar asks.
    fn select(&mut self, id: u64) {
        let tab = self.bar.selection();
        let infos = self.infos_of(tab);
        let mut action = self.lists[tab].0.select_task_start(id, &infos);
        loop {
            match action {
                ListAction::Bounce(id, state) => match self.bar.handle_select_task(id, state) {
                    TabAction::SelectTask(id, state, widget) => {
                        let tab = self.tab_of(widget);
                        let infos = self.infos_of(tab);
                        action = self.lists[tab].0.handle_select_task(id, state, &infos);
                        if let ListAction::Selected(_) = action {
                            let _switched = self.bar.handle_selected_task(widget);
                            return;
                        }
                    },
                    _ => return,
                },
                _ => return,
            }
        }
    }

    /// Show `in_out` in the input/output area, noting whether it changed.
    fn show(&mut self, in_out: InOut, focused: Option<u64>) {
        if self.area.handle_set_in_out(in_out, focused) {
            self.updated = true;
        }
    }

    fn run(&mut self, action: ListAction, key: Option<char>) {
        let tab = self.bar.selection();
        match action {
            ListAction::StartInput(text, idx) => {
                self.show(InOut::Input(text, idx), Some(FIRST_LIST_ID + tab as u64));
            },
            ListAction::Unhandled => {
                if let Some(key) = key {
                    match self.bar.handle_key(key) {
                        TabAction::Unhandled => match handle_top_key(&Key::Char(key)) {
                            KeyAction::Quit => self.quit = true,
                            KeyAction::Save => {
                                self.show(save_outcome(Ok(())), None);
                            },
                            KeyAction::Forward => {},
                        },
                        TabAction::Switched(..) => self.updated = true,
                        action => self.run_tab_action(action),
                    }
                }
            },
            ListAction::Nothing | ListAction::Selected(false) => {},
            ListAction::Updated | ListAction::Selected(true) => self.updated = true,
            action => {
                self.updated = true;
                if let Some(id) = apply(&mut self.tasks, action, Some(&self.complete)) {
                    self.select(id);
                }
            },
        }
    }

    /// Carry out what the tab bar asked for.
    fn run_tab_action(&mut self, action: TabAction) {
        let mut action = action;
        loop {
            let (string, mut search_state, mut selection_state, widget, reverse) = match action {
                TabAction::Error(message) => {
                    self.show(InOut::Error(message), None);
                    return;
                },
                TabAction::AskSearchText => {
                    self.show(InOut::Input(String::new(), 0), Some(BAR_ID));
                    return;
                },
                TabAction::Search(string, search_state, selection_state, widget, reverse) => {
                    (string, search_state, selection_state, widget, reverse)
                },
                TabAction::SearchOn(string, selection_state, widget, reverse) => {
                    (string, SearchState::First, selection_state, widget, reverse)
                },
                _ => return,
            };
            let tab = self.tab_of(widget);
            let infos = self.infos_of(tab);
            let needle = string.chars().collect::<Vec<_>>();
            let found = self.lists[tab].0.handle_search_task(&needle, &mut search_state, &mut selection_state, &infos, reverse);
            if let ListAction::Selected(_) = found {
                let _switched = self.bar.handle_selected_task(widget);
                self.show(InOut::Search(string.clone()), None);
            }
            action = self.bar.handle_search_task(string, search_state, selection_state, reverse);
        }
    }

    /// Handle a single key press and tell whether anything is to be
    /// drawn again.
    fn evaluate(&mut self, event: Ev) -> bool {
        self.updated = false;
        self.handle(vec![event]);
        self.updated
    }

    fn in_out(&self) -> &InOut {
        self.area.state()
    }

    fn handle(&mut self, events: Vec<Ev>) -> &mut Self {
        for event in events {
            if self.quit {
                break;
            }
            let input = match self.area.state() {
                InOut::Input(text, idx) => Some((text.clone(), *idx)),
                _ => None,
            };
            match input {
                Some((text, idx)) => {
                    let key = match event {
                        Ev::C(c) => Key::Char(c),
                        Ev::K(key) => key,
                    };
                    let outcome = self.area.handle_key(text, idx, key);
                    if outcome.updated {
                        self.updated = true;
                    }
                    if let Some((BAR_ID, event)) = outcome.directed {
                        if let InputEvent::EnteredText(text) = event {
                            let action = self.bar.handle_entered_text(text);
                            self.run_tab_action(action);
                        }
                    } else if let Some((_, event)) = outcome.directed {
                        let tab = self.bar.selection();
                        let infos = self.infos();
                        let action = match event {
                            InputEvent::EnteredText(text) => self.lists[tab].0.handle_entered_text(text, &infos),
                            InputEvent::InputCanceled => self.lists[tab].0.handle_input_canceled(),
                        };
                        self.run(action, None);
                    }
                },
                None => {
                    let (_, gen) = self.area.hooked_event();
                    if let Ev::C(c) = event {
                        let infos = self.infos();
                        if !(c == ' ' && infos.is_empty()) {
                            let tab = self.bar.selection();
                            let action = self.lists[tab].0.handle_key(c, &infos);
                            self.run(action, Some(c));
                        }
                    }
                    if self.area.handle_clear(gen) {
                        self.updated = true;
                    }
                },
            }
        }
        self
    }

    fn summaries(&self) -> Vec<String> {
        self.tasks.to_serde().into_iter().map(|task| task.1).collect()
    }

    fn tags(&self) -> Vec<Vec<usize>> {
        self.tasks.to_serde().into_iter().map(|task| task.2).collect()
    }

    fn completion(&self) -> Vec<bool> {
        self.infos().into_iter().map(|info| info.complete).collect()
    }
}

/// Templates "complete", "tag1", ... and tasks "1" to `count`: every
/// second one is complete, the later ones carry more tags.
fn make_tasks_with_tags(count: usize) -> (Vec<(usize, String)>, Vec<(u128, String, Vec<usize>)>) {
    let templates = (0..=count / 4)
        .map(|x| if x == 0 { (1, COMPLETE_TAG.to_string()) } else { (x + 1, format!("tag{}", x)) })
        .collect();
    let tasks = (0..count)
        .map(|x| {
            let mut tags = Vec::new();
            if x % 2 == 1 {
                tags.push(1);
            }
            if x >= 4 {
                tags.push(x / 4 + 1);
            }
            if x >= 8 && x % 4 >= 2 {
                tags.extend((1..x / 4).map(|t| t + 1));
            }
            (x as u128 + 100, format!("{}", x + 1), tags)
        })
        .collect();
    (templates, tasks)
}

fn tagged_summaries(count: usize) -> Vec<String> {
    make_tasks_with_tags(count).1.into_iter().map(|task| task.1).collect()
}

fn make_tasks(count: usize) -> Vec<String> {
    (0..count).map(|i| format!("{}", i + 1)).collect()
}

#[test]
fn remove_no_task() {
    let tasks = TestUi::with_tasks(0).handle(chars("d")).summaries();
    assert_eq!(tasks, make_tasks(0))
}

#[test]
fn remove_only_task() {
    let tasks = TestUi::with_tasks(1).handle(chars("d")).summaries();
    assert_eq!(tasks, make_tasks(0))
}

#[test]
fn remove_task_after_down_select() {
    let tasks = TestUi::with_tasks(2).handle(chars("jjjjjd")).summaries();
    assert_eq!(tasks, make_tasks(1))
}

#[test]
fn remove_task_after_up_select() {
    let tasks = TestUi::with_tasks(3).handle(chars("jjkd")).summaries();
    let mut expected = make_tasks(3);
    expected.remove(1);
    assert_eq!(tasks, expected)
}

#[test]
fn remove_last_task() {
    let tasks = TestUi::with_tasks(3).handle(chars("jjdkd")).summaries();
    let mut expected = make_tasks(3);
    expected.remove(0);
    expected.remove(1);
    assert_eq!(tasks, expected)
}

#[test]
fn remove_second_to_last_task() {
    let tasks = TestUi::with_tasks(5).handle(chars("Gkd")).summaries();
    let mut expected = make_tasks(5);
    expected.remove(3);
    assert_eq!(tasks, expected)
}

#[test]
fn remove_second_task_after_up_select() {
    let tasks = TestUi::with_tasks(3).handle(chars("kkkkkkjd")).summaries();
    let mut expected = make_tasks(3);
    expected.remove(1);
    assert_eq!(tasks, expected)
}

#[test]
fn selection_after_removal() {
    let mut events = chars("Gde");
    events.push(Ev::K(Key::Backspace));
    events.push(Ev::C('o'));
    events.push(Ev::K(Key::Return));
    let tasks = TestUi::with_tasks(5).handle(events).summaries();
    let mut expected = make_tasks(4);
    expected[3] = "o".to_string();
    assert_eq!(tasks, expected)
}

#[test]
fn termui_add_task() {
    let mut events = chars("afoobar");
    events.push(Ev::K(Key::Return));
    let tasks = TestUi::with_tasks(0).handle(events).summaries();
    assert_eq!(tasks, vec!["foobar".to_string()])
}

#[test]
fn add_and_remove_tasks() {
    let mut events = chars("afoo");
    events.push(Ev::K(Key::Return));
    events.extend(chars("abar"));
    events.push(Ev::K(Key::Return));
    events.extend(chars("dd"));
    let tasks = TestUi::with_tasks(0).handle(events).summaries();
    assert_eq!(tasks, make_tasks(0))
}

#[test]
fn add_task_cancel() {
    let mut events = chars("afoobaz");
    events.push(Ev::K(Key::Esc));
    let tasks = TestUi::with_tasks(0).handle(events).summaries();
    assert_eq!(tasks, make_tasks(0))
}

#[test]
fn add_task_with_character_removal() {
    let mut events = chars("afoo");
    events.push(Ev::K(Key::Backspace));
    events.push(Ev::K(Key::Backspace));
    events.push(Ev::K(Key::Backspace));
    events.extend(chars("baz"));
    events.push(Ev::K(Key::Return));
    let tasks = TestUi::with_tasks(1).handle(events).summaries();
    let mut expected = make_tasks(2);
    expected[1] = "baz".to_string();
    assert_eq!(tasks, expected)
}

#[test]
fn add_task_with_cursor_movement() {
    let mut events = chars("a");
    events.push(Ev::K(Key::Delete));
    events.push(Ev::K(Key::Right));
    events.extend(chars("st"));
    events.push(Ev::K(Key::Home));
    events.push(Ev::K(Key::Home));
    events.extend(chars("te"));
    events.push(Ev::K(Key::End));
    events.push(Ev::K(Key::End));
    events.push(Ev::K(Key::Delete));
    events.extend(chars("42"));
    events.push(Ev::K(Key::Return));
    let tasks = TestUi::with_tasks(1).handle(events).summaries();
    let mut expected = make_tasks(2);
    expected[1] = "test42".to_string();
    assert_eq!(tasks, expected)
}

#[test]
fn add_empty_task() {
    let mut events = chars("a");
    events.push(Ev::K(Key::Return));
    let tasks = TestUi::with_tasks(1).handle(events).summaries();
    assert_eq!(tasks, make_tasks(1))
}

#[test]
fn complete_task() {
    let completion = TestUi::with_tasks(3).handle(chars("j j  ")).completion();
    assert!(!completion[0]);
    assert!(completion[1]);
    assert!(!completion[2]);
}

#[test]
fn edit_task() {
    let mut events = chars("je");
    events.push(Ev::K(Key::Backspace));
    events.extend(chars("amend"));
    events.push(Ev::K(Key::Return));
    let tasks = TestUi::with_tasks(3).handle(events).summaries();
    let mut expected = make_tasks(3);
    expected[1] = "amend".to_string();
    assert_eq!(tasks, expected);
}

#[test]
fn edit_task_cancel() {
    let mut events = chars("je");
    events.push(Ev::K(Key::Esc));
    events.extend(chars("afoo"));
    events.push(Ev::K(Key::Return));
    let tasks = TestUi::with_tasks(3).handle(events).summaries();
    let mut expected = make_tasks(4);
    expected[3] = "foo".to_string();
    assert_eq!(tasks, expected);
}

#[test]
fn edit_task_to_empty() {
    let mut events = chars("je");
    events.push(Ev::K(Key::Backspace));
    events.push(Ev::K(Key::Return));
    let tasks = TestUi::with_tasks(3).handle(events).summaries();
    let mut expected = make_tasks(3);
    expected.remove(1);
    assert_eq!(tasks, expected)
}

#[test]
fn edit_task_with_cursor_movement() {
    let mut events = chars("jje");
    events.push(Ev::K(Key::Left));
    events.push(Ev::K(Key::Left));
    events.push(Ev::K(Key::Left));
    events.push(Ev::K(Key::Delete));
    events.extend(chars("ta"));
    events.push(Ev::K(Key::Left));
    events.push(Ev::K(Key::Delete));
    events.push(Ev::K(Key::Right));
    events.extend(chars("est"));
    events.push(Ev::K(Key::Right));
    events.push(Ev::K(Key::Right));
    events.push(Ev::K(Key::Return));
    let tasks = TestUi::with_tasks(3).handle(events).summaries();
    let mut expected = make_tasks(3);
    expected[2] = "test".to_string();
    assert_eq!(tasks, expected);
}

#[test]
fn move_no_or_one_task_up_or_down() {
    fn test_tasks(count: usize, key: char) {
        let tasks = TestUi::with_tasks(count).handle(vec![Ev::C(key)]).summaries();
        assert_eq!(tasks, make_tasks(count));
    }

    test_tasks(0, 'J');
    test_tasks(1, 'J');
    test_tasks(0, 'K');
    test_tasks(1, 'K');
}

#[test]
fn move_task_down() {
    let tasks = TestUi::with_tasks(3).handle(chars("J")).summaries();
    let mut expected = make_tasks(3);
    expected.swap(0, 1);
    assert_eq!(tasks, expected);
}

#[test]
fn move_task_up() {
    let tasks = TestUi::with_tasks(3).handle(chars("GK")).summaries();
    let mut expected = make_tasks(3);
    expected.swap(2, 1);
    assert_eq!(tasks, expected);
}

#[test]
fn move_second_task_down() {
    let tasks = TestUi::with_tasks(4).handle(chars("jJ")).summaries();
    let mut expected = make_tasks(4);
    expected.swap(1, 2);
    assert_eq!(tasks, expected);
}

#[test]
fn move_second_task_up() {
    let tasks = TestUi::with_tasks(4).handle(chars("jK")).summaries();
    let mut expected = make_tasks(4);
    expected.swap(1, 0);
    assert_eq!(tasks, expected);
}

#[test]
fn moving_down_twice_keeps_the_task_selected() {
    let tasks = TestUi::with_tasks(4).handle(chars("JJ")).summaries();
    assert_eq!(tasks, vec!["2", "3", "1", "4"]);
}

#[test]
fn added_task_takes_tags_but_completion() {
    let mut ui = TestUi::new(
        vec![(1, COMPLETE_TAG.to_string()), (2, "tag1".to_string())],
        vec![(7, "done".to_string(), vec![1, 2])],
        vec![Vec::new()],
    );
    let mut events = chars("anew");
    events.push(Ev::K(Key::Return));
    ui.handle(events);
    let tasks = ui.tasks.to_serde();
    assert_eq!(tasks.len(), 2);
    assert_eq!(tasks[1].1, "new");
    assert_eq!(tasks[1].2, vec![2]);
    assert_eq!(ui.lists[0].0.selection(2), 1);
}

#[test]
fn actions_on_missing_tasks_change_nothing() {
    let mut ui = TestUi::with_tasks(2);
    let missing = 1000;
    assert!(apply(&mut ui.tasks, ListAction::Remove(missing), Some(&ui.complete)).is_none());
    assert!(apply(&mut ui.tasks, ListAction::Toggle(missing), Some(&ui.complete)).is_none());
    assert!(apply(&mut ui.tasks, ListAction::UpdateSummary(missing, "x".to_string()), Some(&ui.complete)).is_none());
    assert!(apply(&mut ui.tasks, ListAction::MoveAfter(missing, 0), Some(&ui.complete)).is_none());
    assert!(apply(&mut ui.tasks, ListAction::Toggle(100), None).is_none());
    assert_eq!(ui.summaries(), make_tasks(2));
    assert_eq!(ui.completion(), vec![false, false]);
}

#[test]
fn transparent_task_removal_down_to_empty_query() {
    let mut events = chars("lllGhhhGdlll");
    events.push(Ev::C('e'));
    events.push(Ev::K(Key::Return));
    let tasks = TestUi::with_default_tasks_and_tags().handle(events).summaries();
    assert_eq!(tasks.len(), 14);
}

#[test]
fn tab_selection_by_number() {
    let mut events = chars("4ea");
    events.push(Ev::K(Key::Return));
    let tasks = TestUi::with_default_tasks_and_tags().handle(events).summaries();
    let mut expected = tagged_summaries(15);
    expected[14] = "15a".to_string();
    assert_eq!(tasks, expected);
}

#[test]
fn select_previous_tab() {
    let mut events = chars("2ea");
    events.push(Ev::K(Key::Return));
    events.extend(chars("4ea"));
    events.push(Ev::K(Key::Return));
    events.extend(chars("`jea"));
    events.push(Ev::K(Key::Return));
    let tasks = TestUi::with_default_tasks_and_tags().handle(events).summaries();
    let mut expected = tagged_summaries(15);
    expected[1] = "2a".to_string();
    expected[3] = "4a".to_string();
    expected[14] = "15a".to_string();
    assert_eq!(tasks, expected);
}

#[test]
fn select_last_tab_plus_one() {
    let tasks = TestUi::with_default_tasks_and_tags().handle(chars("0ld")).summaries();
    let mut expected = tagged_summaries(15);
    expected.remove(14);
    assert_eq!(tasks, expected);
}

#[test]
fn edit_multiple_tasks() {
    let mut events = chars("3ea");
    events.push(Ev::K(Key::Return));
    events.extend(chars("eb"));
    events.push(Ev::K(Key::Return));
    let tasks = TestUi::with_default_tasks_and_tags().handle(events).summaries();
    let mut expected = tagged_summaries(15);
    expected[8] = "9ab".to_string();
    assert_eq!(tasks, expected);
}

#[test]
fn add_task_from_completed_one() {
    let mut events = chars("latest");
    events.push(Ev::K(Key::Return));
    events.extend(chars("llgahi"));
    events.push(Ev::K(Key::Return));
    let mut ui = TestUi::with_default_tasks_and_tags();
    ui.handle(events);
    let summaries = ui.summaries();
    let tags = ui.tags();
    assert_eq!(summaries[15], "test");
    assert_eq!(tags[15], Vec::<usize>::new());
    assert_eq!(summaries[16], "hi");
    assert_eq!(tags[16], vec![3]);
}

#[test]
fn add_task_with_tags() {
    let mut events = chars("lllafoo");
    events.push(Ev::K(Key::Return));
    let mut ui = TestUi::with_default_tasks_and_tags();
    ui.handle(events);
    assert_eq!(ui.summaries()[15], "foo");
    assert_eq!(ui.tags()[15], vec![2, 3, 4]);
}

#[test]
fn search_abort() {
    fn test(c: char) {
        let mut events = chars(&format!("{}f", c));
        events.push(Ev::K(Key::Esc));
        let mut ui = TestUi::with_tasks(4);
        ui.handle(events);
        assert_eq!(ui.in_out(), &InOut::Clear);
    }

    test('/');
    test('?');
}

#[test]
fn search_tasks_not_found() {
    fn test(c: char) {
        let mut events = chars(&format!("{}foo", c));
        events.push(Ev::K(Key::Return));
        let mut ui = TestUi::with_tasks(8);
        ui.handle(events);
        assert_eq!(ui.in_out(), &InOut::Error("Text 'foo' not found".to_string()));
    }

    test('/');
    test('?');
}

#[test]
fn search_multiple_tabs_not_found() {
    fn test(c: char) {
        let mut events = chars(&format!("{}foo", c));
        events.push(Ev::K(Key::Return));
        let mut ui = TestUi::with_default_tasks_and_tags();
        ui.handle(events);
        assert_eq!(ui.in_out(), &InOut::Error("Text 'foo' not found".to_string()));
    }

    test('/');
    test('?');
}

#[test]
fn search_continue_without_start() {
    fn test(c: char) {
        let mut ui = TestUi::with_tasks(4);
        ui.handle(vec![Ev::C(c), Ev::C(c), Ev::C(c)]);
        assert_eq!(ui.in_out(), &InOut::Error("Nothing to search for".to_string()));
    }

    test('n');
    test('N');
}

#[test]
fn search_tasks_repeatedly_not_found() {
    fn test(c: char) {
        let mut events = chars("/z");
        events.push(Ev::K(Key::Return));
        events.push(Ev::C(c));
        let mut ui = TestUi::with_tasks(8);
        ui.handle(events);
        assert_eq!(ui.in_out(), &InOut::Error("Text 'z' not found".to_string()));
    }

    test('n');
    test('N');
}

#[test]
fn search_tasks() {
    let mut events = chars("/2");
    events.push(Ev::K(Key::Return));
    events.extend(chars("dnd"));
    let tasks = TestUi::with_tasks(12).handle(events).summaries();
    let mut expected = make_tasks(12);
    expected.remove(11);
    expected.remove(1);
    assert_eq!(tasks, expected);
}

#[test]
fn search_case_insensitive() {
    fn test(c: char) {
        let mut events = chars(&format!("{}coNd", c));
        events.push(Ev::K(Key::Return));
        events.push(Ev::C('d'));
        let mut ui = TestUi::new(
            vec![(1, COMPLETE_TAG.to_string())],
            vec![(1, "First".to_string(), Vec::new()), (2, "SeCOnd".to_string(), Vec::new())],
            vec![Vec::new()],
        );
        ui.handle(events);
        assert_eq!(ui.summaries(), vec!["First".to_string()]);
    }

    test('/');
    test('?');
}

#[test]
fn search_starting_at_selection() {
    let mut events = chars("jjjjj/1");
    events.push(Ev::K(Key::Return));
    events.push(Ev::C('d'));
    let tasks = TestUi::with_tasks(15).handle(events).summaries();
    let mut expected = make_tasks(15);
    expected.remove(9);
    assert_eq!(tasks, expected);
}

#[test]
fn search_overlapping() {
    let mut events = chars("G/2");
    events.push(Ev::K(Key::Return));
    events.push(Ev::C('d'));
    let tasks = TestUi::with_tasks(5).handle(events).summaries();
    let mut expected = make_tasks(5);
    expected.remove(1);
    assert_eq!(tasks, expected);
}

#[test]
fn search_tasks_on_multiple_tabs() {
    fn test(c1: char, c2: char) {
        let mut events = chars(&format!("l{}4", c1));
        events.push(Ev::K(Key::Return));
        events.push(Ev::C('d'));
        events.push(Ev::C(c2));
        events.push(Ev::C('d'));
        let tasks = TestUi::with_default_tasks_and_tags().handle(events).summaries();
        let mut expected = tagged_summaries(15);
        expected.remove(13);
        expected.remove(3);
        assert_eq!(tasks, expected);
    }

    test('/', 'n');
    test('/', 'N');
    test('?', 'n');
    test('?', 'N');
}

#[test]
fn search_wrap_around() {
    let mut events = chars("/2");
    events.push(Ev::K(Key::Return));
    events.extend(chars("ne"));
    events.push(Ev::K(Key::Backspace));
    events.push(Ev::K(Key::Backspace));
    events.extend(chars("aa"));
    events.push(Ev::K(Key::Return));
    events.extend(chars("nnd"));
    let tasks = TestUi::with_default_tasks_and_tags().handle(events).summaries();
    let mut expected = tagged_summaries(15);
    expected[11] = "aa".to_string();
    expected.remove(1);
    assert_eq!(tasks, expected);
}

#[test]
fn exit_on_quit() {
    let mut events = chars("qaf");
    events.push(Ev::K(Key::Return));
    let tasks = TestUi::with_tasks(0).handle(events).summaries();
    assert_eq!(tasks, make_tasks(0))
}

#[test]
fn in_out_state_after_write() {
    let mut ui = TestUi::with_tasks(2);
    ui.handle(chars("w"));
    assert_eq!(ui.in_out(), &InOut::Saved);
}

#[test]
fn in_out_state_after_write_and_key_press() {
    fn with_key(key: Ev) -> bool {
        let mut ui = TestUi::with_tasks(2);
        ui.handle(vec![Ev::C('w'), key]);
        ui.in_out() == &InOut::Clear
    }

    for c in 0u8..127u8 {
        let c = c as char;
        if c != 'a' && c != 'e' && c != 'n' && c != 'N' && c != 'w' && c != '/' && c != '?' {
            assert!(with_key(Ev::C(c)), "char: {} ({})", c, c as u8);
        }
    }

    assert!(with_key(Ev::K(Key::Esc)));
    assert!(with_key(Ev::K(Key::Return)));
    assert!(with_key(Ev::K(Key::Other)));
}

#[test]
fn in_out_state_on_edit() {
    fn with_key(key: Ev) -> Option<bool> {
        let mut ui = TestUi::with_tasks(4);
        ui.handle(vec![Ev::C('a'), key]);
        match ui.in_out() {
            InOut::Input(_, _) => Some(true),
            InOut::Clear => Some(false),
            _ => None,
        }
    }

    for c in 0u8..127u8 {
        assert_eq!(with_key(Ev::C(c as char)), Some(true), "Unexpected state for char {}", c);
    }

    assert_eq!(with_key(Ev::K(Key::Esc)), Some(false));
    assert_eq!(with_key(Ev::K(Key::Return)), Some(false));
}

#[test]
fn undo_restores_removed_and_moved_tasks() {
    let mut ui = TestUi::with_tasks(4);
    ui.handle(chars("jd"));
    assert_eq!(ui.summaries(), vec!["1", "3", "4"]);
    assert!(ui.tasks.undo().is_some());
    assert_eq!(ui.summaries(), make_tasks(4));

    ui.handle(chars("J"));
    assert_eq!(ui.summaries(), vec!["1", "3", "2", "4"]);
    assert!(ui.tasks.undo().is_some());
    assert_eq!(ui.summaries(), make_tasks(4));
    assert!(ui.tasks.redo().is_some());
    assert_eq!(ui.summaries(), vec!["1", "3", "2", "4"]);
}

#[test]
fn search_reverse() {
    let mut events = chars("?2");
    events.push(Ev::K(Key::Return));
    events.push(Ev::C('d'));
    let tasks = TestUi::with_tasks(12).handle(events).summaries();
    let mut expected = make_tasks(12);
    expected.remove(11);
    assert_eq!(tasks, expected);
}

#[test]
fn valid_update_events() {
    for c in 0u8..127u8 {
        let c = c as char;
        let mut ui = TestUi::with_tasks(0);
        let updated = ui.evaluate(Ev::C(c));
        let expected = c == '/' || c == '?' || c == 'a' || c == 'n' || c == 'N' || c == 'w';
        assert_eq!(updated, expected, "char: {} ({})", c, c as u8);
    }
}

#[test]
fn search_no_update_without_change() {
    let mut ui = TestUi::with_tasks(0);
    assert!(ui.evaluate(Ev::C('n')));
    assert!(!ui.evaluate(Ev::C('n')));
}
