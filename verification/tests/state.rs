use notnow::named_view::View;
use notnow::state::StateError;
use notnow::state::UiConfig;
use notnow::tags::Templates;
use notnow::view::FormulaPair;
use notnow::state::TaskState;

fn templates() -> Vec<(usize, String)> {
    vec![(1, "complete".to_string()), (2, "tag1".to_string())]
}

#[test]
fn task_state_round_trip() {
    let tasks = vec![
        (11, "1".to_string(), vec![2, 1]),
        (12, "2".to_string(), vec![]),
    ];
    let state = TaskState::with_serde(templates(), tasks).unwrap();
    let (templates_out, tasks_out) = state.to_serde();
    assert_eq!(templates_out, templates());
    assert_eq!(
        tasks_out,
        vec![(11, "1".to_string(), vec![1, 2]), (12, "2".to_string(), vec![])]
    );
}

#[test]
fn task_state_errors() {
    let mut dup = templates();
    dup.push((2, "again".to_string()));
    let result = TaskState::with_serde(dup, vec![]);
    assert_eq!(result.err(), Some(StateError::DuplicateTagId(2)));

    let result = TaskState::with_serde(templates(), vec![(1, "x".to_string(), vec![3])]);
    assert_eq!(result.err(), Some(StateError::InvalidTagId(3)));
}

#[test]
fn task_state_changes_through_tasks() {
    let mut state = TaskState::with_serde(templates(), vec![(5, "a".to_string(), vec![])]).unwrap();
    let tasks = state.tasks_mut();
    let _added = tasks.add("b".to_string(), Vec::new(), None);
    assert_eq!(state.tasks().to_serde().len(), 2);
    assert!(state.tasks_mut().undo().is_some());
    assert_eq!(state.tasks().to_serde().len(), 1);
}

#[test]
fn ui_config_defaults_and_toggle_tag() {
    let templates = Templates::with_serde(templates()).unwrap();

    let config = UiConfig::with_serde(Vec::new(), Some(1), Some(0), &templates).unwrap();
    assert_eq!(config.views.len(), 1);
    assert_eq!(config.views[0].0.name, "all");
    assert_eq!(config.views[0].0.formula.string, "");
    assert_eq!(config.toggle_tag.unwrap().name(), "complete");
    assert_eq!(config.selected, Some(0));

    let view = View {
        name: "tag1".to_string(),
        formula: FormulaPair::from_text("2".to_string()).unwrap(),
    };
    let config = UiConfig::with_serde(vec![(view, Some(3))], None, None, &templates).unwrap();
    assert_eq!(config.views.len(), 1);
    assert_eq!(config.views[0].0.name, "tag1");
    assert_eq!(config.views[0].1, Some(3));
    assert!(config.toggle_tag.is_none());

    let result = UiConfig::with_serde(Vec::new(), Some(7), None, &templates);
    assert_eq!(result.err(), Some(7));
}
