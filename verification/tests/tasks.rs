use std::rc::Rc;

use notnow::db::Db;
use notnow::db::Item;
use notnow::ops::Ops;
use notnow::tags::Templates;
use notnow::tasks::Target;
use notnow::tasks::Task;
use notnow::tasks::TaskOp;
use notnow::tasks::Tasks;

const COMPLETE_TAG: &str = "complete";

fn new_task(summary: &str) -> Task {
    Task::with_summary_and_tags(summary.to_string(), Vec::new(), Rc::new(Templates::new()))
}

fn make_db(summaries: &[&str]) -> Db<Task, ()> {
    Db::from_iter_with_aux(summaries.iter().map(|s| (new_task(s), ())).collect())
}

fn new_item(db: &mut Db<Task, ()>, summary: &str) -> Item<Task> {
    db.new_item(new_task(summary))
}

fn summaries(db: &Db<Task, ()>) -> Vec<String> {
    db.iter().iter().map(|item| item.value().summary()).collect()
}

/// Serialized-like tasks: identifiers, summaries "1", "2", ..., no tags.
fn make_tasks(count: usize) -> Vec<(u128, String, Vec<usize>)> {
    (0..count)
        .map(|i| (1000 + i as u128, format!("{}", i + 1), Vec::new()))
        .collect()
}

fn tasks_from(tasks: Vec<(u128, String, Vec<usize>)>) -> Tasks {
    Tasks::with_serde(tasks, Rc::new(Templates::new())).unwrap()
}

fn nth(tasks: &Tasks, n: usize) -> Item<Task> {
    tasks.iter()[n].clone()
}

#[test]
fn task_tag_query_and_adjustment() {
    let templates = Templates::with_serde(vec![(42, COMPLETE_TAG.to_string())]).unwrap();
    let complete = templates.instantiate_from_name(COMPLETE_TAG);

    let mut task = new_task("test task");
    assert!(!task.has_tag(&complete));

    assert!(task.set_tag(complete.clone()));
    assert!(task.has_tag(&complete));
    assert!(!task.set_tag(complete.clone()));
    assert!(task.has_tag(&complete));

    assert!(task.unset_tag(&complete));
    assert!(!task.has_tag(&complete));
    assert!(!task.unset_tag(&complete));
    assert!(!task.has_tag(&complete));
}

#[test]
fn exec_undo_task_add_empty() {
    let mut tasks = make_db(&[]);
    let mut ops = Ops::new(3);

    let task1 = new_item(&mut tasks, "task1");
    let op = TaskOp::add(task1, None);
    ops.exec(op, &mut tasks);
    assert_eq!(tasks.iter().len(), 1);
    assert_eq!(tasks.get(0).unwrap().item().value().summary(), "task1");

    ops.undo(&mut tasks);
    assert_eq!(tasks.iter().len(), 0);

    ops.redo(&mut tasks);
    assert_eq!(tasks.iter().len(), 1);
    assert_eq!(tasks.get(0).unwrap().item().value().summary(), "task1");
}

#[test]
fn exec_undo_task_add_non_empty() {
    let mut tasks = make_db(&["task1"]);
    let mut ops = Ops::new(3);
    let task2 = new_item(&mut tasks, "task2");
    let op = TaskOp::add(task2, None);
    ops.exec(op, &mut tasks);
    assert_eq!(summaries(&tasks), vec!["task1", "task2"]);

    let task3 = new_item(&mut tasks, "task3");
    let after = tasks.get(0).unwrap().item().clone();
    let op = TaskOp::add(task3, Some(after));
    ops.exec(op, &mut tasks);
    assert_eq!(summaries(&tasks), vec!["task1", "task3", "task2"]);

    ops.undo(&mut tasks);
    assert_eq!(summaries(&tasks), vec!["task1", "task2"]);

    ops.undo(&mut tasks);
    assert_eq!(summaries(&tasks), vec!["task1"]);
}

#[test]
fn exec_undo_task_remove_single() {
    let mut tasks = make_db(&["task1"]);
    let mut ops = Ops::new(3);

    let task = tasks.get(0).unwrap().item().clone();
    let op = TaskOp::remove(task);
    ops.exec(op, &mut tasks);
    assert_eq!(tasks.iter().len(), 0);

    ops.undo(&mut tasks);
    assert_eq!(summaries(&tasks), vec!["task1"]);

    ops.redo(&mut tasks);
    assert_eq!(tasks.iter().len(), 0);
}

#[test]
fn exec_undo_task_remove_multi() {
    let mut tasks = make_db(&["task1", "task2", "task3"]);
    let mut ops = Ops::new(3);

    let task = tasks.get(1).unwrap().item().clone();
    let op = TaskOp::remove(task);
    ops.exec(op, &mut tasks);
    assert_eq!(summaries(&tasks), vec!["task1", "task3"]);

    ops.undo(&mut tasks);
    assert_eq!(summaries(&tasks), vec!["task1", "task2", "task3"]);

    ops.redo(&mut tasks);
    assert_eq!(summaries(&tasks), vec!["task1", "task3"]);
}

#[test]
fn exec_undo_task_update() {
    let mut tasks = make_db(&["task1", "task2"]);
    let mut ops = Ops::new(3);

    let task = tasks.get(0).unwrap().item().clone();
    let mut updated = task.value().clone();
    updated.set_summary("foo!".to_string());
    let op = TaskOp::update(task, updated);
    ops.exec(op, &mut tasks);
    assert_eq!(summaries(&tasks), vec!["foo!", "task2"]);

    ops.undo(&mut tasks);
    assert_eq!(summaries(&tasks), vec!["task1", "task2"]);

    ops.redo(&mut tasks);
    assert_eq!(summaries(&tasks), vec!["foo!", "task2"]);
}

#[test]
fn exec_undo_task_move() {
    let mut tasks = make_db(&["task1", "task2"]);
    let mut ops = Ops::new(3);

    let task = tasks.get(1).unwrap().item().clone();
    let before = tasks.get(0).unwrap().item().clone();
    let op = TaskOp::move_(task, Target::Before(before));
    ops.exec(op, &mut tasks);
    assert_eq!(summaries(&tasks), vec!["task2", "task1"]);

    ops.undo(&mut tasks);
    assert_eq!(summaries(&tasks), vec!["task1", "task2"]);

    let task = tasks.get(1).unwrap().item().clone();
    let after = tasks.get(0).unwrap().item().clone();
    let op = TaskOp::move_(task, Target::After(after));
    ops.exec(op, &mut tasks);
    assert_eq!(summaries(&tasks), vec!["task1", "task2"]);

    ops.undo(&mut tasks);
    assert_eq!(summaries(&tasks), vec!["task1", "task2"]);
}

#[test]
fn tasks_add_task() {
    let task_vec = make_tasks(3);
    let mut tasks = tasks_from(task_vec.clone());
    let task = tasks.add("4".to_string(), Vec::new(), None);

    let tasks = tasks.to_serde();
    let mut expected = task_vec;
    expected.push(task.value().to_serde());
    assert_eq!(tasks, expected);
}

#[test]
fn add_task_after() {
    let task_vec = make_tasks(3);
    let mut tasks = tasks_from(task_vec.clone());
    let after = nth(&tasks, 0);
    let task = tasks.add("4".to_string(), Vec::new(), Some(after));

    let tasks = tasks.to_serde();
    let mut expected = task_vec;
    expected.insert(1, task.value().to_serde());
    assert_eq!(tasks, expected);
}

#[test]
fn remove_task() {
    let task_vec = make_tasks(3);
    let mut tasks = tasks_from(task_vec.clone());
    let task = nth(&tasks, 1);
    tasks.remove(task);

    let tasks = tasks.to_serde();
    let mut expected = task_vec;
    expected.remove(1);
    assert_eq!(tasks, expected);
}

#[test]
fn update_task() {
    let task_vec = make_tasks(3);
    let mut tasks = tasks_from(task_vec.clone());
    let task = nth(&tasks, 1);
    let mut updated = task.value().clone();
    updated.set_summary("amended".to_string());
    tasks.update(task, updated);

    let tasks = tasks.to_serde();
    let mut expected = task_vec;
    expected[1].1 = "amended".to_string();
    assert_eq!(tasks, expected);
}

#[test]
fn move_before_for_first() {
    let task_vec = make_tasks(3);
    let mut tasks = tasks_from(task_vec.clone());
    let task1 = nth(&tasks, 0);
    let task2 = nth(&tasks, 1);
    tasks.move_before(task1, task2);

    assert_eq!(tasks.to_serde(), task_vec);
}

#[test]
fn move_after_for_last() {
    let task_vec = make_tasks(3);
    let mut tasks = tasks_from(task_vec.clone());
    let task1 = nth(&tasks, 2);
    let task2 = nth(&tasks, 1);
    tasks.move_after(task1, task2);

    assert_eq!(tasks.to_serde(), task_vec);
}

#[test]
fn move_before() {
    let task_vec = make_tasks(4);
    let mut tasks = tasks_from(task_vec.clone());
    let task1 = nth(&tasks, 2);
    let task2 = nth(&tasks, 1);
    tasks.move_before(task1, task2);

    let mut expected = task_vec;
    expected.swap(2, 1);
    assert_eq!(tasks.to_serde(), expected);
}

#[test]
fn move_after() {
    let task_vec = make_tasks(4);
    let mut tasks = tasks_from(task_vec.clone());
    let task1 = nth(&tasks, 1);
    let task2 = nth(&tasks, 2);
    tasks.move_after(task1, task2);

    let mut expected = task_vec;
    expected.swap(1, 2);
    assert_eq!(tasks.to_serde(), expected);
}

#[test]
fn undo_restores_and_redo_reapplies() {
    let task_vec = make_tasks(3);
    let mut tasks = tasks_from(task_vec.clone());
    let task = nth(&tasks, 0);
    tasks.remove(task);
    let task = nth(&tasks, 1);
    tasks.move_before(task, nth(&tasks, 0));
    let after_ops = tasks.to_serde();

    assert!(tasks.undo().is_some());
    assert!(tasks.undo().is_some());
    assert_eq!(tasks.to_serde(), task_vec);
    assert!(tasks.undo().is_none());

    assert!(tasks.redo().is_some());
    assert!(tasks.redo().is_some());
    assert_eq!(tasks.to_serde(), after_ops);
    assert!(tasks.redo().is_none());
}

#[test]
fn task_creation_from_tag_identifiers() {
    let templates = Rc::new(
        Templates::with_serde(vec![(1, "a".to_string()), (2, "b".to_string())]).unwrap(),
    );
    let task = Task::with_serde(7, "t".to_string(), vec![2, 1, 2], templates.clone()).unwrap();
    assert_eq!(task.to_serde(), (7, "t".to_string(), vec![1, 2]));

    let bad = Task::with_serde(7, "t".to_string(), vec![1, 3, 4], templates.clone());
    assert_eq!(bad.err(), Some(3));

    let tasks = Tasks::with_serde(
        vec![(1, "x".to_string(), vec![1]), (2, "y".to_string(), vec![5])],
        templates,
    );
    assert_eq!(tasks.err(), Some(5));
}
